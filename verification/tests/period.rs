use ethera_sidecar::error::CoordinatorError;
use ethera_sidecar::period::PublisherPeriod;
use ethera_sidecar::types::{PeriodId, SequenceNumber};

#[test]
fn rejects_until_period_starts() {
    let mut period = PublisherPeriod::new();
    assert!(matches!(
        period.accept_start_instance(PeriodId(1), SequenceNumber(1)),
        Err(CoordinatorError::PeriodNotInitialized)
    ));
}

#[test]
fn accepts_gapped_strictly_increasing_sequences() {
    let mut period = PublisherPeriod::new();
    period.start(PeriodId(7));
    period.accept_start_instance(PeriodId(7), SequenceNumber(11)).unwrap();
    period.accept_start_instance(PeriodId(7), SequenceNumber(19)).unwrap();
}

#[test]
fn rejects_period_mismatch() {
    let mut period = PublisherPeriod::new();
    period.start(PeriodId(7));
    assert!(matches!(
        period.accept_start_instance(PeriodId(6), SequenceNumber(1)),
        Err(CoordinatorError::StalePeriod { current: PeriodId(7), received: PeriodId(6) })
    ));
    assert!(matches!(
        period.accept_start_instance(PeriodId(8), SequenceNumber(1)),
        Err(CoordinatorError::FuturePeriod { current: PeriodId(7), received: PeriodId(8) })
    ));
}

#[test]
fn rejects_replayed_sequences() {
    let mut period = PublisherPeriod::new();
    period.start(PeriodId(7));
    period.accept_start_instance(PeriodId(7), SequenceNumber(3)).unwrap();
    assert!(matches!(
        period.accept_start_instance(PeriodId(7), SequenceNumber(3)),
        Err(CoordinatorError::StaleSequence { last: SequenceNumber(3), received: SequenceNumber(3) })
    ));
}

#[test]
fn start_resets_sequence() {
    let mut period = PublisherPeriod::new();
    period.start(PeriodId(7));
    period.accept_start_instance(PeriodId(7), SequenceNumber(3)).unwrap();
    period.start(PeriodId(8));
    period.accept_start_instance(PeriodId(8), SequenceNumber(1)).unwrap();
}

#[test]
fn rejected_instance_leaves_watermark() {
    let mut period = PublisherPeriod::new();
    period.start(PeriodId(2));
    period.accept_start_instance(PeriodId(2), SequenceNumber(5)).unwrap();
    assert!(period.accept_start_instance(PeriodId(2), SequenceNumber(4)).is_err());
    assert_eq!(period.last_sequence, Some(SequenceNumber(5)));
    period.close();
    assert_eq!(period.current(), None);
}
