//! Publisher period and `StartInstance` admission state.

use vstd::prelude::*;

use crate::error::CoordinatorError;
use crate::types::{PeriodId, SequenceNumber};

verus! {

/// Period-scoped state used to admit publisher-assigned instances.
///
/// The publisher's sequence number is global within a period. A sidecar may see
/// gaps for instances that do not include its chain, so admission only requires
/// strict advancement over the last sequence this sidecar accepted.
#[derive(Debug, Clone, Copy, PartialEq, Eq, Structural)]
pub struct PublisherPeriod {
    pub current: Option<PeriodId>,
    pub last_sequence: Option<SequenceNumber>,
}

/// The admission decision for `(period_id, sequence_number)` in state `p`:
/// the resulting state and the result.
pub open spec fn spec_accept_start_instance(
    p: PublisherPeriod,
    period_id: PeriodId,
    sequence_number: SequenceNumber,
) -> (PublisherPeriod, Result<(), CoordinatorError>) {
    match p.current {
        None => (p, Err(CoordinatorError::PeriodNotInitialized)),
        Some(current) => if period_id.0 < current.0 {
            (p, Err(CoordinatorError::StalePeriod { current, received: period_id }))
        } else if period_id.0 > current.0 {
            (p, Err(CoordinatorError::FuturePeriod { current, received: period_id }))
        } else {
            match p.last_sequence {
                Some(last) if sequence_number.0 <= last.0 => (
                    p,
                    Err(CoordinatorError::StaleSequence { last, received: sequence_number }),
                ),
                _ => (PublisherPeriod { last_sequence: Some(sequence_number), ..p }, Ok(())),
            }
        },
    }
}

impl PublisherPeriod {
    /// No period started yet.
    pub fn new() -> (p: Self)
        ensures
            p.current is None,
            p.last_sequence is None,
    {
        PublisherPeriod { current: None, last_sequence: None }
    }

    /// Starts a new period: later instances must carry `period_id`, and the
    /// sequence watermark is cleared.
    pub fn start(&mut self, period_id: PeriodId)
        ensures
            final(self).current == Some(period_id),
            final(self).last_sequence is None,
    {
        self.current = Some(period_id);
        self.last_sequence = None;
    }

    /// Forgets the current period (no instance is admitted until the next start).
    pub fn close(&mut self)
        ensures
            final(self).current is None,
            final(self).last_sequence is None,
    {
        *self = Self::new();
    }

    /// The current period, if one has started.
    pub fn current(&self) -> (c: Option<PeriodId>)
        ensures
            c == self.current,
    {
        self.current
    }

    /// Admits an instance of `period_id` with `sequence_number`: the period must
    /// be the current one and the sequence must strictly exceed the last one
    /// accepted in this period. On success the watermark moves to
    /// `sequence_number`; on failure the state is unchanged.
    pub fn accept_start_instance(
        &mut self,
        period_id: PeriodId,
        sequence_number: SequenceNumber,
    ) -> (r: Result<(), CoordinatorError>)
        ensures
            (*final(self), r) == spec_accept_start_instance(*old(self), period_id, sequence_number),
            r is Ok ==> (old(self).last_sequence matches Some(l) ==> l.0 < sequence_number.0),
            r is Ok ==> final(self).last_sequence == Some(sequence_number),
    {
        let current = match self.current {
            Some(c) => c,
            None => {
                return Err(CoordinatorError::PeriodNotInitialized);
            },
        };
        if period_id.0 < current.0 {
            return Err(CoordinatorError::StalePeriod { current, received: period_id });
        }
        if period_id.0 > current.0 {
            return Err(CoordinatorError::FuturePeriod { current, received: period_id });
        }
        if let Some(last) = self.last_sequence {
            if sequence_number.0 <= last.0 {
                return Err(CoordinatorError::StaleSequence { last, received: sequence_number });
            }
        }
        self.last_sequence = Some(sequence_number);
        Ok(())
    }
}

} // verus!
