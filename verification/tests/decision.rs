use ethera_sidecar::decision::StandaloneDecisionHandler;
use ethera_sidecar::error::CoordinatorError;

#[test]
fn unanimous_commit() {
    let mut handler = StandaloneDecisionHandler::new();
    handler.register("xt-1", 2);
    assert_eq!(handler.record_vote("xt-1", 901, true).unwrap(), None);
    assert_eq!(handler.record_vote("xt-1", 902, true).unwrap(), Some(true));
}

#[test]
fn one_abort_means_abort() {
    let mut handler = StandaloneDecisionHandler::new();
    handler.register("xt-2", 2);
    handler.record_vote("xt-2", 901, true).unwrap();
    assert_eq!(handler.record_vote("xt-2", 902, false).unwrap(), Some(false));
}

#[test]
fn vote_for_unknown_instance_is_an_error() {
    let mut handler = StandaloneDecisionHandler::new();
    assert_eq!(
        handler.record_vote("xt-9", 901, true),
        Err(CoordinatorError::InstanceNotFound("xt-9".to_string()))
    );
}

#[test]
fn repeated_vote_of_a_chain_counts_once() {
    let mut handler = StandaloneDecisionHandler::new();
    handler.register("xt-3", 2);
    assert_eq!(handler.record_vote("xt-3", 901, true).unwrap(), None);
    assert_eq!(handler.record_vote("xt-3", 901, false).unwrap(), None);
    assert_eq!(handler.record_vote("xt-3", 902, true).unwrap(), Some(false));
    // re-registering clears the votes
    handler.register("xt-3", 1);
    assert_eq!(handler.record_vote("xt-3", 902, true).unwrap(), Some(true));
}
