use ethera_sidecar::nonce::{live_end, DeferredNonceManager};

#[test]
fn reserve_starts_from_canonical_floor() {
    let mut manager = DeferredNonceManager::new();
    let start = manager.reserve("xt-1", 2, 7);
    assert_eq!(start, 7);
    // Second reserve must come after the first range, never below canonical.
    let next = manager.reserve("xt-2", 1, 7);
    assert_eq!(next, 9);
}

#[test]
fn canonical_floor_is_monotonic_under_live_reservation() {
    let mut manager = DeferredNonceManager::new();
    assert_eq!(manager.reserve("xt-1", 3, 7), 7);
    // A stale canonical read must not collide with the live range.
    assert_eq!(manager.reserve("xt-2", 1, 7), 10);
}

#[test]
fn aborted_nonces_are_recycled_for_next_reserve() {
    let mut manager = DeferredNonceManager::new();
    assert_eq!(manager.reserve("xt-1", 1, 5), 5);
    assert_eq!(manager.reserve("xt-2", 1, 5), 6);
    manager.release_aborted("xt-1");
    // Recycled nonce 5 is reused before allocating a fresh slot.
    assert_eq!(manager.reserve("xt-3", 1, 5), 5);
}

#[test]
fn confirmed_release_advances_canonical_floor() {
    let mut manager = DeferredNonceManager::new();
    assert_eq!(manager.reserve("xt-1", 2, 0), 0);
    manager.release_confirmed("xt-1");
    // Never hand out a nonce below the confirmed end.
    assert_eq!(manager.reserve("xt-2", 1, 0), 2);
    assert_eq!(manager.canonical_floor(), 2);
}

#[test]
fn canonical_advance_evicts_stale_recycled_and_live() {
    let mut manager = DeferredNonceManager::new();
    manager.reserve("xt-1", 1, 0);
    manager.reserve("xt-2", 1, 0);
    manager.release_aborted("xt-1");
    // Entries below the new canonical floor are dropped on the next reserve.
    assert_eq!(manager.reserve("xt-3", 1, 5), 5);
}

#[test]
fn rollover_race_does_not_reuse_inflight_nonce() {
    let mut manager = DeferredNonceManager::new();
    assert_eq!(manager.reserve("xt-a", 1, 7), 7);
    assert_eq!(manager.reserve("xt-b", 1, 7), 8);
}

#[test]
fn reset_wipes_high_floor_so_post_rollback_canonical_takes_effect() {
    let mut manager = DeferredNonceManager::new();
    manager.reserve("xt-pre-rollback", 3, 100);
    manager.reset();
    assert_eq!(manager.reserve("xt-post-rollback", 1, 50), 50);
}

#[test]
fn multi_nonce_reservation_skips_recycled_pool() {
    let mut manager = DeferredNonceManager::new();
    assert_eq!(manager.reserve("xt-1", 1, 0), 0);
    assert_eq!(manager.reserve("xt-2", 1, 0), 1);
    manager.release_aborted("xt-1");
    // A run of two never starts in the recycled pool.
    assert_eq!(manager.reserve("xt-3", 2, 0), 2);
    assert_eq!(live_end(&manager), 4);
    // The recycled nonce is still there for a single reservation.
    assert_eq!(manager.reserve("xt-4", 1, 0), 0);
}

#[test]
fn releasing_unknown_reservation_changes_nothing() {
    let mut manager = DeferredNonceManager::new();
    assert_eq!(manager.reserve("xt-1", 2, 3), 3);
    manager.release_aborted("nope");
    manager.release_confirmed("nope");
    assert_eq!(manager.canonical_floor(), 3);
    assert_eq!(manager.reserve("xt-2", 1, 3), 5);
}
