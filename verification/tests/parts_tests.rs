use throttle::engine::State;
use throttle::error::{decimal_of, ThrottleError};
use throttle::ledger::SemaphoreLedger;
use throttle::registry::PeerRegistry;
use throttle::service::{acquire_status, put_peer, restore, wait_limit, ActiveLeases, Restore};

fn one_semaphore() -> State {
    let mut ledger = SemaphoreLedger::new();
    assert!(ledger.add("db", 10));
    State::new(ledger)
}

#[test]
fn status_codes_of_errors() {
    assert_eq!(ThrottleError::UnknownPeer.status_code(), 400);
    assert_eq!(ThrottleError::UnknownSemaphore.status_code(), 400);
    assert_eq!(ThrottleError::ForeverPending { asked: 2, max: 1 }.status_code(), 409);
    assert_eq!(ThrottleError::Deadlock.status_code(), 409);
    assert_eq!(ThrottleError::NotImplemented.status_code(), 501);
}

#[test]
fn messages_of_errors() {
    assert_eq!(ThrottleError::UnknownSemaphore.message(), "Unknown semaphore");
    assert_eq!(ThrottleError::UnknownPeer.message(), "Unknown peer");
    assert_eq!(
        ThrottleError::Deadlock.message(),
        "May Deadlock. Due to violation of lock hierarchy."
    );
    assert_eq!(ThrottleError::NotImplemented.message(), "Not Implemented.");
    assert_eq!(
        ThrottleError::ForeverPending { asked: 20, max: 10 }.message(),
        "Acquiring lock would block forever. Lock asks for count 20 yet full count is only 10."
    );
    assert_eq!(
        ThrottleError::ForeverPending { asked: 0, max: -7 }.message(),
        "Acquiring lock would block forever. Lock asks for count 0 yet full count is only -7."
    );
}

#[test]
fn status_of_acquire_outcomes() {
    assert_eq!(acquire_status(Ok(true)), 200);
    assert_eq!(acquire_status(Ok(false)), 202);
    assert_eq!(acquire_status(Err(ThrottleError::UnknownPeer)), 400);
    assert_eq!(acquire_status(Err(ThrottleError::Deadlock)), 409);
    assert_eq!(acquire_status(Err(ThrottleError::ForeverPending { asked: 2, max: 1 })), 409);
}

#[test]
fn wait_limit_defaults_to_none_at_all() {
    assert_eq!(wait_limit(None), 0);
    assert_eq!(wait_limit(Some(250)), 250);
}

#[test]
fn ledger_configuration() {
    let mut ledger = SemaphoreLedger::new();
    assert!(ledger.add("a", 3));
    assert!(!ledger.add("a", 4));
    assert!(!ledger.add("b", -1));
    assert!(ledger.add("b", 0));
    assert_eq!(ledger.index_of("a"), Some(0));
    assert_eq!(ledger.index_of("b"), Some(1));
    assert_eq!(ledger.index_of("c"), None);
    assert_eq!(ledger.max("a"), Ok(3));
    assert_eq!(ledger.max("b"), Ok(0));
    assert_eq!(ledger.max("c"), Err(ThrottleError::UnknownSemaphore));
    assert_eq!(ledger.granted("a"), Ok(0));
    assert_eq!(ledger.granted("c"), Err(ThrottleError::UnknownSemaphore));
}

#[test]
fn ledger_reserves_only_what_fits() {
    let mut ledger = SemaphoreLedger::new();
    assert!(ledger.add("a", 3));
    assert!(ledger.try_reserve("a", 2));
    assert_eq!(ledger.granted("a"), Ok(2));
    assert!(!ledger.try_reserve("a", 2));
    assert_eq!(ledger.granted("a"), Ok(2));
    assert!(ledger.try_reserve("a", 1));
    assert_eq!(ledger.granted("a"), Ok(3));
    assert!(!ledger.try_reserve("a", 1));
    assert!(ledger.try_reserve("a", 0));
    assert!(!ledger.try_reserve("zz", 0));
    ledger.release("a", 2);
    assert_eq!(ledger.granted("a"), Ok(1));
    ledger.release("zz", 2);
    assert_eq!(ledger.granted("a"), Ok(1));
    assert!(!ledger.try_reserve_at(0, u32::MAX));
    ledger.release_at(0, 1);
    assert_eq!(ledger.granted("a"), Ok(0));
}

#[test]
fn registry_lifecycle() {
    let mut registry = PeerRegistry::new(2);
    let a = registry.create(100, 5);
    let b = registry.create(100, 5);
    assert_eq!((a, b), (0, 1));
    assert!(registry.contains(a));
    assert_eq!(registry.index_of(b), Some(1));
    assert_eq!(registry.peers[0].expires_at, 105);
    assert_eq!(registry.peers[0].active, vec![None, None]);
    assert_eq!(registry.peers[0].pending, None);
    assert_eq!(registry.touch(a, 10, 200), Ok(()));
    assert_eq!(registry.peers[0].expires_at, 210);
    assert_eq!(registry.touch(9, 10, 200), Err(ThrottleError::UnknownPeer));
    assert!(registry.remove(a));
    assert!(!registry.remove(a));
    assert!(!registry.contains(a));
    assert_eq!(registry.index_of(b), Some(0));
    assert_eq!(registry.create(1, 1), 2);
    registry.register(10, 77);
    assert_eq!(registry.index_of(10), Some(2));
    assert_eq!(registry.peers[2].expires_at, 77);
    assert_eq!(registry.create(1, 1), 11);
    registry.register(5, 1);
    assert_eq!(registry.create(1, 1), 12);
}

#[test]
fn order_check_of_a_peer() {
    let mut state = {
        let mut ledger = SemaphoreLedger::new();
        assert!(ledger.add("a", 1));
        assert!(ledger.add("b", 1));
        assert!(ledger.add("c", 1));
        State::new(ledger)
    };
    let p = state.create(1, 0);
    assert!(state.registry.peers[0].permits(0));
    assert_eq!(state.acquire(p, "b", 1, 1, 0), Ok(true));
    assert!(!state.registry.peers[0].permits(0));
    assert!(!state.registry.peers[0].permits(1));
    assert!(state.registry.peers[0].permits(2));
}

#[test]
fn restore_with_no_pending_is_not_implemented() {
    let mut state = one_semaphore();
    let body = Restore { expires_in: 1_000, peer_id: 4, pending: Vec::new() };
    assert_eq!(restore(&body, &mut state, 0), Err(ThrottleError::NotImplemented));
    assert!(!state.registry.contains(4));
}

#[test]
fn restore_with_two_pending_is_not_implemented() {
    let mut state = one_semaphore();
    let body = Restore {
        expires_in: 1_000,
        peer_id: 4,
        pending: vec![("db".to_string(), 1), ("db".to_string(), 2)],
    };
    assert_eq!(restore(&body, &mut state, 0), Err(ThrottleError::NotImplemented));
    assert!(!state.registry.contains(4));
    assert_eq!(state.remainder("db"), Ok(10));
}

#[test]
fn restore_with_one_pending_acquires_it() {
    let mut state = one_semaphore();
    let body = Restore { expires_in: 1_000, peer_id: 4, pending: vec![("db".to_string(), 7)] };
    assert_eq!(restore(&body, &mut state, 3), Ok(true));
    assert_eq!(state.remainder("db"), Ok(3));
    assert_eq!(state.registry.peers[0].id, 4);
    assert_eq!(state.registry.peers[0].expires_at, 1_003);
    let next = Restore { expires_in: 1_000, peer_id: 5, pending: vec![("db".to_string(), 7)] };
    assert_eq!(restore(&next, &mut state, 3), Ok(false));
    let bad = Restore { expires_in: 1_000, peer_id: 6, pending: vec![("other".to_string(), 7)] };
    assert_eq!(restore(&bad, &mut state, 3), Err(ThrottleError::UnknownSemaphore));
}

#[test]
fn first_lease_of_a_heartbeat() {
    let none = ActiveLeases { active: Vec::new(), expires_in: 5 };
    assert_eq!(none.active(), None);
    let two = ActiveLeases { active: vec![("db".to_string(), 3), ("api".to_string(), 1)], expires_in: 5 };
    assert_eq!(two.active(), Some(("db", 3)));
}

#[test]
fn heartbeat_request() {
    let mut state = one_semaphore();
    let p = state.create(10, 0);
    let empty = ActiveLeases { active: Vec::new(), expires_in: 500 };
    assert_eq!(put_peer(p, &empty, &mut state, 1), Ok(()));
    assert_eq!(state.registry.peers[0].expires_at, 10);
    assert_eq!(put_peer(p + 1, &empty, &mut state, 1), Ok(()));
    let lease = ActiveLeases { active: vec![("db".to_string(), 3)], expires_in: 500 };
    assert_eq!(put_peer(p, &lease, &mut state, 1), Ok(()));
    assert_eq!(state.registry.peers[0].expires_at, 501);
    assert_eq!(state.remainder("db"), Ok(10));
    assert_eq!(put_peer(p + 1, &lease, &mut state, 1), Err(ThrottleError::UnknownPeer));
}

#[test]
fn numbers_in_decimal() {
    assert_eq!(decimal_of(0), "0");
    assert_eq!(decimal_of(7), "7");
    assert_eq!(decimal_of(10), "10");
    assert_eq!(decimal_of(1_203), "1203");
    assert_eq!(decimal_of(-1), "-1");
    assert_eq!(decimal_of(-450), "-450");
    assert_eq!(decimal_of(i64::MAX), "9223372036854775807");
    assert_eq!(decimal_of(i64::MIN), "-9223372036854775808");
    for n in [-1_000_i64, -99, -10, -9, 9, 99, 100, 4_294_967_295] {
        assert_eq!(decimal_of(n), n.to_string());
    }
}
