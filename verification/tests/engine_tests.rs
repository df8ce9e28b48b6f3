use throttle::engine::State;
use throttle::error::ThrottleError;
use throttle::ledger::SemaphoreLedger;

const MINUTE: u64 = 60_000;

fn broker(semaphores: &[(&str, i64)]) -> State {
    let mut ledger = SemaphoreLedger::new();
    for (name, max) in semaphores {
        assert!(ledger.add(name, *max));
    }
    State::new(ledger)
}

fn held_sum(state: &State, rank: usize) -> i64 {
    let mut sum: i64 = 0;
    for peer in &state.registry.peers {
        if let Some(amount) = peer.active[rank] {
            sum += amount as i64;
        }
    }
    sum
}

#[test]
fn grant_queue_release_promote() {
    let mut state = broker(&[("db", 10)]);
    let first = state.create(MINUTE, 0);
    assert_eq!(state.acquire(first, "db", 5, MINUTE, 0), Ok(true));
    assert_eq!(state.remainder("db"), Ok(5));
    let second = state.create(MINUTE, 0);
    assert_ne!(first, second);
    assert_eq!(state.acquire(second, "db", 8, MINUTE, 0), Ok(false));
    assert_eq!(state.is_acquired(second), Ok(false));
    assert_eq!(state.remainder("db"), Ok(5));
    assert!(state.release(first));
    assert_eq!(state.is_acquired(second), Ok(true));
    assert_eq!(state.remainder("db"), Ok(2));
    assert_eq!(state.begin_wait(second, MINUTE, 1), Ok(true));
    assert!(state.wait_outcome(second));
}

#[test]
fn oversized_request_is_refused_and_not_queued() {
    let mut state = broker(&[("db", 10)]);
    let greedy = state.create(MINUTE, 0);
    assert_eq!(
        state.acquire(greedy, "db", 20, MINUTE, 0),
        Err(ThrottleError::ForeverPending { asked: 20, max: 10 })
    );
    assert_eq!(state.head_of(0), None);
    assert!(state.is_queue_empty(0));
    assert_eq!(state.remainder("db"), Ok(10));
    assert_eq!(state.is_acquired(greedy), Ok(true));
    assert_eq!(state.next_arrival, 0);
}

#[test]
fn refused_request_does_not_move_the_deadline() {
    let mut state = broker(&[("db", 10)]);
    let p = state.create(100, 0);
    assert!(state.acquire(p, "db", 11, 5_000, 50).is_err());
    assert_eq!(state.registry.peers[0].expires_at, 100);
    assert_eq!(state.acquire(p, "db", 1, 5_000, 50), Ok(true));
    assert_eq!(state.registry.peers[0].expires_at, 5_050);
}

#[test]
fn lower_semaphore_after_higher_is_deadlock() {
    let mut state = broker(&[("a", 5), ("b", 5)]);
    let p = state.create(MINUTE, 0);
    assert_eq!(state.acquire(p, "b", 1, MINUTE, 0), Ok(true));
    assert_eq!(state.acquire(p, "a", 1, MINUTE, 0), Err(ThrottleError::Deadlock));
    assert_eq!(state.remainder("a"), Ok(5));
    assert_eq!(state.remainder("b"), Ok(4));
    assert_eq!(state.registry.peers[0].active, vec![None, Some(1)]);
    assert_eq!(state.registry.peers[0].pending, None);
    assert!(state.is_queue_empty(0));
}

#[test]
fn same_semaphore_twice_is_deadlock() {
    let mut state = broker(&[("a", 5)]);
    let p = state.create(MINUTE, 0);
    assert_eq!(state.acquire(p, "a", 1, MINUTE, 0), Ok(true));
    assert_eq!(state.acquire(p, "a", 1, MINUTE, 0), Err(ThrottleError::Deadlock));
    assert_eq!(state.remainder("a"), Ok(4));
}

#[test]
fn higher_semaphore_after_lower_is_granted() {
    let mut state = broker(&[("a", 5), ("b", 5)]);
    let p = state.create(MINUTE, 0);
    assert_eq!(state.acquire(p, "a", 2, MINUTE, 0), Ok(true));
    assert_eq!(state.acquire(p, "b", 3, MINUTE, 0), Ok(true));
    assert_eq!(state.registry.peers[0].active, vec![Some(2), Some(3)]);
    assert_eq!(state.remainder("a"), Ok(3));
    assert_eq!(state.remainder("b"), Ok(2));
}

#[test]
fn waiting_peer_is_refused_the_semaphore_it_waits_for() {
    let mut state = broker(&[("a", 1)]);
    let holder = state.create(MINUTE, 0);
    let waiter = state.create(MINUTE, 0);
    assert_eq!(state.acquire(holder, "a", 1, MINUTE, 0), Ok(true));
    assert_eq!(state.acquire(waiter, "a", 1, MINUTE, 0), Ok(false));
    assert_eq!(state.acquire(waiter, "a", 1, MINUTE, 0), Err(ThrottleError::Deadlock));
    assert_eq!(state.next_arrival, 1);
}

#[test]
fn unknown_peer_and_semaphore() {
    let mut state = broker(&[("db", 10)]);
    assert_eq!(state.acquire(7, "db", 1, MINUTE, 0), Err(ThrottleError::UnknownPeer));
    assert_eq!(state.acquire(7, "nope", 1, MINUTE, 0), Err(ThrottleError::UnknownPeer));
    let p = state.create(MINUTE, 0);
    assert_eq!(state.acquire(p, "nope", 1, MINUTE, 0), Err(ThrottleError::UnknownSemaphore));
    assert_eq!(state.remainder("nope"), Err(ThrottleError::UnknownSemaphore));
    assert_eq!(state.is_acquired(99), Err(ThrottleError::UnknownPeer));
    assert_eq!(state.begin_wait(99, MINUTE, 0), Err(ThrottleError::UnknownPeer));
    assert_eq!(state.heartbeat(99, "db", 1, MINUTE, 0), Err(ThrottleError::UnknownPeer));
    assert!(!state.wait_outcome(99));
}

#[test]
fn release_of_unknown_peer_is_false_and_changes_nothing() {
    let mut state = broker(&[("db", 10)]);
    let p = state.create(MINUTE, 0);
    assert_eq!(state.acquire(p, "db", 4, MINUTE, 0), Ok(true));
    assert!(!state.release(p + 1));
    assert_eq!(state.remainder("db"), Ok(6));
    assert!(state.release(p));
    assert!(!state.release(p));
    assert_eq!(state.remainder("db"), Ok(10));
}

#[test]
fn later_smaller_request_never_overtakes_the_head() {
    let mut state = broker(&[("db", 10)]);
    let holder = state.create(MINUTE, 0);
    let big = state.create(MINUTE, 0);
    let small = state.create(MINUTE, 0);
    let other = state.create(MINUTE, 0);
    assert_eq!(state.acquire(holder, "db", 6, MINUTE, 0), Ok(true));
    assert_eq!(state.acquire(other, "db", 2, MINUTE, 0), Ok(true));
    assert_eq!(state.acquire(big, "db", 8, MINUTE, 0), Ok(false));
    // Two are free, but the queue is not empty: the small request waits too.
    assert_eq!(state.acquire(small, "db", 1, MINUTE, 0), Ok(false));
    assert_eq!(state.head_of(0), Some(1));
    // Freeing two leaves four: the head still does not fit, and nobody overtakes it.
    assert!(state.release(other));
    assert_eq!(state.is_acquired(big), Ok(false));
    assert_eq!(state.is_acquired(small), Ok(false));
    assert_eq!(state.remainder("db"), Ok(4));
    // Freeing six more lets the head in, and then the small one behind it.
    assert!(state.release(holder));
    assert_eq!(state.is_acquired(big), Ok(true));
    assert_eq!(state.is_acquired(small), Ok(true));
    assert_eq!(state.remainder("db"), Ok(1));
}

#[test]
fn promotion_stops_at_the_first_ticket_that_does_not_fit() {
    let mut state = broker(&[("db", 10)]);
    let holder = state.create(MINUTE, 0);
    let first = state.create(MINUTE, 0);
    let second = state.create(MINUTE, 0);
    let third = state.create(MINUTE, 0);
    assert_eq!(state.acquire(holder, "db", 10, MINUTE, 0), Ok(true));
    assert_eq!(state.acquire(first, "db", 4, MINUTE, 0), Ok(false));
    assert_eq!(state.acquire(second, "db", 7, MINUTE, 0), Ok(false));
    assert_eq!(state.acquire(third, "db", 1, MINUTE, 0), Ok(false));
    assert!(state.release(holder));
    assert_eq!(state.is_acquired(first), Ok(true));
    assert_eq!(state.is_acquired(second), Ok(false));
    assert_eq!(state.is_acquired(third), Ok(false));
    assert_eq!(state.remainder("db"), Ok(6));
    assert_eq!(state.head_of(0), Some(1));
}

#[test]
fn expired_peer_disappears_and_its_holdings_return() {
    let mut state = broker(&[("db", 10)]);
    let short = state.create(10, 0);
    let long = state.create(MINUTE, 0);
    assert_eq!(state.acquire(short, "db", 10, 10, 0), Ok(true));
    assert_eq!(state.acquire(long, "db", 3, MINUTE, 0), Ok(false));
    assert_eq!(state.sweep(5), 0);
    assert_eq!(state.remainder("db"), Ok(0));
    assert_eq!(state.sweep(11), 1);
    assert!(!state.registry.contains(short));
    assert!(state.registry.contains(long));
    assert_eq!(state.is_acquired(long), Ok(true));
    assert_eq!(state.remainder("db"), Ok(7));
    assert_eq!(state.sweep(11), 0);
}

#[test]
fn sweep_removes_a_peer_at_its_deadline() {
    let mut state = broker(&[("db", 10)]);
    let a = state.create(10, 0);
    let b = state.create(10, 1);
    let c = state.create(10, 0);
    assert_eq!(state.sweep(10), 2);
    assert!(!state.registry.contains(a));
    assert!(state.registry.contains(b));
    assert!(!state.registry.contains(c));
    assert_eq!(state.registry.peers.len(), 1);
}

#[test]
fn released_ticket_leaves_its_queue() {
    let mut state = broker(&[("db", 10)]);
    let holder = state.create(MINUTE, 0);
    let leaver = state.create(MINUTE, 0);
    let stayer = state.create(MINUTE, 0);
    assert_eq!(state.acquire(holder, "db", 8, MINUTE, 0), Ok(true));
    assert_eq!(state.acquire(leaver, "db", 9, MINUTE, 0), Ok(false));
    assert_eq!(state.acquire(stayer, "db", 2, MINUTE, 0), Ok(false));
    assert!(state.release(leaver));
    assert_eq!(state.is_acquired(stayer), Ok(true));
    assert_eq!(state.remainder("db"), Ok(0));
}

#[test]
fn granted_is_the_sum_of_what_peers_hold() {
    let mut state = broker(&[("a", 10), ("b", 4)]);
    let mut ids = Vec::new();
    for _ in 0..5 {
        ids.push(state.create(MINUTE, 0));
    }
    let requests: [(usize, &str, u32); 8] = [
        (0, "a", 4), (1, "a", 5), (2, "a", 3), (0, "b", 4), (3, "b", 1), (4, "a", 1), (1, "b", 2), (2, "b", 1),
    ];
    for (who, name, amount) in requests {
        let _ = state.acquire(ids[who], name, amount, MINUTE, 0);
        for rank in 0..2 {
            let granted = state.ledger.semaphores[rank].granted;
            assert_eq!(held_sum(&state, rank), granted);
            assert!(granted <= state.ledger.semaphores[rank].max);
        }
    }
    for id in ids {
        state.release(id);
        for rank in 0..2 {
            let granted = state.ledger.semaphores[rank].granted;
            assert_eq!(held_sum(&state, rank), granted);
            assert!(granted <= state.ledger.semaphores[rank].max);
        }
    }
    assert_eq!(state.remainder("a"), Ok(10));
    assert_eq!(state.remainder("b"), Ok(4));
}

#[test]
fn a_peer_keeps_one_ticket_at_most() {
    let mut state = broker(&[("a", 1), ("b", 1)]);
    let holder = state.create(MINUTE, 0);
    let waiter = state.create(MINUTE, 0);
    assert_eq!(state.acquire(holder, "a", 1, MINUTE, 0), Ok(true));
    assert_eq!(state.acquire(holder, "b", 1, MINUTE, 0), Ok(true));
    assert_eq!(state.acquire(waiter, "a", 1, MINUTE, 0), Ok(false));
    assert_eq!(state.acquire(waiter, "b", 1, MINUTE, 0), Ok(false));
    let ticket = state.registry.peers[1].pending.unwrap();
    assert_eq!(ticket.semaphore, 1);
    assert_eq!(ticket.amount, 1);
    assert_eq!(ticket.arrival, 1);
    assert!(state.is_queue_empty(0));
    assert!(!state.is_queue_empty(1));
}

#[test]
fn heartbeat_moves_the_deadline_and_grants_nothing() {
    let mut state = broker(&[("db", 10)]);
    let p = state.create(10, 0);
    assert_eq!(state.heartbeat(p, "db", 5, 100, 7), Ok(()));
    assert_eq!(state.registry.peers[0].expires_at, 107);
    assert_eq!(state.registry.peers[0].active, vec![None]);
    assert_eq!(state.remainder("db"), Ok(10));
    assert_eq!(state.sweep(100), 0);
    assert_eq!(state.sweep(107), 1);
}

#[test]
fn wait_begins_with_a_heartbeat_and_ends_by_the_state() {
    let mut state = broker(&[("db", 1)]);
    let holder = state.create(MINUTE, 0);
    let waiter = state.create(10, 0);
    assert_eq!(state.acquire(holder, "db", 1, MINUTE, 0), Ok(true));
    assert_eq!(state.acquire(waiter, "db", 1, 10, 0), Ok(false));
    assert_eq!(state.begin_wait(waiter, 500, 5), Ok(false));
    assert_eq!(state.registry.peers[1].expires_at, 505);
    assert!(!state.wait_outcome(waiter));
    assert!(state.release(holder));
    assert!(state.wait_outcome(waiter));
    assert_eq!(state.sweep(505), 1);
    assert!(!state.wait_outcome(waiter));
}

#[test]
fn restore_pending_registers_the_peer_under_its_identifier() {
    let mut state = broker(&[("db", 10)]);
    assert_eq!(state.restore_pending(41, MINUTE, "db", 6, 0), Ok(true));
    assert!(state.registry.contains(41));
    assert_eq!(state.remainder("db"), Ok(4));
    assert_eq!(state.restore_pending(17, MINUTE, "db", 6, 0), Ok(false));
    assert_eq!(state.is_acquired(17), Ok(false));
    assert_eq!(state.create(MINUTE, 0), 42);
    assert_eq!(state.restore_pending(41, MINUTE, "db", 1, 0), Err(ThrottleError::Deadlock));
}

#[test]
fn refused_restore_registers_nobody() {
    let mut state = broker(&[("db", 10)]);
    assert_eq!(state.restore_pending(3, MINUTE, "nope", 1, 0), Err(ThrottleError::UnknownSemaphore));
    assert_eq!(
        state.restore_pending(3, MINUTE, "db", 11, 0),
        Err(ThrottleError::ForeverPending { asked: 11, max: 10 })
    );
    assert!(!state.registry.contains(3));
    assert_eq!(state.registry.next_id, 0);
}

#[test]
fn zero_amount_is_granted_and_counts_as_a_holding() {
    let mut state = broker(&[("a", 0), ("b", 1)]);
    let p = state.create(MINUTE, 0);
    assert_eq!(state.acquire(p, "b", 0, MINUTE, 0), Ok(true));
    assert_eq!(state.acquire(p, "a", 0, MINUTE, 0), Err(ThrottleError::Deadlock));
    assert_eq!(state.acquire(p, "a", 1, MINUTE, 0), Err(ThrottleError::ForeverPending { asked: 1, max: 0 }));
}

#[test]
fn promote_grants_what_fits_and_is_idle_otherwise() {
    let mut state = broker(&[("a", 2), ("b", 2)]);
    let holder = state.create(MINUTE, 0);
    let waiter = state.create(MINUTE, 0);
    let second_waiter = state.create(MINUTE, 0);
    assert_eq!(state.acquire(holder, "a", 2, MINUTE, 0), Ok(true));
    assert_eq!(state.acquire(waiter, "a", 1, MINUTE, 0), Ok(false));
    assert_eq!(state.acquire(second_waiter, "a", 1, MINUTE, 0), Ok(false));
    state.promote(0);
    state.promote(1);
    assert_eq!(state.is_acquired(waiter), Ok(false));
    assert_eq!(state.head_of(0), Some(1));
    assert_eq!(state.head_of(1), None);
    // The first waiter asks for a higher semaphore and is granted it; its ticket stays.
    assert_eq!(state.acquire(waiter, "b", 1, MINUTE, 0), Ok(true));
    assert_eq!(state.is_acquired(waiter), Ok(false));
    assert_eq!(state.head_of(0), Some(1));
    assert!(state.release(holder));
    assert_eq!(state.is_acquired(waiter), Ok(true));
    assert_eq!(state.is_acquired(second_waiter), Ok(true));
    assert_eq!(state.registry.peers[0].active, vec![Some(1), Some(1)]);
    assert_eq!(state.remainder("a"), Ok(0));
    assert_eq!(state.remainder("b"), Ok(1));
}

#[test]
fn sweep_promotes_for_every_freed_semaphore() {
    let mut state = broker(&[("a", 1), ("b", 1)]);
    let short_a = state.create(10, 0);
    let short_b = state.create(10, 0);
    let wants_a = state.create(MINUTE, 0);
    let wants_b = state.create(MINUTE, 0);
    assert_eq!(state.acquire(short_a, "a", 1, 10, 0), Ok(true));
    assert_eq!(state.acquire(short_b, "b", 1, 10, 0), Ok(true));
    assert_eq!(state.acquire(wants_a, "a", 1, MINUTE, 0), Ok(false));
    assert_eq!(state.acquire(wants_b, "b", 1, MINUTE, 0), Ok(false));
    assert_eq!(state.sweep(20), 2);
    assert_eq!(state.is_acquired(wants_a), Ok(true));
    assert_eq!(state.is_acquired(wants_b), Ok(true));
    assert_eq!(state.remainder("a"), Ok(0));
    assert_eq!(state.remainder("b"), Ok(0));
    assert_eq!(state.registry.peers.len(), 2);
}
