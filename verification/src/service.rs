//! The requests as they arrive at the boundary, and what the broker answers:
//! which call a request becomes, and which status stands for its outcome.

use vstd::prelude::*;
use crate::engine::State;
use crate::error::ThrottleError;

verus! {

/// A heartbeat: the leases that a peer says it holds, and for how long the
/// peer wants to stay registered.
pub struct ActiveLeases {
    /// Semaphore names with the amounts held.
    pub active: Vec<(String, u32)>,
    /// After this many milliseconds without a heartbeat the peer may be swept.
    pub expires_in: u64,
}

impl ActiveLeases {
    /// The first lease that the heartbeat names, if it names any.
    pub fn active(&self) -> (lease: Option<(&str, u32)>)
        ensures
            lease is Some == (self.active@.len() > 0),
            lease matches Some((name, amount)) ==> name@ == self.active@[0].0@ && amount
                == self.active@[0].1,
    {
        if self.active.len() > 0 {
            Some((self.active[0].0.as_str(), self.active[0].1))
        } else {
            None
        }
    }
}

/// A request to bring a peer's queued request back after a restart.
pub struct Restore {
    pub expires_in: u64,
    pub peer_id: u64,
    /// Semaphore names with the amounts asked for; exactly one is supported.
    pub pending: Vec<(String, u32)>,
}

/// Brings back the one request that `body` names. A body that names none, or
/// more than one, is refused as not implemented and changes nothing.
pub fn restore(body: &Restore, state: &mut State, now: u64) -> (r: Result<bool, ThrottleError>)
    requires
        old(state).wf(),
        old(state).next_arrival < u64::MAX,
        now + body.expires_in <= u64::MAX,
        body.peer_id < u64::MAX,
    ensures
        final(state).wf(),
        body.pending@.len() != 1 ==> r == Err::<bool, ThrottleError>(ThrottleError::NotImplemented),
        body.pending@.len() == 1 ==> r == old(state).restore_outcome(
            body.peer_id,
            body.pending@[0].0@,
            body.pending@[0].1,
        ),
        r is Err ==> *final(state) == *old(state),
        r matches Ok(granted) ==> (if old(state).registry.has(body.peer_id) {
            final(state).admitted_at(
                old(state),
                old(state).registry.position(body.peer_id),
                old(state).ledger.rank(body.pending@[0].0@),
                body.pending@[0].1,
                now + body.expires_in,
                granted,
            )
        } else {
            final(state).restored_new(
                old(state),
                body.peer_id,
                old(state).ledger.rank(body.pending@[0].0@),
                body.pending@[0].1,
                now + body.expires_in,
                granted,
            )
        }),
{
    if body.pending.len() != 1 {
        return Err(ThrottleError::NotImplemented);
    }
    let semaphore = body.pending[0].0.as_str();
    let amount = body.pending[0].1;
    state.restore_pending(body.peer_id, body.expires_in, semaphore, amount, now)
}

/// Takes a heartbeat for a peer. One that names a lease moves the peer's
/// deadline, and fails for an unknown peer; one that names none does nothing.
pub fn put_peer(peer_id: u64, body: &ActiveLeases, state: &mut State, now: u64) -> (r: Result<
    (),
    ThrottleError,
>)
    requires
        old(state).wf(),
        now + body.expires_in <= u64::MAX,
    ensures
        final(state).wf(),
        r == (if body.active@.len() > 0 && !old(state).registry.has(peer_id) {
            Err::<(), ThrottleError>(ThrottleError::UnknownPeer)
        } else {
            Ok(())
        }),
        r is Err || body.active@.len() == 0 ==> *final(state) == *old(state),
        r is Ok && body.active@.len() > 0 ==> final(state).touched_at(
            old(state),
            old(state).registry.position(peer_id),
            now + body.expires_in,
        ),
{
    match body.active() {
        Some((semaphore, amount)) => state.heartbeat(peer_id, semaphore, amount, body.expires_in, now),
        None => Ok(()),
    }
}

/// The status that stands for the outcome of an acquire request: 200 where
/// the lease was granted, 202 where the request was queued, else the status
/// of the error.
pub open spec fn spec_acquire_status(outcome: Result<bool, ThrottleError>) -> u16 {
    match outcome {
        Ok(true) => 200,
        Ok(false) => 202,
        Err(e) => e.spec_status_code(),
    }
}

/// Picks the status for the outcome of an acquire request.
pub fn acquire_status(outcome: Result<bool, ThrottleError>) -> (status: u16)
    ensures
        status == spec_acquire_status(outcome),
{
    match outcome {
        Ok(true) => 200,
        Ok(false) => 202,
        Err(e) => e.status_code(),
    }
}

/// How long a wait may last, in milliseconds: not at all where the request
/// gives no limit.
pub fn wait_limit(timeout_ms: Option<u64>) -> (limit: u64)
    ensures
        limit == (match timeout_ms {
            Some(ms) => ms,
            None => 0,
        }),
{
    match timeout_ms {
        Some(ms) => ms,
        None => 0,
    }
}

} // verus!
