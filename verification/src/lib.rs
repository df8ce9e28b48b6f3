//! A counting-semaphore lease broker: peers register, ask named semaphores for
//! capacity, and are granted a lease at once or queued until capacity frees.
//!
//! - `ledger`: the configured semaphores, their maxima and what is granted.
//! - `registry`: the peers, their deadlines, holdings and tickets.
//! - `engine`: admission, promotion, release and expiry over both.
//! - `service`: the request shapes of the boundary and their outcomes.
//! - `error`: what can go wrong, and the status that stands for it.
//!
//! Semaphores are ranked in the order in which they were configured, and a
//! peer acquires them in strictly rising rank. Time is a count of milliseconds
//! that the caller reads from its clock and hands in as `now`; durations are
//! milliseconds too.

pub mod error;
pub mod ledger;
pub mod registry;
pub mod engine;
pub mod service;
