//! Deferred callbacks: producer threads send tasks into queues, and the
//! host's own thread later drains them, optionally within a time budget that
//! is checked every few tasks. A failing task is reported and does not stop
//! the drain.
use vstd::prelude::*;

pub mod channel;
pub mod clock;
pub mod engine;
pub mod hook;
pub mod process;
pub mod registry;
pub mod session;

verus! {

} // verus!
