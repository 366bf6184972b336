//! A bounded pool of expensive, exclusively-held compute resources.
//!
//! The pool hands out at most `max` concurrent leases on an append-only table
//! of slots. A counting semaphore bounds demand, an availability stack
//! records which slot indices are free, and the table grows lazily (or eagerly
//! through a warm-up call) up to the fixed capacity. This crate holds the
//! verified bookkeeping core: the semaphore and the checkout / grow /
//! release transitions over the pool state, together with the invariants that
//! make the protocol safe (no two leases on one slot, no permit granted at
//! zero, the table never exceeding its capacity). A driver owns the actual
//! resource instances, performs the blocking or suspending waits, and routes
//! every decision through this core.

pub mod pool;
pub mod profile;
pub mod semaphore;

pub use pool::CheckoutStep;
pub use pool::PoolCore;
pub use profile::ClockError;
pub use semaphore::Semaphore;
