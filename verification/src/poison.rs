use vstd::prelude::*;
use crate::lock_manager::DeadlockReport;

verus! {

/// Wraps the guard (or inner value) of a lock whose previous holder
/// panicked. Poisoning is advisory: the content is still usable.
#[derive(Debug)]
pub struct PoisonError<G> {
    guard: G,
}

impl<G> PoisonError<G> {
    pub closed spec fn guard_spec(&self) -> G {
        self.guard
    }

    pub fn new(guard: G) -> (r: PoisonError<G>)
        ensures
            r.guard_spec() == guard,
    {
        PoisonError { guard }
    }

    pub fn into_inner(self) -> (r: G)
        ensures
            r == self.guard_spec(),
    {
        self.guard
    }

}

/// Why a non-blocking acquisition returned without a clean guard.
#[derive(Debug)]
pub enum TryLockError<G> {
    /// Acquired, but a previous holder panicked; the guard is inside.
    Poisoned(PoisonError<G>),
    /// Somebody else holds the lock; the caller may retry at will.
    WouldBlock,
}

pub type LockResult<G> = Result<G, PoisonError<G>>;

pub type TryLockResult<G> = Result<G, TryLockError<G>>;

/// The outcome of one iteration of a blocking acquisition loop. The
/// embedding loops over attempts, yields between them, and panics with the
/// report when a deadlock involving this thread is found.
pub enum AcquireStep<G> {
    /// The lock was acquired; poisoning is reported through the result.
    Acquired(LockResult<G>),
    /// A deadlock involving the calling thread was found; the caller is
    /// expected to print the report and panic.
    Deadlock(DeadlockReport),
    /// Still blocked; try again after yielding.
    Pending,
}

} // verus!
