//! A deadlock-detecting synchronization core. The lock registry records,
//! for every lock, who holds it in which mode and who is blocked on it; the
//! wait-for graph is built from that registry on demand and searched for
//! cycles; the instrumented mutex and reader-writer lock feed the registry on
//! every acquisition and release and trigger the analysis once a blocked
//! acquisition outlives the analysis timeout. Detection is advisory: nothing
//! here prevents a deadlock, and a reentrant acquisition is, by design,
//! reported as one.
//!
//! The registry, the graph, the cycle finder, the report construction and
//! the lock state machines are all specified and verified. The concurrent
//! embedding -- the atomic spinlock around the manager, thread identity, the
//! yielding retry loops, the condition variable, and the printing of a
//! report -- lives outside this crate and drives it through the `*_attempt`
//! step functions and the guards' `unlock`.

pub mod graphs;
pub mod lock_manager;
pub mod mutex;
pub mod poison;
pub mod rwlock;

pub use graphs::DependencyNode;
pub use graphs::Graph;
pub use lock_manager::LockManager;
pub use mutex::{Mutex, MutexGuard};
pub use poison::{AcquireStep, LockResult, PoisonError, TryLockError, TryLockResult};
pub use rwlock::{RwLock, RwLockReadGuard, RwLockWriteGuard};
