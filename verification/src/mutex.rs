use vstd::prelude::*;
use crate::lock_manager::{
    analysis_quiet, poison_after_release, released, report_valid, subscribed, write_acquired,
    LockManager, ReprView, RequestType,
};
use crate::poison::{AcquireStep, LockResult, PoisonError, TryLockError, TryLockResult};

verus! {

/// An instrumented mutual-exclusion lock. Every acquisition and release goes
/// through the manager's registry, so that a blocked acquisition can be
/// analysed for deadlocks. The embedding supplies the manager and the
/// calling thread's id explicitly; the registry state is fully specified.
pub struct Mutex<T> {
    key: usize,
    poisoned: bool,
    inner: T,
}

/// The token that stands for a live acquisition of a `Mutex`. It records
/// which lock it belongs to and which thread took it; `unlock` releases the
/// registry entry and records poisoning when the holder is panicking.
#[derive(Debug)]
pub struct MutexGuard {
    key: usize,
    tid: u64,
}

impl MutexGuard {
    pub closed spec fn key_spec(&self) -> usize {
        self.key
    }

    pub closed spec fn tid_spec(&self) -> u64 {
        self.tid
    }

    /// Releases the guard: the registry entry drops this thread's holder row
    /// and, when the releasing thread is unwinding from a panic, the lock is
    /// poisoned. The embedding calls this from the guard's scoped
    /// destruction, passing whether the thread is panicking.
    pub fn unlock<T>(self, mutex: &mut Mutex<T>, manager: &mut LockManager, panicking: bool)
        requires
            old(manager).wf(),
            old(mutex).registered(*old(manager)),
            self.key_spec() == old(mutex).key_spec(),
        ensures
            final(manager).wf(),
            final(mutex).registered(*final(manager)),
            final(mutex).key_spec() == old(mutex).key_spec(),
            final(mutex).inner_spec() == old(mutex).inner_spec(),
            final(mutex).poisoned_spec() == poison_after_release(
                old(mutex).poisoned_spec(),
                panicking,
            ),
            final(mutex).entry(*final(manager)) =~= released(
                old(mutex).entry(*old(manager)),
                self.tid_spec(),
            ),
            final(manager).next_key_spec() == old(manager).next_key_spec(),
            final(manager).timeout_spec() == old(manager).timeout_spec(),
            forall|k: usize|
                k != old(mutex).key_spec() ==> (final(manager).locks_map().contains_key(k) == old(
                    manager,
                ).locks_map().contains_key(k) && (old(manager).locks_map().contains_key(k)
                    ==> final(manager).locks_map()[k] == old(manager).locks_map()[k])),
    {
        let mut repr = manager.take_repr(mutex.key);
        repr.unlock(self.tid);
        manager.put_repr(mutex.key, repr);
        if panicking {
            mutex.poisoned = true;
        }
    }
}

impl<T> Mutex<T> {
    pub closed spec fn key_spec(&self) -> usize {
        self.key
    }

    pub closed spec fn poisoned_spec(&self) -> bool {
        self.poisoned
    }

    pub closed spec fn inner_spec(&self) -> T {
        self.inner
    }

    /// The mutex has an entry in `manager`'s registry.
    pub open spec fn registered(&self, manager: LockManager) -> bool {
        manager.locks_map().contains_key(self.key_spec())
    }

    /// The mutex's registry entry in `manager`.
    pub open spec fn entry(&self, manager: LockManager) -> ReprView {
        manager.locks_map()[self.key_spec()]@
    }

    /// A fresh mutex attached to `manager`: a fresh key is minted and an
    /// empty entry installed under it.
    pub fn with_manager(manager: &mut LockManager, inner: T) -> (r: Mutex<T>)
        requires
            old(manager).wf(),
            old(manager).next_key_spec() < usize::MAX,
        ensures
            final(manager).wf(),
            r.key_spec() == old(manager).next_key_spec(),
            !old(manager).locks_map().contains_key(r.key_spec()),
            r.registered(*final(manager)),
            !r.poisoned_spec(),
            r.inner_spec() == inner,
            !r.entry(*final(manager)).write_locked,
            r.entry(*final(manager)).holders == Seq::<u64>::empty(),
            r.entry(*final(manager)).requests == Map::<u64, RequestType>::empty(),
            final(manager).locks_map() == old(manager).locks_map().insert(
                r.key_spec(),
                final(manager).locks_map()[r.key_spec()],
            ),
            final(manager).next_key_spec() == old(manager).next_key_spec() + 1,
            final(manager).timeout_spec() == old(manager).timeout_spec(),
    {
        let key = manager.create_lock();
        Mutex { key, poisoned: false, inner }
    }

    /// A fresh mutex. The embedding's `new` attaches the mutex to the
    /// process-wide manager; that manager is the explicit argument here.
    pub fn new(manager: &mut LockManager, inner: T) -> (r: Mutex<T>)
        requires
            old(manager).wf(),
            old(manager).next_key_spec() < usize::MAX,
        ensures
            final(manager).wf(),
            r.key_spec() == old(manager).next_key_spec(),
            !old(manager).locks_map().contains_key(r.key_spec()),
            r.registered(*final(manager)),
            !r.poisoned_spec(),
            r.inner_spec() == inner,
            !r.entry(*final(manager)).write_locked,
            r.entry(*final(manager)).holders == Seq::<u64>::empty(),
            r.entry(*final(manager)).requests == Map::<u64, RequestType>::empty(),
            final(manager).locks_map() == old(manager).locks_map().insert(
                r.key_spec(),
                final(manager).locks_map()[r.key_spec()],
            ),
            final(manager).next_key_spec() == old(manager).next_key_spec() + 1,
            final(manager).timeout_spec() == old(manager).timeout_spec(),
    {
        Self::with_manager(manager, inner)
    }

    /// Exclusive access through an exclusive borrow of the mutex itself: no
    /// guard is needed, since the borrow proves nobody else can touch it.
    /// Poisoning is advisory and reported through the result.
    pub fn get_mut(&mut self) -> (r: LockResult<&mut T>)
        ensures
            final(self).key_spec() == old(self).key_spec(),
            final(self).poisoned_spec() == old(self).poisoned_spec(),
            match r {
                Ok(v) => !old(self).poisoned_spec() && *v == old(self).inner_spec()
                    && final(self).inner_spec() == *final(v),
                Err(_) => old(self).poisoned_spec(),
            },
    {
        if self.poisoned {
            Err(PoisonError::new(&mut self.inner))
        } else {
            Ok(&mut self.inner)
        }
    }

    /// Shared access to the protected value. The embedding reads through
    /// this behind a live guard, where the registry makes the access legal;
    /// within this crate the borrow rules alone make it so.
    pub fn value(&self) -> (r: &T)
        ensures
            *r == self.inner_spec(),
    {
        &self.inner
    }

    /// The registry key this mutex was created under.
    pub fn key(&self) -> (k: usize)
        ensures
            k == self.key_spec(),
    {
        self.key
    }

    /// Whether a previous holder panicked while holding this mutex.
    pub fn is_poisoned(&self) -> (b: bool)
        ensures
            b == self.poisoned_spec(),
    {
        self.poisoned
    }

    /// Consumes the mutex, removes its registry entry, and hands the inner
    /// value out, wrapped as poisoned when a holder panicked.
    pub fn into_inner(self, manager: &mut LockManager) -> (r: LockResult<T>)
        requires
            old(manager).wf(),
        ensures
            final(manager).wf(),
            final(manager).locks_map() == old(manager).locks_map().remove(self.key_spec()),
            final(manager).next_key_spec() == old(manager).next_key_spec(),
            final(manager).timeout_spec() == old(manager).timeout_spec(),
            match r {
                Ok(v) => !self.poisoned_spec() && v == self.inner_spec(),
                Err(p) => self.poisoned_spec() && p.guard_spec() == self.inner_spec(),
            },
    {
        let Mutex { key, poisoned, inner } = self;
        manager.remove_lock(key);
        if poisoned {
            Err(PoisonError::new(inner))
        } else {
            Ok(inner)
        }
    }

    /// Non-blocking acquisition: succeeds exactly when nobody holds the
    /// lock. Never subscribes and never analyses.
    pub fn try_lock(&self, manager: &mut LockManager, tid: u64) -> (r: TryLockResult<MutexGuard>)
        requires
            old(manager).wf(),
            self.registered(*old(manager)),
        ensures
            final(manager).wf(),
            self.registered(*final(manager)),
            final(manager).next_key_spec() == old(manager).next_key_spec(),
            final(manager).timeout_spec() == old(manager).timeout_spec(),
            forall|k: usize|
                k != self.key_spec() ==> (final(manager).locks_map().contains_key(k) == old(
                    manager,
                ).locks_map().contains_key(k) && (old(manager).locks_map().contains_key(k)
                    ==> final(manager).locks_map()[k] == old(manager).locks_map()[k])),
            ({
                let e = self.entry(*old(manager));
                if e.holders.len() == 0 {
                    &&& self.entry(*final(manager)) =~= write_acquired(e, tid)
                    &&& match r {
                        Ok(g) => !self.poisoned_spec() && g.key_spec() == self.key_spec()
                            && g.tid_spec() == tid,
                        Err(TryLockError::Poisoned(p)) => self.poisoned_spec()
                            && p.guard_spec().key_spec() == self.key_spec()
                            && p.guard_spec().tid_spec() == tid,
                        Err(TryLockError::WouldBlock) => false,
                    }
                } else {
                    &&& final(manager).locks_map() == old(manager).locks_map()
                    &&& r matches Err(TryLockError::WouldBlock)
                }
            }),
    {
        let ghost m0 = manager.locks_map();
        let mut repr = manager.take_repr(self.key);
        let acquired = repr.try_write_lock(tid);
        manager.put_repr(self.key, repr);
        proof {
            if !acquired {
                assert(manager.locks_map() =~= m0);
            }
        }
        if acquired {
            let guard = MutexGuard { key: self.key, tid };
            if self.poisoned {
                Err(TryLockError::Poisoned(PoisonError::new(guard)))
            } else {
                Ok(guard)
            }
        } else {
            Err(TryLockError::WouldBlock)
        }
    }

    /// One iteration of the blocking acquisition loop. Tries to acquire; on
    /// failure past the analysis timeout, subscribes this thread's write
    /// request and analyses the wait-for graph. The embedding loops over
    /// attempts, yielding between them, measures the elapsed time against
    /// `analysis_timeout`, and panics with the report when one comes back.
    pub fn lock_attempt(&self, manager: &mut LockManager, tid: u64, past_timeout: bool) -> (r:
        AcquireStep<MutexGuard>)
        requires
            old(manager).wf(),
            self.registered(*old(manager)),
        ensures
            final(manager).wf(),
            self.registered(*final(manager)),
            final(manager).next_key_spec() == old(manager).next_key_spec(),
            final(manager).timeout_spec() == old(manager).timeout_spec(),
            forall|k: usize|
                k != self.key_spec() ==> (final(manager).locks_map().contains_key(k) == old(
                    manager,
                ).locks_map().contains_key(k) && (old(manager).locks_map().contains_key(k)
                    ==> final(manager).locks_map()[k] == old(manager).locks_map()[k])),
            ({
                let e = self.entry(*old(manager));
                if e.holders.len() == 0 {
                    &&& self.entry(*final(manager)) =~= write_acquired(e, tid)
                    &&& match r {
                        AcquireStep::Acquired(Ok(g)) => !self.poisoned_spec() && g.key_spec()
                            == self.key_spec() && g.tid_spec() == tid,
                        AcquireStep::Acquired(Err(p)) => self.poisoned_spec()
                            && p.guard_spec().key_spec() == self.key_spec()
                            && p.guard_spec().tid_spec() == tid,
                        _ => false,
                    }
                } else if past_timeout {
                    &&& self.entry(*final(manager)) =~= subscribed(e, tid, RequestType::Write)
                    &&& match r {
                        AcquireStep::Deadlock(rep) => report_valid(
                            final(manager).locks_map(),
                            tid,
                            rep,
                        ),
                        AcquireStep::Pending => analysis_quiet(
                            final(manager).locks_map(),
                            tid,
                        ),
                        _ => false,
                    }
                } else {
                    &&& final(manager).locks_map() == old(manager).locks_map()
                    &&& r is Pending
                }
            }),
    {
        let ghost m0 = manager.locks_map();
        let mut repr = manager.take_repr(self.key);
        let acquired = repr.try_write_lock(tid);
        if acquired {
            manager.put_repr(self.key, repr);
            let guard = MutexGuard { key: self.key, tid };
            if self.poisoned {
                AcquireStep::Acquired(Err(PoisonError::new(guard)))
            } else {
                AcquireStep::Acquired(Ok(guard))
            }
        } else if past_timeout {
            repr.subscribe_write(tid);
            manager.put_repr(self.key, repr);
            match manager.analyse(tid) {
                Some(rep) => AcquireStep::Deadlock(rep),
                None => AcquireStep::Pending,
            }
        } else {
            manager.put_repr(self.key, repr);
            proof {
                assert(manager.locks_map() =~= m0);
            }
            AcquireStep::Pending
        }
    }
}

} // verus!
