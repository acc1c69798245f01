use vstd::prelude::*;
use crate::lock_manager::{
    analysis_quiet, poison_after_release, read_acquired, released, report_valid, subscribed,
    write_acquired, LockManager, ReprView, RequestType,
};
use crate::poison::{AcquireStep, LockResult, PoisonError, TryLockError, TryLockResult};

verus! {

/// An instrumented reader-writer lock. Like the instrumented mutex, every
/// acquisition and release goes through the manager's registry; read holders
/// share the lock, a write holder is alone on it.
pub struct RwLock<T> {
    key: usize,
    poisoned: bool,
    inner: T,
}

/// The token for a live shared acquisition of an `RwLock`.
#[derive(Debug)]
pub struct RwLockReadGuard {
    key: usize,
    tid: u64,
}

/// The token for a live exclusive acquisition of an `RwLock`.
#[derive(Debug)]
pub struct RwLockWriteGuard {
    key: usize,
    tid: u64,
}

impl RwLockReadGuard {
    pub closed spec fn key_spec(&self) -> usize {
        self.key
    }

    pub closed spec fn tid_spec(&self) -> u64 {
        self.tid
    }

    /// Releases the shared guard; poisoning is recorded when the releasing
    /// thread is unwinding from a panic.
    pub fn unlock<T>(self, rwlock: &mut RwLock<T>, manager: &mut LockManager, panicking: bool)
        requires
            old(manager).wf(),
            old(rwlock).registered(*old(manager)),
            self.key_spec() == old(rwlock).key_spec(),
        ensures
            final(manager).wf(),
            final(rwlock).registered(*final(manager)),
            final(rwlock).key_spec() == old(rwlock).key_spec(),
            final(rwlock).inner_spec() == old(rwlock).inner_spec(),
            final(rwlock).poisoned_spec() == poison_after_release(
                old(rwlock).poisoned_spec(),
                panicking,
            ),
            final(rwlock).entry(*final(manager)) =~= released(
                old(rwlock).entry(*old(manager)),
                self.tid_spec(),
            ),
            final(manager).next_key_spec() == old(manager).next_key_spec(),
            final(manager).timeout_spec() == old(manager).timeout_spec(),
            forall|k: usize|
                k != old(rwlock).key_spec() ==> (final(manager).locks_map().contains_key(k) == old(
                    manager,
                ).locks_map().contains_key(k) && (old(manager).locks_map().contains_key(k)
                    ==> final(manager).locks_map()[k] == old(manager).locks_map()[k])),
    {
        let mut repr = manager.take_repr(rwlock.key);
        repr.unlock(self.tid);
        manager.put_repr(rwlock.key, repr);
        if panicking {
            rwlock.poisoned = true;
        }
    }
}

impl RwLockWriteGuard {
    pub closed spec fn key_spec(&self) -> usize {
        self.key
    }

    pub closed spec fn tid_spec(&self) -> u64 {
        self.tid
    }

    /// Releases the exclusive guard; poisoning is recorded when the
    /// releasing thread is unwinding from a panic.
    pub fn unlock<T>(self, rwlock: &mut RwLock<T>, manager: &mut LockManager, panicking: bool)
        requires
            old(manager).wf(),
            old(rwlock).registered(*old(manager)),
            self.key_spec() == old(rwlock).key_spec(),
        ensures
            final(manager).wf(),
            final(rwlock).registered(*final(manager)),
            final(rwlock).key_spec() == old(rwlock).key_spec(),
            final(rwlock).inner_spec() == old(rwlock).inner_spec(),
            final(rwlock).poisoned_spec() == poison_after_release(
                old(rwlock).poisoned_spec(),
                panicking,
            ),
            final(rwlock).entry(*final(manager)) =~= released(
                old(rwlock).entry(*old(manager)),
                self.tid_spec(),
            ),
            final(manager).next_key_spec() == old(manager).next_key_spec(),
            final(manager).timeout_spec() == old(manager).timeout_spec(),
            forall|k: usize|
                k != old(rwlock).key_spec() ==> (final(manager).locks_map().contains_key(k) == old(
                    manager,
                ).locks_map().contains_key(k) && (old(manager).locks_map().contains_key(k)
                    ==> final(manager).locks_map()[k] == old(manager).locks_map()[k])),
    {
        let mut repr = manager.take_repr(rwlock.key);
        repr.unlock(self.tid);
        manager.put_repr(rwlock.key, repr);
        if panicking {
            rwlock.poisoned = true;
        }
    }
}

impl<T> RwLock<T> {
    pub closed spec fn key_spec(&self) -> usize {
        self.key
    }

    pub closed spec fn poisoned_spec(&self) -> bool {
        self.poisoned
    }

    pub closed spec fn inner_spec(&self) -> T {
        self.inner
    }

    /// The lock has an entry in `manager`'s registry.
    pub open spec fn registered(&self, manager: LockManager) -> bool {
        manager.locks_map().contains_key(self.key_spec())
    }

    /// The lock's registry entry in `manager`.
    pub open spec fn entry(&self, manager: LockManager) -> ReprView {
        manager.locks_map()[self.key_spec()]@
    }

    /// A fresh lock attached to `manager`.
    pub fn with_manager(manager: &mut LockManager, inner: T) -> (r: RwLock<T>)
        requires
            old(manager).wf(),
            old(manager).next_key_spec() < usize::MAX,
        ensures
            final(manager).wf(),
            r.key_spec() == old(manager).next_key_spec(),
            !old(manager).locks_map().contains_key(r.key_spec()),
            r.registered(*final(manager)),
            !r.poisoned_spec(),
            r.inner_spec() == inner,
            !r.entry(*final(manager)).write_locked,
            r.entry(*final(manager)).holders == Seq::<u64>::empty(),
            r.entry(*final(manager)).requests == Map::<u64, RequestType>::empty(),
            final(manager).locks_map() == old(manager).locks_map().insert(
                r.key_spec(),
                final(manager).locks_map()[r.key_spec()],
            ),
            final(manager).next_key_spec() == old(manager).next_key_spec() + 1,
            final(manager).timeout_spec() == old(manager).timeout_spec(),
    {
        let key = manager.create_lock();
        RwLock { key, poisoned: false, inner }
    }

    /// A fresh lock. The embedding's `new` attaches it to the process-wide
    /// manager; that manager is the explicit argument here.
    pub fn new(manager: &mut LockManager, inner: T) -> (r: RwLock<T>)
        requires
            old(manager).wf(),
            old(manager).next_key_spec() < usize::MAX,
        ensures
            final(manager).wf(),
            r.key_spec() == old(manager).next_key_spec(),
            !old(manager).locks_map().contains_key(r.key_spec()),
            r.registered(*final(manager)),
            !r.poisoned_spec(),
            r.inner_spec() == inner,
            !r.entry(*final(manager)).write_locked,
            r.entry(*final(manager)).holders == Seq::<u64>::empty(),
            r.entry(*final(manager)).requests == Map::<u64, RequestType>::empty(),
            final(manager).locks_map() == old(manager).locks_map().insert(
                r.key_spec(),
                final(manager).locks_map()[r.key_spec()],
            ),
            final(manager).next_key_spec() == old(manager).next_key_spec() + 1,
            final(manager).timeout_spec() == old(manager).timeout_spec(),
    {
        Self::with_manager(manager, inner)
    }

    /// Exclusive access through an exclusive borrow of the lock itself: no
    /// guard is needed, since the borrow proves nobody else can touch it.
    pub fn get_mut(&mut self) -> (r: &mut T)
        ensures
            *r == old(self).inner_spec(),
            final(self).inner_spec() == *final(r),
            final(self).key_spec() == old(self).key_spec(),
            final(self).poisoned_spec() == old(self).poisoned_spec(),
    {
        &mut self.inner
    }

    /// Shared access to the protected value. The embedding reads through
    /// this behind a live guard, where the registry makes the access legal;
    /// within this crate the borrow rules alone make it so.
    pub fn value(&self) -> (r: &T)
        ensures
            *r == self.inner_spec(),
    {
        &self.inner
    }

    /// The registry key this lock was created under.
    pub fn key(&self) -> (k: usize)
        ensures
            k == self.key_spec(),
    {
        self.key
    }

    /// Whether a previous holder panicked while holding this lock.
    pub fn is_poisoned(&self) -> (b: bool)
        ensures
            b == self.poisoned_spec(),
    {
        self.poisoned
    }

    /// Non-blocking shared acquisition: succeeds exactly when the lock is
    /// not write-held. Never subscribes and never analyses.
    pub fn try_read(&self, manager: &mut LockManager, tid: u64) -> (r: TryLockResult<
        RwLockReadGuard,
    >)
        requires
            old(manager).wf(),
            self.registered(*old(manager)),
        ensures
            final(manager).wf(),
            self.registered(*final(manager)),
            final(manager).next_key_spec() == old(manager).next_key_spec(),
            final(manager).timeout_spec() == old(manager).timeout_spec(),
            forall|k: usize|
                k != self.key_spec() ==> (final(manager).locks_map().contains_key(k) == old(
                    manager,
                ).locks_map().contains_key(k) && (old(manager).locks_map().contains_key(k)
                    ==> final(manager).locks_map()[k] == old(manager).locks_map()[k])),
            ({
                let e = self.entry(*old(manager));
                if !e.write_locked {
                    &&& self.entry(*final(manager)) =~= read_acquired(e, tid)
                    &&& match r {
                        Ok(g) => !self.poisoned_spec() && g.key_spec() == self.key_spec()
                            && g.tid_spec() == tid,
                        Err(TryLockError::Poisoned(p)) => self.poisoned_spec()
                            && p.guard_spec().key_spec() == self.key_spec()
                            && p.guard_spec().tid_spec() == tid,
                        Err(TryLockError::WouldBlock) => false,
                    }
                } else {
                    &&& final(manager).locks_map() == old(manager).locks_map()
                    &&& r matches Err(TryLockError::WouldBlock)
                }
            }),
    {
        let ghost m0 = manager.locks_map();
        let mut repr = manager.take_repr(self.key);
        let acquired = repr.try_read_lock(tid);
        manager.put_repr(self.key, repr);
        proof {
            if !acquired {
                assert(manager.locks_map() =~= m0);
            }
        }
        if acquired {
            let guard = RwLockReadGuard { key: self.key, tid };
            if self.poisoned {
                Err(TryLockError::Poisoned(PoisonError::new(guard)))
            } else {
                Ok(guard)
            }
        } else {
            Err(TryLockError::WouldBlock)
        }
    }

    /// Non-blocking exclusive acquisition: succeeds exactly when nobody
    /// holds the lock. Never subscribes and never analyses.
    pub fn try_write(&self, manager: &mut LockManager, tid: u64) -> (r: TryLockResult<
        RwLockWriteGuard,
    >)
        requires
            old(manager).wf(),
            self.registered(*old(manager)),
        ensures
            final(manager).wf(),
            self.registered(*final(manager)),
            final(manager).next_key_spec() == old(manager).next_key_spec(),
            final(manager).timeout_spec() == old(manager).timeout_spec(),
            forall|k: usize|
                k != self.key_spec() ==> (final(manager).locks_map().contains_key(k) == old(
                    manager,
                ).locks_map().contains_key(k) && (old(manager).locks_map().contains_key(k)
                    ==> final(manager).locks_map()[k] == old(manager).locks_map()[k])),
            ({
                let e = self.entry(*old(manager));
                if e.holders.len() == 0 {
                    &&& self.entry(*final(manager)) =~= write_acquired(e, tid)
                    &&& match r {
                        Ok(g) => !self.poisoned_spec() && g.key_spec() == self.key_spec()
                            && g.tid_spec() == tid,
                        Err(TryLockError::Poisoned(p)) => self.poisoned_spec()
                            && p.guard_spec().key_spec() == self.key_spec()
                            && p.guard_spec().tid_spec() == tid,
                        Err(TryLockError::WouldBlock) => false,
                    }
                } else {
                    &&& final(manager).locks_map() == old(manager).locks_map()
                    &&& r matches Err(TryLockError::WouldBlock)
                }
            }),
    {
        let ghost m0 = manager.locks_map();
        let mut repr = manager.take_repr(self.key);
        let acquired = repr.try_write_lock(tid);
        manager.put_repr(self.key, repr);
        proof {
            if !acquired {
                assert(manager.locks_map() =~= m0);
            }
        }
        if acquired {
            let guard = RwLockWriteGuard { key: self.key, tid };
            if self.poisoned {
                Err(TryLockError::Poisoned(PoisonError::new(guard)))
            } else {
                Ok(guard)
            }
        } else {
            Err(TryLockError::WouldBlock)
        }
    }

    /// One iteration of the blocking shared-acquisition loop; see
    /// `Mutex::lock_attempt` for the embedding's protocol.
    pub fn read_attempt(&self, manager: &mut LockManager, tid: u64, past_timeout: bool) -> (r:
        AcquireStep<RwLockReadGuard>)
        requires
            old(manager).wf(),
            self.registered(*old(manager)),
        ensures
            final(manager).wf(),
            self.registered(*final(manager)),
            final(manager).next_key_spec() == old(manager).next_key_spec(),
            final(manager).timeout_spec() == old(manager).timeout_spec(),
            forall|k: usize|
                k != self.key_spec() ==> (final(manager).locks_map().contains_key(k) == old(
                    manager,
                ).locks_map().contains_key(k) && (old(manager).locks_map().contains_key(k)
                    ==> final(manager).locks_map()[k] == old(manager).locks_map()[k])),
            ({
                let e = self.entry(*old(manager));
                if !e.write_locked {
                    &&& self.entry(*final(manager)) =~= read_acquired(e, tid)
                    &&& match r {
                        AcquireStep::Acquired(Ok(g)) => !self.poisoned_spec() && g.key_spec()
                            == self.key_spec() && g.tid_spec() == tid,
                        AcquireStep::Acquired(Err(p)) => self.poisoned_spec()
                            && p.guard_spec().key_spec() == self.key_spec()
                            && p.guard_spec().tid_spec() == tid,
                        _ => false,
                    }
                } else if past_timeout {
                    &&& self.entry(*final(manager)) =~= subscribed(e, tid, RequestType::Read)
                    &&& match r {
                        AcquireStep::Deadlock(rep) => report_valid(
                            final(manager).locks_map(),
                            tid,
                            rep,
                        ),
                        AcquireStep::Pending => analysis_quiet(
                            final(manager).locks_map(),
                            tid,
                        ),
                        _ => false,
                    }
                } else {
                    &&& final(manager).locks_map() == old(manager).locks_map()
                    &&& r is Pending
                }
            }),
    {
        let ghost m0 = manager.locks_map();
        let mut repr = manager.take_repr(self.key);
        let acquired = repr.try_read_lock(tid);
        if acquired {
            manager.put_repr(self.key, repr);
            let guard = RwLockReadGuard { key: self.key, tid };
            if self.poisoned {
                AcquireStep::Acquired(Err(PoisonError::new(guard)))
            } else {
                AcquireStep::Acquired(Ok(guard))
            }
        } else if past_timeout {
            repr.subscribe_read(tid);
            manager.put_repr(self.key, repr);
            match manager.analyse(tid) {
                Some(rep) => AcquireStep::Deadlock(rep),
                None => AcquireStep::Pending,
            }
        } else {
            manager.put_repr(self.key, repr);
            proof {
                assert(manager.locks_map() =~= m0);
            }
            AcquireStep::Pending
        }
    }

    /// One iteration of the blocking exclusive-acquisition loop; see
    /// `Mutex::lock_attempt` for the embedding's protocol.
    pub fn write_attempt(&self, manager: &mut LockManager, tid: u64, past_timeout: bool) -> (r:
        AcquireStep<RwLockWriteGuard>)
        requires
            old(manager).wf(),
            self.registered(*old(manager)),
        ensures
            final(manager).wf(),
            self.registered(*final(manager)),
            final(manager).next_key_spec() == old(manager).next_key_spec(),
            final(manager).timeout_spec() == old(manager).timeout_spec(),
            forall|k: usize|
                k != self.key_spec() ==> (final(manager).locks_map().contains_key(k) == old(
                    manager,
                ).locks_map().contains_key(k) && (old(manager).locks_map().contains_key(k)
                    ==> final(manager).locks_map()[k] == old(manager).locks_map()[k])),
            ({
                let e = self.entry(*old(manager));
                if e.holders.len() == 0 {
                    &&& self.entry(*final(manager)) =~= write_acquired(e, tid)
                    &&& match r {
                        AcquireStep::Acquired(Ok(g)) => !self.poisoned_spec() && g.key_spec()
                            == self.key_spec() && g.tid_spec() == tid,
                        AcquireStep::Acquired(Err(p)) => self.poisoned_spec()
                            && p.guard_spec().key_spec() == self.key_spec()
                            && p.guard_spec().tid_spec() == tid,
                        _ => false,
                    }
                } else if past_timeout {
                    &&& self.entry(*final(manager)) =~= subscribed(e, tid, RequestType::Write)
                    &&& match r {
                        AcquireStep::Deadlock(rep) => report_valid(
                            final(manager).locks_map(),
                            tid,
                            rep,
                        ),
                        AcquireStep::Pending => analysis_quiet(
                            final(manager).locks_map(),
                            tid,
                        ),
                        _ => false,
                    }
                } else {
                    &&& final(manager).locks_map() == old(manager).locks_map()
                    &&& r is Pending
                }
            }),
    {
        let ghost m0 = manager.locks_map();
        let mut repr = manager.take_repr(self.key);
        let acquired = repr.try_write_lock(tid);
        if acquired {
            manager.put_repr(self.key, repr);
            let guard = RwLockWriteGuard { key: self.key, tid };
            if self.poisoned {
                AcquireStep::Acquired(Err(PoisonError::new(guard)))
            } else {
                AcquireStep::Acquired(Ok(guard))
            }
        } else if past_timeout {
            repr.subscribe_write(tid);
            manager.put_repr(self.key, repr);
            match manager.analyse(tid) {
                Some(rep) => AcquireStep::Deadlock(rep),
                None => AcquireStep::Pending,
            }
        } else {
            manager.put_repr(self.key, repr);
            proof {
                assert(manager.locks_map() =~= m0);
            }
            AcquireStep::Pending
        }
    }
}

} // verus!
