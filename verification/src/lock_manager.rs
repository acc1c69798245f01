use vstd::prelude::*;
use std::time::Duration;
use crate::graphs::DependencyNode;

verus! {

/// The default time a blocked acquisition waits before it subscribes and
/// triggers a cycle analysis, in seconds.
pub const DEFAULT_ANALYSIS_TIMEOUT_SECS: u64 = 1;

#[verifier::external_type_specification]
#[verifier::external_body]
pub struct ExBacktrace(backtrace::Backtrace);

/// An unresolved call stack, recorded when a lock is acquired or when a
/// blocked request is subscribed. Symbolication is deferred to the moment a
/// report is actually printed.
pub struct CaptureSite {
    trace: backtrace::Backtrace,
}

impl CaptureSite {
    /// Relies on backtrace::Backtrace::new_unresolved: captures the current
    /// call stack without resolving symbols. The result depends on the call
    /// stack, so nothing is promised of it.
    #[verifier::external_body]
    pub fn capture() -> CaptureSite {
        CaptureSite { trace: backtrace::Backtrace::new_unresolved() }
    }

    /// Relies on backtrace::Backtrace's derived Clone, which copies the
    /// captured frames; the copy stands for the same capture point.
    #[verifier::external_body]
    pub fn duplicate(&self) -> (r: CaptureSite)
        ensures
            r == *self,
    {
        CaptureSite { trace: self.trace.clone() }
    }

    /// The raw captured trace, for resolution when a report is printed.
    pub fn trace(&self) -> &backtrace::Backtrace {
        &self.trace
    }
}

/// Relies on std::time::Duration::from_secs to build a duration from a
/// whole number of seconds.
#[verifier::external_body]
fn duration_from_secs(secs: u64) -> Duration {
    Duration::from_secs(secs)
}

/// The mode in which a blocked thread wants a lock.
#[derive(PartialEq, Eq, Structural, Copy, Clone, Debug)]
pub enum RequestType {
    Read,
    Write,
}

/// The pending requests of one lock: for each blocked thread, the requested
/// mode and the capture site of the blocked acquisition. At most one entry
/// per thread.
pub struct RequestMap {
    entries: Vec<(u64, (RequestType, CaptureSite))>,
}

impl RequestMap {
    pub closed spec fn contains_spec(&self, t: u64) -> bool {
        exists|i: int| 0 <= i < self.entries@.len() && self.entries@[i].0 == t
    }

    pub closed spec fn index_of(&self, t: u64) -> int {
        choose|i: int| 0 <= i < self.entries@.len() && self.entries@[i].0 == t
    }

    /// Entries carry pairwise distinct thread ids.
    pub closed spec fn wf(&self) -> bool {
        forall|i: int, j: int|
            0 <= i < j < self.entries@.len() ==> self.entries@[i].0 != self.entries@[j].0
    }

    /// The requests as a mathematical map from thread id to mode.
    pub closed spec fn as_map(&self) -> Map<u64, RequestType> {
        Map::new(|t: u64| self.contains_spec(t), |t: u64| self.entries@[self.index_of(t)].1.0)
    }

    /// The capture site stored for thread `t`.
    pub closed spec fn site_of(&self, t: u64) -> CaptureSite {
        self.entries@[self.index_of(t)].1.1
    }

    /// The stored entries, projected to (thread, mode, site), in storage order.
    pub closed spec fn entry_seq(&self) -> Seq<(u64, RequestType, CaptureSite)> {
        self.entries@.map_values(|e: (u64, (RequestType, CaptureSite))| (e.0, e.1.0, e.1.1))
    }

    proof fn lemma_entry(&self, i: int)
        requires
            self.wf(),
            0 <= i < self.entries@.len(),
        ensures
            self.contains_spec(self.entries@[i].0),
            self.as_map().contains_key(self.entries@[i].0),
            self.as_map()[self.entries@[i].0] == self.entries@[i].1.0,
            self.index_of(self.entries@[i].0) == i,
            self.site_of(self.entries@[i].0) == self.entries@[i].1.1,
    {
        let t = self.entries@[i].0;
        assert(self.contains_spec(t));
        let j = self.index_of(t);
        assert(0 <= j < self.entries@.len() && self.entries@[j].0 == t);
        if i != j {
            assert(false);
        }
    }

    /// A well-formed map relates its entry rows and its mathematical view.
    pub proof fn lemma_entry_seq(&self, i: int)
        requires
            self.wf(),
            0 <= i < self.entry_seq().len(),
        ensures
            self.as_map().contains_key(self.entry_seq()[i].0),
            self.as_map()[self.entry_seq()[i].0] == self.entry_seq()[i].1,
            self.site_of(self.entry_seq()[i].0) == self.entry_seq()[i].2,
    {
        self.lemma_entry(i);
    }

    pub fn new() -> (r: RequestMap)
        ensures
            r.wf(),
            r.as_map() == Map::<u64, RequestType>::empty(),
            r.entry_seq().len() == 0,
    {
        let r = RequestMap { entries: Vec::new() };
        proof {
            assert(r.as_map() =~= Map::<u64, RequestType>::empty());
        }
        r
    }

    /// The number of pending requests.
    pub fn len(&self) -> (n: usize)
        ensures
            n == self.entry_seq().len(),
    {
        self.entries.len()
    }

    /// The `i`-th stored request, as (thread, mode, site references).
    pub fn entry_at(&self, i: usize) -> (r: (u64, RequestType, &CaptureSite))
        requires
            i < self.entry_seq().len(),
        ensures
            r.0 == self.entry_seq()[i as int].0,
            r.1 == self.entry_seq()[i as int].1,
            *r.2 == self.entry_seq()[i as int].2,
    {
        let e = &self.entries[i];
        (e.0, e.1.0, &e.1.1)
    }

    fn position(&self, t: u64) -> (r: Option<usize>)
        ensures
            match r {
                Some(i) => i < self.entries@.len() && self.entries@[i as int].0 == t,
                None => !self.contains_spec(t),
            },
    {
        let len = self.entries.len();
        let mut i: usize = 0;
        while i < len
            invariant
                0 <= i <= len,
                len == self.entries@.len(),
                forall|j: int| 0 <= j < i ==> self.entries@[j].0 != t,
            decreases len - i,
        {
            if self.entries[i].0 == t {
                return Some(i);
            }
            i += 1;
        }
        None
    }

    /// The pending request of thread `t`, if it has one.
    pub fn get(&self, t: u64) -> (r: Option<&(RequestType, CaptureSite)>)
        requires
            self.wf(),
        ensures
            match r {
                Some(p) => self.as_map().contains_key(t) && p.0 == self.as_map()[t] && p.1
                    == self.site_of(t),
                None => !self.as_map().contains_key(t),
            },
    {
        match self.position(t) {
            Some(i) => {
                proof {
                    self.lemma_entry(i as int);
                }
                Some(&self.entries[i].1)
            },
            None => None,
        }
    }

    /// Inserts or replaces the request of thread `t`.
    pub fn insert(&mut self, t: u64, mode: RequestType, site: CaptureSite)
        requires
            old(self).wf(),
        ensures
            final(self).wf(),
            final(self).as_map() == old(self).as_map().insert(t, mode),
            final(self).site_of(t) == site,
            forall|u: u64|
                u != t && old(self).as_map().contains_key(u) ==> final(self).site_of(u) == old(
                    self,
                ).site_of(u),
    {
        let ghost o = *old(self);
        if let Some(i) = self.position(t) {
            self.entries.swap_remove(i);
            proof {
                let oe = o.entries@;
                let ne = self.entries@;
                assert(ne == oe.update(i as int, oe.last()).drop_last());
                assert forall|x: int, y: int|
                    0 <= x < y < ne.len() implies ne[x].0 != ne[y].0 by {
                    assert(ne[y] == oe.update(i as int, oe.last()).drop_last()[y]);
                }
                assert forall|u: u64| self.contains_spec(u) implies u == t || o.contains_spec(
                    u,
                ) by {
                    let x = choose|x: int| 0 <= x < ne.len() && ne[x].0 == u;
                    if x == i {
                        assert(oe.last().0 == u);
                    } else {
                        assert(oe[x].0 == u);
                    }
                }
                assert forall|u: u64| o.contains_spec(u) && u != t implies self.contains_spec(
                    u,
                ) by {
                    let x = choose|x: int| 0 <= x < oe.len() && oe[x].0 == u;
                    if x == i {
                        assert(false);
                    } else if x == oe.len() - 1 {
                        if i as int == oe.len() - 1 {
                            assert(false);
                        } else {
                            assert(ne[i as int].0 == u);
                        }
                    } else {
                        assert(ne[x].0 == u);
                    }
                }
                assert(!self.contains_spec(t)) by {
                    if self.contains_spec(t) {
                        let x = choose|x: int| 0 <= x < ne.len() && ne[x].0 == t;
                        if x == i {
                            assert(oe.last().0 == t && oe[i as int].0 == t);
                        } else {
                            assert(oe[x].0 == t && oe[i as int].0 == t);
                        }
                    }
                }
                assert forall|u: u64|
                    #[trigger] self.contains_spec(u) && o.contains_spec(u) && u != t
                    implies self.site_of(u) == o.site_of(u) && self.as_map()[u] == o.as_map()[u] by {
                    let x = choose|x: int| 0 <= x < ne.len() && ne[x].0 == u;
                    self.lemma_entry(x);
                    if x == i {
                        assert(ne[x] == oe.last());
                        o.lemma_entry(oe.len() - 1);
                    } else {
                        assert(ne[x] == oe[x]);
                        o.lemma_entry(x);
                    }
                }
            }
        }
        let ghost mid = *self;
        self.entries.push((t, (mode, site)));
        proof {
            let me = mid.entries@;
            let ne = self.entries@;
            assert(ne == me.push((t, (mode, site))));
            assert(!mid.contains_spec(t));
            assert forall|x: int, y: int| 0 <= x < y < ne.len() implies ne[x].0 != ne[y].0 by {
                if y == ne.len() - 1 {
                    assert(ne[x] == me[x]);
                    if ne[x].0 == t {
                        assert(mid.contains_spec(t));
                    }
                } else {
                    assert(ne[x] == me[x] && ne[y] == me[y]);
                }
            }
            assert(self.contains_spec(t)) by {
                assert(ne[ne.len() - 1].0 == t);
            }
            self.lemma_entry(ne.len() - 1);
            assert forall|u: u64| #[trigger] self.contains_spec(u) && u != t
                implies mid.contains_spec(u) && self.as_map()[u] == mid.as_map()[u]
                    && self.site_of(u) == mid.site_of(u) by {
                let x = choose|x: int| 0 <= x < ne.len() && ne[x].0 == u;
                assert(x < me.len());
                assert(me[x].0 == u);
                self.lemma_entry(x);
                mid.lemma_entry(x);
            }
            assert forall|u: u64| mid.contains_spec(u) implies self.contains_spec(u) by {
                let x = choose|x: int| 0 <= x < me.len() && me[x].0 == u;
                assert(ne[x].0 == u);
            }
            assert(self.as_map() =~= o.as_map().insert(t, mode));
        }
    }

    /// Erases the request of thread `t`, if any.
    pub fn remove(&mut self, t: u64)
        requires
            old(self).wf(),
        ensures
            final(self).wf(),
            final(self).as_map() == old(self).as_map().remove(t),
            forall|u: u64|
                u != t && old(self).as_map().contains_key(u) ==> final(self).site_of(u) == old(
                    self,
                ).site_of(u),
    {
        let ghost o = *old(self);
        match self.position(t) {
            Some(i) => {
                self.entries.swap_remove(i);
                proof {
                    let oe = o.entries@;
                    let ne = self.entries@;
                    assert(ne == oe.update(i as int, oe.last()).drop_last());
                    assert forall|x: int, y: int|
                        0 <= x < y < ne.len() implies ne[x].0 != ne[y].0 by {
                        assert(ne[y] == oe.update(i as int, oe.last()).drop_last()[y]);
                    }
                    assert forall|u: u64| self.contains_spec(u) implies o.contains_spec(u) && u
                        != t by {
                        let x = choose|x: int| 0 <= x < ne.len() && ne[x].0 == u;
                        if x == i {
                            assert(oe.last().0 == u);
                        } else {
                            assert(oe[x].0 == u);
                        }
                        if u == t {
                            assert(oe[i as int].0 == t);
                        }
                    }
                    assert forall|u: u64| o.contains_spec(u) && u != t
                        implies self.contains_spec(u) by {
                        let x = choose|x: int| 0 <= x < oe.len() && oe[x].0 == u;
                        if x == oe.len() - 1 {
                            assert(ne[i as int].0 == u);
                        } else {
                            assert(ne[x].0 == u);
                        }
                    }
                    assert forall|u: u64|
                        #[trigger] self.contains_spec(u) && u != t
                        implies self.site_of(u) == o.site_of(u)
                            && self.as_map()[u] == o.as_map()[u] by {
                        let x = choose|x: int| 0 <= x < ne.len() && ne[x].0 == u;
                        self.lemma_entry(x);
                        if x == i {
                            assert(ne[x] == oe.last());
                            o.lemma_entry(oe.len() - 1);
                        } else {
                            assert(ne[x] == oe[x]);
                            o.lemma_entry(x);
                        }
                    }
                    assert(self.as_map() =~= o.as_map().remove(t));
                }
            },
            None => {
                proof {
                    assert(self.as_map() =~= o.as_map().remove(t));
                }
            },
        }
    }
}

/// The mathematical state of one lock entry: whether it is write-held, the
/// ids of its holders, and the pending requests by thread id and mode.
#[verifier::ext_equal]
pub struct ReprView {
    pub write_locked: bool,
    pub holders: Seq<u64>,
    pub requests: Map<u64, RequestType>,
}

/// The entry invariant: a write-held lock has exactly one holder.
pub open spec fn repr_inv(v: ReprView) -> bool {
    v.write_locked ==> v.holders.len() == 1
}

/// The entry state after a successful write acquisition by `t`.
pub open spec fn write_acquired(v: ReprView, t: u64) -> ReprView {
    ReprView { write_locked: true, holders: v.holders.push(t), requests: v.requests.remove(t) }
}

/// The entry state after a successful read acquisition by `t`.
pub open spec fn read_acquired(v: ReprView, t: u64) -> ReprView {
    ReprView {
        write_locked: v.write_locked,
        holders: v.holders.push(t),
        requests: v.requests.remove(t),
    }
}

/// The entry state after thread `t` subscribed in mode `m`.
pub open spec fn subscribed(v: ReprView, t: u64, m: RequestType) -> ReprView {
    ReprView { write_locked: v.write_locked, holders: v.holders, requests: v.requests.insert(t, m) }
}

/// A sequence with the element at `i` swapped for the last one and the tail
/// cut off; how a holder row leaves the holder list.
pub open spec fn seq_swap_remove<A>(s: Seq<A>, i: int) -> Seq<A> {
    s.update(i, s.last()).drop_last()
}

/// The entry state after thread `t` released the lock: the write flag is
/// cleared and `t`'s first holder row, if any, is swap-removed.
pub open spec fn released(v: ReprView, t: u64) -> ReprView {
    match v.holders.index_of_first(t) {
        Some(i) => ReprView {
            write_locked: false,
            holders: seq_swap_remove(v.holders, i),
            requests: v.requests,
        },
        None => ReprView { write_locked: false, holders: v.holders, requests: v.requests },
    }
}

/// One lock's registry entry: the current holders with their capture sites
/// and the pending requests of blocked threads.
pub struct LockRepresentation {
    write_locked: bool,
    readers: Vec<(u64, CaptureSite)>,
    requests: RequestMap,
}

impl View for LockRepresentation {
    type V = ReprView;

    closed spec fn view(&self) -> ReprView {
        ReprView {
            write_locked: self.write_locked,
            holders: self.readers@.map_values(|e: (u64, CaptureSite)| e.0),
            requests: self.requests.as_map(),
        }
    }
}

impl LockRepresentation {
    pub closed spec fn wf(&self) -> bool {
        &&& self.requests.wf()
        &&& repr_inv(self@)
    }

    /// The holder rows (thread id, capture site), in storage order.
    pub closed spec fn holder_pairs(&self) -> Seq<(u64, CaptureSite)> {
        self.readers@
    }

    /// The pending request rows (thread id, mode, capture site).
    pub closed spec fn request_entries(&self) -> Seq<(u64, RequestType, CaptureSite)> {
        self.requests.entry_seq()
    }

    /// The capture site stored for the pending request of thread `t`.
    pub closed spec fn request_site(&self, t: u64) -> CaptureSite {
        self.requests.site_of(t)
    }

    /// The stored rows project onto the mathematical view.
    pub proof fn lemma_rows(&self)
        requires
            self.wf(),
        ensures
            self@.holders.len() == self.holder_pairs().len(),
            forall|i: int|
                0 <= i < self.holder_pairs().len() ==> #[trigger] self.holder_pairs()[i].0
                    == self@.holders[i],
            forall|i: int|
                0 <= i < self.request_entries().len() ==> {
                    &&& self@.requests.contains_key(#[trigger] self.request_entries()[i].0)
                    &&& self@.requests[self.request_entries()[i].0]
                        == self.request_entries()[i].1
                    &&& self.request_site(self.request_entries()[i].0)
                        == self.request_entries()[i].2
                },
    {
        assert forall|i: int| 0 <= i < self.request_entries().len() implies {
            &&& self@.requests.contains_key(#[trigger] self.request_entries()[i].0)
            &&& self@.requests[self.request_entries()[i].0] == self.request_entries()[i].1
            &&& self.request_site(self.request_entries()[i].0) == self.request_entries()[i].2
        } by {
            self.requests.lemma_entry_seq(i);
        }
    }

    pub fn new() -> (r: LockRepresentation)
        ensures
            r.wf(),
            !r@.write_locked,
            r@.holders == Seq::<u64>::empty(),
            r@.requests == Map::<u64, RequestType>::empty(),
            r.request_entries().len() == 0,
            r.holder_pairs().len() == 0,
    {
        let r = LockRepresentation {
            write_locked: false,
            readers: Vec::new(),
            requests: RequestMap::new(),
        };
        proof {
            assert(r@.holders =~= Seq::<u64>::empty());
        }
        r
    }

    /// Succeeds exactly when nobody holds the lock; the calling thread then
    /// becomes the sole write holder and its pending request, if any, is
    /// erased.
    pub fn try_write_lock(&mut self, tid: u64) -> (b: bool)
        requires
            old(self).wf(),
        ensures
            final(self).wf(),
            b == (old(self)@.holders.len() == 0),
            b ==> final(self)@ =~= write_acquired(old(self)@, tid),
            b ==> !final(self)@.requests.contains_key(tid),
            b ==> final(self)@.holders =~= seq![tid],
            !b ==> *final(self) == *old(self),
    {
        let ghost o = *self;
        if self.readers.len() == 0 {
            self.write_locked = true;
            self.readers.push((tid, CaptureSite::capture()));
            self.unsubscribe(tid);
            proof {
                assert(self@.holders =~= o@.holders.push(tid));
                assert(self@.holders =~= seq![tid]);
                assert(self@ =~= write_acquired(o@, tid));
            }
            true
        } else {
            false
        }
    }

    /// Succeeds exactly when the lock is not write-held; the calling thread
    /// is appended to the holders and its pending request, if any, is erased.
    pub fn try_read_lock(&mut self, tid: u64) -> (b: bool)
        requires
            old(self).wf(),
        ensures
            final(self).wf(),
            b == !old(self)@.write_locked,
            b ==> final(self)@ =~= read_acquired(old(self)@, tid),
            b ==> !final(self)@.requests.contains_key(tid),
            !b ==> *final(self) == *old(self),
    {
        let ghost o = *self;
        if self.write_locked {
            false
        } else {
            self.readers.push((tid, CaptureSite::capture()));
            self.unsubscribe(tid);
            proof {
                assert(self@.holders =~= o@.holders.push(tid));
                assert(self@ =~= read_acquired(o@, tid));
            }
            true
        }
    }

    /// Erases the calling thread's pending request, if any.
    pub fn unsubscribe(&mut self, tid: u64)
        requires
            old(self).wf(),
        ensures
            final(self).wf(),
            final(self)@.write_locked == old(self)@.write_locked,
            final(self)@.holders == old(self)@.holders,
            final(self).holder_pairs() == old(self).holder_pairs(),
            final(self)@.requests == old(self)@.requests.remove(tid),
            forall|u: u64|
                u != tid && old(self)@.requests.contains_key(u) ==> final(self).request_site(u)
                    == old(self).request_site(u),
    {
        self.requests.remove(tid);
    }

    /// Records the calling thread's pending write request. Subscribing again
    /// in the same mode changes nothing; a read request of the same thread is
    /// replaced.
    pub fn subscribe_write(&mut self, tid: u64)
        requires
            old(self).wf(),
        ensures
            final(self).wf(),
            final(self)@ =~= subscribed(old(self)@, tid, RequestType::Write),
            final(self).holder_pairs() == old(self).holder_pairs(),
            old(self)@.requests.contains_key(tid) && old(self)@.requests[tid]
                == RequestType::Write ==> *final(self) == *old(self),
            forall|u: u64|
                u != tid && old(self)@.requests.contains_key(u) ==> final(self).request_site(u)
                    == old(self).request_site(u),
    {
        let ghost o = *self;
        let already = match self.requests.get(tid) {
            Some(p) => matches!(p.0, RequestType::Write),
            None => false,
        };
        if already {
            proof {
                assert(o@.requests.insert(tid, RequestType::Write) =~= o@.requests);
            }
            return;
        }
        self.requests.insert(tid, RequestType::Write, CaptureSite::capture());
    }

    /// Records the calling thread's pending read request. Subscribing again
    /// in the same mode changes nothing; a write request of the same thread
    /// is replaced.
    pub fn subscribe_read(&mut self, tid: u64)
        requires
            old(self).wf(),
        ensures
            final(self).wf(),
            final(self)@ =~= subscribed(old(self)@, tid, RequestType::Read),
            final(self).holder_pairs() == old(self).holder_pairs(),
            old(self)@.requests.contains_key(tid) && old(self)@.requests[tid]
                == RequestType::Read ==> *final(self) == *old(self),
            forall|u: u64|
                u != tid && old(self)@.requests.contains_key(u) ==> final(self).request_site(u)
                    == old(self).request_site(u),
    {
        let ghost o = *self;
        let already = match self.requests.get(tid) {
            Some(p) => matches!(p.0, RequestType::Read),
            None => false,
        };
        if already {
            proof {
                assert(o@.requests.insert(tid, RequestType::Read) =~= o@.requests);
            }
            return;
        }
        self.requests.insert(tid, RequestType::Read, CaptureSite::capture());
    }

    /// Clears the write flag and swap-removes the calling thread's first
    /// holder row, if it has one. Requests are untouched.
    #[verifier::loop_isolation(false)]
    pub fn unlock(&mut self, tid: u64)
        requires
            old(self).wf(),
        ensures
            final(self).wf(),
            final(self)@ =~= released(old(self)@, tid),
            final(self).request_entries() == old(self).request_entries(),
            forall|u: u64|
                old(self)@.requests.contains_key(u) ==> final(self).request_site(u) == old(
                    self,
                ).request_site(u),
    {
        let ghost o = *self;
        self.write_locked = false;
        let len = self.readers.len();
        let mut i: usize = 0;
        while i < len
            invariant
                0 <= i <= len,
                len == self.readers@.len(),
                self.readers@ == o.readers@,
                self.requests == o.requests,
                !self.write_locked,
                forall|j: int| 0 <= j < i ==> self.readers@[j].0 != tid,
            decreases len - i,
        {
            if self.readers[i].0 == tid {
                proof {
                    let oh = o@.holders;
                    oh.index_of_first_ensures(tid);
                    assert(oh[i as int] == tid);
                    match oh.index_of_first(tid) {
                        Some(x) => {
                            if x < i as int {
                                assert(o.readers@[x].0 == tid);
                                assert(false);
                            } else if x > i as int {
                                assert(false);
                            }
                        },
                        None => {
                            assert(oh.contains(tid));
                            assert(false);
                        },
                    }
                }
                self.readers.swap_remove(i);
                proof {
                    let oh = o@.holders;
                    assert(self@.holders =~= seq_swap_remove(oh, i as int));
                    assert(self@ =~= released(o@, tid));
                }
                return;
            }
            i += 1;
        }
        proof {
            let oh = o@.holders;
            oh.index_of_first_ensures(tid);
            match oh.index_of_first(tid) {
                Some(x) => {
                    assert(o.readers@[x].0 == tid);
                    assert(false);
                },
                None => {},
            }
            assert(self@ =~= released(o@, tid));
        }
    }

    pub fn is_write_locked(&self) -> (b: bool)
        ensures
            b == self@.write_locked,
    {
        self.write_locked
    }

    pub fn holders_len(&self) -> (n: usize)
        ensures
            n == self.holder_pairs().len(),
    {
        self.readers.len()
    }

    pub fn holder_id_at(&self, i: usize) -> (t: u64)
        requires
            i < self.holder_pairs().len(),
        ensures
            t == self.holder_pairs()[i as int].0,
    {
        self.readers[i].0
    }

    pub fn holder_site_at(&self, i: usize) -> (s: &CaptureSite)
        requires
            i < self.holder_pairs().len(),
        ensures
            *s == self.holder_pairs()[i as int].1,
    {
        &self.readers[i].1
    }

    pub fn requests_len(&self) -> (n: usize)
        ensures
            n == self.request_entries().len(),
    {
        self.requests.len()
    }

    pub fn request_at(&self, i: usize) -> (r: (u64, RequestType, &CaptureSite))
        requires
            i < self.request_entries().len(),
        ensures
            r.0 == self.request_entries()[i as int].0,
            r.1 == self.request_entries()[i as int].1,
            *r.2 == self.request_entries()[i as int].2,
    {
        self.requests.entry_at(i)
    }

    /// The pending request of thread `t`: its mode and capture site.
    pub fn request_get(&self, t: u64) -> (r: Option<&(RequestType, CaptureSite)>)
        requires
            self.wf(),
        ensures
            match r {
                Some(p) => self@.requests.contains_key(t) && p.0 == self@.requests[t] && p.1
                    == self.request_site(t),
                None => !self@.requests.contains_key(t),
            },
    {
        self.requests.get(t)
    }
}


impl Default for LockRepresentation {
    /// A fresh, unheld, unrequested entry.
    fn default() -> (r: LockRepresentation)
        ensures
            r.wf(),
            !r@.write_locked,
            r@.holders == Seq::<u64>::empty(),
            r@.requests == Map::<u64, RequestType>::empty(),
    {
        LockRepresentation::new()
    }
}

/// The registry: a map from lock key to entry, with pairwise distinct keys.
pub struct LockMap {
    entries: Vec<(usize, LockRepresentation)>,
}

impl LockMap {
    pub closed spec fn contains_spec(&self, k: usize) -> bool {
        exists|i: int| 0 <= i < self.entries@.len() && self.entries@[i].0 == k
    }

    pub closed spec fn index_of(&self, k: usize) -> int {
        choose|i: int| 0 <= i < self.entries@.len() && self.entries@[i].0 == k
    }

    pub closed spec fn wf(&self) -> bool {
        forall|i: int, j: int|
            0 <= i < j < self.entries@.len() ==> self.entries@[i].0 != self.entries@[j].0
    }

    pub closed spec fn as_map(&self) -> Map<usize, LockRepresentation> {
        Map::new(|k: usize| self.contains_spec(k), |k: usize| self.entries@[self.index_of(k)].1)
    }

    proof fn lemma_entry(&self, i: int)
        requires
            self.wf(),
            0 <= i < self.entries@.len(),
        ensures
            self.contains_spec(self.entries@[i].0),
            self.as_map().contains_key(self.entries@[i].0),
            self.as_map()[self.entries@[i].0] == self.entries@[i].1,
            self.index_of(self.entries@[i].0) == i,
    {
        let k = self.entries@[i].0;
        assert(self.contains_spec(k));
        let j = self.index_of(k);
        assert(0 <= j < self.entries@.len() && self.entries@[j].0 == k);
        if i != j {
            assert(false);
        }
    }

    pub fn new() -> (r: LockMap)
        ensures
            r.wf(),
            r.as_map() == Map::<usize, LockRepresentation>::empty(),
            r.len_spec() == 0,
    {
        let r = LockMap { entries: Vec::new() };
        proof {
            assert(r.as_map() =~= Map::<usize, LockRepresentation>::empty());
        }
        r
    }

    pub closed spec fn len_spec(&self) -> nat {
        self.entries@.len()
    }

    /// The `i`-th stored entry row.
    pub closed spec fn entry_spec(&self, i: int) -> (usize, LockRepresentation) {
        self.entries@[i]
    }

    /// A well-formed registry relates its rows and its mathematical view.
    pub proof fn lemma_row(&self, i: int)
        requires
            self.wf(),
            0 <= i < self.len_spec(),
        ensures
            self.as_map().contains_key(self.entry_spec(i).0),
            self.as_map()[self.entry_spec(i).0] == self.entry_spec(i).1,
    {
        self.lemma_entry(i);
    }

    pub fn len(&self) -> (n: usize)
        ensures
            n == self.len_spec(),
    {
        self.entries.len()
    }

    pub fn entry_at(&self, i: usize) -> (r: &(usize, LockRepresentation))
        requires
            i < self.len_spec(),
        ensures
            *r == self.entry_spec(i as int),
    {
        &self.entries[i]
    }

    fn position(&self, k: usize) -> (r: Option<usize>)
        ensures
            match r {
                Some(i) => i < self.entries@.len() && self.entries@[i as int].0 == k,
                None => !self.contains_spec(k),
            },
    {
        let len = self.entries.len();
        let mut i: usize = 0;
        while i < len
            invariant
                0 <= i <= len,
                len == self.entries@.len(),
                forall|j: int| 0 <= j < i ==> self.entries@[j].0 != k,
            decreases len - i,
        {
            if self.entries[i].0 == k {
                return Some(i);
            }
            i += 1;
        }
        None
    }

    /// The entry of lock `k`, if it is registered.
    pub fn get(&self, k: usize) -> (r: Option<&LockRepresentation>)
        requires
            self.wf(),
        ensures
            match r {
                Some(p) => self.as_map().contains_key(k) && *p == self.as_map()[k],
                None => !self.as_map().contains_key(k),
            },
    {
        match self.position(k) {
            Some(i) => {
                proof {
                    self.lemma_entry(i as int);
                }
                Some(&self.entries[i].1)
            },
            None => None,
        }
    }

    /// Moves the entry of lock `k` out of the registry.
    pub fn take(&mut self, k: usize) -> (r: LockRepresentation)
        requires
            old(self).wf(),
            old(self).as_map().contains_key(k),
        ensures
            final(self).wf(),
            r == old(self).as_map()[k],
            final(self).as_map() == old(self).as_map().remove(k),
    {
        let ghost o = *self;
        let i = match self.position(k) {
            Some(i) => i,
            None => {
                proof {
                    assert(false);
                }
                0
            },
        };
        proof {
            self.lemma_entry(i as int);
        }
        let e = self.entries.swap_remove(i);
        proof {
            let oe = o.entries@;
            let ne = self.entries@;
            assert(ne == oe.update(i as int, oe.last()).drop_last());
            assert forall|x: int, y: int| 0 <= x < y < ne.len() implies ne[x].0 != ne[y].0 by {
                assert(ne[y] == oe.update(i as int, oe.last()).drop_last()[y]);
            }
            assert forall|u: usize| self.contains_spec(u) implies o.contains_spec(u) && u != k by {
                let x = choose|x: int| 0 <= x < ne.len() && ne[x].0 == u;
                if x == i {
                    assert(oe.last().0 == u);
                } else {
                    assert(oe[x].0 == u);
                }
                if u == k {
                    assert(oe[i as int].0 == k);
                }
            }
            assert forall|u: usize| o.contains_spec(u) && u != k implies self.contains_spec(u) by {
                let x = choose|x: int| 0 <= x < oe.len() && oe[x].0 == u;
                if x == oe.len() - 1 {
                    assert(ne[i as int].0 == u);
                } else {
                    assert(ne[x].0 == u);
                }
            }
            assert forall|u: usize| #[trigger] self.contains_spec(u) && u != k
                implies self.as_map()[u] == o.as_map()[u] by {
                let x = choose|x: int| 0 <= x < ne.len() && ne[x].0 == u;
                self.lemma_entry(x);
                if x == i {
                    assert(ne[x] == oe.last());
                    o.lemma_entry(oe.len() - 1);
                } else {
                    assert(ne[x] == oe[x]);
                    o.lemma_entry(x);
                }
            }
            assert(self.as_map() =~= o.as_map().remove(k));
        }
        e.1
    }

    /// Installs the entry of a lock that is not registered yet.
    pub fn put(&mut self, k: usize, v: LockRepresentation)
        requires
            old(self).wf(),
            !old(self).as_map().contains_key(k),
        ensures
            final(self).wf(),
            final(self).as_map() == old(self).as_map().insert(k, v),
    {
        let ghost o = *self;
        self.entries.push((k, v));
        proof {
            let oe = o.entries@;
            let ne = self.entries@;
            assert(ne == oe.push((k, v)));
            assert forall|x: int, y: int| 0 <= x < y < ne.len() implies ne[x].0 != ne[y].0 by {
                if y == ne.len() - 1 {
                    assert(ne[x] == oe[x]);
                    if ne[x].0 == k {
                        assert(o.contains_spec(k));
                    }
                } else {
                    assert(ne[x] == oe[x] && ne[y] == oe[y]);
                }
            }
            assert(ne[ne.len() - 1].0 == k);
            assert(self.contains_spec(k));
            self.lemma_entry(ne.len() - 1);
            assert forall|u: usize| #[trigger] self.contains_spec(u) && u != k
                implies o.contains_spec(u) && self.as_map()[u] == o.as_map()[u] by {
                let x = choose|x: int| 0 <= x < ne.len() && ne[x].0 == u;
                assert(x < oe.len());
                assert(oe[x].0 == u);
                self.lemma_entry(x);
                o.lemma_entry(x);
            }
            assert forall|u: usize| o.contains_spec(u) implies self.contains_spec(u) by {
                let x = choose|x: int| 0 <= x < oe.len() && oe[x].0 == u;
                assert(ne[x].0 == u);
            }
            assert(self.as_map() =~= o.as_map().insert(k, v));
        }
    }

    /// Erases the entry of lock `k`; nothing happens when it is absent.
    pub fn remove(&mut self, k: usize)
        requires
            old(self).wf(),
        ensures
            final(self).wf(),
            final(self).as_map() == old(self).as_map().remove(k),
    {
        let present = match self.position(k) {
            Some(_) => true,
            None => false,
        };
        if present {
            proof {
                assert(self.as_map().contains_key(k));
            }
            let _ = self.take(k);
        } else {
            proof {
                assert(self.as_map() =~= old(self).as_map().remove(k));
            }
        }
    }
}

/// The state guarded by the manager's internal reader-writer counter: the id
/// source, the registry, and the analysis-timeout configuration.
pub struct LockManagerInner {
    next_key: usize,
    analysis_timeout: Duration,
    locks: LockMap,
}

impl LockManagerInner {
    pub closed spec fn next_key_spec(&self) -> usize {
        self.next_key
    }

    pub closed spec fn locks_map(&self) -> Map<usize, LockRepresentation> {
        self.locks.as_map()
    }

    pub closed spec fn timeout_spec(&self) -> Duration {
        self.analysis_timeout
    }

    /// Registry keys are all below the id source and every entry is
    /// well-formed.
    pub closed spec fn wf(&self) -> bool {
        &&& self.locks.wf()
        &&& forall|k: usize|
            #[trigger] self.locks.as_map().contains_key(k) ==> k < self.next_key
                && self.locks.as_map()[k].wf()
    }

    fn new() -> (r: LockManagerInner)
        ensures
            r.wf(),
            r.next_key_spec() == 0,
            r.locks_map() == Map::<usize, LockRepresentation>::empty(),
    {
        LockManagerInner {
            next_key: 0,
            analysis_timeout: duration_from_secs(DEFAULT_ANALYSIS_TIMEOUT_SECS),
            locks: LockMap::new(),
        }
    }

    fn with_analysis_timeout(analysis_timeout: Duration) -> (r: LockManagerInner)
        ensures
            r.wf(),
            r.next_key_spec() == 0,
            r.locks_map() == Map::<usize, LockRepresentation>::empty(),
            r.timeout_spec() == analysis_timeout,
    {
        LockManagerInner { next_key: 0, analysis_timeout, locks: LockMap::new() }
    }
}

/// The process-wide registry owner. Concurrent embeddings guard a value of
/// this type with the atomic reader-writer counter protocol stated by
/// `counter_read_acquire` and its companions.
pub struct LockManager {
    inner: LockManagerInner,
}

impl LockManager {
    pub closed spec fn next_key_spec(&self) -> usize {
        self.inner.next_key_spec()
    }

    pub closed spec fn locks_map(&self) -> Map<usize, LockRepresentation> {
        self.inner.locks_map()
    }

    pub closed spec fn timeout_spec(&self) -> Duration {
        self.inner.timeout_spec()
    }

    pub closed spec fn wf(&self) -> bool {
        self.inner.wf()
    }

    /// A fresh manager with the default analysis timeout.
    pub fn new() -> (r: LockManager)
        ensures
            r.wf(),
            r.next_key_spec() == 0,
            r.locks_map() == Map::<usize, LockRepresentation>::empty(),
    {
        LockManager { inner: LockManagerInner::new() }
    }

    /// A fresh manager that waits `analysis_timeout` before a blocked
    /// acquisition subscribes and analysis runs.
    pub fn with_analysis_timeout(analysis_timeout: Duration) -> (r: LockManager)
        ensures
            r.wf(),
            r.next_key_spec() == 0,
            r.locks_map() == Map::<usize, LockRepresentation>::empty(),
            r.timeout_spec() == analysis_timeout,
    {
        LockManager { inner: LockManagerInner::with_analysis_timeout(analysis_timeout) }
    }

    pub fn analysis_timeout(&self) -> (d: Duration)
        ensures
            d == self.timeout_spec(),
    {
        self.inner.analysis_timeout
    }

    /// Mints a fresh id and installs an empty entry under it. Ids strictly
    /// increase and are never reused while the manager lives.
    pub fn create_lock(&mut self) -> (key: usize)
        requires
            old(self).wf(),
            old(self).next_key_spec() < usize::MAX,
        ensures
            final(self).wf(),
            key == old(self).next_key_spec(),
            !old(self).locks_map().contains_key(key),
            final(self).next_key_spec() == old(self).next_key_spec() + 1,
            final(self).locks_map().contains_key(key),
            final(self).locks_map()[key].wf(),
            !final(self).locks_map()[key]@.write_locked,
            final(self).locks_map()[key]@.holders == Seq::<u64>::empty(),
            final(self).locks_map()[key]@.requests == Map::<u64, RequestType>::empty(),
            final(self).locks_map() == old(self).locks_map().insert(
                key,
                final(self).locks_map()[key],
            ),
            final(self).timeout_spec() == old(self).timeout_spec(),
    {
        let key = self.inner.next_key;
        proof {
            if self.inner.locks.as_map().contains_key(key) {
                assert(key < key);
            }
        }
        self.inner.next_key = key + 1;
        let repr = LockRepresentation::new();
        self.inner.locks.put(key, repr);
        key
    }

    /// Erases the entry of `key`; a second removal of the same key is
    /// harmless.
    pub fn remove_lock(&mut self, key: usize)
        requires
            old(self).wf(),
        ensures
            final(self).wf(),
            final(self).locks_map() == old(self).locks_map().remove(key),
            final(self).next_key_spec() == old(self).next_key_spec(),
            final(self).timeout_spec() == old(self).timeout_spec(),
    {
        self.inner.locks.remove(key);
    }

    /// Moves the entry of `key` out for mutation; `put_repr` returns it.
    pub(crate) fn take_repr(&mut self, key: usize) -> (r: LockRepresentation)
        requires
            old(self).wf(),
            old(self).locks_map().contains_key(key),
        ensures
            final(self).wf(),
            r == old(self).locks_map()[key],
            r.wf(),
            key < final(self).next_key_spec(),
            final(self).locks_map() == old(self).locks_map().remove(key),
            final(self).next_key_spec() == old(self).next_key_spec(),
            final(self).timeout_spec() == old(self).timeout_spec(),
    {
        self.inner.locks.take(key)
    }

    /// Runs the cycle analysis on the current registry snapshot; see
    /// `LockManagerInner::analyse`.
    pub fn analyse(&self, tid: u64) -> (r: Option<DeadlockReport>)
        requires
            self.wf(),
        ensures
            match r {
                Some(rep) => report_valid(self.locks_map(), tid, rep),
                None => analysis_quiet(self.locks_map(), tid),
            },
    {
        self.inner.analyse(tid)
    }

    /// Reinstalls an entry moved out by `take_repr`.
    pub(crate) fn put_repr(&mut self, key: usize, v: LockRepresentation)
        requires
            old(self).wf(),
            !old(self).locks_map().contains_key(key),
            key < old(self).next_key_spec(),
            v.wf(),
        ensures
            final(self).wf(),
            final(self).locks_map() == old(self).locks_map().insert(key, v),
            final(self).next_key_spec() == old(self).next_key_spec(),
            final(self).timeout_spec() == old(self).timeout_spec(),
    {
        self.inner.locks.put(key, v);
    }
}

impl Default for LockManager {
    /// A fresh manager with the default analysis timeout.
    fn default() -> (r: LockManager)
        ensures
            r.wf(),
            r.next_key_spec() == 0,
            r.locks_map() == Map::<usize, LockRepresentation>::empty(),
    {
        LockManager::new()
    }
}

/// The value range of the manager's internal atomic counter: -1 marks a
/// writer, 0 marks idleness, and a positive value counts readers.
pub open spec fn counter_in_range(c: int) -> bool {
    -1 <= c
}

/// One reader entering: possible exactly when no writer holds the counter
/// and the count can still grow.
pub fn counter_read_acquire(c: i32) -> (r: Option<i32>)
    requires
        counter_in_range(c as int),
    ensures
        match r {
            Some(n) => 0 <= c && c < i32::MAX && n == c + 1 && counter_in_range(n as int),
            None => c == -1 || c == i32::MAX,
        },
{
    if c >= 0 && c < i32::MAX {
        Some(c + 1)
    } else {
        None
    }
}

/// The writer entering: possible exactly when the counter is idle.
pub fn counter_write_acquire(c: i32) -> (r: Option<i32>)
    requires
        counter_in_range(c as int),
    ensures
        match r {
            Some(n) => c == 0 && n == -1 && counter_in_range(n as int),
            None => c != 0,
        },
{
    if c == 0 {
        Some(-1)
    } else {
        None
    }
}

/// One reader leaving.
pub fn counter_read_release(c: i32) -> (r: i32)
    requires
        c > 0,
    ensures
        r == c - 1,
        counter_in_range(r as int),
{
    c - 1
}

/// The writer leaving: the counter returns to idle.
pub fn counter_write_release() -> (r: i32)
    ensures
        r == 0,
        counter_in_range(r as int),
{
    0
}

/// The counter protocol never leaves {-1} union the naturals: every
/// transition a reader or the writer can make keeps the counter in range.
pub proof fn lemma_counter_in_range(c: int, n: int)
    requires
        counter_in_range(c),
        (0 <= c && n == c + 1) || (c == 0 && n == -1) || (0 < c && n == c - 1) || n == 0,
    ensures
        counter_in_range(n),
{
}


/// Thread `t` currently holds lock `k` in the registry snapshot `m`: the
/// lock cannot be freed before `t` releases it.
pub open spec fn holds_edge(m: Map<usize, LockRepresentation>, k: usize, t: u64) -> bool {
    m.contains_key(k) && m[k]@.holders.contains(t)
}

/// Thread `t` is blocked on lock `k` in the snapshot `m`: it has a pending
/// request, and either the request wants write rights or the lock is
/// write-held. A read request against a read-held lock is no wait edge.
pub open spec fn waits_edge(m: Map<usize, LockRepresentation>, k: usize, t: u64) -> bool {
    m.contains_key(k) && m[k]@.requests.contains_key(t) && (m[k]@.write_locked
        || m[k]@.requests[t] == RequestType::Write)
}

/// An edge of the wait-for graph induced by the registry snapshot `m`.
pub open spec fn wait_edge(
    m: Map<usize, LockRepresentation>,
    a: DependencyNode,
    b: DependencyNode,
) -> bool {
    match (a, b) {
        (DependencyNode::Lock(k), DependencyNode::Thread(t)) => holds_edge(m, k, t),
        (DependencyNode::Thread(t), DependencyNode::Lock(k)) => waits_edge(m, k, t),
        _ => false,
    }
}

/// `c` is a directed cycle of the wait-for graph induced by `m`.
pub open spec fn wait_cycle(m: Map<usize, LockRepresentation>, c: Seq<DependencyNode>) -> bool {
    &&& c.len() >= 1
    &&& forall|i: int| 0 <= i < c.len() - 1 ==> wait_edge(m, #[trigger] c[i], c[i + 1])
    &&& wait_edge(m, c[c.len() - 1], c[0])
}

/// What a quiet analysis means on the snapshot `m`: either no duplicate-free
/// wait cycle exists at all, or one exists that does not involve `tid` --
/// some other group of threads is deadlocked and one of them will detect it.
pub open spec fn analysis_quiet(m: Map<usize, LockRepresentation>, tid: u64) -> bool {
    ||| forall|c: Seq<DependencyNode>| c.no_duplicates() ==> !(#[trigger] wait_cycle(m, c))
    ||| exists|c: Seq<DependencyNode>|
        c.no_duplicates() && #[trigger] wait_cycle(m, c) && !c.contains(
            DependencyNode::Thread(tid),
        )
}

/// The keys of the lock nodes of `c`, in cycle order.
pub open spec fn lock_ids_of(c: Seq<DependencyNode>) -> Seq<usize>
    decreases c.len(),
{
    if c.len() == 0 {
        Seq::empty()
    } else {
        match c.last() {
            DependencyNode::Lock(k) => lock_ids_of(c.drop_last()).push(k),
            DependencyNode::Thread(_) => lock_ids_of(c.drop_last()),
        }
    }
}

/// What a report prints for one lock of the cycle: who is blocked on it and
/// who holds it, with the capture sites of both sides.
pub struct LockSection {
    pub lock_id: usize,
    pub blocking: Vec<(u64, RequestType, CaptureSite)>,
    pub blocked_by: Vec<(u64, CaptureSite)>,
}

/// The section reproduces the registry rows of its lock exactly.
pub open spec fn section_matches(m: Map<usize, LockRepresentation>, s: LockSection) -> bool {
    &&& m.contains_key(s.lock_id)
    &&& s.blocking@ == m[s.lock_id].request_entries()
    &&& s.blocked_by@ == m[s.lock_id].holder_pairs()
}

/// Everything a deadlock report prints, gathered under the manager's lock so
/// that the data is a consistent snapshot.
pub enum DeadlockReport {
    /// A two-node cycle: the calling thread requests a lock it already
    /// holds. `taken_at` is the capture site of the standing acquisition,
    /// `request_at` the site of the pending request.
    Reentrance {
        lock_id: usize,
        taken_at: CaptureSite,
        request_at: CaptureSite,
        cycle: Vec<DependencyNode>,
    },
    /// A longer cycle: for every lock on it, the full blocking picture.
    Cycle { cycle: Vec<DependencyNode>, sections: Vec<LockSection> },
}

impl DeadlockReport {
    pub open spec fn cycle_seq(&self) -> Seq<DependencyNode> {
        match self {
            DeadlockReport::Reentrance { cycle, .. } => cycle@,
            DeadlockReport::Cycle { cycle, .. } => cycle@,
        }
    }
}

/// The report describes a cycle of the snapshot `m` that involves thread
/// `tid`, and every capture site it carries is the registry's own.
pub open spec fn report_valid(
    m: Map<usize, LockRepresentation>,
    tid: u64,
    rep: DeadlockReport,
) -> bool {
    match rep {
        DeadlockReport::Reentrance { lock_id, taken_at, request_at, cycle } => {
            &&& wait_cycle(m, cycle@)
            &&& cycle@.len() == 2
            &&& cycle@.contains(DependencyNode::Thread(tid))
            &&& cycle@.contains(DependencyNode::Lock(lock_id))
            &&& m.contains_key(lock_id)
            &&& m[lock_id].holder_pairs().len() >= 1
            &&& taken_at == m[lock_id].holder_pairs()[0].1
            &&& m[lock_id]@.requests.contains_key(tid)
            &&& request_at == m[lock_id].request_site(tid)
        },
        DeadlockReport::Cycle { cycle, sections } => {
            &&& wait_cycle(m, cycle@)
            &&& cycle@.len() != 2
            &&& cycle@.contains(DependencyNode::Thread(tid))
            &&& sections@.len() == lock_ids_of(cycle@).len()
            &&& forall|i: int|
                0 <= i < sections@.len() ==> (#[trigger] sections@[i]).lock_id == lock_ids_of(
                    cycle@,
                )[i] && section_matches(m, sections@[i])
        },
    }
}

/// Row `x` of the registry obliges the wait-for graph to hold the edge from
/// its lock node to the holder at `j`.
spec fn row_holder_edge(locks: &LockMap, x: int, j: int) -> bool {
    &&& 0 <= x < locks.len_spec()
    &&& 0 <= j < locks.entry_spec(x).1.holder_pairs().len()
}

/// Row `x` of the registry obliges the graph to hold the edge from the
/// requester at `j` to its lock node: the request wants write rights or the
/// lock is write-held.
spec fn row_request_edge(locks: &LockMap, x: int, j: int) -> bool {
    &&& 0 <= x < locks.len_spec()
    &&& 0 <= j < locks.entry_spec(x).1.request_entries().len()
    &&& (locks.entry_spec(x).1@.write_locked || locks.entry_spec(x).1.request_entries()[j].1
        == RequestType::Write)
}

/// A wait edge always joins a thread and a lock, one of each.
pub proof fn lemma_wait_edge_shape(
    m: Map<usize, LockRepresentation>,
    a: DependencyNode,
    b: DependencyNode,
)
    requires
        wait_edge(m, a, b),
    ensures
        (a is Lock && b is Thread) || (a is Thread && b is Lock),
{
}

impl LockManagerInner {
    /// Builds the wait-for graph from the registry, runs the cycle finder,
    /// and classifies what it found. A report comes back exactly when the
    /// walk found a cycle that involves the calling thread; the report's data
    /// is the registry's own. When nothing comes back, either no
    /// duplicate-free cycle exists in the wait-for graph at all, or one
    /// exists that does not involve the caller -- some other group of threads
    /// is deadlocked, and one of them will detect it.
    pub fn analyse(&self, tid: u64) -> (r: Option<DeadlockReport>)
        requires
            self.wf(),
        ensures
            match r {
                Some(rep) => report_valid(self.locks_map(), tid, rep),
                None => analysis_quiet(self.locks_map(), tid),
            },
    {
        let ghost m = self.locks_map();
        let mut graph = crate::graphs::Graph::new();
        let n = self.locks.len();
        let mut i: usize = 0;
        while i < n
            invariant
                self.wf(),
                m == self.locks_map(),
                n == self.locks.len_spec(),
                0 <= i <= n,
                graph.wf(),
                forall|a: DependencyNode, b: DependencyNode|
                    #[trigger] graph.edge(a, b) ==> wait_edge(m, a, b),
                forall|x: int, j: int|
                    0 <= x < i && #[trigger] row_holder_edge(&self.locks, x, j) ==> graph.edge(
                        DependencyNode::Lock(self.locks.entry_spec(x).0),
                        DependencyNode::Thread(self.locks.entry_spec(x).1.holder_pairs()[j].0),
                    ),
                forall|x: int, j: int|
                    0 <= x < i && #[trigger] row_request_edge(&self.locks, x, j) ==> graph.edge(
                        DependencyNode::Thread(self.locks.entry_spec(x).1.request_entries()[j].0),
                        DependencyNode::Lock(self.locks.entry_spec(x).0),
                    ),
            decreases n - i,
        {
            let row = self.locks.entry_at(i);
            let id = row.0;
            let repr = &row.1;
            proof {
                self.locks.lemma_row(i as int);
                repr.lemma_rows();
            }
            let lock_node = DependencyNode::Lock(id);
            let hn = repr.holders_len();
            let mut j: usize = 0;
            while j < hn
                invariant
                    self.wf(),
                    m == self.locks_map(),
                    n == self.locks.len_spec(),
                    i < n,
                    row == self.locks.entry_spec(i as int),
                    id == row.0,
                    repr == row.1,
                    self.locks_map().contains_key(id),
                    self.locks_map()[id] == row.1,
                    lock_node == DependencyNode::Lock(id),
                    hn == repr.holder_pairs().len(),
                    0 <= j <= hn,
                    graph.wf(),
                    forall|a: DependencyNode, b: DependencyNode|
                        #[trigger] graph.edge(a, b) ==> wait_edge(m, a, b),
                    forall|x: int, j3: int|
                        0 <= x < i && #[trigger] row_holder_edge(&self.locks, x, j3)
                            ==> graph.edge(
                            DependencyNode::Lock(self.locks.entry_spec(x).0),
                            DependencyNode::Thread(
                                self.locks.entry_spec(x).1.holder_pairs()[j3].0,
                            ),
                        ),
                    forall|x: int, j3: int|
                        0 <= x < i && #[trigger] row_request_edge(&self.locks, x, j3)
                            ==> graph.edge(
                            DependencyNode::Thread(
                                self.locks.entry_spec(x).1.request_entries()[j3].0,
                            ),
                            DependencyNode::Lock(self.locks.entry_spec(x).0),
                        ),
                    forall|j3: int|
                        0 <= j3 < j ==> graph.edge(
                            lock_node,
                            DependencyNode::Thread((#[trigger] repr.holder_pairs()[j3]).0),
                        ),
                decreases hn - j,
            {
                let t = repr.holder_id_at(j);
                proof {
                    repr.lemma_rows();
                    assert(repr@.holders[j as int] == t);
                    assert(repr@.holders.contains(t));
                    assert(holds_edge(m, id, t));
                }
                graph.add_edge_and_nodes(lock_node, DependencyNode::Thread(t));
                j += 1;
            }
            let rn = repr.requests_len();
            let write_held = repr.is_write_locked();
            let mut j2: usize = 0;
            while j2 < rn
                invariant
                    self.wf(),
                    m == self.locks_map(),
                    n == self.locks.len_spec(),
                    i < n,
                    row == self.locks.entry_spec(i as int),
                    id == row.0,
                    repr == row.1,
                    self.locks_map().contains_key(id),
                    self.locks_map()[id] == row.1,
                    lock_node == DependencyNode::Lock(id),
                    rn == repr.request_entries().len(),
                    write_held == repr@.write_locked,
                    0 <= j2 <= rn,
                    graph.wf(),
                    forall|a: DependencyNode, b: DependencyNode|
                        #[trigger] graph.edge(a, b) ==> wait_edge(m, a, b),
                    forall|x: int, j3: int|
                        0 <= x < i && #[trigger] row_holder_edge(&self.locks, x, j3)
                            ==> graph.edge(
                            DependencyNode::Lock(self.locks.entry_spec(x).0),
                            DependencyNode::Thread(
                                self.locks.entry_spec(x).1.holder_pairs()[j3].0,
                            ),
                        ),
                    forall|x: int, j3: int|
                        0 <= x < i && #[trigger] row_request_edge(&self.locks, x, j3)
                            ==> graph.edge(
                            DependencyNode::Thread(
                                self.locks.entry_spec(x).1.request_entries()[j3].0,
                            ),
                            DependencyNode::Lock(self.locks.entry_spec(x).0),
                        ),
                    forall|j3: int|
                        0 <= j3 < repr.holder_pairs().len() ==> graph.edge(
                            lock_node,
                            DependencyNode::Thread((#[trigger] repr.holder_pairs()[j3]).0),
                        ),
                    forall|j3: int|
                        0 <= j3 < j2 && (repr@.write_locked || (
                        #[trigger] repr.request_entries()[j3]).1 == RequestType::Write)
                            ==> graph.edge(
                            DependencyNode::Thread(repr.request_entries()[j3].0),
                            lock_node,
                        ),
                decreases rn - j2,
            {
                let req = repr.request_at(j2);
                let t = req.0;
                let is_write = matches!(req.1, RequestType::Write);
                if write_held || is_write {
                    proof {
                        repr.lemma_rows();
                        assert(repr@.requests.contains_key(t));
                        assert(repr@.requests[t] == repr.request_entries()[j2 as int].1);
                        assert(waits_edge(m, id, t));
                    }
                    graph.add_edge_and_nodes(DependencyNode::Thread(t), lock_node);
                }
                j2 += 1;
            }
            proof {
                assert forall|x: int, j3: int|
                    0 <= x < i + 1 && #[trigger] row_holder_edge(&self.locks, x, j3)
                    implies graph.edge(
                    DependencyNode::Lock(self.locks.entry_spec(x).0),
                    DependencyNode::Thread(self.locks.entry_spec(x).1.holder_pairs()[j3].0),
                ) by {
                    if x == i as int {
                        assert(graph.edge(
                            lock_node,
                            DependencyNode::Thread(repr.holder_pairs()[j3].0),
                        ));
                    }
                }
                assert forall|x: int, j3: int|
                    0 <= x < i + 1 && #[trigger] row_request_edge(&self.locks, x, j3)
                    implies graph.edge(
                    DependencyNode::Thread(self.locks.entry_spec(x).1.request_entries()[j3].0),
                    DependencyNode::Lock(self.locks.entry_spec(x).0),
                ) by {
                    if x == i as int {
                        assert(graph.edge(
                            DependencyNode::Thread(repr.request_entries()[j3].0),
                            lock_node,
                        ));
                    }
                }
            }
            i += 1;
        }
        proof {
            assert forall|a: DependencyNode, b: DependencyNode| wait_edge(m, a, b)
                implies #[trigger] graph.edge(a, b) by {
                match (a, b) {
                    (DependencyNode::Lock(kk), DependencyNode::Thread(tt)) => {
                        assert(self.locks.as_map().contains_key(kk));
                        let x = choose|x: int|
                            0 <= x < self.locks.entries@.len() && self.locks.entries@[x].0 == kk;
                        self.locks.lemma_entry(x);
                        let reprx = self.locks.entries@[x].1;
                        assert(m[kk] == reprx);
                        assert(reprx.wf());
                        reprx.lemma_rows();
                        assert(reprx@.holders.contains(tt));
                        let j = choose|j: int|
                            0 <= j < reprx@.holders.len() && reprx@.holders[j] == tt;
                        assert(reprx.holder_pairs()[j].0 == tt);
                        assert(row_holder_edge(&self.locks, x, j));
                        assert(graph.edge(
                            DependencyNode::Lock(self.locks.entry_spec(x).0),
                            DependencyNode::Thread(self.locks.entry_spec(x).1.holder_pairs()[j].0),
                        ));
                    },
                    (DependencyNode::Thread(tt), DependencyNode::Lock(kk)) => {
                        assert(self.locks.as_map().contains_key(kk));
                        let x = choose|x: int|
                            0 <= x < self.locks.entries@.len() && self.locks.entries@[x].0 == kk;
                        self.locks.lemma_entry(x);
                        let reprx = self.locks.entries@[x].1;
                        assert(m[kk] == reprx);
                        assert(reprx.wf());
                        reprx.lemma_rows();
                        assert(reprx@.requests.contains_key(tt));
                        assert(reprx.requests.contains_spec(tt));
                        let j = choose|j: int|
                            0 <= j < reprx.requests.entries@.len()
                                && reprx.requests.entries@[j].0 == tt;
                        reprx.requests.lemma_entry_seq(j);
                        assert(reprx.request_entries()[j].0 == tt);
                        assert(reprx.request_entries()[j].1 == reprx@.requests[tt]);
                        assert(row_request_edge(&self.locks, x, j));
                        assert(graph.edge(
                            DependencyNode::Thread(
                                self.locks.entry_spec(x).1.request_entries()[j].0,
                            ),
                            DependencyNode::Lock(self.locks.entry_spec(x).0),
                        ));
                    },
                    _ => {},
                }
            }
        }
        match graph.find_loop() {
            Some(result) => {
                proof {
                    let c = result@;
                    assert(wait_cycle(m, c)) by {
                        assert forall|x: int| 0 <= x < c.len() - 1 implies wait_edge(
                            m,
                            #[trigger] c[x],
                            c[x + 1],
                        ) by {
                            assert(graph.edge(c[x], c[x + 1]));
                        }
                        assert(graph.edge(c[c.len() - 1], c[0]));
                    }
                }
                let r = self.handle_deadlock(&result, tid);
                proof {
                    if r is None {
                        let c = result@;
                        assert(c.no_duplicates() && wait_cycle(m, c) && !c.contains(
                            DependencyNode::Thread(tid),
                        ));
                    }
                }
                r
            },
            None => {
                proof {
                    assert forall|c: Seq<DependencyNode>| c.no_duplicates() implies !(
                    #[trigger] wait_cycle(m, c)) by {
                        if wait_cycle(m, c) {
                            assert(graph.cycle_in(c)) by {
                                assert forall|x: int| 0 <= x < c.len() - 1 implies graph.edge(
                                    #[trigger] c[x],
                                    c[x + 1],
                                ) by {
                                    assert(wait_edge(m, c[x], c[x + 1]));
                                }
                                assert(wait_edge(m, c[c.len() - 1], c[0]));
                                assert(graph.edge(c[c.len() - 1], c[0]));
                            }
                            assert(false);
                        }
                    }
                }
                None
            },
        }
    }

    /// Decides what a discovered cycle means for the calling thread. A cycle
    /// that does not contain the caller is somebody else's deadlock and
    /// yields nothing; a two-node cycle is a reentrance; anything longer is
    /// reported with the full blocking picture of every lock on it.
    #[verifier::loop_isolation(false)]
    pub fn handle_deadlock(&self, dependence_cycle: &Vec<DependencyNode>, tid: u64) -> (r: Option<
        DeadlockReport,
    >)
        requires
            self.wf(),
            wait_cycle(self.locks_map(), dependence_cycle@),
        ensures
            r.is_some() == dependence_cycle@.contains(DependencyNode::Thread(tid)),
            match r {
                Some(rep) => report_valid(self.locks_map(), tid, rep) && rep.cycle_seq()
                    == dependence_cycle@,
                None => true,
            },
    {
        let ghost m = self.locks_map();
        let ghost c = dependence_cycle@;
        let me = DependencyNode::Thread(tid);
        let clen = dependence_cycle.len();
        let mut found = false;
        let mut i: usize = 0;
        while i < clen
            invariant
                0 <= i <= clen,
                found == exists|j: int| 0 <= j < i && c[j] == me,
            decreases clen - i,
        {
            if dependence_cycle[i] == me {
                found = true;
            }
            i += 1;
        }
        if !found {
            proof {
                if c.contains(me) {
                    let j = choose|j: int| 0 <= j < c.len() && c[j] == me;
                    assert(false);
                }
            }
            return None;
        }
        proof {
            assert(c.contains(me));
        }
        if clen == 2 {
            proof {
                lemma_wait_edge_shape(m, c[0], c[1]);
                lemma_wait_edge_shape(m, c[1], c[0]);
            }
            let lock_id = match dependence_cycle[0] {
                DependencyNode::Lock(id) => id,
                DependencyNode::Thread(_) => {
                    match dependence_cycle[1] {
                        DependencyNode::Lock(id) => id,
                        DependencyNode::Thread(_) => {
                            proof {
                                assert(false);
                            }
                            0
                        },
                    }
                },
            };
            proof {
                let j = choose|j: int| 0 <= j < c.len() && c[j] == me;
                assert(c.contains(DependencyNode::Lock(lock_id))) by {
                    if c[0] == DependencyNode::Lock(lock_id) {
                    } else {
                        assert(c[1] == DependencyNode::Lock(lock_id));
                    }
                }
                assert(holds_edge(m, lock_id, tid) && waits_edge(m, lock_id, tid)) by {
                    if c[0] == me {
                        assert(wait_edge(m, c[0], c[1]));
                        assert(c[1] == DependencyNode::Lock(lock_id));
                        assert(wait_edge(m, c[1], c[0]));
                    } else {
                        assert(c[1] == me);
                        assert(c[0] == DependencyNode::Lock(lock_id));
                        assert(wait_edge(m, c[0], c[1]));
                        assert(wait_edge(m, c[1], c[0]));
                    }
                }
            }
            let entry = match self.locks.get(lock_id) {
                Some(e) => e,
                None => {
                    proof {
                        assert(false);
                    }
                    return None;
                },
            };
            proof {
                entry.lemma_rows();
                assert(entry@.holders.contains(tid));
                assert(entry@.holders.len() >= 1);
            }
            let taken_at = entry.holder_site_at(0).duplicate();
            let request_at = match entry.request_get(tid) {
                Some(p) => p.1.duplicate(),
                None => {
                    proof {
                        assert(false);
                    }
                    return None;
                },
            };
            let mut cycle_copy: Vec<DependencyNode> = Vec::new();
            cycle_copy.push(dependence_cycle[0]);
            cycle_copy.push(dependence_cycle[1]);
            proof {
                assert(cycle_copy@ =~= c);
            }
            Some(DeadlockReport::Reentrance { lock_id, taken_at, request_at, cycle: cycle_copy })
        } else {
            let mut sections: Vec<LockSection> = Vec::new();
            let mut cycle_copy: Vec<DependencyNode> = Vec::new();
            let mut i: usize = 0;
            while i < clen
                invariant
                    0 <= i <= clen,
                    cycle_copy@ =~= c.subrange(0, i as int),
                    sections@.len() == lock_ids_of(c.take(i as int)).len(),
                    forall|x: int|
                        0 <= x < sections@.len() ==> (#[trigger] sections@[x]).lock_id
                            == lock_ids_of(c.take(i as int))[x] && section_matches(
                            m,
                            sections@[x],
                        ),
                decreases clen - i,
            {
                let node = dependence_cycle[i];
                cycle_copy.push(node);
                proof {
                    assert(cycle_copy@ =~= c.subrange(0, i + 1));
                    assert(c.take(i + 1).drop_last() =~= c.take(i as int));
                    assert(c.take(i + 1).last() == c[i as int]);
                }
                match node {
                    DependencyNode::Lock(id) => {
                        proof {
                            if i as int == c.len() - 1 {
                                assert(wait_edge(m, c[i as int], c[0]));
                            } else {
                                assert(wait_edge(m, c[i as int], c[i + 1]));
                            }
                            assert(m.contains_key(id));
                        }
                        let entry = match self.locks.get(id) {
                            Some(e) => e,
                            None => {
                                proof {
                                    assert(false);
                                }
                                return None;
                            },
                        };
                        let rn = entry.requests_len();
                        let mut blocking: Vec<(u64, RequestType, CaptureSite)> = Vec::new();
                        let mut j: usize = 0;
                        while j < rn
                            invariant
                                0 <= j <= rn,
                                rn == entry.request_entries().len(),
                                blocking@ =~= entry.request_entries().take(j as int),
                            decreases rn - j,
                        {
                            let req = entry.request_at(j);
                            blocking.push((req.0, req.1, req.2.duplicate()));
                            proof {
                                assert(blocking@ =~= entry.request_entries().take(j + 1));
                            }
                            j += 1;
                        }
                        let hn = entry.holders_len();
                        let mut blocked_by: Vec<(u64, CaptureSite)> = Vec::new();
                        let mut j2: usize = 0;
                        while j2 < hn
                            invariant
                                0 <= j2 <= hn,
                                hn == entry.holder_pairs().len(),
                                blocked_by@ =~= entry.holder_pairs().take(j2 as int),
                            decreases hn - j2,
                        {
                            let t = entry.holder_id_at(j2);
                            let site = entry.holder_site_at(j2);
                            blocked_by.push((t, site.duplicate()));
                            proof {
                                assert(blocked_by@ =~= entry.holder_pairs().take(j2 + 1));
                            }
                            j2 += 1;
                        }
                        let section = LockSection { lock_id: id, blocking, blocked_by };
                        proof {
                            assert(blocking@ =~= entry.request_entries());
                            assert(blocked_by@ =~= entry.holder_pairs());
                            assert(section_matches(m, section));
                            assert(lock_ids_of(c.take(i + 1)) =~= lock_ids_of(
                                c.take(i as int),
                            ).push(id));
                        }
                        sections.push(section);
                    },
                    DependencyNode::Thread(_) => {
                        proof {
                            assert(lock_ids_of(c.take(i + 1)) =~= lock_ids_of(c.take(i as int)));
                        }
                    },
                }
                i += 1;
            }
            proof {
                assert(c.take(clen as int) =~= c);
                assert(cycle_copy@ =~= c);
            }
            Some(DeadlockReport::Cycle { cycle: cycle_copy, sections })
        }
    }
}


/// A write acquisition can succeed exactly when nobody holds the lock.
pub open spec fn can_write_acquire(v: ReprView) -> bool {
    v.holders.len() == 0
}

/// A read acquisition can succeed exactly when the lock is not write-held.
pub open spec fn can_read_acquire(v: ReprView) -> bool {
    !v.write_locked
}

/// A lock's poison flag after a holder releases it: set once a panicking
/// thread releases, and never cleared by a release.
pub open spec fn poison_after_release(poisoned: bool, panicking: bool) -> bool {
    poisoned || panicking
}

/// A write-held lock has exactly one holder.
pub proof fn lemma_write_locked_single_holder(v: ReprView)
    requires
        repr_inv(v),
        v.write_locked,
    ensures
        v.holders.len() == 1,
{
}

/// Mutual exclusion: once a thread write-acquires, no further acquisition of
/// either mode can succeed until a release, so at most one exclusive guard is
/// live at a time.
pub proof fn lemma_write_excludes_all(v: ReprView, t: u64)
    ensures
        !can_write_acquire(write_acquired(v, t)),
        !can_read_acquire(write_acquired(v, t)),
{
}

/// Exclusion between readers and the writer: while any holder exists a write
/// acquisition fails; a read acquisition never shuts other readers out.
pub proof fn lemma_rw_exclusion(v: ReprView, t: u64)
    requires
        repr_inv(v),
    ensures
        v.holders.len() > 0 ==> !can_write_acquire(v),
        !can_write_acquire(read_acquired(v, t)),
        can_read_acquire(v) ==> can_read_acquire(read_acquired(v, t)),
        v.write_locked ==> !can_read_acquire(v) && v.holders.len() == 1,
{
}

/// A thread that has just acquired a lock has no pending request on it: both
/// acquisitions erase the acquirer's subscription.
pub proof fn lemma_acquire_unsubscribes(v: ReprView, t: u64)
    ensures
        !write_acquired(v, t).requests.contains_key(t),
        !read_acquired(v, t).requests.contains_key(t),
{
}

/// Holder ids stay pairwise distinct through acquisition and release, as
/// long as no thread read-acquires a lock it already holds: a write
/// acquisition starts from an empty holder list, and a release only takes a
/// row away.
pub proof fn lemma_holders_distinct(v: ReprView, t: u64)
    ensures
        v.holders.len() == 0 ==> write_acquired(v, t).holders.no_duplicates(),
        v.holders.no_duplicates() && !v.holders.contains(t) ==> read_acquired(
            v,
            t,
        ).holders.no_duplicates(),
        v.holders.no_duplicates() ==> released(v, t).holders.no_duplicates(),
        subscribed(v, t, RequestType::Read).holders == v.holders,
        subscribed(v, t, RequestType::Write).holders == v.holders,
{
    if v.holders.len() == 0 {
        assert(write_acquired(v, t).holders =~= seq![t]);
    }
    if v.holders.no_duplicates() && !v.holders.contains(t) {
        let h = read_acquired(v, t).holders;
        assert forall|x: int, y: int| 0 <= x < y < h.len() implies h[x] != h[y] by {
            if y == h.len() - 1 {
                assert(h[x] == v.holders[x]);
                if h[x] == t {
                    assert(v.holders.contains(t));
                }
            }
        }
    }
    if v.holders.no_duplicates() {
        v.holders.index_of_first_ensures(t);
        match v.holders.index_of_first(t) {
            Some(i) => {
                let h = released(v, t).holders;
                assert(h == seq_swap_remove(v.holders, i));
                assert forall|x: int, y: int| 0 <= x < y < h.len() implies h[x] != h[y] by {
                    let o = v.holders;
                    assert(h[y] == o.update(i, o.last()).drop_last()[y]);
                }
            },
            None => {},
        }
    }
}

/// A release removes exactly the releasing thread's row: with distinct
/// holders the count drops by one, the releaser is gone, everybody else
/// stays, and read acquisitions are possible again. Dropping all guards one
/// by one therefore empties the holder list.
pub proof fn lemma_release_removes(v: ReprView, t: u64)
    requires
        v.holders.no_duplicates(),
        v.holders.contains(t),
    ensures
        released(v, t).holders.len() == v.holders.len() - 1,
        !released(v, t).holders.contains(t),
        forall|u: u64| u != t ==> released(v, t).holders.contains(u) == v.holders.contains(u),
        can_read_acquire(released(v, t)),
        released(v, t).requests == v.requests,
{
    v.holders.index_of_first_ensures(t);
    let i = v.holders.index_of_first(t).unwrap();
    let o = v.holders;
    let h = released(v, t).holders;
    assert(h == seq_swap_remove(o, i));
    assert(h.len() == o.len() - 1);
    assert(!h.contains(t)) by {
        if h.contains(t) {
            let x = choose|x: int| 0 <= x < h.len() && h[x] == t;
            assert(h[x] == o.update(i, o.last()).drop_last()[x]);
            if x == i {
                assert(o.last() == t);
                assert(o[o.len() - 1] == t);
                assert(o[i] == t);
            } else {
                assert(o[x] == t);
                assert(o[i] == t);
            }
        }
    }
    assert forall|u: u64| u != t implies h.contains(u) == o.contains(u) by {
        if h.contains(u) {
            let x = choose|x: int| 0 <= x < h.len() && h[x] == u;
            if x == i {
                assert(o[o.len() - 1] == u);
            } else {
                assert(o[x] == u);
            }
            assert(o.contains(u));
        }
        if o.contains(u) {
            let x = choose|x: int| 0 <= x < o.len() && o[x] == u;
            assert(o[i] == t);
            assert(x != i);
            if x == o.len() - 1 {
                if i < o.len() - 1 {
                    assert(h[i] == u);
                } else {
                    assert(false);
                }
            } else {
                assert(h[x] == u);
            }
            assert(h.contains(u));
        }
    }
}

/// Release completeness: when the sole holder releases, the lock is
/// acquirable again in both modes.
pub proof fn lemma_release_completeness(v: ReprView, t: u64)
    requires
        v.holders == seq![t],
    ensures
        can_write_acquire(released(v, t)),
        can_read_acquire(released(v, t)),
{
    v.holders.index_of_first_ensures(t);
    assert(v.holders[0] == t);
    assert(v.holders.contains(t));
    let i = v.holders.index_of_first(t).unwrap();
    assert(i == 0);
    assert(released(v, t).holders.len() == 0);
}

/// Panic poisons: a release during a panic always leaves the poison flag
/// set, and a flag once set survives every further release. Together with
/// the acquisition contracts, the next successful acquisition after a panic
/// returns a poisoned-wrapped guard.
pub proof fn lemma_panic_poisons(poisoned: bool, panicking: bool)
    ensures
        panicking ==> poison_after_release(poisoned, panicking),
        poisoned ==> poison_after_release(poisoned, panicking),
{
}

/// Idempotent subscription: subscribing twice in the same mode leaves the
/// requests unchanged.
pub proof fn lemma_subscribe_idempotent(v: ReprView, t: u64, m: RequestType)
    ensures
        subscribed(subscribed(v, t, m), t, m) == subscribed(v, t, m),
{
    assert(subscribed(subscribed(v, t, m), t, m).requests =~= subscribed(v, t, m).requests);
    assert(subscribed(subscribed(v, t, m), t, m) =~= subscribed(v, t, m));
}

/// Switching the mode of a subscription replaces the thread's entry; the
/// earlier request leaves no trace.
pub proof fn lemma_subscribe_mode_switch(v: ReprView, t: u64, m1: RequestType, m2: RequestType)
    ensures
        subscribed(subscribed(v, t, m1), t, m2) == subscribed(v, t, m2),
{
    assert(subscribed(subscribed(v, t, m1), t, m2).requests =~= subscribed(v, t, m2).requests);
    assert(subscribed(subscribed(v, t, m1), t, m2) =~= subscribed(v, t, m2));
}

/// Reentrance is a deadlock: a thread that holds a lock and has a pending
/// request on it that the graph rules count -- a write request, or any
/// request while the lock is write-held -- stands on a two-node wait cycle.
/// Analysis on such a snapshot can only stay quiet when some other group of
/// threads is deadlocked as well.
pub proof fn lemma_reentrance_is_a_cycle(m: Map<usize, LockRepresentation>, k: usize, t: u64)
    requires
        m.contains_key(k),
        m[k]@.holders.contains(t),
        m[k]@.requests.contains_key(t),
        m[k]@.write_locked || m[k]@.requests[t] == RequestType::Write,
    ensures
        wait_cycle(m, seq![DependencyNode::Thread(t), DependencyNode::Lock(k)]),
        seq![DependencyNode::Thread(t), DependencyNode::Lock(k)].no_duplicates(),
{
    let c = seq![DependencyNode::Thread(t), DependencyNode::Lock(k)];
    assert(c[0] == DependencyNode::Thread(t) && c[1] == DependencyNode::Lock(k));
    assert(wait_edge(m, c[0], c[1]));
    assert(wait_edge(m, c[1], c[0]));
    assert forall|i: int| 0 <= i < c.len() - 1 implies wait_edge(m, #[trigger] c[i], c[i + 1]) by {
        assert(i == 0);
    }
}

/// The classic crossed acquisition order is a deadlock: when each of two
/// threads holds one lock and has a counted pending request on the other,
/// the four nodes stand on a wait cycle.
pub proof fn lemma_crossed_order_is_a_cycle(
    m: Map<usize, LockRepresentation>,
    k1: usize,
    k2: usize,
    t1: u64,
    t2: u64,
)
    requires
        k1 != k2,
        t1 != t2,
        m.contains_key(k1),
        m.contains_key(k2),
        m[k1]@.holders.contains(t1),
        m[k2]@.holders.contains(t2),
        m[k2]@.requests.contains_key(t1),
        m[k2]@.write_locked || m[k2]@.requests[t1] == RequestType::Write,
        m[k1]@.requests.contains_key(t2),
        m[k1]@.write_locked || m[k1]@.requests[t2] == RequestType::Write,
    ensures
        wait_cycle(
            m,
            seq![
                DependencyNode::Thread(t1),
                DependencyNode::Lock(k2),
                DependencyNode::Thread(t2),
                DependencyNode::Lock(k1),
            ],
        ),
        seq![
            DependencyNode::Thread(t1),
            DependencyNode::Lock(k2),
            DependencyNode::Thread(t2),
            DependencyNode::Lock(k1),
        ].no_duplicates(),
{
    let c = seq![
        DependencyNode::Thread(t1),
        DependencyNode::Lock(k2),
        DependencyNode::Thread(t2),
        DependencyNode::Lock(k1),
    ];
    assert(wait_edge(m, c[0], c[1]));
    assert(wait_edge(m, c[1], c[2]));
    assert(wait_edge(m, c[2], c[3]));
    assert(wait_edge(m, c[3], c[0]));
    assert forall|i: int| 0 <= i < c.len() - 1 implies wait_edge(m, #[trigger] c[i], c[i + 1]) by {
        if i == 0 {
        } else if i == 1 {
        } else {
            assert(i == 2);
        }
    }
}

/// Each thread stands at most once in a lock's pending requests: the stored
/// rows carry pairwise distinct thread ids.
pub proof fn lemma_requests_distinct(r: &LockRepresentation)
    requires
        r.wf(),
    ensures
        forall|i: int, j: int|
            0 <= i < j < r.request_entries().len() ==> r.request_entries()[i].0
                != r.request_entries()[j].0,
{
}

/// A minted id is fresh: every registered key lies below the id source, so
/// `create_lock` never hands out a key that is still registered, and the ids
/// a manager mints strictly increase.
pub proof fn lemma_fresh_key(m: &LockManager)
    requires
        m.wf(),
    ensures
        !m.locks_map().contains_key(m.next_key_spec()),
{
    if m.locks_map().contains_key(m.next_key_spec()) {
        assert(m.next_key_spec() < m.next_key_spec());
    }
}

} // verus!
