use vstd::prelude::*;

verus! {

/// A node of the wait-for graph: either a thread (by its numeric id) or a
/// lock instance (by its registry key).
#[derive(PartialEq, Eq, Structural, Copy, Clone, Debug, Hash)]
pub enum DependencyNode {
    Thread(u64),
    Lock(usize),
}

/// A directed graph over `DependencyNode`s, kept as adjacency lists.
/// Keys are distinct and every successor is itself a node, so that a walk
/// never leaves the node set.
pub struct Graph {
    nodes: Vec<(DependencyNode, Vec<DependencyNode>)>,
}

impl Graph {
    /// The nodes of the graph, in insertion order.
    pub closed spec fn node_seq(&self) -> Seq<DependencyNode> {
        self.nodes@.map_values(|e: (DependencyNode, Vec<DependencyNode>)| e.0)
    }

    pub closed spec fn contains_node(&self, n: DependencyNode) -> bool {
        exists|i: int| 0 <= i < self.nodes@.len() && self.nodes@[i].0 == n
    }

    /// There is an edge from `a` to `b`.
    pub closed spec fn edge(&self, a: DependencyNode, b: DependencyNode) -> bool {
        exists|i: int|
            0 <= i < self.nodes@.len() && self.nodes@[i].0 == a && self.nodes@[i].1@.contains(b)
    }

    pub closed spec fn wf(&self) -> bool {
        &&& forall|i: int, j: int|
            0 <= i < j < self.nodes@.len() ==> self.nodes@[i].0 != self.nodes@[j].0
        &&& forall|i: int, k: int|
            0 <= i < self.nodes@.len() && 0 <= k < self.nodes@[i].1@.len()
                ==> self.contains_node(#[trigger] self.nodes@[i].1@[k])
    }

    /// `c` is a directed cycle of this graph: consecutive elements are joined
    /// by edges, and so are the last element and the first.
    pub open spec fn cycle_in(&self, c: Seq<DependencyNode>) -> bool {
        &&& c.len() >= 1
        &&& forall|i: int| 0 <= i < c.len() - 1 ==> self.edge(#[trigger] c[i], c[i + 1])
        &&& self.edge(c[c.len() - 1], c[0])
    }

    /// `p` is a walk of the graph: consecutive elements are joined by edges.
    pub open spec fn is_path(&self, p: Seq<DependencyNode>) -> bool {
        &&& p.len() >= 1
        &&& forall|i: int| 0 <= i < p.len() - 1 ==> self.edge(#[trigger] p[i], p[i + 1])
    }

    /// Some successor of `p`'s tip already stands on `p`: one more step would
    /// close a cycle.
    pub open spec fn closes_cycle(&self, p: Seq<DependencyNode>) -> bool {
        exists|s: DependencyNode| self.edge(p.last(), s) && p.contains(s)
    }

    pub fn new() -> (r: Graph)
        ensures
            r.wf(),
            forall|n: DependencyNode| !r.contains_node(n),
            forall|a: DependencyNode, b: DependencyNode| !r.edge(a, b),
    {
        Graph { nodes: Vec::new() }
    }

    fn has_node(&self, n: DependencyNode) -> (b: bool)
        ensures
            b == self.contains_node(n),
    {
        let len = self.nodes.len();
        let mut i: usize = 0;
        while i < len
            invariant
                0 <= i <= len,
                len == self.nodes@.len(),
                forall|j: int| 0 <= j < i ==> self.nodes@[j].0 != n,
            decreases len - i,
        {
            if self.nodes[i].0 == n {
                return true;
            }
            i += 1;
        }
        false
    }

    fn position_of(&self, n: DependencyNode) -> (r: usize)
        requires
            self.contains_node(n),
        ensures
            r < self.nodes@.len(),
            self.nodes@[r as int].0 == n,
    {
        let len = self.nodes.len();
        let mut i: usize = 0;
        while i < len
            invariant
                0 <= i <= len,
                len == self.nodes@.len(),
                self.contains_node(n),
                forall|j: int| 0 <= j < i ==> self.nodes@[j].0 != n,
            decreases len - i,
        {
            if self.nodes[i].0 == n {
                return i;
            }
            i += 1;
        }
        proof {
            assert(false);
        }
        0
    }

    /// Inserts `node` if it is not present yet; edges are untouched.
    pub fn add_node(&mut self, node: DependencyNode)
        requires
            old(self).wf(),
        ensures
            final(self).wf(),
            forall|n: DependencyNode|
                final(self).contains_node(n) == (old(self).contains_node(n) || n == node),
            forall|a: DependencyNode, b: DependencyNode|
                final(self).edge(a, b) == old(self).edge(a, b),
    {
        if !self.has_node(node) {
            let fresh: Vec<DependencyNode> = Vec::new();
            self.nodes.push((node, fresh));
            proof {
                let n0 = self.nodes@;
                let o0 = old(self).nodes@;
                assert(n0.last().1@.len() == 0);
                assert forall|n: DependencyNode|
                    self.contains_node(n) == (old(self).contains_node(n) || n == node) by {
                    if old(self).contains_node(n) {
                        let i = choose|i: int| 0 <= i < o0.len() && o0[i].0 == n;
                        assert(n0[i].0 == n);
                    }
                    if n == node {
                        assert(n0[n0.len() - 1].0 == n);
                    }
                    if self.contains_node(n) {
                        let i = choose|i: int| 0 <= i < n0.len() && n0[i].0 == n;
                        if i < o0.len() {
                            assert(o0[i].0 == n);
                        }
                    }
                }
                assert forall|a: DependencyNode, b: DependencyNode|
                    self.edge(a, b) == old(self).edge(a, b) by {
                    if old(self).edge(a, b) {
                        let i = choose|i: int|
                            0 <= i < o0.len() && o0[i].0 == a && o0[i].1@.contains(b);
                        assert(n0[i].0 == a && n0[i].1@.contains(b));
                    }
                    if self.edge(a, b) {
                        let i = choose|i: int|
                            0 <= i < n0.len() && n0[i].0 == a && n0[i].1@.contains(b);
                        if i < o0.len() {
                            assert(o0[i].0 == a && o0[i].1@.contains(b));
                        } else {
                            assert(n0[i].1@.len() == 0);
                        }
                    }
                }
            }
        }
    }

    /// Records the edge `from -> to`; a duplicate edge collapses.
    pub fn add_edge(&mut self, from: &DependencyNode, to: DependencyNode)
        requires
            old(self).wf(),
            old(self).contains_node(*from),
            old(self).contains_node(to),
        ensures
            final(self).wf(),
            forall|n: DependencyNode| final(self).contains_node(n) == old(self).contains_node(n),
            forall|a: DependencyNode, b: DependencyNode|
                final(self).edge(a, b) == (old(self).edge(a, b) || (a == *from && b == to)),
    {
        let i = self.position_of(*from);
        let ghost o0 = self.nodes@;
        let succ = &mut self.nodes[i].1;
        let mut k: usize = 0;
        let mut present = false;
        let len = succ.len();
        while k < len
            invariant
                0 <= k <= len,
                len == succ@.len(),
                present == exists|j: int| 0 <= j < k && succ@[j] == to,
            decreases len - k,
        {
            if succ[k] == to {
                present = true;
            }
            k += 1;
        }
        if !present {
            succ.push(to);
        }
        proof {
            let n0 = self.nodes@;
            assert(n0 =~= o0.update(i as int, (o0[i as int].0, *final(succ))));
            assert(n0[i as int].0 == *from);
            assert forall|n: DependencyNode|
                self.contains_node(n) == old(self).contains_node(n) by {
                if old(self).contains_node(n) {
                    let j = choose|j: int| 0 <= j < o0.len() && o0[j].0 == n;
                    assert(n0[j].0 == n);
                }
                if self.contains_node(n) {
                    let j = choose|j: int| 0 <= j < n0.len() && n0[j].0 == n;
                    assert(o0[j].0 == n);
                }
            }
            assert forall|a: DependencyNode, b: DependencyNode|
                self.edge(a, b) == (old(self).edge(a, b) || (a == *from && b == to)) by {
                if old(self).edge(a, b) {
                    let j = choose|j: int|
                        0 <= j < o0.len() && o0[j].0 == a && o0[j].1@.contains(b);
                    if j == i {
                        let x = choose|x: int| 0 <= x < o0[j].1@.len() && o0[j].1@[x] == b;
                        assert(n0[j].1@[x] == b);
                        assert(n0[j].1@.contains(b));
                    } else {
                        assert(n0[j].0 == a && n0[j].1@.contains(b));
                    }
                }
                if a == *from && b == to {
                    if present {
                        let x = choose|x: int| 0 <= x < o0[i as int].1@.len() && o0[i as int].1@[x] == to;
                        assert(n0[i as int].1@[x] == to);
                    } else {
                        assert(n0[i as int].1@.last() == to);
                    }
                    assert(n0[i as int].1@.contains(to));
                }
                if self.edge(a, b) && !(a == *from && b == to) {
                    let j = choose|j: int|
                        0 <= j < n0.len() && n0[j].0 == a && n0[j].1@.contains(b);
                    if j == i {
                        let x = choose|x: int| 0 <= x < n0[j].1@.len() && n0[j].1@[x] == b;
                        if x < o0[j].1@.len() {
                            assert(o0[j].1@.contains(b));
                        } else {
                            assert(b == to);
                            assert(a == *from);
                        }
                    } else {
                        assert(o0[j].0 == a && o0[j].1@.contains(b));
                    }
                }
            }
        }
    }

    /// A duplicate-free sequence of nodes of the graph is no longer than the
    /// node list itself.
    proof fn lemma_history_bound(&self, h: Seq<DependencyNode>)
        requires
            h.no_duplicates(),
            forall|k: int| 0 <= k < h.len() ==> self.contains_node(#[trigger] h[k]),
        ensures
            h.len() <= self.nodes@.len(),
    {
        broadcast use vstd::seq_lib::seq_to_set_is_finite;

        h.unique_seq_to_set();
        assert forall|n: DependencyNode| h.to_set().contains(n)
            implies self.node_seq().to_set().contains(n) by {
            let k = choose|k: int| 0 <= k < h.len() && h[k] == n;
            assert(self.contains_node(n));
            let i = choose|i: int| 0 <= i < self.nodes@.len() && self.nodes@[i].0 == n;
            assert(self.node_seq()[i] == n);
            assert(self.node_seq().contains(n));
        }
        self.node_seq().lemma_cardinality_of_set();
        vstd::set_lib::lemma_len_subset(h.to_set(), self.node_seq().to_set());
    }

    /// Inserts both endpoints if they are absent, then records the edge.
    pub fn add_edge_and_nodes(&mut self, from: DependencyNode, to: DependencyNode)
        requires
            old(self).wf(),
        ensures
            final(self).wf(),
            forall|n: DependencyNode|
                final(self).contains_node(n)
                    == (old(self).contains_node(n) || n == from || n == to),
            forall|a: DependencyNode, b: DependencyNode|
                final(self).edge(a, b) == (old(self).edge(a, b) || (a == from && b == to)),
    {
        self.add_node(to);
        self.add_node(from);
        self.add_edge(&from, to);
    }

    /// Searches for any directed cycle. The returned sequence starts at the
    /// node that the depth-first walk revisited.
    #[verifier::loop_isolation(false)]
    pub fn find_loop(&self) -> (r: Option<Vec<DependencyNode>>)
        requires
            self.wf(),
        ensures
            match r {
                Some(c) => self.cycle_in(c@) && c@.no_duplicates(),
                None => forall|c: Seq<DependencyNode>|
                    c.no_duplicates() ==> !(#[trigger] self.cycle_in(c)),
            },
    {
        let len = self.nodes.len();
        let mut i: usize = 0;
        while i < len
            invariant
                0 <= i <= len,
                len == self.nodes@.len(),
                self.wf(),
                forall|p: Seq<DependencyNode>|
                    (self.is_path(p) && p.no_duplicates() && exists|j: int|
                        0 <= j < i && p[0] == self.nodes@[j].0) ==> !(
                    #[trigger] self.closes_cycle(p)),
            decreases len - i,
        {
            let root = self.nodes[i].0;
            let mut history: Vec<DependencyNode> = Vec::new();
            history.push(root);
            proof {
                assert(self.nodes@[i as int].0 == root);
                assert(self.contains_node(root));
                assert(history@ =~= seq![root]);
            }
            if self.loop_backtracker(&mut history) {
                return Some(history);
            }
            proof {
                assert forall|p: Seq<DependencyNode>|
                    (self.is_path(p) && p.no_duplicates() && exists|j: int|
                        0 <= j < i + 1 && p[0] == self.nodes@[j].0)
                    implies !(#[trigger] self.closes_cycle(p)) by {
                    let j = choose|j: int| 0 <= j < i + 1 && p[0] == self.nodes@[j].0;
                    if j == i {
                        assert(seq![root].is_prefix_of(p)) by {
                            assert(p.subrange(0, 1) =~= seq![root]);
                        }
                    }
                }
            }
            i += 1;
        }
        proof {
            assert forall|c: Seq<DependencyNode>| c.no_duplicates()
                implies !(#[trigger] self.cycle_in(c)) by {
                if self.cycle_in(c) {
                    let last = c[c.len() - 1];
                    assert(self.edge(last, c[0]));
                    let x = choose|x: int|
                        0 <= x < self.nodes@.len() && self.nodes@[x].0 == last
                            && self.nodes@[x].1@.contains(c[0]);
                    let y = choose|y: int|
                        0 <= y < self.nodes@[x].1@.len() && self.nodes@[x].1@[y] == c[0];
                    assert(self.contains_node(self.nodes@[x].1@[y]));
                    let j = choose|j: int|
                        0 <= j < self.nodes@.len() && self.nodes@[j].0 == c[0];
                    assert(self.is_path(c));
                    assert(self.closes_cycle(c)) by {
                        assert(self.edge(c.last(), c[0]) && c.contains(c[0]));
                    }
                    assert(exists|j2: int| 0 <= j2 < len && c[0] == self.nodes@[j2].0);
                    assert(false);
                }
            }
        }
        None
    }

    /// Extends the path held in `history` depth-first. When some successor of
    /// the path's tip already stands in the path, the cycle has been closed:
    /// `history` is cut down to that cycle, starting at the revisited node,
    /// and the walk reports success.
    #[verifier::loop_isolation(false)]
    fn loop_backtracker(&self, history: &mut Vec<DependencyNode>) -> (b: bool)
        requires
            self.wf(),
            old(history)@.len() >= 1,
            old(history)@.no_duplicates(),
            forall|k: int|
                0 <= k < old(history)@.len() ==> self.contains_node(#[trigger] old(history)@[k]),
            forall|k: int|
                0 <= k < old(history)@.len() - 1
                    ==> self.edge(#[trigger] old(history)@[k], old(history)@[k + 1]),
        ensures
            b ==> self.cycle_in(final(history)@) && final(history)@.no_duplicates(),
            !b ==> final(history)@ == old(history)@,
            !b ==> forall|p: Seq<DependencyNode>|
                (self.is_path(p) && p.no_duplicates() && old(history)@.is_prefix_of(p)) ==> !(
                #[trigger] self.closes_cycle(p)),
        decreases self.nodes@.len() - old(history)@.len(),
    {
        let ghost h0 = history@;
        let hlen = history.len();
        let current = history[hlen - 1];
        proof {
            assert(current == h0.last());
            self.lemma_history_bound(h0);
        }
        let ci = self.position_of(current);
        let slen = self.nodes[ci].1.len();
        let mut k: usize = 0;
        while k < slen
            invariant
                self.wf(),
                ci < self.nodes@.len(),
                self.nodes@[ci as int].0 == current,
                slen == self.nodes@[ci as int].1@.len(),
                0 <= k <= slen,
                history@ == h0,
                hlen == h0.len(),
                h0.len() >= 1,
                h0.no_duplicates(),
                current == h0.last(),
                forall|j: int| 0 <= j < h0.len() ==> self.contains_node(#[trigger] h0[j]),
                forall|j: int|
                    0 <= j < h0.len() - 1 ==> self.edge(#[trigger] h0[j], h0[j + 1]),
                forall|x: int|
                    0 <= x < k ==> !h0.contains(#[trigger] self.nodes@[ci as int].1@[x]),
                forall|p: Seq<DependencyNode>|
                    (self.is_path(p) && p.no_duplicates() && p.len() > h0.len()
                        && h0.is_prefix_of(p) && exists|x: int|
                        0 <= x < k && p[h0.len() as int] == self.nodes@[ci as int].1@[x]) ==> !(
                    #[trigger] self.closes_cycle(p)),
            decreases slen - k,
        {
            let node = self.nodes[ci].1[k];
            proof {
                assert(self.nodes@[ci as int].1@[k as int] == node);
                assert(self.nodes@[ci as int].1@.contains(node));
                assert(self.edge(current, node));
                assert(self.contains_node(node));
            }
            match position_in(history, node) {
                Some(start) => {
                    let mut cyc: Vec<DependencyNode> = Vec::new();
                    let mut j: usize = start;
                    while j < hlen
                        invariant
                            start <= j <= hlen,
                            hlen == history@.len(),
                            history@ == h0,
                            h0[start as int] == node,
                            cyc@ == h0.subrange(start as int, j as int),
                        decreases hlen - j,
                    {
                        let x = history[j];
                        cyc.push(x);
                        proof {
                            assert(cyc@ =~= h0.subrange(start as int, j + 1));
                        }
                        j += 1;
                    }
                    proof {
                        let c = cyc@;
                        assert(c =~= h0.subrange(start as int, h0.len() as int));
                        assert(c.len() == h0.len() - start);
                        assert(c[0] == h0[start as int]);
                        assert(c[c.len() - 1] == h0[h0.len() - 1]);
                        assert(self.edge(c[c.len() - 1], c[0]));
                        assert forall|x: int| 0 <= x < c.len() - 1
                            implies self.edge(#[trigger] c[x], c[x + 1]) by {
                            assert(c[x] == h0[start + x]);
                            assert(c[x + 1] == h0[start + x + 1]);
                            assert(self.edge(h0[start + x], h0[start + x + 1]));
                        }
                        assert(c.no_duplicates()) by {
                            assert forall|x: int, y: int|
                                0 <= x < c.len() && 0 <= y < c.len() && x != y
                                implies c[x] != c[y] by {
                                assert(c[x] == h0[start + x]);
                                assert(c[y] == h0[start + y]);
                            }
                        }
                    }
                    *history = cyc;
                    return true;
                },
                None => {
                    history.push(node);
                    proof {
                        let h1 = history@;
                        assert(h1 == h0.push(node));
                        assert(h1.no_duplicates()) by {
                            assert forall|x: int, y: int|
                                0 <= x < h1.len() && 0 <= y < h1.len() && x != y
                                implies h1[x] != h1[y] by {
                                if x < h0.len() && y < h0.len() {
                                } else if y == h0.len() {
                                    assert(h1[x] == h0[x]);
                                    assert(!h0.contains(node));
                                } else {
                                    assert(h1[y] == h0[y]);
                                    assert(!h0.contains(node));
                                }
                            }
                        }
                        assert forall|j: int| 0 <= j < h1.len()
                            implies self.contains_node(#[trigger] h1[j]) by {
                            if j < h0.len() {
                                assert(h1[j] == h0[j]);
                            } else {
                                assert(h1[j] == node);
                            }
                        }
                        assert forall|j: int| 0 <= j < h1.len() - 1
                            implies self.edge(#[trigger] h1[j], h1[j + 1]) by {
                            if j < h0.len() - 1 {
                                assert(h1[j] == h0[j] && h1[j + 1] == h0[j + 1]);
                            } else {
                                assert(h1[j] == current && h1[j + 1] == node);
                            }
                        }
                        self.lemma_history_bound(h1);
                    }
                    if self.loop_backtracker(history) {
                        return true;
                    }
                    history.pop();
                    proof {
                        assert(history@ =~= h0);
                        assert(!h0.contains(node));
                        assert forall|x: int|
                            0 <= x < k + 1 implies !h0.contains(
                            #[trigger] self.nodes@[ci as int].1@[x],
                        ) by {}
                        assert forall|p: Seq<DependencyNode>|
                            (self.is_path(p) && p.no_duplicates() && p.len() > h0.len()
                                && h0.is_prefix_of(p) && exists|x: int|
                                0 <= x < k + 1
                                    && p[h0.len() as int] == self.nodes@[ci as int].1@[x])
                            implies !(#[trigger] self.closes_cycle(p)) by {
                            let x = choose|x: int|
                                0 <= x < k + 1
                                    && p[h0.len() as int] == self.nodes@[ci as int].1@[x];
                            if x == k {
                                assert(p[h0.len() as int] == node);
                                assert((h0.push(node)).is_prefix_of(p)) by {
                                    assert(h0 =~= p.subrange(0, h0.len() as int));
                                    assert(p.subrange(0, h0.len() as int + 1) =~= h0.push(node));
                                }
                            } else {
                                assert(exists|x2: int|
                                    0 <= x2 < k && p[h0.len() as int]
                                        == self.nodes@[ci as int].1@[x2]);
                            }
                        }
                    }
                },
            }
            k += 1;
        }
        proof {
            assert forall|p: Seq<DependencyNode>|
                (self.is_path(p) && p.no_duplicates() && h0.is_prefix_of(p)) implies !(
            #[trigger] self.closes_cycle(p)) by {
                if self.closes_cycle(p) {
                    if p.len() == h0.len() {
                        assert(p =~= h0);
                        let s = choose|s: DependencyNode|
                            self.edge(p.last(), s) && p.contains(s);
                        assert(self.edge(current, s));
                        let x = choose|x: int|
                            0 <= x < self.nodes@.len() && self.nodes@[x].0 == current
                                && self.nodes@[x].1@.contains(s);
                        assert(x == ci as int) by {
                            if x < (ci as int) {
                                assert(self.nodes@[x].0 != self.nodes@[ci as int].0);
                            }
                            if (ci as int) < x {
                                assert(self.nodes@[ci as int].0 != self.nodes@[x].0);
                            }
                        }
                        let y = choose|y: int|
                            0 <= y < self.nodes@[ci as int].1@.len()
                                && self.nodes@[ci as int].1@[y] == s;
                        assert(!h0.contains(self.nodes@[ci as int].1@[y]));
                        assert(false);
                    } else {
                        assert(h0 =~= p.subrange(0, h0.len() as int));
                        assert(p[h0.len() - 1] == h0.last());
                        assert(self.edge(p[h0.len() - 1], p[h0.len() as int]));
                        let s = p[h0.len() as int];
                        assert(self.edge(current, s));
                        let x = choose|x: int|
                            0 <= x < self.nodes@.len() && self.nodes@[x].0 == current
                                && self.nodes@[x].1@.contains(s);
                        assert(x == ci as int) by {
                            if x < (ci as int) {
                                assert(self.nodes@[x].0 != self.nodes@[ci as int].0);
                            }
                            if (ci as int) < x {
                                assert(self.nodes@[ci as int].0 != self.nodes@[x].0);
                            }
                        }
                        let y = choose|y: int|
                            0 <= y < self.nodes@[ci as int].1@.len()
                                && self.nodes@[ci as int].1@[y] == s;
                        assert(exists|x2: int|
                            0 <= x2 < slen && p[h0.len() as int] == self.nodes@[ci as int].1@[x2]);
                        assert(false);
                    }
                }
            }
        }
        false
    }
}

/// First index of `x` in `v`, if `x` occurs there at all.
fn position_in(v: &Vec<DependencyNode>, x: DependencyNode) -> (r: Option<usize>)
    ensures
        match r {
            Some(i) => i < v@.len() && v@[i as int] == x,
            None => !v@.contains(x),
        },
{
    let len = v.len();
    let mut i: usize = 0;
    while i < len
        invariant
            0 <= i <= len,
            len == v@.len(),
            forall|j: int| 0 <= j < i ==> v@[j] != x,
        decreases len - i,
    {
        if v[i] == x {
            return Some(i);
        }
        i += 1;
    }
    None
}

} // verus!
