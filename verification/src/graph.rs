//! A minimal directed graph over integer node handles, with a verified
//! topological-sort-based acyclicity check and a verified reachability
//! query.  The type hierarchy checker, the method-ordering checker and
//! the task decomposition graph are all built on it.

use vstd::prelude::*;

verus! {

/// How many entries of a boolean sequence are set.
pub open spec fn count_true(s: Seq<bool>) -> int
    decreases s.len(),
{
    if s.len() == 0 {
        0
    } else {
        count_true(s.drop_last()) + if s.last() {
            1int
        } else {
            0int
        }
    }
}

pub proof fn lemma_count_true_bound(s: Seq<bool>)
    ensures
        0 <= count_true(s) <= s.len(),
        count_true(s) == s.len() ==> forall|i: int| 0 <= i < s.len() ==> s[i],
    decreases s.len(),
{
    if s.len() > 0 {
        lemma_count_true_bound(s.drop_last());
        if count_true(s) == s.len() {
            assert forall|i: int| 0 <= i < s.len() implies s[i] by {
                if i < s.len() - 1 {
                    assert(s.drop_last()[i] == s[i]);
                }
            }
        }
    }
}

pub proof fn lemma_count_true_update(s: Seq<bool>, i: int)
    requires
        0 <= i < s.len(),
        !s[i],
    ensures
        count_true(s.update(i, true)) == count_true(s) + 1,
    decreases s.len(),
{
    let t = s.update(i, true);
    if i == s.len() - 1 {
        assert(t.drop_last() =~= s.drop_last());
        assert(t.last());
    } else {
        lemma_count_true_update(s.drop_last(), i);
        assert(t.drop_last() =~= s.drop_last().update(i, true));
        assert(t.last() == s.last());
    }
}

/// Among the first `n` entries of `c`, returns the index of the entry
/// whose first occurrence in `ord` comes earliest.
proof fn min_first_pos(c: Seq<usize>, ord: Seq<usize>, n: int) -> (k: int)
    requires
        1 <= n <= c.len(),
        forall|k2: int| 0 <= k2 < c.len() ==> ord.contains(#[trigger] c[k2]),
    ensures
        0 <= k < n,
        forall|k2: int|
            0 <= k2 < n ==> ord.index_of_first(c[k]).unwrap() <= ord.index_of_first(
                #[trigger] c[k2],
            ).unwrap(),
    decreases n,
{
    if n == 1 {
        0
    } else {
        let k0 = min_first_pos(c, ord, n - 1);
        if ord.index_of_first(c[n - 1]).unwrap() < ord.index_of_first(c[k0]).unwrap() {
            n - 1
        } else {
            k0
        }
    }
}

/// A directed graph on the nodes `0 .. edges.len()`; `edges[u]` lists the
/// targets of the edges leaving `u`.
pub struct Digraph {
    pub edges: Vec<Vec<usize>>,
}

impl Digraph {
    /// The number of nodes.
    pub open spec fn node_count(self) -> nat {
        self.edges@.len()
    }

    /// Every edge target is a node of the graph.
    pub open spec fn wf(self) -> bool {
        forall|u: int, j: int|
            0 <= u < self.edges@.len() && 0 <= j < self.edges@[u]@.len() ==> (
            #[trigger] self.edges@[u]@[j]) < self.edges@.len()
    }

    /// There is an edge from `u` to `v`.
    pub open spec fn has_edge(self, u: usize, v: usize) -> bool {
        u < self.edges@.len() && self.edges@[u as int]@.contains(v)
    }

    /// `ord` lists every node, and each node's predecessors appear
    /// strictly before it: a witness that the graph is acyclic.
    pub open spec fn topo_order_ok(self, ord: Seq<usize>) -> bool {
        &&& forall|v: usize| v < self.node_count() ==> ord.contains(v)
        &&& forall|i: int, u: usize|
            0 <= i < ord.len() && #[trigger] self.has_edge(u, ord[i]) ==> exists|j: int|
                0 <= j < i && ord[j] == u
    }

    /// The graph admits a topological order.
    pub open spec fn acyclic(self) -> bool {
        exists|ord: Seq<usize>| self.topo_order_ok(ord)
    }

    /// `c` walks along edges and returns to its starting node.
    pub open spec fn is_cycle(self, c: Seq<usize>) -> bool {
        &&& c.len() > 0
        &&& forall|i: int|
            0 <= i < c.len() ==> self.has_edge(#[trigger] c[i], c[(i + 1) % (c.len() as int)])
    }

    /// `s` is closed under following edges out of its members.
    pub open spec fn closed(self, s: Set<usize>) -> bool {
        forall|u: usize, v: usize| s.contains(u) && #[trigger] self.has_edge(u, v) ==> s.contains(v)
    }

    /// `t` lies in every edge-closed set that holds `s`: the least-fixpoint
    /// characterization of "`t` is reachable from `s`".
    pub open spec fn reaches(self, s: usize, t: usize) -> bool {
        forall|m: Set<usize>| m.contains(s) && #[trigger] self.closed(m) ==> m.contains(t)
    }

    /// A graph with a cycle admits no topological order: each node of the
    /// cycle would need its cycle predecessor placed strictly before it,
    /// against the minimality of the earliest-placed cycle node.
    #[verifier::rlimit(50)]
    pub proof fn lemma_cycle_excludes_topo_order(self, c: Seq<usize>, ord: Seq<usize>)
        requires
            self.wf(),
            self.is_cycle(c),
        ensures
            !self.topo_order_ok(ord),
    {
        if !self.topo_order_ok(ord) {
            return;
        }
        let len = c.len() as int;
        assert forall|k: int| 0 <= k < c.len() implies ord.contains(#[trigger] c[k]) by {
            let prev = if k == 0 {
                len - 1
            } else {
                k - 1
            };
            assert(self.has_edge(c[prev], c[(prev + 1) % len]));
            assert((prev + 1) % len == k) by {
                if k == 0 {
                    assert(len % len == 0) by (nonlinear_arith)
                        requires
                            len > 0,
                    ;
                } else {
                    assert(k % len == k) by (nonlinear_arith)
                        requires
                            0 < k < len,
                    ;
                }
            }
            assert(c[k] < self.node_count()) by {
                let row = self.edges@[c[prev] as int]@;
                let jj = choose|jj: int| 0 <= jj < row.len() && row[jj] == c[k];
                assert(self.edges@[c[prev] as int]@[jj] == c[k]);
            }
            assert(ord.contains(c[k]));
        }
        assert forall|k: int| 0 <= k < c.len() implies 0 <= ord.index_of_first(#[trigger] c[k]).unwrap()
            < ord.len() && ord[ord.index_of_first(c[k]).unwrap()] == c[k] by {
            ord.index_of_first_ensures(c[k]);
        }
        let kmin = min_first_pos(c, ord, len);
        let i = ord.index_of_first(c[kmin]).unwrap();
        let prev = if kmin == 0 {
            len - 1
        } else {
            kmin - 1
        };
        assert(self.has_edge(c[prev], c[(prev + 1) % len]));
        assert((prev + 1) % len == kmin) by {
            if kmin == 0 {
                assert(len % len == 0) by (nonlinear_arith)
                    requires
                        len > 0,
                ;
            } else {
                assert(kmin % len == kmin) by (nonlinear_arith)
                    requires
                        0 < kmin < len,
                ;
            }
        }
        assert(self.has_edge(c[prev], ord[i]));
        let j = choose|j: int| 0 <= j < i && ord[j] == c[prev];
        ord.index_of_first_ensures(c[prev]);
        let fprev = ord.index_of_first(c[prev]).unwrap();
        assert(fprev <= j) by {
            if fprev > j {
                assert(ord[j] != c[prev]);
            }
        }
        assert(fprev < i);
        assert(false);
    }

    /// A graph that holds any cycle is not acyclic.
    pub proof fn lemma_cycle_not_acyclic(self, c: Seq<usize>)
        requires
            self.wf(),
            self.is_cycle(c),
        ensures
            !self.acyclic(),
    {
        if self.acyclic() {
            let ord = choose|ord: Seq<usize>| self.topo_order_ok(ord);
            self.lemma_cycle_excludes_topo_order(c, ord);
        }
    }

    /// Whether the adjacency row of `u` holds `x`.
    fn row_contains(&self, u: usize, x: usize) -> (r: bool)
        requires
            u < self.node_count(),
        ensures
            r == self.edges@[u as int]@.contains(x),
    {
        let row = &self.edges[u];
        let row_len = row.len();
        let mut j: usize = 0;
        while j < row_len
            invariant
                row@ == self.edges@[u as int]@,
                row_len == row@.len(),
                j <= row_len,
                forall|j2: int| 0 <= j2 < j ==> row@[j2] != x,
            decreases row_len - j,
        {
            if row[j] == x {
                return true;
            }
            j += 1;
        }
        false
    }

    /// True when `x` has no unremoved predecessor left.
    fn has_no_live_pred(&self, x: usize, removed: &Vec<bool>) -> (r: bool)
        requires
            self.wf(),
            removed@.len() == self.node_count(),
            x < self.node_count(),
        ensures
            r <==> forall|u: usize|
                u < self.node_count() && !removed@[u as int] ==> !self.has_edge(u, x),
    {
        let n = self.edges.len();
        let mut u: usize = 0;
        while u < n
            invariant
                self.wf(),
                removed@.len() == self.node_count(),
                n == self.node_count(),
                x < self.node_count(),
                u <= n,
                forall|u2: usize| u2 < u && !removed@[u2 as int] ==> !self.has_edge(u2, x),
            decreases n - u,
        {
            if !removed[u] {
                if self.row_contains(u, x) {
                    assert(self.has_edge(u, x));
                    return false;
                }
                assert(!self.has_edge(u, x));
            }
            u += 1;
        }
        true
    }

    /// Scans for an unremoved node all of whose predecessors are removed.
    /// `None` means every unremoved node still has an unremoved
    /// predecessor.
    fn find_ready(&self, removed: &Vec<bool>) -> (r: Option<usize>)
        requires
            self.wf(),
            removed@.len() == self.node_count(),
        ensures
            match r {
                Some(x) => x < self.node_count() && !removed@[x as int] && forall|u: usize|
                    u < self.node_count() && !removed@[u as int] ==> !self.has_edge(u, x),
                None => forall|x: usize|
                    x < self.node_count() && !removed@[x as int] ==> exists|u: usize|
                        u < self.node_count() && !removed@[u as int] && self.has_edge(u, x),
            },
    {
        let n = self.edges.len();
        let mut x: usize = 0;
        while x < n
            invariant
                self.wf(),
                removed@.len() == self.node_count(),
                n == self.node_count(),
                x <= n,
                forall|x2: usize|
                    x2 < x && !removed@[x2 as int] ==> exists|u: usize|
                        u < self.node_count() && !removed@[u as int] && self.has_edge(u, x2),
            decreases n - x,
        {
            if !removed[x] {
                if self.has_no_live_pred(x, removed) {
                    return Some(x);
                }
            }
            x += 1;
        }
        None
    }

    /// Finds an unremoved predecessor of `x`; one exists by assumption.
    fn find_live_pred(&self, x: usize, removed: &Vec<bool>) -> (r: usize)
        requires
            self.wf(),
            removed@.len() == self.node_count(),
            x < self.node_count(),
            exists|u: usize| u < self.node_count() && !removed@[u as int] && self.has_edge(u, x),
        ensures
            r < self.node_count(),
            !removed@[r as int],
            self.has_edge(r, x),
    {
        let n = self.edges.len();
        let mut u: usize = 0;
        while u < n
            invariant
                self.wf(),
                removed@.len() == self.node_count(),
                n == self.node_count(),
                x < self.node_count(),
                u <= n,
                exists|u2: usize|
                    u2 < self.node_count() && !removed@[u2 as int] && self.has_edge(u2, x),
                forall|u2: usize| u2 < u ==> !(!removed@[u2 as int] && self.has_edge(u2, x)),
            decreases n - u,
        {
            if !removed[u] {
                if self.row_contains(u, x) {
                    assert(self.has_edge(u, x));
                    return u;
                }
            }
            u += 1;
        }
        proof {
            let u2 = choose|u2: usize|
                u2 < self.node_count() && !removed@[u2 as int] && self.has_edge(u2, x);
            assert(false);
        }
        0
    }

    /// Starting from an unremoved node in a state where every unremoved
    /// node has an unremoved predecessor, walks predecessors until a node
    /// repeats; the repeated node lies on a cycle.
    #[verifier::rlimit(50)]
    fn cycle_witness(&self, start: usize, removed: &Vec<bool>) -> (v: usize)
        requires
            self.wf(),
            removed@.len() == self.node_count(),
            start < self.node_count(),
            !removed@[start as int],
            forall|x: usize|
                x < self.node_count() && !removed@[x as int] ==> exists|u: usize|
                    u < self.node_count() && !removed@[u as int] && self.has_edge(u, x),
        ensures
            exists|c: Seq<usize>| self.is_cycle(c) && c.contains(v),
    {
        let n = self.edges.len();
        let mut visited: Vec<bool> = Vec::new();
        let mut i: usize = 0;
        while i < n
            invariant
                visited@.len() == i,
                i <= n,
                forall|k: int| 0 <= k < i ==> !visited@[k],
            decreases n - i,
        {
            visited.push(false);
            i += 1;
        }
        proof {
            lemma_count_true_zero(visited@);
        }
        let mut visited_count: usize = 0;
        let mut cur = start;
        let ghost mut walk: Seq<usize> = seq![start];
        loop
            invariant
                self.wf(),
                removed@.len() == self.node_count(),
                n == self.node_count(),
                visited@.len() == n,
                visited_count == count_true(visited@),
                visited_count <= n,
                cur < n,
                !removed@[cur as int],
                forall|x: usize|
                    x < self.node_count() && !removed@[x as int] ==> exists|u: usize|
                        u < self.node_count() && !removed@[u as int] && self.has_edge(u, x),
                walk.len() >= 1,
                walk[walk.len() - 1] == cur,
                forall|k: int| 0 <= k < walk.len() ==> (#[trigger] walk[k]) < n,
                forall|k: int| 0 <= k < walk.len() - 1 ==> self.has_edge(walk[k + 1], #[trigger] walk[k]),
                forall|k: int| 0 <= k < walk.len() - 1 ==> visited@[#[trigger] walk[k] as int],
                forall|v2: usize|
                    v2 < n && visited@[v2 as int] ==> exists|k: int|
                        0 <= k < walk.len() - 1 && walk[k] == v2,
            decreases n - visited_count,
        {
            proof {
                lemma_count_true_bound(visited@);
            }
            if visited[cur] {
                proof {
                    let k = choose|k: int| 0 <= k < walk.len() - 1 && walk[k] == cur;
                    lemma_backward_walk_cycle(*self, walk, k);
                }
                return cur;
            }
            let ghost vis_before = visited@;
            let ghost cur_before = cur;
            let ghost walk_before = walk;
            visited[cur] = true;
            proof {
                lemma_count_true_update(vis_before, cur as int);
                assert(visited@ =~= vis_before.update(cur as int, true));
                lemma_count_true_bound(visited@);
            }
            visited_count += 1;
            let pred = self.find_live_pred(cur, removed);
            cur = pred;
            proof {
                walk = walk_before.push(pred);
                assert(walk[walk.len() - 1] == pred);
                assert forall|v2: usize| v2 < n && visited@[v2 as int] implies exists|k: int|
                    0 <= k < walk.len() - 1 && walk[k] == v2 by {
                    if v2 == cur_before {
                        assert(walk[walk_before.len() - 1] == cur_before);
                    } else {
                        let k = choose|k: int|
                            0 <= k < walk_before.len() - 1 && walk_before[k] == v2;
                        assert(walk[k] == v2);
                    }
                }
                assert forall|k: int| 0 <= k < walk.len() - 1 implies visited@[(
                #[trigger] walk[k]) as int] by {
                    if k == walk_before.len() - 1 {
                        assert(walk[k] == cur_before);
                    } else {
                        assert(walk[k] == walk_before[k]);
                    }
                }
                assert forall|k: int| 0 <= k < walk.len() - 1 implies self.has_edge(
                    walk[k + 1],
                    #[trigger] walk[k],
                ) by {
                    if k == walk_before.len() - 1 {
                        assert(walk[k] == cur_before && walk[k + 1] == pred);
                    } else {
                        assert(walk[k] == walk_before[k] && walk[k + 1] == walk_before[k + 1]);
                    }
                }
            }
        }
    }

    /// Kahn-style acyclicity check.  On success the graph admits a
    /// topological order; on failure the returned node lies on a cycle.
    #[verifier::rlimit(50)]
    pub fn verify_acyclic(&self) -> (r: Result<(), usize>)
        requires
            self.wf(),
        ensures
            r is Ok ==> self.acyclic(),
            r is Err ==> r->Err_0 < self.node_count() && exists|c: Seq<usize>|
                self.is_cycle(c) && c.contains(r->Err_0),
    {
        let n = self.edges.len();
        let mut removed: Vec<bool> = Vec::new();
        let mut i: usize = 0;
        while i < n
            invariant
                removed@.len() == i,
                i <= n,
                forall|k: int| 0 <= k < i ==> !removed@[k],
            decreases n - i,
        {
            removed.push(false);
            i += 1;
        }
        proof {
            lemma_count_true_zero(removed@);
        }
        let mut removed_count: usize = 0;
        let ghost mut ord: Seq<usize> = Seq::empty();
        while removed_count < n
            invariant
                self.wf(),
                n == self.node_count(),
                removed@.len() == n,
                removed_count == count_true(removed@),
                removed_count <= n,
                forall|v: usize| v < n ==> (removed@[v as int] <==> ord.contains(v)),
                forall|k: int| 0 <= k < ord.len() ==> (#[trigger] ord[k]) < n,
                forall|k: int, u: usize|
                    0 <= k < ord.len() && #[trigger] self.has_edge(u, ord[k]) ==> exists|j: int|
                        0 <= j < k && ord[j] == u,
            decreases n - removed_count,
        {
            match self.find_ready(&removed) {
                Some(x) => {
                    let ghost removed_before = removed@;
                    let ghost ord_before = ord;
                    removed[x] = true;
                    proof {
                        lemma_count_true_update(removed_before, x as int);
                        assert(removed@ =~= removed_before.update(x as int, true));
                        lemma_count_true_bound(removed@);
                        ord = ord.push(x);
                        assert forall|v: usize| v < n implies (removed@[v as int] <==> ord.contains(
                            v,
                        )) by {
                            if v == x {
                                assert(ord[ord.len() - 1] == x);
                                assert(ord.contains(v));
                            } else {
                                assert(removed@[v as int] == removed_before[v as int]);
                                assert(removed_before[v as int] <==> ord_before.contains(v));
                                if ord_before.contains(v) {
                                    let k = choose|k: int|
                                        0 <= k < ord_before.len() && ord_before[k] == v;
                                    assert(ord[k] == v);
                                } else {
                                    if ord.contains(v) {
                                        let k = choose|k: int| 0 <= k < ord.len() && ord[k] == v;
                                        assert(k < ord_before.len() && ord_before[k] == v);
                                    }
                                }
                            }
                        }
                        assert forall|k: int, u: usize|
                            0 <= k < ord.len() && #[trigger] self.has_edge(u, ord[k]) implies exists|
                            j: int,
                        |
                            0 <= j < k && ord[j] == u by {
                            if k < ord.len() - 1 {
                                assert(ord_before[k] == ord[k]);
                                let j = choose|j: int| 0 <= j < k && ord_before[j] == u;
                                assert(ord[j] == u);
                            } else {
                                // x was ready: every predecessor is removed
                                assert(ord[k] == x);
                                assert(u < n);
                                assert(removed_before[u as int]);
                                assert(ord_before.contains(u));
                                let j = choose|j: int|
                                    0 <= j < ord_before.len() && ord_before[j] == u;
                                assert(ord[j] == u);
                            }
                        }
                    }
                    removed_count += 1;
                },
                None => {
                    // every unremoved node keeps an unremoved predecessor;
                    // some node is unremoved, so a cycle exists
                    proof {
                        lemma_count_true_bound(removed@);
                        lemma_count_true_not_full(removed@);
                    }
                    let start = first_unremoved(&removed);
                    let v = self.cycle_witness(start, &removed);
                    return Err(v);
                },
            }
        }
        proof {
            lemma_count_true_bound(removed@);
            assert(self.topo_order_ok(ord));
        }
        Ok(())
    }

    /// Marks every node reachable from `start` along zero or more edges.
    /// The marked set holds `start`, is closed under edges, and is below
    /// every edge-closed set that holds `start`.
    #[verifier::rlimit(50)]
    pub fn reachable_set(&self, start: usize) -> (r: Vec<bool>)
        requires
            self.wf(),
            start < self.node_count(),
        ensures
            r@.len() == self.node_count(),
            r@[start as int],
            forall|u: usize, v: usize|
                u < self.node_count() && r@[u as int] && #[trigger] self.has_edge(u, v) ==> r@[v as int],
            forall|m: Set<usize>, v: usize|
                m.contains(start) && #[trigger] self.closed(m) && v < self.node_count()
                    && #[trigger] r@[v as int] ==> m.contains(v),
    {
        let n = self.edges.len();
        let mut visited: Vec<bool> = Vec::new();
        let mut i: usize = 0;
        while i < n
            invariant
                visited@.len() == i,
                i <= n,
                forall|k: int| 0 <= k < i ==> !visited@[k],
            decreases n - i,
        {
            visited.push(false);
            i += 1;
        }
        proof {
            lemma_count_true_zero(visited@);
        }
        let mut visited_count: usize = 0;
        let mut stack: Vec<usize> = Vec::new();
        let ghost visited_before0 = visited@;
        visited[start] = true;
        proof {
            lemma_count_true_update(visited_before0, start as int);
            assert(visited@ =~= visited_before0.update(start as int, true));
        }
        visited_count = 1;
        stack.push(start);
        proof {
            assert(stack@[0] == start);
            assert(stack@.contains(start));
            assert forall|u: usize| u < n && visited@[u as int] implies u == start by {
                if u != start {
                    assert(visited@[u as int] == visited_before0[u as int]);
                }
            }
        }
        while stack.len() > 0
            invariant
                self.wf(),
                n == self.node_count(),
                start < n,
                visited@.len() == n,
                visited_count == count_true(visited@),
                visited_count <= n,
                visited@[start as int],
                forall|k: int| 0 <= k < stack@.len() ==> (#[trigger] stack@[k]) < n && visited@[stack@[k] as int],
                forall|u: usize, v: usize|
                    u < n && visited@[u as int] && !stack@.contains(u) && #[trigger] self.has_edge(
                        u,
                        v,
                    ) ==> visited@[v as int],
                forall|m: Set<usize>, v: usize|
                    m.contains(start) && #[trigger] self.closed(m) && v < n
                        && #[trigger] visited@[v as int] ==> m.contains(v),
            decreases n - visited_count, stack.len(),
        {
            let ghost stack_with_node = stack@;
            let node = stack[stack.len() - 1];
            stack.pop();
            let ghost stack_after_pop = stack@;
            proof {
                assert(stack_after_pop =~= stack_with_node.drop_last());
                assert forall|u: usize| u != node implies (stack_after_pop.contains(u)
                    <==> stack_with_node.contains(u)) by {
                    if stack_with_node.contains(u) {
                        let k = choose|k: int|
                            0 <= k < stack_with_node.len() && stack_with_node[k] == u;
                        assert(k != stack_with_node.len() - 1);
                        assert(stack_after_pop[k] == u);
                    }
                    if stack_after_pop.contains(u) {
                        let k = choose|k: int|
                            0 <= k < stack_after_pop.len() && stack_after_pop[k] == u;
                        assert(stack_with_node[k] == u);
                    }
                }
                assert forall|u: usize, v: usize|
                    u < n && visited@[u as int] && u != node && !stack_after_pop.contains(u)
                        && #[trigger] self.has_edge(u, v) implies visited@[v as int] by {
                    assert(!stack_with_node.contains(u));
                }
            }
            let row_len = self.edges[node].len();
            let mut j: usize = 0;
            let ghost visited_at_entry = visited@;
            let ghost count_at_entry = visited_count;
            while j < row_len
                invariant
                    self.wf(),
                    n == self.node_count(),
                    start < n,
                    node < n,
                    row_len == self.edges@[node as int]@.len(),
                    j <= row_len,
                    visited@.len() == n,
                    visited_count == count_true(visited@),
                    visited_count <= n,
                    visited@[start as int],
                    visited@[node as int],
                    count_at_entry <= visited_count,
                    count_at_entry < visited_count || stack@ =~= stack_after_pop,
                    stack@.len() >= stack_after_pop.len(),
                    forall|k: int|
                        0 <= k < stack_after_pop.len() ==> stack@[k] == stack_after_pop[k],
                    forall|k: int| 0 <= k < stack@.len() ==> (#[trigger] stack@[k]) < n && visited@[stack@[k] as int],
                    visited_at_entry.len() == n,
                    forall|v2: usize|
                        v2 < n && visited_at_entry[v2 as int] ==> visited@[v2 as int],
                    forall|jj: int|
                        0 <= jj < j ==> visited@[#[trigger] self.edges@[node as int]@[jj] as int],
                    forall|u: usize, v: usize|
                        u < n && visited@[u as int] && u != node && !stack@.contains(u)
                            && #[trigger] self.has_edge(u, v) ==> visited@[v as int],
                    forall|m: Set<usize>, v: usize|
                        m.contains(start) && #[trigger] self.closed(m) && v < n
                            && #[trigger] visited@[v as int] ==> m.contains(v),
                decreases row_len - j,
            {
                let w = self.edges[node][j];
                if !visited[w] {
                    let ghost visited_before = visited@;
                    visited[w] = true;
                    proof {
                        lemma_count_true_update(visited_before, w as int);
                        assert(visited@ =~= visited_before.update(w as int, true));
                        lemma_count_true_bound(visited@);
                        assert forall|m: Set<usize>, v: usize|
                            m.contains(start) && #[trigger] self.closed(m) && v < n
                                && #[trigger] visited@[v as int] implies m.contains(v) by {
                            if v == w {
                                assert(m.contains(node));
                                assert(self.has_edge(node, w)) by {
                                    assert(self.edges@[node as int]@[j as int] == w);
                                }
                            }
                        }
                    }
                    visited_count += 1;
                    let ghost stack_pre = stack@;
                    stack.push(w);
                    proof {
                        assert(stack@[stack@.len() - 1] == w);
                        assert(stack@.contains(w));
                        assert forall|u: usize| stack_pre.contains(u) implies stack@.contains(
                            u,
                        ) by {
                            let k = choose|k: int|
                                0 <= k < stack_pre.len() && stack_pre[k] == u;
                            assert(stack@[k] == u);
                        }
                        assert forall|u: usize, v: usize|
                            u < n && visited@[u as int] && u != node && !stack@.contains(u)
                                && #[trigger] self.has_edge(u, v) implies visited@[v as int] by {
                            assert(!stack_pre.contains(u));
                            assert(u != w);
                            assert(visited_before[u as int]);
                        }
                    }
                }
                j += 1;
            }
            proof {
                assert forall|u: usize, v: usize|
                    u < n && visited@[u as int] && !stack@.contains(u) && #[trigger] self.has_edge(
                        u,
                        v,
                    ) implies visited@[v as int] by {
                    if u == node {
                        let jj = choose|jj: int|
                            0 <= jj < self.edges@[node as int]@.len() && self.edges@[node as int]@[jj]
                                == v;
                        assert(visited@[self.edges@[node as int]@[jj] as int]);
                    }
                }
            }
        }
        visited
    }

    /// Decides reachability: whether `t` lies in every edge-closed set
    /// holding `s`.
    pub fn reaches_query(&self, s: usize, t: usize) -> (b: bool)
        requires
            self.wf(),
            s < self.node_count(),
            t < self.node_count(),
        ensures
            b == self.reaches(s, t),
    {
        let r = self.reachable_set(s);
        let b = r[t];
        proof {
            let marked = Set::new(|v: usize| v < self.node_count() && r@[v as int]);
            assert(marked.contains(s));
            assert(self.closed(marked)) by {
                assert forall|u: usize, v: usize|
                    marked.contains(u) && #[trigger] self.has_edge(u, v) implies marked.contains(
                    v,
                ) by {
                    assert(r@[v as int]);
                    let jj = choose|jj: int|
                        0 <= jj < self.edges@[u as int]@.len() && self.edges@[u as int]@[jj] == v;
                    assert((self.edges@[u as int]@[jj]) < self.edges@.len());
                }
            }
            if b {
                assert forall|m: Set<usize>| m.contains(s) && #[trigger] self.closed(m) implies m.contains(
                    t,
                ) by {}
            } else {
                assert(!marked.contains(t));
            }
        }
        b
    }
}

/// The index of the first false entry; one exists.
fn first_unremoved(removed: &Vec<bool>) -> (r: usize)
    requires
        exists|v: int| 0 <= v < removed@.len() && !removed@[v],
    ensures
        r < removed@.len(),
        !removed@[r as int],
{
    let n = removed.len();
    let mut i: usize = 0;
    while i < n
        invariant
            i <= n,
            n == removed@.len(),
            exists|v: int| 0 <= v < removed@.len() && !removed@[v],
            forall|k: int| 0 <= k < i ==> removed@[k],
        decreases n - i,
    {
        if !removed[i] {
            return i;
        }
        i += 1;
    }
    proof {
        let v = choose|v: int| 0 <= v < removed@.len() && !removed@[v];
        assert(false);
    }
    0
}

/// A pushed element keeps every earlier member and adds itself.
pub proof fn lemma_push_contains<A>(s: Seq<A>, x: A)
    ensures
        s.push(x).contains(x),
        forall|v: A| #[trigger] s.contains(v) ==> s.push(x).contains(v),
        forall|v: A| #[trigger] s.push(x).contains(v) ==> v == x || s.contains(v),
{
    assert(s.push(x)[s.len() as int] == x);
    assert forall|v: A| #[trigger] s.contains(v) implies s.push(x).contains(v) by {
        let k = choose|k: int| 0 <= k < s.len() && s[k] == v;
        assert(s.push(x)[k] == v);
    }
    assert forall|v: A| #[trigger] s.push(x).contains(v) implies v == x || s.contains(v) by {
        let k = choose|k: int| 0 <= k < s.push(x).len() && s.push(x)[k] == v;
        if k < s.len() {
            assert(s[k] == v);
        }
    }
}

/// A sequence of booleans that is not all true has a count below its
/// length, and conversely.
proof fn lemma_count_true_not_full(s: Seq<bool>)
    requires
        count_true(s) < s.len(),
    ensures
        exists|v: int| 0 <= v < s.len() && !s[v],
{
    if forall|v: int| 0 <= v < s.len() ==> s[v] {
        lemma_count_true_all(s);
    }
}

proof fn lemma_count_true_all(s: Seq<bool>)
    requires
        forall|v: int| 0 <= v < s.len() ==> s[v],
    ensures
        count_true(s) == s.len(),
    decreases s.len(),
{
    if s.len() > 0 {
        lemma_count_true_all(s.drop_last());
    }
}

/// A backward walk (each element an edge-source of the one before it)
/// that returns to its last element yields a cycle through that element.
proof fn lemma_backward_walk_cycle(g: Digraph, walk: Seq<usize>, k: int)
    requires
        walk.len() >= 2,
        0 <= k < walk.len() - 1,
        walk[k] == walk[walk.len() - 1],
        forall|q: int| 0 <= q < walk.len() - 1 ==> g.has_edge(walk[q + 1], #[trigger] walk[q]),
    ensures
        exists|c: Seq<usize>| g.is_cycle(c) && c.contains(walk[walk.len() - 1]),
{
    let m = walk.len() - 1;
    let cur = walk[m];
    let c = walk.subrange(k + 1, m + 1).reverse();
    let clen = c.len() as int;
    assert(clen == m - k);
    assert forall|q: int| 0 <= q < clen implies c[q] == walk[m - q] by {
        assert(c[q] == walk.subrange(k + 1, m + 1)[clen - 1 - q]);
    }
    assert forall|q: int| 0 <= q < clen implies g.has_edge(#[trigger] c[q], c[(q + 1) % clen]) by {
        if q < clen - 1 {
            assert((q + 1) % clen == q + 1) by (nonlinear_arith)
                requires
                    0 <= q + 1 < clen,
            ;
            assert(c[q] == walk[m - q]);
            assert(c[q + 1] == walk[m - q - 1]);
            assert(g.has_edge(walk[(m - q - 1) + 1], walk[m - q - 1]));
        } else {
            assert(c[q] == walk[k + 1]);
            assert((q + 1) % clen == 0) by {
                assert(clen % clen == 0) by (nonlinear_arith)
                    requires
                        clen > 0,
                ;
            }
            assert(c[0] == walk[m]);
            assert(walk[m] == cur && walk[k] == cur);
            assert(g.has_edge(walk[k + 1], walk[k]));
        }
    }
    assert(g.is_cycle(c));
    assert(c[0] == cur);
    assert(c.contains(cur));
}

pub proof fn lemma_count_true_zero(s: Seq<bool>)
    requires
        forall|k: int| 0 <= k < s.len() ==> !s[k],
    ensures
        count_true(s) == 0,
    decreases s.len(),
{
    if s.len() > 0 {
        lemma_count_true_zero(s.drop_last());
    }
}


/// Under a topological order, an edge's source first occurs strictly
/// before its target's first occurrence.
proof fn lemma_edge_before(g: Digraph, ord: Seq<usize>, u: usize, v: usize)
    requires
        g.topo_order_ok(ord),
        g.has_edge(u, v),
        v < g.node_count(),
    ensures
        ord.contains(u),
        ord.contains(v),
        0 <= ord.index_of_first(u).unwrap() < ord.len(),
        0 <= ord.index_of_first(v).unwrap() < ord.len(),
        ord.index_of_first(u).unwrap() < ord.index_of_first(v).unwrap(),
{
    assert(ord.contains(v));
    ord.index_of_first_ensures(v);
    let iv = ord.index_of_first(v).unwrap();
    assert(ord[iv] == v);
    assert(g.has_edge(u, ord[iv]));
    let j = choose|j: int| 0 <= j < iv && ord[j] == u;
    assert(ord.contains(u));
    ord.index_of_first_ensures(u);
    let iu = ord.index_of_first(u).unwrap();
    assert(iu <= j) by {
        if iu > j {
            assert(ord[j] != u);
        }
    }
}

impl Digraph {
    /// A node that reaches a node with an edge back to it closes a
    /// cycle: no such graph admits a topological order.
    pub proof fn lemma_back_edge_reach_not_acyclic(self, s: usize, t: usize)
        requires
            self.wf(),
            self.has_edge(t, s),
            self.reaches(s, t),
        ensures
            !self.acyclic(),
    {
        if self.acyclic() {
            let ord = choose|ord: Seq<usize>| self.topo_order_ok(ord);
            assert(s < self.node_count()) by {
                let jj = choose|jj: int|
                    0 <= jj < self.edges@[t as int]@.len() && self.edges@[t as int]@[jj] == s;
                assert((self.edges@[t as int]@[jj]) < self.edges@.len());
            }
            lemma_edge_before(self, ord, t, s);
            let ft = ord.index_of_first(t).unwrap();
            let m = Set::new(
                |v: usize|
                    v < self.node_count() && ord.contains(v) && ord.index_of_first(v).unwrap()
                        > ft,
            );
            assert(m.contains(s));
            assert(self.closed(m)) by {
                assert forall|u: usize, v: usize|
                    m.contains(u) && #[trigger] self.has_edge(u, v) implies m.contains(v) by {
                    assert(v < self.node_count()) by {
                        let jj = choose|jj: int|
                            0 <= jj < self.edges@[u as int]@.len() && self.edges@[u as int]@[jj]
                                == v;
                        assert((self.edges@[u as int]@[jj]) < self.edges@.len());
                    }
                    lemma_edge_before(self, ord, u, v);
                }
            }
            assert(m.contains(t));
            assert(false);
        }
    }
}

} // verus!
