//! The task decomposition graph: nodes are the domain's compound-task
//! and action symbols, and an edge `u -> v` exists exactly when some
//! method decomposing `u` has a subtask invoking `v`.  Queries:
//! reachability, the nullable-task fixpoint, and the recursion
//! classification.

use vstd::prelude::*;
use crate::graph::{lemma_push_contains, Digraph};
use crate::metadata::RecursionType;
use crate::syntax_tree::DomainAST;

verus! {

/// One method, reduced to the node handles the graph works on: the
/// decomposed task and its subtask occurrences in order.
pub struct TDGMethod {
    pub task: usize,
    pub subtasks: Vec<usize>,
}

/// `nm` occurs among the views of the strings of `list`.
pub open spec fn seq_contains_string(list: Seq<String>, nm: Seq<char>) -> bool {
    exists|k: int| 0 <= k < list.len() && #[trigger] list[k]@ == nm
}

/// Some method for task `u` has `v` among its subtask handles.
pub open spec fn method_has_subtask(ms: Seq<TDGMethod>, u: usize, v: usize) -> bool {
    exists|m: int, j: int|
        0 <= m < ms.len() && ms[m].task == u && 0 <= j < ms[m].subtasks@.len() && (
        #[trigger] ms[m].subtasks@[j]) == v
}

/// `t` can decompose to the empty task list within `fuel` rounds of
/// method application: some method for `t` has all its subtasks (none,
/// in the base case) nullable within `fuel - 1` rounds.
pub open spec fn nullable_upto(ms: Seq<TDGMethod>, t: int, fuel: nat) -> bool
    decreases fuel,
{
    fuel > 0 && exists|i: int|
        0 <= i < ms.len() && (#[trigger] ms[i]).task == t && (forall|j: int|
            0 <= j < ms[i].subtasks@.len() ==> nullable_upto(
                ms,
                #[trigger] ms[i].subtasks@[j] as int,
                (fuel - 1) as nat,
            ))
}

/// `t` is a nullable task: it can decompose, through zero or more method
/// applications, into an empty subtask list.
pub open spec fn is_nullable(ms: Seq<TDGMethod>, t: int) -> bool {
    exists|fuel: nat| nullable_upto(ms, t, fuel)
}

/// More fuel never hurts a nullability derivation.
pub proof fn lemma_nullable_fuel_mono(ms: Seq<TDGMethod>, t: int, fuel1: nat, fuel2: nat)
    requires
        nullable_upto(ms, t, fuel1),
        fuel1 <= fuel2,
    ensures
        nullable_upto(ms, t, fuel2),
    decreases fuel1,
{
    let i = choose|i: int|
        0 <= i < ms.len() && (#[trigger] ms[i]).task == t && (forall|j: int|
            0 <= j < ms[i].subtasks@.len() ==> nullable_upto(
                ms,
                #[trigger] ms[i].subtasks@[j] as int,
                (fuel1 - 1) as nat,
            ));
    assert forall|j: int| 0 <= j < ms[i].subtasks@.len() implies nullable_upto(
        ms,
        #[trigger] ms[i].subtasks@[j] as int,
        (fuel2 - 1) as nat,
    ) by {
        lemma_nullable_fuel_mono(ms, ms[i].subtasks@[j] as int, (fuel1 - 1) as nat, (fuel2 - 1) as nat);
    }
}

/// A nullable task is the decomposed task of at least one method.
pub proof fn lemma_nullable_has_method(ms: Seq<TDGMethod>, t: int) -> (i: int)
    requires
        is_nullable(ms, t),
    ensures
        0 <= i < ms.len(),
        ms[i].task == t,
{
    let fuel = choose|fuel: nat| nullable_upto(ms, t, fuel);
    let i = choose|i: int|
        0 <= i < ms.len() && (#[trigger] ms[i]).task == t && (forall|j: int|
            0 <= j < ms[i].subtasks@.len() ==> nullable_upto(
                ms,
                #[trigger] ms[i].subtasks@[j] as int,
                (fuel - 1) as nat,
            ));
    i
}

/// A method with no subtasks makes its task nullable outright.
pub proof fn lemma_empty_method_nullable(ms: Seq<TDGMethod>, i: int)
    requires
        0 <= i < ms.len(),
        ms[i].subtasks@.len() == 0,
    ensures
        is_nullable(ms, ms[i].task as int),
{
    assert(nullable_upto(ms, ms[i].task as int, 1));
}

/// A task each of whose methods keeps at least one non-nullable subtask
/// is itself not nullable.
pub proof fn lemma_blocked_task_not_nullable(ms: Seq<TDGMethod>, t: int)
    requires
        forall|i: int|
            0 <= i < ms.len() && (#[trigger] ms[i]).task == t ==> exists|j: int|
                0 <= j < ms[i].subtasks@.len() && !is_nullable(ms, ms[i].subtasks@[j] as int),
    ensures
        !is_nullable(ms, t),
{
    if is_nullable(ms, t) {
        let fuel = choose|fuel: nat| nullable_upto(ms, t, fuel);
        let i = choose|i: int|
            0 <= i < ms.len() && (#[trigger] ms[i]).task == t && (forall|j: int|
                0 <= j < ms[i].subtasks@.len() ==> nullable_upto(
                    ms,
                    #[trigger] ms[i].subtasks@[j] as int,
                    (fuel - 1) as nat,
                ));
        let j = choose|j: int|
            0 <= j < ms[i].subtasks@.len() && !is_nullable(ms, ms[i].subtasks@[j] as int);
        assert(nullable_upto(ms, ms[i].subtasks@[j] as int, (fuel - 1) as nat));
        assert(is_nullable(ms, ms[i].subtasks@[j] as int));
    }
}

/// The nullable set is a function of the method table alone: any two
/// sets that both match `is_nullable` membership-wise agree everywhere.
pub proof fn lemma_nullables_deterministic(
    ms: Seq<TDGMethod>,
    s1: Set<int>,
    s2: Set<int>,
)
    requires
        forall|t: int| #[trigger] s1.contains(t) <==> is_nullable(ms, t),
        forall|t: int| #[trigger] s2.contains(t) <==> is_nullable(ms, t),
    ensures
        s1 =~= s2,
{
}

/// Nullability is monotone in the method table: any method table that
/// holds every method of `ms1` (anywhere, in any order) admits every
/// nullability derivation of `ms1`.
pub proof fn lemma_nullable_monotone(ms1: Seq<TDGMethod>, ms2: Seq<TDGMethod>, t: int)
    requires
        forall|i: int| 0 <= i < ms1.len() ==> exists|i2: int|
            0 <= i2 < ms2.len() && ms2[i2] == #[trigger] ms1[i],
        is_nullable(ms1, t),
    ensures
        is_nullable(ms2, t),
{
    let fuel = choose|fuel: nat| nullable_upto(ms1, t, fuel);
    lemma_nullable_monotone_fuel(ms1, ms2, t, fuel);
}

proof fn lemma_nullable_monotone_fuel(ms1: Seq<TDGMethod>, ms2: Seq<TDGMethod>, t: int, fuel: nat)
    requires
        forall|i: int| 0 <= i < ms1.len() ==> exists|i2: int|
            0 <= i2 < ms2.len() && ms2[i2] == #[trigger] ms1[i],
        nullable_upto(ms1, t, fuel),
    ensures
        nullable_upto(ms2, t, fuel),
    decreases fuel,
{
    let i = choose|i: int|
        0 <= i < ms1.len() && (#[trigger] ms1[i]).task == t && (forall|j: int|
            0 <= j < ms1[i].subtasks@.len() ==> nullable_upto(
                ms1,
                #[trigger] ms1[i].subtasks@[j] as int,
                (fuel - 1) as nat,
            ));
    let i2 = choose|i2: int| 0 <= i2 < ms2.len() && ms2[i2] == ms1[i];
    assert forall|j: int| 0 <= j < ms2[i2].subtasks@.len() implies nullable_upto(
        ms2,
        #[trigger] ms2[i2].subtasks@[j] as int,
        (fuel - 1) as nat,
    ) by {
        assert(ms2[i2].subtasks@[j] == ms1[i].subtasks@[j]);
        lemma_nullable_monotone_fuel(ms1, ms2, ms1[i].subtasks@[j] as int, (fuel - 1) as nat);
    }
    assert(ms2[i2].task == t && (forall|j: int|
        0 <= j < ms2[i2].subtasks@.len() ==> nullable_upto(
            ms2,
            #[trigger] ms2[i2].subtasks@[j] as int,
            (fuel - 1) as nat,
        )));
}

/// In a fixpoint that is sound (every set bit has a derivation) and
/// closed (every method whose subtasks are all set marks its task),
/// every derivable task is set.
proof fn lemma_closed_bits_complete(
    ms: Seq<TDGMethod>,
    bits: Seq<bool>,
    nc: int,
    t: int,
    fuel: nat,
)
    requires
        bits.len() == nc,
        forall|i: int| 0 <= i < ms.len() ==> 0 <= (#[trigger] ms[i]).task < nc,
        forall|i: int|
            0 <= i < ms.len() && (forall|j: int|
                0 <= j < (#[trigger] ms[i]).subtasks@.len() ==> ms[i].subtasks@[j] < nc
                    && bits[ms[i].subtasks@[j] as int]) ==> bits[ms[i].task as int],
        nullable_upto(ms, t, fuel),
    ensures
        0 <= t < nc,
        bits[t],
    decreases fuel,
{
    let i = choose|i: int|
        0 <= i < ms.len() && (#[trigger] ms[i]).task == t && (forall|j: int|
            0 <= j < ms[i].subtasks@.len() ==> nullable_upto(
                ms,
                #[trigger] ms[i].subtasks@[j] as int,
                (fuel - 1) as nat,
            ));
    assert forall|j: int| 0 <= j < ms[i].subtasks@.len() implies (#[trigger] ms[i].subtasks@[j])
        < nc && bits[ms[i].subtasks@[j] as int] by {
        lemma_closed_bits_complete(ms, bits, nc, ms[i].subtasks@[j] as int, (fuel - 1) as nat);
    }
    assert(bits[ms[i].task as int]);
}

/// Any collection of nullable tasks admits one common fuel bound.
proof fn lemma_common_fuel(ms: Seq<TDGMethod>, subs: Seq<usize>, n: int) -> (fuel: nat)
    requires
        0 <= n <= subs.len(),
        forall|j: int| 0 <= j < subs.len() ==> is_nullable(ms, #[trigger] subs[j] as int),
    ensures
        forall|j: int| 0 <= j < n ==> nullable_upto(ms, #[trigger] subs[j] as int, fuel),
    decreases n,
{
    if n == 0 {
        0
    } else {
        let rest = lemma_common_fuel(ms, subs, n - 1);
        let own = choose|fuel: nat| #[trigger] nullable_upto(ms, subs[n - 1] as int, fuel);
        let fuel = if rest >= own {
            rest
        } else {
            own
        };
        assert forall|j: int| 0 <= j < n implies nullable_upto(
            ms,
            #[trigger] subs[j] as int,
            fuel,
        ) by {
            if j < n - 1 {
                lemma_nullable_fuel_mono(ms, subs[j] as int, rest, fuel);
            } else {
                lemma_nullable_fuel_mono(ms, subs[j] as int, own, fuel);
            }
        }
        fuel
    }
}

/// The task decomposition graph.  `names` lists the node symbols, the
/// compound tasks first; `n_compound` is where the action symbols
/// begin; `graph` holds the decomposition edges over node handles; and
/// `methods` keeps each method's task and subtask handles for the
/// nullable fixpoint and the recursion classifier.
pub struct TDG {
    pub names: Vec<String>,
    pub n_compound: usize,
    pub graph: Digraph,
    pub methods: Vec<TDGMethod>,
}

impl TDG {
    /// Node count.
    pub open spec fn n(self) -> nat {
        self.names@.len()
    }

    /// Structural well-formedness: handles in range, node names
    /// distinct, and the edge relation of `graph` matching `methods`.
    pub open spec fn wf(self) -> bool {
        &&& self.graph.wf()
        &&& self.graph.node_count() == self.names@.len()
        &&& self.n_compound <= self.names@.len()
        &&& forall|i: int|
            0 <= i < self.methods@.len() ==> (#[trigger] self.methods@[i]).task < self.n_compound
        &&& forall|i: int, j: int|
            0 <= i < self.methods@.len() && 0 <= j < self.methods@[i].subtasks@.len() ==> (
            #[trigger] self.methods@[i].subtasks@[j]) < self.names@.len()
        &&& forall|i: int, j: int|
            0 <= i < j < self.names@.len() ==> self.names@[i]@ != self.names@[j]@
        &&& forall|u: usize, v: usize|
            #[trigger] self.graph.has_edge(u, v) <==> method_has_subtask(self.methods@, u, v)
    }

    /// Every entry of `r` names a node of the graph.
    pub open spec fn entries_are_nodes(self, r: Seq<String>) -> bool {
        forall|k: int| 0 <= k < r.len() ==> self.has_symbol(#[trigger] r[k]@)
    }

    /// `s` (a set of symbol names) is closed under decomposition edges.
    pub open spec fn name_closed(self, s: Set<Seq<char>>) -> bool {
        forall|u: usize, v: usize|
            u < self.n() && v < self.n() && s.contains(self.names@[u as int]@)
                && #[trigger] self.graph.has_edge(u, v) ==> s.contains(self.names@[v as int]@)
    }

    /// The listed names are closed under decomposition edges.
    pub open spec fn closed_names(self, r: Seq<String>) -> bool {
        forall|u: usize, v: usize|
            u < self.n() && v < self.n() && seq_contains_string(r, self.names@[u as int]@)
                && #[trigger] self.graph.has_edge(u, v) ==> seq_contains_string(
                r,
                self.names@[v as int]@,
            )
    }

    /// Every entry of `r` lies in every edge-closed name set holding `nm`:
    /// `r` overshoots no reachable set.
    pub open spec fn below_every_closed_set(self, nm: Seq<char>, r: Seq<String>) -> bool {
        forall|s: Set<Seq<char>>, k: int|
            s.contains(nm) && #[trigger] self.name_closed(s) && 0 <= k < r.len() ==> s.contains(
                #[trigger] r[k]@,
            )
    }

    /// `nm` is the name of a nullable compound task.
    pub open spec fn names_nullable_task(self, nm: Seq<char>) -> bool {
        exists|t: int|
            0 <= t < self.n_compound && #[trigger] self.names@[t]@ == nm && is_nullable(
                self.methods@,
                t,
            )
    }

    /// Every entry of `r` is the name of some nullable compound task.
    pub open spec fn lists_only_nullables(self, r: Seq<String>) -> bool {
        forall|k: int| 0 <= k < r.len() ==> self.names_nullable_task(#[trigger] r[k]@)
    }

    /// Whether `nm` names a node.
    pub open spec fn has_symbol(self, nm: Seq<char>) -> bool {
        exists|i: int| 0 <= i < self.names@.len() && #[trigger] self.names@[i]@ == nm
    }

    /// The handle of the node named `nm`.
    pub open spec fn symbol_index(self, nm: Seq<char>) -> int {
        choose|i: int| 0 <= i < self.names@.len() && #[trigger] self.names@[i]@ == nm
    }

    /// Scans `names` for `nm`.
    fn find_symbol(&self, nm: &String) -> (r: Option<usize>)
        ensures
            match r {
                Some(i) => i < self.names@.len() && self.names@[i as int]@ == nm@,
                None => !self.has_symbol(nm@),
            },
    {
        let n = self.names.len();
        let mut i: usize = 0;
        while i < n
            invariant
                n == self.names@.len(),
                i <= n,
                forall|k: int| 0 <= k < i ==> self.names@[k]@ != nm@,
            decreases n - i,
        {
            if self.names[i] == *nm {
                return Some(i);
            }
            i += 1;
        }
        None
    }

    /// Whether some string of `list` equals `nm`.
    fn name_in_list(list: &Vec<String>, nm: &String) -> (b: bool)
        ensures
            b == seq_contains_string(list@, nm@),
    {
        let n = list.len();
        let mut k: usize = 0;
        while k < n
            invariant
                n == list@.len(),
                k <= n,
                forall|k2: int| 0 <= k2 < k ==> list@[k2]@ != nm@,
            decreases n - k,
        {
            if list[k] == *nm {
                return true;
            }
            k += 1;
        }
        false
    }

    /// Whether every subtask of method `i` is a currently-marked
    /// compound task.
    fn all_subtasks_marked(&self, i: usize, bits: &Vec<bool>) -> (r: bool)
        requires
            self.wf(),
            i < self.methods@.len(),
            bits@.len() == self.n_compound,
        ensures
            r <==> forall|j: int|
                0 <= j < self.methods@[i as int].subtasks@.len() ==> self.methods@[i as int].subtasks@[j]
                    < self.n_compound && bits@[#[trigger] self.methods@[i as int].subtasks@[j] as int],
    {
        let subs = &self.methods[i].subtasks;
        let len = subs.len();
        let mut j: usize = 0;
        while j < len
            invariant
                self.wf(),
                i < self.methods@.len(),
                bits@.len() == self.n_compound,
                subs@ == self.methods@[i as int].subtasks@,
                len == subs@.len(),
                j <= len,
                forall|j2: int|
                    0 <= j2 < j ==> subs@[j2] < self.n_compound && bits@[#[trigger] subs@[j2] as int],
            decreases len - j,
        {
            let s = subs[j];
            if s >= self.n_compound {
                return false;
            }
            if !bits[s] {
                return false;
            }
            j += 1;
        }
        true
    }

    /// The nullable fixpoint over node handles: bit `t` is set exactly
    /// when compound task `t` is nullable.
    fn nullable_bits(&self) -> (bits: Vec<bool>)
        requires
            self.wf(),
        ensures
            bits@.len() == self.n_compound,
            forall|t: int|
                0 <= t < self.n_compound ==> (bits@[t] <==> is_nullable(self.methods@, t)),
    {
        let nc = self.n_compound;
        let n_methods = self.methods.len();
        let mut bits: Vec<bool> = Vec::new();
        let mut i: usize = 0;
        while i < nc
            invariant
                bits@.len() == i,
                i <= nc,
                forall|k: int| 0 <= k < i ==> !bits@[k],
            decreases nc - i,
        {
            bits.push(false);
            i += 1;
        }
        proof {
            crate::graph::lemma_count_true_zero(bits@);
        }
        let mut marked: usize = 0;
        loop
            invariant
                self.wf(),
                nc == self.n_compound,
                n_methods == self.methods@.len(),
                bits@.len() == nc,
                marked == crate::graph::count_true(bits@),
                marked <= nc,
                forall|t: int| 0 <= t < nc && bits@[t] ==> is_nullable(self.methods@, t),
            decreases nc - marked,
        {
            let mut changed = false;
            let mut m: usize = 0;
            let ghost marked_at_start = marked;
            while m < n_methods
                invariant
                    self.wf(),
                    nc == self.n_compound,
                    n_methods == self.methods@.len(),
                    bits@.len() == nc,
                    marked == crate::graph::count_true(bits@),
                    marked <= nc,
                    m <= n_methods,
                    marked_at_start <= marked,
                    changed <==> marked_at_start < marked,
                    forall|t: int| 0 <= t < nc && bits@[t] ==> is_nullable(self.methods@, t),
                    !changed ==> forall|i2: int|
                        0 <= i2 < m && (forall|j: int|
                            0 <= j < (#[trigger] self.methods@[i2]).subtasks@.len()
                                ==> self.methods@[i2].subtasks@[j] < nc && bits@[self.methods@[i2].subtasks@[j] as int])
                            ==> bits@[self.methods@[i2].task as int],
                decreases n_methods - m,
            {
                let t = self.methods[m].task;
                if !bits[t] {
                    if self.all_subtasks_marked(m, &bits) {
                        let ghost bits_before = bits@;
                        bits[t] = true;
                        proof {
                            crate::graph::lemma_count_true_update(bits_before, t as int);
                            assert(bits@ =~= bits_before.update(t as int, true));
                            crate::graph::lemma_count_true_bound(bits@);
                            // the freshly marked task has a one-step derivation
                            // above a common fuel for its subtasks
                            let ms = self.methods@;
                            let subs = ms[m as int].subtasks@;
                            assert forall|j: int| 0 <= j < subs.len() implies is_nullable(
                                ms,
                                #[trigger] subs[j] as int,
                            ) by {
                                assert(bits_before[subs[j] as int]);
                            }
                            let fuel = lemma_common_fuel(ms, subs, subs.len() as int);
                            assert(nullable_upto(ms, t as int, fuel + 1));
                            assert forall|t2: int| 0 <= t2 < nc && bits@[t2] implies is_nullable(
                                ms,
                                t2,
                            ) by {
                                if t2 != t as int {
                                    assert(bits_before[t2]);
                                }
                            }
                        }
                        marked += 1;
                        changed = true;
                    }
                }
                m += 1;
            }
            if !changed {
                proof {
                    let ms = self.methods@;
                    assert forall|t: int| 0 <= t < nc implies (bits@[t] <==> is_nullable(ms, t)) by {
                        if is_nullable(ms, t) {
                            let fuel = choose|fuel: nat| nullable_upto(ms, t, fuel);
                            lemma_closed_bits_complete(ms, bits@, nc as int, t, fuel);
                        }
                    }
                }
                return bits;
            }
        }
    }

    /// The set of nullable compound-task symbols: every compound task
    /// that can decompose, through zero or more method applications,
    /// into an empty subtask list, each listed once.
    pub fn compute_nullables(&self) -> (r: Vec<String>)
        requires
            self.wf(),
        ensures
            forall|t: int|
                0 <= t < self.n_compound ==> (seq_contains_string(r@, self.names@[t]@)
                    <==> is_nullable(self.methods@, t)),
            self.lists_only_nullables(r@),
            forall|k1: int, k2: int| 0 <= k1 < k2 < r@.len() ==> r@[k1]@ != r@[k2]@,
    {
        let bits = self.nullable_bits();
        let nc = self.n_compound;
        let mut r: Vec<String> = Vec::new();
        let ghost mut idxs: Seq<int> = Seq::empty();
        let mut t: usize = 0;
        while t < nc
            invariant
                self.wf(),
                nc == self.n_compound,
                bits@.len() == nc,
                forall|t2: int| 0 <= t2 < nc ==> (bits@[t2] <==> is_nullable(self.methods@, t2)),
                t <= nc,
                idxs.len() == r@.len(),
                forall|k: int| 0 <= k < idxs.len() ==> 0 <= #[trigger] idxs[k] < t,
                forall|k: int| 0 <= k < idxs.len() ==> r@[k]@ == self.names@[#[trigger] idxs[k]]@,
                forall|k: int| 0 <= k < idxs.len() ==> bits@[#[trigger] idxs[k]],
                forall|k1: int, k2: int| 0 <= k1 < k2 < idxs.len() ==> idxs[k1] < idxs[k2],
                forall|t2: int| 0 <= t2 < t && bits@[t2] ==> idxs.contains(t2),
            decreases nc - t,
        {
            if bits[t] {
                let ghost idxs_before = idxs;
                r.push(self.names[t].clone());
                proof {
                    idxs = idxs.push(t as int);
                    assert(idxs[idxs.len() - 1] == t as int);
                    assert forall|t2: int| 0 <= t2 < t + 1 && bits@[t2] implies idxs.contains(
                        t2,
                    ) by {
                        if t2 < t {
                            assert(idxs_before.contains(t2));
                            let k = choose|k: int|
                                0 <= k < idxs_before.len() && idxs_before[k] == t2;
                            assert(idxs[k] == t2);
                        } else {
                            assert(idxs[idxs.len() - 1] == t2);
                        }
                    }
                }
            } else {
                proof {
                    assert forall|t2: int| 0 <= t2 < t + 1 && bits@[t2] implies idxs.contains(
                        t2,
                    ) by {
                        if t2 < t {
                            assert(idxs.contains(t2));
                        }
                    }
                }
            }
            t += 1;
        }
        proof {
            assert forall|t2: int| 0 <= t2 < nc implies (seq_contains_string(r@, self.names@[t2]@)
                <==> is_nullable(self.methods@, t2)) by {
                if is_nullable(self.methods@, t2) {
                    assert(bits@[t2]);
                    assert(idxs.contains(t2));
                    let k = choose|k: int| 0 <= k < idxs.len() && idxs[k] == t2;
                    assert(r@[k]@ == self.names@[t2]@);
                    assert(seq_contains_string(r@, self.names@[t2]@));
                }
                if seq_contains_string(r@, self.names@[t2]@) {
                    let k = choose|k: int| 0 <= k < r@.len() && #[trigger] r@[k]@ == self.names@[t2]@;
                    assert(r@[k]@ == self.names@[idxs[k]]@);
                    assert(idxs[k] == t2) by {
                        if idxs[k] < t2 {
                            assert(self.names@[idxs[k]]@ != self.names@[t2]@);
                        } else if idxs[k] > t2 {
                            assert(self.names@[t2]@ != self.names@[idxs[k]]@);
                        }
                    }
                    assert(bits@[t2]);
                }
            }
            assert forall|k: int| 0 <= k < r@.len() implies self.names_nullable_task(
                #[trigger] r@[k]@,
            ) by {
                assert(self.names@[idxs[k]]@ == r@[k]@ && bits@[idxs[k]]);
                assert(0 <= idxs[k] < self.n_compound);
                assert(is_nullable(self.methods@, idxs[k]));
            }
            assert(self.lists_only_nullables(r@));
            assert forall|k1: int, k2: int| 0 <= k1 < k2 < r@.len() implies r@[k1]@ != r@[k2]@ by {
                assert(idxs[k1] < idxs[k2]);
                assert(r@[k1]@ == self.names@[idxs[k1]]@ && r@[k2]@ == self.names@[idxs[k2]]@);
                assert(self.names@[idxs[k1]]@ != self.names@[idxs[k2]]@);
            }
        }
        r
    }

    /// All task and action symbols reachable from `symbol` by zero or
    /// more decomposition edges, `symbol` itself included, each listed
    /// once: the listed set holds `symbol`, is closed under edges, and
    /// lies within every edge-closed set that holds `symbol`.  A symbol
    /// naming no node yields the singleton of itself.
    #[verifier::rlimit(50)]
    pub fn reachable(&self, symbol: &String) -> (r: Vec<String>)
        requires
            self.wf(),
        ensures
            seq_contains_string(r@, symbol@),
            forall|k1: int, k2: int| 0 <= k1 < k2 < r@.len() ==> r@[k1]@ != r@[k2]@,
            self.has_symbol(symbol@) ==> self.entries_are_nodes(r@),
            self.has_symbol(symbol@) ==> self.closed_names(r@),
            self.has_symbol(symbol@) ==> self.below_every_closed_set(symbol@, r@),
            !self.has_symbol(symbol@) ==> r@.len() == 1 && r@[0]@ == symbol@,
            self.has_symbol(symbol@) && (forall|v: usize|
                !(#[trigger] self.graph.has_edge(self.symbol_index(symbol@) as usize, v)))
                ==> r@.len() == 1,
            self.has_symbol(symbol@) && (exists|v: usize|
                v != self.symbol_index(symbol@) as usize && #[trigger] self.graph.has_edge(
                    self.symbol_index(symbol@) as usize,
                    v,
                )) ==> r@.len() > 1,
    {
        let n = self.names.len();
        match self.find_symbol(symbol) {
            None => {
                let mut r: Vec<String> = Vec::new();
                r.push(symbol.clone());
                proof {
                    assert(r@[0]@ == symbol@);
                }
                r
            },
            Some(idx) => {
                proof {
                    assert(self.has_symbol(symbol@));
                }
                let vis = self.graph.reachable_set(idx);
                let mut r: Vec<String> = Vec::new();
                let ghost mut idxs: Seq<int> = Seq::empty();
                let mut v: usize = 0;
                while v < n
                    invariant
                        self.wf(),
                        n == self.names@.len(),
                        vis@.len() == n,
                        v <= n,
                        idxs.len() == r@.len(),
                        forall|k: int| 0 <= k < idxs.len() ==> 0 <= #[trigger] idxs[k] < v,
                        forall|k: int|
                            0 <= k < idxs.len() ==> r@[k]@ == self.names@[#[trigger] idxs[k]]@,
                        forall|k: int| 0 <= k < idxs.len() ==> vis@[#[trigger] idxs[k]],
                        forall|k1: int, k2: int| 0 <= k1 < k2 < idxs.len() ==> idxs[k1] < idxs[k2],
                        forall|v2: int| 0 <= v2 < v && vis@[v2] ==> idxs.contains(v2),
                    decreases n - v,
                {
                    if vis[v] {
                        let ghost idxs_before = idxs;
                        r.push(self.names[v].clone());
                        proof {
                            idxs = idxs.push(v as int);
                            assert(idxs[idxs.len() - 1] == v as int);
                            assert forall|v2: int| 0 <= v2 < v + 1 && vis@[v2] implies idxs.contains(
                                v2,
                            ) by {
                                if v2 < v {
                                    assert(idxs_before.contains(v2));
                                    let k = choose|k: int|
                                        0 <= k < idxs_before.len() && idxs_before[k] == v2;
                                    assert(idxs[k] == v2);
                                } else {
                                    assert(idxs[idxs.len() - 1] == v2);
                                }
                            }
                        }
                    } else {
                        proof {
                            assert forall|v2: int| 0 <= v2 < v + 1 && vis@[v2] implies idxs.contains(
                                v2,
                            ) by {
                                if v2 < v {
                                    assert(idxs.contains(v2));
                                }
                            }
                        }
                    }
                    v += 1;
                }
                proof {
                    self.lemma_collection_specs(symbol@, idx, vis@, r@, idxs);
                    let si = self.symbol_index(symbol@);
                    assert(0 <= si < self.names@.len() && self.names@[si]@ == symbol@);
                    assert(si == idx as int) by {
                        if si < idx as int {
                            assert(self.names@[si]@ != self.names@[idx as int]@);
                        } else if si > idx as int {
                            assert(self.names@[idx as int]@ != self.names@[si]@);
                        }
                    }
                    assert(si as usize == idx);
                    if forall|v2: usize|
                        !(#[trigger] self.graph.has_edge(self.symbol_index(symbol@) as usize, v2)) {
                        assert forall|v2: usize| !(#[trigger] self.graph.has_edge(idx, v2)) by {
                            assert(!self.graph.has_edge(self.symbol_index(symbol@) as usize, v2));
                        }
                    }
                    if exists|v2: usize|
                        v2 != self.symbol_index(symbol@) as usize && #[trigger] self.graph.has_edge(
                            self.symbol_index(symbol@) as usize,
                            v2,
                        ) {
                        let v2 = choose|v2: usize|
                            v2 != self.symbol_index(symbol@) as usize
                                && #[trigger] self.graph.has_edge(
                                self.symbol_index(symbol@) as usize,
                                v2,
                            );
                        assert(self.graph.has_edge(idx, v2));
                        assert(v2 < self.n()) by {
                            let jj = choose|jj: int|
                                0 <= jj < self.graph.edges@[idx as int]@.len()
                                    && self.graph.edges@[idx as int]@[jj] == v2;
                            assert((self.graph.edges@[idx as int]@[jj]) < self.graph.edges@.len());
                        }
                        assert(seq_contains_string(r@, self.names@[idx as int]@));
                        assert(seq_contains_string(r@, self.names@[v2 as int]@));
                        let k1 = choose|k1: int|
                            0 <= k1 < r@.len() && #[trigger] r@[k1]@ == self.names@[idx as int]@;
                        let k2 = choose|k2: int|
                            0 <= k2 < r@.len() && #[trigger] r@[k2]@ == self.names@[v2 as int]@;
                        assert(self.names@[idx as int]@ != self.names@[v2 as int]@) by {
                            if (idx as int) < v2 as int {
                            } else {
                            }
                        }
                        assert(k1 != k2);
                        assert(r@.len() > 1);
                    }
                }
                r
            },
        }
    }

    /// Relates the collected name list to the visited-node array of the
    /// underlying graph traversal, lifting the graph-level guarantees to
    /// name-level ones.
    #[verifier::rlimit(60)]
    proof fn lemma_collection_specs(
        self,
        nm: Seq<char>,
        idx: usize,
        vis: Seq<bool>,
        r: Seq<String>,
        idxs: Seq<int>,
    )
        requires
            self.wf(),
            self.names@.len() <= usize::MAX,
            idx < self.names@.len(),
            self.names@[idx as int]@ == nm,
            vis.len() == self.names@.len(),
            vis[idx as int],
            forall|u: usize, v: usize|
                u < self.n() && vis[u as int] && #[trigger] self.graph.has_edge(u, v)
                    ==> vis[v as int],
            forall|m: Set<usize>, v: usize|
                m.contains(idx) && #[trigger] self.graph.closed(m) && v < self.n()
                    && #[trigger] vis[v as int] ==> m.contains(v),
            idxs.len() == r.len(),
            forall|k: int| 0 <= k < idxs.len() ==> 0 <= #[trigger] idxs[k] < self.n(),
            forall|k: int| 0 <= k < idxs.len() ==> r[k]@ == self.names@[#[trigger] idxs[k]]@,
            forall|k: int| 0 <= k < idxs.len() ==> vis[#[trigger] idxs[k]],
            forall|k1: int, k2: int| 0 <= k1 < k2 < idxs.len() ==> idxs[k1] < idxs[k2],
            forall|v2: int| 0 <= v2 < self.n() && vis[v2] ==> idxs.contains(v2),
        ensures
            seq_contains_string(r, nm),
            forall|k1: int, k2: int| 0 <= k1 < k2 < r.len() ==> r[k1]@ != r[k2]@,
            self.entries_are_nodes(r),
            self.closed_names(r),
            self.below_every_closed_set(nm, r),
            (forall|v: usize| !(#[trigger] self.graph.has_edge(idx, v))) ==> r.len() == 1,
    {
        // the symbol itself is listed
        assert(idxs.contains(idx as int));
        let k0 = choose|k0: int| 0 <= k0 < idxs.len() && idxs[k0] == idx as int;
        assert(r[k0]@ == nm);
        assert(seq_contains_string(r, nm));
        // distinctness
        assert forall|k1: int, k2: int| 0 <= k1 < k2 < r.len() implies r[k1]@ != r[k2]@ by {
            assert(idxs[k1] < idxs[k2]);
            assert(self.names@[idxs[k1]]@ != self.names@[idxs[k2]]@);
        }
        // every entry names a node
        assert forall|k: int| 0 <= k < r.len() implies self.has_symbol(#[trigger] r[k]@) by {
            assert(self.names@[idxs[k]]@ == r[k]@);
        }
        // membership in r of a node name equals its visited bit
        assert forall|u: usize| u < self.n() implies (seq_contains_string(
            r,
            self.names@[u as int]@,
        ) <==> vis[u as int]) by {
            if vis[u as int] {
                assert(idxs.contains(u as int));
                let k = choose|k: int| 0 <= k < idxs.len() && idxs[k] == u as int;
                assert(r[k]@ == self.names@[u as int]@);
                assert(seq_contains_string(r, self.names@[u as int]@));
            }
            if seq_contains_string(r, self.names@[u as int]@) {
                let k = choose|k: int|
                    0 <= k < r.len() && #[trigger] r[k]@ == self.names@[u as int]@;
                assert(r[k]@ == self.names@[idxs[k]]@);
                assert(idxs[k] == u as int) by {
                    if idxs[k] < u as int {
                        assert(self.names@[idxs[k]]@ != self.names@[u as int]@);
                    } else if idxs[k] > u as int {
                        assert(self.names@[u as int]@ != self.names@[idxs[k]]@);
                    }
                }
                assert(vis[u as int]);
            }
        }
        // closedness under decomposition edges
        assert forall|u: usize, v: usize|
            u < self.n() && v < self.n() && seq_contains_string(r, self.names@[u as int]@)
                && #[trigger] self.graph.has_edge(u, v) implies seq_contains_string(
            r,
            self.names@[v as int]@,
        ) by {
            assert(vis[u as int]);
            assert(vis[v as int]);
        }
        // below every closed name set
        assert forall|s: Set<Seq<char>>, k: int|
            s.contains(nm) && #[trigger] self.name_closed(s) && 0 <= k < r.len() implies s.contains(
            #[trigger] r[k]@,
        ) by {
            let m = Set::new(|u: usize| u < self.n() && s.contains(self.names@[u as int]@));
            assert(m.contains(idx));
            assert(self.graph.closed(m)) by {
                assert forall|u: usize, v: usize|
                    m.contains(u) && #[trigger] self.graph.has_edge(u, v) implies m.contains(v) by {
                    assert(u < self.n() && s.contains(self.names@[u as int]@));
                    assert(v < self.n()) by {
                        let jj = choose|jj: int|
                            0 <= jj < self.graph.edges@[u as int]@.len()
                                && self.graph.edges@[u as int]@[jj] == v;
                        assert((self.graph.edges@[u as int]@[jj]) < self.graph.edges@.len());
                    }
                    assert(s.contains(self.names@[v as int]@));
                }
            }
            assert(0 <= idxs[k] && idxs[k] < self.n());
            let u = idxs[k] as usize;
            assert(vis[u as int]);
            assert(m.contains(u));
            assert(r[k]@ == self.names@[u as int]@);
            assert(s.contains(self.names@[u as int]@));
        }
        // a node with no outgoing edges reaches only itself
        if forall|v: usize| !(#[trigger] self.graph.has_edge(idx, v)) {
            let m = Set::new(|u: usize| u == idx);
            assert(m.contains(idx));
            assert(self.graph.closed(m)) by {
                assert forall|u: usize, v: usize|
                    m.contains(u) && #[trigger] self.graph.has_edge(u, v) implies m.contains(v) by {
                    assert(u == idx);
                    assert(!self.graph.has_edge(idx, v));
                }
            }
            assert forall|k: int| 0 <= k < idxs.len() implies idxs[k] == idx as int by {
                assert(0 <= idxs[k] && idxs[k] < self.n());
                let u = idxs[k] as usize;
                assert(vis[u as int]);
                assert(m.contains(u));
                assert(u == idx);
            }
            assert(r.len() >= 1);
            if r.len() > 1 {
                assert(idxs[0] < idxs[1]);
                assert(idxs[0] == idx as int && idxs[1] == idx as int);
            }
        }
    }


    /// Method `i`'s subtask at position `p` re-enters a cycle: the task
    /// that the method decomposes is reachable from that subtask.
    pub open spec fn rec_occ(self, i: int, p: int) -> bool {
        &&& 0 <= i < self.methods@.len()
        &&& 0 <= p < self.methods@[i].subtasks@.len()
        &&& self.graph.reaches(self.methods@[i].subtasks@[p], self.methods@[i].task)
    }

    /// Some subtask strictly before position `p` of method `i` is nullable.
    pub open spec fn occ_nullable_before(self, i: int, p: int) -> bool {
        exists|q: int|
            0 <= q < p && is_nullable(
                self.methods@,
                (#[trigger] self.methods@[i].subtasks@[q]) as int,
            )
    }

    /// Some subtask strictly after position `p` of method `i` is nullable.
    pub open spec fn occ_nullable_after(self, i: int, p: int) -> bool {
        exists|q: int|
            p < q < self.methods@[i].subtasks@.len() && is_nullable(
                self.methods@,
                (#[trigger] self.methods@[i].subtasks@[q]) as int,
            )
    }

    /// Every subtask strictly before position `p` of method `i` is nullable.
    pub open spec fn occ_all_nullable_before(self, i: int, p: int) -> bool {
        forall|q: int|
            0 <= q < p ==> is_nullable(
                self.methods@,
                (#[trigger] self.methods@[i].subtasks@[q]) as int,
            )
    }

    /// How strict a recursion shape the occurrence at `(i, p)` shows:
    /// 0 none, 1 plain recursion, 2 a method that is only the recursive
    /// call, 3 a nullable-only prefix before the call, 4 nullable
    /// subtasks on both sides of the call.
    pub open spec fn occ_rank(self, i: int, p: int) -> int {
        if !self.rec_occ(i, p) {
            0
        } else if self.occ_nullable_before(i, p) && self.occ_nullable_after(i, p) {
            4
        } else if self.occ_all_nullable_before(i, p) && self.methods@[i].subtasks@.len() > 1 {
            3
        } else if self.methods@[i].subtasks@.len() == 1 {
            2
        } else {
            1
        }
    }

    /// Some subtask occurrence has exactly this rank.
    pub open spec fn has_occ_rank(self, rank: int) -> bool {
        exists|i: int, p: int|
            #![trigger self.occ_rank(i, p)]
            0 <= i < self.methods@.len() && 0 <= p < self.methods@[i].subtasks@.len()
                && self.occ_rank(i, p) == rank
    }

    /// The recursion shape of the whole domain: the strictest shape any
    /// cycle-re-entering subtask occurrence shows, or non-recursive when
    /// no occurrence re-enters a cycle.
    pub open spec fn classification(self) -> RecursionType {
        if self.has_occ_rank(4) {
            RecursionType::GrowAndShrinkRecursion
        } else if self.has_occ_rank(3) {
            RecursionType::GrowingEmptyPrefixRecursion
        } else if self.has_occ_rank(2) {
            RecursionType::EmptyRecursion
        } else if self.has_occ_rank(1) {
            RecursionType::Recursive
        } else {
            RecursionType::NonRecursive
        }
    }

    /// The per-node nullable bits, recovered from a nullable-name list.
    fn all_node_null_bits(&self, nullables: &Vec<String>) -> (bits: Vec<bool>)
        requires
            self.wf(),
            forall|t: int|
                0 <= t < self.n_compound ==> (seq_contains_string(nullables@, self.names@[t]@)
                    <==> is_nullable(self.methods@, t)),
            self.lists_only_nullables(nullables@),
        ensures
            bits@.len() == self.names@.len(),
            forall|s: int| 0 <= s < bits@.len() ==> (bits@[s] <==> is_nullable(self.methods@, s)),
    {
        let n = self.names.len();
        let mut bits: Vec<bool> = Vec::new();
        let mut s: usize = 0;
        while s < n
            invariant
                self.wf(),
                forall|t: int|
                    0 <= t < self.n_compound ==> (seq_contains_string(nullables@, self.names@[t]@)
                        <==> is_nullable(self.methods@, t)),
                self.lists_only_nullables(nullables@),
                n == self.names@.len(),
                s <= n,
                bits@.len() == s,
                forall|s2: int| 0 <= s2 < s ==> (bits@[s2] <==> is_nullable(self.methods@, s2)),
            decreases n - s,
        {
            let b = Self::name_in_list(nullables, &self.names[s]);
            proof {
                if s < self.n_compound {
                    assert(b <==> is_nullable(self.methods@, s as int));
                } else {
                    if b {
                        let k = choose|k: int|
                            0 <= k < nullables@.len() && #[trigger] nullables@[k]@
                                == self.names@[s as int]@;
                        assert(self.names_nullable_task(nullables@[k]@));
                        let t = choose|t: int|
                            0 <= t < self.n_compound && #[trigger] self.names@[t]@
                                == nullables@[k]@ && is_nullable(self.methods@, t);
                        assert(self.names@[t]@ == self.names@[s as int]@);
                        assert(t < s as int);
                        assert(self.names@[t]@ != self.names@[s as int]@);
                    }
                    if is_nullable(self.methods@, s as int) {
                        let i = lemma_nullable_has_method(self.methods@, s as int);
                        assert(self.methods@[i].task < self.n_compound);
                    }
                    assert(!b && !is_nullable(self.methods@, s as int));
                }
            }
            bits.push(b);
            s += 1;
        }
        bits
    }

    /// Whether some subtask of method `i` strictly before `p` is nullable.
    fn scan_nullable_before(&self, i: usize, p: usize, bits: &Vec<bool>) -> (r: bool)
        requires
            self.wf(),
            i < self.methods@.len(),
            p <= self.methods@[i as int].subtasks@.len(),
            bits@.len() == self.names@.len(),
            forall|s: int| 0 <= s < bits@.len() ==> (bits@[s] <==> is_nullable(self.methods@, s)),
        ensures
            r == self.occ_nullable_before(i as int, p as int),
    {
        let subs = &self.methods[i].subtasks;
        let mut q: usize = 0;
        while q < p
            invariant
                self.wf(),
                i < self.methods@.len(),
                subs@ == self.methods@[i as int].subtasks@,
                p <= subs@.len(),
                bits@.len() == self.names@.len(),
                forall|s: int|
                    0 <= s < bits@.len() ==> (bits@[s] <==> is_nullable(self.methods@, s)),
                q <= p,
                forall|q2: int|
                    0 <= q2 < q ==> !is_nullable(self.methods@, (#[trigger] subs@[q2]) as int),
            decreases p - q,
        {
            let st = subs[q];
            if bits[st] {
                proof {
                    assert(is_nullable(self.methods@, subs@[q as int] as int));
                }
                return true;
            }
            q += 1;
        }
        false
    }

    /// Whether some subtask of method `i` strictly after `p` is nullable.
    fn scan_nullable_after(&self, i: usize, p: usize, bits: &Vec<bool>) -> (r: bool)
        requires
            self.wf(),
            i < self.methods@.len(),
            p < self.methods@[i as int].subtasks@.len(),
            bits@.len() == self.names@.len(),
            forall|s: int| 0 <= s < bits@.len() ==> (bits@[s] <==> is_nullable(self.methods@, s)),
        ensures
            r == self.occ_nullable_after(i as int, p as int),
    {
        let subs = &self.methods[i].subtasks;
        let len = subs.len();
        let mut q: usize = p + 1;
        while q < len
            invariant
                self.wf(),
                i < self.methods@.len(),
                subs@ == self.methods@[i as int].subtasks@,
                p < subs@.len(),
                len == subs@.len(),
                bits@.len() == self.names@.len(),
                forall|s: int|
                    0 <= s < bits@.len() ==> (bits@[s] <==> is_nullable(self.methods@, s)),
                p < q <= len,
                forall|q2: int|
                    p < q2 < q ==> !is_nullable(self.methods@, (#[trigger] subs@[q2]) as int),
            decreases len - q,
        {
            let st = subs[q];
            if bits[st] {
                proof {
                    assert(is_nullable(self.methods@, subs@[q as int] as int));
                }
                return true;
            }
            q += 1;
        }
        false
    }

    /// Whether every subtask of method `i` strictly before `p` is nullable.
    fn scan_all_nullable_before(&self, i: usize, p: usize, bits: &Vec<bool>) -> (r: bool)
        requires
            self.wf(),
            i < self.methods@.len(),
            p <= self.methods@[i as int].subtasks@.len(),
            bits@.len() == self.names@.len(),
            forall|s: int| 0 <= s < bits@.len() ==> (bits@[s] <==> is_nullable(self.methods@, s)),
        ensures
            r == self.occ_all_nullable_before(i as int, p as int),
    {
        let subs = &self.methods[i].subtasks;
        let mut q: usize = 0;
        while q < p
            invariant
                self.wf(),
                i < self.methods@.len(),
                subs@ == self.methods@[i as int].subtasks@,
                p <= subs@.len(),
                bits@.len() == self.names@.len(),
                forall|s: int|
                    0 <= s < bits@.len() ==> (bits@[s] <==> is_nullable(self.methods@, s)),
                q <= p,
                forall|q2: int|
                    0 <= q2 < q ==> is_nullable(self.methods@, (#[trigger] subs@[q2]) as int),
            decreases p - q,
        {
            let st = subs[q];
            if !bits[st] {
                proof {
                    assert(!is_nullable(self.methods@, subs@[q as int] as int));
                }
                return false;
            }
            q += 1;
        }
        true
    }

    /// The recursion category of the domain's task hierarchy, judged
    /// against the given nullable-task set (as `compute_nullables`
    /// returns it): the strictest shape among all subtask occurrences
    /// that re-enter a cycle, or `NonRecursive` when none does.
    #[verifier::rlimit(60)]
    pub fn get_recursion_type(&self, nullables: &Vec<String>) -> (r: RecursionType)
        requires
            self.wf(),
            forall|t: int|
                0 <= t < self.n_compound ==> (seq_contains_string(nullables@, self.names@[t]@)
                    <==> is_nullable(self.methods@, t)),
            self.lists_only_nullables(nullables@),
        ensures
            r == self.classification(),
    {
        let bits = self.all_node_null_bits(nullables);
        let n_methods = self.methods.len();
        let mut best: u8 = 0;
        let mut i: usize = 0;
        while i < n_methods
            invariant
                self.wf(),
                bits@.len() == self.names@.len(),
                forall|s: int|
                    0 <= s < bits@.len() ==> (bits@[s] <==> is_nullable(self.methods@, s)),
                n_methods == self.methods@.len(),
                i <= n_methods,
                best <= 4,
                best > 0 ==> self.has_occ_rank(best as int),
                forall|i2: int, p2: int|
                    0 <= i2 < i && 0 <= p2 < self.methods@[i2].subtasks@.len()
                        ==> #[trigger] self.occ_rank(i2, p2) <= best,
            decreases n_methods - i,
        {
            let subs_len = self.methods[i].subtasks.len();
            let task = self.methods[i].task;
            let mut p: usize = 0;
            while p < subs_len
                invariant
                    self.wf(),
                    bits@.len() == self.names@.len(),
                    forall|s: int|
                        0 <= s < bits@.len() ==> (bits@[s] <==> is_nullable(self.methods@, s)),
                    n_methods == self.methods@.len(),
                    i < n_methods,
                    subs_len == self.methods@[i as int].subtasks@.len(),
                    task == self.methods@[i as int].task,
                    p <= subs_len,
                    best <= 4,
                    best > 0 ==> self.has_occ_rank(best as int),
                    forall|i2: int, p2: int|
                        0 <= i2 < i && 0 <= p2 < self.methods@[i2].subtasks@.len()
                            ==> #[trigger] self.occ_rank(i2, p2) <= best,
                    forall|p2: int|
                        0 <= p2 < p ==> #[trigger] self.occ_rank(i as int, p2) <= best,
                decreases subs_len - p,
            {
                let st = self.methods[i].subtasks[p];
                let is_rec = self.graph.reaches_query(st, task);
                if is_rec {
                    let rank: u8 = if self.scan_nullable_before(i, p, &bits)
                        && self.scan_nullable_after(i, p, &bits) {
                        4
                    } else if self.scan_all_nullable_before(i, p, &bits) && subs_len > 1 {
                        3
                    } else if subs_len == 1 {
                        2
                    } else {
                        1
                    };
                    proof {
                        assert(self.rec_occ(i as int, p as int));
                        assert(rank as int == self.occ_rank(i as int, p as int));
                    }
                    if rank > best {
                        best = rank;
                        proof {
                            assert(self.has_occ_rank(best as int));
                        }
                    }
                } else {
                    proof {
                        assert(self.occ_rank(i as int, p as int) == 0);
                    }
                }
                p += 1;
            }
            i += 1;
        }
        proof {
            assert forall|rank: int| best < rank <= 4 implies !self.has_occ_rank(rank) by {
                if self.has_occ_rank(rank) {
                    let (i2, p2) = choose|i2: int, p2: int|
                        #![trigger self.occ_rank(i2, p2)]
                        0 <= i2 < self.methods@.len() && 0 <= p2
                            < self.methods@[i2].subtasks@.len() && self.occ_rank(i2, p2) == rank;
                    assert(self.occ_rank(i2, p2) <= best);
                }
            }
        }
        if best == 4 {
            RecursionType::GrowAndShrinkRecursion
        } else if best == 3 {
            RecursionType::GrowingEmptyPrefixRecursion
        } else if best == 2 {
            RecursionType::EmptyRecursion
        } else if best == 1 {
            RecursionType::Recursive
        } else {
            RecursionType::NonRecursive
        }
    }

}


/// The `i`-th node symbol a domain defines: its compound tasks in
/// declaration order, then its actions.
pub open spec fn domain_symbol(d: DomainAST, i: int) -> Seq<char> {
    if i < d.compound_tasks@.len() {
        d.compound_tasks@[i].name@
    } else {
        d.actions@[i - d.compound_tasks@.len()].name@
    }
}

/// How many node symbols a domain defines.
pub open spec fn domain_symbol_count(d: DomainAST) -> int {
    d.compound_tasks@.len() + d.actions@.len() as int
}

/// `nm` names a declared compound task.
pub open spec fn ast_has_task(d: DomainAST, nm: Seq<char>) -> bool {
    exists|t: int|
        0 <= t < d.compound_tasks@.len() && #[trigger] d.compound_tasks@[t].name@ == nm
}

/// `nm` names a declared compound task or action.
pub open spec fn ast_has_symbol(d: DomainAST, nm: Seq<char>) -> bool {
    exists|i: int| 0 <= i < domain_symbol_count(d) && #[trigger] domain_symbol(d, i) == nm
}

/// What the graph builder assumes of a domain: it passed validation, so
/// names are unique within each category, every method decomposes a
/// declared compound task, and every subtask invokes a declared symbol.
/// A task and an action may share a name; they then denote one node.
pub open spec fn domain_tdg_ready(d: DomainAST) -> bool {
    &&& forall|i: int, j: int|
        #![trigger d.compound_tasks@[i], d.compound_tasks@[j]]
        0 <= i < j < d.compound_tasks@.len() ==> d.compound_tasks@[i].name@
            != d.compound_tasks@[j].name@
    &&& forall|i: int, j: int|
        #![trigger d.actions@[i], d.actions@[j]]
        0 <= i < j < d.actions@.len() ==> d.actions@[i].name@ != d.actions@[j].name@
    &&& forall|m: int|
        0 <= m < d.methods@.len() ==> ast_has_task(d, (#[trigger] d.methods@[m]).task_name@)
    &&& forall|m: int, j: int|
        0 <= m < d.methods@.len() && 0 <= j < d.methods@[m].tn.subtasks@.len() ==> ast_has_symbol(
            d,
            (#[trigger] d.methods@[m].tn.subtasks@[j]).task_symbol@,
        )
}

/// `nm` occurs in the name table.
pub open spec fn name_table_has(names: Seq<String>, nm: Seq<char>) -> bool {
    exists|u: int| 0 <= u < names.len() && (#[trigger] names[u])@ == nm
}

/// Scans a name table.
fn find_name(names: &Vec<String>, nm: &String) -> (r: Option<usize>)
    ensures
        match r {
            Some(i) => i < names@.len() && names@[i as int]@ == nm@,
            None => forall|k: int| 0 <= k < names@.len() ==> names@[k]@ != nm@,
        },
{
    let n = names.len();
    let mut i: usize = 0;
    while i < n
        invariant
            n == names@.len(),
            i <= n,
            forall|k: int| 0 <= k < i ==> names@[k]@ != nm@,
        decreases n - i,
    {
        if names[i] == *nm {
            return Some(i);
        }
        i += 1;
    }
    None
}


impl TDG {
    /// Builds the decomposition graph of a domain that passed
    /// validation: one node per distinct compound-task or action
    /// symbol (a task and an action sharing a name denote one node,
    /// the symbols forming a set), one edge per subtask occurrence in
    /// a method, and the method table reduced to node handles.
    #[verifier::rlimit(100)]
    pub fn new(d: &DomainAST) -> (r: TDG)
        requires
            domain_tdg_ready(*d),
        ensures
            r.wf(),
            r.n_compound == d.compound_tasks@.len(),
            r.n_compound <= r.names@.len(),
            forall|i: int|
                0 <= i < d.compound_tasks@.len() ==> r.names@[i]@ == (
                #[trigger] d.compound_tasks@[i]).name@,
            forall|a: int|
                0 <= a < d.actions@.len() ==> name_table_has(
                    r.names@,
                    (#[trigger] d.actions@[a]).name@,
                ),
            forall|u: int| 0 <= u < r.names@.len() ==> ast_has_symbol(*d, (#[trigger] r.names@[u])@),
            r.methods@.len() == d.methods@.len(),
            forall|m: int|
                0 <= m < r.methods@.len() ==> r.names@[(#[trigger] r.methods@[m]).task as int]@
                    == d.methods@[m].task_name@,
            forall|m: int|
                0 <= m < r.methods@.len() ==> (#[trigger] r.methods@[m]).subtasks@.len()
                    == d.methods@[m].tn.subtasks@.len(),
            forall|m: int, j: int|
                0 <= m < r.methods@.len() && 0 <= j < r.methods@[m].subtasks@.len()
                    ==> r.names@[(#[trigger] r.methods@[m].subtasks@[j]) as int]@
                    == d.methods@[m].tn.subtasks@[j].task_symbol@,
    {
        let nc = d.compound_tasks.len();
        let na = d.actions.len();
        // the node name table: every compound task, then each action
        // name not already present
        let mut names: Vec<String> = Vec::new();
        let mut i: usize = 0;
        while i < nc
            invariant
                domain_tdg_ready(*d),
                nc == d.compound_tasks@.len(),
                i <= nc,
                names@.len() == i,
                forall|k: int| 0 <= k < i ==> names@[k]@ == d.compound_tasks@[k].name@,
            decreases nc - i,
        {
            names.push(d.compound_tasks[i].name.clone());
            i += 1;
        }
        proof {
            assert forall|k1: int, k2: int|
                0 <= k1 < k2 < names@.len() implies names@[k1]@ != names@[k2]@ by {
                assert(d.compound_tasks@[k1].name@ != d.compound_tasks@[k2].name@);
            }
        }
        let mut a: usize = 0;
        let ghost mut src_action: Seq<int> = Seq::empty();
        while a < na
            invariant
                domain_tdg_ready(*d),
                nc == d.compound_tasks@.len(),
                na == d.actions@.len(),
                a <= na,
                nc <= names@.len(),
                src_action.len() + nc == names@.len(),
                forall|k: int|
                    0 <= k < src_action.len() ==> 0 <= #[trigger] src_action[k]
                        < d.actions@.len() && names@[nc + k]@ == d.actions@[src_action[k]].name@,
                forall|k: int| 0 <= k < nc ==> names@[k]@ == d.compound_tasks@[k].name@,
                forall|k1: int, k2: int| 0 <= k1 < k2 < names@.len() ==> names@[k1]@ != names@[k2]@,
                forall|a2: int|
                    0 <= a2 < a ==> name_table_has(names@, (#[trigger] d.actions@[a2]).name@),
            decreases na - a,
        {
            let ghost names_before = names@;
            match find_name(&names, &d.actions[a].name) {
                Some(_) => {
                    proof {
                        assert(name_table_has(names@, d.actions@[a as int].name@));
                    }
                },
                None => {
                    names.push(d.actions[a].name.clone());
                    proof {
                        src_action = src_action.push(a as int);
                        assert(names@[names@.len() - 1]@ == d.actions@[a as int].name@);
                        assert(name_table_has(names@, d.actions@[a as int].name@));
                        assert forall|k: int| 0 <= k < src_action.len() implies 0 <= (
                        #[trigger] src_action[k]) < d.actions@.len() && names@[nc + k]@
                            == d.actions@[src_action[k]].name@ by {
                            if k < src_action.len() - 1 {
                                assert(names@[nc + k]@ == names_before[nc + k]@);
                            } else {
                                assert(src_action[k] == a as int);
                                assert(names@[nc + k]@ == d.actions@[a as int].name@);
                            }
                        }
                        assert forall|k1: int, k2: int|
                            0 <= k1 < k2 < names@.len() implies names@[k1]@ != names@[k2]@ by {
                            if k2 < names_before.len() {
                                assert(names@[k1]@ == names_before[k1]@ && names@[k2]@
                                    == names_before[k2]@);
                            } else {
                                assert(names@[k2]@ == d.actions@[a as int].name@);
                                if k1 < names_before.len() {
                                    assert(names@[k1]@ == names_before[k1]@);
                                    assert(names_before[k1]@ != d.actions@[a as int].name@);
                                }
                            }
                        }
                    }
                },
            }
            proof {
                assert forall|a2: int| 0 <= a2 < a + 1 implies name_table_has(
                    names@,
                    (#[trigger] d.actions@[a2]).name@,
                ) by {
                    if a2 < a {
                        let u = choose|u: int|
                            0 <= u < names_before.len() && (#[trigger] names_before[u])@
                                == d.actions@[a2].name@;
                        assert(names@[u]@ == d.actions@[a2].name@);
                    }
                }
            }
            a += 1;
        }
        let n = names.len();
        // the method table over node handles
        let n_methods = d.methods.len();
        let mut methods: Vec<TDGMethod> = Vec::new();
        let mut m: usize = 0;
        while m < n_methods
            invariant
                domain_tdg_ready(*d),
                nc == d.compound_tasks@.len(),
                na == d.actions@.len(),
                n == names@.len(),
                nc <= n,
                forall|k: int| 0 <= k < nc ==> names@[k]@ == d.compound_tasks@[k].name@,
                forall|k1: int, k2: int| 0 <= k1 < k2 < names@.len() ==> names@[k1]@ != names@[k2]@,
                forall|a2: int|
                    0 <= a2 < d.actions@.len() ==> name_table_has(
                        names@,
                        (#[trigger] d.actions@[a2]).name@,
                    ),
                n_methods == d.methods@.len(),
                m <= n_methods,
                methods@.len() == m,
                forall|m2: int|
                    0 <= m2 < m ==> (#[trigger] methods@[m2]).task < nc && names@[methods@[m2].task as int]@
                        == d.methods@[m2].task_name@,
                forall|m2: int|
                    0 <= m2 < m ==> (#[trigger] methods@[m2]).subtasks@.len()
                        == d.methods@[m2].tn.subtasks@.len(),
                forall|m2: int, j: int|
                    0 <= m2 < m && 0 <= j < methods@[m2].subtasks@.len() ==> (
                    #[trigger] methods@[m2].subtasks@[j]) < n && names@[methods@[m2].subtasks@[j] as int]@
                        == d.methods@[m2].tn.subtasks@[j].task_symbol@,
            decreases n_methods - m,
        {
            let task_idx: usize = match find_name(&names, &d.methods[m].task_name) {
                Some(ti) => ti,
                None => {
                    proof {
                        assert(ast_has_task(*d, d.methods@[m as int].task_name@));
                        let t = choose|t: int|
                            0 <= t < d.compound_tasks@.len() && #[trigger] d.compound_tasks@[t].name@
                                == d.methods@[m as int].task_name@;
                        assert(names@[t]@ == d.methods@[m as int].task_name@);
                        assert(false);
                    }
                    0
                },
            };
            proof {
                assert(task_idx < nc) by {
                    let t = choose|t: int|
                        0 <= t < d.compound_tasks@.len() && #[trigger] d.compound_tasks@[t].name@
                            == d.methods@[m as int].task_name@;
                    assert(names@[t]@ == d.methods@[m as int].task_name@);
                    if task_idx as int != t {
                        if t < task_idx as int {
                            assert(names@[t]@ != names@[task_idx as int]@);
                        } else {
                            assert(names@[task_idx as int]@ != names@[t]@);
                        }
                    }
                }
            }
            let n_subs = d.methods[m].tn.subtasks.len();
            let mut subtasks: Vec<usize> = Vec::new();
            let mut j: usize = 0;
            while j < n_subs
                invariant
                    domain_tdg_ready(*d),
                    nc == d.compound_tasks@.len(),
                    na == d.actions@.len(),
                    n == names@.len(),
                    nc <= n,
                    forall|k: int| 0 <= k < nc ==> names@[k]@ == d.compound_tasks@[k].name@,
                    forall|a2: int|
                        0 <= a2 < d.actions@.len() ==> name_table_has(
                            names@,
                            (#[trigger] d.actions@[a2]).name@,
                        ),
                    n_methods == d.methods@.len(),
                    m < n_methods,
                    n_subs == d.methods@[m as int].tn.subtasks@.len(),
                    j <= n_subs,
                    subtasks@.len() == j,
                    forall|j2: int|
                        0 <= j2 < j ==> (#[trigger] subtasks@[j2]) < n && names@[subtasks@[j2] as int]@
                            == d.methods@[m as int].tn.subtasks@[j2].task_symbol@,
                decreases n_subs - j,
            {
                let sub_idx: usize = match find_name(
                    &names,
                    &d.methods[m].tn.subtasks[j].task_symbol,
                ) {
                    Some(si) => si,
                    None => {
                        proof {
                            let sym = d.methods@[m as int].tn.subtasks@[j as int].task_symbol@;
                            assert(ast_has_symbol(*d, sym));
                            let t = choose|t: int|
                                0 <= t < domain_symbol_count(*d) && #[trigger] domain_symbol(*d, t)
                                    == sym;
                            let nt = d.compound_tasks@.len() as int;
                            if t < nt {
                                assert(d.compound_tasks@[t].name@ == sym);
                                assert(names@[t]@ == sym);
                            } else {
                                assert(d.actions@[t - nt].name@ == sym);
                                assert(name_table_has(names@, sym));
                                let u = choose|u: int|
                                    0 <= u < names@.len() && (#[trigger] names@[u])@ == sym;
                            }
                            assert(false);
                        }
                        0
                    },
                };
                subtasks.push(sub_idx);
                j += 1;
            }
            methods.push(TDGMethod { task: task_idx, subtasks });
            m += 1;
        }
        // the adjacency rows: all subtask handles of all methods of each task
        let mut edges: Vec<Vec<usize>> = Vec::new();
        let mut u: usize = 0;
        while u < n
            invariant
                n_methods == methods@.len(),
                u <= n,
                edges@.len() == u,
                adjacency_sound(methods@, edges@, u as int),
                adjacency_complete(methods@, edges@, u as int),
            decreases n - u,
        {
            let row = build_row(&methods, u);
            let ghost row_view = row@;
            let ghost edges_before = edges@;
            edges.push(row);
            proof {
                assert(edges@[u as int]@ == row_view);
                assert forall|u2: usize, v: usize|
                    u2 < u + 1 && #[trigger] edges@[u2 as int]@.contains(v) implies method_has_subtask(
                    methods@,
                    u2,
                    v,
                ) by {
                    if u2 == u {
                        assert(row_view.contains(v));
                    } else {
                        assert(edges@[u2 as int]@ == edges_before[u2 as int]@);
                        assert(edges_before[u2 as int]@.contains(v));
                    }
                }
                assert(adjacency_sound(methods@, edges@, u as int + 1));
                assert forall|m2: int, j2: int|
                    0 <= m2 < methods@.len() && methods@[m2].task < u + 1 && 0 <= j2
                        < methods@[m2].subtasks@.len() implies edges@[methods@[m2].task as int]@.contains(
                    #[trigger] methods@[m2].subtasks@[j2],
                ) by {
                    if methods@[m2].task == u as int {
                        assert(row_complete(methods@, row_view, u));
                        assert(row_view.contains(methods@[m2].subtasks@[j2]));
                        assert(edges@[u as int]@.contains(methods@[m2].subtasks@[j2]));
                    } else {
                        assert(edges_before[methods@[m2].task as int]@.contains(
                            methods@[m2].subtasks@[j2],
                        ));
                        assert(edges@[methods@[m2].task as int]@ == edges_before[methods@[m2].task as int]@);
                    }
                }
                assert(adjacency_complete(methods@, edges@, u as int + 1));
            }
            u += 1;
        }
        let graph = Digraph { edges };
        let r = TDG { names, n_compound: nc, graph, methods };
        proof {
            assert(r.graph.wf()) by {
                assert forall|uu: int, jj: int|
                    0 <= uu < r.graph.edges@.len() && 0 <= jj < r.graph.edges@[uu]@.len() implies (
                r.graph.edges@[uu]@[jj]) < r.graph.edges@.len() by {
                    assert(r.graph.edges@[uu]@.contains(r.graph.edges@[uu]@[jj]));
                    assert(method_has_subtask(methods@, uu as usize, r.graph.edges@[uu]@[jj]));
                    let (m3, j3) = choose|m3: int, j3: int|
                        0 <= m3 < methods@.len() && methods@[m3].task == uu as usize && 0 <= j3
                            < methods@[m3].subtasks@.len() && (#[trigger] methods@[m3].subtasks@[j3])
                            == r.graph.edges@[uu]@[jj];
                }
            }
            assert forall|u2: int| 0 <= u2 < r.names@.len() implies ast_has_symbol(
                *d,
                (#[trigger] r.names@[u2])@,
            ) by {
                let nt = d.compound_tasks@.len() as int;
                if u2 < nt {
                    assert(r.names@[u2]@ == d.compound_tasks@[u2].name@);
                    assert(domain_symbol(*d, u2) == r.names@[u2]@);
                } else {
                    let a2 = src_action[u2 - nt];
                    assert(r.names@[u2]@ == d.actions@[a2].name@);
                    assert(domain_symbol(*d, nt + a2) == r.names@[u2]@);
                }
                assert(ast_has_symbol(*d, r.names@[u2]@));
            }
            assert forall|uu: usize, vv: usize| #[trigger]
                r.graph.has_edge(uu, vv) == method_has_subtask(r.methods@, uu, vv) by {
                if r.graph.has_edge(uu, vv) {
                    assert(edges@[uu as int]@.contains(vv));
                    assert(method_has_subtask(methods@, uu, vv));
                }
                if method_has_subtask(r.methods@, uu, vv) {
                    let (m3, j3) = choose|m3: int, j3: int|
                        0 <= m3 < methods@.len() && methods@[m3].task == uu && 0 <= j3
                            < methods@[m3].subtasks@.len() && (#[trigger] methods@[m3].subtasks@[j3])
                            == vv;
                    assert(methods@[m3].task < n);
                    assert(edges@[methods@[m3].task as int]@.contains(methods@[m3].subtasks@[j3]));
                    assert(r.graph.has_edge(uu, vv));
                }
            }
            assert(r.wf());
        }
        r
    }
}

/// Every entry of `row` is a subtask handle of some method whose task
/// is `u`.
spec fn row_sound(ms: Seq<TDGMethod>, row: Seq<usize>, u: usize) -> bool {
    forall|v: usize| #[trigger] row.contains(v) ==> method_has_subtask(ms, u, v)
}

/// Every subtask handle of every method before `m2` whose task is `u`
/// appears in `row`.
spec fn row_complete_upto(ms: Seq<TDGMethod>, row: Seq<usize>, u: usize, m2: int) -> bool {
    forall|m3: int, j3: int|
        0 <= m3 < m2 && ms[m3].task == u && 0 <= j3 < ms[m3].subtasks@.len() ==> row.contains(
            #[trigger] ms[m3].subtasks@[j3],
        )
}

/// Every subtask handle of every method whose task is `u` appears in
/// `row`.
spec fn row_complete(ms: Seq<TDGMethod>, row: Seq<usize>, u: usize) -> bool {
    row_complete_upto(ms, row, u, ms.len() as int)
}

/// The first `j3` subtask handles of method `m2` appear in `row`.
spec fn row_has_prefix(ms: Seq<TDGMethod>, row: Seq<usize>, m2: int, j3: int) -> bool {
    forall|j4: int|
        0 <= j4 < j3 ==> row.contains(#[trigger] ms[m2].subtasks@[j4])
}

/// For the first `u` nodes, every adjacency entry traces back to a
/// method subtask.
spec fn adjacency_sound(ms: Seq<TDGMethod>, edges: Seq<Vec<usize>>, u: int) -> bool {
    forall|u2: usize, v: usize|
        u2 < u && #[trigger] edges[u2 as int]@.contains(v) ==> method_has_subtask(ms, u2, v)
}

/// For methods of the first `u` nodes, every subtask occurrence has an
/// adjacency entry.
spec fn adjacency_complete(ms: Seq<TDGMethod>, edges: Seq<Vec<usize>>, u: int) -> bool {
    forall|m2: int, j2: int|
        0 <= m2 < ms.len() && ms[m2].task < u && 0 <= j2 < ms[m2].subtasks@.len()
            ==> edges[ms[m2].task as int]@.contains(#[trigger] ms[m2].subtasks@[j2])
}

/// The adjacency row of node `u`: every subtask handle of every method
/// whose task is `u`, in method order.
fn build_row(methods: &Vec<TDGMethod>, u: usize) -> (row: Vec<usize>)
    ensures
        row_sound(methods@, row@, u),
        row_complete(methods@, row@, u),
{
    let n_methods = methods.len();
    let mut row: Vec<usize> = Vec::new();
    proof {
        assert forall|v: usize| #[trigger] row@.contains(v) implies method_has_subtask(
            methods@,
            u,
            v,
        ) by {
            let k = choose|k: int| 0 <= k < row@.len() && row@[k] == v;
        }
    }
    let mut m2: usize = 0;
    while m2 < n_methods
        invariant
            n_methods == methods@.len(),
            m2 <= n_methods,
            row_sound(methods@, row@, u),
            row_complete_upto(methods@, row@, u, m2 as int),
        decreases n_methods - m2,
    {
        if methods[m2].task == u {
            append_subtasks(methods, m2, &mut row, u);
        } else {
            proof {
                assert forall|m3: int, j3: int|
                    0 <= m3 < m2 + 1 && methods@[m3].task == u && 0 <= j3
                        < methods@[m3].subtasks@.len() implies row@.contains(
                    #[trigger] methods@[m3].subtasks@[j3],
                ) by {
                    assert(m3 < m2);
                }
                assert(row_complete_upto(methods@, row@, u, m2 as int + 1));
            }
        }
        m2 += 1;
    }
    row
}

/// Pushes every subtask handle of method `m2` onto `row`, keeping the
/// row's bookkeeping: nothing is lost, and only subtasks of methods for
/// `u` are added.
fn append_subtasks(methods: &Vec<TDGMethod>, m2: usize, row: &mut Vec<usize>, u: usize)
    requires
        m2 < methods@.len(),
        methods@[m2 as int].task == u,
        row_sound(methods@, old(row)@, u),
        row_complete_upto(methods@, old(row)@, u, m2 as int),
    ensures
        row_sound(methods@, final(row)@, u),
        row_complete_upto(methods@, final(row)@, u, m2 as int + 1),
{
    let n_subs = methods[m2].subtasks.len();
    let mut j3: usize = 0;
    while j3 < n_subs
        invariant
            m2 < methods@.len(),
            methods@[m2 as int].task == u,
            n_subs == methods@[m2 as int].subtasks@.len(),
            j3 <= n_subs,
            row_sound(methods@, row@, u),
            row_complete_upto(methods@, row@, u, m2 as int),
            row_has_prefix(methods@, row@, m2 as int, j3 as int),
        decreases n_subs - j3,
    {
        let ghost row_before = row@;
        let sv = methods[m2].subtasks[j3];
        row.push(sv);
        proof {
            lemma_push_contains(row_before, sv);
            assert(row@ == row_before.push(sv));
            assert forall|v: usize| #[trigger] row@.contains(v) implies method_has_subtask(
                methods@,
                u,
                v,
            ) by {
                if v == sv {
                    assert(methods@[m2 as int].subtasks@[j3 as int] == v);
                } else {
                    assert(row_before.contains(v));
                }
            }
            assert(row_sound(methods@, row@, u));
            assert forall|m3: int, j4: int|
                0 <= m3 < m2 && methods@[m3].task == u && 0 <= j4 < methods@[m3].subtasks@.len()
                    implies row@.contains(#[trigger] methods@[m3].subtasks@[j4]) by {
                assert(row_before.contains(methods@[m3].subtasks@[j4]));
            }
            assert(row_complete_upto(methods@, row@, u, m2 as int));
            assert forall|j4: int| 0 <= j4 < j3 + 1 implies row@.contains(
                #[trigger] methods@[m2 as int].subtasks@[j4],
            ) by {
                if j4 < j3 {
                    assert(row_before.contains(methods@[m2 as int].subtasks@[j4]));
                } else {
                    assert(row@.contains(sv));
                }
            }
            assert(row_has_prefix(methods@, row@, m2 as int, j3 as int + 1));
        }
        j3 += 1;
    }
    proof {
        assert forall|m3: int, j4: int|
            0 <= m3 < m2 + 1 && methods@[m3].task == u && 0 <= j4 < methods@[m3].subtasks@.len()
                implies row@.contains(#[trigger] methods@[m3].subtasks@[j4]) by {
            if m3 == m2 as int {
                assert(row_has_prefix(methods@, row@, m2 as int, n_subs as int));
                assert(row@.contains(methods@[m2 as int].subtasks@[j4]));
            }
        }
        assert(row_complete_upto(methods@, row@, u, m2 as int + 1));
    }
}


impl TDG {
    /// The recursion classification in one statement: it is a function
    /// of the graph and method table alone; an acyclic graph gives
    /// `NonRecursive`; and the strictest shape present decides, in the
    /// order grow-and-shrink, growing-prefix, empty, plain recursion.
    pub proof fn lemma_recursion_classification_cases(self)
        requires
            self.wf(),
        ensures
            self.graph.acyclic() ==> self.classification() == RecursionType::NonRecursive,
            self.has_occ_rank(4) ==> self.classification()
                == RecursionType::GrowAndShrinkRecursion,
            !self.has_occ_rank(4) && self.has_occ_rank(3) ==> self.classification()
                == RecursionType::GrowingEmptyPrefixRecursion,
            !self.has_occ_rank(4) && !self.has_occ_rank(3) && self.has_occ_rank(2)
                ==> self.classification() == RecursionType::EmptyRecursion,
            !self.has_occ_rank(4) && !self.has_occ_rank(3) && !self.has_occ_rank(2)
                && self.has_occ_rank(1) ==> self.classification() == RecursionType::Recursive,
            !self.has_occ_rank(4) && !self.has_occ_rank(3) && !self.has_occ_rank(2)
                && !self.has_occ_rank(1) ==> self.classification() == RecursionType::NonRecursive,
    {
        if self.graph.acyclic() {
            self.lemma_acyclic_hierarchy_non_recursive();
        }
    }

    /// A domain whose decomposition graph is acyclic is classified as
    /// non-recursive: no subtask occurrence can re-enter a cycle, since
    /// the decomposed task would reach itself through that occurrence.
    pub proof fn lemma_acyclic_hierarchy_non_recursive(self)
        requires
            self.wf(),
            self.graph.acyclic(),
        ensures
            self.classification() == RecursionType::NonRecursive,
    {
        assert forall|rank: int| 1 <= rank <= 4 implies !self.has_occ_rank(rank) by {
            if self.has_occ_rank(rank) {
                let (i, p) = choose|i: int, p: int|
                    #![trigger self.occ_rank(i, p)]
                    0 <= i < self.methods@.len() && 0 <= p < self.methods@[i].subtasks@.len()
                        && self.occ_rank(i, p) == rank;
                assert(self.rec_occ(i, p));
                let s = self.methods@[i].subtasks@[p];
                let t0 = self.methods@[i].task;
                assert(method_has_subtask(self.methods@, t0, s)) by {
                    assert(0 <= i < self.methods@.len() && self.methods@[i].task == t0 && 0 <= p
                        < self.methods@[i].subtasks@.len() && (#[trigger] self.methods@[i].subtasks@[p])
                        == s);
                }
                assert(self.graph.has_edge(t0, s));
                assert(self.graph.reaches(s, t0));
                self.graph.lemma_back_edge_reach_not_acyclic(s, t0);
            }
        }
        assert(!self.has_occ_rank(4) && !self.has_occ_rank(3) && !self.has_occ_rank(2)
            && !self.has_occ_rank(1));
    }
}

} // verus!
