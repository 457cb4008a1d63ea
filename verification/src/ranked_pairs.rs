//! The ranked-pairs aggregator: many ballots in, one consensus ordering out.
//!
//! The pipeline tallies a pairwise win margin for every pair of tasks, sorts
//! the resulting candidate edges by ascending margin (weakest victories
//! first), locks each edge into a directed graph unless it would close a
//! cycle, and finally reads the consensus order off a topological sort of
//! that graph.

use vstd::prelude::*;

use crate::AthensError;
use crate::OrderedTasks;
use crate::TaskId;

verus! {

/// The mathematical view of a lock-in graph: a finite node set and a set of
/// directed edges among them.
pub struct Dag {
    pub nodes: Set<TaskId>,
    pub edges: Set<(TaskId, TaskId)>,
}

/// The graph with no nodes and no edges.
pub open spec fn empty_dag() -> Dag {
    Dag { nodes: Set::empty(), edges: Set::empty() }
}

/// `p` walks along directed edges of `d`: it visits at least two nodes and
/// each consecutive pair is an edge.
pub open spec fn is_path(d: Dag, p: Seq<TaskId>) -> bool {
    &&& p.len() >= 2
    &&& forall|k: int| 0 <= k < p.len() - 1 ==> #[trigger] d.edges.contains((p[k], p[k + 1]))
}

/// A walk of one or more edges leads from `a` to `b`.
pub open spec fn reaches(d: Dag, a: TaskId, b: TaskId) -> bool {
    exists|p: Seq<TaskId>| is_path(d, p) && p.first() == a && p.last() == b
}

/// No walk of one or more edges returns to its starting node.
pub open spec fn acyclic(d: Dag) -> bool {
    forall|n: TaskId| !reaches(d, n, n)
}

/// The graph after locking in the edge from `a` to `b`.
pub open spec fn insert_edge(d: Dag, a: TaskId, b: TaskId) -> Dag {
    Dag { nodes: d.nodes.insert(a).insert(b), edges: d.edges.insert((a, b)) }
}

/// Joining a walk from `a` to `b` with a walk from `b` to `c` yields a walk
/// from `a` to `c`.
proof fn lemma_path_concat(d: Dag, p1: Seq<TaskId>, p2: Seq<TaskId>)
    requires
        is_path(d, p1),
        is_path(d, p2),
        p1.last() == p2.first(),
    ensures
        is_path(d, p1 + p2.drop_first()),
        (p1 + p2.drop_first()).first() == p1.first(),
        (p1 + p2.drop_first()).last() == p2.last(),
{
    let q = p1 + p2.drop_first();
    assert forall|k: int| 0 <= k < q.len() - 1 implies #[trigger] d.edges.contains(
        (q[k], q[k + 1]),
    ) by {
        if k < p1.len() - 1 {
            assert(d.edges.contains((p1[k], p1[k + 1])));
            assert(q[k] == p1[k] && q[k + 1] == p1[k + 1]);
        } else if k == p1.len() - 1 {
            let k0: int = 0;
            assert(d.edges.contains((p2[k0], p2[k0 + 1])));
            assert(q[k] == p1[k] && p1[k] == p2[k0]);
            assert(q[k + 1] == p2.drop_first()[0] && p2.drop_first()[0] == p2[k0 + 1]);
        } else {
            let j = k - p1.len();
            assert(d.edges.contains((p2[j + 1], p2[j + 1 + 1])));
            assert(q[k] == p2.drop_first()[j] && p2.drop_first()[j] == p2[j + 1]);
            assert(q[k + 1] == p2.drop_first()[j + 1] && p2.drop_first()[j + 1] == p2[j + 1 + 1]);
        }
    }
    let last_index = q.len() - 1;
    assert(q[last_index] == p2.drop_first()[last_index - p1.len()]);
    assert(q.last() == p2.last());
}

/// Reachability is transitive.
proof fn lemma_reaches_trans(d: Dag, a: TaskId, b: TaskId, c: TaskId)
    requires
        reaches(d, a, b),
        reaches(d, b, c),
    ensures
        reaches(d, a, c),
{
    let p1 = choose|p: Seq<TaskId>| is_path(d, p) && p.first() == a && p.last() == b;
    let p2 = choose|p: Seq<TaskId>| is_path(d, p) && p.first() == b && p.last() == c;
    lemma_path_concat(d, p1, p2);
    let q = p1 + p2.drop_first();
    assert(is_path(d, q) && q.first() == a && q.last() == c);
}

/// A single edge is a walk.
proof fn lemma_edge_reaches(d: Dag, a: TaskId, b: TaskId)
    requires
        d.edges.contains((a, b)),
    ensures
        reaches(d, a, b),
{
    let p = seq![a, b];
    assert forall|k: int| 0 <= k < p.len() - 1 implies #[trigger] d.edges.contains(
        (p[k], p[k + 1]),
    ) by {
        assert(p[k] == a && p[k + 1] == b);
    }
    assert(is_path(d, p) && p.first() == a && p.last() == b);
}

/// Walks survive the addition of edges.
proof fn lemma_reaches_monotone(d1: Dag, d2: Dag, a: TaskId, b: TaskId)
    requires
        reaches(d1, a, b),
        d1.edges.subset_of(d2.edges),
    ensures
        reaches(d2, a, b),
{
    let p = choose|p: Seq<TaskId>| is_path(d1, p) && p.first() == a && p.last() == b;
    assert forall|k: int| 0 <= k < p.len() - 1 implies #[trigger] d2.edges.contains(
        (p[k], p[k + 1]),
    ) by {
        assert(d1.edges.contains((p[k], p[k + 1])));
    }
    assert(is_path(d2, p) && p.first() == a && p.last() == b);
}

/// Two graphs with the same edges allow the same walks; being acyclic does
/// not depend on the node set.
proof fn lemma_acyclic_same_edges(d1: Dag, d2: Dag)
    requires
        d1.edges == d2.edges,
        acyclic(d1),
    ensures
        acyclic(d2),
{
    assert forall|n: TaskId| !reaches(d2, n, n) by {
        if reaches(d2, n, n) {
            lemma_reaches_monotone(d2, d1, n, n);
        }
    }
}

/// Any walk of the graph extended by the edge `(a, b)` either already exists
/// in the old graph, or funnels through the new edge: its start can reach
/// `a` and `b` can reach its end.
proof fn lemma_path_through_new_edge(d: Dag, a: TaskId, b: TaskId, p: Seq<TaskId>)
    requires
        is_path(insert_edge(d, a, b), p),
    ensures
        reaches(d, p.first(), p.last()) || ((p.first() == a || reaches(d, p.first(), a)) && (
        p.last() == b || reaches(d, b, p.last()))),
    decreases p.len(),
{
    let d2 = insert_edge(d, a, b);
    let u = p.first();
    let v = p.last();
    if p.len() == 2 {
        let k0: int = 0;
        assert(d2.edges.contains((p[k0], p[k0 + 1])));
        assert(p[k0] == u && p[k0 + 1] == v);
        if d.edges.contains((u, v)) {
            lemma_edge_reaches(d, u, v);
        } else {
            assert(u == a && v == b);
        }
    } else {
        let q = p.drop_last();
        let w = q.last();
        assert(is_path(d2, q)) by {
            assert forall|k: int| 0 <= k < q.len() - 1 implies #[trigger] d2.edges.contains(
                (q[k], q[k + 1]),
            ) by {
                assert(d2.edges.contains((p[k], p[k + 1])));
                assert(q[k] == p[k] && q[k + 1] == p[k + 1]);
            }
        }
        lemma_path_through_new_edge(d, a, b, q);
        let m = p.len() - 2;
        assert(d2.edges.contains((p[m], p[m + 1])));
        assert(w == p[m] && v == p[m + 1]);
        if reaches(d, u, w) {
            if d.edges.contains((w, v)) {
                lemma_edge_reaches(d, w, v);
                lemma_reaches_trans(d, u, w, v);
            } else {
                assert(w == a && v == b);
            }
        } else {
            assert((u == a || reaches(d, u, a)) && (w == b || reaches(d, b, w)));
            if d.edges.contains((w, v)) {
                lemma_edge_reaches(d, w, v);
                if w != b {
                    lemma_reaches_trans(d, b, w, v);
                }
            } else {
                assert(w == a && v == b);
            }
        }
    }
}

/// Locking in an edge whose reverse direction is unreachable keeps the graph
/// acyclic.
proof fn lemma_insert_edge_acyclic(d: Dag, a: TaskId, b: TaskId)
    requires
        acyclic(d),
        a != b,
        !reaches(d, b, a),
    ensures
        acyclic(insert_edge(d, a, b)),
{
    let d2 = insert_edge(d, a, b);
    assert forall|n: TaskId| !reaches(d2, n, n) by {
        if reaches(d2, n, n) {
            let p = choose|p: Seq<TaskId>| is_path(d2, p) && p.first() == n && p.last() == n;
            lemma_path_through_new_edge(d, a, b, p);
            if !reaches(d, n, n) {
                if n == a {
                    assert(reaches(d, b, n) || n == b);
                } else {
                    assert(reaches(d, n, a));
                    if n == b {
                    } else {
                        assert(reaches(d, b, n));
                        lemma_reaches_trans(d, b, n, a);
                    }
                }
            }
        }
    }
}

/// Every node of a walk that starts inside a set closed under edges lies
/// inside that set.
proof fn lemma_closed_path_members(d: Dag, vs: Set<TaskId>, p: Seq<TaskId>)
    requires
        is_path(d, p),
        vs.contains(p.first()),
        forall|x: TaskId, z: TaskId|
            vs.contains(x) && #[trigger] d.edges.contains((x, z)) ==> vs.contains(z),
    ensures
        vs.contains(p.last()),
    decreases p.len(),
{
    if p.len() == 2 {
        let k0: int = 0;
        assert(d.edges.contains((p[k0], p[k0 + 1])));
        assert(p[k0] == p.first() && p[k0 + 1] == p.last());
    } else {
        let q = p.drop_last();
        assert(is_path(d, q)) by {
            assert forall|k: int| 0 <= k < q.len() - 1 implies #[trigger] d.edges.contains(
                (q[k], q[k + 1]),
            ) by {
                assert(d.edges.contains((p[k], p[k + 1])));
                assert(q[k] == p[k] && q[k + 1] == p[k + 1]);
            }
        }
        lemma_closed_path_members(d, vs, q);
        let m = p.len() - 2;
        assert(d.edges.contains((p[m], p[m + 1])));
        assert(q.last() == p[m] && p.last() == p[m + 1]);
    }
}

/// Everything reachable from a member of a set closed under edges is itself
/// a member.
proof fn lemma_closed_set_reach(d: Dag, vs: Set<TaskId>, b: TaskId, y: TaskId)
    requires
        vs.contains(b),
        forall|x: TaskId, z: TaskId|
            vs.contains(x) && #[trigger] d.edges.contains((x, z)) ==> vs.contains(z),
        reaches(d, b, y),
    ensures
        vs.contains(y),
{
    let p = choose|p: Seq<TaskId>| is_path(d, p) && p.first() == b && p.last() == y;
    lemma_closed_path_members(d, vs, p);
}

/// A graph without edges has no walks at all.
proof fn lemma_no_edges_acyclic(d: Dag)
    requires
        d.edges =~= Set::<(TaskId, TaskId)>::empty(),
    ensures
        acyclic(d),
{
    assert forall|n: TaskId| !reaches(d, n, n) by {
        if reaches(d, n, n) {
            let p = choose|p: Seq<TaskId>| is_path(d, p) && p.first() == n && p.last() == n;
            let k0: int = 0;
            assert(d.edges.contains((p[k0], p[k0 + 1])));
        }
    }
}

/// A duplicate-free list of visited nodes that, apart from `b`, stays among
/// the graph's nodes is no longer than the node list plus one.
proof fn lemma_visited_bounded(vis: Seq<TaskId>, nodes: Seq<TaskId>, b: TaskId)
    requires
        vis.no_duplicates(),
        forall|y: TaskId| vis.contains(y) ==> y == b || nodes.to_set().contains(y),
    ensures
        vis.len() <= nodes.len() + 1,
{
    vis.unique_seq_to_set();
    assert(vis.to_set().subset_of(nodes.to_set().insert(b)));
    nodes.lemma_cardinality_of_set();
    vstd::set_lib::lemma_len_subset(vis.to_set(), nodes.to_set().insert(b));
    assert(nodes.to_set().insert(b).len() <= nodes.to_set().len() + 1);
}

/// Whether `v` holds `t`.
fn contains_id(v: &Vec<TaskId>, t: TaskId) -> (b: bool)
    ensures
        b == v@.contains(t),
{
    let n = v.len();
    let mut i: usize = 0;
    while i < n
        invariant
            i <= n,
            n == v@.len(),
            forall|k: int| 0 <= k < i ==> v@[k] != t,
        decreases n - i,
    {
        if v[i] == t {
            return true;
        }
        i += 1;
    }
    false
}

/// Strictly ascending task identifiers.
pub open spec fn sorted_ids(s: Seq<TaskId>) -> bool {
    forall|k: int| 0 <= k < s.len() - 1 ==> (#[trigger] s[k]).0 < s[k + 1].0
}

/// In a strictly ascending sequence, earlier entries are smaller.
proof fn lemma_sorted_ids_lt(s: Seq<TaskId>, i: int, j: int)
    requires
        sorted_ids(s),
        0 <= i < j < s.len(),
    ensures
        s[i].0 < s[j].0,
    decreases j - i,
{
    if j > i + 1 {
        lemma_sorted_ids_lt(s, i, j - 1);
    }
    assert(s[j - 1].0 < s[j - 1 + 1].0);
}

/// A strictly ascending sequence repeats no identifier.
proof fn lemma_sorted_ids_no_duplicates(s: Seq<TaskId>)
    requires
        sorted_ids(s),
    ensures
        s.no_duplicates(),
{
    assert forall|p: int, q: int|
        0 <= p < s.len() && 0 <= q < s.len() && p != q implies s[p] != s[q] by {
        if p < q {
            lemma_sorted_ids_lt(s, p, q);
        } else {
            lemma_sorted_ids_lt(s, q, p);
        }
    }
}

/// Inserts `t` into a strictly ascending vector, keeping it ascending; a
/// no-op when `t` is already present.
fn insert_id_sorted(v: &mut Vec<TaskId>, t: TaskId)
    requires
        sorted_ids(old(v)@),
    ensures
        sorted_ids(final(v)@),
        forall|y: TaskId| #[trigger] final(v)@.contains(y) <==> (old(v)@.contains(y) || y == t),
{
    let n = v.len();
    let mut i: usize = 0;
    while i < n && v[i].0 < t.0
        invariant
            i <= n,
            n == v@.len(),
            sorted_ids(v@),
            v@ == old(v)@,
            forall|k: int| 0 <= k < i ==> (#[trigger] v@[k]).0 < t.0,
        decreases n - i,
    {
        i += 1;
    }
    if i < n && v[i].0 == t.0 {
        proof {
            assert(v@[i as int].0 == t.0);
            assert(v@[i as int] == TaskId(t.0) && t == TaskId(t.0));
            assert(v@.contains(t));
        }
        return ;
    }
    let ghost v0 = v@;
    proof {
        assert forall|k: int| i <= k < v0.len() implies (#[trigger] v0[k]).0 > t.0 by {
            if k > i {
                lemma_sorted_ids_lt(v0, i as int, k);
            }
        }
    }
    v.insert(i, t);
    proof {
        v0.insert_ensures(i as int, t);
        assert forall|k: int| 0 <= k < v@.len() - 1 implies (#[trigger] v@[k]).0 < v@[k + 1].0 by {
            if k + 1 < i {
                assert(v@[k] == v0[k] && v@[k + 1] == v0[k + 1]);
            } else if k + 1 == i {
                assert(v@[k] == v0[k] && v@[k + 1] == t);
            } else if k == i {
                assert(v@[k] == t && v@[k + 1] == v0[k]);
            } else {
                assert(v@[k] == v0[k - 1] && v@[k + 1] == v0[k]);
                assert(v0[k - 1].0 < v0[k - 1 + 1].0);
            }
        }
        assert forall|y: TaskId| #[trigger] v@.contains(y) implies (v0.contains(y) || y == t) by {
            let k = choose|k: int| 0 <= k < v@.len() && v@[k] == y;
            if k < i {
                assert(v0[k] == y);
            } else if k > i {
                assert(v0[k - 1] == y);
            }
        }
        assert forall|y: TaskId| (v0.contains(y) || y == t) implies #[trigger] v@.contains(y) by {
            if y == t {
                assert(v@[i as int] == t);
            } else {
                let k = choose|k: int| 0 <= k < v0.len() && v0[k] == y;
                if k < i {
                    assert(v@[k] == y);
                } else {
                    assert(v@[k + 1] == y);
                }
            }
        }
    }
}

/// A fresh vector with the same contents.
fn copy_ids(v: &Vec<TaskId>) -> (r: Vec<TaskId>)
    ensures
        r@ == v@,
{
    let n = v.len();
    let mut r: Vec<TaskId> = Vec::new();
    let mut i: usize = 0;
    while i < n
        invariant
            i <= n,
            n == v@.len(),
            r@ == v@.take(i as int),
        decreases n - i,
    {
        r.push(v[i]);
        proof {
            assert(r@ =~= v@.take(i + 1 as int));
        }
        i += 1;
    }
    proof {
        assert(r@ =~= v@);
    }
    r
}

/// A fresh vector with the same edges.
fn copy_edges(v: &Vec<(TaskId, TaskId)>) -> (r: Vec<(TaskId, TaskId)>)
    ensures
        r@ == v@,
{
    let n = v.len();
    let mut r: Vec<(TaskId, TaskId)> = Vec::new();
    let mut i: usize = 0;
    while i < n
        invariant
            i <= n,
            n == v@.len(),
            r@ == v@.take(i as int),
        decreases n - i,
    {
        r.push(v[i]);
        proof {
            assert(r@ =~= v@.take(i + 1 as int));
        }
        i += 1;
    }
    proof {
        assert(r@ =~= v@);
    }
    r
}

/// The lock-in graph of the ranked-pairs method. Edges point from the loser
/// of a pairwise contest to its winner, and an edge is only ever admitted if
/// it keeps the graph free of cycles.
pub struct TaskIdDag {
    nodes: Vec<TaskId>,
    edge_list: Vec<(TaskId, TaskId)>,
}

impl View for TaskIdDag {
    type V = Dag;

    closed spec fn view(&self) -> Dag {
        Dag { nodes: self.nodes@.to_set(), edges: self.edge_list@.to_set() }
    }
}

impl Default for TaskIdDag {
    /// The empty graph.
    fn default() -> (d: Self)
        ensures
            d@ == empty_dag(),
            acyclic(d@),
    {
        let nodes: Vec<TaskId> = Vec::new();
        let edge_list: Vec<(TaskId, TaskId)> = Vec::new();
        proof {
            assert(nodes@.to_set() =~= Set::<TaskId>::empty());
            assert(edge_list@.to_set() =~= Set::<(TaskId, TaskId)>::empty());
            lemma_no_edges_acyclic(Dag { nodes: nodes@.to_set(), edges: edge_list@.to_set() });
        }
        let d = TaskIdDag { nodes, edge_list };
        proof {
            assert(d@.nodes =~= empty_dag().nodes);
            assert(d@.edges =~= empty_dag().edges);
        }
        d
    }
}

impl TaskIdDag {
    /// Node list well formed, every edge endpoint registered, and the graph
    /// free of cycles.
    #[verifier::type_invariant]
    spec fn inv(self) -> bool {
        &&& self.nodes@.no_duplicates()
        &&& sorted_ids(self.nodes@)
        &&& forall|k: int|
            0 <= k < self.edge_list@.len() ==> self@.nodes.contains(
                #[trigger] self.edge_list@[k].0,
            ) && self@.nodes.contains(self.edge_list@[k].1)
        &&& acyclic(self@)
    }

    /// The set of nodes that a walk from `b` can visit, together with `b`
    /// itself, computed by saturating over the edge list.
    fn reachable_from(&self, b: TaskId) -> (vis: Vec<TaskId>)
        ensures
            forall|y: TaskId| vis@.contains(y) <==> (y == b || reaches(self@, b, y)),
    {
        proof {
            use_type_invariant(self);
        }
        let ghost d = self@;
        let mut vis: Vec<TaskId> = Vec::new();
        vis.push(b);
        proof {
            assert(vis@[0] == b);
        }
        let n_edges = self.edge_list.len();
        let mut changed = true;
        while changed
            invariant
                vis@.no_duplicates(),
                vis@.len() >= 1 && vis@[0] == b,
                n_edges == self.edge_list@.len(),
                self.inv(),
                d == self@,
                forall|y: TaskId| vis@.contains(y) ==> (y == b || reaches(d, b, y)),
                forall|y: TaskId| vis@.contains(y) ==> (y == b || d.nodes.contains(y)),
                vis@.len() <= self.nodes@.len() + 1,
                !changed ==> forall|k: int|
                    0 <= k < n_edges && vis@.contains(#[trigger] self.edge_list@[k].0)
                        ==> vis@.contains(self.edge_list@[k].1),
            decreases self.nodes@.len() + 1 - vis@.len(), (if changed {
                1int
            } else {
                0int
            }),
        {
            let ghost vis0 = vis@;
            changed = false;
            let mut i: usize = 0;
            while i < n_edges
                invariant
                    i <= n_edges,
                    n_edges == self.edge_list@.len(),
                    self.inv(),
                    d == self@,
                    vis@.no_duplicates(),
                    vis@.len() >= 1 && vis@[0] == b,
                    vis0.len() <= vis@.len(),
                    forall|y: TaskId| vis@.contains(y) ==> (y == b || reaches(d, b, y)),
                    forall|y: TaskId| vis@.contains(y) ==> (y == b || d.nodes.contains(y)),
                    !changed ==> vis@ == vis0,
                    changed ==> vis@.len() > vis0.len(),
                    !changed ==> forall|k: int|
                        0 <= k < i && vis@.contains(#[trigger] self.edge_list@[k].0)
                            ==> vis@.contains(self.edge_list@[k].1),
                decreases n_edges - i,
            {
                let (u, v) = self.edge_list[i];
                if contains_id(&vis, u) && !contains_id(&vis, v) {
                    proof {
                        assert(self.edge_list@[i as int] == (u, v));
                        assert(d.edges.contains((u, v)));
                        assert(d.nodes.contains(self.edge_list@[i as int].1));
                        lemma_edge_reaches(d, u, v);
                        if u != b {
                            lemma_reaches_trans(d, b, u, v);
                        }
                    }
                    vis.push(v);
                    changed = true;
                }
                i += 1;
            }
            proof {
                lemma_visited_bounded(vis@, self.nodes@, b);
            }
        }
        proof {
            assert forall|y: TaskId| (y == b || reaches(d, b, y)) implies vis@.contains(y) by {
                if y == b {
                    assert(vis@[0] == b);
                } else if reaches(d, b, y) {
                    let vset = vis@.to_set();
                    assert(vset.contains(b)) by {
                        assert(vis@[0] == b);
                    }
                    assert forall|x: TaskId, z: TaskId|
                        vset.contains(x) && #[trigger] d.edges.contains((x, z)) implies
                        vset.contains(z) by {
                        let k = choose|k: int|
                            0 <= k < self.edge_list@.len() && self.edge_list@[k] == (x, z);
                        assert(vis@.contains(self.edge_list@[k].0));
                        assert(vis@.contains(self.edge_list@[k].1));
                    }
                    lemma_closed_set_reach(d, vset, b, y);
                }
            }
        }
        vis
    }

    /// Attempts to lock in `edge`, pointing from `edge.0` to `edge.1`. The
    /// edge is admitted exactly when it is no self-edge and closes no cycle;
    /// otherwise the graph is left unchanged.
    pub fn try_insert(&mut self, edge: (TaskId, TaskId)) -> (ok: bool)
        ensures
            ok == (edge.0 != edge.1 && !reaches(old(self)@, edge.1, edge.0)),
            final(self)@ == if ok {
                insert_edge(old(self)@, edge.0, edge.1)
            } else {
                old(self)@
            },
    {
        proof {
            use_type_invariant(&*self);
        }
        let (a, b) = edge;
        if a == b {
            return false;
        }
        let vis = self.reachable_from(b);
        if contains_id(&vis, a) {
            return false;
        }
        let ghost d = self@;
        let mut nodes = copy_ids(&self.nodes);
        let mut edge_list = copy_edges(&self.edge_list);
        insert_id_sorted(&mut nodes, a);
        insert_id_sorted(&mut nodes, b);
        edge_list.push((a, b));
        proof {
            lemma_sorted_ids_no_duplicates(nodes@);
            assert(nodes@.to_set() =~= d.nodes.insert(a).insert(b)) by {
                assert forall|y: TaskId|
                    nodes@.to_set().contains(y) == d.nodes.insert(a).insert(b).contains(y) by {
                    assert(nodes@.contains(y) <==> (self.nodes@.contains(y) || y == a || y == b));
                }
            }
            assert(nodes@.contains(a) && nodes@.contains(b));
            assert(edge_list@.to_set() =~= d.edges.insert((a, b))) by {
                assert forall|e: (TaskId, TaskId)| #[trigger]
                    edge_list@.contains(e) implies d.edges.insert((a, b)).contains(e) by {
                    let k = choose|k: int| 0 <= k < edge_list@.len() && edge_list@[k] == e;
                    if k < edge_list@.len() - 1 {
                        assert(self.edge_list@[k] == e);
                    }
                }
                assert(edge_list@.last() == (a, b));
                assert(edge_list@.contains((a, b)));
                assert forall|e: (TaskId, TaskId)|
                    d.edges.contains(e) implies #[trigger] edge_list@.contains(e) by {
                    let k = choose|k: int|
                        0 <= k < self.edge_list@.len() && self.edge_list@[k] == e;
                    assert(edge_list@[k] == e);
                }
            }
            assert(nodes@.no_duplicates());
            lemma_insert_edge_acyclic(d, a, b);
        }
        let ghost d2 = insert_edge(d, a, b);
        proof {
            let mid = Dag { nodes: nodes@.to_set(), edges: self.edge_list@.to_set() };
            lemma_acyclic_same_edges(d, mid);
            assert forall|k: int| 0 <= k < self.edge_list@.len() implies mid.nodes.contains(
                #[trigger] self.edge_list@[k].0,
            ) && mid.nodes.contains(self.edge_list@[k].1) by {
                assert(d.nodes.contains(self.edge_list@[k].0));
                assert(d.nodes.contains(self.edge_list@[k].1));
            }
            let fin = Dag { nodes: nodes@.to_set(), edges: edge_list@.to_set() };
            lemma_acyclic_same_edges(d2, fin);
            assert forall|k: int| 0 <= k < edge_list@.len() implies fin.nodes.contains(
                #[trigger] edge_list@[k].0,
            ) && fin.nodes.contains(edge_list@[k].1) by {
                if k < edge_list@.len() - 1 {
                    assert(self.edge_list@[k] == edge_list@[k]);
                    assert(d.nodes.contains(self.edge_list@[k].0));
                    assert(d.nodes.contains(self.edge_list@[k].1));
                } else {
                    assert(edge_list@[k] == (a, b));
                    assert(nodes@.contains(a) && nodes@.contains(b));
                }
            }
        }
        self.nodes = nodes;
        self.edge_list = edge_list;
        proof {
            assert(self@.nodes =~= d2.nodes);
            assert(self@.edges =~= d2.edges);
            assert(self@ == d2);
        }
        true
    }
}

/// The least identifier of a set.
#[verifier::opaque]
pub open spec fn set_min_id(s: Set<TaskId>) -> TaskId {
    choose|m: TaskId| s.contains(m) && forall|x: TaskId| s.contains(x) ==> m.0 <= x.0
}

/// Every finite nonempty set of identifiers has a least element.
#[verifier::rlimit(50)]
proof fn lemma_min_exists(s: Set<TaskId>)
    requires
        s.finite(),
        !s.is_empty(),
    ensures
        exists|m: TaskId| s.contains(m) && forall|x: TaskId| s.contains(x) ==> m.0 <= x.0,
        s.contains(set_min_id(s)),
        forall|x: TaskId| s.contains(x) ==> set_min_id(s).0 <= x.0,
    decreases s.len(),
{
    reveal(set_min_id);
    let x = s.choose();
    assert(s.contains(x));
    let s2 = s.remove(x);
    if s2.is_empty() {
        assert forall|y: TaskId| s.contains(y) implies x.0 <= y.0 by {
            if y != x {
                assert(s2.contains(y));
            }
        }
        assert(s.contains(x) && forall|y: TaskId| s.contains(y) ==> x.0 <= y.0);
    } else {
        lemma_min_exists(s2);
        let m2 = set_min_id(s2);
        let m = if x.0 <= m2.0 {
            x
        } else {
            m2
        };
        assert forall|y: TaskId| s.contains(y) implies m.0 <= y.0 by {
            if y != x {
                assert(s2.contains(y));
            }
        }
        assert(s.contains(m) && forall|y: TaskId| s.contains(y) ==> m.0 <= y.0);
    }
}

/// The identifiers of a finite set in ascending order.
#[verifier::opaque]
pub open spec fn asc_ids(s: Set<TaskId>) -> Seq<TaskId>
    decreases s.len(),
        when s.finite()
        via asc_ids_dec
{
    if s.is_empty() {
        Seq::<TaskId>::empty()
    } else {
        seq![set_min_id(s)] + asc_ids(s.remove(set_min_id(s)))
    }
}

#[via_fn]
proof fn asc_ids_dec(s: Set<TaskId>) {
    reveal(set_min_id);
    if s.finite() && !s.is_empty() {
        lemma_min_exists(s);
    }
}

/// The ascending enumeration of a finite set holds exactly its members.
#[verifier::rlimit(50)]
proof fn lemma_asc_ids_members(s: Set<TaskId>)
    requires
        s.finite(),
    ensures
        asc_ids(s).to_set() == s,
        asc_ids(s).len() == s.len(),
    decreases s.len(),
{
    reveal_with_fuel(asc_ids, 2);
    let v = asc_ids(s);
    if s.is_empty() {
        assert(v.to_set() =~= s);
    } else {
        lemma_min_exists(s);
        let m = set_min_id(s);
        let rest = asc_ids(s.remove(m));
        lemma_asc_ids_members(s.remove(m));
        assert(v == seq![m] + rest);
        assert forall|y: TaskId| v.contains(y) implies s.contains(y) by {
            let k = choose|k: int| 0 <= k < v.len() && v[k] == y;
            if k == 0 {
                assert(y == m);
            } else {
                assert(rest[k - 1] == y);
                assert(rest.contains(y));
                assert(s.remove(m).contains(y));
            }
        }
        assert forall|y: TaskId| s.contains(y) implies v.contains(y) by {
            if y == m {
                assert(v[0] == m);
            } else {
                assert(s.remove(m).contains(y));
                assert(rest.contains(y));
                let k = choose|k: int| 0 <= k < rest.len() && rest[k] == y;
                assert(v[k + 1] == y);
            }
        }
        assert(v.to_set() =~= s);
    }
}

/// The ascending enumeration of a finite set is strictly ascending, so it
/// names each member once.
#[verifier::rlimit(50)]
proof fn lemma_asc_ids_sorted(s: Set<TaskId>)
    requires
        s.finite(),
    ensures
        sorted_ids(asc_ids(s)),
        asc_ids(s).no_duplicates(),
    decreases s.len(),
{
    reveal_with_fuel(asc_ids, 2);
    let v = asc_ids(s);
    if !s.is_empty() {
        lemma_min_exists(s);
        let m = set_min_id(s);
        let rest = asc_ids(s.remove(m));
        lemma_asc_ids_sorted(s.remove(m));
        assert(v == seq![m] + rest);
        assert forall|k: int| 0 <= k < v.len() - 1 implies (#[trigger] v[k]).0 < v[k + 1].0 by {
            if k == 0 {
                assert(v[1] == rest[0]);
                assert(rest.contains(rest[0]));
                assert(s.remove(m).contains(rest[0])) by {
                    lemma_asc_ids_members(s.remove(m));
                }
                assert(m.0 <= rest[0].0);
                if m.0 == rest[0].0 {
                    assert(m == TaskId(m.0) && rest[0] == TaskId(rest[0].0));
                }
            } else {
                assert(v[k] == rest[k - 1] && v[k + 1] == rest[k - 1 + 1]);
                assert(rest[k - 1].0 < rest[k - 1 + 1].0);
            }
        }
    }
    lemma_sorted_ids_no_duplicates(v);
}

/// The ascending enumeration of a finite set holds exactly its members,
/// strictly ascending and once each.
proof fn lemma_asc_ids(s: Set<TaskId>)
    requires
        s.finite(),
    ensures
        asc_ids(s).to_set() == s,
        sorted_ids(asc_ids(s)),
        asc_ids(s).no_duplicates(),
        asc_ids(s).len() == s.len(),
{
    lemma_asc_ids_members(s);
    lemma_asc_ids_sorted(s);
}

/// A strictly ascending sequence is the ascending enumeration of its own
/// member set: the enumeration is unique.
#[verifier::rlimit(100)]
proof fn lemma_sorted_ids_unique(v: Seq<TaskId>, s: Set<TaskId>)
    requires
        sorted_ids(v),
        v.to_set() == s,
        s.finite(),
    ensures
        v == asc_ids(s),
    decreases v.len(),
{
    reveal_with_fuel(asc_ids, 2);
    lemma_sorted_ids_no_duplicates(v);
    if v.len() == 0 {
        assert(s =~= Set::<TaskId>::empty()) by {
            assert forall|y: TaskId| !s.contains(y) by {
                if v.contains(y) {
                    let k = choose|k: int| 0 <= k < v.len() && v[k] == y;
                }
            }
        }
        assert(asc_ids(s) == Seq::<TaskId>::empty());
    } else {
        let h = v[0];
        assert(v.contains(h));
        assert(s.contains(h));
        assert forall|x: TaskId| s.contains(x) implies h.0 <= x.0 by {
            let k = choose|k: int| 0 <= k < v.len() && v[k] == x;
            if k > 0 {
                lemma_sorted_ids_lt(v, 0, k);
            }
        }
        let m = set_min_id(s);
        assert(s.contains(m) && forall|x: TaskId| s.contains(x) ==> m.0 <= x.0) by {
            lemma_min_exists(s);
        }
        assert(m == h) by {
            assert(m.0 <= h.0 && h.0 <= m.0);
            assert(m == TaskId(m.0) && h == TaskId(h.0));
        }
        let rest = v.drop_first();
        assert(sorted_ids(rest)) by {
            assert forall|k: int| 0 <= k < rest.len() - 1 implies (#[trigger] rest[k]).0 < rest[k
                + 1].0 by {
                assert(rest[k] == v[k + 1] && rest[k + 1] == v[k + 1 + 1]);
                assert(v[k + 1].0 < v[k + 1 + 1].0);
            }
        }
        assert(rest.to_set() =~= s.remove(h)) by {
            assert forall|y: TaskId| rest.contains(y) implies s.remove(h).contains(y) by {
                let k = choose|k: int| 0 <= k < rest.len() && rest[k] == y;
                assert(v[k + 1] == y);
                assert(v.contains(y));
                assert(y != h) by {
                    lemma_sorted_ids_lt(v, 0, k + 1);
                }
            }
            assert forall|y: TaskId| s.remove(h).contains(y) implies rest.contains(y) by {
                assert(v.contains(y));
                let k = choose|k: int| 0 <= k < v.len() && v[k] == y;
                assert(k != 0);
                assert(rest[k - 1] == y);
            }
        }
        lemma_sorted_ids_unique(rest, s.remove(h));
        assert(v =~= seq![h] + rest);
        assert(asc_ids(s) == seq![m] + asc_ids(s.remove(m)));
    }
}

/// The members of `r` that no member of `r` points at: the current sources
/// of the graph restricted to `r`.
pub open spec fn source_set(d: Dag, r: Set<TaskId>) -> Set<TaskId> {
    Set::new(
        |n: TaskId|
            r.contains(n) && forall|u: TaskId|
                r.contains(u) ==> !(#[trigger] d.edges.contains((u, n))),
    )
}

/// Walking up parent links inside `r` must end at a source: otherwise the
/// walk revisits a node and exhibits a cycle.
proof fn walk_to_source(d: Dag, r: Set<TaskId>, path: Seq<TaskId>)
    requires
        acyclic(d),
        r.finite(),
        path.len() >= 1,
        path.no_duplicates(),
        forall|k: int| 0 <= k < path.len() ==> r.contains(#[trigger] path[k]),
        forall|k: int| 0 <= k < path.len() - 1 ==> #[trigger] d.edges.contains(
            (path[k + 1], path[k]),
        ),
    ensures
        !source_set(d, r).is_empty(),
    decreases r.len() - path.len(),
{
    let last_index = path.len() - 1;
    let last = path[last_index];
    assert(r.contains(last));
    if source_set(d, r).contains(last) {
        assert(!source_set(d, r).is_empty());
    } else {
        let u = choose|u: TaskId| r.contains(u) && #[trigger] d.edges.contains((u, last));
        assert(r.contains(u) && d.edges.contains((u, last)));
        if path.contains(u) {
            let j = choose|j: int| 0 <= j < path.len() && path[j] == u;
            let climb = path.subrange(j, path.len() as int);
            let cyc = climb.reverse().push(last);
            assert(is_path(d, cyc)) by {
                assert forall|k: int| 0 <= k < cyc.len() - 1 implies #[trigger] d.edges.contains(
                    (cyc[k], cyc[k + 1]),
                ) by {
                    if k < cyc.len() - 2 {
                        assert(cyc[k] == climb[climb.len() - 1 - k]);
                        assert(cyc[k + 1] == climb[climb.len() - 1 - (k + 1)]);
                        assert(climb[climb.len() - 1 - k] == path[j + climb.len() - 1 - k]);
                        assert(climb[climb.len() - 2 - k] == path[j + climb.len() - 2 - k]);
                        let idx = j + climb.len() - 2 - k;
                        assert(d.edges.contains((path[idx + 1], path[idx])));
                    } else {
                        assert(cyc[k] == climb[0] && climb[0] == path[j]);
                        assert(cyc[k + 1] == last);
                        assert(d.edges.contains((u, last)));
                    }
                }
            }
            assert(cyc.first() == climb[climb.len() - 1] && climb[climb.len() - 1] == last);
            assert(cyc.last() == last);
            assert(reaches(d, last, last));
            assert(false);
        } else {
            let path2 = path.push(u);
            assert(path2.no_duplicates()) by {
                assert forall|p: int, q: int|
                    0 <= p < path2.len() && 0 <= q < path2.len() && p != q implies path2[p]
                    != path2[q] by {
                    if p < path.len() && q < path.len() {
                        assert(path2[p] == path[p] && path2[q] == path[q]);
                    } else if q == path.len() {
                        assert(path2[p] == path[p] && path2[q] == u);
                        if path[p] == u {
                            assert(path.contains(u));
                        }
                    } else {
                        assert(path2[q] == path[q] && path2[p] == u);
                        if path[q] == u {
                            assert(path.contains(u));
                        }
                    }
                }
            }
            path2.unique_seq_to_set();
            assert(path2.to_set().subset_of(r)) by {
                assert forall|y: TaskId| path2.to_set().contains(y) implies r.contains(y) by {
                    let k = choose|k: int| 0 <= k < path2.len() && path2[k] == y;
                    if k < path.len() {
                        assert(path[k] == y);
                    }
                }
            }
            vstd::set_lib::lemma_len_subset(path2.to_set(), r);
            assert forall|k: int| 0 <= k < path2.len() - 1 implies #[trigger] d.edges.contains(
                (path2[k + 1], path2[k]),
            ) by {
                if k < path.len() - 1 {
                    assert(path2[k] == path[k] && path2[k + 1] == path[k + 1]);
                    assert(d.edges.contains((path[k + 1], path[k])));
                } else {
                    assert(path2[k] == last && path2[k + 1] == u);
                }
            }
            walk_to_source(d, r, path2);
        }
    }
}

/// In an acyclic graph every finite nonempty node set has a source.
proof fn lemma_source_exists(d: Dag, r: Set<TaskId>)
    requires
        acyclic(d),
        r.finite(),
        !r.is_empty(),
    ensures
        !source_set(d, r).is_empty(),
{
    let x = r.choose();
    assert(r.contains(x));
    let path = seq![x];
    path.unique_seq_to_set();
    assert(path.to_set().subset_of(r)) by {
        assert forall|y: TaskId| path.to_set().contains(y) implies r.contains(y) by {
            let k = choose|k: int| 0 <= k < path.len() && path[k] == y;
            assert(path[0] == x);
        }
    }
    vstd::set_lib::lemma_len_subset(path.to_set(), r);
    walk_to_source(d, r, path);
}

/// Repeatedly peels off the current sources of `r`, each layer in ascending
/// identifier order, until `r` is exhausted.
#[verifier::opaque]
pub open spec fn topo_rec(d: Dag, r: Set<TaskId>) -> Seq<TaskId>
    decreases r.len(),
        when r.finite()
        via topo_rec_dec
{
    if r.is_empty() || source_set(d, r).is_empty() {
        Seq::<TaskId>::empty()
    } else {
        asc_ids(source_set(d, r)) + topo_rec(d, r.difference(source_set(d, r)))
    }
}

#[via_fn]
proof fn topo_rec_dec(d: Dag, r: Set<TaskId>) {
    reveal(topo_rec);
    if r.finite() && !r.is_empty() && !source_set(d, r).is_empty() {
        let l = source_set(d, r);
        let x = l.choose();
        assert(l.contains(x));
        assert(r.contains(x));
        assert(!r.difference(l).contains(x));
        assert(r.difference(l).subset_of(r));
        r.difference(l).lemma_subset_not_in_lt(r, x);
    }
}

/// The topological order of the whole graph: sources first, each layer in
/// ascending identifier order.
pub open spec fn spec_topo(d: Dag) -> Seq<TaskId> {
    topo_rec(d, d.nodes)
}

/// Two duplicate-free sequences with no common member concatenate to a
/// duplicate-free sequence.
proof fn lemma_concat_no_duplicates(a: Seq<TaskId>, b: Seq<TaskId>)
    requires
        a.no_duplicates(),
        b.no_duplicates(),
        forall|y: TaskId| #[trigger] a.contains(y) ==> !b.contains(y),
    ensures
        (a + b).no_duplicates(),
{
    let c = a + b;
    assert forall|p: int, q: int|
        0 <= p < c.len() && 0 <= q < c.len() && p != q implies c[p] != c[q] by {
        if p < a.len() && q < a.len() {
            assert(c[p] == a[p] && c[q] == a[q]);
        } else if p >= a.len() && q >= a.len() {
            assert(c[p] == b[p - a.len()] && c[q] == b[q - a.len()]);
        } else if p < a.len() {
            assert(c[p] == a[p] && c[q] == b[q - a.len()]);
            if a[p] == b[q - a.len()] {
                assert(a.contains(c[p]) && b.contains(c[q]));
            }
        } else {
            assert(c[q] == a[q] && c[p] == b[p - a.len()]);
            if a[q] == b[p - a.len()] {
                assert(a.contains(c[q]) && b.contains(c[p]));
            }
        }
    }
}

/// Appends a copy of `src` to `dst`.
fn append_ids(dst: &mut Vec<TaskId>, src: &Vec<TaskId>)
    ensures
        final(dst)@ == old(dst)@ + src@,
{
    let n = src.len();
    let mut i: usize = 0;
    proof {
        assert(dst@ =~= old(dst)@ + src@.take(0));
    }
    while i < n
        invariant
            i <= n,
            n == src@.len(),
            dst@ == old(dst)@ + src@.take(i as int),
        decreases n - i,
    {
        dst.push(src[i]);
        proof {
            assert(dst@ =~= old(dst)@ + src@.take(i + 1 as int));
        }
        i += 1;
    }
    proof {
        assert(src@.take(n as int) =~= src@);
    }
}

impl TaskIdDag {
    /// Collects, in ascending identifier order, the not-yet-sorted nodes
    /// that no not-yet-sorted node points at.
    #[verifier::rlimit(50)]
    fn layer(&self, sorted: &Vec<TaskId>) -> (lay: Vec<TaskId>)
        ensures
            lay@.to_set() == source_set(self@, self@.nodes.difference(sorted@.to_set())),
            sorted_ids(lay@),
            lay@.no_duplicates(),
    {
        proof {
            use_type_invariant(self);
        }
        let ghost d = self@;
        let ghost rem = self@.nodes.difference(sorted@.to_set());
        let n = self.nodes.len();
        let n_edges = self.edge_list.len();
        let mut lay: Vec<TaskId> = Vec::new();
        let ghost mut last_j: int = 0;
        let mut i: usize = 0;
        while i < n
            invariant
                i <= n,
                n == self.nodes@.len(),
                n_edges == self.edge_list@.len(),
                self.inv(),
                d == self@,
                rem == d.nodes.difference(sorted@.to_set()),
                sorted_ids(lay@),
                lay@.len() > 0 ==> 0 <= last_j < i && lay@.last() == self.nodes@[last_j],
                forall|y: TaskId| #[trigger] lay@.contains(y) ==> source_set(d, rem).contains(y),
                forall|j: int|
                    0 <= j < i && source_set(d, rem).contains(#[trigger] self.nodes@[j])
                        ==> lay@.contains(self.nodes@[j]),
            decreases n - i,
        {
            let nd = self.nodes[i];
            if !contains_id(sorted, nd) {
                let mut blocked = false;
                let mut j: usize = 0;
                while j < n_edges
                    invariant
                        j <= n_edges,
                        n_edges == self.edge_list@.len(),
                        self.inv(),
                        d == self@,
                        rem == d.nodes.difference(sorted@.to_set()),
                        i < n,
                        n == self.nodes@.len(),
                        nd == self.nodes@[i as int],
                        !sorted@.contains(nd),
                        !blocked ==> forall|k: int|
                            0 <= k < j && (#[trigger] self.edge_list@[k]).1 == nd
                                ==> sorted@.contains(self.edge_list@[k].0),
                        blocked ==> exists|u: TaskId|
                            rem.contains(u) && #[trigger] d.edges.contains((u, nd)),
                    decreases n_edges - j,
                {
                    let (u, v) = self.edge_list[j];
                    if v == nd && !contains_id(sorted, u) {
                        proof {
                            assert(self.edge_list@[j as int] == (u, v));
                            assert(d.nodes.contains(self.edge_list@[j as int].0));
                            assert(d.edges.contains((u, nd)));
                            assert(rem.contains(u) && d.edges.contains((u, nd)));
                        }
                        blocked = true;
                    }
                    j += 1;
                }
                if !blocked {
                    proof {
                        assert(d.nodes.contains(nd)) by {
                            assert(self.nodes@[i as int] == nd);
                        }
                        assert(rem.contains(nd));
                        assert forall|u: TaskId| rem.contains(u) implies !(
                        #[trigger] d.edges.contains((u, nd))) by {
                            if d.edges.contains((u, nd)) {
                                let k = choose|k: int|
                                    0 <= k < self.edge_list@.len() && self.edge_list@[k] == (
                                    u,
                                    nd,
                                );
                                assert((self.edge_list@[k]).1 == nd);
                                assert(sorted@.contains(self.edge_list@[k].0));
                            }
                        }
                        assert(source_set(d, rem).contains(nd));
                        if lay@.len() > 0 {
                            lemma_sorted_ids_lt(self.nodes@, last_j, i as int);
                        }
                    }
                    let ghost lay0 = lay@;
                    lay.push(nd);
                    proof {
                        last_j = i as int;
                        assert forall|k: int| 0 <= k < lay@.len() - 1 implies (
                        #[trigger] lay@[k]).0 < lay@[k + 1].0 by {
                            if k < lay0.len() - 1 {
                                assert(lay@[k] == lay0[k] && lay@[k + 1] == lay0[k + 1]);
                                assert(lay0[k].0 < lay0[k + 1].0);
                            } else {
                                assert(lay@[k] == lay0[lay0.len() - 1] && lay@[k + 1] == nd);
                            }
                        }
                        assert forall|y: TaskId| #[trigger] lay@.contains(y) implies source_set(
                            d,
                            rem,
                        ).contains(y) by {
                            let k = choose|k: int| 0 <= k < lay@.len() && lay@[k] == y;
                            if k < lay0.len() {
                                assert(lay0[k] == y);
                                assert(lay0.contains(y));
                            } else {
                                assert(y == nd);
                            }
                        }
                        assert forall|jj: int|
                            0 <= jj < i + 1 && source_set(d, rem).contains(
                                #[trigger] self.nodes@[jj],
                            ) implies lay@.contains(self.nodes@[jj]) by {
                            if jj < i {
                                assert(lay0.contains(self.nodes@[jj]));
                                let k = choose|k: int|
                                    0 <= k < lay0.len() && lay0[k] == self.nodes@[jj];
                                assert(lay@[k] == self.nodes@[jj]);
                            } else {
                                assert(lay@[lay@.len() - 1] == nd);
                            }
                        }
                    }
                } else {
                    proof {
                        let u = choose|u: TaskId|
                            rem.contains(u) && #[trigger] d.edges.contains((u, nd));
                        assert(!source_set(d, rem).contains(nd));
                    }
                }
            } else {
                proof {
                    assert(!rem.contains(nd));
                    assert(!source_set(d, rem).contains(nd));
                }
            }
            i += 1;
        }
        proof {
            assert(lay@.to_set() =~= source_set(d, rem)) by {
                assert forall|y: TaskId| source_set(d, rem).contains(y) implies lay@.to_set(
                ).contains(y) by {
                    assert(rem.contains(y));
                    assert(d.nodes.contains(y));
                    let k = choose|k: int| 0 <= k < self.nodes@.len() && self.nodes@[k] == y;
                    assert(source_set(d, rem).contains(self.nodes@[k]));
                    assert(lay@.contains(self.nodes@[k]));
                }
            }
            lemma_sorted_ids_no_duplicates(lay@);
        }
        lay
    }

    /// The topological order of the lock-in graph: repeatedly peels off all
    /// nodes that no unsorted node points at, each layer in ascending
    /// identifier order.
    pub fn topological_sort(&self) -> (r: Vec<TaskId>)
        ensures
            r@ == spec_topo(self@),
            r@.no_duplicates(),
    {
        proof {
            use_type_invariant(self);
        }
        let ghost d = self@;
        let n = self.nodes.len();
        let mut sorted: Vec<TaskId> = Vec::new();
        proof {
            assert(sorted@.to_set() =~= Set::<TaskId>::empty());
            assert(d.nodes.difference(sorted@.to_set()) =~= d.nodes);
            assert(Seq::<TaskId>::empty() + topo_rec(d, d.nodes) =~= topo_rec(d, d.nodes));
        }
        while sorted.len() < n
            invariant
                n == self.nodes@.len(),
                self.inv(),
                d == self@,
                sorted@.no_duplicates(),
                forall|y: TaskId| #[trigger] sorted@.contains(y) ==> d.nodes.contains(y),
                spec_topo(d) == sorted@ + topo_rec(d, d.nodes.difference(sorted@.to_set())),
            decreases n - sorted.len(),
        {
            let ghost rem = d.nodes.difference(sorted@.to_set());
            proof {
                lemma_remaining_nonempty(d, self.nodes@, sorted@);
                lemma_source_exists(d, rem);
            }
            let lay = self.layer(&sorted);
            let ghost sorted0 = sorted@;
            append_ids(&mut sorted, &lay);
            proof {
                lemma_topo_step(d, sorted0, lay@);
                lemma_sorted_bounded(d, self.nodes@, sorted@);
            }
        }
        proof {
            lemma_topo_finish(d, self.nodes@, sorted@);
        }
        sorted
    }
}

/// A duplicate-free selection from the graph's nodes is no longer than the
/// node list.
proof fn lemma_sorted_bounded(d: Dag, nodes: Seq<TaskId>, sorted: Seq<TaskId>)
    requires
        d.nodes == nodes.to_set(),
        nodes.no_duplicates(),
        sorted.no_duplicates(),
        forall|y: TaskId| #[trigger] sorted.contains(y) ==> d.nodes.contains(y),
    ensures
        sorted.len() <= nodes.len(),
{
    broadcast use vstd::seq_lib::seq_to_set_is_finite;

    sorted.unique_seq_to_set();
    nodes.unique_seq_to_set();
    assert(sorted.to_set().subset_of(d.nodes));
    vstd::set_lib::lemma_len_subset(sorted.to_set(), d.nodes);
}

/// While fewer identifiers are sorted than the graph has nodes, some node
/// is still unsorted.
proof fn lemma_remaining_nonempty(d: Dag, nodes: Seq<TaskId>, sorted: Seq<TaskId>)
    requires
        d.nodes == nodes.to_set(),
        nodes.no_duplicates(),
        sorted.no_duplicates(),
        sorted.len() < nodes.len(),
    ensures
        !d.nodes.difference(sorted.to_set()).is_empty(),
        d.nodes.difference(sorted.to_set()).finite(),
{
    broadcast use vstd::seq_lib::seq_to_set_is_finite;

    let rem = d.nodes.difference(sorted.to_set());
    nodes.unique_seq_to_set();
    sorted.unique_seq_to_set();
    vstd::set_lib::lemma_len_subset(rem, d.nodes);
    if rem.is_empty() {
        assert(d.nodes.subset_of(sorted.to_set())) by {
            assert forall|y: TaskId| d.nodes.contains(y) implies sorted.to_set().contains(y) by {
                assert(!rem.contains(y));
            }
        }
        vstd::set_lib::lemma_len_subset(d.nodes, sorted.to_set());
    }
}

/// Appending the current source layer to the sorted prefix keeps every
/// invariant of the topological sort and makes progress.
#[verifier::rlimit(100)]
proof fn lemma_topo_step(d: Dag, sorted0: Seq<TaskId>, lay: Seq<TaskId>)
    requires
        d.nodes.finite(),
        sorted0.no_duplicates(),
        forall|y: TaskId| #[trigger] sorted0.contains(y) ==> d.nodes.contains(y),
        spec_topo(d) == sorted0 + topo_rec(d, d.nodes.difference(sorted0.to_set())),
        lay.to_set() == source_set(d, d.nodes.difference(sorted0.to_set())),
        sorted_ids(lay),
        lay.no_duplicates(),
        !source_set(d, d.nodes.difference(sorted0.to_set())).is_empty(),
        d.nodes.difference(sorted0.to_set()).finite(),
    ensures
        (sorted0 + lay).no_duplicates(),
        forall|y: TaskId| #[trigger] (sorted0 + lay).contains(y) ==> d.nodes.contains(y),
        spec_topo(d) == (sorted0 + lay) + topo_rec(
            d,
            d.nodes.difference((sorted0 + lay).to_set()),
        ),
        lay.len() > 0,
{
    broadcast use vstd::seq_lib::seq_to_set_is_finite;

    reveal_with_fuel(topo_rec, 2);
    let rem = d.nodes.difference(sorted0.to_set());
    let l = source_set(d, rem);
    lemma_sorted_ids_unique(lay, l);
    if lay.len() == 0 {
        assert(l.is_empty()) by {
            assert forall|y: TaskId| !l.contains(y) by {
                if lay.contains(y) {
                    let k = choose|k: int| 0 <= k < lay.len() && lay[k] == y;
                }
            }
        }
    }
    assert(lay.len() > 0);
    assert forall|y: TaskId| #[trigger] lay.contains(y) implies !sorted0.contains(y) by {
        assert(lay.to_set().contains(y));
        assert(l.contains(y));
        assert(rem.contains(y));
    }
    lemma_concat_no_duplicates(sorted0, lay);
    let merged = sorted0 + lay;
    assert forall|y: TaskId| #[trigger] merged.contains(y) implies d.nodes.contains(y) by {
        let k = choose|k: int| 0 <= k < merged.len() && merged[k] == y;
        if k < sorted0.len() {
            assert(sorted0[k] == y);
            assert(sorted0.contains(y));
        } else {
            assert(lay[k - sorted0.len()] == y);
            assert(lay.contains(y));
            assert(l.contains(y));
            assert(rem.contains(y));
        }
    }
    assert(topo_rec(d, rem) == asc_ids(l) + topo_rec(d, rem.difference(l)));
    let rem2 = d.nodes.difference(merged.to_set());
    assert(rem2 =~= rem.difference(l)) by {
        assert forall|y: TaskId| rem2.contains(y) == rem.difference(l).contains(y) by {
            assert(merged.contains(y) <==> (sorted0.contains(y) || lay.contains(y))) by {
                if merged.contains(y) {
                    let k = choose|k: int| 0 <= k < merged.len() && merged[k] == y;
                    if k < sorted0.len() {
                        assert(sorted0[k] == y);
                    } else {
                        assert(lay[k - sorted0.len()] == y);
                    }
                }
                if sorted0.contains(y) {
                    let k = choose|k: int| 0 <= k < sorted0.len() && sorted0[k] == y;
                    assert(merged[k] == y);
                }
                if lay.contains(y) {
                    let k = choose|k: int| 0 <= k < lay.len() && lay[k] == y;
                    assert(merged[sorted0.len() + k] == y);
                }
            }
            assert(lay.contains(y) <==> l.contains(y)) by {
                assert(lay.to_set() == l);
            }
        }
    }
    assert(spec_topo(d) == merged + topo_rec(d, rem2)) by {
        assert(sorted0 + (lay + topo_rec(d, rem.difference(l))) =~= (sorted0 + lay) + topo_rec(
            d,
            rem.difference(l),
        ));
    }
}

/// Once as many identifiers are sorted as the graph has nodes, the sorted
/// prefix is the whole topological order.
proof fn lemma_topo_finish(d: Dag, nodes: Seq<TaskId>, sorted: Seq<TaskId>)
    requires
        d.nodes == nodes.to_set(),
        nodes.no_duplicates(),
        sorted.no_duplicates(),
        sorted.len() >= nodes.len(),
        forall|y: TaskId| #[trigger] sorted.contains(y) ==> d.nodes.contains(y),
        spec_topo(d) == sorted + topo_rec(d, d.nodes.difference(sorted.to_set())),
    ensures
        spec_topo(d) == sorted,
{
    broadcast use vstd::seq_lib::seq_to_set_is_finite;

    reveal_with_fuel(topo_rec, 2);
    sorted.unique_seq_to_set();
    nodes.unique_seq_to_set();
    let sset = sorted.to_set();
    assert(sset.subset_of(d.nodes));
    vstd::set_lib::lemma_len_subset(sset, d.nodes);
    assert forall|x: TaskId| d.nodes.contains(x) implies sset.contains(x) by {
        if !sset.contains(x) {
            sset.lemma_subset_not_in_lt(d.nodes, x);
        }
    }
    assert(d.nodes.difference(sset) =~= Set::<TaskId>::empty());
    assert(topo_rec(d, Set::<TaskId>::empty()) == Seq::<TaskId>::empty());
    assert(sorted + Seq::<TaskId>::empty() =~= sorted);
}

/// The views of a collection of ballots.
pub open spec fn ballot_views(s: Seq<OrderedTasks>) -> Seq<Seq<TaskId>> {
    s.map_values(|o: OrderedTasks| o@)
}

/// All ballots rank exactly the identifiers of the first one.
pub open spec fn ballots_agree(ballots: Seq<Seq<TaskId>>) -> bool {
    forall|k: int|
        0 <= k < ballots.len() ==> (#[trigger] ballots[k]).to_set() == ballots[0].to_set()
}

/// The position of `t` in the ballot `b`.
pub open spec fn spec_rank(b: Seq<TaskId>, t: TaskId) -> int {
    b.index_of(t)
}

/// One voter's voice in the contest between `i` and `j`: `1` when the voter
/// ranks `i` ahead of `j`, else `-1`.
pub open spec fn ballot_pref(b: Seq<TaskId>, i: TaskId, j: TaskId) -> int {
    if spec_rank(b, i) < spec_rank(b, j) {
        1
    } else {
        -1
    }
}

/// The signed win margin of `i` over `j` across all ballots.
pub open spec fn margin(ballots: Seq<Seq<TaskId>>, i: TaskId, j: TaskId) -> int
    decreases ballots.len(),
{
    if ballots.len() == 0 {
        0
    } else {
        margin(ballots.drop_last(), i, j) + ballot_pref(ballots.last(), i, j)
    }
}

/// The smaller of two identifiers.
pub open spec fn norm_lo(i: TaskId, j: TaskId) -> TaskId {
    if i.0 < j.0 {
        i
    } else {
        j
    }
}

/// The larger of two identifiers.
pub open spec fn norm_hi(i: TaskId, j: TaskId) -> TaskId {
    if i.0 < j.0 {
        j
    } else {
        i
    }
}

/// The candidate edge for the pair `{lo, hi}`: its weight is the absolute
/// margin, and it points from the loser of the contest to the winner. A tie
/// counts for the larger identifier.
pub open spec fn cand_edge(ballots: Seq<Seq<TaskId>>, lo: TaskId, hi: TaskId) -> (
    int,
    TaskId,
    TaskId,
) {
    let m = margin(ballots, lo, hi);
    if m > 0 {
        (m, hi, lo)
    } else {
        (-m, lo, hi)
    }
}

/// The candidate edges of the pairs `{b0[k], b0[l]}` for `l < upto`.
pub open spec fn row_edges(ballots: Seq<Seq<TaskId>>, b0: Seq<TaskId>, k: int, upto: int) -> Seq<
    (int, TaskId, TaskId),
>
    decreases upto,
{
    if upto <= 0 {
        Seq::empty()
    } else {
        row_edges(ballots, b0, k, upto - 1) + seq![
            cand_edge(
                ballots,
                norm_lo(b0[k], b0[upto - 1]),
                norm_hi(b0[k], b0[upto - 1]),
            ),
        ]
    }
}

/// The candidate edges of all pairs drawn from the first `upto` entries of
/// the canonical ballot, row by row.
pub open spec fn edges_upto(ballots: Seq<Seq<TaskId>>, b0: Seq<TaskId>, upto: int) -> Seq<
    (int, TaskId, TaskId),
>
    decreases upto,
{
    if upto <= 0 {
        Seq::empty()
    } else {
        edges_upto(ballots, b0, upto - 1) + row_edges(ballots, b0, upto - 1, upto - 1)
    }
}

/// Every candidate edge of the election, one per unordered pair of the
/// canonical universe.
pub open spec fn all_edges(ballots: Seq<Seq<TaskId>>) -> Seq<(int, TaskId, TaskId)> {
    edges_upto(ballots, ballots[0], ballots[0].len() as int)
}

/// The sort order of candidate edges: ascending weight (weakest victories
/// first), ties broken by the identifiers of the edge.
pub open spec fn edge_le(e1: (int, TaskId, TaskId), e2: (int, TaskId, TaskId)) -> bool {
    e1.0 < e2.0 || (e1.0 == e2.0 && (e1.1.0 < e2.1.0 || (e1.1 == e2.1 && e1.2.0 <= e2.2.0)))
}

/// `e` slotted into the ascending sequence `s` before the first entry it
/// precedes.
pub open spec fn insert_edge_sorted(e: (int, TaskId, TaskId), s: Seq<(int, TaskId, TaskId)>) -> Seq<
    (int, TaskId, TaskId),
>
    decreases s.len(),
{
    if s.len() == 0 {
        seq![e]
    } else if edge_le(e, s[0]) {
        seq![e] + s
    } else {
        seq![s[0]] + insert_edge_sorted(e, s.drop_first())
    }
}

/// Insertion sort of candidate edges under [`edge_le`].
pub open spec fn sort_edges(s: Seq<(int, TaskId, TaskId)>) -> Seq<(int, TaskId, TaskId)>
    decreases s.len(),
{
    if s.len() == 0 {
        Seq::empty()
    } else {
        insert_edge_sorted(s.last(), sort_edges(s.drop_last()))
    }
}

/// One lock-in attempt: the edge from `e.1` to `e.2` is admitted exactly
/// when it is no self-edge and closes no cycle.
pub open spec fn lock_step(d: Dag, e: (int, TaskId, TaskId)) -> Dag {
    if e.1 != e.2 && !reaches(d, e.2, e.1) {
        insert_edge(d, e.1, e.2)
    } else {
        d
    }
}

/// Locks the edges into the graph in the order given.
pub open spec fn lock_in(d: Dag, es: Seq<(int, TaskId, TaskId)>) -> Dag
    decreases es.len(),
{
    if es.len() == 0 {
        d
    } else {
        lock_in(lock_step(d, es[0]), es.drop_first())
    }
}

/// Locking in one more edge at the end continues the fold.
proof fn lemma_lock_in_push(d: Dag, es: Seq<(int, TaskId, TaskId)>, e: (int, TaskId, TaskId))
    ensures
        lock_in(d, es.push(e)) == lock_step(lock_in(d, es), e),
    decreases es.len(),
{
    let full = es.push(e);
    if es.len() == 0 {
        assert(full.drop_first() =~= Seq::<(int, TaskId, TaskId)>::empty());
        assert(lock_in(d, full) == lock_in(lock_step(d, e), full.drop_first()));
    } else {
        assert(full[0] == es[0]);
        assert(full.drop_first() =~= es.drop_first().push(e));
        lemma_lock_in_push(lock_step(d, es[0]), es.drop_first(), e);
    }
}

/// The consensus ordering of the ranked-pairs method: tally pairwise
/// margins, sort the candidate edges ascending, lock them in skipping any
/// that would close a cycle, and read the result off the topological order,
/// winners first. Tasks of the universe that acquired no locked edge — a
/// task has pairs, and so edges, whenever the universe holds at least two —
/// follow at the end in ballot order, so every ranked task appears.
pub open spec fn consensus(ballots: Seq<Seq<TaskId>>) -> Seq<TaskId> {
    if ballots.len() == 0 {
        Seq::empty()
    } else {
        let core = spec_topo(lock_in(empty_dag(), sort_edges(all_edges(ballots)))).reverse();
        core + ballots[0].filter(|t: TaskId| !core.contains(t))
    }
}

/// Filtering a duplicate-free sequence keeps it duplicate-free.
proof fn lemma_filter_no_duplicates(s: Seq<TaskId>, pred: spec_fn(TaskId) -> bool)
    requires
        s.no_duplicates(),
    ensures
        s.filter(pred).no_duplicates(),
    decreases s.len(),
{
    broadcast use vstd::prelude::Seq::lemma_filter_push;
    broadcast use vstd::prelude::Seq::lemma_filter_contains_rev;

    if s.len() > 0 {
        let rest = s.drop_last();
        let last = s.last();
        lemma_filter_no_duplicates(rest, pred);
        assert(s =~= rest.push(last));
        assert(rest.push(last).filter(pred) == if pred(last) {
            rest.filter(pred).push(last)
        } else {
            rest.filter(pred)
        });
        if pred(last) {
            let f = rest.filter(pred).push(last);
            assert(!rest.filter(pred).contains(last)) by {
                if rest.filter(pred).contains(last) {
                    assert(rest.contains(last));
                }
            }
            assert forall|p: int, q: int|
                0 <= p < f.len() && 0 <= q < f.len() && p != q implies f[p] != f[q] by {
                if p == f.len() - 1 {
                    if f[q] == last {
                        assert(rest.filter(pred).contains(last));
                    }
                } else if q == f.len() - 1 {
                    if f[p] == last {
                        assert(rest.filter(pred).contains(last));
                    }
                }
            }
        }
    }
}

/// Filtering with a predicate that holds nowhere leaves nothing.
proof fn lemma_filter_all_neg(s: Seq<TaskId>, pred: spec_fn(TaskId) -> bool)
    requires
        forall|i: int| 0 <= i < s.len() ==> !pred(#[trigger] s[i]),
    ensures
        s.filter(pred) == Seq::<TaskId>::empty(),
    decreases s.len(),
{
    broadcast use vstd::prelude::Seq::lemma_filter_push;

    if s.len() == 0 {
        assert(s.filter(pred) =~= Seq::<TaskId>::empty()) by {
            s.lemma_filter_len(pred);
        }
    } else {
        let rest = s.drop_last();
        let last = s.last();
        lemma_filter_all_neg(rest, pred);
        assert(s =~= rest.push(last));
        assert(!pred(last));
        assert(rest.push(last).filter(pred) == rest.filter(pred));
    }
}

/// Filtering with a predicate that holds everywhere changes nothing.
proof fn lemma_filter_all_pos(s: Seq<TaskId>, pred: spec_fn(TaskId) -> bool)
    requires
        forall|i: int| 0 <= i < s.len() ==> pred(#[trigger] s[i]),
    ensures
        s.filter(pred) == s,
    decreases s.len(),
{
    broadcast use vstd::prelude::Seq::lemma_filter_push;

    if s.len() == 0 {
        assert(s.filter(pred) =~= s) by {
            s.lemma_filter_len(pred);
        }
    } else {
        let rest = s.drop_last();
        let last = s.last();
        lemma_filter_all_pos(rest, pred);
        assert(s =~= rest.push(last));
        assert(pred(last));
        assert(rest.push(last).filter(pred) == rest.filter(pred).push(last));
        assert(rest.filter(pred).push(last) =~= s);
    }
}

/// A subset with as many members as its (finite) superset is that whole
/// set.
pub(crate) proof fn lemma_subset_same_card_eq(s1: Set<TaskId>, s2: Set<TaskId>)
    requires
        s1.subset_of(s2),
        s2.finite(),
        s1.len() == s2.len(),
    ensures
        s1 == s2,
{
    assert forall|x: TaskId| s2.contains(x) implies s1.contains(x) by {
        if !s1.contains(x) {
            s1.lemma_subset_not_in_lt(s2, x);
        }
    }
    assert(s1 =~= s2);
}

/// The position of `t` in the duplicate-free ballot `o`.
pub(crate) fn rank_in(o: &OrderedTasks, t: TaskId) -> (r: usize)
    requires
        o@.contains(t),
    ensures
        r == spec_rank(o@, t),
        r < o@.len(),
{
    proof {
        use_type_invariant(o);
    }
    let n = o.len();
    let mut i: usize = 0;
    while i < n
        invariant
            i <= n,
            n == o@.len(),
            o@.contains(t),
            o@.no_duplicates(),
            forall|k: int| 0 <= k < i ==> o@[k] != t,
        decreases n - i,
    {
        if o.get(i) == t {
            proof {
                let c = o@.index_of(t);
                assert(0 <= c < o@.len() && o@[c] == t);
                assert(c == i as int);
            }
            return i;
        }
        i += 1;
    }
    proof {
        let c = o@.index_of(t);
        assert(0 <= c < o@.len() && o@[c] == t);
        assert(false);
    }
    0
}

/// The signed win margin of `lo` over `hi` across all ballots, tallied one
/// voter at a time.
fn margin_exec(orderings: &Vec<OrderedTasks>, lo: TaskId, hi: TaskId) -> (m: i128)
    requires
        forall|k: int|
            0 <= k < orderings@.len() ==> (#[trigger] orderings@[k])@.contains(lo)
                && orderings@[k]@.contains(hi),
    ensures
        m == margin(ballot_views(orderings@), lo, hi),
        -(orderings@.len() as int) <= m <= orderings@.len() as int,
{
    let ghost views = ballot_views(orderings@);
    let n = orderings.len();
    let mut m: i128 = 0;
    let mut u: usize = 0;
    proof {
        assert(views.take(0) =~= Seq::<Seq<TaskId>>::empty());
    }
    while u < n
        invariant
            u <= n,
            n == orderings@.len(),
            views == ballot_views(orderings@),
            forall|k: int|
                0 <= k < orderings@.len() ==> (#[trigger] orderings@[k])@.contains(lo)
                    && orderings@[k]@.contains(hi),
            m == margin(views.take(u as int), lo, hi),
            -(u as int) <= m <= u as int,
        decreases n - u,
    {
        let o = &orderings[u];
        let rank_lo = rank_in(o, lo);
        let rank_hi = rank_in(o, hi);
        if rank_lo < rank_hi {
            m += 1;
        } else {
            m -= 1;
        }
        proof {
            let t = views.take(u + 1 as int);
            assert(t.drop_last() =~= views.take(u as int));
            assert(t.last() == views[u as int]);
            assert(views[u as int] == o@);
            assert(margin(t, lo, hi) == margin(views.take(u as int), lo, hi) + ballot_pref(
                o@,
                lo,
                hi,
            ));
        }
        u += 1;
    }
    proof {
        assert(views.take(n as int) =~= views);
    }
    m
}

/// Whether the ballot ranks `t`.
pub(crate) fn contains_ballot(o: &OrderedTasks, t: TaskId) -> (b: bool)
    ensures
        b == o@.contains(t),
{
    let n = o.len();
    let mut i: usize = 0;
    while i < n
        invariant
            i <= n,
            n == o@.len(),
            forall|k: int| 0 <= k < i ==> o@[k] != t,
        decreases n - i,
    {
        if o.get(i) == t {
            return true;
        }
        i += 1;
    }
    false
}

/// Checks that every ballot ranks exactly the identifiers of the first
/// one.
fn check_universe(orderings: &Vec<OrderedTasks>) -> (ok: bool)
    requires
        orderings@.len() > 0,
    ensures
        ok == ballots_agree(ballot_views(orderings@)),
{
    let ghost views = ballot_views(orderings@);
    let o0 = &orderings[0];
    let n0 = o0.len();
    proof {
        use_type_invariant(o0);
    }
    let mut k: usize = 1;
    while k < orderings.len()
        invariant
            1 <= k <= orderings@.len(),
            views == ballot_views(orderings@),
            o0 == &orderings@[0],
            n0 == views[0].len(),
            views[0].no_duplicates(),
            forall|j: int| 0 <= j < k ==> (#[trigger] views[j]).to_set() == views[0].to_set(),
        decreases orderings@.len() - k,
    {
        let ok_ballot = &orderings[k];
        proof {
            use_type_invariant(ok_ballot);
        }
        if ok_ballot.len() != n0 {
            proof {
                views[k as int].unique_seq_to_set();
                views[0].unique_seq_to_set();
                assert(views[k as int].to_set() != views[0].to_set());
                assert(!ballots_agree(views));
            }
            return false;
        }
        let mut i: usize = 0;
        while i < n0
            invariant
                i <= n0,
                views == ballot_views(orderings@),
                o0 == &orderings@[0],
                ok_ballot == &orderings@[k as int],
                k < orderings@.len(),
                n0 == views[0].len(),
                n0 == views[k as int].len(),
                forall|q: int| 0 <= q < i ==> views[0].contains(#[trigger] views[k as int][q]),
            decreases n0 - i,
        {
            let t = ok_ballot.get(i);
            if !contains_ballot(o0, t) {
                proof {
                    assert(views[k as int].contains(t)) by {
                        assert(views[k as int][i as int] == t);
                    }
                    assert(views[k as int].to_set().contains(t));
                    assert(!views[0].to_set().contains(t));
                    assert(views[k as int].to_set() != views[0].to_set());
                    assert(!ballots_agree(views));
                }
                return false;
            }
            i += 1;
        }
        proof {
            broadcast use vstd::seq_lib::seq_to_set_is_finite;

            views[k as int].unique_seq_to_set();
            views[0].unique_seq_to_set();
            assert(views[k as int].to_set().subset_of(views[0].to_set())) by {
                assert forall|y: TaskId|
                    views[k as int].to_set().contains(y) implies views[0].to_set().contains(
                    y,
                ) by {
                    let q = choose|q: int|
                        0 <= q < views[k as int].len() && views[k as int][q] == y;
                    assert(views[0].contains(views[k as int][q]));
                }
            }
            lemma_subset_same_card_eq(views[k as int].to_set(), views[0].to_set());
        }
        k += 1;
    }
    true
}

/// The exec representation of a candidate edge read as a spec value.
pub open spec fn edge_views(s: Seq<(i128, TaskId, TaskId)>) -> Seq<(int, TaskId, TaskId)> {
    s.map_values(|e: (i128, TaskId, TaskId)| (e.0 as int, e.1, e.2))
}

/// Tallies the candidate edge of every unordered pair of the canonical
/// universe, row by row.
fn build_cands(orderings: &Vec<OrderedTasks>) -> (cands: Vec<(i128, TaskId, TaskId)>)
    requires
        orderings@.len() > 0,
        ballots_agree(ballot_views(orderings@)),
    ensures
        edge_views(cands@) == all_edges(ballot_views(orderings@)),
{
    let ghost views = ballot_views(orderings@);
    let n_voters = orderings.len();
    let o0 = &orderings[0];
    let n = o0.len();
    let mut cands: Vec<(i128, TaskId, TaskId)> = Vec::new();
    proof {
        assert(edge_views(cands@) =~= edges_upto(views, views[0], 0));
    }
    let mut k: usize = 0;
    while k < n
        invariant
            k <= n,
            views == ballot_views(orderings@),
            orderings@.len() > 0,
            n_voters == orderings@.len(),
            ballots_agree(views),
            o0 == &orderings@[0],
            n == views[0].len(),
            edge_views(cands@) == edges_upto(views, views[0], k as int),
        decreases n - k,
    {
        let u = o0.get(k);
        proof {
            assert(edge_views(cands@) =~= edges_upto(views, views[0], k as int) + row_edges(
                views,
                views[0],
                k as int,
                0,
            ));
        }
        let mut l: usize = 0;
        while l < k
            invariant
                l <= k < n,
                views == ballot_views(orderings@),
                orderings@.len() > 0,
                n_voters == orderings@.len(),
                ballots_agree(views),
                o0 == &orderings@[0],
                n == views[0].len(),
                u == views[0][k as int],
                edge_views(cands@) == edges_upto(views, views[0], k as int) + row_edges(
                    views,
                    views[0],
                    k as int,
                    l as int,
                ),
            decreases k - l,
        {
            let v = o0.get(l);
            let lo = if u.0 < v.0 {
                u
            } else {
                v
            };
            let hi = if u.0 < v.0 {
                v
            } else {
                u
            };
            proof {
                assert(views[0].contains(lo) && views[0].contains(hi)) by {
                    assert(views[0][k as int] == u && views[0][l as int] == v);
                }
                assert forall|j: int|
                    0 <= j < orderings@.len() implies (#[trigger] orderings@[j])@.contains(lo)
                    && orderings@[j]@.contains(hi) by {
                    assert(views[j] == orderings@[j]@);
                    assert(views[j].to_set() == views[0].to_set());
                    assert(views[0].to_set().contains(lo) && views[0].to_set().contains(hi));
                }
            }
            let m = margin_exec(orderings, lo, hi);
            let e = if m > 0 {
                (m, hi, lo)
            } else {
                (-m, lo, hi)
            };
            let ghost cands0 = cands@;
            cands.push(e);
            proof {
                assert((e.0 as int, e.1, e.2) == cand_edge(views, lo, hi));
                assert(lo == norm_lo(views[0][k as int], views[0][l as int]));
                assert(hi == norm_hi(views[0][k as int], views[0][l as int]));
                assert(edge_views(cands@) =~= edge_views(cands0).push(
                    (e.0 as int, e.1, e.2),
                ));
                assert(row_edges(views, views[0], k as int, l + 1 as int) == row_edges(
                    views,
                    views[0],
                    k as int,
                    l as int,
                ) + seq![cand_edge(views, lo, hi)]);
                assert(edge_views(cands@) =~= edges_upto(views, views[0], k as int)
                    + row_edges(views, views[0], k as int, l + 1 as int));
            }
            l += 1;
        }
        proof {
            assert(edges_upto(views, views[0], k + 1 as int) == edges_upto(
                views,
                views[0],
                k as int,
            ) + row_edges(views, views[0], k as int, k as int));
        }
        k += 1;
    }
    proof {
        assert(all_edges(views) == edges_upto(views, views[0], views[0].len() as int));
    }
    cands
}

/// Whether `e1` sorts at or before `e2`.
fn edge_le_exec(e1: &(i128, TaskId, TaskId), e2: &(i128, TaskId, TaskId)) -> (b: bool)
    ensures
        b == edge_le((e1.0 as int, e1.1, e1.2), (e2.0 as int, e2.1, e2.2)),
{
    proof {
        assert(e1.1 == TaskId(e1.1.0) && e2.1 == TaskId(e2.1.0));
    }
    e1.0 < e2.0 || (e1.0 == e2.0 && (e1.1.0 < e2.1.0 || (e1.1.0 == e2.1.0 && e1.2.0 <= e2.2.0)))
}

/// Slotting an element in before the first entry it precedes is exactly
/// what the recursive insertion does.
proof fn lemma_insert_edge_sorted_at(e: (int, TaskId, TaskId), s: Seq<(int, TaskId, TaskId)>, p: int)
    requires
        0 <= p <= s.len(),
        forall|q: int| 0 <= q < p ==> !edge_le(e, #[trigger] s[q]),
        p == s.len() || edge_le(e, s[p]),
    ensures
        insert_edge_sorted(e, s) == s.insert(p, e),
    decreases s.len(),
{
    if s.len() == 0 {
        assert(insert_edge_sorted(e, s) == seq![e]);
        assert(s.insert(0, e) =~= seq![e]);
    } else if p == 0 {
        assert(edge_le(e, s[0]));
        assert(insert_edge_sorted(e, s) == seq![e] + s);
        assert(s.insert(0, e) =~= seq![e] + s);
    } else {
        assert(!edge_le(e, s[0]));
        let rest = s.drop_first();
        assert forall|q: int| 0 <= q < p - 1 implies !edge_le(e, #[trigger] rest[q]) by {
            assert(rest[q] == s[q + 1]);
        }
        if p < s.len() {
            assert(rest[p - 1] == s[p]);
        }
        lemma_insert_edge_sorted_at(e, rest, p - 1);
        assert(insert_edge_sorted(e, s) == seq![s[0]] + rest.insert(p - 1, e));
        assert(seq![s[0]] + rest.insert(p - 1, e) =~= s.insert(p, e));
    }
}

/// Sorts the candidate edges ascending under [`edge_le`] by insertion.
fn sort_cands(v: &Vec<(i128, TaskId, TaskId)>) -> (r: Vec<(i128, TaskId, TaskId)>)
    ensures
        edge_views(r@) == sort_edges(edge_views(v@)),
{
    let n = v.len();
    let mut r: Vec<(i128, TaskId, TaskId)> = Vec::new();
    proof {
        assert(edge_views(v@.take(0)) =~= Seq::<(int, TaskId, TaskId)>::empty());
        assert(edge_views(r@) =~= Seq::<(int, TaskId, TaskId)>::empty());
    }
    let mut i: usize = 0;
    while i < n
        invariant
            i <= n,
            n == v@.len(),
            edge_views(r@) == sort_edges(edge_views(v@.take(i as int))),
        decreases n - i,
    {
        let e = v[i];
        let mut p: usize = 0;
        while p < r.len() && !edge_le_exec(&e, &r[p as usize])
            invariant
                p <= r@.len(),
                forall|q: int|
                    0 <= q < p ==> !edge_le(
                        (e.0 as int, e.1, e.2),
                        #[trigger] edge_views(r@)[q],
                    ),
            decreases r@.len() - p,
        {
            p += 1;
        }
        let ghost r0 = r@;
        r.insert(p, e);
        proof {
            let ev = (e.0 as int, e.1, e.2);
            lemma_insert_edge_sorted_at(ev, edge_views(r0), p as int);
            assert(edge_views(r@) =~= edge_views(r0).insert(p as int, ev)) by {
                r0.insert_ensures(p as int, e);
            }
            let t = v@.take(i + 1 as int);
            assert(edge_views(t).drop_last() =~= edge_views(v@.take(i as int)));
            assert(edge_views(t).last() == ev);
            assert(sort_edges(edge_views(t)) == insert_edge_sorted(
                ev,
                sort_edges(edge_views(t).drop_last()),
            ));
        }
        i += 1;
    }
    proof {
        assert(v@.take(n as int) =~= v@);
    }
    r
}

/// Locks the sorted candidate edges into a fresh graph, skipping any that
/// would close a cycle.
fn lock_all(sorted: &Vec<(i128, TaskId, TaskId)>) -> (dag: TaskIdDag)
    ensures
        dag@ == lock_in(empty_dag(), edge_views(sorted@)),
{
    let n = sorted.len();
    let mut dag = TaskIdDag::default();
    proof {
        assert(edge_views(sorted@.take(0)) =~= Seq::<(int, TaskId, TaskId)>::empty());
    }
    let mut i: usize = 0;
    while i < n
        invariant
            i <= n,
            n == sorted@.len(),
            dag@ == lock_in(empty_dag(), edge_views(sorted@.take(i as int))),
        decreases n - i,
    {
        let e = sorted[i];
        let ghost before = dag@;
        dag.try_insert((e.1, e.2));
        proof {
            let ev = (e.0 as int, e.1, e.2);
            assert(dag@ == lock_step(before, ev));
            assert(edge_views(sorted@.take(i + 1 as int)) =~= edge_views(
                sorted@.take(i as int),
            ).push(ev));
            lemma_lock_in_push(empty_dag(), edge_views(sorted@.take(i as int)), ev);
        }
        i += 1;
    }
    proof {
        assert(sorted@.take(n as int) =~= sorted@);
    }
    dag
}

/// A fresh vector with the same identifiers in the opposite order.
fn reverse_ids(v: &Vec<TaskId>) -> (r: Vec<TaskId>)
    ensures
        r@ == v@.reverse(),
{
    let n = v.len();
    let mut r: Vec<TaskId> = Vec::new();
    let mut i: usize = 0;
    while i < n
        invariant
            i <= n,
            n == v@.len(),
            r@.len() == i,
            forall|q: int| 0 <= q < i ==> r@[q] == v@[n - 1 - q],
        decreases n - i,
    {
        r.push(v[n - 1 - i]);
        i += 1;
    }
    proof {
        assert(r@ =~= v@.reverse());
    }
    r
}

/// The ranked-pairs aggregation of `orderings` into one consensus ballot.
/// All ballots must rank the same set of identifiers; otherwise the
/// mismatch is reported and nothing is computed.
pub fn ranked_pairs_ordering(orderings: &Vec<OrderedTasks>) -> (r: Result<
    OrderedTasks,
    AthensError,
>)
    ensures
        match r {
            Ok(o) => ballots_agree(ballot_views(orderings@)) && o@ == consensus(
                ballot_views(orderings@),
            ),
            Err(e) => e == AthensError::UniverseMismatch && !ballots_agree(
                ballot_views(orderings@),
            ),
        },
{
    let ghost views = ballot_views(orderings@);
    if orderings.len() == 0 {
        return Ok(OrderedTasks::empty());
    }
    if !check_universe(orderings) {
        return Err(AthensError::UniverseMismatch);
    }
    let cands = build_cands(orderings);
    let sorted_cands = sort_cands(&cands);
    let dag = lock_all(&sorted_cands);
    let topo = dag.topological_sort();
    let mut rev = reverse_ids(&topo);
    proof {
        assert(rev@.no_duplicates()) by {
            assert forall|p: int, q: int|
                0 <= p < rev@.len() && 0 <= q < rev@.len() && p != q implies rev@[p]
                != rev@[q] by {
                assert(rev@[p] == topo@[topo@.len() - 1 - p]);
                assert(rev@[q] == topo@[topo@.len() - 1 - q]);
            }
        }
    }
    let ghost core = rev@;
    let ghost pred = |t: TaskId| !core.contains(t);
    let o0 = &orderings[0];
    proof {
        use_type_invariant(o0);
    }
    let n0 = o0.len();
    let mut extra: Vec<TaskId> = Vec::new();
    proof {
        broadcast use vstd::prelude::Seq::lemma_filter_push;

        o0@.take(0).lemma_filter_len(pred);
        assert(extra@ =~= o0@.take(0).filter(pred));
    }
    let mut i: usize = 0;
    while i < n0
        invariant
            i <= n0,
            n0 == o0@.len(),
            o0 == &orderings@[0],
            core == rev@,
            pred == (|t: TaskId| !core.contains(t)),
            extra@ == o0@.take(i as int).filter(pred),
        decreases n0 - i,
    {
        let t = o0.get(i);
        if !contains_id(&rev, t) {
            extra.push(t);
        }
        proof {
            broadcast use vstd::prelude::Seq::lemma_filter_push;

            assert(o0@.take(i + 1 as int) =~= o0@.take(i as int).push(t));
            assert(o0@.take(i + 1 as int).filter(pred) == if pred(t) {
                o0@.take(i as int).filter(pred).push(t)
            } else {
                o0@.take(i as int).filter(pred)
            });
        }
        i += 1;
    }
    proof {
        broadcast use vstd::prelude::Seq::lemma_filter_pred;
        broadcast use vstd::prelude::Seq::lemma_filter_contains_rev;

        assert(o0@.take(n0 as int) =~= o0@);
        assert(extra@ == o0@.filter(pred));
        lemma_filter_no_duplicates(o0@, pred);
        assert forall|y: TaskId| #[trigger] core.contains(y) implies !extra@.contains(y) by {
            if extra@.contains(y) {
                let k = choose|k: int| 0 <= k < extra@.len() && extra@[k] == y;
                assert(pred(o0@.filter(pred)[k]));
            }
        }
    }
    let ghost rev0 = rev@;
    append_ids(&mut rev, &extra);
    proof {
        lemma_concat_no_duplicates(rev0, extra@);
        assert(consensus(views) == core + views[0].filter(|t: TaskId| !core.contains(t)));
        assert(views[0].filter(|t: TaskId| !core.contains(t)) == o0@.filter(pred)) by {
            assert(views[0] == o0@);
            assert(pred =~= (|t: TaskId| !core.contains(t)));
        }
        assert(rev@ == consensus(views));
    }
    Ok(OrderedTasks::from_distinct(rev))
}

/// The position of each entry of a duplicate-free ballot is its rank.
proof fn lemma_rank_at(b: Seq<TaskId>, k: int)
    requires
        b.no_duplicates(),
        0 <= k < b.len(),
    ensures
        spec_rank(b, b[k]) == k,
{
    assert(b.contains(b[k]));
    let c = b.index_of(b[k]);
    assert(0 <= c < b.len() && b[c] == b[k]);
}

/// With a single ballot, the win margin is that one voter's voice.
proof fn lemma_margin_single(b: Seq<TaskId>, i: TaskId, j: TaskId)
    ensures
        margin(seq![b], i, j) == ballot_pref(b, i, j),
{
    let views = seq![b];
    assert(views.drop_last() =~= Seq::<Seq<TaskId>>::empty());
    assert(views.last() == b);
    assert(margin(Seq::<Seq<TaskId>>::empty(), i, j) == 0);
}

/// With a single ballot, the candidate edge of the pair `{b[k], b[l]}`
/// with `l < k` points from the later entry to the earlier one, with
/// weight one.
proof fn lemma_cand_edge_single(b: Seq<TaskId>, k: int, l: int)
    requires
        b.no_duplicates(),
        0 <= l < k < b.len(),
    ensures
        cand_edge(seq![b], norm_lo(b[k], b[l]), norm_hi(b[k], b[l])) == (1int, b[k], b[l]),
{
    lemma_rank_at(b, k);
    lemma_rank_at(b, l);
    let lo = norm_lo(b[k], b[l]);
    let hi = norm_hi(b[k], b[l]);
    lemma_margin_single(b, lo, hi);
    assert(b[k] != b[l]);
    if b[k].0 == b[l].0 {
        assert(b[k] == TaskId(b[k].0) && b[l] == TaskId(b[l].0));
    }
}

/// With a single ballot, one voter's row holds exactly the edges from
/// `b[k]` back to each earlier entry.
proof fn lemma_row_edges_single(b: Seq<TaskId>, k: int, upto: int)
    requires
        b.no_duplicates(),
        0 <= upto <= k < b.len(),
    ensures
        row_edges(seq![b], b, k, upto).len() == upto,
        forall|i: int|
            0 <= i < upto ==> row_edges(seq![b], b, k, upto)[i] == (1int, b[k], b[i]),
    decreases upto,
{
    if upto > 0 {
        lemma_row_edges_single(b, k, upto - 1);
        lemma_cand_edge_single(b, k, upto - 1);
        let es = row_edges(seq![b], b, k, upto);
        let prev = row_edges(seq![b], b, k, upto - 1);
        assert(es == prev + seq![
            cand_edge(seq![b], norm_lo(b[k], b[upto - 1]), norm_hi(b[k], b[upto - 1])),
        ]);
        assert forall|i: int| 0 <= i < upto implies es[i] == (1int, b[k], b[i]) by {
            if i < upto - 1 {
                assert(es[i] == prev[i]);
            } else {
                assert(es[i] == (1int, b[k], b[upto - 1]));
            }
        }
    }
}

/// With a single ballot, the candidate edges of all pairs drawn from the
/// first `upto` entries are exactly the later-to-earlier edges among them.
proof fn lemma_edges_upto_single(b: Seq<TaskId>, upto: int)
    requires
        b.no_duplicates(),
        0 <= upto <= b.len(),
    ensures
        forall|i: int|
            0 <= i < edges_upto(seq![b], b, upto).len() ==> exists|k: int, l: int|
                0 <= l < k < upto && #[trigger] edges_upto(seq![b], b, upto)[i] == (
                1int,
                b[k],
                b[l],
                ),
        forall|k: int, l: int|
            0 <= l < k < upto ==> edges_upto(seq![b], b, upto).contains(
                (1int, #[trigger] b[k], #[trigger] b[l]),
            ),
    decreases upto,
{
    if upto > 0 {
        lemma_edges_upto_single(b, upto - 1);
        lemma_row_edges_single(b, upto - 1, upto - 1);
        let es = edges_upto(seq![b], b, upto);
        let prev = edges_upto(seq![b], b, upto - 1);
        let row = row_edges(seq![b], b, upto - 1, upto - 1);
        assert(es == prev + row);
        assert forall|i: int| 0 <= i < es.len() implies exists|k: int, l: int|
            0 <= l < k < upto && #[trigger] es[i] == (1int, b[k], b[l]) by {
            if i < prev.len() {
                assert(es[i] == prev[i]);
                let (k, l) = choose|k: int, l: int|
                    0 <= l < k < upto - 1 && prev[i] == (1int, b[k], b[l]);
                assert(0 <= l < k < upto && es[i] == (1int, b[k], b[l]));
            } else {
                let l = i - prev.len();
                assert(es[i] == row[l]);
                assert(row[l] == (1int, b[upto - 1], b[l]));
                assert(0 <= l < upto - 1 < upto && es[i] == (1int, b[upto - 1], b[l]));
            }
        }
        assert forall|k: int, l: int| 0 <= l < k < upto implies es.contains(
            (1int, #[trigger] b[k], #[trigger] b[l]),
        ) by {
            if k < upto - 1 {
                assert(prev.contains((1int, b[k], b[l])));
                let i = choose|i: int| 0 <= i < prev.len() && prev[i] == (1int, b[k], b[l]);
                assert(es[i] == (1int, b[k], b[l]));
            } else {
                assert(row[l] == (1int, b[k], b[l]));
                assert(es[prev.len() + l] == (1int, b[k], b[l]));
            }
        }
    }
}

/// Slotting in one candidate edge adds exactly it to the multiset.
proof fn lemma_insert_edge_sorted_multiset(e: (int, TaskId, TaskId), s: Seq<(int, TaskId, TaskId)>)
    ensures
        insert_edge_sorted(e, s).to_multiset() =~= s.to_multiset().insert(e),
    decreases s.len(),
{
    broadcast use vstd::seq_lib::group_to_multiset_ensures;

    if s.len() == 0 {
        assert(seq![e] =~= Seq::<(int, TaskId, TaskId)>::empty().push(e));
    } else if edge_le(e, s[0]) {
        assert(seq![e] + s =~= s.insert(0, e));
        vstd::seq_lib::to_multiset_insert(s, 0, e);
    } else {
        let rest = s.drop_first();
        lemma_insert_edge_sorted_multiset(e, rest);
        let r = insert_edge_sorted(e, s);
        assert(r == seq![s[0]] + insert_edge_sorted(e, rest));
        vstd::seq_lib::lemma_multiset_commutative(seq![s[0]], insert_edge_sorted(e, rest));
        vstd::seq_lib::lemma_multiset_commutative(seq![s[0]], rest);
        assert(s =~= seq![s[0]] + rest);
        assert(seq![s[0]].to_multiset() =~= vstd::multiset::Multiset::<
            (int, TaskId, TaskId),
        >::empty().insert(s[0])) by {
            assert(seq![s[0]] =~= Seq::<(int, TaskId, TaskId)>::empty().push(s[0]));
        }
        assert(r.to_multiset() =~= s.to_multiset().insert(e));
    }
}

/// Sorting rearranges the candidate edges and loses none.
proof fn lemma_sort_edges_multiset(s: Seq<(int, TaskId, TaskId)>)
    ensures
        sort_edges(s).to_multiset() =~= s.to_multiset(),
    decreases s.len(),
{
    broadcast use vstd::seq_lib::group_to_multiset_ensures;

    if s.len() > 0 {
        lemma_sort_edges_multiset(s.drop_last());
        lemma_insert_edge_sorted_multiset(s.last(), sort_edges(s.drop_last()));
        assert(s =~= s.drop_last().push(s.last()));
    }
}

/// Every edge of `d` points from a later-ranked entry of `b` to an
/// earlier-ranked one.
spec fn rank_edges_ok(b: Seq<TaskId>, d: Dag) -> bool {
    forall|x: TaskId, y: TaskId| #[trigger]
        d.edges.contains((x, y)) ==> b.contains(x) && b.contains(y) && spec_rank(b, y)
            < spec_rank(b, x)
}

/// A well-formed single-voter candidate edge: weight one, both endpoints
/// ranked, pointing from the later-ranked one to the earlier-ranked one.
spec fn single_edge_ok(b: Seq<TaskId>, e: (int, TaskId, TaskId)) -> bool {
    &&& b.contains(e.1)
    &&& b.contains(e.2)
    &&& spec_rank(b, e.2) < spec_rank(b, e.1)
}

/// The directed pairs of an edge sequence.
spec fn seq_pairs(es: Seq<(int, TaskId, TaskId)>) -> Set<(TaskId, TaskId)> {
    Set::new(
        |p: (TaskId, TaskId)| exists|i: int| 0 <= i < es.len() && p == ((#[trigger] es[i]).1, es[i].2),
    )
}

/// The endpoints of an edge sequence.
spec fn seq_endpoints(es: Seq<(int, TaskId, TaskId)>) -> Set<TaskId> {
    Set::new(
        |x: TaskId| exists|i: int| 0 <= i < es.len() && ((#[trigger] es[i]).1 == x || es[i].2 == x),
    )
}

/// Along rank-decreasing edges, every walk strictly decreases the rank.
proof fn lemma_reach_rank_decreases(b: Seq<TaskId>, d: Dag, p: Seq<TaskId>)
    requires
        rank_edges_ok(b, d),
        is_path(d, p),
    ensures
        spec_rank(b, p.last()) < spec_rank(b, p.first()),
    decreases p.len(),
{
    if p.len() == 2 {
        let k0: int = 0;
        assert(d.edges.contains((p[k0], p[k0 + 1])));
        assert(p[k0] == p.first() && p[k0 + 1] == p.last());
    } else {
        let q = p.drop_last();
        assert(is_path(d, q)) by {
            assert forall|k: int| 0 <= k < q.len() - 1 implies #[trigger] d.edges.contains(
                (q[k], q[k + 1]),
            ) by {
                assert(d.edges.contains((p[k], p[k + 1])));
                assert(q[k] == p[k] && q[k + 1] == p[k + 1]);
            }
        }
        lemma_reach_rank_decreases(b, d, q);
        let m = p.len() - 2;
        assert(d.edges.contains((p[m], p[m + 1])));
        assert(q.last() == p[m] && p.last() == p[m + 1]);
    }
}

/// Locking in rank-decreasing edges always succeeds: the resulting graph
/// holds every offered edge and nothing else.
proof fn lemma_lock_in_single(b: Seq<TaskId>, d: Dag, es: Seq<(int, TaskId, TaskId)>)
    requires
        b.no_duplicates(),
        rank_edges_ok(b, d),
        forall|i: int| 0 <= i < es.len() ==> single_edge_ok(b, #[trigger] es[i]),
    ensures
        lock_in(d, es).edges == d.edges.union(seq_pairs(es)),
        lock_in(d, es).nodes == d.nodes.union(seq_endpoints(es)),
        rank_edges_ok(b, lock_in(d, es)),
    decreases es.len(),
{
    if es.len() == 0 {
        assert(seq_pairs(es) =~= Set::<(TaskId, TaskId)>::empty());
        assert(seq_endpoints(es) =~= Set::<TaskId>::empty());
        assert(d.edges.union(seq_pairs(es)) =~= d.edges);
        assert(d.nodes.union(seq_endpoints(es)) =~= d.nodes);
    } else {
        let e = es[0];
        assert(single_edge_ok(b, e));
        assert(e.1 != e.2) by {
            if e.1 == e.2 {
                assert(spec_rank(b, e.2) < spec_rank(b, e.1));
            }
        }
        assert(!reaches(d, e.2, e.1)) by {
            if reaches(d, e.2, e.1) {
                let p = choose|p: Seq<TaskId>|
                    is_path(d, p) && p.first() == e.2 && p.last() == e.1;
                lemma_reach_rank_decreases(b, d, p);
            }
        }
        let d1 = insert_edge(d, e.1, e.2);
        assert(lock_step(d, e) == d1);
        assert(rank_edges_ok(b, d1)) by {
            assert forall|x: TaskId, y: TaskId| #[trigger]
                d1.edges.contains((x, y)) implies b.contains(x) && b.contains(y) && spec_rank(
                b,
                y,
            ) < spec_rank(b, x) by {
                if (x, y) != (e.1, e.2) {
                    assert(d.edges.contains((x, y)));
                }
            }
        }
        let rest = es.drop_first();
        assert forall|i: int| 0 <= i < rest.len() implies single_edge_ok(
            b,
            #[trigger] rest[i],
        ) by {
            assert(rest[i] == es[i + 1]);
            assert(single_edge_ok(b, es[i + 1]));
        }
        lemma_lock_in_single(b, d1, rest);
        assert(lock_in(d, es) == lock_in(d1, rest));
        assert(d1.edges.union(seq_pairs(rest)) =~= d.edges.union(seq_pairs(es))) by {
            assert forall|p: (TaskId, TaskId)|
                d1.edges.union(seq_pairs(rest)).contains(p) == d.edges.union(
                    seq_pairs(es),
                ).contains(p) by {
                if seq_pairs(rest).contains(p) {
                    let i = choose|i: int|
                        0 <= i < rest.len() && p == ((#[trigger] rest[i]).1, rest[i].2);
                    assert(es[i + 1] == rest[i]);
                    assert(p == (es[i + 1].1, es[i + 1].2));
                    assert(seq_pairs(es).contains(p));
                }
                if p == (e.1, e.2) {
                    assert(p == ((es[0]).1, es[0].2));
                    assert(seq_pairs(es).contains(p));
                }
                if seq_pairs(es).contains(p) {
                    let i = choose|i: int|
                        0 <= i < es.len() && p == ((#[trigger] es[i]).1, es[i].2);
                    if i == 0 {
                        assert(d1.edges.contains(p));
                    } else {
                        assert(rest[i - 1] == es[i]);
                        assert(p == ((rest[i - 1]).1, rest[i - 1].2));
                        assert(seq_pairs(rest).contains(p));
                    }
                }
            }
        }
        assert(d1.nodes.union(seq_endpoints(rest)) =~= d.nodes.union(seq_endpoints(es))) by {
            assert forall|x: TaskId|
                d1.nodes.union(seq_endpoints(rest)).contains(x) == d.nodes.union(
                    seq_endpoints(es),
                ).contains(x) by {
                if seq_endpoints(rest).contains(x) {
                    let i = choose|i: int|
                        0 <= i < rest.len() && ((#[trigger] rest[i]).1 == x || rest[i].2 == x);
                    assert(es[i + 1] == rest[i]);
                    assert(seq_endpoints(es).contains(x));
                }
                if x == e.1 || x == e.2 {
                    assert((es[0]).1 == x || es[0].2 == x);
                    assert(seq_endpoints(es).contains(x));
                }
                if seq_endpoints(es).contains(x) {
                    let i = choose|i: int|
                        0 <= i < es.len() && ((#[trigger] es[i]).1 == x || es[i].2 == x);
                    if i == 0 {
                        assert(d1.nodes.contains(x));
                    } else {
                        assert(rest[i - 1] == es[i]);
                        assert(seq_endpoints(rest).contains(x));
                    }
                }
            }
        }
    }
}

/// The later-to-earlier edges among the first `c` entries of `b`.
spec fn pair_edge_set(b: Seq<TaskId>, c: int) -> Set<(TaskId, TaskId)> {
    Set::new(
        |p: (TaskId, TaskId)| exists|k: int, l: int| 0 <= l < k < c && p == (#[trigger] b[k], #[trigger] b[l]),
    )
}

/// The first `c` entries of `b` as a set.
spec fn prefix_set(b: Seq<TaskId>, c: int) -> Set<TaskId> {
    Set::new(|x: TaskId| exists|i: int| 0 <= i < c && #[trigger] b[i] == x)
}

/// The ascending enumeration of one identifier is that identifier.
proof fn lemma_asc_singleton(x: TaskId)
    ensures
        asc_ids(Set::<TaskId>::empty().insert(x)) == seq![x],
{
    let s = Set::<TaskId>::empty().insert(x);
    assert(s.finite() && s.len() == 1);
    lemma_asc_ids(s);
    let v = asc_ids(s);
    assert(v.len() == 1);
    assert(v.contains(v[0]));
    assert(v.to_set().contains(v[0]));
    assert(v[0] == x);
    assert(v =~= seq![x]);
}

/// Peeling sources off the graph whose edges run from later to earlier
/// entries yields the entries in reverse order.
proof fn lemma_topo_single(b: Seq<TaskId>, f: Dag, c: int)
    requires
        b.no_duplicates(),
        f.edges == pair_edge_set(b, b.len() as int),
        0 <= c <= b.len(),
    ensures
        topo_rec(f, prefix_set(b, c)) == b.take(c).reverse(),
    decreases c,
{
    broadcast use vstd::seq_lib::seq_to_set_is_finite;

    reveal_with_fuel(topo_rec, 2);
    let r = prefix_set(b, c);
    assert(r =~= b.take(c).to_set()) by {
        assert forall|x: TaskId| r.contains(x) == b.take(c).to_set().contains(x) by {
            if r.contains(x) {
                let i = choose|i: int| 0 <= i < c && #[trigger] b[i] == x;
                assert(b.take(c)[i] == x);
                assert(b.take(c).contains(x));
            }
            if b.take(c).contains(x) {
                let i = choose|i: int| 0 <= i < b.take(c).len() && b.take(c)[i] == x;
                assert(b[i] == x);
            }
        }
    }
    if c == 0 {
        assert(r =~= Set::<TaskId>::empty());
        assert(b.take(0).reverse() =~= Seq::<TaskId>::empty());
    } else {
        let last = b[c - 1];
        assert(r.contains(last));
        assert(!r.is_empty());
        let src = source_set(f, r);
        assert(src =~= Set::<TaskId>::empty().insert(last)) by {
            assert forall|y: TaskId|
                src.contains(y) == Set::<TaskId>::empty().insert(last).contains(y) by {
                if src.contains(y) {
                    assert(r.contains(y));
                    let i = choose|i: int| 0 <= i < c && #[trigger] b[i] == y;
                    if i < c - 1 {
                        assert(f.edges.contains((b[c - 1], b[i]))) by {
                            assert(0 <= i < c - 1 < b.len() && (b[c - 1], b[i]) == (
                            b[c - 1],
                            b[i],
                            ));
                        }
                        assert(!f.edges.contains((b[c - 1], y)));
                        assert(false);
                    }
                    assert(y == last);
                }
                if y == last {
                    assert(r.contains(y));
                    assert forall|u: TaskId| r.contains(u) implies !(
                    #[trigger] f.edges.contains((u, y))) by {
                        if f.edges.contains((u, y)) {
                            let (k, l) = choose|k: int, l: int|
                                0 <= l < k < b.len() as int && (u, y) == (
                                #[trigger] b[k],
                                #[trigger] b[l],
                                );
                            assert(b[l] == y && y == b[c - 1]);
                            assert(l == c - 1);
                            let i = choose|i: int| 0 <= i < c && #[trigger] b[i] == u;
                            assert(b[i] == b[k]);
                            assert(i == k);
                        }
                    }
                    assert(src.contains(y));
                }
            }
        }
        assert(!src.is_empty()) by {
            assert(src.contains(last));
        }
        lemma_asc_singleton(last);
        assert(asc_ids(src) == seq![last]) by {
            assert(src == Set::<TaskId>::empty().insert(last));
        }
        assert(r.difference(src) =~= prefix_set(b, c - 1)) by {
            assert forall|x: TaskId|
                r.difference(src).contains(x) == prefix_set(b, c - 1).contains(x) by {
                if r.difference(src).contains(x) {
                    let i = choose|i: int| 0 <= i < c && #[trigger] b[i] == x;
                    assert(x != last);
                    assert(i != c - 1);
                    assert(0 <= i < c - 1 && b[i] == x);
                }
                if prefix_set(b, c - 1).contains(x) {
                    let i = choose|i: int| 0 <= i < c - 1 && #[trigger] b[i] == x;
                    assert(r.contains(x));
                    if x == last {
                        assert(b[i] == b[c - 1]);
                        assert(i == c - 1);
                    }
                }
            }
        }
        lemma_topo_single(b, f, c - 1);
        assert(topo_rec(f, r) == seq![last] + topo_rec(f, prefix_set(b, c - 1)));
        assert(seq![last] + b.take(c - 1).reverse() =~= b.take(c).reverse()) by {
            assert forall|i: int|
                0 <= i < c implies (seq![last] + b.take(c - 1).reverse())[i] == b.take(
                c,
            ).reverse()[i] by {
                if i == 0 {
                } else {
                    assert((seq![last] + b.take(c - 1).reverse())[i] == b.take(
                        c - 1,
                    ).reverse()[i - 1]);
                    assert(b.take(c - 1).reverse()[i - 1] == b.take(c - 1)[c - 1 - i]);
                    assert(b.take(c).reverse()[i] == b.take(c)[c - 1 - i]);
                }
            }
        }
    }
}

/// Aggregating one ballot yields that ballot unchanged: a single voter's
/// preferences have no contradiction to resolve.
#[verifier::rlimit(100)]
pub proof fn lemma_single_ballot_consensus(b: Seq<TaskId>)
    requires
        b.no_duplicates(),
    ensures
        consensus(seq![b]) == b,
{
    broadcast use vstd::seq_lib::group_to_multiset_ensures;

    reveal_with_fuel(topo_rec, 2);
    let views = seq![b];
    assert(views[0] == b);
    let n = b.len() as int;
    let all = all_edges(views);
    assert(all == edges_upto(views, b, n));
    let sorted = sort_edges(all);
    lemma_sort_edges_multiset(all);
    if n <= 1 {
        if n == 1 {
            lemma_edges_upto_single(b, n);
            assert(all.len() == 0) by {
                if all.len() > 0 {
                    let (k, l) = choose|k: int, l: int|
                        0 <= l < k < n && #[trigger] all[0] == (1int, b[k], b[l]);
                }
            }
        }
        assert(all =~= Seq::<(int, TaskId, TaskId)>::empty());
        assert(sorted == Seq::<(int, TaskId, TaskId)>::empty());
        let f = lock_in(empty_dag(), sorted);
        assert(f == empty_dag());
        assert(empty_dag().nodes.is_empty());
        assert(spec_topo(f) == Seq::<TaskId>::empty());
        let core = spec_topo(f).reverse();
        assert(core =~= Seq::<TaskId>::empty());
        let pred = |t: TaskId| !core.contains(t);
        assert(b.filter(pred) == b) by {
            assert forall|i: int| 0 <= i < b.len() implies pred(#[trigger] b[i]) by {
                assert(!core.contains(b[i]));
            }
            lemma_filter_all_pos(b, pred);
        }
        assert(consensus(views) == core + views[0].filter(|t: TaskId| !core.contains(t)));
        assert(views[0].filter(|t: TaskId| !core.contains(t)) == b.filter(pred)) by {
            assert(pred =~= (|t: TaskId| !core.contains(t)));
        }
        assert(core + b =~= b);
    } else {
        lemma_edges_upto_single(b, n);
        assert forall|i: int| 0 <= i < sorted.len() implies single_edge_ok(
            b,
            #[trigger] sorted[i],
        ) by {
            assert(sorted.contains(sorted[i]));
            assert(sorted.to_multiset().contains(sorted[i]));
            assert(all.contains(sorted[i]));
            let j = choose|j: int| 0 <= j < all.len() && all[j] == sorted[i];
            let (k, l) = choose|k: int, l: int|
                0 <= l < k < n && #[trigger] all[j] == (1int, b[k], b[l]);
            lemma_rank_at(b, k);
            lemma_rank_at(b, l);
        }
        lemma_lock_in_single(b, empty_dag(), sorted);
        let f = lock_in(empty_dag(), sorted);
        assert(f.edges =~= pair_edge_set(b, n)) by {
            assert forall|p: (TaskId, TaskId)|
                f.edges.contains(p) == pair_edge_set(b, n).contains(p) by {
                if seq_pairs(sorted).contains(p) {
                    let i = choose|i: int|
                        0 <= i < sorted.len() && p == ((#[trigger] sorted[i]).1, sorted[i].2);
                    assert(sorted.contains(sorted[i]));
                    assert(sorted.to_multiset().contains(sorted[i]));
                    assert(all.contains(sorted[i]));
                    let j = choose|j: int| 0 <= j < all.len() && all[j] == sorted[i];
                    let (k, l) = choose|k: int, l: int|
                        0 <= l < k < n && #[trigger] all[j] == (1int, b[k], b[l]);
                    assert(p == (b[k], b[l]));
                    assert(pair_edge_set(b, n).contains(p));
                }
                if pair_edge_set(b, n).contains(p) {
                    let (k, l) = choose|k: int, l: int|
                        0 <= l < k < n && p == (#[trigger] b[k], #[trigger] b[l]);
                    assert(all.contains((1int, b[k], b[l])));
                    assert(all.to_multiset().contains((1int, b[k], b[l])));
                    assert(sorted.contains((1int, b[k], b[l])));
                    let i = choose|i: int|
                        0 <= i < sorted.len() && sorted[i] == (1int, b[k], b[l]);
                    assert(p == ((sorted[i]).1, sorted[i].2));
                    assert(seq_pairs(sorted).contains(p));
                }
            }
        }
        assert(f.nodes =~= prefix_set(b, n)) by {
            assert forall|x: TaskId| f.nodes.contains(x) == prefix_set(b, n).contains(x) by {
                if seq_endpoints(sorted).contains(x) {
                    let i = choose|i: int|
                        0 <= i < sorted.len() && ((#[trigger] sorted[i]).1 == x || sorted[i].2
                            == x);
                    assert(sorted.contains(sorted[i]));
                    assert(sorted.to_multiset().contains(sorted[i]));
                    assert(all.contains(sorted[i]));
                    let j = choose|j: int| 0 <= j < all.len() && all[j] == sorted[i];
                    let (k, l) = choose|k: int, l: int|
                        0 <= l < k < n && #[trigger] all[j] == (1int, b[k], b[l]);
                    if sorted[i].1 == x {
                        assert(b[k] == x);
                        assert(prefix_set(b, n).contains(x));
                    } else {
                        assert(b[l] == x);
                        assert(prefix_set(b, n).contains(x));
                    }
                }
                if prefix_set(b, n).contains(x) {
                    let i = choose|i: int| 0 <= i < n && #[trigger] b[i] == x;
                    if i >= 1 {
                        assert(all.contains((1int, b[i], b[0])));
                        assert(all.to_multiset().contains((1int, b[i], b[0])));
                        assert(sorted.contains((1int, b[i], b[0])));
                        let q = choose|q: int|
                            0 <= q < sorted.len() && sorted[q] == (1int, b[i], b[0]);
                        assert((sorted[q]).1 == x || sorted[q].2 == x);
                        assert(seq_endpoints(sorted).contains(x));
                    } else {
                        assert(all.contains((1int, b[1], b[0])));
                        assert(all.to_multiset().contains((1int, b[1], b[0])));
                        assert(sorted.contains((1int, b[1], b[0])));
                        let q = choose|q: int|
                            0 <= q < sorted.len() && sorted[q] == (1int, b[1], b[0]);
                        assert((sorted[q]).1 == x || sorted[q].2 == x);
                        assert(seq_endpoints(sorted).contains(x));
                    }
                }
            }
        }
        lemma_topo_single(b, f, n);
        assert(spec_topo(f) == topo_rec(f, prefix_set(b, n)));
        assert(b.take(n) =~= b);
        assert(spec_topo(f) == b.reverse());
        let core = spec_topo(f).reverse();
        assert(core =~= b) by {
            assert forall|i: int| 0 <= i < b.len() implies core[i] == b[i] by {
                assert(core[i] == b.reverse()[b.len() - 1 - i]);
            }
        }
        let pred = |t: TaskId| !core.contains(t);
        assert(b.filter(pred) == Seq::<TaskId>::empty()) by {
            assert forall|i: int| 0 <= i < b.len() implies !pred(#[trigger] b[i]) by {
                assert(core == b);
                assert(core.contains(b[i]));
            }
            lemma_filter_all_neg(b, pred);
        }
        assert(consensus(views) == core + views[0].filter(|t: TaskId| !core.contains(t)));
        assert(views[0].filter(|t: TaskId| !core.contains(t)) == b.filter(pred)) by {
            assert(pred =~= (|t: TaskId| !core.contains(t)));
        }
        assert(core + Seq::<TaskId>::empty() =~= b);
    }
}

/// Locking in edges never breaks acyclicity: an edge is only admitted when
/// its reverse direction is unreachable.
proof fn lemma_lock_in_acyclic(d: Dag, es: Seq<(int, TaskId, TaskId)>)
    requires
        acyclic(d),
    ensures
        acyclic(lock_in(d, es)),
    decreases es.len(),
{
    if es.len() > 0 {
        let e = es[0];
        if e.1 != e.2 && !reaches(d, e.2, e.1) {
            lemma_insert_edge_acyclic(d, e.1, e.2);
        }
        lemma_lock_in_acyclic(lock_step(d, e), es.drop_first());
    }
}

/// The lock-in introduces no nodes beyond the offered endpoints.
proof fn lemma_lock_in_nodes_bounded(d: Dag, es: Seq<(int, TaskId, TaskId)>, univ: Set<TaskId>)
    requires
        d.nodes.subset_of(univ),
        forall|q: int|
            0 <= q < es.len() ==> univ.contains((#[trigger] es[q]).1) && univ.contains(es[q].2),
    ensures
        lock_in(d, es).nodes.subset_of(univ),
    decreases es.len(),
{
    if es.len() > 0 {
        let e = es[0];
        let d1 = lock_step(d, e);
        assert(d1.nodes.subset_of(univ)) by {
            assert(univ.contains(es[0].1) && univ.contains(es[0].2));
        }
        let rest = es.drop_first();
        assert forall|q: int|
            0 <= q < rest.len() implies univ.contains((#[trigger] rest[q]).1) && univ.contains(
            rest[q].2,
        ) by {
            assert(rest[q] == es[q + 1]);
        }
        lemma_lock_in_nodes_bounded(d1, rest, univ);
    }
}

/// The topological order of an acyclic graph restricted to a finite node
/// set names exactly that set.
proof fn lemma_topo_rec_covers(d: Dag, r: Set<TaskId>)
    requires
        acyclic(d),
        r.finite(),
    ensures
        topo_rec(d, r).to_set() == r,
        topo_rec(d, r).no_duplicates(),
    decreases r.len(),
{
    broadcast use vstd::seq_lib::seq_to_set_is_finite;

    reveal_with_fuel(topo_rec, 2);
    if r.is_empty() {
        assert(topo_rec(d, r).to_set() =~= r);
    } else {
        lemma_source_exists(d, r);
        let l = source_set(d, r);
        assert(l.subset_of(r));
        vstd::set_lib::lemma_len_subset(l, r);
        let x = l.choose();
        assert(l.contains(x));
        assert(!r.difference(l).contains(x));
        r.difference(l).lemma_subset_not_in_lt(r, x);
        lemma_topo_rec_covers(d, r.difference(l));
        lemma_asc_ids(l);
        let head = asc_ids(l);
        let tail = topo_rec(d, r.difference(l));
        assert(topo_rec(d, r) == head + tail);
        assert((head + tail).to_set() =~= r) by {
            assert forall|y: TaskId| (head + tail).to_set().contains(y) == r.contains(y) by {
                if (head + tail).contains(y) {
                    let k = choose|k: int| 0 <= k < (head + tail).len() && (head + tail)[k] == y;
                    if k < head.len() {
                        assert(head[k] == y);
                        assert(head.contains(y));
                        assert(head.to_set().contains(y));
                        assert(l.contains(y));
                    } else {
                        assert(tail[k - head.len()] == y);
                        assert(tail.contains(y));
                        assert(tail.to_set().contains(y));
                        assert(r.difference(l).contains(y));
                    }
                }
                if r.contains(y) {
                    if l.contains(y) {
                        assert(head.to_set().contains(y));
                        let k = choose|k: int| 0 <= k < head.len() && head[k] == y;
                        assert((head + tail)[k] == y);
                    } else {
                        assert(r.difference(l).contains(y));
                        assert(tail.to_set().contains(y));
                        let k = choose|k: int| 0 <= k < tail.len() && tail[k] == y;
                        assert((head + tail)[head.len() + k] == y);
                    }
                }
            }
        }
        assert forall|y: TaskId| #[trigger] head.contains(y) implies !tail.contains(y) by {
            if tail.contains(y) {
                assert(head.to_set().contains(y));
                assert(tail.to_set().contains(y));
                assert(l.contains(y) && r.difference(l).contains(y));
            }
        }
        lemma_concat_no_duplicates(head, tail);
    }
}

/// Reversal keeps a duplicate-free sequence duplicate-free.
proof fn lemma_reverse_no_duplicates(s: Seq<TaskId>)
    requires
        s.no_duplicates(),
    ensures
        s.reverse().no_duplicates(),
{
    let r = s.reverse();
    assert forall|p: int, q: int|
        0 <= p < r.len() && 0 <= q < r.len() && p != q implies r[p] != r[q] by {
        assert(r[p] == s[s.len() - 1 - p]);
        assert(r[q] == s[s.len() - 1 - q]);
    }
}

/// Reversal does not change which identifiers a sequence names.
proof fn lemma_reverse_to_set(s: Seq<TaskId>)
    ensures
        s.reverse().to_set() == s.to_set(),
{
    assert(s.reverse().to_set() =~= s.to_set()) by {
        assert forall|y: TaskId| s.reverse().to_set().contains(y) == s.to_set().contains(y) by {
            if s.reverse().contains(y) {
                let k = choose|k: int| 0 <= k < s.reverse().len() && s.reverse()[k] == y;
                assert(s[s.len() - 1 - k] == y);
            }
            if s.contains(y) {
                let k = choose|k: int| 0 <= k < s.len() && s[k] == y;
                assert(s.reverse()[s.len() - 1 - k] == y);
            }
        }
    }
}

/// One voter's row holds one candidate edge per earlier entry, in order.
proof fn lemma_row_edges_general(ballots: Seq<Seq<TaskId>>, b0: Seq<TaskId>, k: int, upto: int)
    requires
        0 <= upto,
    ensures
        row_edges(ballots, b0, k, upto).len() == upto,
        forall|i: int|
            0 <= i < upto ==> row_edges(ballots, b0, k, upto)[i] == cand_edge(
                ballots,
                norm_lo(b0[k], b0[i]),
                norm_hi(b0[k], b0[i]),
            ),
    decreases upto,
{
    if upto > 0 {
        lemma_row_edges_general(ballots, b0, k, upto - 1);
        let es = row_edges(ballots, b0, k, upto);
        let prev = row_edges(ballots, b0, k, upto - 1);
        assert(es == prev + seq![
            cand_edge(ballots, norm_lo(b0[k], b0[upto - 1]), norm_hi(b0[k], b0[upto - 1])),
        ]);
        assert forall|i: int| 0 <= i < upto implies es[i] == cand_edge(
            ballots,
            norm_lo(b0[k], b0[i]),
            norm_hi(b0[k], b0[i]),
        ) by {
            if i < upto - 1 {
                assert(es[i] == prev[i]);
            }
        }
    }
}

/// The tally enumerates exactly one candidate edge per unordered pair of
/// the first `upto` entries of the canonical ballot.
proof fn lemma_edges_upto_general(ballots: Seq<Seq<TaskId>>, b0: Seq<TaskId>, upto: int)
    requires
        0 <= upto,
    ensures
        forall|i: int|
            0 <= i < edges_upto(ballots, b0, upto).len() ==> exists|k: int, l: int|
                0 <= l < k < upto && #[trigger] edges_upto(ballots, b0, upto)[i] == cand_edge(
                ballots,
                norm_lo(b0[k], b0[l]),
                norm_hi(b0[k], b0[l]),
                ),
        forall|k: int, l: int|
            #![trigger b0[k], b0[l]]
            0 <= l < k < upto ==> edges_upto(ballots, b0, upto).contains(
                cand_edge(ballots, norm_lo(b0[k], b0[l]), norm_hi(b0[k], b0[l])),
            ),
    decreases upto,
{
    if upto > 0 {
        lemma_edges_upto_general(ballots, b0, upto - 1);
        lemma_row_edges_general(ballots, b0, upto - 1, upto - 1);
        let es = edges_upto(ballots, b0, upto);
        let prev = edges_upto(ballots, b0, upto - 1);
        let row = row_edges(ballots, b0, upto - 1, upto - 1);
        assert(es == prev + row);
        assert forall|i: int| 0 <= i < es.len() implies exists|k: int, l: int|
            0 <= l < k < upto && #[trigger] es[i] == cand_edge(
            ballots,
            norm_lo(b0[k], b0[l]),
            norm_hi(b0[k], b0[l]),
            ) by {
            if i < prev.len() {
                assert(es[i] == prev[i]);
                let (k, l) = choose|k: int, l: int|
                    0 <= l < k < upto - 1 && #[trigger] prev[i] == cand_edge(
                    ballots,
                    norm_lo(b0[k], b0[l]),
                    norm_hi(b0[k], b0[l]),
                    );
                assert(0 <= l < k < upto && es[i] == cand_edge(
                    ballots,
                    norm_lo(b0[k], b0[l]),
                    norm_hi(b0[k], b0[l]),
                ));
            } else {
                let l = i - prev.len();
                assert(es[i] == row[l]);
                assert(row[l] == cand_edge(
                    ballots,
                    norm_lo(b0[upto - 1], b0[l]),
                    norm_hi(b0[upto - 1], b0[l]),
                ));
                assert(0 <= l < upto - 1 < upto && es[i] == cand_edge(
                    ballots,
                    norm_lo(b0[upto - 1], b0[l]),
                    norm_hi(b0[upto - 1], b0[l]),
                ));
            }
        }
        assert forall|k: int, l: int|
            #![trigger b0[k], b0[l]]
            0 <= l < k < upto implies es.contains(
            cand_edge(ballots, norm_lo(b0[k], b0[l]), norm_hi(b0[k], b0[l])),
        ) by {
            let e = cand_edge(ballots, norm_lo(b0[k], b0[l]), norm_hi(b0[k], b0[l]));
            if k < upto - 1 {
                assert(prev.contains(e));
                let i = choose|i: int| 0 <= i < prev.len() && prev[i] == e;
                assert(es[i] == e);
            } else {
                assert(row[l] == e);
                assert(es[prev.len() + l] == e);
            }
        }
    }
}

/// The consensus is a permutation of the universe it was asked about: it
/// names exactly the canonical ballot's identifiers, each once.
#[verifier::rlimit(100)]
pub proof fn lemma_consensus_universe(ballots: Seq<Seq<TaskId>>)
    requires
        ballots.len() > 0,
        ballots[0].no_duplicates(),
    ensures
        consensus(ballots).to_set() == ballots[0].to_set(),
        consensus(ballots).no_duplicates(),
{
    broadcast use vstd::seq_lib::group_to_multiset_ensures;
    broadcast use vstd::seq_lib::seq_to_set_is_finite;

    let b0 = ballots[0];
    let n = b0.len() as int;
    let all = all_edges(ballots);
    let sorted = sort_edges(all);
    lemma_sort_edges_multiset(all);
    lemma_edges_upto_general(ballots, b0, n);
    let f = lock_in(empty_dag(), sorted);
    lemma_no_edges_acyclic(empty_dag());
    lemma_lock_in_acyclic(empty_dag(), sorted);
    assert forall|i: int|
        0 <= i < sorted.len() implies (#[trigger] sorted[i]).1 != sorted[i].2 && b0.to_set(
    ).contains(sorted[i].1) && b0.to_set().contains(sorted[i].2) by {
        assert(sorted.contains(sorted[i]));
        assert(sorted.to_multiset().contains(sorted[i]));
        assert(all.contains(sorted[i]));
        let j = choose|j: int| 0 <= j < all.len() && all[j] == sorted[i];
        let (k, l) = choose|k: int, l: int|
            0 <= l < k < n && #[trigger] all[j] == cand_edge(
            ballots,
            norm_lo(b0[k], b0[l]),
            norm_hi(b0[k], b0[l]),
            );
        assert(b0[k] != b0[l]);
        assert(b0.contains(b0[k]) && b0.contains(b0[l]));
    }
    lemma_lock_in_nodes_bounded(empty_dag(), sorted, b0.to_set());
    vstd::set_lib::lemma_len_subset(f.nodes, b0.to_set());
    lemma_topo_rec_covers(f, f.nodes);
    lemma_reverse_to_set(spec_topo(f));
    lemma_reverse_no_duplicates(spec_topo(f));
    let core = spec_topo(f).reverse();
    assert(core.to_set() == f.nodes);
    let pred = |t: TaskId| !core.contains(t);
    lemma_filter_no_duplicates(b0, pred);
    let extra = b0.filter(pred);
    assert(consensus(ballots) == core + b0.filter(|t: TaskId| !core.contains(t)));
    assert(b0.filter(|t: TaskId| !core.contains(t)) == extra) by {
        assert(pred =~= (|t: TaskId| !core.contains(t)));
    }
    assert((core + extra).to_set() =~= b0.to_set()) by {
        broadcast use vstd::prelude::Seq::lemma_filter_pred;
        broadcast use vstd::prelude::Seq::lemma_filter_contains;
        broadcast use vstd::prelude::Seq::lemma_filter_contains_rev;

        assert forall|y: TaskId| (core + extra).to_set().contains(y) implies b0.to_set(
        ).contains(y) by {
            let k = choose|k: int| 0 <= k < (core + extra).len() && (core + extra)[k] == y;
            if k < core.len() {
                assert(core[k] == y);
                assert(core.contains(y));
                assert(core.to_set().contains(y));
                assert(f.nodes.contains(y));
            } else {
                assert(extra[k - core.len()] == y);
                assert(extra.contains(y));
                assert(b0.contains(y));
            }
        }
        assert forall|y: TaskId| b0.to_set().contains(y) implies (core + extra).to_set(
        ).contains(y) by {
            let i = choose|i: int| 0 <= i < b0.len() && b0[i] == y;
            if core.contains(y) {
                let k = choose|k: int| 0 <= k < core.len() && core[k] == y;
                assert((core + extra)[k] == y);
            } else {
                assert(pred(b0[i]));
                assert(extra.contains(b0[i]));
                let k = choose|k: int| 0 <= k < extra.len() && extra[k] == y;
                assert((core + extra)[core.len() + k] == y);
            }
        }
    }
    assert forall|y: TaskId| #[trigger] core.contains(y) implies !extra.contains(y) by {
        broadcast use vstd::prelude::Seq::lemma_filter_pred;

        if extra.contains(y) {
            let k = choose|k: int| 0 <= k < extra.len() && extra[k] == y;
            assert(pred(b0.filter(pred)[k]));
        }
    }
    lemma_concat_no_duplicates(core, extra);
}

} // verus!
