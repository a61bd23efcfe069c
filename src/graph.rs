//! The dependency graph as a mathematical object, and facts about walks in it.
use vstd::prelude::*;

use crate::task::{AddDependencyError, Dependency, DependencyKind, TaskId};

verus! {

/// For each task, the identifiers it depends on directly.
pub type Graph = Map<TaskId, Set<TaskId>>;

/// `b` is reached from `a` by following exactly `n` edges.
pub open spec fn walk(g: Graph, a: TaskId, b: TaskId, n: nat) -> bool
    decreases n,
{
    if n == 0 {
        a == b
    } else {
        g.contains_key(a) && exists|c: TaskId| #[trigger]
            g[a].contains(c) && walk(g, c, b, (n - 1) as nat)
    }
}

/// `b` is reached from `a` by following one or more edges.
pub open spec fn reaches(g: Graph, a: TaskId, b: TaskId) -> bool {
    exists|n: nat| n > 0 && #[trigger] walk(g, a, b, n)
}

/// No task reaches itself.
pub open spec fn acyclic(g: Graph) -> bool {
    forall|x: TaskId, n: nat| n > 0 ==> !#[trigger] walk(g, x, x, n)
}

/// Finitely many tasks, each with finitely many dependencies, all of them tasks of the graph.
pub open spec fn closed(g: Graph) -> bool {
    &&& g.dom().finite()
    &&& forall|a: TaskId| #[trigger] g.contains_key(a) ==> g[a].finite()
    &&& forall|a: TaskId, b: TaskId| g.contains_key(a) && #[trigger] g[a].contains(b) ==> g.contains_key(b)
}

/// The state every manager keeps its graph in.
pub open spec fn valid_graph(g: Graph) -> bool {
    closed(g) && acyclic(g)
}

/// Adding the edge `p -> d` would close a cycle: `d` is `p` or already reaches it.
pub open spec fn closes_cycle(g: Graph, p: TaskId, d: TaskId) -> bool {
    d == p || reaches(g, d, p)
}

/// The graph with the edge `p -> d` added.
pub open spec fn with_edge(g: Graph, p: TaskId, d: TaskId) -> Graph {
    g.insert(p, g[p].insert(d))
}

/// The error that inserting the edge `p -> d` into `g` meets, if any.
pub open spec fn edge_error(g: Graph, p: TaskId, d: TaskId) -> Option<AddDependencyError> {
    if !g.contains_key(p) {
        Some(AddDependencyError::TaskNotFound(p))
    } else if !g.contains_key(d) {
        Some(AddDependencyError::TaskNotFound(d))
    } else if closes_cycle(g, p, d) {
        Some(AddDependencyError::CycleDetected(Dependency { from: p, to: d }))
    } else {
        None
    }
}

/// How `a` depends on `b`: directly, through other tasks, or not at all.
pub open spec fn dependency_kind(g: Graph, a: TaskId, b: TaskId) -> Option<DependencyKind> {
    if g.contains_key(a) && g[a].contains(b) {
        Some(DependencyKind::Direct)
    } else if reaches(g, a, b) {
        Some(DependencyKind::Transitive)
    } else {
        None
    }
}

pub proof fn lemma_walk_edge(g: Graph, a: TaskId, b: TaskId)
    requires
        g.contains_key(a),
        g[a].contains(b),
    ensures
        walk(g, a, b, 1),
{
    assert(walk(g, b, b, 0));
}

pub proof fn lemma_walk_append(g: Graph, a: TaskId, b: TaskId, c: TaskId, n: nat, m: nat)
    requires
        walk(g, a, b, n),
        walk(g, b, c, m),
    ensures
        walk(g, a, c, n + m),
    decreases n,
{
    if n > 0 {
        let x = choose|x: TaskId| #[trigger] g[a].contains(x) && walk(g, x, b, (n - 1) as nat);
        lemma_walk_append(g, x, b, c, (n - 1) as nat, m);
        assert(g[a].contains(x) && walk(g, x, c, (n + m - 1) as nat));
    }
}

/// A walk in the graph with `p -> d` added either is a walk of the old graph,
/// or passes through `p` and then through `d`.
pub proof fn lemma_walk_with_edge(g: Graph, p: TaskId, d: TaskId, a: TaskId, b: TaskId, n: nat)
    requires
        g.contains_key(p),
        walk(with_edge(g, p, d), a, b, n),
    ensures
        walk(g, a, b, n) || exists|i: nat, j: nat| #[trigger] walk(g, a, p, i) && #[trigger] walk(g, d, b, j),
    decreases n,
{
    let h = with_edge(g, p, d);
    if n > 0 {
        let c = choose|c: TaskId| #[trigger] h[a].contains(c) && walk(h, c, b, (n - 1) as nat);
        lemma_walk_with_edge(g, p, d, c, b, (n - 1) as nat);
        if g[a].contains(c) {
            if walk(g, c, b, (n - 1) as nat) {
                assert(g[a].contains(c) && walk(g, c, b, (n - 1) as nat));
            } else {
                let (i, j) = choose|i: nat, j: nat| #[trigger] walk(g, c, p, i) && #[trigger] walk(g, d, b, j);
                lemma_walk_edge(g, a, c);
                lemma_walk_append(g, a, c, p, 1, i);
                assert(walk(g, a, p, 1 + i) && walk(g, d, b, j));
            }
        } else {
            assert(a == p && c == d);
            assert(walk(g, a, p, 0));
            if walk(g, c, b, (n - 1) as nat) {
                assert(walk(g, a, p, 0) && walk(g, d, b, (n - 1) as nat));
            } else {
                let (i, j) = choose|i: nat, j: nat| #[trigger] walk(g, c, p, i) && #[trigger] walk(g, d, b, j);
                assert(walk(g, a, p, 0) && walk(g, d, b, j));
            }
        }
    }
}

/// Adding an edge that closes no cycle keeps the graph valid.
pub proof fn lemma_with_edge_valid(g: Graph, p: TaskId, d: TaskId)
    requires
        valid_graph(g),
        g.contains_key(p),
        g.contains_key(d),
        !closes_cycle(g, p, d),
    ensures
        valid_graph(with_edge(g, p, d)),
{
    let h = with_edge(g, p, d);
    assert(h.dom() == g.dom());
    assert forall|x: TaskId, n: nat| n > 0 implies !#[trigger] walk(h, x, x, n) by {
        if walk(h, x, x, n) {
            lemma_walk_with_edge(g, p, d, x, x, n);
            if !walk(g, x, x, n) {
                let (i, j) = choose|i: nat, j: nat| #[trigger] walk(g, x, p, i) && #[trigger] walk(g, d, x, j);
                lemma_walk_append(g, d, x, p, j, i);
                if j + i > 0 {
                    assert(reaches(g, d, p));
                }
            }
        }
    }
}

/// A set that holds all successors of its members, and not `target`,
/// holds no start of a walk to `target`.
pub proof fn lemma_no_walk_out(g: Graph, vis: Set<TaskId>, s: TaskId, target: TaskId, n: nat)
    requires
        vis.contains(s),
        !vis.contains(target),
        forall|t: TaskId, c: TaskId|
            vis.contains(t) && g.contains_key(t) && #[trigger] g[t].contains(c) ==> vis.contains(c),
    ensures
        !walk(g, s, target, n),
    decreases n,
{
    if n > 0 && walk(g, s, target, n) {
        let c = choose|c: TaskId| #[trigger] g[s].contains(c) && walk(g, c, target, (n - 1) as nat);
        lemma_no_walk_out(g, vis, c, target, (n - 1) as nat);
    }
}


/// A walk from an old task in a graph with a fresh, edgeless task added is a walk of the old graph.
pub proof fn lemma_walk_with_fresh(g: Graph, id: TaskId, a: TaskId, b: TaskId, n: nat)
    requires
        closed(g),
        !g.contains_key(id),
        g.contains_key(a),
        walk(g.insert(id, Set::empty()), a, b, n),
    ensures
        walk(g, a, b, n),
    decreases n,
{
    let h = g.insert(id, Set::<TaskId>::empty());
    if n > 0 {
        let c = choose|c: TaskId| #[trigger] h[a].contains(c) && walk(h, c, b, (n - 1) as nat);
        assert(g[a].contains(c));
        lemma_walk_with_fresh(g, id, c, b, (n - 1) as nat);
    }
}

/// Adding a fresh task without dependencies keeps the graph valid.
pub proof fn lemma_with_fresh_valid(g: Graph, id: TaskId)
    requires
        valid_graph(g),
        !g.contains_key(id),
    ensures
        valid_graph(g.insert(id, Set::empty())),
{
    let h = g.insert(id, Set::<TaskId>::empty());
    assert forall|x: TaskId, n: nat| n > 0 implies !#[trigger] walk(h, x, x, n) by {
        if walk(h, x, x, n) && x != id {
            lemma_walk_with_fresh(g, id, x, x, n);
        }
    }
}


pub proof fn lemma_len_bound(a: Set<TaskId>, b: Set<TaskId>)
    requires
        a.subset_of(b),
        b.finite(),
    ensures
        a.finite(),
        a.len() <= b.len(),
{
    vstd::set_lib::lemma_len_subset(a, b);
}

} // verus!
