//! Laws relating the operations of a manager, stated over its table of views.
use vstd::prelude::*;

use crate::graph::{
    closes_cycle, dependency_kind, edge_error, lemma_walk_append, lemma_walk_edge,
    lemma_with_edge_valid, reaches, valid_graph, walk, with_edge, Graph,
};
use crate::manager::{apply_add, graph_of, with_completed};
use crate::task::{AddDependencyError, Dependency, DependencyKind, TaskId, TaskView};

verus! {

/// The table after `n` attempts to insert the edge `p -> d`.
pub open spec fn add_repeatedly(v: Map<TaskId, TaskView>, p: TaskId, d: TaskId, n: nat) -> Map<
    TaskId,
    TaskView,
>
    decreases n,
{
    if n == 0 {
        v
    } else {
        apply_add(add_repeatedly(v, p, d, (n - 1) as nat), p, d)
    }
}

proof fn lemma_graph_after_add(v: Map<TaskId, TaskView>, p: TaskId, d: TaskId)
    requires
        edge_error(graph_of(v), p, d) is None,
    ensures
        graph_of(apply_add(v, p, d)) == with_edge(graph_of(v), p, d),
{
    assert(graph_of(apply_add(v, p, d)) =~= with_edge(graph_of(v), p, d));
}

proof fn lemma_walk3(g: Graph, a: TaskId, b: TaskId, c: TaskId, d: TaskId)
    requires
        g.contains_key(a) && g[a].contains(b),
        g.contains_key(b) && g[b].contains(c),
        g.contains_key(c) && g[c].contains(d),
    ensures
        walk(g, a, d, 3),
{
    lemma_walk_edge(g, a, b);
    lemma_walk_edge(g, b, c);
    lemma_walk_edge(g, c, d);
    lemma_walk_append(g, b, c, d, 1, 1);
    lemma_walk_append(g, a, b, d, 1, 2);
}

/// Every identifier handed out by a run of creations differs from all the
/// others: each is absent from the table it is added to, and tables only grow.
pub proof fn law_created_ids_distinct(tables: Seq<Map<TaskId, TaskView>>, ids: Seq<TaskId>)
    requires
        tables.len() == ids.len() + 1,
        forall|i: int|
            0 <= i < ids.len() ==> !tables[i].contains_key(#[trigger] ids[i]) && tables[i + 1].dom()
                == tables[i].dom().insert(ids[i]),
    ensures
        ids.no_duplicates(),
{
    assert forall|i: int, j: int| 0 <= i < j <= ids.len() implies #[trigger] tables[j].contains_key(
        ids[i],
    ) by {
        lemma_created_id_stays(tables, ids, i, j);
    }
    assert forall|i: int, j: int| 0 <= i < ids.len() && 0 <= j < ids.len() && i != j implies ids[i]
        != ids[j] by {
        if i < j {
            assert(tables[j].contains_key(ids[i]));
        } else {
            assert(tables[i].contains_key(ids[j]));
        }
    }
}

proof fn lemma_created_id_stays(tables: Seq<Map<TaskId, TaskView>>, ids: Seq<TaskId>, i: int, j: int)
    requires
        tables.len() == ids.len() + 1,
        forall|i: int|
            0 <= i < ids.len() ==> !tables[i].contains_key(#[trigger] ids[i]) && tables[i + 1].dom()
                == tables[i].dom().insert(ids[i]),
        0 <= i < j <= ids.len(),
    ensures
        tables[j].contains_key(ids[i]),
    decreases j - i,
{
    if j > i + 1 {
        lemma_created_id_stays(tables, ids, i, j - 1);
        assert(tables[j].dom() == tables[j - 1].dom().insert(ids[j - 1]));
    } else {
        assert(tables[i + 1].dom() == tables[i].dom().insert(ids[i]));
    }
}

/// Right after the edge `p -> d` is recorded, `p` depends on `d` directly.
pub proof fn law_added_edge_is_direct(v: Map<TaskId, TaskView>, p: TaskId, d: TaskId)
    requires
        edge_error(graph_of(v), p, d) is None,
    ensures
        dependency_kind(graph_of(apply_add(v, p, d)), p, d) == Some(DependencyKind::Direct),
{
    lemma_graph_after_add(v, p, d);
}

/// Once `a -> b` and then `b -> c` are recorded, `a` depends on `c` through `b`,
/// unless `a -> c` was already an edge, and `c` does not depend on `a`.
pub proof fn law_chain_is_transitive(v: Map<TaskId, TaskView>, a: TaskId, b: TaskId, c: TaskId)
    requires
        valid_graph(graph_of(v)),
        edge_error(graph_of(v), a, b) is None,
        edge_error(graph_of(apply_add(v, a, b)), b, c) is None,
        !graph_of(v)[a].contains(c),
    ensures
        dependency_kind(graph_of(apply_add(apply_add(v, a, b), b, c)), a, c) == Some(
            DependencyKind::Transitive,
        ),
        dependency_kind(graph_of(apply_add(apply_add(v, a, b), b, c)), c, a) is None,
{
    let v1 = apply_add(v, a, b);
    let g = graph_of(v);
    lemma_graph_after_add(v, a, b);
    let g1 = graph_of(v1);
    lemma_with_edge_valid(g, a, b);
    lemma_graph_after_add(v1, b, c);
    let g2 = graph_of(apply_add(v1, b, c));
    lemma_with_edge_valid(g1, b, c);
    lemma_walk_edge(g2, a, b);
    lemma_walk_edge(g2, b, c);
    lemma_walk_append(g2, a, b, c, 1, 1);
    assert(reaches(g2, a, c));
    if g2[c].contains(a) {
        lemma_walk_edge(g2, c, a);
        lemma_walk_append(g2, c, a, c, 1, 2);
    }
    if reaches(g2, c, a) {
        let n = choose|n: nat| n > 0 && #[trigger] walk(g2, c, a, n);
        lemma_walk_append(g2, c, a, c, n, 2);
    }
}

proof fn lemma_add_again_is_noop(v: Map<TaskId, TaskView>, p: TaskId, d: TaskId)
    requires
        valid_graph(graph_of(v)),
        edge_error(graph_of(v), p, d) is None,
    ensures
        valid_graph(graph_of(apply_add(v, p, d))),
        edge_error(graph_of(apply_add(v, p, d)), p, d) is None,
        apply_add(apply_add(v, p, d), p, d) == apply_add(v, p, d),
{
    let v1 = apply_add(v, p, d);
    lemma_graph_after_add(v, p, d);
    lemma_with_edge_valid(graph_of(v), p, d);
    let g1 = graph_of(v1);
    if reaches(g1, d, p) {
        let n = choose|n: nat| n > 0 && #[trigger] walk(g1, d, p, n);
        lemma_walk_edge(g1, p, d);
        lemma_walk_append(g1, p, d, p, 1, n);
    }
    assert(!closes_cycle(g1, p, d));
    assert(v1[p].deps.insert(d) =~= v1[p].deps);
    assert(apply_add(v1, p, d) =~= v1);
}

/// Recording the edge `p -> d` any positive number of times into a task
/// without dependencies leaves it with exactly one dependency.
pub proof fn law_repeated_add_counts_once(v: Map<TaskId, TaskView>, p: TaskId, d: TaskId, n: nat)
    requires
        valid_graph(graph_of(v)),
        edge_error(graph_of(v), p, d) is None,
        v[p].deps == Set::<TaskId>::empty(),
        n >= 1,
    ensures
        add_repeatedly(v, p, d, n) == apply_add(v, p, d),
        add_repeatedly(v, p, d, n)[p].deps.len() == 1,
    decreases n,
{
    if n > 1 {
        law_repeated_add_counts_once(v, p, d, (n - 1) as nat);
        lemma_add_again_is_noop(v, p, d);
    }
    assert(add_repeatedly(v, p, d, 0) == v);
    assert(apply_add(v, p, d)[p].deps =~= Set::<TaskId>::empty().insert(d));
}

/// After `a -> b` is recorded, `b -> a` is refused as a cycle and changes nothing.
pub proof fn law_reverse_edge_rejected(v: Map<TaskId, TaskView>, a: TaskId, b: TaskId)
    requires
        valid_graph(graph_of(v)),
        edge_error(graph_of(v), a, b) is None,
    ensures
        edge_error(graph_of(apply_add(v, a, b)), b, a) == Some(
            AddDependencyError::CycleDetected(Dependency { from: b, to: a }),
        ),
        apply_add(apply_add(v, a, b), b, a) == apply_add(v, a, b),
{
    lemma_graph_after_add(v, a, b);
    let g1 = graph_of(apply_add(v, a, b));
    lemma_walk_edge(g1, a, b);
    assert(reaches(g1, a, b));
}

/// Closing the chain `t1 -> t2 -> t3 -> t4` by `t4 -> t1` is refused as a cycle.
pub proof fn law_chain_closing_edge_rejected(
    v: Map<TaskId, TaskView>,
    t1: TaskId,
    t2: TaskId,
    t3: TaskId,
    t4: TaskId,
)
    requires
        valid_graph(graph_of(v)),
        v.contains_key(t1) && v[t1].deps.contains(t2),
        v.contains_key(t2) && v[t2].deps.contains(t3),
        v.contains_key(t3) && v[t3].deps.contains(t4),
    ensures
        edge_error(graph_of(v), t4, t1) == Some(
            AddDependencyError::CycleDetected(Dependency { from: t4, to: t1 }),
        ),
        apply_add(v, t4, t1) == v,
{
    let g = graph_of(v);
    lemma_walk3(g, t1, t2, t3, t4);
    assert(reaches(g, t1, t4));
}

/// In the graph `t1 -> t2 -> t3 -> t4` with the branch `t3 -> t5`, the edge
/// `t5 -> t1` is refused as a cycle and every edge stays as it was.
pub proof fn law_branch_closing_edge_rejected(
    v: Map<TaskId, TaskView>,
    t1: TaskId,
    t2: TaskId,
    t3: TaskId,
    t4: TaskId,
    t5: TaskId,
)
    requires
        valid_graph(graph_of(v)),
        v.contains_key(t1) && v[t1].deps.contains(t2),
        v.contains_key(t2) && v[t2].deps.contains(t3),
        v.contains_key(t3) && v[t3].deps.contains(t4) && v[t3].deps.contains(t5),
    ensures
        edge_error(graph_of(v), t5, t1) == Some(
            AddDependencyError::CycleDetected(Dependency { from: t5, to: t1 }),
        ),
        graph_of(apply_add(v, t5, t1)) == graph_of(v),
{
    let g = graph_of(v);
    lemma_walk3(g, t1, t2, t3, t5);
    assert(reaches(g, t1, t5));
}

/// Marking a task completed twice leaves it as marking it once does.
pub proof fn law_complete_idempotent(v: Map<TaskId, TaskView>, id: TaskId)
    requires
        v.contains_key(id),
    ensures
        with_completed(with_completed(v, id), id) == with_completed(v, id),
        with_completed(v, id)[id].completed,
{
    assert(with_completed(with_completed(v, id), id) =~= with_completed(v, id));
}

/// Edges `pa -> da` and `pb -> db` between four distinct tasks, where
/// `da` and `db` depend on nothing, are both recorded, in either order, with
/// the same resulting table and no edge lost.
pub proof fn law_disjoint_edges_both_recorded(
    v: Map<TaskId, TaskView>,
    pa: TaskId,
    da: TaskId,
    pb: TaskId,
    db: TaskId,
)
    requires
        valid_graph(graph_of(v)),
        v.contains_key(pa) && v.contains_key(da) && v.contains_key(pb) && v.contains_key(db),
        pa != da && pa != pb && pa != db && da != pb && da != db && pb != db,
        v[da].deps == Set::<TaskId>::empty(),
        v[db].deps == Set::<TaskId>::empty(),
    ensures
        edge_error(graph_of(v), pa, da) is None,
        edge_error(graph_of(apply_add(v, pa, da)), pb, db) is None,
        edge_error(graph_of(v), pb, db) is None,
        edge_error(graph_of(apply_add(v, pb, db)), pa, da) is None,
        apply_add(apply_add(v, pa, da), pb, db) == apply_add(apply_add(v, pb, db), pa, da),
        graph_of(apply_add(apply_add(v, pa, da), pb, db)) == with_edge(
            with_edge(graph_of(v), pa, da),
            pb,
            db,
        ),
{
    let g = graph_of(v);
    lemma_sink_reaches_nothing(g, da, pa);
    lemma_sink_reaches_nothing(g, db, pb);
    lemma_graph_after_add(v, pa, da);
    lemma_graph_after_add(v, pb, db);
    let g1 = graph_of(apply_add(v, pa, da));
    let h1 = graph_of(apply_add(v, pb, db));
    assert(g1[db] == g[db]);
    assert(h1[da] == g[da]);
    lemma_sink_reaches_nothing(g1, db, pb);
    lemma_sink_reaches_nothing(h1, da, pa);
    lemma_graph_after_add(apply_add(v, pa, da), pb, db);
    assert(apply_add(apply_add(v, pa, da), pb, db) =~= apply_add(apply_add(v, pb, db), pa, da));
}

proof fn lemma_sink_reaches_nothing(g: Graph, d: TaskId, t: TaskId)
    requires
        g.contains_key(d),
        g[d] == Set::<TaskId>::empty(),
    ensures
        !reaches(g, d, t),
{
    if reaches(g, d, t) {
        let n = choose|n: nat| n > 0 && #[trigger] walk(g, d, t, n);
        let c = choose|c: TaskId| #[trigger] g[d].contains(c) && walk(g, c, t, (n - 1) as nat);
    }
}

} // verus!
