//! The manager: owner of the task table and entry point of every operation.
use vstd::prelude::*;

use std::collections::HashSet;

use crate::graph::{
    closes_cycle, dependency_kind, edge_error, reaches, lemma_len_bound, lemma_no_walk_out, lemma_walk_append,
    lemma_walk_edge, lemma_with_edge_valid, lemma_with_fresh_valid, valid_graph, walk, with_edge,
    Graph,
};
use crate::store::{new_table, table_contents, TaskTable, table_insert, table_remove, table_snapshot};
use crate::task::{
    opt_view, AddDependencyError, Dependency, DependencyKind, Task, TaskId, TaskInfo, TaskView,
};

verus! {

broadcast use vstd::std_specs::hash::group_hash_axioms;

/// The dependency graph of a table of task views.
pub open spec fn graph_of(v: Map<TaskId, TaskView>) -> Graph {
    v.map_values(|t: TaskView| t.deps)
}

/// `t` is reached from one of `srcs` by zero or more edges.
pub open spec fn reached_from(g: Graph, srcs: Seq<TaskId>, t: TaskId) -> bool {
    exists|s: TaskId, n: nat| srcs.contains(s) && #[trigger] walk(g, s, t, n)
}

/// `t` is not `target`, and every dependency of `t` is in `vis`.
pub open spec fn settled(g: Graph, vis: Set<TaskId>, target: TaskId, t: TaskId) -> bool {
    t != target && forall|c: TaskId| #[trigger] g[t].contains(c) ==> vis.contains(c)
}

/// The result that an edge insertion meeting `e` returns.
pub open spec fn outcome(e: Option<AddDependencyError>) -> Result<(), AddDependencyError> {
    match e {
        Some(e) => Err(e),
        None => Ok(()),
    }
}

/// The table after an attempt to insert the edge `p -> d`: the edge is
/// recorded when the insertion meets no error, and nothing changes otherwise.
pub open spec fn apply_add(v: Map<TaskId, TaskView>, p: TaskId, d: TaskId) -> Map<TaskId, TaskView> {
    if edge_error(graph_of(v), p, d) is None {
        v.insert(p, TaskView { deps: v[p].deps.insert(d), ..v[p] })
    } else {
        v
    }
}

/// The table with the task `id` marked completed.
pub open spec fn with_completed(v: Map<TaskId, TaskView>, id: TaskId) -> Map<TaskId, TaskView> {
    v.insert(id, TaskView { completed: true, ..v[id] })
}

/// Owns every task record, keyed by identifier, and issues the identifiers.
pub struct TaskManager {
    inner: TaskTable,
    next_id: u64,
}

impl View for TaskManager {
    type V = Map<TaskId, TaskView>;

    closed spec fn view(&self) -> Map<TaskId, TaskView> {
        table_contents(self.inner).map_values(|t: Task| t@)
    }
}

proof fn lemma_view_insert(m: Map<TaskId, Task>, k: TaskId, t: Task)
    ensures
        m.insert(k, t).map_values(|t: Task| t@) == m.map_values(|t: Task| t@).insert(k, t@),
{
    assert(m.insert(k, t).map_values(|t: Task| t@) =~= m.map_values(|t: Task| t@).insert(k, t@));
}

proof fn lemma_graph_insert(v: Map<TaskId, TaskView>, k: TaskId, t: TaskView)
    ensures
        graph_of(v.insert(k, t)) == graph_of(v).insert(k, t.deps),
{
    assert(graph_of(v.insert(k, t)) =~= graph_of(v).insert(k, t.deps));
}

impl TaskManager {
    /// The invariant of the table: keys match the records, were issued by
    /// this manager, and the graph is closed and acyclic.
    pub closed spec fn wf(&self) -> bool {
        &&& table_contents(self.inner).dom().finite()
        &&& forall|k: TaskId| #[trigger]
            table_contents(self.inner).contains_key(k) ==> table_contents(self.inner)[k].id_spec()
                == k && k.index() < self.next_id
        &&& valid_graph(graph_of(self@))
    }

    /// How many identifiers this manager has issued.
    pub closed spec fn issued(&self) -> nat {
        self.next_id as nat
    }

    /// The dependency graph of this manager.
    pub open spec fn graph(&self) -> Graph {
        graph_of(self@)
    }

    pub fn new() -> (r: TaskManager)
        ensures
            r.wf(),
            r@ == Map::<TaskId, TaskView>::empty(),
            r.issued() == 0,
    {
        let r = TaskManager { inner: new_table(), next_id: 0 };
        proof {
            assert(r@ =~= Map::<TaskId, TaskView>::empty());
            assert(graph_of(r@) =~= Map::<TaskId, Set<TaskId>>::empty());
        }
        r
    }

    fn create_task(&mut self, name: String, description: Option<String>) -> (r: TaskId)
        requires
            old(self).wf(),
            old(self).issued() < u64::MAX,
        ensures
            final(self).wf(),
            final(self).issued() == old(self).issued() + 1,
            !old(self)@.contains_key(r),
            final(self)@ == old(self)@.insert(
                r,
                TaskView {
                    name: name@,
                    description: opt_view(description),
                    completed: false,
                    deps: Set::empty(),
                },
            ),
    {
        let id = TaskId::new(&mut self.next_id);
        let t = Task::new(id, name, description);
        let ghost old_table = table_contents(self.inner);
        table_insert(&mut self.inner, id, t);
        proof {
            lemma_view_insert(old_table, id, t);
            lemma_graph_insert(old_table.map_values(|t: Task| t@), id, t@);
            lemma_with_fresh_valid(graph_of(old_table.map_values(|t: Task| t@)), id);
        }
        id
    }

    /// Creates a task with a name and no description.
    pub fn new_task(&mut self, task_name: &str) -> (r: TaskId)
        requires
            old(self).wf(),
            old(self).issued() < u64::MAX,
        ensures
            final(self).wf(),
            final(self).issued() == old(self).issued() + 1,
            !old(self)@.contains_key(r),
            final(self)@ == old(self)@.insert(
                r,
                TaskView { name: task_name@, description: None, completed: false, deps: Set::empty() },
            ),
    {
        self.create_task(task_name.to_owned(), None)
    }

    /// Creates a task with a name and a description.
    pub fn new_task_with_description(&mut self, task_name: &str, description: &str) -> (r: TaskId)
        requires
            old(self).wf(),
            old(self).issued() < u64::MAX,
        ensures
            final(self).wf(),
            final(self).issued() == old(self).issued() + 1,
            !old(self)@.contains_key(r),
            final(self)@ == old(self)@.insert(
                r,
                TaskView {
                    name: task_name@,
                    description: Some(description@),
                    completed: false,
                    deps: Set::empty(),
                },
            ),
    {
        self.create_task(task_name.to_owned(), Some(description.to_owned()))
    }

    /// Whether `target` is reached from one of `sources` by zero or more edges.
    fn reaches_from(&self, sources: &Vec<TaskId>, target: TaskId) -> (r: bool)
        requires
            self.wf(),
            forall|i: int| 0 <= i < sources.len() ==> self@.contains_key(#[trigger] sources@[i]),
        ensures
            r == reached_from(self.graph(), sources@, target),
    {
        let ghost g = self.graph();
        proof {
            TaskId::lemma_index_injective();
        }
        let mut visited: HashSet<u64> = HashSet::new();
        let mut stack: Vec<TaskId> = Vec::new();
        let ghost mut vis: Set<TaskId> = Set::empty();
        let mut i: usize = 0;
        while i < sources.len()
            invariant
                0 <= i <= sources.len(),
                self.wf(),
                g == self.graph(),
                forall|k: int| 0 <= k < sources.len() ==> self@.contains_key(#[trigger] sources@[k]),
                forall|t: TaskId| #[trigger] vis.contains(t) <==> visited@.contains(t.index()),
                vis.subset_of(g.dom()),
                vis.finite(),
                forall|k: int| 0 <= k < i ==> vis.contains(#[trigger] sources@[k]),
                forall|t: TaskId| vis.contains(t) ==> #[trigger] reached_from(g, sources@, t),
                forall|t: TaskId| vis.contains(t) ==> #[trigger] stack@.contains(t),
                forall|k: int| 0 <= k < stack.len() ==> vis.contains(#[trigger] stack@[k]),
            decreases sources.len() - i,
        {
            let s = sources[i];
            if !visited.contains(&s.number()) {
                let ghost st0 = stack@;
                visited.insert(s.number());
                stack.push(s);
                proof {
                    TaskId::lemma_index_injective();
                    vis = vis.insert(s);
                    assert(sources@.contains(s) && walk(g, s, s, 0));
                    assert forall|t: TaskId| vis.contains(t) implies #[trigger] stack@.contains(t) by {
                        if t == s {
                            assert(stack@[stack@.len() - 1] == s);
                        } else {
                            assert(st0.contains(t));
                            let k = choose|k: int| 0 <= k < st0.len() && st0[k] == t;
                            assert(stack@[k] == t);
                        }
                    }
                }
            }
            i += 1;
        }
        while stack.len() > 0
            invariant
                self.wf(),
                g == self.graph(),
                forall|t: TaskId| #[trigger] vis.contains(t) <==> visited@.contains(t.index()),
                vis.subset_of(g.dom()),
                vis.finite(),
                forall|s: TaskId| #[trigger] sources@.contains(s) ==> vis.contains(s),
                forall|t: TaskId| vis.contains(t) ==> #[trigger] reached_from(g, sources@, t),
                forall|k: int| 0 <= k < stack.len() ==> vis.contains(#[trigger] stack@[k]),
                forall|t: TaskId|
                    vis.contains(t) ==> #[trigger] stack@.contains(t) || settled(g, vis, target, t),
            decreases 2 * (g.dom().len() - vis.len()) + stack.len(),
        {
            proof {
                lemma_len_bound(vis, g.dom());
            }
            let ghost m_start = 2 * (g.dom().len() - vis.len()) + stack.len();
            let ghost stack_before = stack@;
            let cur = match stack.pop() {
                Some(c) => c,
                None => { return false; },
            };
            proof {
                assert(stack_before.last() == cur);
                assert(vis.contains(stack_before[stack_before.len() - 1]));
                assert forall|t: TaskId| vis.contains(t) implies t == cur || #[trigger] stack@.contains(t)
                    || settled(g, vis, target, t) by {
                    if stack_before.contains(t) && t != cur {
                        let k = choose|k: int| 0 <= k < stack_before.len() && stack_before[k] == t;
                        assert(stack@[k] == t);
                    }
                }
            }
            if cur == target {
                return true;
            }
            let info = match table_snapshot(&self.inner, &cur) {
                Some(info) => info,
                None => {
                    proof {
                        assert(false);
                    }
                    return false;
                },
            };
            let deps = info.dependencies;
            let ghost vis0 = vis;
            let ghost measure0 = 2 * (g.dom().len() - vis.len()) + stack.len();
            assert(deps@.to_set() == g[cur]);
            let mut j: usize = 0;
            while j < deps.len()
                invariant
                    0 <= j <= deps.len(),
                    self.wf(),
                    g == self.graph(),
                    g.contains_key(cur),
                    cur != target,
                    vis.contains(cur),
                    deps@.to_set() == g[cur],
                    forall|t: TaskId| #[trigger] vis.contains(t) <==> visited@.contains(t.index()),
                    vis.subset_of(g.dom()),
                    vis.finite(),
                    vis0.subset_of(vis),
                    forall|s: TaskId| #[trigger] sources@.contains(s) ==> vis.contains(s),
                    forall|t: TaskId| vis.contains(t) ==> #[trigger] reached_from(g, sources@, t),
                    forall|k: int| 0 <= k < stack.len() ==> vis.contains(#[trigger] stack@[k]),
                    forall|t: TaskId|
                        vis.contains(t) ==> t == cur || #[trigger] stack@.contains(t) || settled(
                            g,
                            vis,
                            target,
                            t,
                        ),
                    forall|k: int| 0 <= k < j ==> vis.contains(#[trigger] deps@[k]),
                    2 * (g.dom().len() - vis.len()) + stack.len() <= measure0,
                decreases deps.len() - j,
            {
                let c = deps[j];
                if !visited.contains(&c.number()) {
                    let ghost st0 = stack@;
                    proof {
                        assert(reached_from(g, sources@, cur));
                        assert(deps@.contains(c));
                        assert(g[cur].contains(c));
                        let (s, n) = choose|s: TaskId, n: nat| sources@.contains(s) && #[trigger] walk(g, s, cur, n);
                        lemma_walk_edge(g, cur, c);
                        lemma_walk_append(g, s, cur, c, n, 1);
                        assert(sources@.contains(s) && walk(g, s, c, n + 1));
                        lemma_len_bound(vis.insert(c), g.dom());
                    }
                    visited.insert(c.number());
                    stack.push(c);
                    proof {
                        TaskId::lemma_index_injective();
                        let old_vis = vis;
                        vis = vis.insert(c);
                        assert forall|t: TaskId| vis.contains(t) implies t == cur || #[trigger] stack@.contains(t)
                            || settled(g, vis, target, t) by {
                            if t == c {
                                assert(stack@[stack@.len() - 1] == c);
                            } else if t != cur && !settled(g, vis, target, t) {
                                assert(!settled(g, old_vis, target, t));
                                assert(st0.contains(t));
                                let k = choose|k: int| 0 <= k < st0.len() && st0[k] == t;
                                assert(stack@[k] == t);
                            }
                        }
                    }
                }
                j += 1;
            }
            proof {
                assert forall|c: TaskId| #[trigger] g[cur].contains(c) implies vis.contains(c) by {
                    assert(deps@.to_set().contains(c));
                    let k = choose|k: int| 0 <= k < deps@.len() && deps@[k] == c;
                }
                assert(settled(g, vis, target, cur));
                lemma_len_bound(vis, g.dom());
                assert(2 * (g.dom().len() - vis.len()) + stack.len() < m_start);
            }
        }
        proof {
            assert(stack@.len() == 0);
            assert forall|s: TaskId, n: nat| sources@.contains(s) implies !#[trigger] walk(g, s, target, n) by {
                assert forall|t: TaskId, c: TaskId|
                    vis.contains(t) && g.contains_key(t) && #[trigger] g[t].contains(c) implies vis.contains(c) by {
                    assert(!stack@.contains(t));
                    assert(settled(g, vis, target, t));
                }
                if vis.contains(target) {
                    assert(!stack@.contains(target));
                    assert(settled(g, vis, target, target));
                }
                lemma_no_walk_out(g, vis, s, target, n);
            }
        }
        false
    }

    /// A read handle on the task `id`, if it exists.
    pub fn get(&self, id: &TaskId) -> (r: Option<TaskRef<'_>>)
        requires
            self.wf(),
        ensures
            r is Some <==> self@.contains_key(*id),
            r matches Some(h) ==> h.store() == *self && h.id_spec() == *id,
    {
        match table_snapshot(&self.inner, id) {
            Some(_) => Some(TaskRef { manager: self, id: *id }),
            None => None,
        }
    }

    /// A write handle on the task `id`, if it exists.
    pub fn get_mut(&mut self, id: &TaskId) -> (r: Option<TaskRefMut<'_>>)
        requires
            old(self).wf(),
        ensures
            r is Some <==> old(self)@.contains_key(*id),
            r matches Some(h) ==> h.store() == *old(self) && h.id_spec() == *id,
    {
        match table_snapshot(&self.inner, id) {
            Some(_) => Some(TaskRefMut { manager: self, id: *id }),
            None => None,
        }
    }

    /// Records that `parent` depends on `child`, unless a task is missing or
    /// the edge would close a cycle; in those cases nothing changes.
    pub fn add_dependency(&mut self, parent: &TaskId, child: &TaskId) -> (r: Result<
        (),
        AddDependencyError,
    >)
        requires
            old(self).wf(),
        ensures
            final(self).wf(),
            final(self).issued() == old(self).issued(),
            r == outcome(edge_error(old(self).graph(), *parent, *child)),
            final(self)@ == apply_add(old(self)@, *parent, *child),
    {
        let ghost g = self.graph();
        if table_snapshot(&self.inner, parent).is_none() {
            return Err(AddDependencyError::TaskNotFound(*parent));
        }
        if table_snapshot(&self.inner, child).is_none() {
            return Err(AddDependencyError::TaskNotFound(*child));
        }
        let sources = vec![*child];
        assert(sources@ == seq![*child]);
        if self.reaches_from(&sources, *parent) {
            proof {
                let (s, n) = choose|s: TaskId, n: nat| sources@.contains(s) && #[trigger] walk(g, s, *parent, n);
                if n > 0 {
                    assert(reaches(g, *child, *parent));
                }
            }
            return Err(AddDependencyError::CycleDetected(Dependency { from: *parent, to: *child }));
        }
        proof {
            assert(sources@.contains(*child));
            assert(walk(g, *child, *child, 0));
            if reaches(g, *child, *parent) {
                let n = choose|n: nat| n > 0 && #[trigger] walk(g, *child, *parent, n);
            }
            assert(!closes_cycle(g, *parent, *child));
        }
        let ghost m0 = *self;
        let mut t = match table_remove(&mut self.inner, parent) {
            Some(t) => t,
            None => { return Ok(()); },
        };
        t.insert_dependency(*child);
        table_insert(&mut self.inner, *parent, t);
        proof {
            lemma_replace_record(m0, *self, *parent, t);
            lemma_graph_insert(m0@, *parent, t@);
            assert(graph_of(m0@.insert(*parent, t@)) == with_edge(g, *parent, *child));
            lemma_with_edge_valid(g, *parent, *child);
        }
        Ok(())
    }
}

impl Default for TaskManager {
    fn default() -> (r: TaskManager)
        ensures
            r.wf(),
            r@ == Map::<TaskId, TaskView>::empty(),
            r.issued() == 0,
    {
        TaskManager::new()
    }
}

/// Replacing a record by one with the same identity keeps every part of the
/// invariant but the graph's, which holds when the dependencies are kept too.
proof fn lemma_replace_record(m0: TaskManager, m1: TaskManager, id: TaskId, t: Task)
    requires
        m0.wf(),
        m0@.contains_key(id),
        table_contents(m1.inner) == table_contents(m0.inner).remove(id).insert(id, t),
        m1.next_id == m0.next_id,
        t.id_spec() == id,
    ensures
        m1@ == m0@.insert(id, t@),
        table_contents(m1.inner).dom().finite(),
        forall|k: TaskId| #[trigger]
            table_contents(m1.inner).contains_key(k) ==> table_contents(m1.inner)[k].id_spec() == k
                && k.index() < m1.next_id,
        t@.deps == m0@[id].deps ==> m1.wf(),
{
    let t0 = table_contents(m0.inner);
    assert(t0.remove(id).insert(id, t) =~= t0.insert(id, t));
    lemma_view_insert(t0, id, t);
    lemma_graph_insert(m0@, id, t@);
    assert(t0.insert(id, t).dom() == t0.dom());
    if t@.deps == m0@[id].deps {
        assert(graph_of(m0@).insert(id, t@.deps) =~= graph_of(m0@));
    }
}

/// Read access to one task of a manager.
pub struct TaskRef<'a> {
    manager: &'a TaskManager,
    id: TaskId,
}

impl<'a> TaskRef<'a> {
    pub closed spec fn store(&self) -> TaskManager {
        *self.manager
    }

    pub closed spec fn id_spec(&self) -> TaskId {
        self.id
    }

    /// The handle names a task of a well-formed manager.
    pub open spec fn valid(&self) -> bool {
        self.store().wf() && self.store()@.contains_key(self.id_spec())
    }

    /// The task this handle reads.
    pub open spec fn task(&self) -> TaskView {
        self.store()@[self.id_spec()]
    }

    fn info(&self) -> (r: TaskInfo)
        requires
            self.valid(),
        ensures
            r.name@ == self.task().name,
            opt_view(r.description) == self.task().description,
            r.completed == self.task().completed,
            r.dependencies@.no_duplicates(),
            r.dependencies@.to_set() == self.task().deps,
    {
        match table_snapshot(&self.manager.inner, &self.id) {
            Some(info) => info,
            None => {
                proof {
                    assert(false);
                }
                TaskInfo {
                    name: String::new(),
                    description: None,
                    completed: false,
                    dependencies: Vec::new(),
                }
            },
        }
    }

    pub fn name(&self) -> (r: String)
        requires
            self.valid(),
        ensures
            r@ == self.task().name,
    {
        self.info().name
    }

    pub fn description(&self) -> (r: Option<String>)
        requires
            self.valid(),
        ensures
            opt_view(r) == self.task().description,
    {
        self.info().description
    }

    pub fn completed(&self) -> (r: bool)
        requires
            self.valid(),
        ensures
            r == self.task().completed,
    {
        self.info().completed
    }

    /// The number of tasks this one depends on directly.
    pub fn num_dependencies(&self) -> (r: usize)
        requires
            self.valid(),
        ensures
            r == self.task().deps.len(),
    {
        let deps = self.info().dependencies;
        proof {
            deps@.unique_seq_to_set();
        }
        deps.len()
    }

    /// Whether the task depends directly on any other.
    pub fn has_dependencies(&self) -> (r: bool)
        requires
            self.valid(),
        ensures
            r == (self.task().deps.len() > 0),
    {
        self.num_dependencies() > 0
    }

    /// How the task depends on `target`, if it does.
    pub fn depends_on(&self, target: &TaskId) -> (r: Option<DependencyKind>)
        requires
            self.valid(),
        ensures
            r == dependency_kind(self.store().graph(), self.id_spec(), *target),
    {
        let ghost g = self.store().graph();
        let deps = self.info().dependencies;
        let mut i: usize = 0;
        while i < deps.len()
            invariant
                0 <= i <= deps.len(),
                self.valid(),
                g == self.store().graph(),
                deps@.to_set() == self.task().deps,
                forall|k: int| 0 <= k < i ==> deps@[k] != *target,
            decreases deps.len() - i,
        {
            if deps[i] == *target {
                proof {
                    assert(deps@.contains(*target));
                    assert(deps@.to_set().contains(*target));
                    assert(g[self.id] == self.task().deps);
                }
                return Some(DependencyKind::Direct);
            }
            i += 1;
        }
        proof {
            assert(!deps@.contains(*target));
            assert forall|k: int| 0 <= k < deps.len() implies self.manager@.contains_key(#[trigger] deps@[k]) by {
                assert(deps@.to_set().contains(deps@[k]));
            }
        }
        let found = self.manager.reaches_from(&deps, *target);
        proof {
            if found {
                let (s, n) = choose|s: TaskId, n: nat| deps@.contains(s) && #[trigger] walk(g, s, *target, n);
                assert(deps@.to_set().contains(s));
                lemma_walk_edge(g, self.id, s);
                lemma_walk_append(g, self.id, s, *target, 1, n);
                assert(walk(g, self.id, *target, 1 + n));
            } else if reaches(g, self.id, *target) {
                let n = choose|n: nat| n > 0 && #[trigger] walk(g, self.id, *target, n);
                let c = choose|c: TaskId| #[trigger] g[self.id].contains(c) && walk(g, c, *target, (n - 1) as nat);
                assert(deps@.to_set().contains(c));
                assert(deps@.contains(c));
            }
        }
        if found {
            Some(DependencyKind::Transitive)
        } else {
            None
        }
    }
}

/// Write access to one task of a manager.
pub struct TaskRefMut<'a> {
    manager: &'a mut TaskManager,
    id: TaskId,
}

impl<'a> TaskRefMut<'a> {
    pub closed spec fn store(&self) -> TaskManager {
        *self.manager
    }

    pub closed spec fn id_spec(&self) -> TaskId {
        self.id
    }

    /// The handle names a task of a well-formed manager.
    pub open spec fn valid(&self) -> bool {
        self.store().wf() && self.store()@.contains_key(self.id_spec())
    }

    /// The task this handle writes.
    pub open spec fn task(&self) -> TaskView {
        self.store()@[self.id_spec()]
    }

    fn info(&self) -> (r: TaskInfo)
        requires
            self.valid(),
        ensures
            r.name@ == self.task().name,
            opt_view(r.description) == self.task().description,
            r.completed == self.task().completed,
    {
        match table_snapshot(&self.manager.inner, &self.id) {
            Some(info) => info,
            None => {
                proof {
                    assert(false);
                }
                TaskInfo {
                    name: String::new(),
                    description: None,
                    completed: false,
                    dependencies: Vec::new(),
                }
            },
        }
    }

    pub fn name(&self) -> (r: String)
        requires
            self.valid(),
        ensures
            r@ == self.task().name,
    {
        self.info().name
    }

    pub fn description(&self) -> (r: Option<String>)
        requires
            self.valid(),
        ensures
            opt_view(r) == self.task().description,
    {
        self.info().description
    }

    pub fn completed(&self) -> (r: bool)
        requires
            self.valid(),
        ensures
            r == self.task().completed,
    {
        self.info().completed
    }

    pub fn update_name(&mut self, new_name: String)
        requires
            old(self).valid(),
        ensures
            final(self).valid(),
            final(self).id_spec() == old(self).id_spec(),
            final(self).store().issued() == old(self).store().issued(),
            final(self).store()@ == old(self).store()@.insert(
                old(self).id_spec(),
                TaskView { name: new_name@, ..old(self).task() },
            ),
    {
        let ghost m0 = *self.manager;
        let mut t = match table_remove(&mut self.manager.inner, &self.id) {
            Some(t) => t,
            None => { return; },
        };
        t.update_name(new_name);
        table_insert(&mut self.manager.inner, self.id, t);
        proof {
            lemma_replace_record(m0, *self.manager, self.id, t);
        }
    }

    pub fn update_description(&mut self, new_description: String)
        requires
            old(self).valid(),
        ensures
            final(self).valid(),
            final(self).id_spec() == old(self).id_spec(),
            final(self).store().issued() == old(self).store().issued(),
            final(self).store()@ == old(self).store()@.insert(
                old(self).id_spec(),
                TaskView { description: Some(new_description@), ..old(self).task() },
            ),
    {
        let ghost m0 = *self.manager;
        let mut t = match table_remove(&mut self.manager.inner, &self.id) {
            Some(t) => t,
            None => { return; },
        };
        t.update_description(new_description);
        table_insert(&mut self.manager.inner, self.id, t);
        proof {
            lemma_replace_record(m0, *self.manager, self.id, t);
        }
    }

    /// Marks the task completed; doing so again changes nothing.
    pub fn complete(&mut self)
        requires
            old(self).valid(),
        ensures
            final(self).valid(),
            final(self).id_spec() == old(self).id_spec(),
            final(self).store().issued() == old(self).store().issued(),
            final(self).store()@ == with_completed(old(self).store()@, old(self).id_spec()),
    {
        let ghost m0 = *self.manager;
        let mut t = match table_remove(&mut self.manager.inner, &self.id) {
            Some(t) => t,
            None => { return; },
        };
        t.complete();
        table_insert(&mut self.manager.inner, self.id, t);
        proof {
            lemma_replace_record(m0, *self.manager, self.id, t);
        }
    }
}

} // verus!
