//! Task identifiers, task records and the error types of the engine.
use vstd::prelude::*;

use dashmap::DashSet;

use crate::store::{dep_set_insert, dep_set_items, new_dep_set, set_contents};

verus! {

/// An opaque, copyable identifier of a task, unique within its manager.
#[derive(Clone, Copy, Debug, PartialEq, Eq, Hash, Structural)]
pub struct TaskId(u64);

impl TaskId {
    /// The number this identifier was drawn from.
    pub closed spec fn index(self) -> u64 {
        self.0
    }

    pub(crate) fn number(&self) -> (r: u64)
        ensures
            r == self.index(),
    {
        self.0
    }

    /// Distinct identifiers are drawn from distinct numbers.
    pub proof fn lemma_index_injective()
        ensures
            forall|a: TaskId, b: TaskId| a.index() == b.index() ==> a == b,
    {
    }

    /// Draws a fresh identifier from `counter` and advances it.
    pub fn new(counter: &mut u64) -> (r: TaskId)
        requires
            *old(counter) < u64::MAX,
        ensures
            r.index() == *old(counter),
            *final(counter) == *old(counter) + 1,
    {
        let r = TaskId(*counter);
        *counter = *counter + 1;
        r
    }
}


/// A dependency edge: `from` depends on `to`.
#[derive(Debug, PartialEq, Eq, Structural)]
pub struct Dependency {
    pub from: TaskId,
    pub to: TaskId,
}

/// Why a dependency edge was not recorded.
#[derive(Debug, PartialEq, Eq, Structural)]
pub enum AddDependencyError {
    /// The edge would close a cycle.
    CycleDetected(Dependency),
    /// The referenced task does not exist.
    TaskNotFound(TaskId),
}

/// How one task depends on another.
#[derive(Clone, Copy, Debug, PartialEq, Eq, Structural)]
pub enum DependencyKind {
    /// The target is an immediate dependency.
    Direct,
    /// The target is reachable only through intermediate dependencies.
    Transitive,
}

/// The abstract content of a task record.
pub struct TaskView {
    pub name: Seq<char>,
    pub description: Option<Seq<char>>,
    pub completed: bool,
    pub deps: Set<TaskId>,
}

pub open spec fn opt_view(o: Option<String>) -> Option<Seq<char>> {
    match o {
        Some(s) => Some(s@),
        None => None,
    }
}

/// A task record: its identity, its fields and the identifiers it depends on.
pub struct Task {
    id: TaskId,
    name: String,
    description: Option<String>,
    completed: bool,
    deps: DashSet<TaskId>,
}

/// A copy of a task's fields, with its dependencies listed once each.
pub struct TaskInfo {
    pub name: String,
    pub description: Option<String>,
    pub completed: bool,
    pub dependencies: Vec<TaskId>,
}

impl TaskInfo {
    pub open spec fn describes(self, t: Task) -> bool {
        &&& self.name@ == t@.name
        &&& opt_view(self.description) == t@.description
        &&& self.completed == t@.completed
        &&& self.dependencies@.no_duplicates()
        &&& self.dependencies@.to_set() == t@.deps
    }
}

impl View for Task {
    type V = TaskView;

    closed spec fn view(&self) -> TaskView {
        TaskView {
            name: self.name@,
            description: opt_view(self.description),
            completed: self.completed,
            deps: set_contents(self.deps),
        }
    }
}

fn clone_opt(o: &Option<String>) -> (r: Option<String>)
    ensures
        opt_view(r) == opt_view(*o),
{
    match o {
        Some(s) => Some(s.clone()),
        None => None,
    }
}

impl Task {
    pub closed spec fn id_spec(&self) -> TaskId {
        self.id
    }

    /// A new record with no dependencies that is not yet completed.
    pub(crate) fn new(id: TaskId, task_name: String, description: Option<String>) -> (r: Task)
        ensures
            r.id_spec() == id,
            r@ == (TaskView {
                name: task_name@,
                description: opt_view(description),
                completed: false,
                deps: Set::empty(),
            }),
    {
        Task { id, name: task_name, description, completed: false, deps: new_dep_set() }
    }

    pub fn name(&self) -> (r: &str)
        ensures
            r@ == self@.name,
    {
        self.name.as_str()
    }

    pub fn update_name(&mut self, new_name: String)
        ensures
            final(self)@ == (TaskView { name: new_name@, ..old(self)@ }),
            final(self).id_spec() == old(self).id_spec(),
    {
        self.name = new_name;
    }

    pub fn update_description(&mut self, new_description: String)
        ensures
            final(self)@ == (TaskView { description: Some(new_description@), ..old(self)@ }),
            final(self).id_spec() == old(self).id_spec(),
    {
        self.description = Some(new_description);
    }

    pub fn description(&self) -> (r: Option<&str>)
        ensures
            r matches Some(d) ==> self@.description == Some(d@),
            r is None ==> self@.description is None,
    {
        match &self.description {
            None => None,
            Some(d) => Some(d.as_str()),
        }
    }

    pub fn completed(&self) -> (r: bool)
        ensures
            r == self@.completed,
    {
        self.completed
    }

    pub fn complete(&mut self)
        ensures
            final(self)@ == (TaskView { completed: true, ..old(self)@ }),
            final(self).id_spec() == old(self).id_spec(),
    {
        self.completed = true;
    }

    /// Records `dependency_id` among the record's dependencies.
    pub(crate) fn insert_dependency(&mut self, dependency_id: TaskId)
        ensures
            final(self)@ == (TaskView { deps: old(self)@.deps.insert(dependency_id), ..old(self)@ }),
            final(self).id_spec() == old(self).id_spec(),
    {
        dep_set_insert(&mut self.deps, dependency_id);
    }

    /// A copy of the record's fields.
    pub fn snapshot(&self) -> (r: TaskInfo)
        ensures
            r.describes(*self),
    {
        TaskInfo {
            name: self.name.clone(),
            description: clone_opt(&self.description),
            completed: self.completed,
            dependencies: dep_set_items(&self.deps),
        }
    }
}

} // verus!
