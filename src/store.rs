//! The outside concurrent collections the engine stores its records in.
use vstd::prelude::*;

use dashmap::{DashMap, DashSet};
use std::hash::RandomState;

use crate::task::{Task, TaskId, TaskInfo};

verus! {

#[verifier::external_type_specification]
#[verifier::external_body]
#[verifier::reject_recursive_types(K)]
#[verifier::reject_recursive_types(S)]
pub struct ExDashSet<K, S>(DashSet<K, S>);

/// The identifiers held by a dependency set.
pub uninterp spec fn set_contents(s: DashSet<TaskId>) -> Set<TaskId>;

/// Relies on DashSet::new: a new set is empty.
#[verifier::external_body]
pub(crate) fn new_dep_set() -> (r: DashSet<TaskId>)
    ensures
        set_contents(r) == Set::<TaskId>::empty(),
{
    DashSet::new()
}

/// Relies on DashSet::insert: the key is a member afterwards, nothing else changes.
#[verifier::external_body]
pub(crate) fn dep_set_insert(s: &mut DashSet<TaskId>, k: TaskId)
    ensures
        set_contents(*final(s)) == set_contents(*old(s)).insert(k),
{
    s.insert(k);
}

/// Relies on DashSet::iter: it yields each member exactly once.
#[verifier::external_body]
pub(crate) fn dep_set_items(s: &DashSet<TaskId>) -> (r: Vec<TaskId>)
    ensures
        r@.no_duplicates(),
        r@.to_set() == set_contents(*s),
{
    s.iter().map(|k| *k).collect()
}


#[verifier::external_type_specification]
#[verifier::external_body]
#[verifier::reject_recursive_types(K)]
#[verifier::reject_recursive_types(V)]
#[verifier::reject_recursive_types(S)]
pub struct ExDashMap<K, V, S>(DashMap<K, V, S>);

/// The table every task record is stored in.
pub type TaskTable = DashMap<TaskId, Task>;

/// The records held by a task table, by identifier.
pub uninterp spec fn table_contents(m: TaskTable) -> Map<TaskId, Task>;

/// Relies on DashMap::new: a new map is empty.
#[verifier::external_body]
pub(crate) fn new_table() -> (r: TaskTable)
    ensures
        table_contents(r).dom() == Set::<TaskId>::empty(),
{
    DashMap::new()
}

/// Relies on DashMap::insert: the key maps to the value afterwards, other entries stay.
#[verifier::external_body]
pub(crate) fn table_insert(m: &mut TaskTable, k: TaskId, v: Task)
    ensures
        table_contents(*final(m)) == table_contents(*old(m)).insert(k, v),
{
    m.insert(k, v);
}

/// Relies on DashMap::remove: takes the entry under the key out of the map, if there is one.
#[verifier::external_body]
pub(crate) fn table_remove(m: &mut TaskTable, k: &TaskId) -> (r: Option<Task>)
    ensures
        table_contents(*old(m)).contains_key(*k) ==> r == Some(table_contents(*old(m))[*k]),
        !table_contents(*old(m)).contains_key(*k) ==> r is None,
        table_contents(*final(m)) == table_contents(*old(m)).remove(*k),
{
    m.remove(k).map(|(_, v)| v)
}

/// Relies on DashMap::view: runs `Task::snapshot` on the entry under the key, if there is one.
#[verifier::external_body]
pub(crate) fn table_snapshot(m: &TaskTable, k: &TaskId) -> (r: Option<TaskInfo>)
    ensures
        r is Some <==> table_contents(*m).contains_key(*k),
        r matches Some(info) ==> info.describes(table_contents(*m)[*k]),
{
    m.view(k, |_, t| t.snapshot())
}

} // verus!
