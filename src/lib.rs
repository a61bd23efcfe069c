//! An in-memory registry of tasks linked by "depends-on" edges.
//!
//! Every edge insertion is preceded by a reachability check, so the
//! dependency graph held by a [`TaskManager`] never contains a cycle.
pub mod graph;
pub mod laws;
pub mod store;
pub mod manager;
pub mod task;

pub use manager::{TaskManager, TaskRef, TaskRefMut};
pub use task::{AddDependencyError, Dependency, DependencyKind, Task, TaskId};
