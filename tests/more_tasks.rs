use std::collections::HashSet;
use taskdeps::{AddDependencyError, Dependency, DependencyKind, TaskId, TaskManager};

fn cycle(from: TaskId, to: TaskId) -> AddDependencyError {
    AddDependencyError::CycleDetected(Dependency { from, to })
}

#[test]
fn created_ids_are_pairwise_distinct() {
    let mut manager = TaskManager::new();
    let mut seen = HashSet::new();
    for i in 0..200 {
        let id = if i % 2 == 0 {
            manager.new_task("a")
        } else {
            manager.new_task_with_description("a", "b")
        };
        assert!(seen.insert(id));
    }
}

#[test]
fn task_id_new_advances_counter() {
    let mut counter: u64 = 41;
    let a = TaskId::new(&mut counter);
    assert_eq!(counter, 42);
    let b = TaskId::new(&mut counter);
    assert_eq!(counter, 43);
    assert_ne!(a, b);
}

#[test]
fn new_task_has_no_description_and_is_open() {
    let mut manager = TaskManager::new();
    let id = manager.new_task("plain");
    let t = manager.get(&id).unwrap();
    assert_eq!(t.name(), "plain");
    assert!(t.description().is_none());
    assert!(!t.completed());
    assert!(!t.has_dependencies());
    assert_eq!(t.num_dependencies(), 0);
}

#[test]
fn unknown_ids_are_not_found() {
    let mut manager = TaskManager::new();
    let id = manager.new_task("one");
    let mut other = TaskManager::new();
    other.new_task("x");
    let stranger = other.new_task("y");
    assert!(manager.get(&stranger).is_none());
    assert!(manager.get_mut(&stranger).is_none());
    assert_eq!(
        manager.add_dependency(&stranger, &id),
        Err(AddDependencyError::TaskNotFound(stranger))
    );
    assert_eq!(
        manager.add_dependency(&id, &stranger),
        Err(AddDependencyError::TaskNotFound(stranger))
    );
    assert!(!manager.get(&id).unwrap().has_dependencies());
}

#[test]
fn self_dependency_is_a_cycle() {
    let mut manager = TaskManager::new();
    let id = manager.new_task("self");
    assert_eq!(manager.add_dependency(&id, &id), Err(cycle(id, id)));
    let t = manager.get(&id).unwrap();
    assert_eq!(t.num_dependencies(), 0);
    assert!(t.depends_on(&id).is_none());
}

#[test]
fn added_edge_is_direct() {
    let mut manager = TaskManager::new();
    let p = manager.new_task("p");
    let d = manager.new_task("d");
    assert_eq!(manager.add_dependency(&p, &d), Ok(()));
    assert_eq!(manager.get(&p).unwrap().depends_on(&d), Some(DependencyKind::Direct));
    assert_eq!(manager.get(&d).unwrap().depends_on(&p), None);
}

#[test]
fn direct_edge_wins_over_longer_path() {
    // a -> b -> c and a -> c
    let mut manager = TaskManager::new();
    let a = manager.new_task("a");
    let b = manager.new_task("b");
    let c = manager.new_task("c");
    manager.add_dependency(&a, &b).unwrap();
    manager.add_dependency(&b, &c).unwrap();
    manager.add_dependency(&a, &c).unwrap();
    let t = manager.get(&a).unwrap();
    assert_eq!(t.depends_on(&c), Some(DependencyKind::Direct));
    assert_eq!(t.num_dependencies(), 2);
}

#[test]
fn reverse_edge_rejected_and_count_kept() {
    let mut manager = TaskManager::new();
    let a = manager.new_task("a");
    let b = manager.new_task("b");
    let c = manager.new_task("c");
    manager.add_dependency(&a, &b).unwrap();
    manager.add_dependency(&b, &c).unwrap();
    let before = manager.get(&b).unwrap().num_dependencies();
    assert_eq!(manager.add_dependency(&b, &a), Err(cycle(b, a)));
    assert_eq!(manager.get(&b).unwrap().num_dependencies(), before);
    assert_eq!(before, 1);
}

#[test]
fn branch_cycle_keeps_existing_edges() {
    let mut manager = TaskManager::new();
    let t: Vec<TaskId> = (0..5).map(|_| manager.new_task("t")).collect();
    manager.add_dependency(&t[0], &t[1]).unwrap();
    manager.add_dependency(&t[1], &t[2]).unwrap();
    manager.add_dependency(&t[2], &t[3]).unwrap();
    manager.add_dependency(&t[2], &t[4]).unwrap();
    assert_eq!(manager.add_dependency(&t[4], &t[0]), Err(cycle(t[4], t[0])));
    assert_eq!(manager.get(&t[4]).unwrap().num_dependencies(), 0);
    assert_eq!(manager.get(&t[2]).unwrap().num_dependencies(), 2);
    assert_eq!(manager.get(&t[0]).unwrap().depends_on(&t[4]), Some(DependencyKind::Transitive));
    assert_eq!(manager.get(&t[0]).unwrap().depends_on(&t[3]), Some(DependencyKind::Transitive));
}

#[test]
fn diamond_graph_queries() {
    // a -> b -> d, a -> c -> d, d -> e
    let mut manager = TaskManager::new();
    let a = manager.new_task("a");
    let b = manager.new_task("b");
    let c = manager.new_task("c");
    let d = manager.new_task("d");
    let e = manager.new_task("e");
    manager.add_dependency(&a, &b).unwrap();
    manager.add_dependency(&a, &c).unwrap();
    manager.add_dependency(&b, &d).unwrap();
    manager.add_dependency(&c, &d).unwrap();
    manager.add_dependency(&d, &e).unwrap();
    assert_eq!(manager.get(&a).unwrap().depends_on(&e), Some(DependencyKind::Transitive));
    assert_eq!(manager.get(&b).unwrap().depends_on(&c), None);
    assert_eq!(manager.add_dependency(&e, &a), Err(cycle(e, a)));
    assert_eq!(manager.add_dependency(&e, &c), Err(cycle(e, c)));
    assert_eq!(manager.add_dependency(&c, &b), Ok(()));
}

#[test]
fn complete_twice_is_complete() {
    let mut manager = TaskManager::new();
    let id = manager.new_task("job");
    {
        let mut t = manager.get_mut(&id).unwrap();
        t.complete();
        t.complete();
        assert!(t.completed());
    }
    assert!(manager.get(&id).unwrap().completed());
    assert_eq!(manager.get(&id).unwrap().name(), "job");
}

#[test]
fn updates_are_visible_through_read_handles() {
    let mut manager = TaskManager::new();
    let id = manager.new_task("old");
    let other = manager.new_task("other");
    manager.add_dependency(&id, &other).unwrap();
    {
        let mut t = manager.get_mut(&id).unwrap();
        t.update_name("fresh".to_string());
        t.update_description("first".to_string());
        t.update_description("second".to_string());
    }
    let t = manager.get(&id).unwrap();
    assert_eq!(t.name(), "fresh");
    assert_eq!(t.description().unwrap(), "second");
    assert_eq!(t.depends_on(&other), Some(DependencyKind::Direct));
    assert_eq!(manager.get(&other).unwrap().name(), "other");
}

#[test]
fn disjoint_edges_are_all_recorded() {
    let mut manager = TaskManager::new();
    let ids: Vec<TaskId> = (0..8).map(|_| manager.new_task("n")).collect();
    for pair in ids.chunks(2) {
        assert_eq!(manager.add_dependency(&pair[0], &pair[1]), Ok(()));
    }
    for pair in ids.chunks(2) {
        let t = manager.get(&pair[0]).unwrap();
        assert_eq!(t.num_dependencies(), 1);
        assert_eq!(t.depends_on(&pair[1]), Some(DependencyKind::Direct));
        assert!(!manager.get(&pair[1]).unwrap().has_dependencies());
    }
}

#[test]
fn many_dependencies_are_counted() {
    let mut manager = TaskManager::new();
    let hub = manager.new_task("hub");
    let leaves: Vec<TaskId> = (0..10).map(|_| manager.new_task("leaf")).collect();
    for leaf in &leaves {
        manager.add_dependency(&hub, leaf).unwrap();
        manager.add_dependency(&hub, leaf).unwrap();
    }
    let t = manager.get(&hub).unwrap();
    assert_eq!(t.num_dependencies(), 10);
    for leaf in &leaves {
        assert_eq!(t.depends_on(leaf), Some(DependencyKind::Direct));
    }
}
