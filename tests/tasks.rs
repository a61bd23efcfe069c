use rand::Rng;
use taskdeps::{AddDependencyError, Dependency, DependencyKind, TaskId, TaskManager};

fn create_random_tasks(manager: &mut TaskManager, num_tasks: usize) -> Vec<TaskId> {
    (0..num_tasks).map(|_| manager.new_task("random_task")).collect()
}

fn add_dependency_chain_from_ids(
    manager: &mut TaskManager,
    task_ids: &[TaskId],
) -> Result<(), AddDependencyError> {
    for pair in task_ids.windows(2) {
        manager.add_dependency(&pair[0], &pair[1])?;
    }
    Ok(())
}

fn add_dependency_chain_from_refs(
    manager: &mut TaskManager,
    task_ids: &[&TaskId],
) -> Result<(), AddDependencyError> {
    for pair in task_ids.windows(2) {
        manager.add_dependency(pair[0], pair[1])?;
    }
    Ok(())
}

fn cycle(from: TaskId, to: TaskId) -> AddDependencyError {
    AddDependencyError::CycleDetected(Dependency { from, to })
}

#[test]
fn create_task_with_name() {
    let mut manager = TaskManager::new();
    let id = manager.new_task("hello world!");
    let t = manager.get(&id).unwrap();
    assert_eq!(t.name(), "hello world!");
}

#[test]
fn create_task_with_description() {
    let mut manager = TaskManager::new();
    let name = "hello world!";
    let description = "this is a very small task";
    let id = manager.new_task_with_description(name, description);
    let t = manager.get(&id).unwrap();
    assert_eq!(t.description().unwrap(), description);
}

#[test]
fn update_task() {
    let mut mngr = TaskManager::new();
    let id = mngr.new_task("hi");
    let mut t = mngr.get_mut(&id).unwrap();

    let new_name = "new name";
    let new_desc = "new description";

    t.update_name(new_name.to_string());
    assert_eq!(t.name(), new_name);

    t.update_description(new_desc.to_string());
    assert_eq!(t.description().unwrap(), new_desc);
}

#[test]
fn complete_task() {
    let mut manager = TaskManager::new();
    let id = manager.new_task("hello world");
    let mut t = manager.get_mut(&id).unwrap();
    assert!(!t.completed());

    t.complete();
    assert!(t.completed());

    t.complete();
    assert!(t.completed());
}

#[test]
fn create_task_with_dependency() {
    let mut manager = TaskManager::new();

    let dep_id = manager.new_task("dependent task");
    let parent_id = manager.new_task("parent");

    manager.add_dependency(&parent_id, &dep_id).unwrap();

    let parent = manager.get(&parent_id).unwrap();
    assert!(parent.has_dependencies());
    assert_eq!(parent.num_dependencies(), 1);
    assert_eq!(parent.depends_on(&dep_id).unwrap(), DependencyKind::Direct);
}

#[test]
fn create_transitive_dependency() {
    // t1 -> t2 -> t3
    let mut manager = TaskManager::new();

    let id1 = manager.new_task("t1");
    let id2 = manager.new_task("t2");
    let id3 = manager.new_task("t3");

    manager.add_dependency(&id1, &id2).unwrap();
    manager.add_dependency(&id2, &id3).unwrap();

    assert_eq!(
        manager.get(&id1).unwrap().depends_on(&id3).unwrap(),
        DependencyKind::Transitive
    );
}

#[test]
fn dependency_is_unidirectional() {
    // t1 -> t2 -> t3
    let mut manager = TaskManager::new();

    let id1 = manager.new_task("t1");
    let id2 = manager.new_task("t2");
    let id3 = manager.new_task("t3");

    manager.add_dependency(&id1, &id2).unwrap();
    manager.add_dependency(&id2, &id3).unwrap();

    assert!(manager.get(&id1).unwrap().depends_on(&id3).is_some());
    assert!(manager.get(&id3).unwrap().depends_on(&id1).is_none());
}

#[test]
fn long_dependency_chain() {
    let mut manager = TaskManager::new();

    let ids = create_random_tasks(&mut manager, 1_000);

    add_dependency_chain_from_ids(&mut manager, ids.as_slice()).unwrap();

    let mut count = 0;
    let target = 1000;

    while count < target {
        let id1 = rand::thread_rng().gen_range(0..ids.len());
        let id2 = rand::thread_rng().gen_range(0..ids.len());
        if id1 == id2 {
            continue;
        }

        let parent = if id1 < id2 { id1 } else { id2 };
        let child = if id1 < id2 { id2 } else { id1 };

        assert!(manager
            .get(&ids[parent])
            .unwrap()
            .depends_on(&ids[child])
            .is_some());
        count += 1;
    }
}

#[test]
fn prevent_duplicate_dependencies() {
    let mut manager = TaskManager::new();

    let dep_id = manager.new_task("dependent");
    let parent_id = manager.new_task("parent");

    for _ in 0..100 {
        manager.add_dependency(&parent_id, &dep_id).unwrap();
    }

    let parent = manager.get(&parent_id).unwrap();
    assert!(parent.has_dependencies());
    assert_eq!(parent.num_dependencies(), 1);
}

#[test]
fn prevent_simple_cycle() {
    // t1 -> t2 -> t1
    let mut manager = TaskManager::new();

    let id1 = manager.new_task("t1");
    let id2 = manager.new_task("t2");

    assert!(manager.add_dependency(&id1, &id2).is_ok());
    assert_eq!(manager.add_dependency(&id2, &id1).err(), Some(cycle(id2, id1)));
}

#[test]
fn prevent_linear_dependency_cycle() {
    // t1 -> t2 -> t3 -> t4 -> t1
    let mut manager = TaskManager::new();

    let id1 = manager.new_task("t1");
    let id2 = manager.new_task("t2");
    let id3 = manager.new_task("t3");
    let id4 = manager.new_task("t4");

    assert!(manager.add_dependency(&id1, &id2).is_ok());
    assert!(manager.add_dependency(&id2, &id3).is_ok());
    assert!(manager.add_dependency(&id3, &id4).is_ok());
    assert_eq!(manager.add_dependency(&id4, &id1).err(), Some(cycle(id4, id1)));
}

#[test]
fn prevent_cycles_with_multiple_paths() {
    // t1 -> t2 -> t3 -> t4
    //  `--- t5 <---^
    let mut manager = TaskManager::new();

    let ids = create_random_tasks(&mut manager, 5);
    match ids.as_slice() {
        [id1, id2, id3, id4, id5] => {
            add_dependency_chain_from_refs(&mut manager, &[id1, id2, id3, id4]).unwrap();

            assert_eq!(
                add_dependency_chain_from_refs(&mut manager, &[id3, id5, id1]).err(),
                Some(cycle(*id5, *id1))
            );
        }
        _ => unreachable!(),
    }
}
