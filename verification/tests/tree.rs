use process_manager::manager::batch::{
    build_process_forest, build_process_tree, get_descendant_pids, kill_descendants, plan_descendant_kill,
};
use process_manager::manager::monitoring::Sighting;
use process_manager::manager::operations::{OpError, OsCall, SignalKind};
use process_manager::manager::Manager;
use process_manager::platform::Platform;
use process_manager::process::tree::ProcessNode;
use process_manager::process::RawRecord;
use process_manager::user::{Privilege, User};

fn sighting(pid: u32, ppid: i32) -> Sighting {
    Sighting::Read {
        pid,
        raw: RawRecord {
            ppid,
            ruid: 0,
            name: "p".to_string(),
            state: 'S',
            rss_pages: 0,
            nice: 0,
            utime: 0,
            stime: 0,
            starttime: 0,
        },
    }
}

fn manager_of(privilege: Privilege, links: &[(u32, i32)]) -> Manager {
    let snapshot: Vec<Sighting> = links.iter().map(|(pid, ppid)| sighting(*pid, *ppid)).collect();
    Manager::new(User::new(0, "tester", privilege), Platform::new(100, 1, 4096), Ok(snapshot), 0, 0).unwrap()
}

fn pids_of(nodes: &[ProcessNode]) -> Vec<u32> {
    nodes.iter().map(|n| n.process.process_id).collect()
}

#[test]
fn tree_of_a_chain_of_three() {
    let manager = manager_of(Privilege::Admin, &[(1, 0), (2, 1), (3, 2)]);
    let root = build_process_tree(&manager).expect("the table holds the root");
    assert_eq!(root.process.process_id, 1);
    assert_eq!(pids_of(&root.children), vec![2]);
    assert_eq!(pids_of(&root.children[0].children), vec![3]);
    assert!(root.children[0].children[0].children.is_empty());
}

#[test]
fn tree_of_a_chain_does_not_depend_on_table_order() {
    let manager = manager_of(Privilege::Admin, &[(3, 2), (2, 1), (1, 0)]);
    let root = manager.build_process_tree().expect("the table holds the root");
    assert_eq!(root.process.process_id, 1);
    assert_eq!(pids_of(&root.children), vec![2]);
    assert_eq!(pids_of(&root.children[0].children), vec![3]);
}

#[test]
fn no_tree_without_the_root() {
    let mut manager = manager_of(Privilege::Admin, &[(1, 0), (2, 1)]);
    manager.root_pid = 99;
    assert!(build_process_tree(&manager).is_none());
    let empty = manager_of(Privilege::Admin, &[]);
    assert!(build_process_tree(&empty).is_none());
}

#[test]
fn children_stand_in_table_order() {
    let manager = manager_of(Privilege::Admin, &[(1, 0), (30, 1), (10, 1), (20, 1), (11, 10)]);
    let root = build_process_tree(&manager).unwrap();
    assert_eq!(pids_of(&root.children), vec![30, 10, 20]);
    assert_eq!(pids_of(&root.children[1].children), vec![11]);
}

#[test]
fn orphan_is_a_root_level_node() {
    let manager = manager_of(Privilege::Admin, &[(5, 999)]);
    let forest = build_process_forest(&manager);
    assert!(forest.tree.is_none());
    assert_eq!(pids_of(&forest.detached), vec![5]);
}

#[test]
fn orphans_keep_their_own_descendants() {
    let manager = manager_of(Privilege::Admin, &[(1, 0), (2, 1), (5, 999), (6, 5), (7, 6), (8, 0)]);
    let forest = build_process_forest(&manager);
    let tree = forest.tree.expect("the table holds the root");
    assert_eq!(pids_of(&tree.children), vec![2]);
    assert_eq!(pids_of(&forest.detached), vec![5, 8]);
    assert_eq!(pids_of(&forest.detached[0].children), vec![6]);
    assert_eq!(pids_of(&forest.detached[0].children[0].children), vec![7]);
    assert!(forest.detached[1].children.is_empty());
}

#[test]
fn the_root_is_nobodys_child() {
    let manager = manager_of(Privilege::Admin, &[(1, 2), (2, 1)]);
    let root = build_process_tree(&manager).unwrap();
    assert_eq!(pids_of(&root.children), vec![2]);
    assert!(root.children[0].children.is_empty());
}

#[test]
fn a_process_that_is_its_own_parent_does_not_hang_the_builder() {
    let manager = manager_of(Privilege::Admin, &[(1, 0), (7, 7)]);
    let forest = build_process_forest(&manager);
    assert!(forest.tree.unwrap().children.is_empty());
    assert!(forest.detached.is_empty());
}

#[test]
fn descendants_come_in_discovery_order() {
    let manager = manager_of(Privilege::Admin, &[(1, 0), (2, 1), (3, 1), (4, 2), (5, 4), (6, 3)]);
    let root = build_process_tree(&manager).unwrap();
    assert_eq!(get_descendant_pids(&root), vec![2, 4, 5, 3, 6]);
    assert_eq!(root.descendants(), vec![2, 4, 5, 3, 6]);
    let two = root.find(2).expect("pid 2 is in the tree");
    assert_eq!(two.process.process_id, 2);
    assert_eq!(get_descendant_pids(two), vec![4, 5]);
    assert!(root.find(42).is_none());
}

#[test]
fn descendants_are_killed_deepest_first_and_the_ancestor_is_spared() {
    let manager = manager_of(Privilege::Admin, &[(1, 0), (2, 1), (3, 1), (4, 2), (5, 4), (6, 3)]);
    let mut batch = kill_descendants(&manager, 2).expect("pid 2 is in the tree");
    assert_eq!(batch.next_call(), Some(OsCall::SendSignal { pid: 5, signal: SignalKind::Kill }));
    batch.record(Ok(()));
    assert_eq!(batch.next_call(), Some(OsCall::SendSignal { pid: 4, signal: SignalKind::Kill }));
    batch.record(Ok(()));
    assert_eq!(batch.next_call(), None);
    assert_eq!(batch.finish(), Ok(vec![5, 4]));
}

#[test]
fn descendant_kill_reports_partial_failure() {
    let manager = manager_of(Privilege::Admin, &[(1, 0), (2, 1), (3, 2), (4, 3)]);
    let mut batch = kill_descendants(&manager, 1).unwrap();
    assert_eq!(batch.finish(), Err(OpError::Unfinished { remaining: 3 }));
    batch.record(Ok(()));
    batch.record(Err(3));
    batch.record(Ok(()));
    assert_eq!(batch.finish(), Err(OpError::PartialFailure { succeeded: 2, failed: 1 }));
    assert_eq!(batch.succeeded_pids(), vec![4, 2]);
}

#[test]
fn descendant_kill_of_a_leaf_kills_nothing() {
    let manager = manager_of(Privilege::Admin, &[(1, 0), (2, 1)]);
    let batch = kill_descendants(&manager, 2).unwrap();
    assert_eq!(batch.next_call(), None);
    assert_eq!(batch.finish(), Ok(vec![]));
}

#[test]
fn descendant_kill_is_refused_before_the_tree_is_looked_at() {
    let manager = manager_of(Privilege::Normal, &[(2, 1)]);
    assert!(matches!(kill_descendants(&manager, 2), Err(OpError::PermissionDenied)));
    assert!(matches!(plan_descendant_kill(&manager, &None, 2), Err(OpError::PermissionDenied)));
}

#[test]
fn descendant_kill_needs_a_tree_and_a_node() {
    let rootless = manager_of(Privilege::Admin, &[(2, 1)]);
    assert!(matches!(kill_descendants(&rootless, 2), Err(OpError::TreeUnavailable)));
    let manager = manager_of(Privilege::Admin, &[(1, 0), (2, 1), (5, 999)]);
    assert!(matches!(kill_descendants(&manager, 77), Err(OpError::NotFound { pid: 77 })));
    assert!(matches!(kill_descendants(&manager, 5), Err(OpError::NotFound { pid: 5 })));
}

#[test]
fn a_circle_of_parents_is_in_no_hierarchy() {
    let manager = manager_of(Privilege::Admin, &[(1, 0), (7, 8), (8, 7), (9, 8)]);
    let forest = build_process_forest(&manager);
    let tree = forest.tree.expect("the table holds the root");
    assert!(tree.children.is_empty());
    assert!(forest.detached.is_empty());
    assert!(tree.find(9).is_none());
}

#[test]
fn a_long_chain_is_built_to_its_end() {
    let links: Vec<(u32, i32)> = (1..=200).map(|pid| (pid, pid as i32 - 1)).collect();
    let manager = manager_of(Privilege::Admin, &links);
    let root = build_process_tree(&manager).unwrap();
    let below = get_descendant_pids(&root);
    assert_eq!(below.len(), 199);
    assert_eq!(below[0], 2);
    assert_eq!(below[198], 200);
    let batch = kill_descendants(&manager, 198).unwrap();
    assert_eq!(batch.next_call(), Some(OsCall::SendSignal { pid: 200, signal: SignalKind::Kill }));
    assert_eq!(batch.remaining(), 2);
}

#[test]
fn every_target_comes_before_its_parent() {
    let manager = manager_of(Privilege::Admin, &[(1, 0), (2, 1), (3, 1), (4, 2), (5, 4), (6, 3)]);
    let mut batch = kill_descendants(&manager, 1).unwrap();
    let mut order = Vec::new();
    while let Some(OsCall::SendSignal { pid, signal }) = batch.next_call() {
        assert_eq!(signal, SignalKind::Kill);
        order.push(pid);
        batch.record(Ok(()));
    }
    assert_eq!(order, vec![6, 3, 5, 4, 2]);
    assert_eq!(batch.finish(), Ok(vec![6, 3, 5, 4, 2]));
}
