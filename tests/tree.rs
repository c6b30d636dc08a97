use process_tracker::platform::ProcessInfo;
use process_tracker::tree::ProcTree;

fn proc(pid: u32, ppid: u32, name: &str) -> ProcessInfo {
    ProcessInfo { pid, ppid, uid: 501, name: name.to_string(), path: None, args: Vec::new() }
}

fn walk_pids(t: &ProcTree) -> Vec<u32> {
    t.walk().iter().map(|p| p.pid).collect()
}

#[test]
fn tree_roots_and_children_in_snapshot_order() {
    let t = ProcTree::from_processes(vec![
        proc(30, 1, "c"),
        proc(1, 0, "init"),
        proc(20, 1, "b"),
        proc(40, 20, "d"),
        proc(50, 999, "orphan"),
    ]);
    assert_eq!(t.roots, vec![1, 50]);
    assert_eq!(t.nodes.get(&1).unwrap().children, vec![30, 20]);
    assert_eq!(t.nodes.get(&20).unwrap().children, vec![40]);
    assert!(t.nodes.get(&30).unwrap().children.is_empty());
    assert_eq!(walk_pids(&t), vec![1, 30, 20, 40, 50]);
}

#[test]
fn tree_walk_is_parent_first_and_stable() {
    let snapshot = vec![proc(5, 4, "e"), proc(4, 3, "d"), proc(3, 0, "c"), proc(6, 3, "f")];
    let a = walk_pids(&ProcTree::from_processes(snapshot.clone()));
    let b = walk_pids(&ProcTree::from_processes(snapshot));
    assert_eq!(a, vec![3, 4, 5, 6]);
    assert_eq!(a, b);
}

#[test]
fn tree_zero_ppid_is_root_even_with_pid_zero() {
    let t = ProcTree::from_processes(vec![proc(0, 0, "kernel"), proc(1, 0, "launchd"), proc(2, 1, "x")]);
    assert_eq!(t.roots, vec![0, 1]);
    assert!(t.nodes.get(&0).unwrap().children.is_empty());
    assert_eq!(walk_pids(&t), vec![0, 1, 2]);
}

#[test]
fn tree_later_record_with_same_pid_stands() {
    let t = ProcTree::from_processes(vec![proc(1, 0, "old"), proc(2, 1, "child"), proc(1, 0, "new")]);
    assert_eq!(t.nodes.len(), 2);
    assert_eq!(t.nodes.get(&1).unwrap().info.name, "new");
    assert_eq!(t.roots, vec![1]);
    let names: Vec<String> = t.walk().iter().map(|p| p.name.clone()).collect();
    assert_eq!(names, vec!["new".to_string(), "child".to_string()]);
}

#[test]
fn tree_parent_cycle_is_not_walked() {
    let t = ProcTree::from_processes(vec![proc(1, 0, "root"), proc(7, 8, "a"), proc(8, 7, "b"), proc(9, 9, "self")]);
    assert_eq!(t.roots, vec![1]);
    assert_eq!(t.nodes.get(&8).unwrap().children, vec![7]);
    assert_eq!(walk_pids(&t), vec![1]);
}

#[test]
fn tree_empty_snapshot() {
    let t = ProcTree::from_processes(Vec::new());
    assert!(t.roots.is_empty());
    assert!(t.walk().is_empty());
}
