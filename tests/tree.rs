use ro_overlay::mount_tree::{index_by_id, path_within, MountInfo, MountNode, MountTree, TreeError};
use ro_overlay::overlay::mount_plan;

fn info(id: i32, parent: i32, mp: &str) -> MountInfo {
    MountInfo { mnt_id: id, pid: parent, mount_point: mp.as_bytes().to_vec() }
}

fn sample() -> Vec<MountInfo> {
    vec![
        info(5, 1, "/data"),
        info(1, 0, "/"),
        info(4, 2, "/system/bin"),
        info(2, 1, "/system"),
        info(3, 2, "/system/vendor"),
    ]
}

fn ids(tree: &MountTree, v: &[usize]) -> Vec<i32> {
    v.iter().map(|&i| tree.nodes[i].mount_info.mnt_id).collect()
}

fn node_of(tree: &MountTree, id: i32) -> usize {
    tree.nodes.iter().position(|n| n.mount_info.mnt_id == id).unwrap()
}

#[test]
fn tree_nodes_sorted_with_children_by_id() {
    let tree = MountNode::get_tree(sample()).unwrap();
    assert_eq!(ids(&tree, &(0..tree.nodes.len()).collect::<Vec<_>>()), vec![1, 2, 3, 4, 5]);
    assert_eq!(tree.nodes[tree.root].mount_info.mnt_id, 1);
    let root = &tree.nodes[tree.root];
    assert_eq!(ids(&tree, &root.children), vec![2, 5]);
    let system = &tree.nodes[node_of(&tree, 2)];
    assert_eq!(ids(&tree, &system.children), vec![3, 4]);
}

#[test]
fn every_non_root_node_has_its_parent_in_the_tree() {
    let tree = MountNode::get_tree(sample()).unwrap();
    for (i, n) in tree.nodes.iter().enumerate() {
        if i == tree.root {
            continue;
        }
        let p = node_of(&tree, n.mount_info.pid);
        assert!(tree.nodes[p].children.contains(&i));
    }
}

#[test]
fn self_parented_root_is_accepted() {
    let tree = MountNode::get_tree(vec![info(7, 7, "/"), info(8, 7, "/a")]).unwrap();
    assert_eq!(tree.nodes[tree.root].mount_info.mnt_id, 7);
    assert_eq!(ids(&tree, &tree.nodes[tree.root].children), vec![8]);
}

#[test]
fn table_without_root_fails() {
    let r = MountNode::get_tree(vec![info(1, 2, "/"), info(2, 1, "/a")]);
    assert_eq!(r.err(), Some(TreeError::NoRoot));
    assert_eq!(MountNode::get_tree(vec![]).err(), Some(TreeError::NoRoot));
}

#[test]
fn table_with_two_roots_fails() {
    let r = MountNode::get_tree(vec![info(1, 0, "/"), info(2, 99, "/a")]);
    assert_eq!(r.err(), Some(TreeError::MultipleRoots));
}

#[test]
fn later_entry_with_same_id_wins() {
    let r = index_by_id(vec![info(3, 1, "/old"), info(1, 0, "/"), info(3, 1, "/new")]);
    assert_eq!(r.len(), 2);
    assert_eq!(r[0].mnt_id, 1);
    assert_eq!(r[1].mount_point, b"/new".to_vec());
}

#[test]
fn path_within_goes_by_components() {
    let p = |s: &str| s.as_bytes().to_vec();
    assert!(path_within(&p("/system/bin"), &p("/system")));
    assert!(path_within(&p("/system"), &p("/system")));
    assert!(path_within(&p("/system"), &p("/")));
    assert!(!path_within(&p("/systemx"), &p("/system")));
    assert!(!path_within(&p("/sys"), &p("/system")));
}

#[test]
fn covering_mount_is_the_deepest() {
    let tree = MountNode::get_tree(sample()).unwrap();
    let p = |s: &str| s.as_bytes().to_vec();
    let r = MountNode::get_mount_for_path(&tree, tree.root, &p("/system/vendor/lib")).unwrap();
    assert_eq!(tree.nodes[r].mount_info.mnt_id, 3);
    let r = MountNode::get_mount_for_path(&tree, tree.root, &p("/systemx")).unwrap();
    assert_eq!(tree.nodes[r].mount_info.mnt_id, 1);
    assert_eq!(MountNode::get_mount_for_path(&tree, tree.root, &p("relative")), None);
}

#[test]
fn covering_mount_is_idempotent() {
    let tree = MountNode::get_tree(sample()).unwrap();
    let r = MountNode::get_mount_for_path(&tree, tree.root, &b"/system/bin/sh".to_vec()).unwrap();
    let mp = tree.nodes[r].mount_info.mount_point.clone();
    assert_eq!(MountNode::get_mount_for_path(&tree, tree.root, &mp), Some(r));
    assert_eq!(MountNode::get_mount_for_path(&tree, r, &mp), Some(r));
}

#[test]
fn stacked_mount_is_the_top() {
    let mut t = sample();
    t.push(info(6, 3, "/system/vendor"));
    let tree = MountNode::get_tree(t).unwrap();
    let mut tops = Vec::new();
    MountNode::get_child_mounts_for_path(&mut tops, &tree, node_of(&tree, 2), &b"/system".to_vec());
    assert_eq!(ids(&tree, &tops), vec![6, 4]);
}

#[test]
fn nested_mounts_children_before_parents() {
    let mut t = sample();
    t.push(info(9, 3, "/system/vendor/firmware"));
    let tree = MountNode::get_tree(t).unwrap();
    let mut out = Vec::new();
    MountNode::get_top_mounts_under_path(&mut out, &tree, node_of(&tree, 2), &b"/system".to_vec());
    assert_eq!(ids(&tree, &out), vec![9, 3, 4, 2]);
    for &i in &out {
        assert!(path_within(&tree.nodes[i].mount_info.mount_point, &b"/system".to_vec()));
    }
}

#[test]
fn plan_puts_ancestors_first() {
    let mut t = sample();
    t.push(info(9, 3, "/system/vendor/firmware"));
    let tree = MountNode::get_tree(t).unwrap();
    let plan = mount_plan(&tree, &b"/system".to_vec()).unwrap();
    assert_eq!(ids(&tree, &plan), vec![2, 4, 3, 9]);
    let plan = mount_plan(&tree, &b"/data/app".to_vec()).unwrap();
    assert_eq!(ids(&tree, &plan), vec![5]);
    assert_eq!(mount_plan(&tree, &b"data".to_vec()), None);
}

#[test]
fn records_round_trip() {
    let table = sample();
    let mut want: Vec<(i32, i32, Vec<u8>)> =
        table.iter().map(|m| (m.mnt_id, m.pid, m.mount_point.clone())).collect();
    let tree = MountNode::get_tree(table).unwrap();
    let mut got = tree.to_records();
    assert_eq!(got[0], (1, 0, b"/".to_vec()));
    got.sort();
    want.sort();
    assert_eq!(got, want);
}
