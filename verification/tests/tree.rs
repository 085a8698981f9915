use modulate::node::{Node, Operation, OperationKind, SourcedNode};
use modulate::{Mod, ModKey, ModManager, ModMetadata, Version};

fn file(name: &str) -> Node {
    Node::File { name: name.to_string() }
}

fn dir(name: &str, children: Vec<Node>) -> Node {
    Node::Dir { name: name.to_string(), children }
}

fn mod_entry(name: &str, uuid: u128, node: Node) -> Mod {
    Mod {
        metadata: ModMetadata {
            name: name.to_string(),
            version: Version { major: 1, minor: 0, patch: 0 },
            uuid,
        },
        dir: format!("/mods/{}", name),
        node,
    }
}

fn child<'a>(t: &'a SourcedNode, name: &str) -> &'a SourcedNode {
    match t {
        SourcedNode::Dir { children, .. } => children
            .iter()
            .find(|c| sourced_name(c) == name)
            .expect("child not found"),
        SourcedNode::File { .. } => panic!("not a directory"),
    }
}

fn sourced_name(t: &SourcedNode) -> &str {
    match t {
        SourcedNode::Dir { name, .. } => name,
        SourcedNode::File { name, .. } => name,
    }
}

fn source_of(t: &SourcedNode) -> ModKey {
    match t {
        SourcedNode::File { source, .. } => *source,
        SourcedNode::Dir { .. } => panic!("not a file"),
    }
}

fn two_mod_manager() -> (ModManager, u128, u128) {
    let mut m = ModManager::new();
    let u1 = m.add_mod(mod_entry(
        "mod1",
        1,
        dir("mod1", vec![file("a.txt"), dir("common", vec![file("x.txt")])]),
    ));
    let u2 = m.add_mod(mod_entry(
        "mod2",
        2,
        dir("mod2", vec![file("b.txt"), dir("common", vec![file("x.txt")])]),
    ));
    (m, u1, u2)
}

#[test]
fn merge_same_list_twice_is_identical() {
    let (mut m, u1, u2) = two_mod_manager();
    m.activate_mod(u1).unwrap();
    m.activate_mod(u2).unwrap();
    let t1 = m.make_tree();
    let t2 = m.make_tree();
    assert_eq!(t1, t2);
}

#[test]
fn priority_last_activated_wins() {
    let (mut m, u1, u2) = two_mod_manager();
    m.activate_mod(u1).unwrap();
    m.activate_mod(u2).unwrap();
    let t = m.make_tree();
    // mod2 was activated later, so it has the higher priority on x.txt
    assert_eq!(source_of(child(child(&t, "common"), "x.txt")), ModKey { id: 1 });
    assert_eq!(source_of(child(&t, "a.txt")), ModKey { id: 0 });
    assert_eq!(source_of(child(&t, "b.txt")), ModKey { id: 1 });
}

#[test]
fn priority_flipped_order_flips_owner() {
    let (mut m, u1, u2) = two_mod_manager();
    m.activate_mod(u2).unwrap();
    m.activate_mod(u1).unwrap();
    let t = m.make_tree();
    // mod1 was activated later this time
    assert_eq!(source_of(child(child(&t, "common"), "x.txt")), ModKey { id: 0 });
}

#[test]
fn reorder_changes_priority() {
    let (mut m, u1, u2) = two_mod_manager();
    m.activate_mod(u1).unwrap();
    m.activate_mod(u2).unwrap();
    m.reorder_mods(&[1, 0]).unwrap();
    let t = m.make_tree();
    // after the reorder, mod1 is applied last and wins
    assert_eq!(source_of(child(child(&t, "common"), "x.txt")), ModKey { id: 0 });
}

#[test]
fn diff_of_tree_with_itself_is_empty() {
    let (mut m, u1, u2) = two_mod_manager();
    m.activate_mod(u1).unwrap();
    m.activate_mod(u2).unwrap();
    let t = m.make_tree();
    let mut ops: Vec<Operation> = Vec::new();
    t.tree_edit_distance(&t, &mut ops, "");
    assert!(ops.is_empty());
}

#[test]
fn from_node_tags_every_file() {
    let n = dir("root", vec![file("a"), dir("d", vec![file("b")])]);
    let key = ModKey { id: 7 };
    let s = SourcedNode::from_node(&n, key);
    assert_eq!(source_of(child(&s, "a")), key);
    assert_eq!(source_of(child(child(&s, "d"), "b")), key);
}

#[test]
fn overwrite_keeps_unrelated_entries() {
    let key1 = ModKey { id: 0 };
    let key2 = ModKey { id: 1 };
    let mut acc = SourcedNode::from_node(&dir("root", vec![file("keep.txt")]), key1);
    acc.overwrite_with(&dir("other", vec![file("new.txt")]), key2);
    assert_eq!(source_of(child(&acc, "keep.txt")), key1);
    assert_eq!(source_of(child(&acc, "new.txt")), key2);
}

#[test]
fn removal_is_children_before_directories() {
    let key = ModKey { id: 0 };
    let t = SourcedNode::from_node(
        &dir("root", vec![dir("dir", vec![dir("sub", vec![file("file")])])]),
        key,
    );
    let mut ops: Vec<Operation> = Vec::new();
    let empty = SourcedNode::Dir { name: "root".to_string(), children: Vec::new() };
    t.tree_edit_distance(&empty, &mut ops, "");
    let pos = |p: &str| ops.iter().position(|o| o.path == p).expect("op missing");
    assert_eq!(ops.len(), 3);
    assert!(matches!(ops[pos("/dir/sub/file")].kind, OperationKind::RemoveFile));
    assert!(matches!(ops[pos("/dir/sub")].kind, OperationKind::RemoveDir));
    assert!(matches!(ops[pos("/dir")].kind, OperationKind::RemoveDir));
    assert!(pos("/dir/sub/file") < pos("/dir/sub"));
    assert!(pos("/dir/sub") < pos("/dir"));
}

#[test]
fn creation_is_directories_before_children() {
    let key = ModKey { id: 0 };
    let t = SourcedNode::from_node(
        &dir("root", vec![dir("dir", vec![dir("sub", vec![file("file")])])]),
        key,
    );
    let empty = SourcedNode::Dir { name: "root".to_string(), children: Vec::new() };
    let mut ops: Vec<Operation> = Vec::new();
    empty.tree_edit_distance(&t, &mut ops, "");
    let pos = |p: &str| ops.iter().position(|o| o.path == p).expect("op missing");
    assert_eq!(ops.len(), 3);
    assert!(matches!(ops[pos("/dir")].kind, OperationKind::CreateDir));
    assert!(matches!(ops[pos("/dir/sub")].kind, OperationKind::CreateDir));
    assert!(matches!(ops[pos("/dir/sub/file")].kind, OperationKind::CreateFile(_)));
    assert!(pos("/dir") < pos("/dir/sub"));
    assert!(pos("/dir/sub") < pos("/dir/sub/file"));
}

#[test]
fn create_ops_list_whole_subtree_in_preorder() {
    let key = ModKey { id: 2 };
    let t = SourcedNode::from_node(&dir("d", vec![file("f"), dir("e", vec![file("g")])]), key);
    let mut ops: Vec<Operation> = Vec::new();
    t.ops_for_create_dir("/d", &mut ops);
    assert_eq!(ops.len(), 4);
    assert_eq!(ops[0].path, "/d");
    assert!(matches!(ops[0].kind, OperationKind::CreateDir));
    assert_eq!(ops[1].path, "/d/f");
    assert!(matches!(ops[1].kind, OperationKind::CreateFile(ModKey { id: 2 })));
    assert_eq!(ops[2].path, "/d/e");
    assert!(matches!(ops[2].kind, OperationKind::CreateDir));
    assert_eq!(ops[3].path, "/d/e/g");
    assert!(matches!(ops[3].kind, OperationKind::CreateFile(ModKey { id: 2 })));
}

#[test]
fn remove_ops_list_whole_subtree_in_postorder() {
    let key = ModKey { id: 2 };
    let t = SourcedNode::from_node(&dir("d", vec![dir("e", vec![file("g")]), file("f")]), key);
    let mut ops: Vec<Operation> = Vec::new();
    t.ops_for_remove_dir("/d", &mut ops);
    assert_eq!(ops.len(), 4);
    assert_eq!(ops[0].path, "/d/e/g");
    assert!(matches!(ops[0].kind, OperationKind::RemoveFile));
    assert_eq!(ops[1].path, "/d/e");
    assert!(matches!(ops[1].kind, OperationKind::RemoveDir));
    assert_eq!(ops[2].path, "/d/f");
    assert!(matches!(ops[2].kind, OperationKind::RemoveFile));
    assert_eq!(ops[3].path, "/d");
    assert!(matches!(ops[3].kind, OperationKind::RemoveDir));
}

#[test]
fn type_mismatch_leaves_accumulator_unchanged() {
    // one source provides "x" as a directory, a later one as a file:
    // the merge defensively keeps what is already there
    let key1 = ModKey { id: 0 };
    let key2 = ModKey { id: 1 };
    let mut acc = SourcedNode::from_node(&dir("root", vec![dir("x", vec![file("inner")])]), key1);
    let before = SourcedNode::from_node(&dir("root", vec![dir("x", vec![file("inner")])]), key1);
    acc.overwrite_with(&dir("other", vec![file("x")]), key2);
    assert_eq!(acc, before);
}

#[test]
fn metadata_file_name_is_reserved() {
    assert!(modulate::node::is_metadata_name("mod.toml"));
    assert!(!modulate::node::is_metadata_name("a.txt"));
    assert!(!modulate::node::is_metadata_name("mod.toml.bak"));
}

#[test]
fn two_mod_overlay_scenario() {
    let (mut m, u1, u2) = two_mod_manager();
    m.activate_mod(u1).unwrap();
    m.activate_mod(u2).unwrap();

    let (ops, new_tree) = m.deploy_plan();
    let find = |p: &str| {
        ops.iter()
            .find(|o| o.path == p)
            .unwrap_or_else(|| panic!("no operation for {}", p))
    };
    assert_eq!(ops.len(), 4);
    assert!(matches!(find("/a.txt").kind, OperationKind::CreateFile(ModKey { id: 0 })));
    assert!(matches!(find("/b.txt").kind, OperationKind::CreateFile(ModKey { id: 1 })));
    assert!(matches!(find("/common").kind, OperationKind::CreateDir));
    assert!(matches!(
        find("/common/x.txt").kind,
        OperationKind::CreateFile(ModKey { id: 1 })
    ));
    m.complete_deploy(new_tree);

    m.deactivate_mod(u2).unwrap();
    let (ops2, new_tree2) = m.deploy_plan();
    assert_eq!(ops2.len(), 2);
    let find2 = |p: &str| {
        ops2.iter()
            .find(|o| o.path == p)
            .unwrap_or_else(|| panic!("no operation for {}", p))
    };
    assert!(matches!(find2("/b.txt").kind, OperationKind::RemoveFile));
    assert!(matches!(
        find2("/common/x.txt").kind,
        OperationKind::ChangeSource(ModKey { id: 0 })
    ));
    m.complete_deploy(new_tree2);

    // a.txt is untouched and still owned by mod1 in the deployed tree
    assert_eq!(source_of(child(m.current_tree(), "a.txt")), ModKey { id: 0 });
}

#[test]
fn deploy_plan_is_empty_when_nothing_changed() {
    let (mut m, u1, _u2) = two_mod_manager();
    m.activate_mod(u1).unwrap();
    let (ops, new_tree) = m.deploy_plan();
    assert!(!ops.is_empty());
    m.complete_deploy(new_tree);
    let (ops2, _) = m.deploy_plan();
    assert!(ops2.is_empty());
}
