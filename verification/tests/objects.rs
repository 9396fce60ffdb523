use lib_rbxcli::instance::InnerInstance;
use lib_rbxcli::objects::InstanceTable;
use lib_rbxcli::sourcemap::{InstanceClass, Sourcemap, SourcemapDescription};

fn node(name: &str, children: Vec<SourcemapDescription>) -> SourcemapDescription {
    SourcemapDescription {
        name: name.to_string(),
        instance_class: InstanceClass::Folder,
        file_paths: None,
        children: Some(children),
    }
}

fn tree() -> Sourcemap {
    Sourcemap::from_description(&node(
        "Game",
        vec![node("Src", vec![node("Deep", vec![])]), node("Lib", vec![])],
    ))
}

#[test]
fn a_new_table_holds_no_instance() {
    let table = InstanceTable::new();
    for handle in 0..4 {
        assert!(table.get(handle).is_none());
    }
}

#[test]
fn an_instance_is_made_on_first_access_only() {
    let tree = tree();
    let mut table = InstanceTable::new();
    assert!(table.materialize(&tree, 1));
    assert!(!table.materialize(&tree, 1));
    assert!(!table.materialize(&tree, 1));
    let src = table.get(1).unwrap();
    assert_eq!(src.name, "Src");
    assert_eq!(src.sourcemap_node, 1);
    assert_eq!(src.full_name(), "Game.Src");
    assert!(table.get(0).is_none());
    assert!(table.get(3).is_none());
}

#[test]
fn the_instance_of_a_node_is_the_one_with_its_ancestors() {
    let tree = tree();
    let mut table = InstanceTable::new();
    table.materialize(&tree, 0);
    let direct = InnerInstance::with_ancestors(&tree, 0);
    let held = table.get(0).unwrap();
    assert_eq!(held.full_name(), direct.full_name());
    assert_eq!(held.full_name(), "Game.Src.Deep");
    assert_eq!(held.instance_class, direct.instance_class);
    assert_eq!(
        held.parent.as_ref().unwrap().sourcemap_node,
        direct.parent.as_ref().unwrap().sourcemap_node
    );
}

#[test]
fn index_makes_the_instances_it_reaches() {
    let tree = tree();
    let mut table = InstanceTable::new();
    let root = tree.root();
    assert_eq!(table.index(&tree, root, "Src").unwrap(), 1);
    assert!(table.get(root).is_some());
    assert!(table.get(1).is_some());
    assert!(table.get(0).is_none());
    assert_eq!(table.index(&tree, 1, "Deep").unwrap(), 0);
    assert_eq!(table.get(0).unwrap().full_name(), "Game.Src.Deep");
    assert!(!table.materialize(&tree, 0));
    assert!(!table.materialize(&tree, 1));
    assert!(!table.materialize(&tree, root));
    assert!(table.materialize(&tree, 2));
}

#[test]
fn index_of_the_same_name_twice_reaches_the_same_instance() {
    let tree = tree();
    let mut table = InstanceTable::new();
    let first = table.index(&tree, tree.root(), "Lib").unwrap();
    let second = table.index(&tree, tree.root(), "Lib").unwrap();
    assert_eq!(first, second);
    assert_eq!(first, 2);
    assert_eq!(table.get(first).unwrap().name, "Lib");
}

#[test]
fn index_of_a_missing_child_fails_and_still_makes_the_indexed_instance() {
    let tree = tree();
    let mut table = InstanceTable::new();
    let failure = table.index(&tree, 1, "Missing").unwrap_err();
    assert_eq!(failure.class, InstanceClass::Folder);
    assert_eq!(failure.full_name, "Game.Src");
    assert_eq!(failure.requested, "Missing");
    assert_eq!(failure.message(), "Missing is not a valid member of Folder \"Game.Src\"");
    assert!(table.get(1).is_some());
    assert!(table.get(0).is_none());
}
