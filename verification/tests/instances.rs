use lib_rbxcli::instance::{InnerInstance, NoSuchMember};
use lib_rbxcli::sourcemap::{InstanceClass, Sourcemap, SourcemapDescription};

fn folder(name: &str, children: Vec<SourcemapDescription>) -> SourcemapDescription {
    SourcemapDescription {
        name: name.to_string(),
        instance_class: InstanceClass::Folder,
        file_paths: None,
        children: Some(children),
    }
}

fn script(name: &str, class: InstanceClass, file: &str) -> SourcemapDescription {
    SourcemapDescription {
        name: name.to_string(),
        instance_class: class,
        file_paths: Some(vec![file.to_string()]),
        children: None,
    }
}

fn game_with_empty_src() -> Sourcemap {
    Sourcemap::from_description(&folder("Game", vec![folder("Src", vec![])]))
}

fn project() -> Sourcemap {
    Sourcemap::from_description(&folder(
        "Game",
        vec![folder(
            "Src",
            vec![
                script("init", InstanceClass::Script, "src/init.lua"),
                script("Util", InstanceClass::ModuleScript, "src/Util.lua"),
            ],
        )],
    ))
}

#[test]
fn new_copies_name_and_class_and_keeps_the_parent() {
    let tree = project();
    let lone = InnerInstance::new(&tree, 1, None);
    assert_eq!(lone.name, "Util");
    assert_eq!(lone.instance_class, InstanceClass::ModuleScript);
    assert_eq!(lone.sourcemap_node, 1);
    assert!(lone.parent.is_none());
    let child = InnerInstance::new(&tree, 0, Some(lone));
    assert_eq!(child.name, "init");
    assert_eq!(child.parent.as_ref().unwrap().name, "Util");
    assert_eq!(child.parent.as_ref().unwrap().sourcemap_node, 1);
}

#[test]
fn accessors_read_what_was_copied() {
    let tree = project();
    let root = InnerInstance::with_ancestors(&tree, tree.root());
    let src = root.index(&tree, "Src").unwrap();
    assert_eq!(src.name(), "Src");
    assert_eq!(src.class(), InstanceClass::Folder);
    assert_eq!(src.parent().unwrap().name(), "Game");
    assert!(root.parent().is_none());
}

#[test]
fn to_string_is_a_placeholder_and_not_the_name() {
    let tree = project();
    let root = InnerInstance::with_ancestors(&tree, tree.root());
    assert_eq!(root.to_string(), "Instance");
    let src = root.index(&tree, "Src").unwrap();
    assert_eq!(src.to_string(), "Instance");
}

#[test]
fn index_reaches_the_child_of_that_name() {
    let tree = project();
    let root = InnerInstance::with_ancestors(&tree, tree.root());
    let src = root.index(&tree, "Src").unwrap();
    assert_eq!(src.sourcemap_node, 2);
    let util = src.index(&tree, "Util").unwrap();
    assert_eq!(util.sourcemap_node, 1);
    assert_eq!(util.name, "Util");
    assert_eq!(util.instance_class, InstanceClass::ModuleScript);
    assert_eq!(tree.parent(util.sourcemap_node), Some(src.sourcemap_node));
    let above = util.parent.as_ref().unwrap();
    assert_eq!(above.sourcemap_node, 2);
    assert_eq!(above.parent.as_ref().unwrap().sourcemap_node, 3);
    assert!(above.parent.as_ref().unwrap().parent.is_none());
}

#[test]
fn index_of_a_missing_child_names_class_and_full_path() {
    let tree = game_with_empty_src();
    let game = InnerInstance::with_ancestors(&tree, tree.root());
    let src = game.index(&tree, "Src").unwrap();
    let failure: NoSuchMember = src.index(&tree, "Missing").unwrap_err();
    assert_eq!(failure.class, InstanceClass::Folder);
    assert_eq!(failure.full_name, "Game.Src");
    assert_eq!(failure.requested, "Missing");
    let text = failure.message();
    assert_eq!(text, "Missing is not a valid member of Folder \"Game.Src\"");
    assert!(text.contains("Folder"));
    assert!(text.contains("Src\""));
}

#[test]
fn index_on_the_root_fails_with_the_root_name_alone() {
    let tree = game_with_empty_src();
    let game = InnerInstance::with_ancestors(&tree, tree.root());
    let failure = game.index(&tree, "src").unwrap_err();
    assert_eq!(failure.full_name, "Game");
    assert_eq!(failure.message(), "src is not a valid member of Folder \"Game\"");
}

#[test]
fn index_is_case_sensitive_and_looks_at_immediate_children_only() {
    let tree = project();
    let root = InnerInstance::with_ancestors(&tree, tree.root());
    assert!(root.index(&tree, "Util").is_err());
    assert!(root.index(&tree, "SRC").is_err());
    assert!(root.index(&tree, "Src").is_ok());
}

#[test]
fn index_of_an_instance_bound_outside_the_tree_fails() {
    let big = project();
    let small = game_with_empty_src();
    let util = InnerInstance::with_ancestors(&big, 1);
    let stray = InnerInstance {
        name: "Stray".to_string(),
        instance_class: InstanceClass::Script,
        sourcemap_node: 17,
        parent: Some(util),
    };
    let failure = stray.index(&small, "Src").unwrap_err();
    assert_eq!(failure.class, InstanceClass::Script);
    assert_eq!(failure.full_name, "Game.Src.Util.Stray");
    assert_eq!(failure.message(), "Src is not a valid member of Script \"Game.Src.Util.Stray\"");
}

#[test]
fn full_name_joins_the_names_from_the_outermost_on() {
    let tree = project();
    let init = InnerInstance::with_ancestors(&tree, 0);
    assert_eq!(init.full_name(), "Game.Src.init");
    let lone = InnerInstance::new(&tree, 0, None);
    assert_eq!(lone.full_name(), "init");
}

#[test]
fn with_ancestors_gives_every_node_but_the_root_a_parent() {
    let tree = project();
    for node in 0..tree.len() {
        let instance = InnerInstance::with_ancestors(&tree, node);
        assert_eq!(instance.sourcemap_node, node);
        assert_eq!(instance.name, tree.node(node).unwrap().name);
        assert_eq!(instance.parent.is_none(), node == tree.root());
        if let Some(above) = instance.parent.as_ref() {
            assert_eq!(Some(above.sourcemap_node), tree.parent(node));
        }
    }
}

#[test]
fn indexing_from_the_root_agrees_with_with_ancestors() {
    let tree = project();
    let root = InnerInstance::with_ancestors(&tree, tree.root());
    let by_index = root.index(&tree, "Src").unwrap().index(&tree, "init").unwrap();
    let direct = InnerInstance::with_ancestors(&tree, 0);
    assert_eq!(by_index.full_name(), direct.full_name());
    assert_eq!(by_index.sourcemap_node, direct.sourcemap_node);
    assert_eq!(
        by_index.parent.as_ref().unwrap().sourcemap_node,
        direct.parent.as_ref().unwrap().sourcemap_node
    );
}

#[test]
fn duplicate_copies_the_whole_chain() {
    let tree = project();
    let init = InnerInstance::with_ancestors(&tree, 0);
    let copy = init.duplicate();
    assert_eq!(copy.name, "init");
    assert_eq!(copy.instance_class, InstanceClass::Script);
    assert_eq!(copy.sourcemap_node, 0);
    assert_eq!(copy.full_name(), "Game.Src.init");
    assert_eq!(copy.parent.as_ref().unwrap().sourcemap_node, 2);
}
