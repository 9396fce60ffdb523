use lib_rbxcli::context::{LuauContext, RequireAction, RequireError, RunError};
use lib_rbxcli::instance::InnerInstance;
use lib_rbxcli::require::{ModuleCacheEntry, ModuleValue};
use lib_rbxcli::sourcemap::{InstanceClass, SourcemapDescription};

fn entry(
    name: &str,
    class: InstanceClass,
    files: Option<Vec<&str>>,
    children: Option<Vec<SourcemapDescription>>,
) -> SourcemapDescription {
    SourcemapDescription {
        name: name.to_string(),
        instance_class: class,
        file_paths: files.map(|list| list.into_iter().map(|f| f.to_string()).collect()),
        children,
    }
}

fn project() -> SourcemapDescription {
    entry(
        "Game",
        InstanceClass::Folder,
        None,
        Some(vec![entry(
            "Src",
            InstanceClass::Folder,
            Some(vec![]),
            Some(vec![
                entry("init", InstanceClass::Script, Some(vec!["src/init.lua"]), None),
                entry(
                    "A",
                    InstanceClass::ModuleScript,
                    Some(vec!["src/A.lua", "src/A.meta.json"]),
                    None,
                ),
                entry("B", InstanceClass::ModuleScript, Some(vec!["src/B.lua"]), None),
            ]),
        )]),
    )
}

fn module(context: &LuauContext, name: &str) -> Box<InnerInstance> {
    let tree = context.sourcemap();
    let root = InnerInstance::with_ancestors(tree, tree.root());
    root.index(tree, "Src").unwrap().index(tree, name).unwrap()
}

fn expect_load(action: RequireAction) -> (usize, String, String) {
    match action {
        RequireAction::Load(load) => {
            (load.node, load.source, load.environment.script().full_name())
        }
        other => panic!("unexpected action {:?}", other),
    }
}

#[test]
fn a_new_context_has_the_tree_and_an_empty_cache() {
    let context = LuauContext::new(&project());
    assert_eq!(context.sourcemap().len(), 5);
    assert_eq!(context.sourcemap().node(4).unwrap().name, "Game");
    assert_eq!(context.modules().pending(), Vec::<usize>::new());
    for node in 0..5 {
        assert_eq!(context.modules().entry(node), None);
    }
}

#[test]
fn execute_script_binds_the_node_that_the_file_backs() {
    let context = LuauContext::new(&project());
    let run = context.execute_script("src/init.lua").unwrap();
    assert_eq!(run.chunk_name, "init");
    let script = run.environment.script();
    assert_eq!(script.sourcemap_node, 0);
    assert_eq!(script.name, "init");
    assert_eq!(script.instance_class, InstanceClass::Script);
    assert_eq!(script.full_name(), "Game.Src.init");
    let meta = context.execute_script("src/A.meta.json").unwrap();
    assert_eq!(meta.environment.script().sourcemap_node, 1);
    assert_eq!(meta.chunk_name, "A");
}

#[test]
fn execute_script_of_an_unknown_file_fails() {
    let context = LuauContext::new(&project());
    assert_eq!(context.execute_script("src/none.lua").unwrap_err(), RunError::UnknownScript);
    assert_eq!(context.execute_script("init.lua").unwrap_err(), RunError::UnknownScript);
    assert_eq!(context.execute_script("").unwrap_err(), RunError::UnknownScript);
}

#[test]
fn execute_script_of_a_path_without_a_file_name_fails() {
    let odd = entry("Odd", InstanceClass::Script, Some(vec!["src/.."]), None);
    let context = LuauContext::new(&odd);
    assert_eq!(context.execute_script("src/..").unwrap_err(), RunError::NoFilePrefix);
}

#[test]
fn prepare_script_takes_the_prefix_as_the_chunk_name() {
    let context = LuauContext::new(&project());
    let run = context.prepare_script("src/B.lua", Some("anything".to_string())).unwrap();
    assert_eq!(run.chunk_name, "anything");
    assert_eq!(run.environment.script().full_name(), "Game.Src.B");
    assert_eq!(
        context.prepare_script("src/B.lua", None).unwrap_err(),
        RunError::NoFilePrefix
    );
    assert_eq!(
        context.prepare_script("src/C.lua", Some("C".to_string())).unwrap_err(),
        RunError::UnknownScript
    );
    assert_eq!(context.prepare_script("src/C.lua", None).unwrap_err(), RunError::UnknownScript);
}

#[test]
fn chunk_name_is_the_file_name_up_to_its_first_dot() {
    assert_eq!(LuauContext::chunk_name("src/init.lua"), Ok("init".to_string()));
    assert_eq!(LuauContext::chunk_name("src/init.server.lua"), Ok("init".to_string()));
    assert_eq!(LuauContext::chunk_name("plain"), Ok("plain".to_string()));
    assert_eq!(LuauContext::chunk_name(""), Err(RunError::NoFilePrefix));
    assert_eq!(LuauContext::chunk_name("src/.."), Err(RunError::NoFilePrefix));
}

#[test]
fn require_loads_once_and_then_answers_from_the_cache() {
    let mut context = LuauContext::new(&project());
    let a = module(&context, "A");
    let (node, source, script) = expect_load(context.require(&a));
    assert_eq!(node, 1);
    assert_eq!(source, "src/A.lua");
    assert_eq!(script, "Game.Src.A");
    assert_eq!(context.modules().entry(1), Some(ModuleCacheEntry::Pending));
    assert!(context.finish_require(1, Ok(ModuleValue { handle: 9 })));
    for _ in 0..3 {
        match context.require(&a) {
            RequireAction::Return(value) => assert_eq!(value, ModuleValue { handle: 9 }),
            other => panic!("unexpected action {:?}", other),
        }
    }
}

#[test]
fn require_answers_alike_whoever_holds_the_instance() {
    let mut context = LuauContext::new(&project());
    let reached = module(&context, "B");
    let lone = InnerInstance::new(context.sourcemap(), 2, None);
    let (node, _, script) = expect_load(context.require(&lone));
    assert_eq!(node, 2);
    assert_eq!(script, "Game.Src.B");
    assert!(context.finish_require(2, Ok(ModuleValue { handle: 5 })));
    match context.require(&reached) {
        RequireAction::Return(value) => assert_eq!(value.handle, 5),
        other => panic!("unexpected action {:?}", other),
    }
}

#[test]
fn require_of_a_cycle_fails_on_the_second_entry() {
    let mut context = LuauContext::new(&project());
    let a = module(&context, "A");
    let b = module(&context, "B");
    assert_eq!(expect_load(context.require(&a)).0, 1);
    assert_eq!(expect_load(context.require(&b)).0, 2);
    match context.require(&a) {
        RequireAction::Raise(failure) => {
            assert_eq!(failure, RequireError::CyclicRequire { path: vec![1, 2] })
        }
        other => panic!("unexpected action {:?}", other),
    }
    assert_eq!(context.modules().pending(), vec![1, 2]);
}

#[test]
fn require_of_a_failed_module_raises_the_same_error_again() {
    let mut context = LuauContext::new(&project());
    let a = module(&context, "A");
    expect_load(context.require(&a));
    assert!(context.finish_require(1, Err("A.lua:1: oops".to_string())));
    for _ in 0..2 {
        match context.require(&a) {
            RequireAction::Raise(failure) => assert_eq!(
                failure,
                RequireError::ModuleFailed { error: "A.lua:1: oops".to_string() }
            ),
            other => panic!("unexpected action {:?}", other),
        }
    }
}

#[test]
fn require_of_what_has_no_source_fails_and_leaves_the_cache() {
    let mut context = LuauContext::new(&project());
    let tree = context.sourcemap();
    let root = InnerInstance::with_ancestors(tree, tree.root());
    let src = root.index(tree, "Src").unwrap();
    let stray = InnerInstance {
        name: "Stray".to_string(),
        instance_class: InstanceClass::ModuleScript,
        sourcemap_node: 99,
        parent: None,
    };
    for argument in [&*root, &*src, &stray] {
        match context.require(argument) {
            RequireAction::Raise(failure) => assert_eq!(failure, RequireError::ResolutionFailure),
            other => panic!("unexpected action {:?}", other),
        }
    }
    assert_eq!(context.modules().entry(3), None);
    assert_eq!(context.modules().entry(4), None);
    assert_eq!(context.modules().entry(99), None);
    assert_eq!(context.modules().pending(), Vec::<usize>::new());
}

#[test]
fn finish_require_is_taken_only_while_the_module_loads() {
    let mut context = LuauContext::new(&project());
    assert!(!context.finish_require(1, Ok(ModuleValue { handle: 1 })));
    let a = module(&context, "A");
    expect_load(context.require(&a));
    assert!(context.finish_require(1, Ok(ModuleValue { handle: 2 })));
    assert!(!context.finish_require(1, Ok(ModuleValue { handle: 3 })));
    assert_eq!(
        context.modules().entry(1),
        Some(ModuleCacheEntry::Ready(ModuleValue { handle: 2 }))
    );
}

#[test]
fn require_failures_read_as_texts() {
    let context = LuauContext::new(&project());
    let tree = context.sourcemap();
    assert_eq!(
        RequireError::ResolutionFailure.message(tree),
        "Attempted to require what is not a module with a source file"
    );
    assert_eq!(
        RequireError::ModuleFailed { error: "A.lua:1: oops".to_string() }.message(tree),
        "A.lua:1: oops"
    );
    assert_eq!(
        RequireError::CyclicRequire { path: vec![1, 2] }.message(tree),
        "Cyclic require while loading Game.Src.A -> Game.Src.B"
    );
    assert_eq!(
        RequireError::CyclicRequire { path: vec![2] }.message(tree),
        "Cyclic require while loading Game.Src.B"
    );
    assert_eq!(
        RequireError::CyclicRequire { path: vec![] }.message(tree),
        "Cyclic require while loading "
    );
    assert_eq!(
        RequireError::CyclicRequire { path: vec![0, 42, 4] }.message(tree),
        "Cyclic require while loading Game.Src.init -> ? -> Game"
    );
}

#[test]
fn name_from_prefix_hands_the_prefix_on() {
    assert_eq!(LuauContext::name_from_prefix(Some("init".to_string())), Ok("init".to_string()));
    assert_eq!(LuauContext::name_from_prefix(Some(String::new())), Ok(String::new()));
    assert_eq!(LuauContext::name_from_prefix(None), Err(RunError::NoFilePrefix));
}
