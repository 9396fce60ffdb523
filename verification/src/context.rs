//! The execution context: the layout tree, the shared globals and the
//! module cache of one host, and what it decides before a script runs and
//! when a script requires a module.

use crate::globals::{
    create_require_global, create_task_global, Capability, Environment, GlobalTable, GlobalsView,
};
use crate::instance::{full_name_of, mirror, InnerInstance, InstanceView};
use crate::layout::represents;
use crate::require::{
    begin, empty_cache, finish, is_pending, CacheState, ModuleCache, ModuleValue, RequireStep,
    StepView,
};
use crate::sourcemap::{
    owner_of, well_formed, NodeView, Sourcemap, SourcemapDescription, SourcemapNode,
};
use vstd::prelude::*;

verus! {

/// The shared globals of every context, frozen: the service locator, the
/// entry point that loads modules, and the scheduling primitives.
pub open spec fn standard_globals() -> GlobalsView {
    GlobalsView {
        settings: seq![
            ("game"@, Capability::Game),
            ("require"@, Capability::Require),
            ("task"@, Capability::Task),
            ("wait"@, Capability::Wait),
        ],
        frozen: true,
    }
}

/// The file that holds the source of the module `node`: the first of the
/// files that back the node. A handle that names no node has none, and
/// neither has a node that no file backs.
pub open spec fn module_source(nodes: Seq<NodeView>, node: SourcemapNode) -> Option<Seq<char>> {
    if node < nodes.len() {
        match nodes[node as int].file_paths {
            Some(list) if list.len() > 0 => Some(list[0]),
            _ => None,
        }
    } else {
        None
    }
}

/// Why a script could not be prepared for its run.
#[derive(Debug, Clone, Copy, PartialEq, Eq, Structural)]
pub enum RunError {
    /// No node of the layout is backed by the file of the script.
    UnknownScript,
    /// The path of the script has no file name to call its chunk by.
    NoFilePrefix,
}

/// What the host needs to run a script: the private environment of the
/// run, and the name to give the chunk.
#[derive(Debug)]
pub struct ScriptRun {
    pub environment: Environment,
    pub chunk_name: String,
}

/// `Path::file_prefix` of the standard library, as text: the file name of
/// the path up to its first dot, or nothing where the path names no file.
/// What counts as the file name is for the platform to say, so nothing is
/// claimed of the result.
#[verifier::external_body]
fn file_prefix(path: &str) -> (prefix: Option<String>) {
    match std::path::Path::new(path).file_prefix() {
        Some(name) => Some(name.to_string_lossy().into_owned()),
        None => None,
    }
}

/// What preparing the script at `path` gives when the file prefix of the
/// path is `prefix`: the instance of the node that the file backs, as the
/// script of the run.
pub open spec fn prepared(nodes: Seq<NodeView>, path: Seq<char>, prefix: Option<Seq<char>>) -> Result<
    (InstanceView, Seq<char>),
    RunError,
> {
    match owner_of(nodes, path) {
        None => Err(RunError::UnknownScript),
        Some(node) => match prefix {
            None => Err(RunError::NoFilePrefix),
            Some(name) => Ok((mirror(nodes, node), name)),
        },
    }
}

/// Why a module could not be required.
#[derive(Debug, PartialEq, Eq)]
pub enum RequireError {
    /// What was required is no module of the tree with a source to load.
    ResolutionFailure,
    /// The module is being loaded: the request closes a cycle. The path
    /// names the modules being loaded, in the order their loads began.
    CyclicRequire { path: Vec<SourcemapNode> },
    /// The module was loaded once and failed, with this error.
    ModuleFailed { error: String },
}

/// The texts in `names`, in order, with `separator` between each two.
pub open spec fn joined(names: Seq<Seq<char>>, separator: Seq<char>) -> Seq<char>
    decreases names.len(),
{
    if names.len() == 0 {
        Seq::empty()
    } else if names.len() == 1 {
        names[0]
    } else {
        joined(names.drop_last(), separator) + separator + names.last()
    }
}

/// What a module is called in a message: the full name of the instance of
/// its node, and a question mark for a handle that names no node.
pub open spec fn module_name(nodes: Seq<NodeView>, node: SourcemapNode) -> Seq<char> {
    if node < nodes.len() {
        full_name_of(mirror(nodes, node))
    } else {
        "?"@
    }
}

/// The names of the modules in `path`, in order.
pub open spec fn module_names(nodes: Seq<NodeView>, path: Seq<SourcemapNode>) -> Seq<Seq<char>> {
    Seq::new(path.len(), |i: int| module_name(nodes, path[i]))
}

impl RequireError {
    /// The text of the failure.
    pub open spec fn message_spec(&self, nodes: Seq<NodeView>) -> Seq<char> {
        match *self {
            RequireError::ResolutionFailure => "Attempted to require what is not a module with a source file"@,
            RequireError::CyclicRequire { path } => "Cyclic require while loading "@ + joined(
                module_names(nodes, path@),
                " -> "@,
            ),
            RequireError::ModuleFailed { error } => error@,
        }
    }

    /// The text of the failure, as a script sees it: for a cycle, the full
    /// names of the modules being loaded, in the order their loads began;
    /// for a module that failed, the error it failed with.
    pub fn message(&self, tree: &Sourcemap) -> (text: String)
        ensures
            text@ == self.message_spec(tree@),
    {
        match self {
            RequireError::ResolutionFailure => {
                "Attempted to require what is not a module with a source file".to_owned()
            },
            RequireError::ModuleFailed { error } => error.clone(),
            RequireError::CyclicRequire { path } => {
                let ghost names = module_names(tree@, path@);
                let mut list = String::new();
                let mut i: usize = 0;
                while i < path.len()
                    invariant
                        i <= path.len(),
                        names == module_names(tree@, path@),
                        list@ == joined(names.take(i as int), " -> "@),
                    decreases path.len() - i,
                {
                    proof {
                        assert(names.take(i + 1).drop_last() =~= names.take(i as int));
                        assert(names.take(i + 1).last() == module_name(tree@, path@[i as int]));
                    }
                    if i > 0 {
                        list.append(" -> ");
                    }
                    if tree.contains(path[i]) {
                        let name = InnerInstance::with_ancestors(tree, path[i]).full_name();
                        list.append(name.as_str());
                    } else {
                        list.append("?");
                    }
                    proof {
                        if i == 0 {
                            assert(list@ =~= module_name(tree@, path@[0]));
                        }
                    }
                    i += 1;
                }
                proof {
                    assert(names.take(path@.len() as int) =~= names);
                }
                let mut text = "Cyclic require while loading ".to_owned();
                text.append(list.as_str());
                text
            },
        }
    }
}

/// What the host is to load: the module, the file that holds its source,
/// and the private environment to run it in.
#[derive(Debug)]
pub struct ModuleLoad {
    pub node: SourcemapNode,
    pub source: String,
    pub environment: Environment,
}

/// What a require leads to.
#[derive(Debug)]
pub enum RequireAction {
    /// Hand this value to the script that asked.
    Return(ModuleValue),
    /// Raise this failure in the script that asked.
    Raise(RequireError),
    /// Load the module, then report what came of it.
    Load(ModuleLoad),
}

/// Persistent state of one host: scripts that run in it share its globals
/// and its module cache, and each has an environment of its own.
#[derive(Debug)]
pub struct LuauContext {
    sourcemap: Sourcemap,
    globals: GlobalTable,
    modules: ModuleCache,
}

impl LuauContext {
    /// The layout tree, as a sequence of nodes.
    pub closed spec fn tree(&self) -> Seq<NodeView> {
        self.sourcemap@
    }

    /// The shared globals.
    pub closed spec fn shared(&self) -> GlobalsView {
        self.globals@
    }

    /// The module cache.
    pub closed spec fn cache(&self) -> CacheState {
        self.modules@
    }

    /// A context for the layout that `description` nests: the tree is
    /// built and linked, the standard globals are set and frozen, and no
    /// module was required yet.
    pub fn new(description: &SourcemapDescription) -> (context: LuauContext)
        ensures
            well_formed(context.tree()),
            represents(context.tree(), context.tree().len() - 1, *description),
            context.shared() == standard_globals(),
            context.cache() == empty_cache(),
    {
        let sourcemap = Sourcemap::from_description(description);
        let mut globals = GlobalTable::new();
        let _ = globals.set("game", Capability::Game);
        let _ = create_require_global(&mut globals);
        let _ = create_task_global(&mut globals);
        globals.freeze();
        assert(globals@.settings =~= standard_globals().settings);
        LuauContext { sourcemap, globals, modules: ModuleCache::new() }
    }

    /// The layout tree.
    pub fn sourcemap(&self) -> (tree: &Sourcemap)
        ensures
            tree@ == self.tree(),
    {
        &self.sourcemap
    }

    /// The shared globals.
    pub fn globals(&self) -> (globals: &GlobalTable)
        ensures
            globals@ == self.shared(),
    {
        &self.globals
    }

    /// The module cache.
    pub fn modules(&self) -> (modules: &ModuleCache)
        ensures
            modules@ == self.cache(),
    {
        &self.modules
    }

    /// Prepares the run of the script that the file `script_path` holds,
    /// given the file prefix of that path: finds the node that the file
    /// backs, and gives the private environment of the run, in which
    /// `script` is the instance of that node, and the prefix as the name of
    /// the chunk. Fails where no node is backed by the file, and where the
    /// path has no prefix. The context does not change.
    pub fn prepare_script(&self, script_path: &str, prefix: Option<String>) -> (run: Result<
        ScriptRun,
        RunError,
    >)
        ensures
            match prepared(
                self.tree(),
                script_path@,
                match prefix {
                    Some(name) => Some(name@),
                    None => None,
                },
            ) {
                Ok((script, name)) => run matches Ok(ready) && ready.environment@ == script
                    && ready.chunk_name@ == name,
                Err(failure) => run == Err::<ScriptRun, RunError>(failure),
            },
    {
        match self.sourcemap.find_by_file_path(script_path) {
            None => Err(RunError::UnknownScript),
            Some(node) => {
                match prefix {
                    None => Err(RunError::NoFilePrefix),
                    Some(chunk_name) => Ok(
                        ScriptRun {
                            environment: Environment::new(
                                InnerInstance::with_ancestors(&self.sourcemap, node),
                            ),
                            chunk_name,
                        },
                    ),
                }
            },
        }
    }

    /// Prepares the run of the script that the file `script_path` holds:
    /// takes the file prefix of the path and goes on as `prepare_script`
    /// does. The run is that of the node that the file backs; the name of
    /// the chunk is the prefix, whatever the platform takes it to be.
    pub fn execute_script(&self, script_path: &str) -> (run: Result<ScriptRun, RunError>)
        ensures
            match run {
                Ok(ready) => owner_of(self.tree(), script_path@) matches Some(node)
                    && ready.environment@ == mirror(self.tree(), node),
                Err(RunError::UnknownScript) => owner_of(self.tree(), script_path@) is None,
                Err(RunError::NoFilePrefix) => owner_of(self.tree(), script_path@) is Some,
            },
    {
        self.prepare_script(script_path, file_prefix(script_path))
    }

    /// The name to call the chunk of the file at `path` by: the file prefix
    /// of the path, whatever the platform takes it to be. Fails where the
    /// path has none.
    pub fn chunk_name(path: &str) -> (name: Result<String, RunError>)
        ensures
            name matches Err(failure) ==> failure == RunError::NoFilePrefix,
    {
        LuauContext::name_from_prefix(file_prefix(path))
    }

    /// The name to call a chunk by, given the file prefix of the path of its
    /// file: the prefix itself. Fails where there is no prefix.
    pub fn name_from_prefix(prefix: Option<String>) -> (name: Result<String, RunError>)
        ensures
            name == (match prefix {
                Some(text) => Ok::<String, RunError>(text),
                None => Err::<String, RunError>(RunError::NoFilePrefix),
            }),
    {
        match prefix {
            Some(text) => Ok(text),
            None => Err(RunError::NoFilePrefix),
        }
    }

    /// Requires the module that `argument` is the instance of. Where the
    /// instance names no node with a source, the request fails and the
    /// cache does not change. Otherwise the cache decides: a module loaded
    /// before gives its value, one that failed before gives its error, one
    /// that is being loaded closes a cycle, and one never required is
    /// marked as being loaded and handed to the host to load.
    pub fn require(&mut self, argument: &InnerInstance) -> (action: RequireAction)
        ensures
            final(self).tree() == old(self).tree(),
            final(self).shared() == old(self).shared(),
            match module_source(old(self).tree(), argument.sourcemap_node) {
                None => action matches RequireAction::Raise(RequireError::ResolutionFailure)
                    && final(self).cache() == old(self).cache(),
                Some(file) => final(self).cache() == begin(
                    old(self).cache(),
                    argument.sourcemap_node,
                ).0 && match begin(old(self).cache(), argument.sourcemap_node).1 {
                    StepView::Ready(value) => action matches RequireAction::Return(given) && given
                        == value,
                    StepView::Failed(error) => action matches RequireAction::Raise(
                        RequireError::ModuleFailed { error: raised },
                    ) && raised == error,
                    StepView::Cycle(path) => action matches RequireAction::Raise(
                        RequireError::CyclicRequire { path: raised },
                    ) && raised@ == path,
                    StepView::Execute => action matches RequireAction::Load(load) && load.node
                        == argument.sourcemap_node && load.source@ == file && load.environment@
                        == mirror(old(self).tree(), argument.sourcemap_node),
                },
            },
    {
        let node = argument.sourcemap_node;
        let source = match self.sourcemap.node(node) {
            Some(inner) => match &inner.file_paths {
                Some(list) => if list.len() > 0 {
                    Some(list[0].clone())
                } else {
                    None
                },
                None => None,
            },
            None => None,
        };
        match source {
            None => RequireAction::Raise(RequireError::ResolutionFailure),
            Some(file) => match self.modules.begin_require(node) {
                RequireStep::Ready(value) => RequireAction::Return(value),
                RequireStep::Failed(error) => RequireAction::Raise(RequireError::ModuleFailed { error }),
                RequireStep::Cycle(path) => RequireAction::Raise(RequireError::CyclicRequire { path }),
                RequireStep::Execute => RequireAction::Load(
                    ModuleLoad {
                        node,
                        source: file,
                        environment: Environment::new(
                            InnerInstance::with_ancestors(&self.sourcemap, node),
                        ),
                    },
                ),
            },
        }
    }

    /// Reports that the load of the module `node` ended with `outcome`: the
    /// value it returned, or the error it failed with. The report is taken
    /// only while the module is being loaded; the result says whether it
    /// was.
    pub fn finish_require(&mut self, node: SourcemapNode, outcome: Result<ModuleValue, String>) -> (taken:
        bool)
        ensures
            final(self).tree() == old(self).tree(),
            final(self).shared() == old(self).shared(),
            final(self).cache() == finish(old(self).cache(), node, outcome),
            taken == is_pending(old(self).cache(), node),
    {
        self.modules.finish_require(node, outcome)
    }
}

} // verus!
