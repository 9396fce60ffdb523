//! The shared globals of a context, which are set while the context is
//! built and frozen from then on, and the private environment that each
//! script run lays over them.

use crate::game::same_text;
use crate::instance::{InnerInstance, Instance, InstanceView};
use vstd::prelude::*;

verus! {

/// What a shared global is bound to.
#[derive(Debug, Clone, Copy, PartialEq, Eq, Structural)]
pub enum Capability {
    /// The service locator.
    Game,
    /// The entry point that loads a module, once, and gives what it returned.
    Require,
    /// The table of scheduling primitives; it holds `wait`.
    Task,
    /// The primitive that suspends a script for at least a given time and
    /// gives the time that passed.
    Wait,
}

/// Why a global was not set: the globals are frozen.
#[derive(Debug, Clone, Copy, PartialEq, Eq, Structural)]
pub struct FrozenGlobals;

/// The shared globals as the settings that were made, each a name and what
/// it was bound to, in the order in which they were made.
pub struct GlobalsView {
    pub settings: Seq<(Seq<char>, Capability)>,
    pub frozen: bool,
}

/// The bindings that a list of settings leaves: a later setting of a name
/// replaces an earlier one.
pub open spec fn bindings_of(settings: Seq<(Seq<char>, Capability)>) -> Map<Seq<char>, Capability>
    decreases settings.len(),
{
    if settings.len() == 0 {
        Map::empty()
    } else {
        bindings_of(settings.drop_last()).insert(settings.last().0, settings.last().1)
    }
}

/// A list of settings with the names as character sequences.
pub open spec fn settings_view(settings: Seq<(String, Capability)>) -> Seq<(Seq<char>, Capability)> {
    Seq::new(settings.len(), |i: int| (settings[i].0@, settings[i].1))
}

impl GlobalsView {
    /// What every name is bound to.
    pub open spec fn bindings(self) -> Map<Seq<char>, Capability> {
        bindings_of(self.settings)
    }
}

/// The shared globals of a context.
#[derive(Debug)]
pub struct GlobalTable {
    settings: Vec<(String, Capability)>,
    frozen: bool,
}

impl View for GlobalTable {
    type V = GlobalsView;

    closed spec fn view(&self) -> GlobalsView {
        GlobalsView { settings: settings_view(self.settings@), frozen: self.frozen }
    }
}

/// What looking a name up in a map of bindings gives.
pub open spec fn bound(bindings: Map<Seq<char>, Capability>, name: Seq<char>) -> Option<Capability> {
    if bindings.contains_key(name) {
        Some(bindings[name])
    } else {
        None
    }
}

impl GlobalTable {
    /// Globals with nothing set, not frozen.
    pub fn new() -> (globals: GlobalTable)
        ensures
            globals@ == (GlobalsView { settings: Seq::empty(), frozen: false }),
    {
        let globals = GlobalTable { settings: Vec::new(), frozen: false };
        assert(settings_view(globals.settings@) =~= Seq::empty());
        globals
    }

    /// Binds `name` to `value`, in place of what it was bound to. Frozen
    /// globals refuse, and stay as they are.
    pub fn set(&mut self, name: &str, value: Capability) -> (outcome: Result<(), FrozenGlobals>)
        ensures
            old(self)@.frozen ==> outcome is Err && final(self)@ == old(self)@,
            !old(self)@.frozen ==> outcome is Ok && final(self)@ == (GlobalsView {
                settings: old(self)@.settings.push((name@, value)),
                frozen: false,
            }),
    {
        if self.frozen {
            Err(FrozenGlobals)
        } else {
            let ghost before = self.settings@;
            self.settings.push((name.to_owned(), value));
            assert(settings_view(self.settings@) =~= settings_view(before).push((name@, value)));
            Ok(())
        }
    }

    /// Freezes the globals: from now on nothing can be set.
    pub fn freeze(&mut self)
        ensures
            final(self)@ == (GlobalsView { settings: old(self)@.settings, frozen: true }),
    {
        self.frozen = true;
    }

    /// Whether the globals are frozen.
    pub fn is_frozen(&self) -> (frozen: bool)
        ensures
            frozen == self@.frozen,
    {
        self.frozen
    }

    /// What `name` is bound to, if it is bound.
    pub fn get(&self, name: &str) -> (value: Option<Capability>)
        ensures
            value == bound(self@.bindings(), name@),
    {
        let ghost made = settings_view(self.settings@);
        let mut i: usize = self.settings.len();
        assert(made.take(i as int) =~= made);
        while i > 0
            invariant
                i <= self.settings.len(),
                made == settings_view(self.settings@),
                bound(bindings_of(made), name@) == bound(bindings_of(made.take(i as int)), name@),
            decreases i,
        {
            assert(made.take(i as int).drop_last() =~= made.take(i - 1));
            i -= 1;
            if same_text(self.settings[i].0.as_str(), name) {
                return Some(self.settings[i].1);
            }
        }
        None
    }

    /// The settings made so far, each a name and what it was bound to, in
    /// the order in which they were made.
    pub fn settings(&self) -> (list: Vec<(String, Capability)>)
        ensures
            settings_view(list@) == self@.settings,
    {
        let mut list: Vec<(String, Capability)> = Vec::new();
        let mut i: usize = 0;
        while i < self.settings.len()
            invariant
                i <= self.settings.len(),
                list@.len() == i,
                forall|j: int|
                    0 <= j < i ==> list@[j].0@ == self.settings@[j].0@ && list@[j].1
                        == self.settings@[j].1,
            decreases self.settings.len() - i,
        {
            list.push((self.settings[i].0.clone(), self.settings[i].1));
            i += 1;
        }
        assert(settings_view(list@) =~= settings_view(self.settings@));
        list
    }
}

/// Binds `require` to the entry point that loads modules.
pub fn create_require_global(globals: &mut GlobalTable) -> (outcome: Result<(), FrozenGlobals>)
    ensures
        old(globals)@.frozen ==> outcome is Err && final(globals)@ == old(globals)@,
        !old(globals)@.frozen ==> outcome is Ok && final(globals)@ == (GlobalsView {
            settings: old(globals)@.settings.push(("require"@, Capability::Require)),
            frozen: false,
        }),
{
    globals.set("require", Capability::Require)
}

/// Binds `task` to the table of scheduling primitives and `wait` to the
/// wait primitive, which the table holds too.
pub fn create_task_global(globals: &mut GlobalTable) -> (outcome: Result<(), FrozenGlobals>)
    ensures
        old(globals)@.frozen ==> outcome is Err && final(globals)@ == old(globals)@,
        !old(globals)@.frozen ==> outcome is Ok && final(globals)@ == (GlobalsView {
            settings: old(globals)@.settings.push(("task"@, Capability::Task)).push(
                ("wait"@, Capability::Wait),
            ),
            frozen: false,
        }),
{
    match globals.set("task", Capability::Task) {
        Ok(()) => globals.set("wait", Capability::Wait),
        Err(refusal) => Err(refusal),
    }
}

/// What a name means to a running script.
#[derive(Debug)]
pub enum Binding<'a> {
    /// The script's own instance.
    Script(&'a InnerInstance),
    /// A shared global.
    Global(Capability),
}

/// A binding with the instance as what it is.
pub enum BindingView {
    Script(InstanceView),
    Global(Capability),
}

impl<'a> View for Binding<'a> {
    type V = BindingView;

    open spec fn view(&self) -> BindingView {
        match *self {
            Binding::Script(instance) => BindingView::Script(instance@),
            Binding::Global(capability) => BindingView::Global(capability),
        }
    }
}

/// What `name` means to a script whose own instance is `script`, over the
/// shared `bindings`: `script` is the script's own instance, whatever the
/// shared globals say; every other name is what the shared globals bind it
/// to.
pub open spec fn resolve(script: InstanceView, bindings: Map<Seq<char>, Capability>, name: Seq<char>) -> Option<
    BindingView,
> {
    if name == "script"@ {
        Some(BindingView::Script(script))
    } else {
        match bound(bindings, name) {
            Some(capability) => Some(BindingView::Global(capability)),
            None => None,
        }
    }
}

/// The private environment of one script run: the shared globals, and over
/// them the one name that belongs to the run, `script`.
#[derive(Debug)]
pub struct Environment {
    script: Instance,
}

impl View for Environment {
    type V = InstanceView;

    closed spec fn view(&self) -> InstanceView {
        self.script@
    }
}

impl Environment {
    /// The environment of a run whose script is `script`.
    pub fn new(script: Instance) -> (environment: Environment)
        ensures
            environment@ == script@,
    {
        Environment { script }
    }

    /// The instance of the running script.
    pub fn script(&self) -> (instance: &InnerInstance)
        ensures
            instance@ == self@,
    {
        &*self.script
    }

    /// What `name` means in this environment, over the shared `globals`.
    pub fn lookup<'a>(&'a self, globals: &GlobalTable, name: &str) -> (binding: Option<Binding<'a>>)
        ensures
            match binding {
                Some(found) => resolve(self@, globals@.bindings(), name@) == Some(found@),
                None => resolve(self@, globals@.bindings(), name@) is None,
            },
    {
        if same_text(name, "script") {
            Some(Binding::Script(&*self.script))
        } else {
            match globals.get(name) {
                Some(capability) => Some(Binding::Global(capability)),
                None => None,
            }
        }
    }
}

/// Two runs over the same shared globals: each finds its own instance
/// under `script` and never the other's, and both find the same under
/// every other name.
pub proof fn lemma_runs_are_isolated(
    bindings: Map<Seq<char>, Capability>,
    a: InstanceView,
    b: InstanceView,
    name: Seq<char>,
)
    ensures
        resolve(a, bindings, "script"@) == Some(BindingView::Script(a)),
        resolve(b, bindings, "script"@) == Some(BindingView::Script(b)),
        a != b ==> resolve(a, bindings, "script"@) != resolve(b, bindings, "script"@),
        forall|found: InstanceView|
            resolve(a, bindings, name) == Some(BindingView::Script(found)) ==> found == a,
        name != "script"@ ==> resolve(a, bindings, name) == resolve(b, bindings, name),
{
}

} // verus!
