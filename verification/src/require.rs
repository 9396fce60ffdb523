//! The module cache: which modules were required, which of them are still
//! being loaded, and what each of the others gave.

use crate::sourcemap::SourcemapNode;
use std::collections::HashMap;
use vstd::prelude::*;

verus! {

broadcast use vstd::std_specs::hash::group_hash_axioms;

/// Handle of the value a module returned. The host keeps the value; the
/// cache keeps, and hands back, the handle.
#[derive(Debug, Clone, Copy, PartialEq, Eq, Structural)]
pub struct ModuleValue {
    pub handle: u64,
}

/// What the cache knows of one module.
#[derive(Debug, Clone, PartialEq, Eq)]
pub enum ModuleCacheEntry {
    /// The module is being loaded.
    Pending,
    /// The module was loaded and returned this value.
    Ready(ModuleValue),
    /// The module was loaded once and failed with this error.
    Failed(String),
}

/// What a request for a module leads to.
#[derive(Debug, Clone, PartialEq, Eq)]
pub enum RequireStep {
    /// The module was loaded before: this is what it returned.
    Ready(ModuleValue),
    /// The module failed before: this is the error it failed with.
    Failed(String),
    /// The module is being loaded, so the request closes a cycle: these are
    /// the modules being loaded, in the order in which their loads began.
    Cycle(Vec<SourcemapNode>),
    /// The module was never requested: it is now marked as being loaded, and
    /// the host is to run it and report what came of it.
    Execute,
}

/// A step with its list as a sequence.
pub enum StepView {
    Ready(ModuleValue),
    Failed(String),
    Cycle(Seq<SourcemapNode>),
    Execute,
}

impl View for RequireStep {
    type V = StepView;

    open spec fn view(&self) -> StepView {
        match *self {
            RequireStep::Ready(value) => StepView::Ready(value),
            RequireStep::Failed(error) => StepView::Failed(error),
            RequireStep::Cycle(path) => StepView::Cycle(path@),
            RequireStep::Execute => StepView::Execute,
        }
    }
}

/// The cache as a map from modules to entries, and the modules being
/// loaded in the order in which their loads began.
pub struct CacheState {
    pub entries: Map<SourcemapNode, ModuleCacheEntry>,
    pub pending: Seq<SourcemapNode>,
}

/// `list` without `key`.
pub open spec fn without(list: Seq<SourcemapNode>, key: SourcemapNode) -> Seq<SourcemapNode>
    decreases list.len(),
{
    if list.len() == 0 {
        list
    } else if list.last() == key {
        without(list.drop_last(), key)
    } else {
        without(list.drop_last(), key).push(list.last())
    }
}

/// The cache in which nothing was ever requested.
pub open spec fn empty_cache() -> CacheState {
    CacheState { entries: Map::empty(), pending: Seq::empty() }
}

/// Whether `key` is being loaded.
pub open spec fn is_pending(state: CacheState, key: SourcemapNode) -> bool {
    state.entries.contains_key(key) && state.entries[key] is Pending
}

/// A request for `key`: the state after it, and what it leads to. Only a
/// request for a module never requested before changes the state.
pub open spec fn begin(state: CacheState, key: SourcemapNode) -> (CacheState, StepView) {
    if state.entries.contains_key(key) {
        match state.entries[key] {
            ModuleCacheEntry::Pending => (state, StepView::Cycle(state.pending)),
            ModuleCacheEntry::Ready(value) => (state, StepView::Ready(value)),
            ModuleCacheEntry::Failed(error) => (state, StepView::Failed(error)),
        }
    } else {
        (
            CacheState {
                entries: state.entries.insert(key, ModuleCacheEntry::Pending),
                pending: state.pending.push(key),
            },
            StepView::Execute,
        )
    }
}

/// The entry a finished load leaves.
pub open spec fn settled(outcome: Result<ModuleValue, String>) -> ModuleCacheEntry {
    match outcome {
        Ok(value) => ModuleCacheEntry::Ready(value),
        Err(error) => ModuleCacheEntry::Failed(error),
    }
}

/// The report that the load of `key` ended with `outcome`. It counts only
/// while `key` is being loaded; any other report changes nothing.
pub open spec fn finish(state: CacheState, key: SourcemapNode, outcome: Result<ModuleValue, String>) -> CacheState {
    if is_pending(state, key) {
        CacheState {
            entries: state.entries.insert(key, settled(outcome)),
            pending: without(state.pending, key),
        }
    } else {
        state
    }
}

/// The module cache of one context.
#[derive(Debug)]
pub struct ModuleCache {
    entries: HashMap<SourcemapNode, ModuleCacheEntry>,
    pending: Vec<SourcemapNode>,
}

impl View for ModuleCache {
    type V = CacheState;

    closed spec fn view(&self) -> CacheState {
        CacheState { entries: self.entries@, pending: self.pending@ }
    }
}

/// A copy of a list of handles.
fn copy_handles(list: &Vec<SourcemapNode>) -> (copy: Vec<SourcemapNode>)
    ensures
        copy@ == list@,
{
    let mut copy: Vec<SourcemapNode> = Vec::new();
    let mut i: usize = 0;
    while i < list.len()
        invariant
            i <= list.len(),
            copy@ == list@.take(i as int),
        decreases list.len() - i,
    {
        copy.push(list[i]);
        assert(list@.take(i + 1) =~= list@.take(i as int).push(list@[i as int]));
        i += 1;
    }
    assert(list@.take(list@.len() as int) =~= list@);
    copy
}

/// `list` without `key`.
fn copy_without(list: &Vec<SourcemapNode>, key: SourcemapNode) -> (copy: Vec<SourcemapNode>)
    ensures
        copy@ == without(list@, key),
{
    let mut copy: Vec<SourcemapNode> = Vec::new();
    let mut i: usize = 0;
    while i < list.len()
        invariant
            i <= list.len(),
            copy@ == without(list@.take(i as int), key),
        decreases list.len() - i,
    {
        assert(list@.take(i + 1).drop_last() =~= list@.take(i as int));
        if list[i] != key {
            copy.push(list[i]);
        }
        i += 1;
    }
    assert(list@.take(list@.len() as int) =~= list@);
    copy
}

impl ModuleCache {
    /// A cache in which nothing was ever requested.
    pub fn new() -> (cache: ModuleCache)
        ensures
            cache@ == empty_cache(),
    {
        ModuleCache { entries: HashMap::new(), pending: Vec::new() }
    }

    /// Requests the module `key`. A module never requested before is marked
    /// as being loaded, and the host is told to run it; for any other the
    /// cache answers from what it holds and does not change.
    pub fn begin_require(&mut self, key: SourcemapNode) -> (step: RequireStep)
        ensures
            (final(self)@, step@) == begin(old(self)@, key),
    {
        let step = match self.entries.get(&key) {
            Some(ModuleCacheEntry::Pending) => RequireStep::Cycle(copy_handles(&self.pending)),
            Some(ModuleCacheEntry::Ready(value)) => RequireStep::Ready(*value),
            Some(ModuleCacheEntry::Failed(error)) => RequireStep::Failed(error.clone()),
            None => RequireStep::Execute,
        };
        if let RequireStep::Execute = step {
            self.entries.insert(key, ModuleCacheEntry::Pending);
            self.pending.push(key);
        }
        step
    }

    /// Reports that the load of `key` ended with `outcome`: a value, or the
    /// error it failed with. The report is taken only while `key` is being
    /// loaded; the result says whether it was.
    pub fn finish_require(&mut self, key: SourcemapNode, outcome: Result<ModuleValue, String>) -> (taken:
        bool)
        ensures
            final(self)@ == finish(old(self)@, key, outcome),
            taken == is_pending(old(self)@, key),
    {
        let loading = match self.entries.get(&key) {
            Some(ModuleCacheEntry::Pending) => true,
            _ => false,
        };
        if loading {
            let entry = match outcome {
                Ok(value) => ModuleCacheEntry::Ready(value),
                Err(error) => ModuleCacheEntry::Failed(error),
            };
            self.entries.insert(key, entry);
            self.pending = copy_without(&self.pending, key);
        }
        loading
    }

    /// What the cache holds for `key`, if anything.
    pub fn entry(&self, key: SourcemapNode) -> (held: Option<ModuleCacheEntry>)
        ensures
            held == (if self@.entries.contains_key(key) {
                Some(self@.entries[key])
            } else {
                None
            }),
    {
        match self.entries.get(&key) {
            Some(ModuleCacheEntry::Pending) => Some(ModuleCacheEntry::Pending),
            Some(ModuleCacheEntry::Ready(value)) => Some(ModuleCacheEntry::Ready(*value)),
            Some(ModuleCacheEntry::Failed(error)) => Some(ModuleCacheEntry::Failed(error.clone())),
            None => None,
        }
    }

    /// The modules being loaded, in the order in which their loads began.
    pub fn pending(&self) -> (list: Vec<SourcemapNode>)
        ensures
            list@ == self@.pending,
    {
        copy_handles(&self.pending)
    }
}

/// What can happen to a cache: a request, or the report that a load ended.
pub enum Operation {
    Begin(SourcemapNode),
    Finish(SourcemapNode, Result<ModuleValue, String>),
}

/// The state after one operation.
pub open spec fn apply(state: CacheState, operation: Operation) -> CacheState {
    match operation {
        Operation::Begin(key) => begin(state, key).0,
        Operation::Finish(key, outcome) => finish(state, key, outcome),
    }
}

/// The state after a series of operations, the first of them first.
pub open spec fn run(state: CacheState, operations: Seq<Operation>) -> CacheState
    decreases operations.len(),
{
    if operations.len() == 0 {
        state
    } else {
        apply(run(state, operations.drop_last()), operations.last())
    }
}

/// Whether `operation`, met in `state`, makes the host run the module `key`.
pub open spec fn executes(state: CacheState, operation: Operation, key: SourcemapNode) -> bool {
    operation == Operation::Begin(key) && begin(state, key).1 is Execute
}

/// How often a series of operations makes the host run the module `key`.
pub open spec fn executions(state: CacheState, operations: Seq<Operation>, key: SourcemapNode) -> nat
    decreases operations.len(),
{
    if operations.len() == 0 {
        0
    } else {
        let earlier = operations.drop_last();
        executions(state, earlier, key) + if executes(run(state, earlier), operations.last(), key) {
            1nat
        } else {
            0nat
        }
    }
}

/// Whether a series of operations holds a report that the load of `key`
/// ended.
pub open spec fn reports(operations: Seq<Operation>, key: SourcemapNode) -> bool {
    exists|i: int|
        0 <= i < operations.len() && (#[trigger] operations[i] matches Operation::Finish(k, _) && k
            == key)
}

/// The list of modules being loaded names each of them once, and names no
/// other module.
pub open spec fn consistent(state: CacheState) -> bool {
    &&& state.pending.no_duplicates()
    &&& forall|key: SourcemapNode| state.pending.contains(key) <==> is_pending(state, key)
}

/// What `without` keeps: everything but `key`, in the order it had.
pub proof fn lemma_without(list: Seq<SourcemapNode>, key: SourcemapNode)
    ensures
        !without(list, key).contains(key),
        forall|other: SourcemapNode|
            other != key ==> (#[trigger] without(list, key).contains(other) <==> list.contains(
                other,
            )),
        list.no_duplicates() ==> without(list, key).no_duplicates(),
        !list.contains(key) ==> without(list, key) == list,
    decreases list.len(),
{
    if list.len() > 0 {
        let head = list.drop_last();
        let last = list.last();
        let kept = without(head, key);
        lemma_without(head, key);
        assert(list =~= head.push(last));
        assert forall|other: SourcemapNode| #[trigger] list.contains(other) <==> (head.contains(other)
            || other == last) by {
            if head.contains(other) {
                let i = choose|i: int| 0 <= i < head.len() && head[i] == other;
                assert(list[i] == other);
            }
            if other == last {
                assert(list[list.len() - 1] == other);
            }
            if list.contains(other) {
                let i = choose|i: int| 0 <= i < list.len() && list[i] == other;
                if i < head.len() {
                    assert(head[i] == other);
                }
            }
        }
        if last != key {
            let out = kept.push(last);
            assert forall|other: SourcemapNode| #[trigger] out.contains(other) <==> (kept.contains(other)
                || other == last) by {
                if kept.contains(other) {
                    let i = choose|i: int| 0 <= i < kept.len() && kept[i] == other;
                    assert(out[i] == other);
                }
                if other == last {
                    assert(out[out.len() - 1] == other);
                }
                if out.contains(other) {
                    let i = choose|i: int| 0 <= i < out.len() && out[i] == other;
                    if i < kept.len() {
                        assert(kept[i] == other);
                    }
                }
            }
            if list.no_duplicates() {
                assert(head.no_duplicates());
                assert(!head.contains(last)) by {
                    if head.contains(last) {
                        let i = choose|i: int| 0 <= i < head.len() && head[i] == last;
                        assert(list[i] == list[list.len() - 1]);
                    }
                }
                assert(!kept.contains(last));
                assert forall|i: int, j: int|
                    0 <= i < out.len() && 0 <= j < out.len() && i != j implies out[i] != out[j] by {
                    if i < kept.len() && j == kept.len() {
                        assert(kept.contains(kept[i]));
                    }
                    if j < kept.len() && i == kept.len() {
                        assert(kept.contains(kept[j]));
                    }
                }
            }
            if !list.contains(key) {
                assert(!head.contains(key));
            }
        } else {
            assert(list.contains(key));
            if list.no_duplicates() {
                assert(head.no_duplicates());
            }
        }
    }
}

/// One operation keeps the list of modules being loaded in step with the
/// entries.
pub proof fn lemma_step_keeps_consistency(state: CacheState, operation: Operation)
    requires
        consistent(state),
    ensures
        consistent(apply(state, operation)),
{
    let after = apply(state, operation);
    match operation {
        Operation::Begin(key) => {
            if !state.entries.contains_key(key) {
                let list = state.pending;
                let out = list.push(key);
                assert(!is_pending(state, key));
                assert(!list.contains(key));
                assert forall|i: int, j: int|
                    0 <= i < out.len() && 0 <= j < out.len() && i != j implies out[i] != out[j] by {
                    if i < list.len() && j == list.len() {
                        assert(list.contains(list[i]));
                    }
                    if j < list.len() && i == list.len() {
                        assert(list.contains(list[j]));
                    }
                }
                assert forall|other: SourcemapNode| out.contains(other) <==> is_pending(
                    after,
                    other,
                ) by {
                    assert(list.contains(other) <==> is_pending(state, other));
                    if other == key {
                        assert(out[out.len() - 1] == key);
                    } else {
                        if list.contains(other) {
                            let i = choose|i: int| 0 <= i < list.len() && list[i] == other;
                            assert(out[i] == other);
                        }
                        if out.contains(other) {
                            let i = choose|i: int| 0 <= i < out.len() && out[i] == other;
                            assert(list[i] == other);
                        }
                    }
                }
            }
        },
        Operation::Finish(key, outcome) => {
            if is_pending(state, key) {
                lemma_without(state.pending, key);
                assert forall|other: SourcemapNode| after.pending.contains(other) <==> is_pending(
                    after,
                    other,
                ) by {
                    assert(state.pending.contains(other) <==> is_pending(state, other));
                    if other != key {
                        assert(without(state.pending, key).contains(other) <==> state.pending.contains(
                            other,
                        ));
                    }
                }
            }
        },
    }
}

/// A series of operations keeps the list of modules being loaded in step
/// with the entries.
pub proof fn lemma_run_keeps_consistency(state: CacheState, operations: Seq<Operation>)
    requires
        consistent(state),
    ensures
        consistent(run(state, operations)),
    decreases operations.len(),
{
    if operations.len() > 0 {
        lemma_run_keeps_consistency(state, operations.drop_last());
        lemma_step_keeps_consistency(run(state, operations.drop_last()), operations.last());
    }
}

/// A module that was requested stays requested, whatever happens later; one
/// that was loaded, or failed, keeps its entry; and one that is being
/// loaded stays so until a report of its end comes.
pub proof fn lemma_entries_last(state: CacheState, operations: Seq<Operation>, key: SourcemapNode)
    requires
        state.entries.contains_key(key),
    ensures
        run(state, operations).entries.contains_key(key),
        !(state.entries[key] is Pending) ==> run(state, operations).entries[key]
            == state.entries[key],
        !reports(operations, key) ==> run(state, operations).entries[key] == state.entries[key]
            && (state.pending.contains(key) ==> run(state, operations).pending.contains(key)),
    decreases operations.len(),
{
    if operations.len() > 0 {
        let earlier = operations.drop_last();
        let middle = run(state, earlier);
        lemma_entries_last(state, earlier, key);
        if !reports(operations, key) {
            assert(!reports(earlier, key)) by {
                if reports(earlier, key) {
                    let i = choose|i: int|
                        0 <= i < earlier.len() && (#[trigger] earlier[i] matches Operation::Finish(k, _)
                            && k == key);
                    assert(operations[i] == earlier[i]);
                }
            }
            assert(operations[operations.len() - 1] == operations.last());
            match operations.last() {
                Operation::Begin(other) => {
                    if middle.pending.contains(key) {
                        let i = choose|i: int| 0 <= i < middle.pending.len() && middle.pending[i] == key;
                        assert(middle.pending.push(other)[i] == key);
                    }
                },
                Operation::Finish(other, outcome) => {
                    lemma_without(middle.pending, other);
                },
            }
        }
    }
}

/// No series of operations makes the host run one module twice, and none
/// makes it run a module that was requested before the series began.
pub proof fn lemma_at_most_one_execution(
    state: CacheState,
    operations: Seq<Operation>,
    key: SourcemapNode,
)
    ensures
        executions(state, operations, key) <= 1,
        state.entries.contains_key(key) ==> executions(state, operations, key) == 0,
        executions(state, operations, key) == 1 ==> run(state, operations).entries.contains_key(key),
    decreases operations.len(),
{
    if operations.len() > 0 {
        let earlier = operations.drop_last();
        lemma_at_most_one_execution(state, earlier, key);
        if state.entries.contains_key(key) {
            lemma_entries_last(state, earlier, key);
        }
        if run(state, earlier).entries.contains_key(key) {
            assert(apply(run(state, earlier), operations.last()).entries.contains_key(key));
        }
    }
}

/// A module that is requested, run and reported as loaded answers every
/// later request with the value it returned, and is never run again:
/// whatever happens in between and afterwards, as long as the first report
/// of its end is the one that gives the value.
pub proof fn lemma_require_is_memoized(
    state: CacheState,
    key: SourcemapNode,
    value: ModuleValue,
    between: Seq<Operation>,
    later: Seq<Operation>,
)
    requires
        !state.entries.contains_key(key),
        !reports(between, key),
    ensures
        begin(state, key).1 is Execute,
        ({
            let loading = run(begin(state, key).0, between);
            let loaded = run(finish(loading, key, Ok(value)), later);
            &&& begin(loaded, key) == (loaded, StepView::Ready(value))
            &&& executions(begin(state, key).0, between, key) == 0
            &&& executions(finish(loading, key, Ok(value)), later, key) == 0
        }),
{
    let started = begin(state, key).0;
    let loading = run(started, between);
    let ready = finish(loading, key, Ok(value));
    lemma_entries_last(started, between, key);
    lemma_entries_last(ready, later, key);
    lemma_at_most_one_execution(started, between, key);
    lemma_at_most_one_execution(ready, later, key);
}

/// A module that failed once stays failed: every later request is answered
/// with the error of that one load, and the module is never run again.
pub proof fn lemma_failure_is_sticky(
    state: CacheState,
    key: SourcemapNode,
    error: String,
    between: Seq<Operation>,
    later: Seq<Operation>,
)
    requires
        !state.entries.contains_key(key),
        !reports(between, key),
    ensures
        ({
            let loading = run(begin(state, key).0, between);
            let failed = run(finish(loading, key, Err(error)), later);
            &&& begin(failed, key) == (failed, StepView::Failed(error))
            &&& executions(finish(loading, key, Err(error)), later, key) == 0
        }),
{
    let started = begin(state, key).0;
    let loading = run(started, between);
    let failed = finish(loading, key, Err(error));
    lemma_entries_last(started, between, key);
    lemma_entries_last(failed, later, key);
    lemma_at_most_one_execution(failed, later, key);
}

/// While a module is being loaded, a request for it is a cycle: it is
/// answered with the list of the modules being loaded, which names the
/// module, and changes nothing.
pub proof fn lemma_request_while_loading_is_a_cycle(
    state: CacheState,
    key: SourcemapNode,
    between: Seq<Operation>,
)
    requires
        !state.entries.contains_key(key),
        !reports(between, key),
    ensures
        ({
            let loading = run(begin(state, key).0, between);
            &&& begin(loading, key) == (loading, StepView::Cycle(loading.pending))
            &&& loading.pending.contains(key)
        }),
{
    let started = begin(state, key).0;
    assert(started.pending[started.pending.len() - 1] == key);
    lemma_entries_last(started, between, key);
}

/// Two modules that require each other: the first is run, the second is
/// run, and the request of the second for the first fails as a cycle that
/// names both, in that order, after what was being loaded before. Whatever
/// happens afterwards, neither is run again.
pub proof fn lemma_mutual_require_is_a_cycle(
    state: CacheState,
    a: SourcemapNode,
    b: SourcemapNode,
    later: Seq<Operation>,
)
    requires
        !state.entries.contains_key(a),
        !state.entries.contains_key(b),
        a != b,
    ensures
        begin(state, a).1 is Execute,
        begin(begin(state, a).0, b).1 is Execute,
        ({
            let inner = begin(begin(state, a).0, b).0;
            &&& begin(inner, a) == (inner, StepView::Cycle(state.pending.push(a).push(b)))
            &&& executions(inner, later, a) == 0
            &&& executions(inner, later, b) == 0
        }),
{
    let inner = begin(begin(state, a).0, b).0;
    lemma_at_most_one_execution(inner, later, a);
    lemma_at_most_one_execution(inner, later, b);
}

} // verus!
