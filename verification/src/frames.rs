//! Calls that are evaluated in place, calls of functions that are not known, and the summaries of
//! functions.
use vstd::prelude::*;
use std::collections::HashMap;
use crate::arena;
use crate::arena::{PathArena, PathCondition, PathNode};
use crate::assign;
use crate::assign::copy_sources;
use crate::calls;
use crate::calls::{copy_arguments, current_region_groups, Applied, OutputArgument};
use crate::layout;
use crate::layout::RegionGroup;
use crate::partition::{BitPartition, NodeKey};
use crate::path::BranchId;
use crate::results;
use crate::ssa;
use crate::ssa::{KeyBinding, SsaStore};
use crate::writes;
use crate::writes::{write_all, write_destination, KeyWrite};

verus! {

/// What is known of the summary of a function.
#[derive(Clone, Copy, Debug, PartialEq, Eq, Structural)]
pub enum SummaryLookup {
    Ready,
    /// The function calls itself.
    Recursive,
    Missing,
}

/// How a call is evaluated.
#[derive(Clone, Copy, Debug, PartialEq, Eq, Structural)]
pub enum CallPlan {
    /// By the summary of the function.
    Apply,
    /// By the statements of the function.
    InPlace,
    /// Nothing is known of what the function does.
    Opaque,
}

/// How a call is evaluated: by its summary where there is one, else in place where there is a body. A
/// function that calls itself is opaque.
pub fn plan_call(lookup: Option<SummaryLookup>, has_body: bool) -> (r: CallPlan)
    ensures
        r == match lookup {
            Some(SummaryLookup::Ready) => CallPlan::Apply,
            Some(SummaryLookup::Recursive) => CallPlan::Opaque,
            _ => if has_body {
                CallPlan::InPlace
            } else {
                CallPlan::Opaque
            },
        },
{
    match lookup {
        Some(SummaryLookup::Ready) => CallPlan::Apply,
        Some(SummaryLookup::Recursive) => CallPlan::Opaque,
        _ => {
            if has_body {
                CallPlan::InPlace
            } else {
                CallPlan::Opaque
            }
        },
    }
}

/// A write of a value that comes from nothing.
pub open spec fn is_clearing(key: u64, write: KeyWrite) -> bool {
    write.key == key && write.sources@.len() == 0 && !write.dynamic && !write.opaque
}

/// The keys are given values that come from nothing.
pub open spec fn clears(keys: Seq<u64>, list: Seq<KeyWrite>) -> bool {
    list.len() == keys.len() && forall|i: int| 0 <= i < list.len() ==> is_clearing(keys[i], #[trigger] list[i])
}

/// The keys have values of their own that come from nothing.
pub open spec fn cleared(before: SsaStore, after: SsaStore, keys: Seq<u64>, condition: PathCondition) -> bool {
    &&& exists|list: Seq<KeyWrite>| #[trigger] clears(keys, list) && assign::all_wrote(before, after, list, condition)
    &&& forall|key: u64| !keys.contains(key) ==> #[trigger] ssa::binding_of(after.current@, key) == ssa::binding_of(before.current@, key)
}

/// Gives each key a value that comes from nothing.
pub fn clear_keys(store: &mut SsaStore, keys: &Vec<u64>)
    requires
        old(store).wf(),
        forall|i: int, j: int| 0 <= i < j < keys@.len() ==> (#[trigger] keys@[i]) != (#[trigger] keys@[j]),
    ensures
        final(store).wf(),
        writes::continues(*old(store), *final(store)),
        cleared(*old(store), *final(store), keys@, PathCondition { node: 0 }),
        forall|nodes: Seq<PathNode>| #[trigger] old(store).guards_in(nodes) && nodes.len() > 0 ==> final(store).guards_in(nodes),
        forall|key: u64| !keys@.contains(key) && #[trigger] final(store).entries@.contains_key(key) ==> old(store).entries@.contains_key(key),
{
    let mut list: Vec<KeyWrite> = Vec::new();
    let mut i: usize = 0;
    while i < keys.len()
        invariant
            i <= keys@.len(),
            list@.len() == i,
            forall|k: int| 0 <= k < i ==> is_clearing(keys@[k], #[trigger] list@[k]),
        decreases keys@.len() - i,
    {
        list.push(KeyWrite { key: keys[i], sources: Vec::new(), dynamic: false, opaque: false });
        i = i + 1;
    }
    proof {
        assert forall|a: int, b: int| 0 <= a < b < list@.len() implies (#[trigger] list@[a]).key != (#[trigger] list@[b]).key by {
            assert(keys@[a] != keys@[b]);
        }
        assert(clears(keys@, list@));
        assert forall|key: u64| writes::writes_key(list@, key) implies keys@.contains(key) by {
            let k = choose|k: int| 0 <= k < list@.len() && (#[trigger] list@[k]).key == key;
            assert(keys@[k] == key);
        }
    }
    write_all(store, &list, PathCondition { node: 0 });
    assert(assign::all_wrote(*old(store), *store, list@, PathCondition { node: 0 }));
}

/// A write of what was found for a node of an argument.
pub open spec fn is_passing(input: KeyBinding, write: KeyWrite) -> bool {
    write.key == input.key && write.sources@ == input.sources@ && !write.dynamic && !write.opaque
}

/// The nodes of the arguments are given what was found for them.
pub open spec fn passes(inputs: Seq<KeyBinding>, list: Seq<KeyWrite>) -> bool {
    list.len() == inputs.len() && forall|i: int| 0 <= i < list.len() ==> is_passing(inputs[i], #[trigger] list[i])
}

pub open spec fn binds(inputs: Seq<KeyBinding>, key: u64) -> bool {
    exists|i: int| 0 <= i < inputs.len() && (#[trigger] inputs[i]).key == key
}

/// The arguments are passed: each node has what was found for it.
pub open spec fn passed(before: SsaStore, after: SsaStore, inputs: Seq<KeyBinding>) -> bool {
    &&& exists|list: Seq<KeyWrite>| #[trigger] passes(inputs, list) && assign::all_wrote(before, after, list, PathCondition { node: 0 })
    &&& forall|key: u64| !binds(inputs, key) ==> #[trigger] ssa::binding_of(after.current@, key) == ssa::binding_of(before.current@, key)
}

/// A call is entered: all nodes of the arguments and of the result are cleared, and the arguments are
/// passed.
pub open spec fn entered(before: SsaStore, after: SsaStore, formals: Seq<u64>, inputs: Seq<KeyBinding>) -> bool {
    exists|middle: SsaStore| #[trigger] cleared(before, middle, formals, PathCondition { node: 0 }) && writes::continues(before, middle) && passed(middle, after, inputs)
}

/// Enters a call. What is passed was found before.
pub fn enter_call(store: &mut SsaStore, formals: &Vec<u64>, inputs: &Vec<KeyBinding>)
    requires
        old(store).wf(),
        forall|i: int, j: int| 0 <= i < j < formals@.len() ==> (#[trigger] formals@[i]) != (#[trigger] formals@[j]),
        forall|i: int, j: int| 0 <= i < j < inputs@.len() ==> (#[trigger] inputs@[i]).key != (#[trigger] inputs@[j]).key,
        forall|i: int| 0 <= i < inputs@.len() ==> ssa::sources_before((#[trigger] inputs@[i]).sources@, old(store).versions@.len() as int),
    ensures
        final(store).wf(),
        writes::continues(*old(store), *final(store)),
        entered(*old(store), *final(store), formals@, inputs@),
        forall|nodes: Seq<PathNode>| #[trigger] old(store).guards_in(nodes) && nodes.len() > 0 ==> final(store).guards_in(nodes),
        forall|key: u64|
            !formals@.contains(key) && !binds(inputs@, key) && #[trigger] final(store).entries@.contains_key(key) ==> old(store).entries@.contains_key(key),
{
    let ghost before = *store;
    clear_keys(store, formals);
    let ghost middle = *store;
    let mut list: Vec<KeyWrite> = Vec::new();
    let ghost given = inputs@;
    let mut i: usize = 0;
    while i < inputs.len()
        invariant
            i <= inputs@.len(),
            given == inputs@,
            list@.len() == i,
            forall|k: int| 0 <= k < i ==> is_passing(given[k], #[trigger] list@[k]),
        decreases inputs@.len() - i,
    {
        let sources = copy_sources(&inputs[i].sources);
        list.push(KeyWrite { key: inputs[i].key, sources, dynamic: false, opaque: false });
        i = i + 1;
    }
    proof {
        assert forall|a: int, b: int| 0 <= a < b < list@.len() implies (#[trigger] list@[a]).key != (#[trigger] list@[b]).key by {
            assert(given[a].key != given[b].key);
        }
        assert forall|k: int| 0 <= k < list@.len() implies ssa::sources_before((#[trigger] list@[k]).sources@, store.versions@.len() as int) by {
            assert(ssa::sources_before(given[k].sources@, before.versions@.len() as int));
        }
        assert(passes(given, list@));
        assert forall|key: u64| writes::writes_key(list@, key) implies binds(given, key) by {
            let k = choose|k: int| 0 <= k < list@.len() && (#[trigger] list@[k]).key == key;
            assert(given[k].key == key);
        }
    }
    write_all(store, &list, PathCondition { node: 0 });
    proof {
        assert(assign::all_wrote(middle, *store, list@, PathCondition { node: 0 }));
        assert(passed(middle, *store, given));
        writes::continues_is_transitive(before, middle, *store);
        assert(cleared(before, middle, formals@, PathCondition { node: 0 }));
    }
}

/// A call is left as far as it goes where an output argument cannot be copied: the result is read, and
/// the arguments before it are copied.
pub open spec fn leaving_stops(
    partition: BitPartition,
    nodes: Seq<NodeKey>,
    result: Option<Vec<u64>>,
    outputs: Seq<OutputArgument>,
    before: SsaStore,
    middle: SsaStore,
    after: SsaStore,
    paths: Seq<PathNode>,
    more: Seq<PathNode>,
    condition: PathCondition,
    groups: Seq<RegionGroup>,
    partial: bool,
) -> bool {
    &&& writes::continues(before, middle)
    &&& middle.current@ == before.current@
    &&& match result {
        Some(keys) => calls::lists_current(middle, partition, nodes, keys@, groups),
        None => groups.len() == 0,
    }
    &&& calls::arguments_stop(partition, nodes, outputs, middle, after, paths, more, condition, partial)
}

/// A call is left: the result is read, and the output arguments are copied.
pub open spec fn left(
    partition: BitPartition,
    nodes: Seq<NodeKey>,
    result: Option<Vec<u64>>,
    outputs: Seq<OutputArgument>,
    before: SsaStore,
    middle: SsaStore,
    after: SsaStore,
    paths: Seq<PathNode>,
    more: Seq<PathNode>,
    condition: PathCondition,
    groups: Seq<RegionGroup>,
) -> bool {
    &&& writes::continues(before, middle)
    &&& middle.current@ == before.current@
    &&& match result {
        Some(keys) => calls::lists_current(middle, partition, nodes, keys@, groups),
        None => groups.len() == 0,
    }
    &&& calls::arguments_copied(partition, nodes, outputs, middle, after, paths, more, outputs.len() as int, condition)
}

/// Leaves a call whose body was evaluated in place.
pub fn leave_call(
    store: &mut SsaStore,
    arena: &mut PathArena,
    partition: &BitPartition,
    nodes: &Vec<NodeKey>,
    result: Option<Vec<u64>>,
    outputs: &Vec<OutputArgument>,
    condition: PathCondition,
) -> (r: Applied)
    requires
        results::tied(*old(store), *old(arena)),
        partition.wf(),
        results::keys_known(*old(store), nodes@),
        old(arena).holds(condition),
        result matches Some(keys) ==> calls::names_variable(nodes@, keys@),
        forall|i: int| 0 <= i < outputs@.len() ==> (#[trigger] outputs@[i]).wf(nodes@, old(store).versions@.len() as int),
    ensures
        results::tied(*final(store), *final(arena)),
        results::keys_known(*final(store), nodes@),
        arena::grows(old(arena)@, final(arena)@),
        writes::continues(*old(store), *final(store)),
        layout::groups_wf(r.groups@),
        r.fits ==> r.partial == calls::any_partial(outputs@) && exists|middle: SsaStore| #[trigger]
            left(
                *partition,
                nodes@,
                result,
                outputs@,
                *old(store),
                middle,
                *final(store),
                old(arena)@,
                final(arena)@,
                condition,
                r.groups@,
            ),
        !r.fits ==> exists|middle: SsaStore| #[trigger]
            leaving_stops(
                *partition,
                nodes@,
                result,
                outputs@,
                *old(store),
                middle,
                *final(store),
                old(arena)@,
                final(arena)@,
                condition,
                r.groups@,
                r.partial,
            ),
{
    let ghost before = *store;
    let ghost paths = arena@;
    proof {
        assert(writes::continues(before, *store)) by {
            assert forall|depth: int| 0 <= depth < before.checkpoints@.len() implies #[trigger] store.saved(depth) == before.saved(depth) by {}
        }
    }
    let groups: Vec<RegionGroup> = match &result {
        Some(keys) => current_region_groups(store, partition, nodes, keys),
        None => Vec::new(),
    };
    let ghost middle = *store;
    proof {
        assert forall|i: int| 0 <= i < outputs@.len() implies (#[trigger] outputs@[i]).wf(nodes@, store.versions@.len() as int) by {
            let output = outputs@[i];
            assert(output.wf(nodes@, before.versions@.len() as int));
            assert forall|k: int| 0 <= k < output.destinations@.len() implies (#[trigger] output.destinations@[k]).wf(nodes@, store.versions@.len() as int) by {
                assert(output.destinations@[k].wf(nodes@, before.versions@.len() as int));
            }
        }
        assert(store.guards_in(arena@));
    }
    let copied = copy_arguments(store, arena, partition, nodes, outputs, condition);
    let r = Applied { groups, partial: copied.partial, fits: copied.fits };
    proof {
        writes::continues_is_transitive(before, middle, *store);
        if copied.fits {
            assert(r.partial == calls::any_partial(outputs@));
            assert(left(*partition, nodes@, result, outputs@, *old(store), middle, *store, old(arena)@, arena@, condition, r.groups@));
            assert(exists|m: SsaStore| #[trigger]
                left(*partition, nodes@, result, outputs@, *old(store), m, *store, old(arena)@, arena@, condition, r.groups@));
        } else {
            assert(leaving_stops(*partition, nodes@, result, outputs@, *old(store), middle, *store, old(arena)@, arena@, condition, r.groups@, r.partial));
        }
    }
    r
}

/// A destination of a call of which nothing is known.
pub struct OpaqueDestination {
    pub keys: Vec<u64>,
    pub resolved: bool,
    pub dynamic: bool,
    /// What selects the destination.
    pub selectors: Vec<usize>,
}

/// One destination is written, and what it gets comes from what selects it.
pub open spec fn selected_only(before: SsaStore, after: SsaStore, destination: OpaqueDestination, condition: PathCondition) -> bool {
    &&& if destination.resolved {
        writes::is_definition(after.versions@, before.versions@.len() as int, writes::whole_sources(destination.selectors@), condition)
    } else {
        writes::is_definition(after.versions@, before.versions@.len() as int, Seq::empty(), PathCondition { node: 0 })
    }
    &&& forall|i: int|
        0 <= i < destination.keys@.len() ==> writes::is_bound(
            before,
            after,
            #[trigger] destination.keys@[i],
            before.versions@.len() as usize,
            !destination.resolved || destination.dynamic,
        )
    &&& forall|key: u64| !destination.keys@.contains(key) ==> #[trigger] ssa::binding_of(after.current@, key) == ssa::binding_of(before.current@, key)
}

/// The first `count` destinations are written, one after the other.
pub open spec fn all_selected(before: SsaStore, after: SsaStore, destinations: Seq<OpaqueDestination>, count: int, condition: PathCondition) -> bool
    decreases count,
{
    if count <= 0 {
        after == before
    } else {
        exists|middle: SsaStore|
            all_selected(before, middle, destinations, count - 1, condition) && #[trigger] selected_only(middle, after, destinations[count - 1], condition)
    }
}

impl OpaqueDestination {
    pub open spec fn wf(self, limit: int) -> bool {
        &&& forall|i: int, j: int| 0 <= i < j < self.keys@.len() ==> (#[trigger] self.keys@[i]) != (#[trigger] self.keys@[j])
        &&& forall|i: int| 0 <= i < self.selectors@.len() ==> (#[trigger] self.selectors@[i]) < limit
    }
}

/// A call of a function of which nothing is known: whatever it may write is cleared, and its outputs
/// come from what selects them alone.
pub fn opaque_function_call_boundary(store: &mut SsaStore, keys: &Vec<u64>, destinations: &Vec<OpaqueDestination>, condition: PathCondition)
    requires
        old(store).wf(),
        forall|i: int, j: int| 0 <= i < j < keys@.len() ==> (#[trigger] keys@[i]) != (#[trigger] keys@[j]),
        forall|i: int| 0 <= i < destinations@.len() ==> (#[trigger] destinations@[i]).wf(old(store).versions@.len() as int),
    ensures
        final(store).wf(),
        writes::continues(*old(store), *final(store)),
        exists|middle: SsaStore| #[trigger]
            cleared(*old(store), middle, keys@, PathCondition { node: 0 }) && all_selected(middle, *final(store), destinations@, destinations@.len() as int, condition),
        forall|nodes: Seq<PathNode>| #[trigger] old(store).guards_in(nodes) && condition.node < nodes.len() ==> final(store).guards_in(nodes),
{
    let ghost before = *store;
    clear_keys(store, keys);
    let ghost middle = *store;
    let mut i: usize = 0;
    proof {
        assert(writes::continues(middle, *store)) by {
            assert forall|depth: int| 0 <= depth < middle.checkpoints@.len() implies #[trigger] store.saved(depth) == middle.saved(depth) by {}
        }
    }
    while i < destinations.len()
        invariant
            i <= destinations@.len(),
            store.wf(),
            before.versions@.len() <= middle.versions@.len(),
            writes::continues(middle, *store),
            forall|k: int| 0 <= k < destinations@.len() ==> (#[trigger] destinations@[k]).wf(before.versions@.len() as int),
            all_selected(middle, *store, destinations@, i as int, condition),
            forall|nodes: Seq<PathNode>| #[trigger] before.guards_in(nodes) && condition.node < nodes.len() ==> store.guards_in(nodes),
        decreases destinations@.len() - i,
    {
        let destination = &destinations[i];
        let ghost known = *store;
        assert(destinations@[i as int].wf(before.versions@.len() as int));
        write_destination(store, &destination.keys, destination.resolved, destination.dynamic, &destination.selectors, condition);
        proof {
            writes::continues_is_transitive(middle, known, *store);
            let n = i + 1;
            assert(selected_only(known, *store, destinations@[n - 1], condition));
            assert(all_selected(middle, *store, destinations@, n, condition));
        }
        i = i + 1;
    }
    proof {
        writes::continues_is_transitive(before, middle, *store);
        assert(cleared(before, middle, keys@, PathCondition { node: 0 }));
    }
}


/// What is known of the summaries of functions: a function whose summary is being made has an entry
/// without one.
pub struct FunctionSummaries {
    pub summaries: HashMap<u64, Option<usize>>,
}

/// What a look at the summaries says.
#[derive(Clone, Copy, Debug, PartialEq, Eq, Structural)]
pub enum FunctionSummaryLookup {
    Ready(usize),
    /// The summary of the function is being made.
    Recursive,
    /// The summary of the function has to be made now.
    Start,
}

impl FunctionSummaries {
    /// No summary yet.
    pub fn new() -> (r: Self)
        ensures
            r.summaries@ == Map::<u64, Option<usize>>::empty(),
    {
        broadcast use vstd::std_specs::hash::group_hash_axioms;

        FunctionSummaries { summaries: HashMap::new() }
    }

    /// Looks for the summary of a function. Where there is none, the function counts as being
    /// summarised from now on.
    pub fn get(&mut self, function: u64) -> (r: FunctionSummaryLookup)
        ensures
            old(self).summaries@.contains_key(function) ==> final(self).summaries@ == old(self).summaries@ && r == (match old(self).summaries@[function] {
                Some(summary) => FunctionSummaryLookup::Ready(summary),
                None => FunctionSummaryLookup::Recursive,
            }),
            !old(self).summaries@.contains_key(function) ==> r == FunctionSummaryLookup::Start && final(self).summaries@ == old(self).summaries@.insert(
                function,
                None,
            ),
    {
        broadcast use vstd::std_specs::hash::group_hash_axioms;

        if let Some(found) = self.summaries.get(&function) {
            return match found {
                Some(summary) => FunctionSummaryLookup::Ready(*summary),
                None => FunctionSummaryLookup::Recursive,
            };
        }
        self.summaries.insert(function, None);
        FunctionSummaryLookup::Start
    }

    /// Ends what `get` started. A summary is kept only where it holds for all calls: one with a dynamic
    /// receiver names the selectors of its own call.
    pub fn finish(&mut self, function: u64, summary: Option<usize>, shared: bool)
        ensures
            final(self).summaries@ == (match summary {
                Some(summary) => if shared {
                    old(self).summaries@.insert(function, Some(summary))
                } else {
                    old(self).summaries@.remove(function)
                },
                None => old(self).summaries@.remove(function),
            }),
    {
        broadcast use vstd::std_specs::hash::group_hash_axioms;

        match summary {
            Some(summary) => {
                if shared {
                    self.summaries.insert(function, Some(summary));
                } else {
                    self.summaries.remove(&function);
                }
            },
            None => {
                self.summaries.remove(&function);
            },
        }
    }
}

/// Where the branches of a summary are used.
#[derive(Clone, Copy, Debug, PartialEq, Eq, Structural)]
pub enum CallSite {
    /// A call of a top-level expression, by its number.
    Expression { root: usize, call: usize },
    /// A call of a procedure; the numbers of its branches go on from the next.
    Procedure { procedure: usize, next: usize },
}

/// The branch of a summary at a call.
pub open spec fn instantiated(site: CallSite, i: int, branch: BranchId) -> BranchId {
    match site {
        CallSite::Expression { root, call } => BranchId {
            namespace: crate::path::BranchNamespace::ExpressionCall { root, call },
            local: i as usize,
            arms: branch.arms,
        },
        CallSite::Procedure { procedure, next } => BranchId {
            namespace: crate::path::BranchNamespace::Procedure(procedure),
            local: (next + i) as usize,
            arms: branch.arms,
        },
    }
}

/// Gives the branches of a summary new names at a call. There is no answer where the numbers do not fit.
pub fn instantiate_summary_branches(site: CallSite, branches: &Vec<BranchId>) -> (r: Option<Vec<(BranchId, BranchId)>>)
    ensures
        r is None <==> (site matches CallSite::Procedure { procedure, next } && next + branches@.len() > usize::MAX),
        r matches Some(list) ==> list@.len() == branches@.len() && forall|i: int|
            0 <= i < list@.len() ==> (#[trigger] list@[i]) == (branches@[i], instantiated(site, i, branches@[i])),
{
    if let CallSite::Procedure { procedure: _, next } = site {
        if branches.len() > usize::MAX - next {
            return None;
        }
    }
    let mut r: Vec<(BranchId, BranchId)> = Vec::new();
    let mut i: usize = 0;
    while i < branches.len()
        invariant
            i <= branches@.len(),
            site matches CallSite::Procedure { procedure, next } ==> next + branches@.len() <= usize::MAX,
            r@.len() == i,
            forall|k: int| 0 <= k < i ==> (#[trigger] r@[k]) == (branches@[k], instantiated(site, k, branches@[k])),
        decreases branches@.len() - i,
    {
        let branch = branches[i];
        let named = match site {
            CallSite::Expression { root, call } => BranchId::expression_call(root, call, i, branch.arms),
            CallSite::Procedure { procedure, next } => BranchId::new(procedure, next + i, branch.arms),
        };
        r.push((branch, named));
        i = i + 1;
    }
    Some(r)
}

/// The branches of one call have different names, and each has as many arms as before.
pub proof fn instantiated_branches_differ(site: CallSite, branches: Seq<BranchId>, i: int, j: int)
    requires
        0 <= i < j < branches.len(),
        branches.len() <= usize::MAX,
        site matches CallSite::Procedure { procedure, next } ==> next + branches.len() <= usize::MAX,
    ensures
        instantiated(site, i, branches[i]) != instantiated(site, j, branches[j]),
        instantiated(site, i, branches[i]).arms == branches[i].arms,
{
}

} // verus!
