//! Branches of a procedure come together again.
use vstd::prelude::*;
use crate::arena;
use crate::arena::{PathArena, PathCondition, PathNode};
use crate::flow;
use crate::flow::{FlowArm, FlowPredicate, FlowStore, FlowTree, Plan, PredicateView, ProcedureFlow};
use crate::order;
use crate::path;
use crate::path::{BranchId, Choice};
use crate::realize;
use crate::relation::SourceRef;
use crate::results;
use crate::ssa;
use crate::ssa::{Binding, BranchState, SsaStore, Version};
use crate::state;
use crate::writes;

verus! {

/// One branch after its statements.
pub struct Branch {
    pub tree: FlowTree,
    /// What decides on whether the branch continues.
    pub controls: Vec<usize>,
    /// What the branch changed.
    pub state: BranchState,
    pub condition: PathCondition,
}

/// What follows the branches.
pub struct Merged {
    pub flow: ProcedureFlow,
    pub controls: Vec<usize>,
    pub tree: FlowTree,
    pub condition: PathCondition,
}

/// The branch can go on with what follows.
pub open spec fn continues(flows: FlowStore, branch: Branch) -> bool {
    flow::can_end(flows.plan(branch.tree), ProcedureFlow::Continue)
}

/// The branches that can go on with what follows.
pub open spec fn continuing(flows: FlowStore, branches: Seq<Branch>) -> Seq<Branch> {
    branches.filter(|branch: Branch| continues(flows, branch))
}

/// The branches differ in how they continue.
pub open spec fn decision_matters(flows: FlowStore, branches: Seq<Branch>) -> bool {
    exists|i: int| 0 < i < branches.len() && flow::shape(flows.plan((#[trigger] branches[i]).tree)) != flow::shape(flows.plan(branches[0].tree))
}

/// What decides on what follows, if a branch continues.
pub open spec fn controls_of(branch: Branch, predicate: PredicateView, matters: bool) -> Seq<usize> {
    branch.controls@ + if matters {
        predicate.controls
    } else {
        Seq::empty()
    }
}

/// The branches that continue and on which something decides.
pub open spec fn deciding(flows: FlowStore, branches: Seq<Branch>, predicate: PredicateView, matters: bool) -> Seq<Branch> {
    branches.filter(|branch: Branch| continues(flows, branch) && controls_of(branch, predicate, matters).len() > 0)
}

/// The condition holds the choices of the branch that its parent does not hold.
pub open spec fn is_local(paths: Seq<PathNode>, branch: PathCondition, parent: PathCondition, condition: PathCondition) -> bool {
    condition.node < paths.len() && forall|c: Choice| #[trigger]
        arena::path_of(paths, condition.node as int).contains(c) <==> arena::path_of(paths, branch.node as int).contains(c) && !arena::path_of(
            paths,
            parent.node as int,
        ).contains(c)
}

/// The version stands for what decides on the branch, under the choice made for it.
pub open spec fn is_token(
    versions: Seq<Version>,
    paths: Seq<PathNode>,
    branch: Branch,
    predicate: PredicateView,
    matters: bool,
    parent: PathCondition,
    version: usize,
) -> bool {
    exists|condition: PathCondition| #[trigger]
        is_local(paths, branch.condition, parent, condition) && writes::is_definition(
            versions,
            version as int,
            writes::whole_sources(controls_of(branch, predicate, matters)),
            condition,
        )
}

/// The states are copies of those of the branches.
pub open spec fn copies_states(branches: Seq<Branch>, states: Seq<BranchState>) -> bool {
    states.len() == branches.len() && forall|i: int| 0 <= i < states.len() ==> (#[trigger] states[i]).bindings@ == branches[i].state.bindings@
}

/// The states of the continuing branches are merged.
pub open spec fn states_merged(before: SsaStore, after: SsaStore, branches: Seq<Branch>) -> bool {
    exists|states: Seq<BranchState>| #[trigger] copies_states(branches, states) && merges(before, after, states)
}

pub open spec fn merges(before: SsaStore, after: SsaStore, states: Seq<BranchState>) -> bool {
    &&& forall|key: u64| state::some_binds(states, key) ==> #[trigger] state::merged_key(states, before.current@, after, key)
    &&& forall|key: u64| !state::some_binds(states, key) ==> #[trigger] ssa::binding_of(after.current@, key) == ssa::binding_of(before.current@, key)
}

/// The arms of the decision between the branches.
pub open spec fn arms_of(branches: Seq<Branch>) -> Seq<FlowArm> {
    branches.map_values(|branch: Branch| FlowArm { condition: branch.condition, tree: branch.tree })
}

/// Some of the branches allows the arm.
pub open spec fn some_allows(paths: Seq<PathNode>, branches: Seq<Branch>, branch: BranchId, arm: int) -> bool {
    exists|i: int|
        0 <= i < branches.len() && path::allows(arena::path_of(paths, (#[trigger] branches[i]).condition.node as int), branch, arm)
}

/// A copy of a state.
pub fn copy_state(state: &BranchState) -> (r: BranchState)
    ensures
        r.bindings@ == state.bindings@,
{
    let mut bindings: Vec<Binding> = Vec::new();
    let mut i: usize = 0;
    while i < state.bindings.len()
        invariant
            i <= state.bindings@.len(),
            bindings@ == state.bindings@.take(i as int),
        decreases state.bindings@.len() - i,
    {
        bindings.push(state.bindings[i]);
        i = i + 1;
        assert(bindings@ =~= state.bindings@.take(i as int));
    }
    assert(bindings@ =~= state.bindings@);
    BranchState { bindings }
}

pub open spec fn branch_wf(store: SsaStore, flows: FlowStore, paths: Seq<PathNode>, branch: Branch) -> bool {
    &&& flows.holds(branch.tree)
    &&& branch.condition.node < paths.len()
    &&& branch.state.wf()
    &&& forall|k: int| 0 <= k < branch.state.bindings@.len() ==> (#[trigger] branch.state.bindings@[k]).version < store.versions@.len()
    &&& forall|k: int| 0 <= k < branch.controls@.len() ==> (#[trigger] branch.controls@[k]) < store.versions@.len()
}

/// Whether the branches differ in how they continue.
fn find_difference(flows: &FlowStore, branches: &Vec<Branch>) -> (r: bool)
    requires
        flows.wf(),
        forall|i: int| 0 <= i < branches@.len() ==> flows.holds((#[trigger] branches@[i]).tree),
    ensures
        r == decision_matters(*flows, branches@),
{
    let mut i: usize = 1;
    while i < branches.len()
        invariant
            1 <= i,
            flows.wf(),
            forall|i: int| 0 <= i < branches@.len() ==> flows.holds((#[trigger] branches@[i]).tree),
            forall|k: int|
                0 < k < i && k < branches@.len() ==> flow::shape(flows.plan((#[trigger] branches@[k]).tree)) == flow::shape(flows.plan(branches@[0].tree)),
        decreases branches@.len() - i,
    {
        assert(flows.holds(branches@[i as int].tree) && flows.holds(branches@[0].tree));
        if !flows.same_continuation(branches[i].tree, branches[0].tree) {
            assert(decision_matters(*flows, branches@)) by {
                assert(flow::shape(flows.plan(branches@[i as int].tree)) != flow::shape(flows.plan(branches@[0].tree)));
            }
            return true;
        }
        i = i + 1;
    }
    false
}

/// A token for what decides on a continuing branch.
fn make_token(
    store: &mut SsaStore,
    arena: &mut PathArena,
    branch: &Branch,
    predicate: &FlowPredicate,
    matters: bool,
    parent: PathCondition,
) -> (r: usize)
    requires
        results::tied(*old(store), *old(arena)),
        branch.condition.node < old(arena)@.len(),
        old(arena).holds(parent),
        forall|k: int| 0 <= k < branch.controls@.len() ==> (#[trigger] branch.controls@[k]) < old(store).versions@.len(),
        forall|k: int| 0 <= k < predicate.controls@.len() ==> (#[trigger] predicate.controls@[k]) < old(store).versions@.len(),
    ensures
        results::tied(*final(store), *final(arena)),
        arena::grows(old(arena)@, final(arena)@),
        writes::continues(*old(store), *final(store)),
        final(store).current@ == old(store).current@,
        r < final(store).versions@.len(),
        is_token(final(store).versions@, final(arena)@, *branch, predicate@, matters, parent, r),
{
    let ghost before = *store;
    let ghost paths = arena@;
    let mut controls: Vec<usize> = Vec::new();
    results::append_versions(&mut controls, &branch.controls);
    if matters {
        results::append_versions(&mut controls, &predicate.controls);
    }
    assert(controls@ =~= controls_of(*branch, predicate@, matters));
    let local: PathCondition = arena.relative_to(branch.condition, parent);
    proof {
        ssa::store_survives_growth(*store, paths, arena@);
        arena::growth_keeps_paths(paths, arena@, branch.condition.node as int);
        arena::growth_keeps_paths(paths, arena@, parent.node as int);
        assert forall|k: int| 0 <= k < controls@.len() implies (#[trigger] controls@[k]) < store.versions@.len() by {
            if k < branch.controls@.len() {
                assert(branch.controls@[k] < store.versions@.len());
            } else {
                assert(predicate.controls@[k - branch.controls@.len()] < store.versions@.len());
            }
        }
    }
    let version: usize = store.definition_guarded(&controls, local);
    proof {
        realize::lemma_same_state(before, *store);
        let found = store.versions@[version as int]->sources@;
        assert forall|s: SourceRef| #[trigger] found.contains(s) <==> writes::whole_sources(controls@).contains(s) by {
            writes::lemma_whole_sources(controls@, s);
        }
        assert(order::same_elements(found, writes::whole_sources(controls@)));
        assert(is_local(arena@, branch.condition, parent, local));
    }
    version
}

proof fn lemma_token_kept(
    a: Seq<Version>,
    b: Seq<Version>,
    paths: Seq<PathNode>,
    more: Seq<PathNode>,
    branch: Branch,
    predicate: PredicateView,
    matters: bool,
    parent: PathCondition,
    version: usize,
)
    requires
        ssa::versions_grow(a, b),
        arena::grows(paths, more),
        arena::nodes_wf(paths),
        branch.condition.node < paths.len(),
        parent.node < paths.len(),
        is_token(a, paths, branch, predicate, matters, parent, version),
    ensures
        is_token(b, more, branch, predicate, matters, parent, version),
{
    let condition = choose|condition: PathCondition| #[trigger]
        is_local(paths, branch.condition, parent, condition) && writes::is_definition(
            a,
            version as int,
            writes::whole_sources(controls_of(branch, predicate, matters)),
            condition,
        );
    assert(a[version as int] == b[version as int]);
    arena::growth_keeps_paths(paths, more, branch.condition.node as int);
    arena::growth_keeps_paths(paths, more, parent.node as int);
    arena::growth_keeps_paths(paths, more, condition.node as int);
    assert(is_local(more, branch.condition, parent, condition));
}

/// The tokens belong to the branches, one by one.
pub open spec fn are_tokens(
    versions: Seq<Version>,
    paths: Seq<PathNode>,
    branches: Seq<Branch>,
    predicate: PredicateView,
    matters: bool,
    parent: PathCondition,
    list: Seq<usize>,
) -> bool {
    list.len() == branches.len() && forall|i: int|
        0 <= i < list.len() ==> is_token(versions, paths, branches[i], predicate, matters, parent, #[trigger] list[i])
}

/// Brings the branches of a decision together.
pub fn merge_branches(
    store: &mut SsaStore,
    flows: &mut FlowStore,
    arena: &mut PathArena,
    branches: &Vec<Branch>,
    predicate: FlowPredicate,
    parent: PathCondition,
) -> (r: Merged)
    requires
        results::tied(*old(store), *old(arena)),
        old(flows).wf(),
        branches@.len() > 0,
        forall|i: int| 0 <= i < branches@.len() ==> branch_wf(*old(store), *old(flows), old(arena)@, #[trigger] branches@[i]),
        forall|k: int| 0 <= k < predicate.controls@.len() ==> (#[trigger] predicate.controls@[k]) < old(store).versions@.len(),
        old(arena).holds(parent),
    ensures
        results::tied(*final(store), *final(arena)),
        arena::grows(old(arena)@, final(arena)@),
        writes::continues(*old(store), *final(store)),
        final(flows).wf(),
        flow::extends(old(flows).trees@, final(flows).trees@),
        final(flows).holds(r.tree),
        final(flows).plan(r.tree) == Plan::Decision(predicate@, flow::written_out(old(flows).trees@, arms_of(branches@))),
        r.flow == flow::aggregated(final(flows).plan(r.tree)),
        old(flows).held_by(*old(arena)) ==> final(flows).held_by(*final(arena)),
        states_merged(*old(store), *final(store), continuing(*old(flows), branches@)),
        are_tokens(
            final(store).versions@,
            final(arena)@,
            deciding(*old(flows), branches@, predicate@, decision_matters(*old(flows), branches@)),
            predicate@,
            decision_matters(*old(flows), branches@),
            parent,
            r.controls@,
        ),
        final(arena).holds(r.condition),
        continuing(*old(flows), branches@).len() == 0 ==> r.condition == parent,
        continuing(*old(flows), branches@).len() > 0 ==> forall|branch: BranchId, arm: int|
            0 <= arm < branch.arms ==> (#[trigger] path::allows(final(arena).path(r.condition), branch, arm) <==> some_allows(
                old(arena)@,
                continuing(*old(flows), branches@),
                branch,
                arm,
            )),
{
    let ghost before = *store;
    let ghost paths = arena@;
    let ghost first = *arena;
    let ghost known_flows = *flows;
    let matters = find_difference(flows, branches);
    let ghost view = predicate@;
    let mut states: Vec<BranchState> = Vec::new();
    let mut conditions: Vec<PathCondition> = Vec::new();
    let mut tokens: Vec<usize> = Vec::new();
    let mut arms: Vec<FlowArm> = Vec::new();
    proof {
        assert(writes::continues(before, *store)) by {
            assert forall|depth: int| 0 <= depth < before.checkpoints@.len() implies #[trigger] store.saved(depth) == before.saved(depth) by {}
        }
        assert(branches@.take(0) =~= Seq::empty());
        reveal(Seq::filter);
    }
    let mut i: usize = 0;
    while i < branches.len()
        invariant
            i <= branches@.len(),
            *flows == known_flows,
            flows.wf(),
            view == predicate@,
            matters == decision_matters(known_flows, branches@),
            results::tied(*store, *arena),
            arena::grows(paths, arena@),
            arena::nodes_wf(paths),
            writes::continues(before, *store),
            store.current@ == before.current@,
            parent.node < paths.len(),
            forall|k: int| 0 <= k < branches@.len() ==> branch_wf(before, known_flows, paths, #[trigger] branches@[k]),
            forall|k: int| 0 <= k < predicate.controls@.len() ==> (#[trigger] predicate.controls@[k]) < before.versions@.len(),
            arms@ == arms_of(branches@.take(i as int)),
            copies_states(continuing(known_flows, branches@.take(i as int)), states@),
            conditions@.len() == states@.len(),
            forall|k: int| 0 <= k < conditions@.len() ==> (#[trigger] conditions@[k]) == continuing(known_flows, branches@.take(i as int))[k].condition,
            forall|k: int| 0 <= k < conditions@.len() ==> (#[trigger] conditions@[k]).node < paths.len(),
            forall|k: int| 0 <= k < states@.len() ==> (#[trigger] states@[k]).wf(),
            forall|m: int, k: int|
                0 <= m < states@.len() && 0 <= k < states@[m].bindings@.len() ==> (#[trigger] states@[m].bindings@[k]).version < before.versions@.len(),
            are_tokens(store.versions@, arena@, deciding(known_flows, branches@.take(i as int), view, matters), view, matters, parent, tokens@),
            forall|k: int| 0 <= k < deciding(known_flows, branches@.take(i as int), view, matters).len() ==> (
            #[trigger] deciding(known_flows, branches@.take(i as int), view, matters)[k]).condition.node < paths.len(),
        decreases branches@.len() - i,
    {
        let branch = &branches[i];
        let ghost known = *store;
        let ghost between = arena@;
        let ghost taken = branches@.take(i as int);
        let ghost longer = branches@.take(i + 1);
        let ghost listed = deciding(known_flows, taken, view, matters);
        let ghost old_tokens = tokens@;
        let ghost old_states = states@;
        proof {
            assert(branch_wf(before, known_flows, paths, branches@[i as int]));
            assert(longer.drop_last() =~= taken);
            assert(longer.last() == *branch);
            reveal(Seq::filter);
        }
        if flows.contains(branch.tree, ProcedureFlow::Continue) {
            let state = copy_state(&branch.state);
            states.push(state);
            conditions.push(branch.condition);
            if branch.controls.len() > 0 || (matters && predicate.controls.len() > 0) {
                let token: usize = make_token(store, arena, branch, &predicate, matters, parent);
                tokens.push(token);
                proof {
                    arena::growth_is_transitive(paths, between, arena@);
                    writes::continues_is_transitive(before, known, *store);
                    assert(deciding(known_flows, longer, view, matters) =~= listed.push(*branch));
                }
            } else {
                assert(controls_of(*branch, view, matters).len() == 0);
                assert(deciding(known_flows, longer, view, matters) =~= listed);
            }
            proof {
                assert(continuing(known_flows, longer) =~= continuing(known_flows, taken).push(*branch));
            }
        } else {
            assert(continuing(known_flows, longer) =~= continuing(known_flows, taken));
            assert(deciding(known_flows, longer, view, matters) =~= listed);
        }
        arms.push(FlowArm { condition: branch.condition, tree: branch.tree });
        proof {
            assert(arms@ =~= arms_of(longer));
            let list = deciding(known_flows, longer, view, matters);
            assert forall|k: int| 0 <= k < tokens@.len() implies is_token(store.versions@, arena@, list[k], view, matters, parent, #[trigger] tokens@[k]) by {
                if k < listed.len() {
                    assert(tokens@[k] == old_tokens[k] && list[k] == listed[k]);
                    assert(listed[k].condition.node < paths.len());
                    lemma_token_kept(known.versions@, store.versions@, between, arena@, listed[k], view, matters, parent, old_tokens[k]);
                }
            }
            assert forall|m: int, k: int| 0 <= m < states@.len() && 0 <= k < states@[m].bindings@.len() implies (#[trigger] states@[m].bindings@[k]).version
                < before.versions@.len() by {
                if m < old_states.len() {
                    assert(states@[m] == old_states[m]);
                    assert(old_states[m].bindings@[k].version < before.versions@.len());
                } else {
                    assert(branch.state.bindings@[k].version < before.versions@.len());
                }
            }
        }
        i = i + 1;
    }
    proof {
        assert(branches@.take(i as int) =~= branches@);
        assert forall|k: int| 0 <= k < arms@.len() implies flows.holds((#[trigger] arms@[k]).tree) by {
            assert(branch_wf(before, known_flows, paths, branches@[k]));
        }
    }
    let tree = flows.decision(predicate, arms);
    let ghost ready = *store;
    store.merge(&states);
    proof {
        assert(writes::continues(ready, *store));
        writes::continues_is_transitive(before, ready, *store);
        assert(merges(before, *store, states@));
        assert(copies_states(continuing(known_flows, branches@), states@));
        assert(store.guards_in(arena@));
    }
    let ghost merged = *store;
    let ghost between = arena@;
    let condition: PathCondition = if states.len() > 0 {
        arena.disjoin_all(&conditions)
    } else {
        parent
    };
    proof {
        arena::growth_is_transitive(paths, between, arena@);
        ssa::store_survives_growth(*store, between, arena@);
        let deciders = deciding(known_flows, branches@, view, matters);
        assert forall|k: int| 0 <= k < tokens@.len() implies is_token(store.versions@, arena@, deciders[k], view, matters, parent, #[trigger] tokens@[k]) by {
            assert(deciders[k].condition.node < paths.len());
            lemma_token_kept(ready.versions@, store.versions@, between, arena@, deciders[k], view, matters, parent, tokens@[k]);
        }
        let going = continuing(known_flows, branches@);
        if going.len() > 0 {
            assert forall|branch: BranchId, arm: int| 0 <= arm < branch.arms implies (#[trigger] path::allows(arena.path(condition), branch, arm) <==> some_allows(
                paths,
                going,
                branch,
                arm,
            )) by {
                lemma_allowed(paths, between, going, conditions@, branch, arm);
            }
        }
    }
    proof {
        if known_flows.held_by(first) {
            lemma_held_grows(known_flows, first, *arena);
            assert forall|k: int| 0 <= k < arms_of(branches@).len() implies arena.holds((#[trigger] arms_of(branches@)[k]).condition) by {
                assert(branch_wf(before, known_flows, paths, branches@[k]));
            }
            assert(flows.held_by(*arena));
        }
    }
    let flow = flows.aggregate(tree);
    Merged { flow, controls: tokens, tree, condition }
}

/// What belongs to an arena belongs to it as it grows.
pub proof fn lemma_held_grows(flows: FlowStore, small: PathArena, arena: PathArena)
    requires
        flows.held_by(small),
        arena::grows(small@, arena@),
    ensures
        flows.held_by(arena),
{
    assert forall|tree: int| 0 <= tree < flows.trees@.len() implies #[trigger] flow::arms_held(flows.trees@[tree], arena) by {
        assert(flow::arms_held(flows.trees@[tree], small));
    }
}

proof fn lemma_allowed(paths: Seq<PathNode>, more: Seq<PathNode>, branches: Seq<Branch>, conditions: Seq<PathCondition>, branch: BranchId, arm: int)
    requires
        arena::grows(paths, more),
        arena::nodes_wf(paths),
        conditions.len() == branches.len(),
        forall|k: int| 0 <= k < conditions.len() ==> (#[trigger] conditions[k]) == branches[k].condition,
        forall|k: int| 0 <= k < conditions.len() ==> (#[trigger] conditions[k]).node < paths.len(),
    ensures
        (exists|i: int| 0 <= i < conditions.len() && path::allows(arena::path_of(more, (#[trigger] conditions[i]).node as int), branch, arm)) <==> some_allows(
            paths,
            branches,
            branch,
            arm,
        ),
{
    if exists|i: int| 0 <= i < conditions.len() && path::allows(arena::path_of(more, (#[trigger] conditions[i]).node as int), branch, arm) {
        let i = choose|i: int| 0 <= i < conditions.len() && path::allows(arena::path_of(more, (#[trigger] conditions[i]).node as int), branch, arm);
        arena::growth_keeps_paths(paths, more, conditions[i].node as int);
        assert(branches[i].condition == conditions[i]);
    }
    if some_allows(paths, branches, branch, arm) {
        let i = choose|i: int|
            0 <= i < branches.len() && path::allows(arena::path_of(paths, (#[trigger] branches[i]).condition.node as int), branch, arm);
        assert(conditions[i] == branches[i].condition);
        arena::growth_keeps_paths(paths, more, conditions[i].node as int);
    }
}

} // verus!
