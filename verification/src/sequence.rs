//! Statements one after the other, and what leaves a loop.
use vstd::prelude::*;
use std::collections::HashMap;
use crate::arena;
use crate::arena::{PathArena, PathCondition, PathNode};
use crate::branches;
use crate::flow;
use crate::flow::{ContinuationControl, FlowStore, FlowTree, Plan, ProcedureFlow};
use crate::occurrences::ExpressionBranchLayout;
use crate::order;
use crate::path;
use crate::path::{BranchId, Choice};
use crate::realize;
use crate::relation::SourceRef;
use crate::results;
use crate::ssa;
use crate::ssa::{BranchState, Checkpoint, SsaStore, StateRevision, Version};
use crate::state;
use crate::writes;

verus! {

/// The plans one after the other: each follows the ends of the one before that continue.
pub open spec fn sequenced(plans: Seq<Plan>) -> Plan
    decreases plans.len(),
{
    if plans.len() == 0 {
        Plan::Outcome(ProcedureFlow::Continue)
    } else {
        flow::rewritten(plans[0], sequenced(plans.skip(1)), Plan::Outcome(ProcedureFlow::Break))
    }
}

/// The trees written out.
pub open spec fn plans_of(flows: FlowStore, trees: Seq<FlowTree>) -> Seq<Plan> {
    trees.map_values(|tree: FlowTree| flows.plan(tree))
}

/// A block in two parts does what both do one after the other.
pub proof fn sequences_are_joined(a: Seq<Plan>, b: Seq<Plan>)
    ensures
        sequenced(a + b) == flow::rewritten(sequenced(a), sequenced(b), Plan::Outcome(ProcedureFlow::Break)),
    decreases a.len(),
{
    if a.len() == 0 {
        assert(a + b =~= b);
    } else {
        assert((a + b).skip(1) =~= a.skip(1) + b);
        assert((a + b)[0] == a[0]);
        sequences_are_joined(a.skip(1), b);
        flow::following_is_associative(a[0], sequenced(a.skip(1)), sequenced(b));
    }
}

/// What stands behind a statement that never continues does not count.
pub proof fn nothing_follows_an_end(plans: Seq<Plan>, i: int)
    requires
        0 <= i < plans.len(),
        !flow::can_end(plans[i], ProcedureFlow::Continue),
    ensures
        sequenced(plans) == sequenced(plans.take(i + 1)),
    decreases i,
{
    let taken = plans.take(i + 1);
    assert(taken[0] == plans[0]);
    if i == 0 {
        flow::following_needs_continuing(plans[0], sequenced(plans.skip(1)));
        flow::following_needs_continuing(plans[0], sequenced(taken.skip(1)));
    } else {
        nothing_follows_an_end(plans.skip(1), i - 1);
        assert(plans.skip(1).take(i) =~= taken.skip(1));
    }
}

/// Puts the trees of statements one after the other.
pub fn sequence_flows(flows: &mut FlowStore, trees: &Vec<FlowTree>) -> (r: FlowTree)
    requires
        old(flows).wf(),
        forall|i: int| 0 <= i < trees@.len() ==> old(flows).holds(#[trigger] trees@[i]),
    ensures
        final(flows).wf(),
        flow::extends(old(flows).trees@, final(flows).trees@),
        final(flows).holds(r),
        final(flows).plan(r) == sequenced(plans_of(*old(flows), trees@)),
        forall|arena: PathArena| old(flows).held_by(arena) ==> #[trigger] final(flows).held_by(arena),
{
    let ghost before = *flows;
    let ghost plans = plans_of(before, trees@);
    let mut tree: FlowTree = flows.outcome(ProcedureFlow::Continue);
    let mut i: usize = trees.len();
    assert(plans.skip(plans.len() as int) =~= Seq::<Plan>::empty());
    while i > 0
        invariant
            i <= trees@.len(),
            before.wf(),
            plans == plans_of(before, trees@),
            flows.wf(),
            flow::extends(before.trees@, flows.trees@),
            forall|k: int| 0 <= k < trees@.len() ==> before.holds(#[trigger] trees@[k]),
            flows.holds(tree),
            flows.plan(tree) == sequenced(plans.skip(i as int)),
            forall|arena: PathArena| before.held_by(arena) ==> #[trigger] flows.held_by(arena),
        decreases i,
    {
        i = i - 1;
        let statement = trees[i];
        let ghost known = *flows;
        proof {
            assert(before.holds(trees@[i as int]));
            flow::growth_keeps_plans(before.trees@, flows.trees@, statement.index as int);
            assert(plans.skip(i as int).skip(1) =~= plans.skip(i + 1));
            assert(plans.skip(i as int)[0] == before.plan(statement));
        }
        tree = flows.bind(statement, tree);
        proof {
            assert forall|t: int| 0 <= t < before.trees@.len() implies #[trigger] before.trees@[t] == flows.trees@[t] by {
                assert(before.trees@[t] == known.trees@[t]);
            }
            assert forall|arena: PathArena| before.held_by(arena) implies #[trigger] flows.held_by(arena) by {
                assert(known.held_by(arena));
            }
        }
    }
    assert(plans.skip(0) =~= plans);
    tree
}

/// What decides on the statements that follow in a block: what the last statement added, and what
/// decided before.
pub fn next_continuation_control(store: &mut SsaStore, found: &Vec<usize>, previous: Option<usize>) -> (r: Option<usize>)
    requires
        old(store).wf(),
        forall|i: int| 0 <= i < found@.len() ==> (#[trigger] found@[i]) < old(store).versions@.len(),
        previous matches Some(previous) ==> previous < old(store).versions@.len(),
    ensures
        final(store).wf(),
        writes::continues(*old(store), *final(store)),
        final(store).current@ == old(store).current@,
        found@.len() == 0 ==> r == previous && *final(store) == *old(store),
        found@.len() > 0 ==> r == Some(old(store).versions@.len() as usize) && writes::is_definition(
            final(store).versions@,
            old(store).versions@.len() as int,
            writes::whole_sources(
                found@ + match previous {
                    Some(previous) => seq![previous],
                    None => Seq::empty(),
                },
            ),
            PathCondition { node: 0 },
        ),
        forall|nodes: Seq<PathNode>| #[trigger] old(store).guards_in(nodes) && nodes.len() > 0 ==> final(store).guards_in(nodes),
{
    let ghost before = *store;
    if found.len() == 0 {
        proof {
            assert(writes::continues(before, *store)) by {
                assert forall|depth: int| 0 <= depth < before.checkpoints@.len() implies #[trigger] store.saved(depth) == before.saved(depth) by {}
            }
        }
        return previous;
    }
    let mut sources: Vec<usize> = Vec::new();
    results::append_versions(&mut sources, found);
    if let Some(previous) = previous {
        sources.push(previous);
    }
    let ghost all = found@ + match previous {
        Some(previous) => seq![previous],
        None => Seq::empty(),
    };
    proof {
        assert(sources@ =~= all);
        assert forall|k: int| 0 <= k < sources@.len() implies (#[trigger] sources@[k]) < store.versions@.len() by {
            if k < found@.len() {
                assert(found@[k] < store.versions@.len());
            }
        }
    }
    let version: usize = store.definition_guarded(&sources, PathCondition { node: 0 });
    proof {
        realize::lemma_same_state(before, *store);
        let list = store.versions@[version as int]->sources@;
        assert forall|s: SourceRef| #[trigger] list.contains(s) <==> writes::whole_sources(all).contains(s) by {
            writes::lemma_whole_sources(all, s);
        }
        assert(order::same_elements(list, writes::whole_sources(all)));
    }
    Some(version)
}

/// A way out of a loop: what was changed on the way, and the condition of the way.
pub struct FlowState {
    pub state: BranchState,
    pub condition: PathCondition,
}

impl FlowState {
    pub open spec fn wf(self, store: SsaStore, paths: Seq<PathNode>) -> bool {
        &&& self.condition.node < paths.len()
        &&& self.state.wf()
        &&& forall|k: int| 0 <= k < self.state.bindings@.len() ==> (#[trigger] self.state.bindings@[k]).version < store.versions@.len()
    }
}

pub open spec fn exits_wf(store: SsaStore, paths: Seq<PathNode>, exits: Seq<FlowState>) -> bool {
    forall|i: int| 0 <= i < exits.len() ==> (#[trigger] exits[i]).wf(store, paths)
}

/// The states are copies of those of the ways.
pub open spec fn copies_exits(exits: Seq<FlowState>, states: Seq<BranchState>) -> bool {
    states.len() == exits.len() && forall|i: int| 0 <= i < states.len() ==> (#[trigger] states[i]).bindings@ == exits[i].state.bindings@
}

/// The ways come together.
pub open spec fn exits_merged(before: SsaStore, after: SsaStore, exits: Seq<FlowState>) -> bool {
    exists|states: Seq<BranchState>| #[trigger] copies_exits(exits, states) && branches::merges(before, after, states)
}

/// Some way allows the arm.
pub open spec fn some_exit_allows(paths: Seq<PathNode>, exits: Seq<FlowState>, branch: BranchId, arm: int) -> bool {
    exists|i: int| 0 <= i < exits.len() && path::allows(arena::path_of(paths, (#[trigger] exits[i]).condition.node as int), branch, arm)
}

/// Brings ways out of a loop together: afterwards the condition allows what some way allows.
pub fn merge_flow_states(store: &mut SsaStore, arena: &mut PathArena, exits: &Vec<FlowState>) -> (r: PathCondition)
    requires
        results::tied(*old(store), *old(arena)),
        exits_wf(*old(store), old(arena)@, exits@),
    ensures
        results::tied(*final(store), *final(arena)),
        arena::grows(old(arena)@, final(arena)@),
        writes::continues(*old(store), *final(store)),
        exits_merged(*old(store), *final(store), exits@),
        final(arena).holds(r),
        exits@.len() == 0 ==> final(arena).path(r).len() == 0,
        exits@.len() > 0 ==> forall|branch: BranchId, arm: int|
            0 <= arm < branch.arms ==> (#[trigger] path::allows(final(arena).path(r), branch, arm) <==> some_exit_allows(old(arena)@, exits@, branch, arm)),
{
    let ghost before = *store;
    let ghost paths = arena@;
    let mut states: Vec<BranchState> = Vec::new();
    let mut conditions: Vec<PathCondition> = Vec::new();
    let mut i: usize = 0;
    while i < exits.len()
        invariant
            i <= exits@.len(),
            exits_wf(before, paths, exits@),
            states@.len() == i,
            conditions@.len() == i,
            forall|k: int| 0 <= k < i ==> (#[trigger] states@[k]).bindings@ == exits@[k].state.bindings@ && states@[k].wf(),
            forall|k: int| 0 <= k < i ==> (#[trigger] conditions@[k]) == exits@[k].condition && conditions@[k].node < paths.len(),
            forall|m: int, k: int|
                0 <= m < i && 0 <= k < states@[m].bindings@.len() ==> (#[trigger] states@[m].bindings@[k]).version < before.versions@.len(),
        decreases exits@.len() - i,
    {
        let ghost known = states@;
        assert(exits@[i as int].wf(before, paths));
        states.push(branches::copy_state(&exits[i].state));
        conditions.push(exits[i].condition);
        proof {
            assert forall|m: int, k: int| 0 <= m < i + 1 && 0 <= k < states@[m].bindings@.len() implies (#[trigger] states@[m].bindings@[k]).version
                < before.versions@.len() by {
                if m < i {
                    assert(states@[m] == known[m]);
                    assert(known[m].bindings@[k].version < before.versions@.len());
                } else {
                    assert(exits@[i as int].state.bindings@[k].version < before.versions@.len());
                }
            }
        }
        i = i + 1;
    }
    store.merge(&states);
    proof {
        assert(writes::continues(before, *store));
        assert(branches::merges(before, *store, states@));
        assert(copies_exits(exits@, states@));
        assert(store.guards_in(paths));
    }
    let r = arena.disjoin_all(&conditions);
    proof {
        ssa::store_survives_growth(*store, paths, arena@);
        if exits@.len() > 0 {
            assert forall|branch: BranchId, arm: int| 0 <= arm < branch.arms implies (#[trigger] path::allows(arena.path(r), branch, arm) <==> some_exit_allows(
                paths,
                exits@,
                branch,
                arm,
            )) by {
                lemma_exit_allowed(paths, exits@, conditions@, branch, arm);
            }
        }
    }
    r
}

proof fn lemma_exit_allowed(paths: Seq<PathNode>, exits: Seq<FlowState>, conditions: Seq<PathCondition>, branch: BranchId, arm: int)
    requires
        conditions.len() == exits.len(),
        forall|k: int| 0 <= k < conditions.len() ==> (#[trigger] conditions[k]) == exits[k].condition,
    ensures
        (exists|i: int| 0 <= i < conditions.len() && path::allows(arena::path_of(paths, (#[trigger] conditions[i]).node as int), branch, arm))
            <==> some_exit_allows(paths, exits, branch, arm),
{
    if exists|i: int| 0 <= i < conditions.len() && path::allows(arena::path_of(paths, (#[trigger] conditions[i]).node as int), branch, arm) {
        let i = choose|i: int| 0 <= i < conditions.len() && path::allows(arena::path_of(paths, (#[trigger] conditions[i]).node as int), branch, arm);
        assert(exits[i].condition == conditions[i]);
    }
    if some_exit_allows(paths, exits, branch, arm) {
        let i = choose|i: int| 0 <= i < exits.len() && path::allows(arena::path_of(paths, (#[trigger] exits[i]).condition.node as int), branch, arm);
        assert(conditions[i] == exits[i].condition);
    }
}

/// A version stands for the controls, under the condition.
pub open spec fn has_token(versions: Seq<Version>, paths: Seq<PathNode>, tokens: Seq<usize>, controls: Seq<usize>, condition: Seq<Choice>) -> bool {
    exists|k: int| 0 <= k < tokens.len() && is_flow_token(versions, paths, #[trigger] tokens[k], controls, condition)
}

pub open spec fn is_flow_token(versions: Seq<Version>, paths: Seq<PathNode>, token: usize, controls: Seq<usize>, condition: Seq<Choice>) -> bool {
    exists|guard: PathCondition|
        #![trigger arena::path_of(paths, guard.node as int)]
        guard.node < paths.len() && arena::path_of(paths, guard.node as int) == condition && writes::is_definition(
            versions,
            token as int,
            writes::whole_sources(controls),
            guard,
        )
}

fn same_control(a: &ContinuationControl, b: &ContinuationControl) -> (r: bool)
    ensures
        r == (a.controls@ == b.controls@ && a.condition == b.condition),
{
    if a.condition.node != b.condition.node || a.controls.len() != b.controls.len() {
        return false;
    }
    let mut i: usize = 0;
    while i < a.controls.len()
        invariant
            i <= a.controls@.len(),
            a.controls@.len() == b.controls@.len(),
            forall|k: int| 0 <= k < i ==> a.controls@[k] == b.controls@[k],
        decreases a.controls@.len() - i,
    {
        if a.controls[i] != b.controls[i] {
            return false;
        }
        i = i + 1;
    }
    assert(a.controls@ =~= b.controls@);
    true
}

fn listed_before(list: &Vec<ContinuationControl>, at: usize) -> (r: bool)
    requires
        at < list@.len(),
    ensures
        r == exists|k: int| 0 <= k < at && (#[trigger] list@[k]).controls@ == list@[at as int].controls@ && list@[k].condition == list@[at as int].condition,
{
    let mut k: usize = 0;
    while k < at
        invariant
            k <= at < list@.len(),
            forall|m: int| 0 <= m < k ==> !((#[trigger] list@[m]).controls@ == list@[at as int].controls@ && list@[m].condition == list@[at as int].condition),
        decreases at - k,
    {
        if same_control(&list[k], &list[at]) {
            return true;
        }
        k = k + 1;
    }
    false
}

/// The versions stand for the decisions of the plan that count.
pub open spec fn tokens_of(versions: Seq<Version>, paths: Seq<PathNode>, more: Seq<PathNode>, plan: Plan, tokens: Seq<usize>) -> bool {
    &&& forall|controls: Seq<usize>, condition: Seq<Choice>| #[trigger]
        flow::depends(paths, plan, Seq::<Choice>::empty(), controls, condition) ==> has_token(versions, more, tokens, controls, condition)
    &&& forall|k: int| 0 <= k < tokens.len() ==> stands_for_some(versions, paths, more, plan, #[trigger] tokens[k])
}

/// What decides on what follows a tree: one version for each decision on the way that counts.
pub fn continuation_tokens(store: &mut SsaStore, flows: &FlowStore, arena: &mut PathArena, tree: FlowTree) -> (r: Vec<usize>)
    requires
        results::tied(*old(store), *old(arena)),
        flows.wf(),
        flows.holds(tree),
        flows.held_by(*old(arena)),
        controls_known(*old(store), old(arena)@, flows.plan(tree)),
    ensures
        results::tied(*final(store), *final(arena)),
        arena::grows(old(arena)@, final(arena)@),
        writes::continues(*old(store), *final(store)),
        final(store).current@ == old(store).current@,
        tokens_of(final(store).versions@, old(arena)@, final(arena)@, flows.plan(tree), r@),
        all_below(r@, final(store).versions@.len() as int),
{
    let ghost before = *store;
    let ghost paths = arena@;
    let mut list: Vec<ContinuationControl> = Vec::new();
    flows.collect_continuation_controls(arena, tree, &mut list);
    let ghost more = arena@;
    proof {
        ssa::store_survives_growth(*store, paths, more);
        assert(writes::continues(before, *store)) by {
            assert forall|depth: int| 0 <= depth < before.checkpoints@.len() implies #[trigger] store.saved(depth) == before.saved(depth) by {}
        }
        assert forall|k: int| 0 <= k < list@.len() implies flow::depends(
            paths,
            flows.plan(tree),
            Seq::<Choice>::empty(),
            (#[trigger] list@[k]).controls@,
            arena::path_of(more, list@[k].condition.node as int),
        ) by {
            assert(flow::lists_control(list@, more, 0, list@[k].controls@, arena::path_of(more, list@[k].condition.node as int)));
        }
    }
    let mut r: Vec<usize> = Vec::new();
    let mut i: usize = 0;
    while i < list.len()
        invariant
            i <= list@.len(),
            store.wf(),
            arena.wf(),
            arena@ == more,
            store.guards_in(more),
            writes::continues(before, *store),
            store.current@ == before.current@,
            flows.wf(),
            flows.holds(tree),
            controls_known(before, paths, flows.plan(tree)),
            forall|k: int| 0 <= k < list@.len() ==> arena.holds((#[trigger] list@[k]).condition),
            forall|k: int|
                0 <= k < list@.len() ==> flow::depends(
                    paths,
                    flows.plan(tree),
                    Seq::<Choice>::empty(),
                    (#[trigger] list@[k]).controls@,
                    arena::path_of(more, list@[k].condition.node as int),
                ),
            forall|k: int|
                0 <= k < i ==> has_token(store.versions@, more, r@, (#[trigger] list@[k]).controls@, arena::path_of(more, list@[k].condition.node as int)),
            forall|k: int| 0 <= k < r@.len() ==> stands_for_some(store.versions@, paths, more, flows.plan(tree), #[trigger] r@[k]),
            all_below(r@, store.versions@.len() as int),
        decreases list@.len() - i,
    {
        let ghost known = *store;
        let ghost tokens = r@;
        if !listed_before(&list, i) {
            proof {
                assert(flow::depends(
                    paths,
                    flows.plan(tree),
                    Seq::<Choice>::empty(),
                    list@[i as int].controls@,
                    arena::path_of(more, list@[i as int].condition.node as int),
                ));
                assert(all_below(list@[i as int].controls@, before.versions@.len() as int));
                assert(arena.holds(list@[i as int].condition));
            }
            let version: usize = store.definition_guarded(&list[i].controls, list[i].condition);
            r.push(version);
            proof {
                realize::lemma_same_state(known, *store);
                writes::continues_is_transitive(before, known, *store);
                let found = store.versions@[version as int]->sources@;
                let wanted = list@[i as int].controls@;
                assert forall|s: SourceRef| #[trigger] found.contains(s) <==> writes::whole_sources(wanted).contains(s) by {
                    writes::lemma_whole_sources(wanted, s);
                }
                assert(order::same_elements(found, writes::whole_sources(wanted)));
                let guard = list@[i as int].condition;
                assert(writes::is_definition(store.versions@, version as int, writes::whole_sources(wanted), guard));
                assert(is_flow_token(store.versions@, more, version, wanted, arena::path_of(more, guard.node as int)));
                assert(r@[tokens.len() as int] == version);
                assert(has_token(store.versions@, more, r@, wanted, arena::path_of(more, guard.node as int)));
                assert(stands_for_some(store.versions@, paths, more, flows.plan(tree), version));
            }
        } else {
            proof {
                let k = choose|k: int|
                    0 <= k < i && (#[trigger] list@[k]).controls@ == list@[i as int].controls@ && list@[k].condition == list@[i as int].condition;
                assert(has_token(store.versions@, more, r@, list@[k].controls@, arena::path_of(more, list@[k].condition.node as int)));
            }
        }
        proof {
            assert forall|k: int| 0 <= k < i + 1 implies has_token(
                store.versions@,
                more,
                r@,
                (#[trigger] list@[k]).controls@,
                arena::path_of(more, list@[k].condition.node as int),
            ) by {
                if k < i {
                    lemma_has_token_kept(known.versions@, store.versions@, more, tokens, r@, list@[k].controls@, arena::path_of(more, list@[k].condition.node as int));
                }
            }
            assert forall|k: int| 0 <= k < r@.len() implies stands_for_some(store.versions@, paths, more, flows.plan(tree), #[trigger] r@[k]) by {
                if k < tokens.len() {
                    assert(tokens[k] == r@[k]);
                    lemma_stands_kept(known.versions@, store.versions@, paths, more, flows.plan(tree), tokens[k]);
                }
            }
        }
        i = i + 1;
    }
    proof {
        assert forall|controls: Seq<usize>, condition: Seq<Choice>| #[trigger]
            flow::depends(paths, flows.plan(tree), Seq::<Choice>::empty(), controls, condition) implies has_token(store.versions@, more, r@, controls, condition) by {
            assert(flow::lists_control(list@, more, 0, controls, condition));
            let k = choose|k: int| 0 <= k < list@.len() && (#[trigger] list@[k]).controls@ == controls && arena::path_of(more, list@[k].condition.node as int) == condition;
            assert(has_token(store.versions@, more, r@, list@[k].controls@, arena::path_of(more, list@[k].condition.node as int)));
        }
    }
    r
}

/// The version stands for a decision of the plan that counts.
pub open spec fn stands_for_some(versions: Seq<Version>, paths: Seq<PathNode>, more: Seq<PathNode>, plan: Plan, token: usize) -> bool {
    exists|controls: Seq<usize>, condition: Seq<Choice>| #[trigger]
        flow::depends(paths, plan, Seq::<Choice>::empty(), controls, condition) && is_flow_token(versions, more, token, controls, condition)
}

proof fn lemma_flow_token_kept(a: Seq<Version>, b: Seq<Version>, paths: Seq<PathNode>, token: usize, controls: Seq<usize>, condition: Seq<Choice>)
    requires
        ssa::versions_grow(a, b),
        is_flow_token(a, paths, token, controls, condition),
    ensures
        is_flow_token(b, paths, token, controls, condition),
{
    let guard = choose|guard: PathCondition|
        #![trigger arena::path_of(paths, guard.node as int)]
        guard.node < paths.len() && arena::path_of(paths, guard.node as int) == condition && writes::is_definition(
            a,
            token as int,
            writes::whole_sources(controls),
            guard,
        );
    assert(a[token as int] == b[token as int]);
    assert(arena::path_of(paths, guard.node as int) == condition && writes::is_definition(b, token as int, writes::whole_sources(controls), guard));
}

proof fn lemma_has_token_kept(
    a: Seq<Version>,
    b: Seq<Version>,
    paths: Seq<PathNode>,
    tokens: Seq<usize>,
    longer: Seq<usize>,
    controls: Seq<usize>,
    condition: Seq<Choice>,
)
    requires
        ssa::versions_grow(a, b),
        tokens.len() <= longer.len(),
        forall|k: int| 0 <= k < tokens.len() ==> #[trigger] tokens[k] == longer[k],
        has_token(a, paths, tokens, controls, condition),
    ensures
        has_token(b, paths, longer, controls, condition),
{
    let k = choose|k: int| 0 <= k < tokens.len() && is_flow_token(a, paths, #[trigger] tokens[k], controls, condition);
    lemma_flow_token_kept(a, b, paths, tokens[k], controls, condition);
    assert(is_flow_token(b, paths, longer[k], controls, condition));
}

proof fn lemma_stands_kept(a: Seq<Version>, b: Seq<Version>, paths: Seq<PathNode>, more: Seq<PathNode>, plan: Plan, token: usize)
    requires
        ssa::versions_grow(a, b),
        stands_for_some(a, paths, more, plan, token),
    ensures
        stands_for_some(b, paths, more, plan, token),
{
    let (controls, condition) = choose|controls: Seq<usize>, condition: Seq<Choice>| #[trigger]
        flow::depends(paths, plan, Seq::<Choice>::empty(), controls, condition) && is_flow_token(a, more, token, controls, condition);
    lemma_flow_token_kept(a, b, more, token, controls, condition);
    assert(flow::depends(paths, plan, Seq::<Choice>::empty(), controls, condition));
}

/// The controls of the decisions that count are versions of the store.
pub open spec fn controls_known(store: SsaStore, paths: Seq<PathNode>, plan: Plan) -> bool {
    forall|controls: Seq<usize>, condition: Seq<Choice>| #[trigger]
        flow::depends(paths, plan, Seq::<Choice>::empty(), controls, condition) ==> all_below(controls, store.versions@.len() as int)
}

pub open spec fn all_below(list: Seq<usize>, limit: int) -> bool {
    forall|k: int| 0 <= k < list.len() ==> (#[trigger] list[k]) < limit
}


/// What leaves a loop whose iterations are known.
pub struct LoopLeft {
    pub tree: FlowTree,
    pub condition: PathCondition,
    /// What decides on what follows.
    pub controls: Vec<usize>,
}

/// The end of the last iteration as a way out: what the loop changed since its start.
pub open spec fn is_fallthrough(store: SsaStore, depth: int, condition: PathCondition, exit: FlowState) -> bool {
    exit.condition == condition && state::lists_changes(exit.state.bindings@, store.current@, store.saved(depth))
}

/// The ways out of a loop: the breaks, and the end of the last iteration where it continues.
pub open spec fn loop_exits(store: SsaStore, depth: int, breaks: Seq<FlowState>, condition: PathCondition, falls: bool, exits: Seq<FlowState>) -> bool {
    if falls {
        exits.len() == breaks.len() + 1 && exits.drop_last() == breaks && is_fallthrough(store, depth, condition, exits.last())
    } else {
        exits == breaks
    }
}

/// The loop is left: its changes are taken back, and where something goes on behind it, the ways out
/// come together.
pub open spec fn loop_left(
    before: SsaStore,
    rolled: SsaStore,
    after: SsaStore,
    depth: int,
    breaks: Seq<FlowState>,
    condition: PathCondition,
    falls: bool,
    goes_on: bool,
    exits: Seq<FlowState>,
) -> bool {
    &&& ssa::scope_closed(before, rolled)
    &&& rolled.current@ == before.saved(depth)
    &&& writes::continues(rolled, after)
    &&& loop_exits(before, depth, breaks, condition, falls, exits)
    &&& if goes_on {
        exits_merged(rolled, after, exits)
    } else {
        after.current@ == rolled.current@
    }
}

/// Leaves a loop whose iterations were evaluated one after the other: `tree` is that of the iterations,
/// `condition` that behind the last, and `parent` that before the first.
pub fn leave_known_loop(
    store: &mut SsaStore,
    flows: &mut FlowStore,
    arena: &mut PathArena,
    checkpoint: Checkpoint,
    breaks: Vec<FlowState>,
    tree: FlowTree,
    condition: PathCondition,
    parent: PathCondition,
) -> (r: LoopLeft)
    requires
        results::tied(*old(store), *old(arena)),
        old(store).open_checkpoint(checkpoint),
        checkpoint.depth + 1 == old(store).checkpoints@.len(),
        exits_wf(*old(store), old(arena)@, breaks@),
        old(flows).wf(),
        old(flows).holds(tree),
        old(flows).held_by(*old(arena)),
        old(arena).holds(condition),
        old(arena).holds(parent),
        forall|paths: Seq<PathNode>| #[trigger] arena::grows(old(arena)@, paths) ==> controls_known(*old(store), paths, left_plan(old(flows).plan(tree))),
    ensures
        results::tied(*final(store), *final(arena)),
        arena::grows(old(arena)@, final(arena)@),
        ssa::versions_grow(old(store).versions@, final(store).versions@),
        final(flows).wf(),
        flow::extends(old(flows).trees@, final(flows).trees@),
        final(flows).holds(r.tree),
        final(flows).plan(r.tree) == left_plan(old(flows).plan(tree)),
        final(arena).holds(r.condition),
        exists|rolled: SsaStore, exits: Seq<FlowState>| #[trigger]
            loop_left(
                *old(store),
                rolled,
                *final(store),
                checkpoint.depth as int,
                breaks@,
                condition,
                flow::can_end(old(flows).plan(tree), ProcedureFlow::Continue),
                flow::can_end(final(flows).plan(r.tree), ProcedureFlow::Continue),
                exits,
            ) && (flow::can_end(final(flows).plan(r.tree), ProcedureFlow::Continue) && exits.len() > 0 ==> forall|branch: BranchId, arm: int|
                0 <= arm < branch.arms ==> (#[trigger] path::allows(final(arena).path(r.condition), branch, arm) <==> some_exit_allows(
                    old(arena)@,
                    exits,
                    branch,
                    arm,
                ))),
        !flow::can_end(final(flows).plan(r.tree), ProcedureFlow::Continue) ==> r.condition == parent,
        exists|paths: Seq<PathNode>| #[trigger]
            tokens_of(final(store).versions@, paths, final(arena)@, final(flows).plan(r.tree), r.controls@) && arena::grows(old(arena)@, paths),
        all_below(r.controls@, final(store).versions@.len() as int),
        final(flows).held_by(*final(arena)),
        final(store).graphs == old(store).graphs,
        final(store).imports == old(store).imports,
        final(store).checkpoints@ == old(store).checkpoints@.drop_last(),
        ssa::closes_checkpoint(*old(store), *final(store)),
{
    let ghost before = *store;
    let ghost paths = arena@;
    let ghost known_flows = *flows;
    let ghost first = *arena;
    let ghost depth = checkpoint.depth as int;
    let falls = flows.contains(tree, ProcedureFlow::Continue);
    let fallthrough = store.capture_and_rollback(checkpoint);
    let ghost rolled = *store;
    let mut exits = breaks;
    if falls {
        exits.push(FlowState { state: fallthrough, condition });
        proof {
            assert(exits@.drop_last() =~= breaks@);
        }
    }
    proof {
        assert(loop_exits(before, depth, breaks@, condition, falls, exits@));
        assert forall|i: int| 0 <= i < exits@.len() implies (#[trigger] exits@[i]).wf(rolled, paths) by {
            if i < breaks@.len() {
                assert(breaks@[i].wf(before, paths));
                assert(exits@[i] == breaks@[i]);
            }
        }
        assert(rolled.guards_in(paths));
    }
    let ghost iterations = tree;
    let tree = flows.leave_loop(tree);
    let goes_on = flows.contains(tree, ProcedureFlow::Continue);
    let mut now: PathCondition = parent;
    if goes_on {
        now = merge_flow_states(store, arena, &exits);
    }
    let ghost merged = *store;
    let ghost joined = *arena;
    let ghost between = arena@;
    proof {
        assert(arena::grows(paths, between));
        assert(flows.held_by(first));
        branches::lemma_held_grows(*flows, first, *arena);
        assert(flows.plan(tree) == left_plan(known_flows.plan(iterations)));
        assert(controls_known(before, between, flows.plan(tree)));
        assert(merged.versions@.len() >= before.versions@.len());
        lemma_known_grows(before, merged, between, flows.plan(tree));
    }
    let controls = continuation_tokens(store, flows, arena, tree);
    proof {
        branches::lemma_held_grows(*flows, joined, *arena);
        assert(tokens_of(store.versions@, between, arena@, flows.plan(tree), controls@));
        assert forall|d: int| 0 <= d < store.checkpoints@.len() implies #[trigger] store.saved(d) == before.saved(d) by {
            assert(merged.saved(d) == rolled.saved(d));
        }
        arena::growth_is_transitive(paths, between, arena@);
        if goes_on {
            arena::growth_keeps_paths(between, arena@, now.node as int);
        }
        if !goes_on {
            crate::machine::lemma_continues_self(rolled);
        }
        writes::continues_is_transitive(rolled, merged, *store);
        assert(loop_left(before, rolled, *store, depth, breaks@, condition, falls, goes_on, exits@)) by {
            if goes_on {
                lemma_merged_kept(rolled, merged, *store, exits@);
            }
        }
        if goes_on && exits@.len() > 0 {
            assert forall|branch: BranchId, arm: int| 0 <= arm < branch.arms implies (#[trigger] path::allows(arena.path(now), branch, arm) <==> some_exit_allows(
                paths,
                exits@,
                branch,
                arm,
            )) by {
                assert(arena.path(now) == joined.path(now));
                assert(path::allows(joined.path(now), branch, arm) <==> some_exit_allows(paths, exits@, branch, arm));
            }
        }
        assert forall|i: int| 0 <= i < before.versions@.len() implies #[trigger] before.versions@[i] == store.versions@[i] by {
            assert(rolled.versions@[i] == merged.versions@[i]);
        }
    }
    let r = LoopLeft { tree, condition: now, controls };
    proof {
        assert(arena::grows(paths, between));
        assert(tokens_of(store.versions@, between, arena@, flows.plan(r.tree), r.controls@));
    }
    r
}

/// The plan behind a loop: breaks continue there.
pub open spec fn left_plan(plan: Plan) -> Plan {
    flow::rewritten(plan, Plan::Outcome(ProcedureFlow::Continue), Plan::Outcome(ProcedureFlow::Continue))
}

/// The controls of a plan stay known as versions are added.
pub proof fn lemma_known_grows(before: SsaStore, after: SsaStore, paths: Seq<PathNode>, plan: Plan)
    requires
        controls_known(before, paths, plan),
        before.versions@.len() <= after.versions@.len(),
    ensures
        controls_known(after, paths, plan),
{
    assert forall|controls: Seq<usize>, condition: Seq<Choice>| #[trigger]
        flow::depends(paths, plan, Seq::<Choice>::empty(), controls, condition) implies all_below(controls, after.versions@.len() as int) by {
        assert(all_below(controls, before.versions@.len() as int));
    }
}

proof fn lemma_merged_kept(before: SsaStore, middle: SsaStore, after: SsaStore, exits: Seq<FlowState>)
    requires
        middle.wf(),
        after.wf(),
        writes::continues(middle, after),
        after.current@ == middle.current@,
        exits_merged(before, middle, exits),
    ensures
        exits_merged(before, after, exits),
{
    let states = choose|states: Seq<BranchState>| #[trigger] copies_exits(exits, states) && branches::merges(before, middle, states);
    assert forall|key: u64| state::some_binds(states, key) implies #[trigger] state::merged_key(states, before.current@, after, key) by {
        assert(state::merged_key(states, before.current@, middle, key));
        if middle.entries@.contains_key(key) {
            writes::lemma_entry_kept(middle, after, key);
        }
        let inputs = state::merge_inputs(states, before.current@, middle.entries@, key);
        assert(inputs =~= state::merge_inputs(states, before.current@, after.entries@, key));
        state::lemma_is_phi_grows(middle.versions@, after.versions@, inputs, middle.current@[key]);
    }
    assert(branches::merges(before, after, states));
    assert(copies_exits(exits, states));
}

/// The branches of the decisions of a top-level expression, and the numbers of its calls, by
/// occurrence.
pub struct TopExpression {
    pub branches: HashMap<usize, BranchId>,
    pub calls: HashMap<usize, usize>,
}

/// The occurrences differ.
pub open spec fn all_differ(list: Seq<usize>) -> bool {
    forall|i: int, j: int| 0 <= i < j < list.len() ==> (#[trigger] list[i]) != (#[trigger] list[j])
}

/// Numbers the decisions and the calls of a top-level expression in their order. The numbers of its
/// decisions do not depend on where the expression is evaluated.
pub fn number_top_expression(namespace: usize, layout: &ExpressionBranchLayout) -> (r: TopExpression)
    requires
        all_differ(layout.conditionals@),
        all_differ(layout.calls@),
    ensures
        forall|occurrence: usize| #[trigger] r.branches@.contains_key(occurrence) <==> layout.conditionals@.contains(occurrence),
        forall|i: int|
            0 <= i < layout.conditionals@.len() ==> r.branches@[#[trigger] layout.conditionals@[i]] == (BranchId {
                namespace: path::BranchNamespace::Expression(namespace),
                local: i as usize,
                arms: 2,
            }),
        forall|occurrence: usize| #[trigger] r.calls@.contains_key(occurrence) <==> layout.calls@.contains(occurrence),
        forall|i: int| 0 <= i < layout.calls@.len() ==> r.calls@[#[trigger] layout.calls@[i]] == i,
{
    broadcast use vstd::std_specs::hash::group_hash_axioms;

    let mut branches: HashMap<usize, BranchId> = HashMap::new();
    let mut i: usize = 0;
    while i < layout.conditionals.len()
        invariant
            i <= layout.conditionals@.len(),
            all_differ(layout.conditionals@),
            forall|occurrence: usize| #[trigger] branches@.contains_key(occurrence) <==> layout.conditionals@.take(i as int).contains(occurrence),
            forall|k: int|
                0 <= k < i ==> branches@[#[trigger] layout.conditionals@[k]] == (BranchId {
                    namespace: path::BranchNamespace::Expression(namespace),
                    local: k as usize,
                    arms: 2,
                }),
        decreases layout.conditionals@.len() - i,
    {
        let occurrence: usize = layout.conditionals[i];
        let ghost known = branches@;
        branches.insert(occurrence, BranchId::expression(namespace, i, 2));
        proof {
            assert forall|o: usize| #[trigger] branches@.contains_key(o) <==> layout.conditionals@.take(i + 1).contains(o) by {
                lemma_take_contains(layout.conditionals@, i as int, o);
            }
        }
        i = i + 1;
    }
    assert(layout.conditionals@.take(i as int) =~= layout.conditionals@);
    let mut calls: HashMap<usize, usize> = HashMap::new();
    let mut j: usize = 0;
    while j < layout.calls.len()
        invariant
            j <= layout.calls@.len(),
            all_differ(layout.calls@),
            forall|occurrence: usize| #[trigger] calls@.contains_key(occurrence) <==> layout.calls@.take(j as int).contains(occurrence),
            forall|k: int| 0 <= k < j ==> calls@[#[trigger] layout.calls@[k]] == k,
        decreases layout.calls@.len() - j,
    {
        calls.insert(layout.calls[j], j);
        proof {
            assert forall|o: usize| #[trigger] calls@.contains_key(o) <==> layout.calls@.take(j + 1).contains(o) by {
                lemma_take_contains(layout.calls@, j as int, o);
            }
        }
        j = j + 1;
    }
    assert(layout.calls@.take(j as int) =~= layout.calls@);
    TopExpression { branches, calls }
}

proof fn lemma_take_contains(list: Seq<usize>, i: int, x: usize)
    requires
        0 <= i < list.len(),
    ensures
        list.take(i + 1).contains(x) <==> list.take(i).contains(x) || x == list[i],
{
    let taken = list.take(i);
    let longer = list.take(i + 1);
    assert(longer[i] == list[i]);
    if taken.contains(x) {
        let k = choose|k: int| 0 <= k < taken.len() && taken[k] == x;
        assert(longer[k] == x);
    }
    if longer.contains(x) {
        let k = choose|k: int| 0 <= k < longer.len() && longer[k] == x;
        if k < i {
            assert(taken[k] == x);
        }
    }
}


/// A body is left: the end of its statements counts as an exit where it is reached; the changes are
/// taken back, and those at the exits come together.
pub open spec fn body_left(
    before: SsaStore,
    marked: SsaStore,
    closed: SsaStore,
    rolled: SsaStore,
    after: SsaStore,
    revision: StateRevision,
    depth: int,
    falls: bool,
    exits: BranchState,
) -> bool {
    &&& if falls {
        crate::exits::exit_marked(before, marked, revision.id)
    } else {
        marked == before
    }
    &&& closed.finishes(marked, revision, exits)
    &&& ssa::scope_closed(closed, rolled)
    &&& rolled.current@ == before.saved(depth)
    &&& writes::continues(rolled, after)
    &&& branches::merges(rolled, after, seq![exits])
}

/// Leaves the body of a function whose exits were recorded; `falls` says that its end is reached.
pub fn leave_function_body(store: &mut SsaStore, revision: StateRevision, checkpoint: Checkpoint, falls: bool)
    requires
        old(store).wf(),
        old(store).open_revision(revision),
        old(store).open_checkpoint(checkpoint),
        checkpoint.depth + 1 == old(store).checkpoints@.len(),
    ensures
        final(store).wf(),
        ssa::versions_grow(old(store).versions@, final(store).versions@),
        final(store).graphs == old(store).graphs,
        final(store).imports == old(store).imports,
        final(store).checkpoints@ == old(store).checkpoints@.drop_last(),
        forall|depth: int| 0 <= depth < final(store).checkpoints@.len() ==> #[trigger] final(store).saved(depth) == old(store).saved(depth),
        final(store).active_revisions@ == old(store).active_revisions@.drop_last(),
        final(store).next_revision_id == old(store).next_revision_id,
        final(store).active_revisions@.len() > 0 ==> old(store).revision_events@.len() <= final(store).revision_events@.len(),
        exists|marked: SsaStore, closed: SsaStore, rolled: SsaStore, exits: BranchState| #[trigger]
            body_left(*old(store), marked, closed, rolled, *final(store), revision, checkpoint.depth as int, falls, exits),
        ssa::keeps_guards(*old(store), *final(store)),
{
    let ghost before = *store;
    if falls {
        proof {
            assert(store.active_revisions@[store.active_revisions@.len() - 1] == revision.id);
            assert(store.active_revisions@.contains(revision.id));
        }
        store.record_state_revision_exit(revision);
    }
    let ghost marked = *store;
    let exits = store.finish_optional_state_revision(revision);
    let ghost closed = *store;
    proof {
        lemma_saved_same(before, marked, checkpoint.depth as int);
        lemma_saved_same(marked, closed, checkpoint.depth as int);
        assert forall|k: int| 0 <= k < exits.bindings@.len() implies (#[trigger] exits.bindings@[k]).version < closed.versions@.len() by {
            let binding = exits.bindings@[k];
            assert(ssa::bound(exits.bindings@, binding.key, binding.version));
        }
    }
    let _ = store.capture_and_rollback(checkpoint);
    let ghost rolled = *store;
    let mut states: Vec<BranchState> = Vec::new();
    states.push(exits);
    store.merge(&states);
    proof {
        assert(states@ =~= seq![exits]);
        assert(branches::merges(rolled, *store, states@));
        assert(body_left(before, marked, closed, rolled, *store, revision, checkpoint.depth as int, falls, exits));
    }
}

/// What a checkpoint would restore depends on the bindings and on what was changed since only.
proof fn lemma_saved_same(a: SsaStore, b: SsaStore, depth: int)
    requires
        b.current@ == a.current@,
        b.undo@ == a.undo@,
        b.checkpoints@ == a.checkpoints@,
    ensures
        b.saved(depth) == a.saved(depth),
{
}

} // verus!
