//! Loops whose iterations are not known: one iteration is evaluated, and repeated any number of times.
use vstd::prelude::*;
use crate::arena;
use crate::arena::{PathArena, PathCondition, PathNode};
use crate::branches;
use crate::branches::copy_state;
use crate::exits;
use crate::exits::{lift_runtime_loop_exits, ReturnCapture};
use crate::flow;
use crate::flow::{FlowArm, FlowPredicate, FlowStore, FlowTree, Plan, PredicateView, ProcedureFlow};
use crate::lift;
use crate::lift::ExitState;
use crate::machine;
use crate::path::BranchId;
use crate::repeated;
use crate::repeated::RepeatedTransfer;
use crate::results;
use crate::sequence;
use crate::sequence::{continuation_tokens, LoopLeft};
use crate::ssa;
use crate::ssa::{BranchState, Checkpoint, SsaStore, StateRevision};
use crate::state;
use crate::writes;

verus! {

/// The repeated iteration was applied.
pub open spec fn transfer_applied(before: SsaStore, after: SsaStore, transfer: RepeatedTransfer, may_skip: bool) -> bool {
    &&& ssa::versions_grow(before.versions@, after.versions@)
    &&& forall|i: int|
        0 <= i < transfer.entries@.len() ==> after.current@.contains_key((#[trigger] transfer.entries@[i]).key) && lift::transferred(
            after.versions@,
            transfer.entries@[i],
            may_skip,
            after.current@[transfer.entries@[i].key],
        )
    &&& forall|key: u64| !transfers(transfer, key) ==> #[trigger] ssa::binding_of(after.current@, key) == ssa::binding_of(before.current@, key)
}

pub open spec fn transfers(transfer: RepeatedTransfer, key: u64) -> bool {
    exists|i: int| 0 <= i < transfer.entries@.len() && (#[trigger] transfer.entries@[i]).key == key
}

/// The way out at the end of an iteration: what any number of iterations changes, where an iteration
/// can end; nothing, where there may be no iteration.
pub open spec fn is_normal_exit(
    before: SsaStore,
    applied: SsaStore,
    transfer: RepeatedTransfer,
    continues: bool,
    may_skip: bool,
    exit: Option<BranchState>,
) -> bool {
    if continues {
        transfer_applied(before, applied, transfer, may_skip) && (exit matches Some(state) && state::lists_changes(
            state.bindings@,
            applied.current@,
            before.current@,
        ))
    } else if may_skip {
        exit matches Some(state) && state.bindings@.len() == 0
    } else {
        exit is None
    }
}

/// What any number of iterations changes.
pub fn capture_runtime_normal_exit(store: &mut SsaStore, transfer: &RepeatedTransfer, continues: bool, may_skip: bool) -> (r: Option<BranchState>)
    requires
        old(store).wf(),
        repeated::transfer_below(*transfer, old(store).versions@.len() as int),
    ensures
        final(store).wf(),
        writes::continues(*old(store), *final(store)),
        final(store).current@ == old(store).current@,
        exists|applied: SsaStore| #[trigger] is_normal_exit(*old(store), applied, *transfer, continues, may_skip, r) && (continues ==> final(store).versions@
            == applied.versions@),
        r matches Some(state) ==> state.wf() && forall|k: int|
            0 <= k < state.bindings@.len() ==> (#[trigger] state.bindings@[k]).version < final(store).versions@.len(),
        forall|nodes: Seq<PathNode>| #[trigger] old(store).guards_in(nodes) && nodes.len() > 0 ==> final(store).guards_in(nodes),
{
    let ghost before = *store;
    if !continues {
        proof {
            assert(writes::continues(before, *store)) by {
                assert forall|depth: int| 0 <= depth < before.checkpoints@.len() implies #[trigger] store.saved(depth) == before.saved(depth) by {}
            }
        }
        if may_skip {
            let state = BranchState::empty();
            assert(is_normal_exit(before, before, *transfer, continues, may_skip, Some(state)));
            return Some(state);
        }
        assert(is_normal_exit(before, before, *transfer, continues, may_skip, None));
        return None;
    }
    let checkpoint = store.checkpoint();
    let ghost opened = *store;
    store.apply_repeated_transfer(transfer, may_skip);
    let ghost applied = *store;
    proof {
        assert(applied.open_checkpoint(checkpoint));
        assert forall|key: u64| !transfers(*transfer, key) implies #[trigger] ssa::binding_of(applied.current@, key) == ssa::binding_of(before.current@, key) by {
            assert forall|i: int| 0 <= i < transfer.entries@.len() implies (#[trigger] transfer.entries@[i]).key != key by {}
        }
    }
    let state = store.capture_and_rollback(checkpoint);
    proof {
        assert(applied.saved(checkpoint.depth as int) == opened.saved(checkpoint.depth as int));
        assert(store.checkpoints@ =~= before.checkpoints@);
        assert forall|depth: int| 0 <= depth < before.checkpoints@.len() implies #[trigger] store.saved(depth) == before.saved(depth) by {
            assert(applied.saved(depth) == opened.saved(depth));
        }
        ssa::records_is_transitive(before, opened, applied);
        ssa::records_is_transitive(before, applied, *store);
        assert(writes::continues(before, *store));
        assert(transfer_applied(before, applied, *transfer, may_skip));
        assert(is_normal_exit(before, applied, *transfer, continues, may_skip, Some(state)));
    }
    Some(state)
}

/// One evaluated iteration of a loop.
pub struct RuntimeLoopBody {
    pub tree: FlowTree,
    /// What the iteration changed, where it can end; nothing where it cannot.
    pub continuing: BranchState,
    /// The ways out in the iteration.
    pub breaks: Vec<ExitState>,
    /// The way out by its returns.
    pub returned: Option<ExitState>,
}

/// The decision whether there is an iteration at all.
pub struct MaySkip {
    pub branch: BranchId,
    pub identity: u64,
    pub controls: Vec<usize>,
}

/// The states of the ways out.
pub open spec fn exit_states(exits: Seq<ExitState>, normal: Option<BranchState>, states: Seq<BranchState>) -> bool {
    &&& states.len() == exits.len() + (if normal is Some {
        1int
    } else {
        0int
    })
    &&& forall|i: int| 0 <= i < exits.len() ==> (#[trigger] states[i]).bindings@ == exits[i].state.bindings@
    &&& normal matches Some(state) ==> states.last().bindings@ == state.bindings@
}

/// The ways out of the iteration are lifted to any number of iterations.
pub open spec fn exits_lifted(prepared: SsaStore, lifted: SsaStore, transfer: RepeatedTransfer, given: Seq<ExitState>, exits: Seq<ExitState>) -> bool {
    &&& lift::extends(prepared, lifted)
    &&& exits.len() == given.len()
    &&& given.len() > 0 ==> exists|substitutions: Map<usize, usize>, mapped: Map<usize, usize>| #[trigger]
        lift::lifts_all(lifted, transfer, given, exits, substitutions, mapped)
}

/// The steps on the way out of a loop whose iterations are not known.
pub open spec fn runtime_steps(
    before: SsaStore,
    prepared: SsaStore,
    transfer: RepeatedTransfer,
    noted: SsaStore,
    exits: Seq<ExitState>,
    applied: SsaStore,
    normal: Option<BranchState>,
    back: SsaStore,
    states: Seq<BranchState>,
    merged: SsaStore,
    body: RuntimeLoopBody,
    captures: Seq<Option<ReturnCapture>>,
    after: Seq<Option<ReturnCapture>>,
    function: Option<StateRevision>,
    continues: bool,
    may_skip: bool,
) -> bool {
    &&& ssa::same_state(before, prepared)
    &&& repeated::closes(prepared, body.continuing.bindings@, transfer)
    &&& exists|lifted: SsaStore, lifted_return: Option<ExitState>| #[trigger]
        exits::exits_left(
            prepared,
            lifted,
            noted,
            transfer,
            body.breaks@,
            body.returned,
            exits,
            lifted_return,
            captures,
            after,
            function,
        )
    &&& is_normal_exit(noted, applied, transfer, continues, may_skip, normal)
    &&& writes::continues(noted, back)
    &&& back.current@ == noted.current@
    &&& exit_states(exits, normal, states)
    &&& writes::continues(back, merged)
    &&& branches::merges(back, merged, states)
}

/// The plan behind the loop: breaks continue there; where there may be no iteration, that is decided
/// first.
pub open spec fn is_runtime_plan(plan: Plan, body: Plan, skip: Option<PredicateView>) -> bool {
    match skip {
        None => plan == sequence::left_plan(body),
        Some(predicate) => plan matches Plan::Decision(view, arms) && view == predicate && arms.len() == 2 && arms[0].plan == Plan::Outcome(
            ProcedureFlow::Continue,
        ) && arms[1].plan == sequence::left_plan(body),
    }
}

pub open spec fn skip_view(skip: Option<MaySkip>) -> Option<PredicateView> {
    match skip {
        Some(skip) => Some(PredicateView { identity: skip.identity, controls: skip.controls@ }),
        None => None,
    }
}

/// Leaves a loop whose iterations are not known, from the state before it.
pub fn leave_runtime_loop(
    store: &mut SsaStore,
    flows: &mut FlowStore,
    arena: &mut PathArena,
    checkpoint: Checkpoint,
    body: RuntimeLoopBody,
    captures: &mut Vec<Option<ReturnCapture>>,
    function: Option<StateRevision>,
    skip: Option<MaySkip>,
    parent: PathCondition,
) -> (r: LoopLeft)
    requires
        results::tied(*old(store), *old(arena)),
        old(flows).wf(),
        old(flows).holds(body.tree),
        old(flows).held_by(*old(arena)),
        old(arena).holds(parent),
        body.continuing.wf(),
        forall|k: int| 0 <= k < body.continuing.bindings@.len() ==> (#[trigger] body.continuing.bindings@[k]).version < old(store).versions@.len(),
        forall|e: int|
            0 <= e < body.breaks@.len() ==> lift::exit_below(#[trigger] body.breaks@[e], old(store).versions@.len() as int) && body.breaks@[e].condition.node
                < old(arena)@.len(),
        body.returned matches Some(exit) ==> lift::exit_below(exit, old(store).versions@.len() as int) && exit.condition.node < old(arena)@.len(),
        exits::recordings_open(*old(store), old(captures)@, function),
        skip matches Some(skip) ==> skip.branch.arms == 2,
        forall|paths: Seq<PathNode>, plan: Plan| #[trigger]
            arena::grows(old(arena)@, paths) && is_runtime_plan(plan, old(flows).plan(body.tree), skip_view(skip)) ==> #[trigger] sequence::controls_known(
                *old(store),
                paths,
                plan,
            ),
    ensures
        results::tied(*final(store), *final(arena)),
        arena::grows(old(arena)@, final(arena)@),
        ssa::versions_grow(old(store).versions@, final(store).versions@),
        machine::goes_on(*old(store), *final(store)),
        match body.returned {
            Some(exit) => exits::captures_grow(old(captures)@, final(captures)@, exit.condition),
            None => final(captures)@ == old(captures)@,
        },
        sequence::all_below(r.controls@, final(store).versions@.len() as int),
        final(flows).wf(),
        final(flows).held_by(*final(arena)),
        flow::extends(old(flows).trees@, final(flows).trees@),
        final(flows).holds(r.tree),
        is_runtime_plan(final(flows).plan(r.tree), old(flows).plan(body.tree), skip_view(skip)),
        r.condition == parent,
        left_runtime(
            *old(store),
            *final(store),
            body,
            old(captures)@,
            final(captures)@,
            function,
            flow::can_end(old(flows).plan(body.tree), ProcedureFlow::Continue),
            skip is Some,
        ),
        exists|paths: Seq<PathNode>| #[trigger]
            sequence::tokens_of(final(store).versions@, paths, final(arena)@, final(flows).plan(r.tree), r.controls@) && arena::grows(old(arena)@, paths),
{
    let ghost before = *store;
    let ghost paths = arena@;
    let ghost first = *arena;
    let ghost known_flows = *flows;
    let ghost view = skip_view(skip);
    let ghost given_captures = captures@;
    let may_skip = skip.is_some();
    let continues = flows.contains(body.tree, ProcedureFlow::Continue);
    let transfer = store.prepare_repeated_transfer(&body.continuing, checkpoint);
    let ghost prepared = *store;
    proof {
        assert forall|e: int| 0 <= e < body.breaks@.len() implies lift::exit_below(#[trigger] body.breaks@[e], prepared.versions@.len() as int) by {
            assert(lift::exit_below(body.breaks@[e], before.versions@.len() as int));
        }
        assert(prepared.guards_in(paths));
        assert(exits::recordings_open(prepared, captures@, function));
    }
    let exits = lift_runtime_loop_exits(store, &transfer, body.breaks, body.returned, captures, function);
    let ghost noted = *store;
    proof {
        assert(noted.guards_in(paths)) by {
            assert forall|e: int| 0 <= e < body.breaks@.len() implies (#[trigger] body.breaks@[e]).condition.node < paths.len() by {
                assert(lift::exit_below(body.breaks@[e], before.versions@.len() as int));
            }
        }
        repeated_below_grows(transfer, prepared.versions@.len() as int, noted.versions@.len() as int);
    }
    let normal = capture_runtime_normal_exit(store, &transfer, continues, may_skip);
    let ghost back = *store;
    let ghost applied = choose|applied: SsaStore| #[trigger] is_normal_exit(noted, applied, transfer, continues, may_skip, normal) && (continues ==> back.versions@
        == applied.versions@);
    let mut states: Vec<BranchState> = Vec::new();
    let mut i: usize = 0;
    while i < exits.len()
        invariant
            i <= exits@.len(),
            noted.versions@.len() <= back.versions@.len(),
            forall|e: int| 0 <= e < exits@.len() ==> lift::exit_below(#[trigger] exits@[e], noted.versions@.len() as int),
            states@.len() == i,
            forall|k: int| 0 <= k < i ==> (#[trigger] states@[k]).bindings@ == exits@[k].state.bindings@ && states@[k].wf(),
            forall|m: int, k: int| 0 <= m < i && 0 <= k < states@[m].bindings@.len() ==> (#[trigger] states@[m].bindings@[k]).version < back.versions@.len(),
        decreases exits@.len() - i,
    {
        let ghost known = states@;
        assert(lift::exit_below(exits@[i as int], noted.versions@.len() as int));
        states.push(copy_state(&exits[i].state));
        proof {
            assert forall|m: int, k: int| 0 <= m < i + 1 && 0 <= k < states@[m].bindings@.len() implies (#[trigger] states@[m].bindings@[k]).version
                < back.versions@.len() by {
                if m < i {
                    assert(states@[m] == known[m]);
                    assert(known[m].bindings@[k].version < back.versions@.len());
                } else {
                    assert(exits@[i as int].state.bindings@[k].version < noted.versions@.len());
                }
            }
        }
        i = i + 1;
    }
    let ghost broken = states@;
    if let Some(state) = &normal {
        states.push(copy_state(state));
    }
    proof {
        assert forall|m: int, k: int| 0 <= m < states@.len() && 0 <= k < states@[m].bindings@.len() implies (#[trigger] states@[m].bindings@[k]).version
            < back.versions@.len() by {
            if m < broken.len() {
                assert(states@[m] == broken[m]);
                assert(broken[m].bindings@[k].version < back.versions@.len());
            } else {
                assert((normal->0).bindings@[k].version < back.versions@.len());
            }
        }
        assert forall|m: int| 0 <= m < states@.len() implies (#[trigger] states@[m]).wf() by {
            if m < broken.len() {
                assert(states@[m] == broken[m]);
            }
        }
        assert forall|e: int| 0 <= e < exits@.len() implies (#[trigger] states@[e]).bindings@ == exits@[e].state.bindings@ by {
            assert(states@[e] == broken[e]);
        }
        assert(exit_states(exits@, normal, states@));
    }
    store.merge(&states);
    let ghost merged = *store;
    proof {
        assert(merged.guards_in(paths));
        assert(branches::merges(back, merged, states@));
        assert(runtime_steps(
            before,
            prepared,
            transfer,
            noted,
            exits@,
            applied,
            normal,
            back,
            states@,
            merged,
            body,
            given_captures,
            captures@,
            function,
            continues,
            may_skip,
        ));
    }
    let mut tree = flows.leave_loop(body.tree);
    let ghost left_flows = *flows;
    assert(flows.held_by(first));
    if let Some(skip) = skip {
        let zero = flows.outcome(ProcedureFlow::Continue);
        let ghost two = *flows;
        proof {
            flow::growth_keeps_plans(left_flows.trees@, two.trees@, tree.index as int);
            assert(two.held_by(first));
        }
        let none = arena.with_choice(parent, skip.branch, 0);
        let ghost middle = arena@;
        let some = arena.with_choice(parent, skip.branch, 1);
        let mut arms: Vec<FlowArm> = Vec::new();
        arms.push(FlowArm { condition: none, tree: zero });
        arms.push(FlowArm { condition: some, tree });
        let predicate = FlowPredicate { identity: skip.identity, controls: skip.controls };
        proof {
            arena::growth_is_transitive(paths, middle, arena@);
            branches::lemma_held_grows(two, first, *arena);
        }
        tree = flows.decision(predicate, arms);
        proof {
            assert(flows.held_by(*arena));
            assert forall|t: int| 0 <= t < known_flows.trees@.len() implies #[trigger] known_flows.trees@[t] == flows.trees@[t] by {
                assert(known_flows.trees@[t] == left_flows.trees@[t]);
                assert(left_flows.trees@[t] == two.trees@[t]);
            }
        }
    }
    let ghost between = arena@;
    let ghost split = *arena;
    proof {
        assert(arena::grows(paths, between));
        assert(is_runtime_plan(flows.plan(tree), known_flows.plan(body.tree), view));
        assert(sequence::controls_known(before, between, flows.plan(tree)));
        sequence::lemma_known_grows(before, merged, between, flows.plan(tree));
        ssa::store_survives_growth(*store, paths, between);
    }
    let controls = continuation_tokens(store, flows, arena, tree);
    let r = LoopLeft { tree, condition: parent, controls };
    proof {
        branches::lemma_held_grows(*flows, split, *arena);
        arena::growth_is_transitive(paths, between, arena@);
        assert(sequence::tokens_of(store.versions@, between, arena@, flows.plan(r.tree), r.controls@));
        assert forall|v: int| 0 <= v < before.versions@.len() implies #[trigger] before.versions@[v] == store.versions@[v] by {
            assert(before.versions@[v] == prepared.versions@[v]);
            assert(prepared.versions@[v] == noted.versions@[v]);
            assert(noted.versions@[v] == back.versions@[v]);
            assert(back.versions@[v] == merged.versions@[v]);
        }
        assert(writes::continues(merged, *store) && store.current@ == merged.current@);
        assert(ends_with(merged, *store));
        machine::lemma_same_goes_on(before, prepared);
        machine::lemma_goes_on_twice(before, prepared, noted);
        machine::lemma_continues_goes_on(noted, back);
        machine::lemma_goes_on_twice(before, noted, back);
        machine::lemma_continues_goes_on(back, merged);
        machine::lemma_goes_on_twice(before, back, merged);
        machine::lemma_continues_goes_on(merged, *store);
        machine::lemma_goes_on_twice(before, merged, *store);
        assert(left_runtime(before, *store, body, given_captures, captures@, function, continues, may_skip));
    }
    r
}

/// Only versions were added.
pub open spec fn ends_with(merged: SsaStore, after: SsaStore) -> bool {
    writes::continues(merged, after) && after.current@ == merged.current@
}

/// The loop is left in the steps of a loop whose iterations are not known.
pub open spec fn left_runtime(
    before: SsaStore,
    after: SsaStore,
    body: RuntimeLoopBody,
    captures: Seq<Option<ReturnCapture>>,
    captured: Seq<Option<ReturnCapture>>,
    function: Option<StateRevision>,
    continues: bool,
    may_skip: bool,
) -> bool {
    exists|
        prepared: SsaStore,
        transfer: RepeatedTransfer,
        noted: SsaStore,
        exits: Seq<ExitState>,
        applied: SsaStore,
        normal: Option<BranchState>,
        back: SsaStore,
        states: Seq<BranchState>,
        merged: SsaStore,
    | #[trigger]
        runtime_steps(
            before,
            prepared,
            transfer,
            noted,
            exits,
            applied,
            normal,
            back,
            states,
            merged,
            body,
            captures,
            captured,
            function,
            continues,
            may_skip,
        ) && ends_with(
            merged,
            after,
        )
}

proof fn repeated_below_grows(transfer: RepeatedTransfer, a: int, b: int)
    requires
        repeated::transfer_below(transfer, a),
        a <= b,
    ensures
        repeated::transfer_below(transfer, b),
{
}

} // verus!
