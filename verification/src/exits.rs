//! Returns: the state at each is one of the exits of a function, or of a loop on the way out.
use vstd::prelude::*;
use crate::arena;
use crate::arena::{PathArena, PathCondition, PathNode};
use crate::branches;
use crate::flow;
use crate::flow::{FlowStore, FlowTree, ProcedureFlow};
use crate::lift;
use crate::lift::ExitState;
use crate::machine;
use crate::path;
use crate::path::BranchId;
use crate::remap;
use crate::repeated;
use crate::repeated::RepeatedTransfer;
use crate::results;
use crate::runtime;
use crate::ssa;
use crate::ssa::{BranchState, Checkpoint, SsaStore, StateRevision, StateRevisionEvent};
use crate::state;

verus! {

/// The returns in the body of a loop whose iterations are not known.
pub struct ReturnCapture {
    pub revision: StateRevision,
    /// When the body returns, one condition for each return.
    pub conditions: Vec<PathCondition>,
}

/// The loop at the place is the innermost one that captures returns.
pub open spec fn capturing(captures: Seq<Option<ReturnCapture>>, at: int) -> bool {
    0 <= at < captures.len() && captures[at] is Some && forall|k: int| at < k < captures.len() ==> (#[trigger] captures[k]) is None
}

/// No loop captures returns.
pub open spec fn none_captures(captures: Seq<Option<ReturnCapture>>) -> bool {
    forall|k: int| 0 <= k < captures.len() ==> (#[trigger] captures[k]) is None
}

/// The current state was marked as an exit of the recording; nothing else has changed.
pub open spec fn exit_marked(before: SsaStore, after: SsaStore, id: usize) -> bool {
    &&& after.revision_events@ == before.revision_events@.push(StateRevisionEvent::Exit(id))
    &&& ssa::same_versions(before, after)
    &&& after.current == before.current
    &&& after.undo == before.undo
    &&& after.checkpoints == before.checkpoints
    &&& after.active_revisions == before.active_revisions
    &&& after.next_revision_id == before.next_revision_id
}

/// The return was noted: in the innermost loop that captures returns, with its condition; else in
/// the function; else nowhere.
pub open spec fn return_marked(
    before: SsaStore,
    after: SsaStore,
    captures: Seq<Option<ReturnCapture>>,
    noted: Seq<Option<ReturnCapture>>,
    function: Option<StateRevision>,
    condition: PathCondition,
) -> bool {
    &&& noted.len() == captures.len()
    &&& forall|at: int| #[trigger] capturing(captures, at) ==> {
        &&& exit_marked(before, after, (captures[at]->0).revision.id)
        &&& (noted[at] matches Some(capture) && capture.revision == (captures[at]->0).revision && capture.conditions@
            == (captures[at]->0).conditions@.push(condition))
        &&& forall|k: int| 0 <= k < captures.len() && k != at ==> (#[trigger] noted[k]) == captures[k]
    }
    &&& none_captures(captures) ==> noted == captures && (match function {
        Some(revision) => exit_marked(before, after, revision.id),
        None => after == before,
    })
}

/// The loops capture returns where they did, and have no returns but those that they had and one under
/// the condition.
pub open spec fn captures_grow(before: Seq<Option<ReturnCapture>>, after: Seq<Option<ReturnCapture>>, condition: PathCondition) -> bool {
    after.len() == before.len() && forall|l: int| 0 <= l < before.len() ==> capture_grows(#[trigger] before[l], after[l], condition)
}

pub open spec fn capture_grows(before: Option<ReturnCapture>, after: Option<ReturnCapture>, condition: PathCondition) -> bool {
    match before {
        None => after is None,
        Some(capture) => after matches Some(now) && now.revision == capture.revision && forall|i: int|
            0 <= i < now.conditions@.len() ==> (#[trigger] now.conditions@[i]) == condition || capture.conditions@.contains(now.conditions@[i]),
    }
}

proof fn lemma_captures_grow(
    before: SsaStore,
    after: SsaStore,
    captures: Seq<Option<ReturnCapture>>,
    noted: Seq<Option<ReturnCapture>>,
    function: Option<StateRevision>,
    condition: PathCondition,
)
    requires
        return_marked(before, after, captures, noted, function, condition),
    ensures
        captures_grow(captures, noted, condition),
{
    assert forall|l: int| 0 <= l < captures.len() implies capture_grows(#[trigger] captures[l], noted[l], condition) by {
        if !none_captures(captures) {
            let at = lemma_innermost(captures, captures.len() as int);
            assert(capturing(captures, at));
            if l != at {
                assert(noted[l] == captures[l]);
                lemma_capture_same(captures[l], condition);
            } else {
                let now = noted[l]->0;
                let was = captures[l]->0;
                assert forall|i: int| 0 <= i < now.conditions@.len() implies (#[trigger] now.conditions@[i]) == condition || was.conditions@.contains(now.conditions@[i]) by {
                    if i < was.conditions@.len() {
                        assert(was.conditions@[i] == now.conditions@[i]);
                    }
                }
            }
        } else {
            lemma_capture_same(captures[l], condition);
        }
    }
}

proof fn lemma_capture_same(capture: Option<ReturnCapture>, condition: PathCondition)
    ensures
        capture_grows(capture, capture, condition),
{
    if let Some(now) = capture {
        assert forall|i: int| 0 <= i < now.conditions@.len() implies (#[trigger] now.conditions@[i]) == condition || now.conditions@.contains(now.conditions@[i]) by {}
    }
}

/// All recordings that a return may be noted in are open.
pub open spec fn recordings_open(store: SsaStore, captures: Seq<Option<ReturnCapture>>, function: Option<StateRevision>) -> bool {
    &&& forall|k: int|
        0 <= k < captures.len() && (#[trigger] captures[k]) is Some ==> store.active_revisions@.contains((captures[k]->0).revision.id)
    &&& function matches Some(revision) ==> store.active_revisions@.contains(revision.id)
}

/// Notes the current state as one at which the function returns.
pub fn record_return_marker(
    store: &mut SsaStore,
    captures: &mut Vec<Option<ReturnCapture>>,
    function: Option<StateRevision>,
    condition: PathCondition,
)
    requires
        old(store).wf(),
        recordings_open(*old(store), old(captures)@, function),
    ensures
        final(store).wf(),
        return_marked(*old(store), *final(store), old(captures)@, final(captures)@, function, condition),
        ssa::keeps_guards(*old(store), *final(store)),
{
    let ghost before = *store;
    let ghost given = captures@;
    let mut at: usize = captures.len();
    while at > 0
        invariant
            before == *old(store),
            given == old(captures)@,
            *store == before,
            before.wf(),
            captures@ == given,
            at <= captures@.len(),
            recordings_open(before, given, function),
            forall|k: int| at <= k < captures@.len() ==> (#[trigger] captures@[k]) is None,
        ensures
            at == 0,
        decreases at,
    {
        at = at - 1;
        if captures[at].is_some() {
            let mut taken: Option<ReturnCapture> = None;
            assert(given[at as int] is Some);
            std::mem::swap(&mut taken, &mut captures[at]);
            if let Some(mut capture) = taken {
                store.record_state_revision_exit(capture.revision);
                capture.conditions.push(condition);
                captures.set(at, Some(capture));
                proof {
                    assert forall|other: int| #[trigger] capturing(given, other) implies other == at by {
                        if other < at {
                            assert(given[at as int] is None);
                        }
                    }
                    assert(capturing(given, at as int));
                    assert(!none_captures(given));
                    assert(return_marked(before, *store, given, captures@, function, condition));
                }
            }
            return;
        }
    }
    proof {
        assert(none_captures(given));
        assert forall|other: int| !#[trigger] capturing(given, other) by {}
    }
    if let Some(revision) = function {
        store.record_state_revision_exit(revision);
    }
}


/// A return was noted from a state that was merged for it, and then taken back.
pub open spec fn return_deferred(
    before: SsaStore,
    opened: SsaStore,
    merged: SsaStore,
    marked: SsaStore,
    after: SsaStore,
    given: BranchState,
    captures: Seq<Option<ReturnCapture>>,
    noted: Seq<Option<ReturnCapture>>,
    function: Option<StateRevision>,
    condition: PathCondition,
) -> bool {
    &&& ssa::same_versions(before, opened)
    &&& opened.current == before.current
    &&& opened.revision_events == before.revision_events
    &&& branches::merges(opened, merged, seq![given])
    &&& return_marked(merged, marked, captures, noted, function, condition)
    &&& ssa::same_versions(marked, after)
}

/// Notes a return that happened in the given state; the current state stays.
pub fn record_deferred_return(
    store: &mut SsaStore,
    captures: &mut Vec<Option<ReturnCapture>>,
    function: Option<StateRevision>,
    given: BranchState,
    condition: PathCondition,
)
    requires
        old(store).wf(),
        recordings_open(*old(store), old(captures)@, function),
        given.wf(),
        forall|k: int| 0 <= k < given.bindings@.len() ==> (#[trigger] given.bindings@[k]).version < old(store).versions@.len(),
    ensures
        final(store).wf(),
        final(store).current@ == old(store).current@,
        final(store).checkpoints@ == old(store).checkpoints@,
        final(store).active_revisions@ == old(store).active_revisions@,
        ssa::versions_grow(old(store).versions@, final(store).versions@),
        machine::goes_on(*old(store), *final(store)),
        captures_grow(old(captures)@, final(captures)@, condition),
        exists|opened: SsaStore, merged: SsaStore, marked: SsaStore| #[trigger]
            return_deferred(
                *old(store),
                opened,
                merged,
                marked,
                *final(store),
                given,
                old(captures)@,
                final(captures)@,
                function,
                condition,
            ),
        ssa::keeps_guards(*old(store), *final(store)),
{
    let ghost before = *store;
    let ghost known = captures@;
    let checkpoint = store.checkpoint();
    let ghost opened = *store;
    let mut states: Vec<BranchState> = Vec::new();
    states.push(given);
    store.merge(&states);
    let ghost merged = *store;
    proof {
        assert(states@ =~= seq![given]);
        assert(branches::merges(opened, merged, states@));
        assert(merged.active_revisions@ == before.active_revisions@);
        assert(recordings_open(merged, known, function));
    }
    record_return_marker(store, captures, function, condition);
    let ghost marked = *store;
    proof {
        assert(marked.undo == merged.undo && marked.checkpoints == merged.checkpoints && marked.current == merged.current) by {
            lemma_marked_keeps(merged, marked, known, captures@, function, condition);
        }
        assert(marked.saved(checkpoint.depth as int) == merged.saved(checkpoint.depth as int));
        assert(merged.saved(checkpoint.depth as int) == opened.saved(checkpoint.depth as int));
        assert(marked.open_checkpoint(checkpoint)) by {
            lemma_marked_keeps(merged, marked, known, captures@, function, condition);
        }
    }
    let _ = store.capture_and_rollback(checkpoint);
    proof {
        lemma_marked_keeps(merged, marked, known, captures@, function, condition);
        assert(store.checkpoints@ =~= before.checkpoints@);
        lemma_captures_grow(merged, marked, known, captures@, function, condition);
        assert(machine::goes_on(before, *store)) by {
            assert forall|d: int| 0 <= d < before.checkpoints@.len() implies #[trigger] store.saved(d) == before.saved(d) by {
                assert(marked.saved(d) == merged.saved(d));
                assert(merged.saved(d) == opened.saved(d));
            }
        }
        assert(return_deferred(before, opened, merged, marked, *store, given, known, captures@, function, condition));
    }
}

pub proof fn lemma_marked_keeps(
    before: SsaStore,
    after: SsaStore,
    captures: Seq<Option<ReturnCapture>>,
    noted: Seq<Option<ReturnCapture>>,
    function: Option<StateRevision>,
    condition: PathCondition,
)
    requires
        return_marked(before, after, captures, noted, function, condition),
    ensures
        ssa::same_versions(before, after),
        after.undo == before.undo,
        after.checkpoints == before.checkpoints,
        after.current == before.current,
        after.active_revisions == before.active_revisions,
        after.next_revision_id == before.next_revision_id,
        before.revision_events@.len() <= after.revision_events@.len(),
    decreases captures.len(),
{
    if !none_captures(captures) {
        let at = lemma_innermost(captures, captures.len() as int);
        assert(capturing(captures, at));
    }
}

pub proof fn lemma_innermost(captures: Seq<Option<ReturnCapture>>, end: int) -> (at: int)
    requires
        0 <= end <= captures.len(),
        forall|k: int| end <= k < captures.len() ==> (#[trigger] captures[k]) is None,
        !none_captures(captures),
    ensures
        capturing(captures, at),
    decreases end,
{
    if end == 0 {
        assert(none_captures(captures));
        0
    } else if captures[end - 1] is Some {
        end - 1
    } else {
        lemma_innermost(captures, end - 1)
    }
}

/// The body of a loop whose iterations are not known, once it was evaluated.
pub struct CapturedBody {
    /// What an iteration changes, where it can end; nothing where it cannot.
    pub continuing: BranchState,
    /// The state at the returns, and when there is one.
    pub returned: Option<ExitState>,
}

/// The recording of the returns was closed, where there is one.
pub open spec fn returns_closed(before: SsaStore, closed: SsaStore, capture: Option<ReturnCapture>, joined: BranchState) -> bool {
    match capture {
        Some(capture) => closed.finishes(before, capture.revision, joined),
        None => closed == before && joined.bindings@.len() == 0,
    }
}

/// The returns of a body: the joined state, where there is a return, under any of the conditions.
pub open spec fn is_returned(
    first: PathArena,
    last: PathArena,
    capture: Option<ReturnCapture>,
    joined: BranchState,
    returned: Option<ExitState>,
) -> bool {
    match capture {
        Some(capture) => if capture.conditions@.len() == 0 {
            returned is None
        } else {
            returned matches Some(exit) && exit.state == joined && last.holds(exit.condition) && path::path_wf(last.path(exit.condition)) && forall|
                branch: BranchId,
                arm: int,
            |
                0 <= arm < branch.arms ==> (#[trigger] path::allows(last.path(exit.condition), branch, arm) <==> remap::some_allows(
                    first,
                    capture.conditions@,
                    branch,
                    arm,
                ))
        },
        None => returned is None,
    }
}

/// Closes the body of a loop whose iterations are not known: its state is taken back, and what it
/// changed and where it returned is kept.
pub fn close_runtime_body(
    store: &mut SsaStore,
    arena: &mut PathArena,
    flows: &FlowStore,
    tree: FlowTree,
    capture: Option<ReturnCapture>,
    checkpoint: Checkpoint,
) -> (r: CapturedBody)
    requires
        results::tied(*old(store), *old(arena)),
        flows.wf(),
        flows.holds(tree),
        old(store).open_checkpoint(checkpoint),
        checkpoint.depth + 1 == old(store).checkpoints@.len(),
        capture matches Some(capture) ==> old(store).open_revision(capture.revision) && forall|i: int|
            0 <= i < capture.conditions@.len() ==> old(arena).holds(#[trigger] capture.conditions@[i]),
    ensures
        results::tied(*final(store), *final(arena)),
        arena::grows(old(arena)@, final(arena)@),
        ssa::versions_grow(old(store).versions@, final(store).versions@),
        final(store).current@ == old(store).saved(checkpoint.depth as int),
        final(store).checkpoints@ == old(store).checkpoints@.drop_last(),
        final(store).graphs == old(store).graphs,
        forall|d: int| 0 <= d < final(store).checkpoints@.len() ==> #[trigger] final(store).saved(d) == old(store).saved(d),
        final(store).active_revisions@ == (if capture is Some {
            old(store).active_revisions@.drop_last()
        } else {
            old(store).active_revisions@
        }),
        final(store).next_revision_id == old(store).next_revision_id,
        final(store).active_revisions@.len() > 0 ==> old(store).revision_events@.len() <= final(store).revision_events@.len(),
        forall|k: int| 0 <= k < r.continuing.bindings@.len() ==> (#[trigger] r.continuing.bindings@[k]).version < final(store).versions@.len(),
        r.returned matches Some(exit) ==> lift::exit_below(exit, final(store).versions@.len() as int) && exit.condition.node < final(arena)@.len(),
        r.continuing.wf(),
        if flow::can_end(flows.plan(tree), ProcedureFlow::Continue) {
            state::lists_changes(r.continuing.bindings@, old(store).current@, old(store).saved(checkpoint.depth as int))
        } else {
            r.continuing.bindings@.len() == 0
        },
        exists|closed: SsaStore, joined: BranchState| #[trigger]
            returns_closed(*old(store), closed, capture, joined) && ssa::scope_closed(closed, *final(store)) && is_returned(
                *old(arena),
                *final(arena),
                capture,
                joined,
                r.returned,
            ),
{
    let ghost before = *store;
    let ghost first = *arena;
    let continues = flows.contains(tree, ProcedureFlow::Continue);
    let mut returned: Option<ExitState> = None;
    let ghost mut joined = BranchState { bindings: arbitrary() };
    let ghost mut closed = before;
    match capture {
        Some(capture) => {
            let exits = store.finish_optional_state_revision(capture.revision);
            proof {
                joined = exits;
                closed = *store;
            }
            if capture.conditions.len() > 0 {
                let condition = arena.disjoin_all(&capture.conditions);
                returned = Some(ExitState { state: exits, condition });
            }
        },
        None => {
            let empty = BranchState::empty();
            proof {
                joined = empty;
            }
        },
    }
    proof {
        assert(returns_closed(before, closed, capture, joined));
        assert(is_returned(first, *arena, capture, joined, returned));
        assert forall|d: int| 0 <= d < before.checkpoints@.len() implies #[trigger] closed.saved(d) == before.saved(d) by {}
        assert(closed.saved(checkpoint.depth as int) == before.saved(checkpoint.depth as int));
        if capture is Some {
            assert forall|k: int| 0 <= k < joined.bindings@.len() implies (#[trigger] joined.bindings@[k]).version < closed.versions@.len() by {
                let binding = joined.bindings@[k];
                assert(ssa::bound(joined.bindings@, binding.key, binding.version));
            }
        }
    }
    let body = store.capture_and_rollback(checkpoint);
    let continuing = if continues {
        body
    } else {
        BranchState::empty()
    };
    proof {
        assert(store.guards_in(first@));
        ssa::store_survives_growth(*store, first@, arena@);
    }
    CapturedBody { continuing, returned }
}


/// The ways out of an iteration, and last its returns.
pub open spec fn ways_out(breaks: Seq<ExitState>, returned: Option<ExitState>) -> Seq<ExitState> {
    match returned {
        Some(exit) => breaks.push(exit),
        None => breaks,
    }
}

/// The return of an iteration was noted, where there is one, from the state to which it was lifted.
pub open spec fn lifted_return_noted(
    lifted: SsaStore,
    noted: SsaStore,
    returned: Option<ExitState>,
    captures: Seq<Option<ReturnCapture>>,
    after: Seq<Option<ReturnCapture>>,
    function: Option<StateRevision>,
) -> bool {
    match returned {
        Some(exit) => exists|opened: SsaStore, merged: SsaStore, marked: SsaStore| #[trigger]
            return_deferred(lifted, opened, merged, marked, noted, exit.state, captures, after, function, exit.condition),
        None => noted == lifted && after == captures,
    }
}

/// The ways out are lifted to any number of iterations; that of the returns is then noted as a return.
pub open spec fn exits_left(
    before: SsaStore,
    lifted: SsaStore,
    noted: SsaStore,
    transfer: RepeatedTransfer,
    breaks: Seq<ExitState>,
    returned: Option<ExitState>,
    exits: Seq<ExitState>,
    lifted_return: Option<ExitState>,
    captures: Seq<Option<ReturnCapture>>,
    after: Seq<Option<ReturnCapture>>,
    function: Option<StateRevision>,
) -> bool {
    &&& returned is Some <==> lifted_return is Some
    &&& runtime::exits_lifted(before, lifted, transfer, ways_out(breaks, returned), ways_out(exits, lifted_return))
    &&& lifted_return_noted(lifted, noted, lifted_return, captures, after, function)
}

/// Lifts the ways out of an iteration to any number of iterations, and notes its returns.
pub fn lift_runtime_loop_exits(
    store: &mut SsaStore,
    transfer: &RepeatedTransfer,
    breaks: Vec<ExitState>,
    returned: Option<ExitState>,
    captures: &mut Vec<Option<ReturnCapture>>,
    function: Option<StateRevision>,
) -> (r: Vec<ExitState>)
    requires
        old(store).wf(),
        repeated::transfer_below(*transfer, old(store).versions@.len() as int),
        forall|e: int| 0 <= e < breaks@.len() ==> lift::exit_below(#[trigger] breaks@[e], old(store).versions@.len() as int),
        returned matches Some(exit) ==> lift::exit_below(exit, old(store).versions@.len() as int),
        recordings_open(*old(store), old(captures)@, function),
    ensures
        final(store).wf(),
        final(store).current@ == old(store).current@,
        ssa::versions_grow(old(store).versions@, final(store).versions@),
        machine::goes_on(*old(store), *final(store)),
        match returned {
            Some(exit) => captures_grow(old(captures)@, final(captures)@, exit.condition),
            None => final(captures)@ == old(captures)@,
        },
        exists|lifted: SsaStore, lifted_return: Option<ExitState>| #[trigger]
            exits_left(
                *old(store),
                lifted,
                *final(store),
                *transfer,
                breaks@,
                returned,
                r@,
                lifted_return,
                old(captures)@,
                final(captures)@,
                function,
            ),
        r@.len() == breaks@.len(),
        forall|e: int| 0 <= e < r@.len() ==> lift::exit_below(#[trigger] r@[e], final(store).versions@.len() as int),
        forall|nodes: Seq<PathNode>| #[trigger]
            old(store).guards_in(nodes) && nodes.len() > 0 && (forall|e: int|
                0 <= e < breaks@.len() ==> (#[trigger] breaks@[e]).condition.node < nodes.len()) && (returned matches Some(exit)
                ==> exit.condition.node < nodes.len()) ==> final(store).guards_in(nodes),
{
    let ghost before = *store;
    let ghost known = captures@;
    let some_return = returned.is_some();
    let mut list = breaks;
    if let Some(exit) = returned {
        list.push(exit);
    }
    let ghost given = list@;
    proof {
        assert(given =~= ways_out(breaks@, returned));
        assert forall|e: int| 0 <= e < list@.len() implies lift::exit_below(#[trigger] list@[e], before.versions@.len() as int) by {
            if e < breaks@.len() {
                assert(list@[e] == breaks@[e]);
            }
        }
    }
    store.lift_repeated_exit_states(transfer, &mut list);
    let ghost lifted = *store;
    let ghost all = list@;
    proof {
        assert(runtime::exits_lifted(before, lifted, *transfer, given, all));
        assert(machine::goes_on(before, lifted)) by {
            assert forall|d: int| 0 <= d < before.checkpoints@.len() implies #[trigger] lifted.saved(d) == before.saved(d) by {}
        }
        if returned is Some {
            assert(given.len() > 0);
            let (substitutions, mapped) = choose|substitutions: Map<usize, usize>, mapped: Map<usize, usize>| #[trigger]
                lift::lifts_all(lifted, *transfer, given, all, substitutions, mapped);
            let last = given.len() - 1;
            assert(lift::exit_lifted(lifted.versions@, mapped, transfer.entries@, given[last], all[last]));
            assert(all[last].condition == (returned->0).condition);
        }
        assert forall|nodes: Seq<PathNode>| #[trigger]
            before.guards_in(nodes) && nodes.len() > 0 && (forall|e: int|
                0 <= e < breaks@.len() ==> (#[trigger] breaks@[e]).condition.node < nodes.len()) && (returned matches Some(exit)
                ==> exit.condition.node < nodes.len()) implies lifted.guards_in(nodes) by {
            assert forall|e: int| 0 <= e < given.len() implies (#[trigger] given[e]).condition.node < nodes.len() by {
                if e < breaks@.len() {
                    assert(given[e] == breaks@[e]);
                }
            }
        }
    }
    if some_return {
        if let Some(exit) = list.pop() {
            let ghost left = exit;
            proof {
                assert(lift::exit_below(all[all.len() - 1], lifted.versions@.len() as int));
                assert(exit == all[all.len() - 1]);
                assert(recordings_open(lifted, known, function));
            }
            record_deferred_return(store, captures, function, exit.state, exit.condition);
            proof {
                machine::lemma_goes_on_twice(before, lifted, *store);
                assert(ways_out(list@, Some(left)) =~= all);
                assert(lifted_return_noted(lifted, *store, Some(left), known, captures@, function));
                assert(exits_left(before, lifted, *store, *transfer, breaks@, returned, list@, Some(left), known, captures@, function));
                assert forall|e: int| 0 <= e < list@.len() implies lift::exit_below(#[trigger] list@[e], store.versions@.len() as int) by {
                    assert(lift::exit_below(all[e], lifted.versions@.len() as int));
                }
            }
        }
    } else {
        proof {
            assert(ways_out(list@, None) =~= all);
            assert(exits_left(before, lifted, *store, *transfer, breaks@, returned, list@, None, known, captures@, function));
        }
    }
    list
}

} // verus!
