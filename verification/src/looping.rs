//! Loops whose iterations are not known: the body is evaluated once, and stands for any of them.
use vstd::prelude::*;
use crate::arena;
use crate::arena::{PathArena, PathCondition, PathNode};
use crate::branches;
use crate::branches::copy_state;
use crate::exits;
use crate::exits::{close_runtime_body, ReturnCapture};
use crate::flow;
use crate::flow::{Plan, ProcedureFlow};
use crate::lift;
use crate::lift::ExitState;
use crate::machine;
use crate::machine::{Evaluated, Machine, OpenLoop};
use crate::path;
use crate::path::{BranchId, Choice};
use crate::results;
use crate::runtime;
use crate::runtime::{leave_runtime_loop, MaySkip, RuntimeLoopBody};
use crate::sequence;
use crate::sequence::FlowState;
use crate::ssa;
use crate::ssa::{BranchState, Checkpoint, SsaStore, StateRevision, Version};
use crate::state;

verus! {

/// What a loop needs when it is left.
pub struct RuntimeLoop {
    pub parent: PathCondition,
    /// The decision whether there is an iteration at all, where it is not sure that there is one.
    pub branch: Option<BranchId>,
    pub checkpoint: Checkpoint,
}

/// The machine behind the number of the decision.
pub open spec fn decided(a: Machine, may_skip: bool) -> Machine {
    if may_skip {
        machine::taken_number(a)
    } else {
        a
    }
}

/// The loop is entered: its body is evaluated where there is an iteration, its changes can be taken
/// back, and its breaks are collected. In a function its returns are recorded apart.
pub open spec fn runtime_opened(a: Machine, b: Machine, may_skip: bool, open: RuntimeLoop) -> bool {
    let t = decided(a, may_skip);
    &&& machine::frame(t, b)
    &&& b.next_branch == t.next_branch
    &&& b.flows == a.flows
    &&& arena::grows(a.arena@, b.arena@)
    &&& open.parent == a.condition
    &&& (open.branch is Some <==> may_skip)
    &&& match open.branch {
        Some(branch) => branch == (BranchId { namespace: path::BranchNamespace::Procedure(a.namespace), local: a.next_branch, arms: 2 }) && forall|c: Choice| #[trigger]
            b.arena.path(b.condition).contains(c) <==> (c.branch == branch && c.allowed == seq![machine::path_run(1)]) || (c.branch != branch && a.arena.path(
                a.condition,
            ).contains(c)),
        None => b.condition == a.condition,
    }
    &&& ssa::same_versions(a.store, b.store)
    &&& b.store.current == a.store.current
    &&& open.checkpoint.depth == a.store.checkpoints@.len()
    &&& b.store.checkpoints@ == a.store.checkpoints@.push(open.checkpoint.undo_start)
    &&& b.store.saved(a.store.checkpoints@.len() as int) == a.store.current@
    &&& ssa::saved_same(a.store, b.store, a.store.checkpoints@.len() as int)
    &&& a.store.active_revisions@.len() > 0 ==> b.store.revision_events@ == a.store.revision_events@
    &&& b.loops@.len() == a.loops@.len() + 1
    &&& b.loops@.drop_last() == a.loops@
    &&& b.loops@.last().checkpoint == open.checkpoint
    &&& b.loops@.last().breaks@.len() == 0
    &&& b.captures@.len() == a.captures@.len() + 1
    &&& b.captures@.drop_last() == a.captures@
    &&& if a.functions@.len() == 0 {
        b.captures@.last() is None && b.store.next_revision_id == a.store.next_revision_id && b.store.active_revisions@ == a.store.active_revisions@
    } else {
        b.captures@.last() matches Some(capture) && capture.conditions@.len() == 0 && capture.revision.id == a.store.next_revision_id && b.store.recorded(
            capture.revision,
        ).len() == 0 && b.store.open_revision(capture.revision) && b.store.next_revision_id == a.store.next_revision_id + 1 && b.store.active_revisions@
            == a.store.active_revisions@.push(capture.revision.id)
    }
}

/// What else holds of an open loop.
pub open spec fn keeps_below(a: Machine, b: Machine) -> bool {
    &&& b.known == a.known
    &&& forall|d: int| 0 <= d < a.store.checkpoints@.len() ==> #[trigger] b.store.saved(d) == a.store.saved(d)
    &&& a.store.active_revisions@.len() > 0 ==> b.store.revision_events@ == a.store.revision_events@
}

/// The ways out by breaks are those that were collected.
pub open spec fn same_exits(breaks: Seq<FlowState>, exits: Seq<ExitState>) -> bool {
    exits.len() == breaks.len() && forall|e: int|
        0 <= e < exits.len() ==> (#[trigger] exits[e]).condition == breaks[e].condition && exits[e].state.bindings@ == breaks[e].state.bindings@
}

/// The body was evaluated up to `n`, and taken back: what it changed and where it was left is in `body`.
pub open spec fn body_taken(n: Machine, e: Evaluated, closed: SsaStore, paths: PathArena, body: RuntimeLoopBody) -> bool {
    let top = n.loops@.last();
    &&& closed.current@ == n.store.saved(top.checkpoint.depth as int)
    &&& closed.checkpoints@ == n.store.checkpoints@.drop_last()
    &&& body.tree == e.tree
    &&& same_exits(top.breaks@, body.breaks@)
    &&& if flow::can_end(n.flows.plan(e.tree), ProcedureFlow::Continue) {
        state::lists_changes(body.continuing.bindings@, n.store.current@, n.store.saved(top.checkpoint.depth as int))
    } else {
        body.continuing.bindings@.len() == 0
    }
    &&& exists|finished: SsaStore, joined: BranchState| #[trigger]
        exits::returns_closed(n.store, finished, n.captures@.last(), joined) && ssa::scope_closed(finished, closed) && exits::is_returned(
            n.arena,
            paths,
            n.captures@.last(),
            joined,
            body.returned,
        )
}

/// The loop is left: `n` is the state behind its body.
pub open spec fn runtime_closed(n: Machine, b: Machine, e: Evaluated, parent: PathCondition, skip: Option<MaySkip>, r: Evaluated) -> bool {
    &&& machine::frame(n, b)
    &&& b.next_branch == n.next_branch
    &&& b.loops@ == n.loops@.drop_last()
    &&& b.condition == parent
    &&& flow::extends(n.flows.trees@, b.flows.trees@)
    &&& runtime::is_runtime_plan(b.flows.plan(r.tree), n.flows.plan(e.tree), runtime::skip_view(skip))
    &&& exists|closed: SsaStore, paths: PathArena, body: RuntimeLoopBody| #[trigger]
        body_taken(n, e, closed, paths, body) && arena::grows(n.arena@, paths@) && runtime::left_runtime(
            closed,
            b.store,
            body,
            n.captures@.drop_last(),
            b.captures@,
            n.recording(),
            flow::can_end(n.flows.plan(e.tree), ProcedureFlow::Continue),
            skip is Some,
        )
    &&& exists|paths: Seq<PathNode>| #[trigger]
        sequence::tokens_of(b.store.versions@, paths, b.arena@, b.flows.plan(r.tree), r.controls@) && arena::grows(n.arena@, paths)
}

impl Machine {
    /// Enters a loop whose iterations are not known.
    pub(crate) fn open_runtime_loop(&mut self, may_skip: bool) -> (r: RuntimeLoop)
        requires
            old(self).wf(),
            old(self).functions@.len() > 0 ==> old(self).store.next_revision_id < usize::MAX,
        ensures
            final(self).wf(),
            runtime_opened(*old(self), *final(self), may_skip, r),
            keeps_below(*old(self), *final(self)),
            final(self).store.open_checkpoint(r.checkpoint),
            final(self).arena.holds(old(self).condition),
    {
        let ghost start = *self;
        let parent = self.condition;
        let mut branch: Option<BranchId> = None;
        if may_skip {
            let number: usize = self.take_number();
            let decision = BranchId::new(self.namespace, number, 2);
            branch = Some(decision);
            self.condition = self.arena.with_choice(parent, decision, 1);
        }
        let ghost chosen = *self;
        proof {
            assert(arena::grows(start.arena@, chosen.arena@));
            assert(chosen.arena.holds(start.condition));
            ssa::store_survives_growth(start.store, start.arena@, chosen.arena@);
            branches::lemma_held_grows(start.flows, start.arena, chosen.arena);
        }
        let checkpoint = self.store.checkpoint();
        let ghost saved = self.store;
        let mut capture: Option<ReturnCapture> = None;
        if self.functions.len() > 0 {
            let revision = self.store.begin_state_revision(checkpoint);
            capture = Some(ReturnCapture { revision, conditions: Vec::new() });
        }
        let ghost captured = capture;
        self.loops.push(OpenLoop { checkpoint, breaks: Vec::new() });
        self.captures.push(capture);
        let r = RuntimeLoop { parent, branch, checkpoint };
        proof {
            let a = start;
            let b = *self;
            assert(b.loops@.drop_last() =~= a.loops@);
            assert(b.captures@.drop_last() =~= a.captures@);
            assert(b.store.guards_in(b.arena@));
            assert forall|d: int| 0 <= d < a.store.checkpoints@.len() implies #[trigger] b.store.saved(d) == a.store.saved(d) by {
                assert(saved.saved(d) == a.store.saved(d));
            }
            let depth = a.store.checkpoints@.len() as int;
            assert(b.store.saved(depth) == saved.saved(depth));
            assert(a.functions@.len() > 0 ==> a.store.active_revisions@.len() > 0) by {
                if a.functions@.len() > 0 {
                    assert(machine::function_wf(a.functions@[0], a.store));
                }
            }
            assert forall|id: usize| a.store.active_revisions@.contains(id) implies b.store.active_revisions@.contains(id) by {
                let q = choose|q: int| 0 <= q < a.store.active_revisions@.len() && a.store.active_revisions@[q] == id;
                assert(b.store.active_revisions@[q] == id);
            }
            assert forall|l: int| 0 <= l < b.loops@.len() implies (#[trigger] b.loops@[l]).wf(b.store, b.arena@) by {
                if l < a.loops@.len() {
                    assert(b.loops@.drop_last()[l] == a.loops@[l]);
                    assert(a.loops@[l].wf(a.store, a.arena@));
                    machine::lemma_loop_wf(a.loops@[l], a.store, b.store, a.arena@, b.arena@);
                }
            }
            assert forall|l: int| 0 <= l < b.captures@.len() implies machine::capture_wf(#[trigger] b.captures@[l], b.store, b.arena@) by {
                if l < a.captures@.len() {
                    assert(b.captures@.drop_last()[l] == a.captures@[l]);
                    assert(machine::capture_wf(a.captures@[l], a.store, a.arena@));
                    if let Some(given) = a.captures@[l] {
                        assert forall|i: int| 0 <= i < given.conditions@.len() implies (#[trigger] given.conditions@[i]).node < b.arena@.len() by {
                            assert(given.conditions@[i].node < a.arena@.len());
                        }
                    }
                } else if captured is Some {
                    assert(b.store.active_revisions@[a.store.active_revisions@.len() as int] == (captured->0).revision.id);
                }
            }
            assert forall|f: int| 0 <= f < b.functions@.len() implies machine::function_wf(#[trigger] b.functions@[f], b.store) by {
                assert(machine::function_wf(a.functions@[f], a.store));
            }
            assert(b.flows.held_by(b.arena));
        }
        r
    }
}

/// The ways out of a loop.
fn exits_of(breaks: &Vec<FlowState>) -> (r: Vec<ExitState>)
    ensures
        same_exits(breaks@, r@),
{
    let mut r: Vec<ExitState> = Vec::new();
    let mut i: usize = 0;
    while i < breaks.len()
        invariant
            i <= breaks@.len(),
            r@.len() == i,
            forall|e: int| 0 <= e < r@.len() ==> (#[trigger] r@[e]).condition == breaks@[e].condition && r@[e].state.bindings@ == breaks@[e].state.bindings@,
        decreases breaks@.len() - i,
    {
        r.push(ExitState { state: copy_state(&breaks[i].state), condition: breaks[i].condition });
        i = i + 1;
    }
    r
}

/// The plan of a loop decides by versions below the limit.
proof fn lemma_runtime_below(plan: Plan, body: Plan, skip: Option<MaySkip>, limit: int)
    requires
        machine::plan_below(body, limit),
        skip matches Some(skip) ==> sequence::all_below(skip.controls@, limit),
        runtime::is_runtime_plan(plan, body, runtime::skip_view(skip)),
    ensures
        machine::plan_below(plan, limit),
{
    machine::lemma_rewritten_below(body, Plan::Outcome(ProcedureFlow::Continue), Plan::Outcome(ProcedureFlow::Continue), limit);
    assert(machine::plan_below(sequence::left_plan(body), limit));
    if let Plan::Decision(view, arms) = plan {
        if skip is Some {
            let one = arms.drop_last();
            assert(one.len() == 1);
            assert(one.last() == arms[0]);
            assert(arms.last() == arms[1]);
            assert(one.drop_last().len() == 0);
            assert(machine::arms_below(one.drop_last(), limit));
            assert(machine::plan_below(one.last().plan, limit));
            assert(machine::arms_below(one, limit));
            assert(machine::arms_below(arms, limit));
        }
    }
}

/// A loop that was entered and left keeps what statements keep.
proof fn lemma_runtime_left(m: Machine, opened: Machine, n: Machine, b: Machine)
    requires
        m.wf(),
        n.wf(),
        opened.kept(n),
        machine::frame(m, opened),
        opened.loops@.len() == m.loops@.len() + 1,
        opened.loops@.drop_last() == m.loops@,
        opened.flows == m.flows,
        opened.next_branch == m.next_branch,
        arena::grows(m.arena@, opened.arena@),
        machine::goes_on(m.store, b.store),
        ssa::versions_grow(n.store.versions@, b.store.versions@),
        n.store.checkpoints@.drop_last() == m.store.checkpoints@,
        n.store.checkpoints@.len() > 0,
        machine::frame(n, b),
        b.known == n.known,
        b.loops@ == n.loops@.drop_last(),
        b.captures@.len() == m.captures@.len(),
        forall|l: int| 0 <= l < m.captures@.len() ==> machine::capture_kept(#[trigger] m.captures@[l], b.captures@[l]),
        forall|l: int| 0 <= l < b.captures@.len() ==> machine::capture_wf(#[trigger] b.captures@[l], b.store, b.arena@),
        n.next_branch <= b.next_branch,
        results::tied(b.store, b.arena),
        b.arena.holds(b.condition),
        b.flows.wf(),
        b.flows.held_by(b.arena),
        flow::extends(n.flows.trees@, b.flows.trees@),
        arena::grows(n.arena@, b.arena@),
    ensures
        b.wf(),
        m.kept(b),
{
    arena::growth_is_transitive(m.arena@, opened.arena@, n.arena@);
    arena::growth_is_transitive(m.arena@, n.arena@, b.arena@);
    assert forall|t: int| 0 <= t < m.flows.trees@.len() implies #[trigger] m.flows.trees@[t] == b.flows.trees@[t] by {
        assert(opened.flows.trees@[t] == n.flows.trees@[t]);
    }
    assert forall|l: int| 0 <= l < b.loops@.len() implies (#[trigger] b.loops@[l]).wf(b.store, b.arena@) by {
        assert(b.loops@[l] == n.loops@[l]);
        assert(opened.loops@.drop_last()[l] == m.loops@[l]);
        assert(m.loops@[l].wf(m.store, m.arena@));
        assert(n.loops@[l].wf(n.store, n.arena@));
        assert(machine::loop_kept(opened.loops@[l], n.loops@[l]));
        let depth = m.loops@[l].checkpoint.depth as int;
        assert(n.store.checkpoints@.drop_last()[depth] == n.store.checkpoints@[depth]);
        machine::lemma_loop_wf(n.loops@[l], n.store, b.store, n.arena@, b.arena@);
    }
    assert forall|l: int| 0 <= l < m.loops@.len() implies machine::loop_kept(#[trigger] m.loops@[l], b.loops@[l]) by {
        assert(opened.loops@.drop_last()[l] == m.loops@[l]);
        assert(b.loops@[l] == n.loops@[l]);
        assert(machine::loop_kept(opened.loops@[l], n.loops@[l]));
    }
    assert forall|f: int| 0 <= f < b.functions@.len() implies machine::function_wf(#[trigger] b.functions@[f], b.store) by {
        assert(machine::function_wf(m.functions@[f], m.store));
    }
    if let Some(cache) = n.cache {
        machine::lemma_cache_grows(cache, n.store.versions@.len() as int, b.store.versions@.len() as int);
    }
    assert forall|i: int| 0 <= i < b.known implies ((#[trigger] b.store.versions@[i]) matches Version::Entry(key) ==> key < b.keys) by {
        assert(n.store.versions@[i] == b.store.versions@[i]);
    }
}

/// The captures of the loops around stay in order when one more return is noted.
proof fn lemma_captures_left(m: Machine, opened: Machine, n: Machine, b: Machine, exit: Option<PathCondition>)
    requires
        m.wf(),
        n.wf(),
        opened.kept(n),
        opened.captures@.len() == m.captures@.len() + 1,
        opened.captures@.drop_last() == m.captures@,
        machine::goes_on(m.store, b.store),
        arena::grows(n.arena@, b.arena@),
        match exit {
            Some(condition) => exits::captures_grow(n.captures@.drop_last(), b.captures@, condition) && condition.node < b.arena@.len(),
            None => b.captures@ == n.captures@.drop_last(),
        },
    ensures
        b.captures@.len() == m.captures@.len(),
        forall|l: int| 0 <= l < m.captures@.len() ==> machine::capture_kept(#[trigger] m.captures@[l], b.captures@[l]),
        forall|l: int| 0 <= l < b.captures@.len() ==> machine::capture_wf(#[trigger] b.captures@[l], b.store, b.arena@),
{
    let outer = n.captures@.drop_last();
    assert forall|l: int| 0 <= l < m.captures@.len() implies machine::capture_kept(#[trigger] m.captures@[l], b.captures@[l]) && machine::capture_wf(
        b.captures@[l],
        b.store,
        b.arena@,
    ) by {
        assert(opened.captures@.drop_last()[l] == m.captures@[l]);
        assert(machine::capture_kept(opened.captures@[l], n.captures@[l]));
        assert(outer[l] == n.captures@[l]);
        assert(machine::capture_wf(n.captures@[l], n.store, n.arena@));
        assert(machine::capture_wf(m.captures@[l], m.store, m.arena@));
        if let Some(condition) = exit {
            assert(exits::capture_grows(outer[l], b.captures@[l], condition));
        }
        if let Some(now) = b.captures@[l] {
            let was = n.captures@[l]->0;
            assert forall|i: int| 0 <= i < now.conditions@.len() implies (#[trigger] now.conditions@[i]).node < b.arena@.len() by {
                if exit is None {
                    assert(now == was);
                    assert(was.conditions@[i].node < n.arena@.len());
                } else if now.conditions@[i] != exit->0 {
                    assert(was.conditions@.contains(now.conditions@[i]));
                    let k = choose|k: int| 0 <= k < was.conditions@.len() && was.conditions@[k] == now.conditions@[i];
                    assert(was.conditions@[k].node < n.arena@.len());
                }
            }
        }
    }
    assert forall|l: int| 0 <= l < b.captures@.len() implies machine::capture_wf(#[trigger] b.captures@[l], b.store, b.arena@) by {
        assert(machine::capture_kept(m.captures@[l], b.captures@[l]));
    }
}

impl Machine {
    /// Leaves a loop whose iterations are not known.
    #[verifier::rlimit(60)]
    pub(crate) fn close_runtime_loop(
        &mut self,
        open: RuntimeLoop,
        e: &Evaluated,
        skip: Option<MaySkip>,
        Ghost(a): Ghost<Machine>,
        Ghost(may_skip): Ghost<bool>,
        Ghost(opened): Ghost<Machine>,
    ) -> (r: Evaluated)
        requires
            a.wf(),
            old(self).wf(),
            runtime_opened(a, opened, may_skip, open),
            keeps_below(a, opened),
            opened.store.open_checkpoint(open.checkpoint),
            opened.arena.holds(a.condition),
            opened.kept(*old(self)),
            machine::evaluated_wf(*old(self), *e),
            (skip is Some <==> may_skip),
            skip matches Some(skip) ==> skip.branch.arms == 2 && sequence::all_below(skip.controls@, old(self).store.versions@.len() as int),
        ensures
            final(self).wf(),
            a.kept(*final(self)),
            machine::evaluated_wf(*final(self), r),
            runtime_closed(*old(self), *final(self), *e, open.parent, skip, r),
    {
        let ghost m = decided(a, may_skip);
        let ghost n = *self;
        let checkpoint = open.checkpoint;
        let parent = open.parent;
        let top = self.loops.pop().unwrap();
        let capture = self.captures.pop().unwrap();
        let ghost noted = capture;
        proof {
            let last = opened.loops@.len() - 1;
            assert(machine::loop_kept(opened.loops@[last], n.loops@[last]));
            assert(n.loops@[last].wf(n.store, n.arena@));
            assert(top == n.loops@.last());
            assert(machine::capture_kept(opened.captures@[last], n.captures@[last]));
            assert(machine::capture_wf(n.captures@[last], n.store, n.arena@));
            assert(noted == n.captures@.last());
            assert(n.store.checkpoints@ == opened.store.checkpoints@);
            if noted is Some {
                assert(n.store.open_revision((noted->0).revision));
                assert forall|i: int| 0 <= i < (noted->0).conditions@.len() implies n.arena.holds(#[trigger] (noted->0).conditions@[i]) by {
                    assert((noted->0).conditions@[i].node < n.arena@.len());
                }
            }
        }
        let taken = close_runtime_body(&mut self.store, &mut self.arena, &self.flows, e.tree, capture, checkpoint);
        let breaks = exits_of(&top.breaks);
        let ghost closed = self.store;
        let ghost paths = self.arena;
        let body = RuntimeLoopBody { tree: e.tree, continuing: taken.continuing, breaks, returned: taken.returned };
        let function: Option<StateRevision> = if self.functions.len() == 0 {
            None
        } else {
            Some(self.functions[self.functions.len() - 1].revision)
        };
        let ghost given = body;
        let ghost outer = self.captures@;
        proof {
            branches::lemma_held_grows(n.flows, n.arena, paths);
            assert(outer =~= n.captures@.drop_last());
            assert(closed.checkpoints@ =~= a.store.checkpoints@);
            assert(n.store.checkpoints@.drop_last() =~= a.store.checkpoints@);
            assert(closed.active_revisions@ =~= a.store.active_revisions@);
            assert(machine::goes_on(a.store, closed)) by {
                assert forall|i: int| 0 <= i < a.store.versions@.len() implies #[trigger] a.store.versions@[i] == closed.versions@[i] by {
                    assert(opened.store.versions@[i] == n.store.versions@[i]);
                    assert(n.store.versions@[i] == closed.versions@[i]);
                }
                assert forall|d: int| 0 <= d < a.store.checkpoints@.len() implies #[trigger] closed.saved(d) == a.store.saved(d) by {
                    assert(closed.saved(d) == n.store.saved(d));
                    assert(n.store.saved(d) == opened.store.saved(d));
                    assert(opened.store.saved(d) == a.store.saved(d));
                }
            }
            assert(exits::recordings_open(closed, outer, function)) by {
                assert forall|k: int| 0 <= k < outer.len() && (#[trigger] outer[k]) is Some implies closed.active_revisions@.contains((outer[k]->0).revision.id) by {
                    assert(opened.captures@.drop_last()[k] == a.captures@[k]);
                    assert(machine::capture_wf(a.captures@[k], a.store, a.arena@));
                    assert(machine::capture_kept(opened.captures@[k], n.captures@[k]));
                    assert(outer[k] == n.captures@[k]);
                }
                if n.functions@.len() > 0 {
                    assert(machine::function_wf(a.functions@.last(), a.store));
                }
            }
            assert forall|b: int| 0 <= b < body.breaks@.len() implies lift::exit_below(#[trigger] body.breaks@[b], closed.versions@.len() as int)
                && body.breaks@[b].condition.node < paths@.len() by {
                let from = top.breaks@[b];
                let to = body.breaks@[b];
                assert(from.wf(n.store, n.arena@));
                assert forall|k: int| 0 <= k < to.state.bindings@.len() implies (#[trigger] to.state.bindings@[k]).version < closed.versions@.len() by {
                    assert(from.state.bindings@[k].version < n.store.versions@.len());
                }
            }
            machine::lemma_plan_grows(n.flows.plan(e.tree), n.store.versions@.len() as int, closed.versions@.len() as int);
            if skip is Some {
                machine::lemma_below_grows((skip->0).controls@, n.store.versions@.len() as int, closed.versions@.len() as int);
            }
            assert forall|nodes: Seq<PathNode>, plan: Plan| #[trigger]
                arena::grows(paths@, nodes) && runtime::is_runtime_plan(plan, n.flows.plan(e.tree), runtime::skip_view(skip)) implies #[trigger] sequence::controls_known(
                closed,
                nodes,
                plan,
            ) by {
                lemma_runtime_below(plan, n.flows.plan(e.tree), skip, closed.versions@.len() as int);
                machine::lemma_controls_known(closed, nodes, plan);
            }
            assert(body_taken(n, *e, closed, paths, body));
        }
        let left = leave_runtime_loop(
            &mut self.store,
            &mut self.flows,
            &mut self.arena,
            checkpoint,
            body,
            &mut self.captures,
            function,
            skip,
            parent,
        );
        let ghost ended = *self;
        self.condition = left.condition;
        let r = Evaluated { tree: left.tree, controls: left.controls };
        proof {
            let b = *self;
            machine::lemma_goes_on_twice(a.store, closed, b.store);
            arena::growth_is_transitive(n.arena@, paths@, b.arena@);
            let exit: Option<PathCondition> = match given.returned {
                Some(exit) => Some(exit.condition),
                None => None,
            };
            assert(b.loops@ =~= n.loops@.drop_last());
            assert(m.store == a.store && m.loops == a.loops && m.captures == a.captures && m.flows == a.flows && m.arena == a.arena && m.known == a.known);
            assert(m.wf());
            lemma_captures_left(m, opened, n, b, exit);
            lemma_runtime_left(m, opened, n, b);
            assert(a.kept(m)) by {
                machine::lemma_kept_self(a);
            }
            machine::lemma_kept_twice(a, m, b);
            machine::lemma_plan_grows(n.flows.plan(e.tree), n.store.versions@.len() as int, b.store.versions@.len() as int);
            if skip is Some {
                machine::lemma_below_grows((skip->0).controls@, n.store.versions@.len() as int, b.store.versions@.len() as int);
            }
            lemma_runtime_below(b.flows.plan(r.tree), n.flows.plan(e.tree), skip, b.store.versions@.len() as int);
            let nodes = choose|nodes: Seq<PathNode>| #[trigger]
                sequence::tokens_of(b.store.versions@, nodes, b.arena@, b.flows.plan(r.tree), r.controls@) && arena::grows(paths@, nodes);
            arena::growth_is_transitive(n.arena@, paths@, nodes);
            assert(body_taken(n, *e, closed, paths, given));
        }
        r
    }
}

} // verus!
