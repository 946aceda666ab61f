//! The state in which procedures are evaluated, and what every step of an evaluation keeps of it.
use vstd::prelude::*;
use std::collections::HashMap;
use crate::arena;
use crate::arena::{PathArena, PathCondition, PathNode};
use crate::branches;
use crate::branches::Branch;
use crate::exits;
use crate::exits::{record_return_marker, ReturnCapture};
use crate::flow;
use crate::flow::{FlowStore, FlowTree, Plan, ProcedureFlow};
use crate::layout;
use crate::layout::EvaluationCache;
use crate::path;
use crate::path::{BranchId, Choice};
use crate::predicates;
use crate::predicates::{PredicateExpression, PredicateTable, Shape};
use crate::results;
use crate::sequence;
use crate::sequence::FlowState;
use crate::ssa;
use crate::ssa::{Checkpoint, SsaStore, StateRevision, Version};
use crate::state;
use crate::writes;

verus! {

/// A loop whose iterations are being evaluated.
pub struct OpenLoop {
    pub checkpoint: Checkpoint,
    pub breaks: Vec<FlowState>,
}

/// A function whose body is being evaluated.
pub struct OpenFunction {
    pub callee: Option<u64>,
    /// The variable of its result; an assignment to it leaves the function.
    pub result: Option<u64>,
    /// Where its exits are recorded.
    pub revision: StateRevision,
}

/// The state of an evaluation.
pub struct Machine {
    pub store: SsaStore,
    pub flows: FlowStore,
    pub arena: PathArena,
    pub condition: PathCondition,
    pub namespace: usize,
    pub next_branch: usize,
    pub loops: Vec<OpenLoop>,
    /// Where the returns of each open loop are captured, for loops whose iterations are not known.
    pub captures: Vec<Option<ReturnCapture>>,
    pub functions: Vec<OpenFunction>,
    /// What was found in the expression that is being evaluated, where it is kept.
    pub cache: Option<EvaluationCache>,
    /// The branches of its conditional parts, by their occurrences.
    pub choices: HashMap<usize, BranchId>,
    /// Calls are evaluated for their effects, and their results are left out.
    pub effects_only: bool,
    /// Nothing was met of which nothing is known.
    pub complete: bool,
    /// The keys that were written.
    pub written: Vec<u64>,
    /// The number of keys that have nodes.
    pub keys: usize,
    /// The versions of which it is known that they read keys with nodes only.
    pub known: usize,
    /// All numbers fitted so far.
    pub fits: bool,
    /// The conditions of the decisions.
    pub table: PredicateTable,
}

/// What a statement leads to.
pub struct Evaluated {
    pub tree: FlowTree,
    /// What decides on what follows.
    pub controls: Vec<usize>,
}

pub proof fn lemma_continues_self(store: SsaStore)
    ensures
        writes::continues(store, store),
{
    assert forall|depth: int| 0 <= depth < store.checkpoints@.len() implies #[trigger] store.saved(depth) == store.saved(depth) by {}
}

impl OpenLoop {
    pub open spec fn wf(self, store: SsaStore, paths: Seq<PathNode>) -> bool {
        &&& store.open_checkpoint(self.checkpoint)
        &&& sequence::exits_wf(store, paths, self.breaks@)
    }
}

/// What was found in an expression can be used with the versions there are.
pub open spec fn cache_below(cache: EvaluationCache, limit: int) -> bool {
    &&& forall|occurrence: usize| #[trigger]
        cache.calls@.dom().contains(occurrence) ==> layout::groups_wf(cache.calls@[occurrence].region_groups@) && results::result_below(
            cache.calls@[occurrence].region_groups@,
            limit,
        )
    &&& forall|occurrence: usize| #[trigger]
        cache.variable_reads@.dom().contains(occurrence) ==> frozen_below(*cache.variable_reads@[occurrence], limit)
}

/// What a read found can be used with the versions there are.
pub open spec fn frozen_below(frozen: layout::FrozenVariableRead, limit: int) -> bool {
    &&& layout::keys_ascend(frozen.versions@)
    &&& sequence::all_below(frozen.selectors@, limit)
    &&& forall|i: int| 0 <= i < frozen.versions@.len() ==> (#[trigger] frozen.versions@[i]).version < limit
}

/// The recording of the returns of a loop is open.
pub open spec fn capture_wf(capture: Option<ReturnCapture>, store: SsaStore, paths: Seq<PathNode>) -> bool {
    capture matches Some(capture) ==> {
        &&& store.active_revisions@.contains(capture.revision.id)
        &&& capture.revision.event_start <= store.revision_events@.len()
        &&& forall|i: int| 0 <= i < capture.conditions@.len() ==> (#[trigger] capture.conditions@[i]).node < paths.len()
    }
}

/// The recording of the exits of a function is open.
pub open spec fn function_wf(function: OpenFunction, store: SsaStore) -> bool {
    &&& store.active_revisions@.contains(function.revision.id)
    &&& function.revision.event_start <= store.revision_events@.len()
}

impl Machine {
    pub open spec fn wf(self) -> bool {
        &&& results::tied(self.store, self.arena)
        &&& self.arena.holds(self.condition)
        &&& self.flows.wf()
        &&& self.flows.held_by(self.arena)
        &&& forall|l: int| 0 <= l < self.loops@.len() ==> (#[trigger] self.loops@[l]).wf(self.store, self.arena@)
        &&& self.captures@.len() == self.loops@.len()
        &&& forall|l: int| 0 <= l < self.captures@.len() ==> capture_wf(#[trigger] self.captures@[l], self.store, self.arena@)
        &&& forall|f: int| 0 <= f < self.functions@.len() ==> function_wf(#[trigger] self.functions@[f], self.store)
        &&& self.cache matches Some(cache) ==> cache_below(cache, self.store.versions@.len() as int)
        &&& forall|occurrence: usize| #[trigger] self.choices@.contains_key(occurrence) ==> self.choices@[occurrence].arms == 2
        &&& self.table.wf()
        &&& self.known <= self.store.versions@.len()
        &&& forall|i: int| 0 <= i < self.known ==> ((#[trigger] self.store.versions@[i]) matches Version::Entry(key) ==> key < self.keys)
    }

    /// What every step keeps: versions, conditions, trees and open loops are added to only.
    pub open spec fn kept(self, after: Machine) -> bool {
        &&& goes_on(self.store, after.store)
        &&& arena::grows(self.arena@, after.arena@)
        &&& flow::extends(self.flows.trees@, after.flows.trees@)
        &&& after.namespace == self.namespace
        &&& self.next_branch <= after.next_branch
        &&& after.loops@.len() == self.loops@.len()
        &&& forall|l: int| 0 <= l < self.loops@.len() ==> loop_kept(#[trigger] self.loops@[l], after.loops@[l])
        &&& after.captures@.len() == self.captures@.len()
        &&& forall|l: int| 0 <= l < self.captures@.len() ==> capture_kept(#[trigger] self.captures@[l], after.captures@[l])
        &&& after.functions@ == self.functions@
        &&& (after.cache is Some <==> self.cache is Some)
        &&& after.effects_only == self.effects_only
        &&& after.keys == self.keys
        &&& after.complete ==> self.complete
        &&& after.fits ==> self.fits
        &&& predicates::table_grows(self.table, after.table)
        &&& self.written@.len() <= after.written@.len()
        &&& after.written@.take(self.written@.len() as int) == self.written@
    }

    /// The recording of the innermost function.
    pub open spec fn recording(self) -> Option<StateRevision> {
        if self.functions@.len() == 0 {
            None
        } else {
            Some(self.functions@.last().revision)
        }
    }
}

/// A store goes on: versions are added, and what was open stays open.
pub open spec fn goes_on(a: SsaStore, b: SsaStore) -> bool {
    &&& ssa::versions_grow(a.versions@, b.versions@)
    &&& b.graphs == a.graphs
    &&& b.checkpoints@ == a.checkpoints@
    &&& forall|depth: int| 0 <= depth < a.checkpoints@.len() ==> #[trigger] b.saved(depth) == a.saved(depth)
    &&& b.active_revisions@ == a.active_revisions@
    &&& a.next_revision_id <= b.next_revision_id
    &&& a.active_revisions@.len() > 0 ==> a.revision_events@.len() <= b.revision_events@.len()
}

/// The loop captures returns where it did, and has the returns that it had.
pub open spec fn capture_kept(before: Option<ReturnCapture>, after: Option<ReturnCapture>) -> bool {
    match before {
        None => after is None,
        Some(capture) => after matches Some(now) && now.revision == capture.revision,
    }
}

/// Nothing changed but the store, the conditions, the trees, the open loops and the numbers.
pub open spec fn others_same(a: Machine, b: Machine) -> bool {
    frame(a, b) && b.captures == a.captures
}

/// Nothing changed but these and what loops capture.
pub open spec fn frame(a: Machine, b: Machine) -> bool {
    &&& b.namespace == a.namespace
    &&& b.functions == a.functions
    &&& b.cache == a.cache
    &&& b.choices == a.choices
    &&& b.effects_only == a.effects_only
    &&& b.complete == a.complete
    &&& b.written == a.written
    &&& b.keys == a.keys
    &&& b.fits == a.fits
    &&& b.table == a.table
}

/// Only the store changed.
pub open spec fn store_only(a: Machine, b: Machine) -> bool {
    &&& others_same(a, b)
    &&& b.arena == a.arena
    &&& b.condition == a.condition
    &&& b.next_branch == a.next_branch
    &&& b.flows == a.flows
    &&& b.loops == a.loops
}

/// The loop has the breaks that it had, and maybe more.
pub open spec fn loop_kept(before: OpenLoop, after: OpenLoop) -> bool {
    &&& after.checkpoint == before.checkpoint
    &&& before.breaks@.len() <= after.breaks@.len()
    &&& after.breaks@.take(before.breaks@.len() as int) == before.breaks@
}

/// What came of a statement belongs to the machine.
pub open spec fn evaluated_wf(machine: Machine, r: Evaluated) -> bool {
    &&& machine.flows.holds(r.tree)
    &&& sequence::all_below(r.controls@, machine.store.versions@.len() as int)
    &&& plan_below(machine.flows.plan(r.tree), machine.store.versions@.len() as int)
}

/// The decisions of a plan come from versions below the limit.
pub open spec fn plan_below(plan: Plan, limit: int) -> bool
    decreases plan,
{
    match plan {
        Plan::Outcome(_) => true,
        Plan::Decision(predicate, arms) => sequence::all_below(predicate.controls, limit) && arms_below(arms, limit),
    }
}

pub open spec fn arms_below(arms: Seq<flow::PlanArm>, limit: int) -> bool
    decreases arms,
{
    arms.len() > 0 ==> arms_below(arms.drop_last(), limit) && plan_below(arms.last().plan, limit)
}

pub proof fn lemma_plan_grows(plan: Plan, a: int, b: int)
    requires
        plan_below(plan, a),
        a <= b,
    ensures
        plan_below(plan, b),
    decreases plan,
{
    if let Plan::Decision(predicate, arms) = plan {
        lemma_below_grows(predicate.controls, a, b);
        lemma_arms_grow(arms, a, b);
    }
}

pub proof fn lemma_arms_grow(arms: Seq<flow::PlanArm>, a: int, b: int)
    requires
        arms_below(arms, a),
        a <= b,
    ensures
        arms_below(arms, b),
    decreases arms,
{
    if arms.len() > 0 {
        lemma_arms_grow(arms.drop_last(), a, b);
        lemma_plan_grows(arms.last().plan, a, b);
    }
}

pub proof fn lemma_rewritten_below(plan: Plan, on_continue: Plan, on_break: Plan, limit: int)
    requires
        plan_below(plan, limit),
        plan_below(on_continue, limit),
        plan_below(on_break, limit),
    ensures
        plan_below(flow::rewritten(plan, on_continue, on_break), limit),
    decreases plan,
{
    if let Plan::Decision(predicate, arms) = plan {
        lemma_rewritten_arms(arms, on_continue, on_break, limit);
    }
}

pub proof fn lemma_rewritten_arms(arms: Seq<flow::PlanArm>, on_continue: Plan, on_break: Plan, limit: int)
    requires
        arms_below(arms, limit),
        plan_below(on_continue, limit),
        plan_below(on_break, limit),
    ensures
        arms_below(flow::rewritten_arms(arms, on_continue, on_break), limit),
    decreases arms,
{
    if arms.len() > 0 {
        lemma_rewritten_arms(arms.drop_last(), on_continue, on_break, limit);
        lemma_rewritten_below(arms.last().plan, on_continue, on_break, limit);
        let before = flow::rewritten_arms(arms.drop_last(), on_continue, on_break);
        let after = flow::rewritten_arms(arms, on_continue, on_break);
        assert(after.drop_last() =~= before);
    }
}

pub proof fn lemma_sequenced_below(plans: Seq<Plan>, limit: int)
    requires
        forall|i: int| 0 <= i < plans.len() ==> plan_below(#[trigger] plans[i], limit),
    ensures
        plan_below(sequence::sequenced(plans), limit),
    decreases plans.len(),
{
    if plans.len() > 0 {
        let rest = plans.skip(1);
        assert forall|i: int| 0 <= i < rest.len() implies plan_below(#[trigger] rest[i], limit) by {
            assert(rest[i] == plans[i + 1]);
        }
        lemma_sequenced_below(rest, limit);
        lemma_rewritten_below(plans[0], sequence::sequenced(rest), Plan::Outcome(ProcedureFlow::Break), limit);
    }
}

pub proof fn lemma_depends_below(nodes: Seq<PathNode>, plan: Plan, inherited: Seq<Choice>, controls: Seq<usize>, condition: Seq<Choice>, limit: int)
    requires
        plan_below(plan, limit),
        flow::depends(nodes, plan, inherited, controls, condition),
    ensures
        sequence::all_below(controls, limit),
    decreases plan,
{
    if let Plan::Decision(predicate, arms) = plan {
        lemma_some_depends_below(nodes, predicate, flow::matters(arms), arms, inherited, controls, condition, limit);
    }
}

pub proof fn lemma_some_depends_below(
    nodes: Seq<PathNode>,
    predicate: flow::PredicateView,
    matters: bool,
    arms: Seq<flow::PlanArm>,
    inherited: Seq<Choice>,
    controls: Seq<usize>,
    condition: Seq<Choice>,
    limit: int,
)
    requires
        sequence::all_below(predicate.controls, limit),
        arms_below(arms, limit),
        flow::some_depends(nodes, predicate, matters, arms, inherited, controls, condition),
    ensures
        sequence::all_below(controls, limit),
    decreases arms,
{
    if arms.len() > 0 {
        let arm = arms.last();
        let chosen = arena::path_of(nodes, arm.condition.node as int);
        if flow::some_depends(nodes, predicate, matters, arms.drop_last(), inherited, controls, condition) {
            lemma_some_depends_below(nodes, predicate, matters, arms.drop_last(), inherited, controls, condition, limit);
        } else if flow::depends(nodes, arm.plan, flow::conjoined(inherited, chosen), controls, condition) {
            lemma_depends_below(nodes, arm.plan, flow::conjoined(inherited, chosen), controls, condition, limit);
        }
    }
}

pub proof fn lemma_controls_known(store: SsaStore, paths: Seq<PathNode>, plan: Plan)
    requires
        plan_below(plan, store.versions@.len() as int),
    ensures
        sequence::controls_known(store, paths, plan),
{
    assert forall|controls: Seq<usize>, condition: Seq<Choice>| #[trigger]
        flow::depends(paths, plan, Seq::<Choice>::empty(), controls, condition) implies sequence::all_below(controls, store.versions@.len() as int) by {
        lemma_depends_below(paths, plan, Seq::empty(), controls, condition, store.versions@.len() as int);
    }
}

/// Only the store and the trees changed.
pub open spec fn rest_same(a: Machine, b: Machine) -> bool {
    &&& others_same(a, b)
    &&& b.arena == a.arena
    &&& b.condition == a.condition
    &&& b.next_branch == a.next_branch
}

/// The last tree does not continue.
pub open spec fn stopped(flows: FlowStore, trees: Seq<FlowTree>) -> bool {
    trees.len() > 0 && !flow::can_end(flows.plan(trees.last()), ProcedureFlow::Continue)
}

/// What decides on the next statement of a block.
pub open spec fn active(controls: Seq<usize>, control: Option<usize>) -> Seq<usize> {
    match control {
        Some(control) => controls.push(control),
        None => controls,
    }
}

/// The control of what follows is made of what a statement added and of the control before.
pub open spec fn control_made(a: Machine, b: Machine, found: Seq<usize>, previous: Option<usize>, control: Option<usize>) -> bool {
    &&& rest_same(a, b)
    &&& b.flows == a.flows
    &&& b.loops == a.loops
    &&& writes::continues(a.store, b.store)
    &&& b.store.current@ == a.store.current@
    &&& if found.len() == 0 {
        control == previous && b.store == a.store
    } else {
        control == Some(a.store.versions@.len() as usize) && writes::is_definition(
            b.store.versions@,
            a.store.versions@.len() as int,
            writes::whole_sources(
                found + match previous {
                    Some(previous) => seq![previous],
                    None => Seq::empty(),
                },
            ),
            PathCondition { node: 0 },
        )
    }
}

/// The trees of a block are put one after the other.
pub open spec fn finished(a: Machine, b: Machine, trees: Seq<FlowTree>, control: Option<usize>, r: Evaluated) -> bool {
    &&& rest_same(a, b)
    &&& b.store == a.store
    &&& b.loops == a.loops
    &&& flow::extends(a.flows.trees@, b.flows.trees@)
    &&& b.flows.plan(r.tree) == sequence::sequenced(sequence::plans_of(a.flows, trees))
    &&& r.controls@ == (match control {
        Some(control) => seq![control],
        None => Seq::empty(),
    })
}

/// A simple statement ends as `flow` says, and adds no control.
pub open spec fn simple(a: Machine, b: Machine, flow: ProcedureFlow, r: Evaluated) -> bool {
    &&& rest_same(a, b)
    &&& flow::extends(a.flows.trees@, b.flows.trees@)
    &&& b.flows.plan(r.tree) == Plan::Outcome(flow)
    &&& r.controls@.len() == 0
}

/// A break is recorded with the innermost loop: what was changed since its start, and the condition.
pub open spec fn break_recorded(a: Machine, b: Machine) -> bool {
    &&& b.store == a.store
    &&& if a.loops@.len() == 0 {
        b.loops@ == a.loops@
    } else {
        let top = a.loops@.last();
        let now = b.loops@.last();
        &&& b.loops@.len() == a.loops@.len()
        &&& b.loops@.drop_last() == a.loops@.drop_last()
        &&& now.checkpoint == top.checkpoint
        &&& now.breaks@.len() == top.breaks@.len() + 1
        &&& now.breaks@.drop_last() == top.breaks@
        &&& now.breaks@.last().condition == a.condition
        &&& forall|key: u64, version: usize| #[trigger]
            ssa::bound(now.breaks@.last().state.bindings@, key, version) <==> ssa::binding_of(a.store.current@, key) == Some(version) && exists|i: int|
                top.checkpoint.undo_start <= i < a.store.undo@.len() && (#[trigger] a.store.undo@[i]).key == key
    }
}

/// An arm is entered: its choice is added to the condition, and its changes can be taken back.
pub open spec fn opens(a: Machine, b: Machine, branch: BranchId, arm: usize, parent: PathCondition) -> bool {
    &&& b.flows == a.flows
    &&& b.loops == a.loops
    &&& others_same(a, b)
    &&& b.next_branch == a.next_branch
    &&& arena::grows(a.arena@, b.arena@)
    &&& forall|c: Choice| #[trigger]
        b.arena.path(b.condition).contains(c) <==> (c.branch == branch && c.allowed == seq![path_run(arm)] && branch.arms > 1) || (c.branch != branch
            && a.arena.path(parent).contains(c))
    &&& ssa::scope_opened(a.store, b.store)
    &&& ssa::recordings_same(a.store, b.store)
}

pub open spec fn path_run(arm: usize) -> crate::arms::Run {
    crate::arms::Run { start: arm, end: (arm + 1) as usize }
}

/// An arm is left: its changes are taken back and kept aside.
pub open spec fn closes(a: Machine, closed: Machine, b: Machine, branch: Branch, r: Evaluated) -> bool {
    &&& b.flows == closed.flows
    &&& b.loops == closed.loops
    &&& b.arena == closed.arena
    &&& others_same(closed, b)
    &&& b.next_branch == closed.next_branch
    &&& b.condition == closed.condition
    &&& ssa::scope_closed(closed.store, b.store)
    &&& b.store.current@ == a.store.current@
    &&& b.store.checkpoints@ == a.store.checkpoints@
    &&& branch.tree == r.tree
    &&& branch.controls@ == r.controls@
    &&& branch.condition == closed.condition
    &&& state::lists_changes(branch.state.bindings@, closed.store.current@, a.store.current@)
}

/// The branches of a decision came together.
pub open spec fn came_together(a: Machine, b: Machine, predicate: flow::PredicateView, list: Seq<Branch>, parent: PathCondition, r: Evaluated) -> bool {
    let going = branches::continuing(a.flows, list);
    let matters = branches::decision_matters(a.flows, list);
    &&& b.loops == a.loops
    &&& others_same(a, b)
    &&& b.next_branch == a.next_branch
    &&& arena::grows(a.arena@, b.arena@)
    &&& flow::extends(a.flows.trees@, b.flows.trees@)
    &&& b.flows.plan(r.tree) == Plan::Decision(predicate, flow::written_out(a.flows.trees@, branches::arms_of(list)))
    &&& writes::continues(a.store, b.store)
    &&& branches::states_merged(a.store, b.store, going)
    &&& branches::are_tokens(
        b.store.versions@,
        b.arena@,
        branches::deciding(a.flows, list, predicate, matters),
        predicate,
        matters,
        parent,
        r.controls@,
    )
    &&& if going.len() == 0 {
        b.condition == parent
    } else {
        forall|branch: BranchId, arm: int|
            0 <= arm < branch.arms ==> (#[trigger] path::allows(b.arena.path(b.condition), branch, arm) <==> branches::some_allows(
                a.arena@,
                going,
                branch,
                arm,
            ))
    }
}

/// A loop is entered: its changes can be taken back, and its breaks are collected.
pub open spec fn loop_opened(a: Machine, b: Machine) -> bool {
    &&& frame(a, b)
    &&& b.arena == a.arena
    &&& b.condition == a.condition
    &&& b.next_branch == a.next_branch
    &&& b.flows == a.flows
    &&& ssa::scope_opened(a.store, b.store)
    &&& ssa::recordings_same(a.store, b.store)
    &&& b.loops@.len() == a.loops@.len() + 1
    &&& b.loops@.drop_last() == a.loops@
    &&& b.loops@.last().breaks@.len() == 0
    &&& b.loops@.last().checkpoint.depth == a.store.checkpoints@.len()
    &&& b.captures@ == a.captures@.push(None)
}

/// The innermost loop is no longer open.
pub open spec fn loop_popped(a: Machine, b: Machine) -> bool {
    &&& frame(a, b)
    &&& b.next_branch == a.next_branch
    &&& b.loops@ == a.loops@.drop_last()
    &&& b.captures@ == a.captures@.drop_last()
}

/// The list with what is not yet in it.
pub open spec fn added(list: Seq<usize>, more: Seq<usize>) -> Seq<usize>
    decreases more.len(),
{
    if more.len() == 0 {
        list
    } else {
        let before = added(list, more.drop_last());
        if before.contains(more.last()) {
            before
        } else {
            before.push(more.last())
        }
    }
}

/// The loop is left: `n` is the state behind its last iteration.
pub open spec fn loop_closed(a: Machine, n: Machine, b: Machine, trees: Seq<FlowTree>, r: Evaluated) -> bool {
    let plan = sequence::sequenced(sequence::plans_of(n.flows, trees));
    let goes_on = flow::can_end(b.flows.plan(r.tree), ProcedureFlow::Continue);
    let top = n.loops@.last();
    &&& loop_popped(n, b)
    &&& flow::extends(n.flows.trees@, b.flows.trees@)
    &&& b.flows.plan(r.tree) == sequence::left_plan(plan)
    &&& exists|rolled: SsaStore, exits: Seq<FlowState>| #[trigger]
        sequence::loop_left(
            n.store,
            rolled,
            b.store,
            top.checkpoint.depth as int,
            top.breaks@,
            n.condition,
            flow::can_end(plan, ProcedureFlow::Continue),
            goes_on,
            exits,
        ) && (goes_on && exits.len() > 0 ==> forall|branch: BranchId, arm: int|
            0 <= arm < branch.arms ==> (#[trigger] path::allows(b.arena.path(b.condition), branch, arm) <==> sequence::some_exit_allows(
                n.arena@,
                exits,
                branch,
                arm,
            )))
    &&& !goes_on ==> b.condition == a.condition
    &&& exists|paths: Seq<PathNode>| #[trigger]
        sequence::tokens_of(b.store.versions@, paths, b.arena@, b.flows.plan(r.tree), r.controls@) && arena::grows(n.arena@, paths)
}

/// A machine keeps what it has.
pub proof fn lemma_kept_self(a: Machine)
    ensures
        a.kept(a),
{
    assert forall|l: int| 0 <= l < a.loops@.len() implies loop_kept(#[trigger] a.loops@[l], a.loops@[l]) by {
        assert(a.loops@[l].breaks@.take(a.loops@[l].breaks@.len() as int) =~= a.loops@[l].breaks@);
    }
    assert forall|l: int| 0 <= l < a.captures@.len() implies capture_kept(#[trigger] a.captures@[l], a.captures@[l]) by {}
    assert(a.written@.take(a.written@.len() as int) =~= a.written@);
}

/// What is kept by two steps is kept.
pub proof fn lemma_kept_twice(a: Machine, b: Machine, c: Machine)
    requires
        a.kept(b),
        b.kept(c),
    ensures
        a.kept(c),
{
    lemma_goes_on_twice(a.store, b.store, c.store);
    arena::growth_is_transitive(a.arena@, b.arena@, c.arena@);
    assert forall|i: int| 0 <= i < a.flows.trees@.len() implies #[trigger] a.flows.trees@[i] == c.flows.trees@[i] by {
        assert(a.flows.trees@[i] == b.flows.trees@[i]);
    }
    assert forall|l: int| 0 <= l < a.loops@.len() implies loop_kept(#[trigger] a.loops@[l], c.loops@[l]) by {
        assert(loop_kept(a.loops@[l], b.loops@[l]));
        assert(loop_kept(b.loops@[l], c.loops@[l]));
        let n = a.loops@[l].breaks@.len() as int;
        assert(c.loops@[l].breaks@.take(n) =~= b.loops@[l].breaks@.take(n)) by {
            assert forall|k: int| 0 <= k < n implies c.loops@[l].breaks@[k] == b.loops@[l].breaks@[k] by {
                assert(c.loops@[l].breaks@.take(b.loops@[l].breaks@.len() as int)[k] == b.loops@[l].breaks@[k]);
            }
        }
    }
    assert forall|l: int| 0 <= l < a.captures@.len() implies capture_kept(#[trigger] a.captures@[l], c.captures@[l]) by {
        assert(capture_kept(a.captures@[l], b.captures@[l]));
        assert(capture_kept(b.captures@[l], c.captures@[l]));
    }
    assert(c.written@.take(a.written@.len() as int) =~= a.written@) by {
        assert forall|k: int| 0 <= k < a.written@.len() implies c.written@[k] == a.written@[k] by {
            assert(c.written@.take(b.written@.len() as int)[k] == b.written@[k]);
            assert(b.written@.take(a.written@.len() as int)[k] == a.written@[k]);
        }
    }
}

pub proof fn lemma_goes_on_twice(a: SsaStore, b: SsaStore, c: SsaStore)
    requires
        goes_on(a, b),
        goes_on(b, c),
    ensures
        goes_on(a, c),
{
    assert forall|i: int| 0 <= i < a.versions@.len() implies #[trigger] a.versions@[i] == c.versions@[i] by {
        assert(a.versions@[i] == b.versions@[i]);
    }
    assert forall|depth: int| 0 <= depth < a.checkpoints@.len() implies #[trigger] c.saved(depth) == a.saved(depth) by {
        assert(b.saved(depth) == a.saved(depth));
    }
}

/// A store that continues goes on.
pub proof fn lemma_continues_goes_on(a: SsaStore, b: SsaStore)
    requires
        writes::continues(a, b),
    ensures
        goes_on(a, b),
{
}

/// An open loop stays one as the store and the arena grow.
pub proof fn lemma_loop_wf(l: OpenLoop, a: SsaStore, b: SsaStore, paths: Seq<PathNode>, more: Seq<PathNode>)
    requires
        l.wf(a, paths),
        a.versions@.len() <= b.versions@.len(),
        l.checkpoint.depth < b.checkpoints@.len(),
        b.checkpoints@[l.checkpoint.depth as int] == a.checkpoints@[l.checkpoint.depth as int],
        paths.len() <= more.len(),
    ensures
        l.wf(b, more),
{
    assert forall|i: int| 0 <= i < l.breaks@.len() implies (#[trigger] l.breaks@[i]).wf(b, more) by {
        assert(l.breaks@[i].wf(a, paths));
        assert forall|k: int| 0 <= k < l.breaks@[i].state.bindings@.len() implies (#[trigger] l.breaks@[i].state.bindings@[k]).version < b.versions@.len() by {
            assert(l.breaks@[i].state.bindings@[k].version < a.versions@.len());
        }
    }
}

pub proof fn lemma_cache_grows(cache: EvaluationCache, a: int, b: int)
    requires
        cache_below(cache, a),
        a <= b,
    ensures
        cache_below(cache, b),
{
    assert forall|occurrence: usize| #[trigger] cache.calls@.dom().contains(occurrence) implies layout::groups_wf(cache.calls@[occurrence].region_groups@)
        && results::result_below(cache.calls@[occurrence].region_groups@, b) by {
        lemma_result_grows(cache.calls@[occurrence].region_groups@, a, b);
    }
    assert forall|occurrence: usize| #[trigger] cache.variable_reads@.dom().contains(occurrence) implies frozen_below(*cache.variable_reads@[occurrence], b) by {
        let frozen = *cache.variable_reads@[occurrence];
        assert(frozen_below(frozen, a));
        assert forall|k: int| 0 <= k < frozen.selectors@.len() implies (#[trigger] frozen.selectors@[k]) < b by {
            assert(frozen.selectors@[k] < a);
        }
        assert forall|i: int| 0 <= i < frozen.versions@.len() implies (#[trigger] frozen.versions@[i]).version < b by {
            assert(frozen.versions@[i].version < a);
        }
    }
}

pub proof fn lemma_result_grows(groups: Seq<layout::RegionGroup>, a: int, b: int)
    requires
        results::result_below(groups, a),
        a <= b,
    ensures
        results::result_below(groups, b),
{
    assert forall|g: int, k: int| 0 <= g < groups.len() && 0 <= k < groups[g].regions@.len() implies (#[trigger] groups[g].regions@[k]).version < b
        && groups[g].regions@[k].packed.wf() by {
        assert(groups[g].regions@[k].version < a);
    }
}

/// A step that adds to the store, to the conditions and to the trees keeps the machine in order.
pub proof fn lemma_changed(a: Machine, b: Machine)
    requires
        a.wf(),
        b.loops == a.loops,
        b.captures == a.captures,
        b.functions == a.functions,
        results::tied(b.store, b.arena),
        goes_on(a.store, b.store),
        arena::grows(a.arena@, b.arena@),
        b.arena.holds(b.condition),
        b.flows.wf(),
        b.flows.held_by(b.arena),
        flow::extends(a.flows.trees@, b.flows.trees@),
        b.cache is Some <==> a.cache is Some,
        b.cache == a.cache || cache_below(b.cache->0, b.store.versions@.len() as int),
        forall|occurrence: usize| #[trigger] b.choices@.contains_key(occurrence) ==> b.choices@[occurrence].arms == 2,
        b.namespace == a.namespace,
        b.keys == a.keys,
        b.known == a.known,
        b.effects_only == a.effects_only,
        a.next_branch <= b.next_branch,
        b.complete ==> a.complete,
        b.fits ==> a.fits,
        b.table.wf(),
        predicates::table_grows(a.table, b.table),
        a.written@.len() <= b.written@.len(),
        b.written@.take(a.written@.len() as int) == a.written@,
    ensures
        b.wf(),
        a.kept(b),
{
    assert forall|l: int| 0 <= l < b.loops@.len() implies (#[trigger] b.loops@[l]).wf(b.store, b.arena@) by {
        assert(a.loops@[l].wf(a.store, a.arena@));
        lemma_loop_wf(a.loops@[l], a.store, b.store, a.arena@, b.arena@);
    }
    assert forall|l: int| 0 <= l < a.loops@.len() implies loop_kept(#[trigger] a.loops@[l], b.loops@[l]) by {
        assert(a.loops@[l].breaks@.take(a.loops@[l].breaks@.len() as int) =~= a.loops@[l].breaks@);
    }
    assert forall|l: int| 0 <= l < b.captures@.len() implies capture_wf(#[trigger] b.captures@[l], b.store, b.arena@) by {
        assert(capture_wf(a.captures@[l], a.store, a.arena@));
        lemma_capture_wf(a.captures@[l], a.store, b.store, a.arena@, b.arena@);
    }
    assert forall|f: int| 0 <= f < b.functions@.len() implies function_wf(#[trigger] b.functions@[f], b.store) by {
        assert(function_wf(a.functions@[f], a.store));
    }
    if let Some(cache) = a.cache {
        if b.cache == a.cache {
            lemma_cache_grows(cache, a.store.versions@.len() as int, b.store.versions@.len() as int);
        }
    }
    assert forall|i: int| 0 <= i < b.known implies ((#[trigger] b.store.versions@[i]) matches Version::Entry(key) ==> key < b.keys) by {
        assert(a.store.versions@[i] == b.store.versions@[i]);
    }
}

pub proof fn lemma_capture_wf(capture: Option<ReturnCapture>, a: SsaStore, b: SsaStore, paths: Seq<PathNode>, more: Seq<PathNode>)
    requires
        capture_wf(capture, a, paths),
        b.active_revisions@ == a.active_revisions@,
        a.active_revisions@.len() > 0 ==> a.revision_events@.len() <= b.revision_events@.len(),
        paths.len() <= more.len(),
    ensures
        capture_wf(capture, b, more),
{
    if let Some(capture) = capture {
        assert forall|i: int| 0 <= i < capture.conditions@.len() implies (#[trigger] capture.conditions@[i]).node < more.len() by {
            assert(capture.conditions@[i].node < paths.len());
        }
    }
}

/// A step that changes the store only, and continues it, keeps the machine in order.
pub proof fn lemma_stored(a: Machine, b: Machine)
    requires
        a.wf(),
        store_only(a, b),
        b.known == a.known,
        b.store.wf(),
        b.store.guards_in(b.arena@),
        writes::continues(a.store, b.store),
    ensures
        b.wf(),
        a.kept(b),
{
    lemma_continues_goes_on(a.store, b.store);
    assert(b.written@.take(a.written@.len() as int) =~= a.written@);
    lemma_changed(a, b);
}

/// An arm that was entered: its changes can be taken back.
pub proof fn lemma_opened(a: Machine, b: Machine)
    requires
        a.wf(),
        others_same(a, b),
        b.known == a.known,
        b.next_branch == a.next_branch,
        b.flows == a.flows,
        b.loops == a.loops,
        b.arena.wf(),
        b.arena.holds(b.condition),
        arena::grows(a.arena@, b.arena@),
        ssa::same_versions(a.store, b.store),
        b.store.wf(),
        b.store.guards_in(b.arena@),
        b.store.active_revisions@ == a.store.active_revisions@,
        b.store.revision_events@ == a.store.revision_events@,
        b.store.checkpoints@.len() == a.store.checkpoints@.len() + 1,
        forall|d: int| 0 <= d < a.store.checkpoints@.len() ==> #[trigger] b.store.checkpoints@[d] == a.store.checkpoints@[d],
    ensures
        b.wf(),
{
    branches::lemma_held_grows(a.flows, a.arena, b.arena);
    assert forall|l: int| 0 <= l < b.loops@.len() implies (#[trigger] b.loops@[l]).wf(b.store, b.arena@) by {
        assert(a.loops@[l].wf(a.store, a.arena@));
        lemma_loop_wf(a.loops@[l], a.store, b.store, a.arena@, b.arena@);
    }
    assert forall|l: int| 0 <= l < b.captures@.len() implies capture_wf(#[trigger] b.captures@[l], b.store, b.arena@) by {
        assert(capture_wf(a.captures@[l], a.store, a.arena@));
        lemma_capture_wf(a.captures@[l], a.store, b.store, a.arena@, b.arena@);
    }
    assert forall|f: int| 0 <= f < b.functions@.len() implies function_wf(#[trigger] b.functions@[f], b.store) by {
        assert(function_wf(a.functions@[f], a.store));
    }
}

/// The stores of an arm: entered from `m`, evaluated to `closed`, and taken back to `b`.
pub open spec fn arm_stores(m: SsaStore, opened: SsaStore, closed: SsaStore, b: SsaStore) -> bool {
    &&& ssa::same_versions(m, opened)
    &&& opened.checkpoints@.len() == m.checkpoints@.len() + 1
    &&& forall|d: int| 0 <= d < m.checkpoints@.len() ==> #[trigger] opened.checkpoints@[d] == m.checkpoints@[d]
    &&& forall|d: int| 0 <= d < m.checkpoints@.len() ==> #[trigger] opened.saved(d) == m.saved(d)
    &&& opened.active_revisions@ == m.active_revisions@
    &&& opened.revision_events@ == m.revision_events@
    &&& opened.next_revision_id == m.next_revision_id
    &&& goes_on(opened, closed)
    &&& ssa::versions_grow(closed.versions@, b.versions@)
    &&& b.graphs == closed.graphs
    &&& b.checkpoints@ == closed.checkpoints@.drop_last()
    &&& forall|d: int| 0 <= d < b.checkpoints@.len() ==> #[trigger] b.saved(d) == closed.saved(d)
    &&& b.active_revisions@ == closed.active_revisions@
    &&& closed.next_revision_id <= b.next_revision_id
    &&& closed.active_revisions@.len() > 0 ==> closed.revision_events@.len() <= b.revision_events@.len()
}

pub proof fn lemma_arm_goes_on(m: SsaStore, opened: SsaStore, closed: SsaStore, b: SsaStore)
    requires
        arm_stores(m, opened, closed, b),
    ensures
        goes_on(m, b),
{
    assert(b.checkpoints@ =~= m.checkpoints@) by {
        assert forall|d: int| 0 <= d < m.checkpoints@.len() implies b.checkpoints@[d] == m.checkpoints@[d] by {
            assert(opened.checkpoints@[d] == m.checkpoints@[d]);
        }
    }
    assert forall|i: int| 0 <= i < m.versions@.len() implies #[trigger] m.versions@[i] == b.versions@[i] by {
        assert(opened.versions@[i] == closed.versions@[i]);
    }
    assert forall|d: int| 0 <= d < m.checkpoints@.len() implies #[trigger] b.saved(d) == m.saved(d) by {
        assert(closed.saved(d) == opened.saved(d));
    }
}

/// A recording continues when bindings change.
pub proof fn lemma_records_grow(a: SsaStore, b: SsaStore)
    requires
        ssa::records(a, b),
    ensures
        b.active_revisions@ == a.active_revisions@,
        a.next_revision_id <= b.next_revision_id,
        a.active_revisions@.len() > 0 ==> a.revision_events@.len() <= b.revision_events@.len(),
{
}

/// An arm that was entered and left keeps what statements keep.
pub proof fn lemma_arm_kept(m: Machine, opened: Machine, closed: Machine, b: Machine)
    requires
        m.wf(),
        closed.wf(),
        opened.kept(closed),
        others_same(m, opened),
        opened.loops == m.loops,
        opened.flows == m.flows,
        opened.next_branch == m.next_branch,
        arena::grows(m.arena@, opened.arena@),
        arm_stores(m.store, opened.store, closed.store, b.store),
        others_same(closed, b),
        b.known == closed.known,
        b.flows == closed.flows,
        b.loops == closed.loops,
        b.arena == closed.arena,
        b.next_branch == closed.next_branch,
        b.condition == closed.condition,
        b.store.wf(),
        b.store.guards_in(b.arena@),
    ensures
        b.wf(),
        m.kept(b),
{
    lemma_arm_goes_on(m.store, opened.store, closed.store, b.store);
    arena::growth_is_transitive(m.arena@, opened.arena@, closed.arena@);
    assert forall|l: int| 0 <= l < b.loops@.len() implies (#[trigger] b.loops@[l]).wf(b.store, b.arena@) by {
        assert(m.loops@[l].wf(m.store, m.arena@));
        assert(loop_kept(opened.loops@[l], closed.loops@[l]));
        assert(closed.loops@[l].wf(closed.store, closed.arena@));
        lemma_loop_wf(closed.loops@[l], closed.store, b.store, closed.arena@, b.arena@);
    }
    assert forall|l: int| 0 <= l < m.loops@.len() implies loop_kept(#[trigger] m.loops@[l], b.loops@[l]) by {
        assert(loop_kept(opened.loops@[l], closed.loops@[l]));
    }
    assert forall|l: int| 0 <= l < m.captures@.len() implies capture_kept(#[trigger] m.captures@[l], b.captures@[l]) by {
        assert(capture_kept(opened.captures@[l], closed.captures@[l]));
    }
    assert forall|l: int| 0 <= l < b.captures@.len() implies capture_wf(#[trigger] b.captures@[l], b.store, b.arena@) by {
        assert(capture_wf(closed.captures@[l], closed.store, closed.arena@));
        lemma_capture_wf(closed.captures@[l], closed.store, b.store, closed.arena@, b.arena@);
    }
    assert forall|f: int| 0 <= f < b.functions@.len() implies function_wf(#[trigger] b.functions@[f], b.store) by {
        assert(function_wf(closed.functions@[f], closed.store));
    }
    if let Some(cache) = closed.cache {
        lemma_cache_grows(cache, closed.store.versions@.len() as int, b.store.versions@.len() as int);
    }
    assert forall|i: int| 0 <= i < b.known implies ((#[trigger] b.store.versions@[i]) matches Version::Entry(key) ==> key < b.keys) by {
        assert(closed.store.versions@[i] == b.store.versions@[i]);
    }
}

/// A loop that was entered and left keeps what statements keep.
pub proof fn lemma_loop_left(m: Machine, opened: Machine, n: Machine, b: Machine)
    requires
        m.wf(),
        n.wf(),
        opened.kept(n),
        frame(m, opened),
        opened.loops@.len() == m.loops@.len() + 1,
        opened.loops@.drop_last() == m.loops@,
        opened.captures@.len() == m.captures@.len() + 1,
        opened.captures@.drop_last() == m.captures@,
        opened.flows == m.flows,
        opened.next_branch == m.next_branch,
        arena::grows(m.arena@, opened.arena@),
        arm_stores(m.store, opened.store, n.store, b.store),
        frame(n, b),
        b.known == n.known,
        b.loops@ == n.loops@.drop_last(),
        b.captures@.len() == m.captures@.len(),
        forall|l: int| 0 <= l < m.captures@.len() ==> capture_kept(#[trigger] m.captures@[l], b.captures@[l]),
        forall|l: int| 0 <= l < b.captures@.len() ==> capture_wf(#[trigger] b.captures@[l], b.store, b.arena@),
        n.next_branch <= b.next_branch,
        results::tied(b.store, b.arena),
        b.arena.holds(b.condition),
        b.flows.wf(),
        b.flows.held_by(b.arena),
        flow::extends(n.flows.trees@, b.flows.trees@),
        arena::grows(n.arena@, b.arena@),
    ensures
        b.wf(),
        m.kept(b),
{
    lemma_arm_goes_on(m.store, opened.store, n.store, b.store);
    arena::growth_is_transitive(m.arena@, opened.arena@, n.arena@);
    arena::growth_is_transitive(m.arena@, n.arena@, b.arena@);
    assert forall|t: int| 0 <= t < m.flows.trees@.len() implies #[trigger] m.flows.trees@[t] == b.flows.trees@[t] by {
        assert(opened.flows.trees@[t] == n.flows.trees@[t]);
    }
    assert forall|l: int| 0 <= l < b.loops@.len() implies (#[trigger] b.loops@[l]).wf(b.store, b.arena@) by {
        assert(b.loops@[l] == n.loops@[l]);
        assert(opened.loops@.drop_last()[l] == m.loops@[l]);
        assert(m.loops@[l].wf(m.store, m.arena@));
        assert(n.loops@[l].wf(n.store, n.arena@));
        assert(loop_kept(opened.loops@[l], n.loops@[l]));
        lemma_loop_wf(n.loops@[l], n.store, b.store, n.arena@, b.arena@);
    }
    assert forall|l: int| 0 <= l < m.loops@.len() implies loop_kept(#[trigger] m.loops@[l], b.loops@[l]) by {
        assert(opened.loops@.drop_last()[l] == m.loops@[l]);
        assert(b.loops@[l] == n.loops@[l]);
        assert(loop_kept(opened.loops@[l], n.loops@[l]));
    }
    assert forall|f: int| 0 <= f < b.functions@.len() implies function_wf(#[trigger] b.functions@[f], b.store) by {
        assert(function_wf(n.functions@[f], n.store));
    }
    if let Some(cache) = n.cache {
        lemma_cache_grows(cache, n.store.versions@.len() as int, b.store.versions@.len() as int);
    }
    assert forall|i: int| 0 <= i < b.known implies ((#[trigger] b.store.versions@[i]) matches Version::Entry(key) ==> key < b.keys) by {
        assert(n.store.versions@[i] == b.store.versions@[i]);
    }
}

pub proof fn lemma_below_grows(list: Seq<usize>, a: int, b: int)
    requires
        sequence::all_below(list, a),
        a <= b,
    ensures
        sequence::all_below(list, b),
{
    assert forall|k: int| 0 <= k < list.len() implies (#[trigger] list[k]) < b by {
        assert(list[k] < a);
    }
}

pub proof fn lemma_below_joined(a: Seq<usize>, b: Seq<usize>, limit: int)
    requires
        sequence::all_below(a, limit),
        sequence::all_below(b, limit),
    ensures
        sequence::all_below(a + b, limit),
{
    assert forall|k: int| 0 <= k < (a + b).len() implies (#[trigger] (a + b)[k]) < limit by {
        if k < a.len() {
            assert(a[k] < limit);
        } else {
            assert(b[k - a.len()] < limit);
        }
    }
}

pub proof fn lemma_branch_kept(a: Machine, b: Machine, branch: Branch)
    requires
        branches::branch_wf(a.store, a.flows, a.arena@, branch),
        a.kept(b),
    ensures
        branches::branch_wf(b.store, b.flows, b.arena@, branch),
{
    assert forall|k: int| 0 <= k < branch.state.bindings@.len() implies (#[trigger] branch.state.bindings@[k]).version < b.store.versions@.len() by {
        assert(branch.state.bindings@[k].version < a.store.versions@.len());
    }
    assert forall|k: int| 0 <= k < branch.controls@.len() implies (#[trigger] branch.controls@[k]) < b.store.versions@.len() by {
        assert(branch.controls@[k] < a.store.versions@.len());
    }
}

/// The tree belongs to the machine, with what its decisions come from.
pub open spec fn tree_below(machine: Machine, tree: FlowTree) -> bool {
    machine.flows.holds(tree) && plan_below(machine.flows.plan(tree), machine.store.versions@.len() as int)
}

pub proof fn lemma_tree_kept(a: Machine, b: Machine, tree: FlowTree)
    requires
        a.flows.wf(),
        tree_below(a, tree),
        a.kept(b),
    ensures
        tree_below(b, tree),
        b.flows.plan(tree) == a.flows.plan(tree),
{
    flow::growth_keeps_plans(a.flows.trees@, b.flows.trees@, tree.index as int);
    lemma_plan_grows(a.flows.plan(tree), a.store.versions@.len() as int, b.store.versions@.len() as int);
}

/// The arms of a decision between the branches come from versions below the limit.
pub proof fn lemma_written_below(m: Machine, list: Seq<Branch>, limit: int)
    requires
        forall|k: int| 0 <= k < list.len() ==> tree_below(m, (#[trigger] list[k]).tree),
        m.store.versions@.len() <= limit,
    ensures
        arms_below(flow::written_out(m.flows.trees@, branches::arms_of(list)), limit),
    decreases list.len(),
{
    let arms = flow::written_out(m.flows.trees@, branches::arms_of(list));
    if list.len() > 0 {
        let shorter = list.drop_last();
        assert forall|k: int| 0 <= k < shorter.len() implies tree_below(m, (#[trigger] shorter[k]).tree) by {
            assert(shorter[k] == list[k]);
        }
        lemma_written_below(m, shorter, limit);
        assert(arms.drop_last() =~= flow::written_out(m.flows.trees@, branches::arms_of(shorter)));
        assert(tree_below(m, list.last().tree));
        lemma_plan_grows(m.flows.plan(list.last().tree), m.store.versions@.len() as int, limit);
        assert(arms.last().plan == m.flows.plan(list.last().tree));
    }
}

pub proof fn lemma_trees_sequenced(m: Machine, trees: Seq<FlowTree>)
    requires
        forall|k: int| 0 <= k < trees.len() ==> tree_below(m, #[trigger] trees[k]),
    ensures
        plan_below(sequence::sequenced(sequence::plans_of(m.flows, trees)), m.store.versions@.len() as int),
{
    let plans = sequence::plans_of(m.flows, trees);
    assert forall|k: int| 0 <= k < plans.len() implies plan_below(#[trigger] plans[k], m.store.versions@.len() as int) by {
        assert(tree_below(m, trees[k]));
    }
    lemma_sequenced_below(plans, m.store.versions@.len() as int);
}

/// Adds the versions that are not yet in the list.
pub fn add_versions(list: &mut Vec<usize>, more: &Vec<usize>, limit: usize)
    requires
        sequence::all_below(old(list)@, limit as int),
        sequence::all_below(more@, limit as int),
    ensures
        final(list)@ == added(old(list)@, more@),
        sequence::all_below(final(list)@, limit as int),
{
    let ghost before = list@;
    let mut i: usize = 0;
    while i < more.len()
        invariant
            i <= more@.len(),
            list@ == added(before, more@.take(i as int)),
            sequence::all_below(list@, limit as int),
            sequence::all_below(more@, limit as int),
        decreases more@.len() - i,
    {
        let version: usize = more[i];
        assert(more@.take(i + 1).drop_last() =~= more@.take(i as int));
        assert(more@[i as int] < limit);
        let mut found = false;
        let mut k: usize = 0;
        while k < list.len()
            invariant
                k <= list@.len(),
                found == list@.take(k as int).contains(version),
            decreases list@.len() - k,
        {
            proof {
                let taken = list@.take(k as int);
                let longer = list@.take(k + 1);
                assert(longer[k as int] == list@[k as int]);
                if taken.contains(version) {
                    let q = choose|q: int| 0 <= q < taken.len() && taken[q] == version;
                    assert(longer[q] == version);
                }
                if longer.contains(version) {
                    let q = choose|q: int| 0 <= q < longer.len() && longer[q] == version;
                    if q < k {
                        assert(taken[q] == version);
                    }
                }
            }
            if list[k] == version {
                found = true;
            }
            k = k + 1;
        }
        assert(list@.take(k as int) =~= list@);
        if !found {
            list.push(version);
        }
        i = i + 1;
    }
    assert(more@.take(i as int) =~= more@);
}

/// A copy of a list.
pub fn copy_versions(list: &Vec<usize>) -> (r: Vec<usize>)
    ensures
        r@ == list@,
{
    let mut r: Vec<usize> = Vec::new();
    results::append_versions(&mut r, list);
    assert(r@ =~= list@);
    r
}

impl Machine {
    /// A statement that ends in one way and adds no control.
    pub fn simple_flow_result(&mut self, flow: ProcedureFlow) -> (r: Evaluated)
        requires
            old(self).wf(),
        ensures
            final(self).wf(),
            old(self).kept(*final(self)),
            evaluated_wf(*final(self), r),
            simple(*old(self), *final(self), flow, r),
            final(self).store == old(self).store,
            final(self).loops == old(self).loops,
    {
        let ghost before = *self;
        let tree = self.flows.outcome(flow);
        proof {
            lemma_continues_self(before.store);
            assert(self.written@.take(before.written@.len() as int) =~= before.written@);
            lemma_changed(before, *self);
        }
        Evaluated { tree, controls: Vec::new() }
    }

    /// Whether all keys that are read on entry have nodes.
    pub fn keys_are_known(&mut self) -> (r: bool)
        requires
            old(self).wf(),
        ensures
            final(self).wf(),
            old(self).kept(*final(self)),
            store_only(*old(self), *final(self)),
            final(self).store == old(self).store,
            r == keys_below(old(self).store.versions@, old(self).keys as int),
    {
        let ghost before = *self;
        proof {
            lemma_kept_self(before);
        }
        let mut i: usize = self.known;
        while i < self.store.versions.len()
            invariant
                before.wf(),
                before.kept(before),
                *self == before,
                before.known <= i <= self.store.versions@.len(),
                forall|k: int| 0 <= k < i ==> ((#[trigger] self.store.versions@[k]) matches Version::Entry(key) ==> key < self.keys),
            decreases self.store.versions@.len() - i,
        {
            if let Version::Entry(key) = &self.store.versions[i] {
                if *key >= self.keys as u64 {
                    assert(self.store.versions@[i as int] matches Version::Entry(found) && found == *key);
                    return false;
                }
            }
            i = i + 1;
        }
        self.known = i;
        proof {
            lemma_kept_known(before, *self);
        }
        true
    }

    /// Takes the next number of a branch.
    pub fn take_number(&mut self) -> (r: usize)
        requires
            old(self).wf(),
        ensures
            final(self).wf(),
            old(self).kept(*final(self)),
            r == old(self).next_branch,
            *final(self) == taken_number(*old(self)),
    {
        let ghost before = *self;
        let r: usize = self.next_branch;
        if r == usize::MAX {
            self.fits = false;
        } else {
            self.next_branch = r + 1;
        }
        proof {
            assert(self.written@.take(before.written@.len() as int) =~= before.written@);
            lemma_goes_on_self(before.store);
            lemma_changed(before, *self);
        }
        r
    }

    /// The identity of a condition.
    pub fn identify(&mut self, expression: PredicateExpression) -> (r: usize)
        requires
            old(self).wf(),
        ensures
            final(self).wf(),
            old(self).kept(*final(self)),
            identified(*old(self), *final(self), predicates::shape(expression), r),
    {
        let ghost before = *self;
        let r: usize = self.table.identity(expression);
        proof {
            assert(self.written@.take(before.written@.len() as int) =~= before.written@);
            lemma_goes_on_self(before.store);
            lemma_changed(before, *self);
        }
        r
    }

    /// Records a break with the innermost loop.
    pub fn record_break(&mut self)
        requires
            old(self).wf(),
        ensures
            final(self).wf(),
            old(self).kept(*final(self)),
            rest_same(*old(self), *final(self)),
            final(self).flows == old(self).flows,
            break_recorded(*old(self), *final(self)),
    {
        let ghost before = *self;
        proof {
            lemma_kept_self(before);
        }
        let count: usize = self.loops.len();
        if count == 0 {
            return;
        }
        assert(self.loops@[count - 1].wf(self.store, self.arena@));
        let mut top = self.loops.pop().unwrap();
        let ghost old_top = top;
        let state = self.store.snapshot_since(top.checkpoint);
        top.breaks.push(FlowState { state, condition: self.condition });
        self.loops.push(top);
        proof {
            assert(before.loops@.last() == old_top);
            assert(self.loops@.drop_last() =~= before.loops@.drop_last());
            assert(self.loops@.last().breaks@.drop_last() =~= old_top.breaks@);
            let exit = self.loops@.last().breaks@.last();
            assert forall|k: int| 0 <= k < exit.state.bindings@.len() implies (#[trigger] exit.state.bindings@[k]).version < self.store.versions@.len() by {
                let binding = exit.state.bindings@[k];
                assert(ssa::bound(exit.state.bindings@, binding.key, binding.version));
                assert(ssa::binding_of(self.store.current@, binding.key) == Some(binding.version));
            }
            assert forall|l: int| 0 <= l < self.loops@.len() implies (#[trigger] self.loops@[l]).wf(self.store, self.arena@) by {
                if l < count - 1 {
                    assert(self.loops@[l] == before.loops@[l]);
                    assert(before.loops@[l].wf(before.store, before.arena@));
                } else {
                    assert forall|i: int| 0 <= i < self.loops@[l].breaks@.len() implies (#[trigger] self.loops@[l].breaks@[i]).wf(self.store, self.arena@) by {
                        if i < old_top.breaks@.len() {
                            assert(self.loops@[l].breaks@[i] == old_top.breaks@[i]);
                            assert(old_top.breaks@[i].wf(before.store, before.arena@));
                        }
                    }
                }
            }
            assert forall|l: int| 0 <= l < before.loops@.len() implies loop_kept(#[trigger] before.loops@[l], self.loops@[l]) by {
                if l < count - 1 {
                    assert(self.loops@[l] == before.loops@[l]);
                    assert(before.loops@[l].breaks@.take(before.loops@[l].breaks@.len() as int) =~= before.loops@[l].breaks@);
                } else {
                    assert(self.loops@[l].breaks@.take(old_top.breaks@.len() as int) =~= old_top.breaks@);
                }
            }
        }
    }

    /// Records that the function returns here.
    pub fn record_return(&mut self)
        requires
            old(self).wf(),
        ensures
            final(self).wf(),
            old(self).kept(*final(self)),
            return_recorded(*old(self), *final(self)),
    {
        let ghost before = *self;
        let count: usize = self.functions.len();
        let function: Option<StateRevision> = if count == 0 {
            None
        } else {
            Some(self.functions[count - 1].revision)
        };
        let condition = self.condition;
        proof {
            if count > 0 {
                assert(function_wf(before.functions@[count - 1], before.store));
            }
            assert forall|k: int| 0 <= k < before.captures@.len() && (#[trigger] before.captures@[k]) is Some implies before.store.active_revisions@.contains(
                (before.captures@[k]->0).revision.id,
            ) by {
                assert(capture_wf(before.captures@[k], before.store, before.arena@));
            }
        }
        record_return_marker(&mut self.store, &mut self.captures, function, condition);
        proof {
            lemma_return_kept(before, *self);
        }
    }
}

pub open spec fn keys_below(versions: Seq<Version>, limit: int) -> bool {
    forall|i: int| 0 <= i < versions.len() ==> ((#[trigger] versions[i]) matches Version::Entry(key) ==> key < limit)
}

pub proof fn lemma_goes_on_self(store: SsaStore)
    ensures
        goes_on(store, store),
{
}

proof fn lemma_kept_known(a: Machine, b: Machine)
    requires
        a.wf(),
        b == (Machine { known: b.known, ..a }),
        b.known <= b.store.versions@.len(),
        forall|k: int| 0 <= k < b.known ==> ((#[trigger] b.store.versions@[k]) matches Version::Entry(key) ==> key < b.keys),
    ensures
        b.wf(),
        a.kept(b),
{
    lemma_kept_self(a);
    assert forall|l: int| 0 <= l < b.loops@.len() implies (#[trigger] b.loops@[l]).wf(b.store, b.arena@) by {
        assert(a.loops@[l].wf(a.store, a.arena@));
    }
    assert forall|l: int| 0 <= l < b.captures@.len() implies capture_wf(#[trigger] b.captures@[l], b.store, b.arena@) by {
        assert(capture_wf(a.captures@[l], a.store, a.arena@));
    }
    assert forall|f: int| 0 <= f < b.functions@.len() implies function_wf(#[trigger] b.functions@[f], b.store) by {
        assert(function_wf(a.functions@[f], a.store));
    }
    assert forall|l: int| 0 <= l < a.loops@.len() implies loop_kept(#[trigger] a.loops@[l], b.loops@[l]) by {
        assert(loop_kept(a.loops@[l], a.loops@[l]));
    }
    assert forall|l: int| 0 <= l < a.captures@.len() implies capture_kept(#[trigger] a.captures@[l], b.captures@[l]) by {
        assert(capture_kept(a.captures@[l], a.captures@[l]));
    }
}

/// The condition has the number: that of the condition that is written alike, where there was one.
pub open spec fn identified(a: Machine, b: Machine, condition: Shape, number: usize) -> bool {
    &&& b == (Machine { table: b.table, ..a })
    &&& predicates::table_grows(a.table, b.table)
    &&& number < b.table.known@.len()
    &&& predicates::shape(b.table.known@[number as int]) == condition
    &&& (exists|i: int| 0 <= i < a.table.known@.len() && predicates::shape(#[trigger] a.table.known@[i]) == condition) ==> b == a
}

/// The machine with the next branch number taken; where there is none left, that is noted.
pub open spec fn taken_number(m: Machine) -> Machine {
    if m.next_branch == usize::MAX {
        Machine { fits: false, ..m }
    } else {
        Machine { next_branch: (m.next_branch + 1) as usize, ..m }
    }
}

/// The return is noted where the exits of the function, or of the innermost loop whose iterations are
/// not known, are recorded.
pub open spec fn return_recorded(a: Machine, b: Machine) -> bool {
    &&& frame(a, b)
    &&& b.arena == a.arena
    &&& b.condition == a.condition
    &&& b.next_branch == a.next_branch
    &&& b.flows == a.flows
    &&& b.loops == a.loops
    &&& exits::return_marked(a.store, b.store, a.captures@, b.captures@, a.recording(), a.condition)
}

proof fn lemma_return_kept(a: Machine, b: Machine)
    requires
        a.wf(),
        b.known == a.known,
        return_recorded(a, b),
        b.store.wf(),
        b.store.guards_in(b.arena@),
    ensures
        b.wf(),
        a.kept(b),
{
    exits::lemma_marked_keeps(a.store, b.store, a.captures@, b.captures@, a.recording(), a.condition);
    assert(goes_on(a.store, b.store)) by {
        assert forall|d: int| 0 <= d < a.store.checkpoints@.len() implies #[trigger] b.store.saved(d) == a.store.saved(d) by {}
    }
    assert(a.written@.take(a.written@.len() as int) =~= a.written@);
    assert forall|l: int| 0 <= l < b.loops@.len() implies (#[trigger] b.loops@[l]).wf(b.store, b.arena@) by {
        assert(a.loops@[l].wf(a.store, a.arena@));
        lemma_loop_wf(a.loops@[l], a.store, b.store, a.arena@, b.arena@);
    }
    assert forall|l: int| 0 <= l < a.loops@.len() implies loop_kept(#[trigger] a.loops@[l], b.loops@[l]) by {
        assert(a.loops@[l].breaks@.take(a.loops@[l].breaks@.len() as int) =~= a.loops@[l].breaks@);
    }
    assert forall|f: int| 0 <= f < b.functions@.len() implies function_wf(#[trigger] b.functions@[f], b.store) by {
        assert(function_wf(a.functions@[f], a.store));
    }
    assert(b.captures@.len() == a.captures@.len());
    assert forall|l: int| 0 <= l < a.captures@.len() implies capture_kept(#[trigger] a.captures@[l], #[trigger] b.captures@[l]) && capture_wf(
        b.captures@[l],
        b.store,
        b.arena@,
    ) by {
        assert(capture_wf(a.captures@[l], a.store, a.arena@));
        lemma_capture_wf(a.captures@[l], a.store, b.store, a.arena@, b.arena@);
        if !exits::none_captures(a.captures@) {
            let at = exits::lemma_innermost(a.captures@, a.captures@.len() as int);
            assert(exits::capturing(a.captures@, at));
            if l != at {
                assert(b.captures@[l] == a.captures@[l]);
            } else {
                let now = b.captures@[l]->0;
                let was = a.captures@[l]->0;
                assert forall|i: int| 0 <= i < now.conditions@.len() implies (#[trigger] now.conditions@[i]).node < b.arena@.len() by {
                    if i < was.conditions@.len() {
                        assert(now.conditions@[i] == was.conditions@[i]);
                    }
                }
            }
        }
    }
    assert forall|l: int| 0 <= l < b.captures@.len() implies capture_wf(#[trigger] b.captures@[l], b.store, b.arena@) by {
        assert(capture_kept(a.captures@[l], b.captures@[l]));
    }
}


/// Two states that differ in what is kept with an expression only.
pub open spec fn scoped(a: Machine, b: Machine) -> bool {
    b == (Machine { cache: b.cache, choices: b.choices, effects_only: b.effects_only, ..a })
}

/// What an expression of its own is evaluated with.
pub proof fn lemma_scope_entered(a: Machine, b: Machine)
    requires
        a.wf(),
        scoped(a, b),
        b.cache matches Some(cache) ==> b.cache == a.cache || cache_below(cache, b.store.versions@.len() as int),
        forall|occurrence: usize| #[trigger] b.choices@.contains_key(occurrence) ==> b.choices@[occurrence].arms == 2,
    ensures
        b.wf(),
{
    assert forall|l: int| 0 <= l < b.loops@.len() implies (#[trigger] b.loops@[l]).wf(b.store, b.arena@) by {
        assert(a.loops@[l].wf(a.store, a.arena@));
    }
    assert forall|l: int| 0 <= l < b.captures@.len() implies capture_wf(#[trigger] b.captures@[l], b.store, b.arena@) by {
        assert(capture_wf(a.captures@[l], a.store, a.arena@));
    }
    assert forall|f: int| 0 <= f < b.functions@.len() implies function_wf(#[trigger] b.functions@[f], b.store) by {
        assert(function_wf(a.functions@[f], a.store));
    }
}

/// What was kept before comes back once an expression of its own is evaluated.
pub proof fn lemma_scope_left(a: Machine, entered: Machine, n: Machine, b: Machine)
    requires
        a.wf(),
        scoped(a, entered),
        entered.kept(n),
        n.wf(),
        scoped(n, b),
        b.cache == a.cache || (b.cache is Some && a.cache is Some && cache_below(b.cache->0, b.store.versions@.len() as int)),
        b.choices == a.choices || forall|occurrence: usize| #[trigger] b.choices@.contains_key(occurrence) ==> b.choices@[occurrence].arms == 2,
        b.effects_only == a.effects_only,
    ensures
        b.wf(),
        a.kept(b),
{
    if let Some(cache) = a.cache {
        lemma_cache_grows(cache, a.store.versions@.len() as int, b.store.versions@.len() as int);
    }
    lemma_scope_entered(n, b);
    assert forall|l: int| 0 <= l < a.loops@.len() implies loop_kept(#[trigger] a.loops@[l], b.loops@[l]) by {
        assert(loop_kept(entered.loops@[l], n.loops@[l]));
    }
    assert forall|l: int| 0 <= l < a.captures@.len() implies capture_kept(#[trigger] a.captures@[l], b.captures@[l]) by {
        assert(capture_kept(entered.captures@[l], n.captures@[l]));
    }
}

/// A store in the same state goes on.
pub proof fn lemma_same_goes_on(a: SsaStore, b: SsaStore)
    requires
        ssa::same_state(a, b),
    ensures
        goes_on(a, b),
{
    assert forall|depth: int| 0 <= depth < a.checkpoints@.len() implies #[trigger] b.saved(depth) == a.saved(depth) by {}
}

/// Only effects counted for a while.
pub proof fn lemma_kept_cache(a: Machine, entered: Machine, n: Machine, b: Machine)
    requires
        a.wf(),
        entered == (Machine { effects_only: true, ..a }),
        entered.kept(n),
        n.wf(),
        b == (Machine { effects_only: a.effects_only, ..n }),
    ensures
        b.wf(),
        a.kept(b),
{
    lemma_scope_entered(n, b);
    assert forall|l: int| 0 <= l < a.loops@.len() implies loop_kept(#[trigger] a.loops@[l], b.loops@[l]) by {
        assert(loop_kept(entered.loops@[l], n.loops@[l]));
    }
    assert forall|l: int| 0 <= l < a.captures@.len() implies capture_kept(#[trigger] a.captures@[l], b.captures@[l]) by {
        assert(capture_kept(entered.captures@[l], n.captures@[l]));
    }
}

} // verus!
