//! The statements of a procedure are evaluated one after the other, with their expressions and calls.
use vstd::prelude::*;
use std::collections::HashMap;
use std::rc::Rc;
use crate::apply::{CopyPlace, FormalShape, FormalValue, OutputDestination};
use crate::arena;
use crate::arena::{PathCondition, PathNode};
use crate::assigning;
use crate::assigning::{destination_offsets, destination_width, Planned, TotalWidth};
use crate::bounds;
use crate::bounds::{for_range_has_dynamic_bounds, plan_loop, ForRange, LoopPlan};
use crate::branches;
use crate::branches::{merge_branches, Branch};
use crate::calling;
use crate::flow;
use crate::flow::{FlowPredicate, FlowTree, Plan, ProcedureFlow};
use crate::flows;
use crate::footprint;
use crate::footprint::{function_call_write_footprint, statement_write_footprint, statements_have_unsupported};
use crate::frames::{plan_call, CallPlan, SummaryLookup};
use crate::ir::{Access, Argument, Call, CaseArm, Expression, Iterations, Node, Operand, OutputArgument, Pattern, Statement, SystemCall, SystemKind};
use crate::layout;
use crate::layout::{CallResult, EvaluationCache, RegionGroup};
use crate::looping;
use crate::looping::RuntimeLoop;
use crate::machine;
use crate::machine::{add_versions, copy_versions, Evaluated, Machine, OpenFunction, OpenLoop};
use crate::order;
use crate::order::sort_dedup;
use crate::outputs::FormalOutputCoercion;
use crate::partition::NodeKey;
use crate::path;
use crate::path::BranchId;
use crate::predicates;
use crate::predicates::{from_expression, PredicateExpression};
use crate::results;
use crate::results::append_versions;
use crate::runtime::MaySkip;
use crate::selection;
use crate::selection::{plan_case, CasePlan};
use crate::sequence;
use crate::sequence::{leave_known_loop, next_continuation_control, sequence_flows, FlowState};
use crate::ssa;
use crate::ssa::{BranchState, Checkpoint, KeyBinding, SsaStore, StateRevision};
use crate::steps;
use crate::values;
use crate::values::Program;

verus! {

/// Marks a state on the way, with the versions found before and next.
pub open spec fn way(m: Machine, before: Seq<usize>, found: Seq<usize>) -> bool {
    true
}

/// Marks two states on the way, with what was found there.
pub open spec fn way_both(m: Machine, first: Seq<usize>, n: Machine, second: Seq<usize>) -> bool {
    true
}

/// Marks an arm of an expression.
pub open spec fn way_arm(opened: Machine, n: Machine, reads: Seq<usize>) -> bool {
    true
}

/// Marks the arms of an expression.
pub open spec fn way_choice(m: Machine, branch: BranchId, first: Machine, yes: BranchState, found: Seq<usize>, second: Machine, no: BranchState, other: Seq<usize>) -> bool {
    true
}

/// Marks the result of a call.
pub open spec fn way_call(m: Machine, groups: Seq<RegionGroup>) -> bool {
    true
}

/// Marks nodes.
pub open spec fn way_nodes(list: Seq<NodeKey>) -> bool {
    true
}

/// Expressions were evaluated, one after the other.
pub open spec fn ran_exprs<'a>(p: Program<'a>, depth: nat, list: Seq<Expression>, count: int, a: Machine, b: Machine, reads: Seq<usize>) -> bool
    decreases depth, 0nat, list, count as nat,
{
    if count <= 0 || count > list.len() {
        steps::same(a, b) && reads.len() == 0
    } else {
        exists|m: Machine, before: Seq<usize>, found: Seq<usize>| #[trigger]
            way(m, before, found) && ran_exprs(p, depth, list, count - 1, a, m, before) && ran_expr(p, depth, list[count - 1], m, b, found) && reads == before + found
    }
}

/// The parts of an expression were evaluated, each with its repetition.
pub open spec fn ran_operands<'a>(p: Program<'a>, depth: nat, list: Seq<Operand>, count: int, a: Machine, b: Machine, reads: Seq<usize>) -> bool
    decreases depth, 0nat, list, count as nat,
{
    if count <= 0 || count > list.len() {
        steps::same(a, b) && reads.len() == 0
    } else {
        exists|m: Machine, before: Seq<usize>, n: Machine, found: Seq<usize>| #[trigger]
            way_both(m, before, n, found) && ran_operands(p, depth, list, count - 1, a, m, before) && ran_expr(p, depth, list[count - 1].value, m, n, found)
                && match list[count - 1].repeat {
                None => steps::same(n, b) && reads == before + found,
                Some(repeat) => exists|times: Seq<usize>| #[trigger] way(b, found, times) && ran_expr(p, depth, repeat, n, b, times) && reads == before + found + times,
            }
    }
}

/// An arm of an expression was evaluated, and its changes are kept aside.
pub open spec fn ran_expr_arm<'a>(
    p: Program<'a>,
    depth: nat,
    e: Expression,
    branch: BranchId,
    arm: usize,
    parent: PathCondition,
    a: Machine,
    b: Machine,
    state: BranchState,
    versions: Seq<usize>,
) -> bool
    decreases depth, 0nat, e, 2nat,
{
    exists|opened: Machine, n: Machine, reads: Seq<usize>| #[trigger]
        way_arm(opened, n, reads) && machine::opens(a, opened, branch, arm, parent) && ran_expr(p, depth, e, opened, n, reads) && steps::arm_left_to(
            a,
            n,
            b,
            Some(reads),
            state,
            versions,
        )
}

/// An arm in which nothing is evaluated.
pub open spec fn skipped_arm(branch: BranchId, arm: usize, parent: PathCondition, a: Machine, b: Machine, state: BranchState) -> bool {
    exists|opened: Machine| #[trigger]
        machine::opens(a, opened, branch, arm, parent) && steps::arm_left_to(a, opened, b, None, state, Seq::empty())
}

/// An expression was evaluated: `reads` are the versions that its value comes from, each once.
pub open spec fn ran_expr<'a>(p: Program<'a>, depth: nat, e: Expression, a: Machine, b: Machine, reads: Seq<usize>) -> bool
    decreases depth, 0nat, e, 1nat,
{
    match e.node {
        Node::Variable(access) => if values::was_read(a, e.occurrence) {
            steps::same(a, b) && values::read_again(a, e.occurrence, reads)
        } else {
            exists|m: Machine, first: Seq<usize>, n: Machine, second: Seq<usize>| #[trigger]
                way_both(m, first, n, second) && ran_exprs(p, depth, access.index@, access.index@.len() as int, a, m, first) && ran_exprs(
                    p,
                    depth,
                    access.select@,
                    access.select@.len() as int,
                    m,
                    n,
                    second,
                ) && variable_read_by(p, access, e.occurrence, first + second, n, b, reads)
        },
        Node::Hierarchical(_) => steps::same(a, b) && reads.len() == 0,
        Node::Constant => steps::same(a, b) && reads.len() == 0,
        Node::Unknown => reads.len() == 1 && steps::value_unknown(a, b, reads[0]),
        Node::Call(call) => ran_request(p, depth, call, e.occurrence, a, b, reads),
        Node::System(call) => ran_system(p, depth, call, Seq::empty(), a, b, reads),
        Node::Unary(_, operand) => ran_expr(p, depth, *operand, a, b, reads),
        Node::Binary(left, op, right) => exists|m: Machine, found: Seq<usize>, n: Machine, other: Seq<usize>| #[trigger]
            way_both(m, found, n, other) && ran_expr(p, depth, *left, a, m, found) && match flows::evaluates_right(*left, op, true) {
                Some(false) => steps::same(m, b) && values::sorted_from(reads, found),
                Some(true) => ran_expr(p, depth, *right, m, b, other) && values::sorted_from(reads, found + other),
                None => exists|branch: BranchId, first: Machine, yes: BranchState, second: Machine, no: BranchState| #[trigger]
                    way_choice(n, branch, first, yes, other, second, no, Seq::empty()) && steps::choice_numbered(m, n, e.occurrence, branch) && ran_expr_arm(
                        p,
                        depth,
                        *right,
                        branch,
                        0,
                        m.condition,
                        n,
                        first,
                        yes,
                        other,
                    ) && skipped_arm(branch, 1, m.condition, first, second, no) && steps::arms_joined(second, b, seq![yes, no], m.condition) && values::sorted_from(
                        reads,
                        found + other,
                    ),
            },
        Node::Ternary(condition, left, right) => exists|m: Machine, found: Seq<usize>, n: Machine, other: Seq<usize>| #[trigger]
            way_both(m, found, n, other) && ran_expr(p, depth, *condition, a, m, found) && match flows::truth_of(*condition) {
                Some(true) => ran_expr(p, depth, *left, m, b, other) && values::sorted_from(reads, found + other),
                Some(false) => ran_expr(p, depth, *right, m, b, other) && values::sorted_from(reads, found + other),
                None => exists|branch: BranchId, first: Machine, yes: BranchState, second: Machine, no: BranchState, more: Seq<usize>| #[trigger]
                    way_choice(n, branch, first, yes, other, second, no, more) && steps::choice_numbered(m, n, e.occurrence, branch) && ran_expr_arm(
                        p,
                        depth,
                        *left,
                        branch,
                        0,
                        m.condition,
                        n,
                        first,
                        yes,
                        other,
                    ) && ran_expr_arm(p, depth, *right, branch, 1, m.condition, first, second, no, more) && steps::arms_joined(
                        second,
                        b,
                        seq![yes, no],
                        m.condition,
                    ) && values::sorted_from(reads, found + other + more),
            },
        Node::Concatenation(parts) => exists|found: Seq<usize>| #[trigger]
            way(b, found, reads) && ran_operands(p, depth, parts@, parts@.len() as int, a, b, found) && values::sorted_from(reads, found),
        Node::ArrayLiteral(items) => exists|found: Seq<usize>| #[trigger]
            way(b, found, reads) && ran_operands(p, depth, items@, items@.len() as int, a, b, found) && values::sorted_from(reads, found),
        Node::Struct(members) => exists|found: Seq<usize>| #[trigger]
            way(b, found, reads) && ran_operands(p, depth, members@, members@.len() as int, a, b, found) && values::sorted_from(reads, found),
    }
}

/// A variable is read once its selectors were evaluated.
pub open spec fn variable_read_by<'a>(p: Program<'a>, access: Access, occurrence: usize, found: Seq<usize>, a: Machine, b: Machine, reads: Seq<usize>) -> bool {
    exists|selectors: Seq<usize>| #[trigger]
        values::sorted_from(selectors, found) && values::variable_read(p, access, occurrence, selectors, a, b, reads)
}

/// The versions of a result, each once.
pub open spec fn result_versions(groups: Seq<RegionGroup>, reads: Seq<usize>) -> bool {
    order::strictly_sorted(reads) && forall|version: usize| #[trigger] reads.contains(version) <==> in_result(groups, version)
}

pub open spec fn in_result(groups: Seq<RegionGroup>, version: usize) -> bool {
    exists|g: int, k: int| 0 <= g < groups.len() && 0 <= k < groups[g].regions@.len() && (#[trigger] groups[g].regions@[k]).version == version
}

/// The call was evaluated before.
pub open spec fn was_called(a: Machine, occurrence: usize) -> bool {
    a.cache matches Some(cache) && cache.calls@.dom().contains(occurrence)
}

/// The result of a call is kept with the expression, where what is found in it is kept.
pub open spec fn result_kept(before: Option<EvaluationCache>, after: Option<EvaluationCache>, occurrence: usize, groups: Seq<RegionGroup>) -> bool {
    match before {
        None => after is None,
        Some(cache) => after matches Some(now) && now.variable_reads == cache.variable_reads && now.packed_layouts == cache.packed_layouts && now.array_layouts
            == cache.array_layouts && now.struct_layouts == cache.struct_layouts && now.calls@.dom() == cache.calls@.dom().insert(occurrence)
            && (*now.calls@[occurrence]).region_groups@ == groups && forall|o: usize|
            o != occurrence && #[trigger] cache.calls@.dom().contains(o) ==> now.calls@[o] == cache.calls@[o],
    }
}

/// A call is left with its result kept.
pub open spec fn call_kept(a: Machine, m: Machine, b: Machine, occurrence: usize, groups: Seq<RegionGroup>) -> bool {
    &&& values::reading(Machine { effects_only: a.effects_only, ..m }, b)
    &&& b.store == m.store
    &&& result_kept(m.cache, b.cache, occurrence, groups)
}

/// The result of a call in an expression: found before, or by evaluating the call. It is left out
/// where only effects count.
pub open spec fn ran_request<'a>(p: Program<'a>, depth: nat, call: Call, occurrence: usize, a: Machine, b: Machine, reads: Seq<usize>) -> bool
    decreases depth, 0nat, call, 3nat,
{
    if was_called(a, occurrence) {
        steps::same(a, b) && if a.effects_only {
            reads.len() == 0
        } else {
            result_versions((*(a.cache->0).calls@[occurrence]).region_groups@, reads)
        }
    } else {
        exists|m: Machine, groups: Seq<RegionGroup>| #[trigger]
            way_call(m, groups) && ran_call(p, depth, call, Seq::empty(), Machine { effects_only: false, ..a }, m, groups) && call_kept(
                a,
                m,
                b,
                occurrence,
                groups,
            ) && if a.effects_only {
                reads.len() == 0
            } else {
                result_versions(groups, reads)
            }
    }
}

/// The function is being evaluated.
pub open spec fn is_open(functions: Seq<OpenFunction>, callee: u64) -> bool {
    exists|f: int| 0 <= f < functions.len() && (#[trigger] functions[f]).callee == Some(callee)
}

/// The call is evaluated by the statements of the function.
pub open spec fn enters<'a>(p: Program<'a>, depth: nat, call: Call, a: Machine) -> bool {
    depth > 0 && call.callee < p.bodies@.len() && !is_open(a.functions@, call.callee)
}

/// The actual arguments were evaluated for their effects.
pub open spec fn ran_actuals<'a>(p: Program<'a>, depth: nat, list: Seq<Argument>, count: int, a: Machine, b: Machine) -> bool
    decreases depth, 0nat, list, count as nat,
{
    if count <= 0 || count > list.len() {
        steps::same(a, b)
    } else {
        exists|m: Machine, found: Seq<usize>| #[trigger]
            way(m, found, found) && ran_actuals(p, depth, list, count - 1, a, m) && ran_expr(p, depth, list[count - 1].actual, m, b, found)
    }
}

/// The destinations of all outputs were written from nothing known.
pub open spec fn ran_unknown_outputs<'a>(p: Program<'a>, depth: nat, list: Seq<OutputArgument>, count: int, a: Machine, b: Machine) -> bool
    decreases depth, 0nat, list, count as nat,
{
    if count <= 0 || count > list.len() {
        steps::same(a, b)
    } else {
        exists|m: Machine| #[trigger]
            way(m, Seq::empty(), Seq::empty()) && ran_unknown_outputs(p, depth, list, count - 1, a, m) && ran_writes(
                p,
                depth,
                list[count - 1].destinations@,
                list[count - 1].destinations@.len() as int,
                Seq::empty(),
                m,
                b,
            )
    }
}

/// What a call of which nothing is known may write: what can be seen of it, and what the procedure owns.
pub open spec fn may_be_written<'a>(p: Program<'a>, call: Call, list: Seq<NodeKey>) -> bool {
    order::strictly_sorted(list) && forall|key: NodeKey| #[trigger]
        list.contains(key) <==> footprint::touches(*p.partition, footprint::all_written(p.bodies@, crate::collect::call_found(false, call)), key) || p.owned@.contains(key)
}

/// Marks the way through an argument.
pub open spec fn way_input(formal: Option<values::Formal>, opened: Machine, m: Machine, effects: BranchState, n: Machine, joined: Machine) -> bool {
    true
}

/// An argument was evaluated for its effects, its bits were looked at in the state before them, and
/// then the effects took place.
pub open spec fn ran_input<'a>(p: Program<'a>, depth: nat, function: values::Function, argument: Argument, a: Machine, b: Machine, before: Seq<KeyBinding>, after: Seq<KeyBinding>) -> bool
    decreases depth, 0nat, argument, 0nat,
{
    exists|formal: Option<values::Formal>, opened: Machine, m: Machine, effects: BranchState, n: Machine, joined: Machine| #[trigger]
        way_input(formal, opened, m, effects, n, joined) && calling::is_formal(function, argument.formal, formal) && (if a.cache is None {
            expression_opened(a, opened)
        } else {
            opened == a
        }) && effects_taken(p, depth, argument.actual, opened, m, effects) && calling::argument_passed(p, formal, argument.actual, m, n, before, after)
            && steps::arms_joined(n, joined, seq![effects], a.condition) && (if a.cache is None {
            expression_closed(a, joined, b)
        } else {
            b == joined
        })
}

/// Marks a state on the way through arguments.
pub open spec fn way_inputs(m: Machine, list: Seq<KeyBinding>) -> bool {
    true
}

/// The arguments were evaluated, one after the other.
pub open spec fn ran_inputs<'a>(p: Program<'a>, depth: nat, function: values::Function, list: Seq<Argument>, count: int, a: Machine, b: Machine, bindings: Seq<KeyBinding>) -> bool
    decreases depth, 0nat, list, count as nat,
{
    if count <= 0 || count > list.len() {
        b == a && bindings.len() == 0
    } else {
        exists|m: Machine, before: Seq<KeyBinding>| #[trigger]
            way_inputs(m, before) && ran_inputs(p, depth, function, list, count - 1, a, m, before) && ran_input(
                p,
                depth,
                function,
                list[count - 1],
                m,
                b,
                before,
                bindings,
            )
    }
}

/// Marks a destination of an output.
pub open spec fn way_prepared(q: Machine, prepared: OutputDestination) -> bool {
    true
}

/// Marks the value of an output.
pub open spec fn way_value(n: Machine, value: FormalValue) -> bool {
    true
}

/// An output was copied to the first `count` destinations, one after the other: what selects a destination is
/// evaluated once the ones before it are written.
pub open spec fn ran_destinations<'a>(
    p: Program<'a>,
    depth: nat,
    value: FormalValue,
    shape: Option<FormalShape>,
    destinations: Seq<Access>,
    count: int,
    controls: Seq<usize>,
    a: Machine,
    b: Machine,
) -> bool
    decreases depth, 0nat, destinations, count as nat,
{
    if count <= 0 || count > destinations.len() {
        b == a
    } else {
        exists|m: Machine, n: Machine, first: Seq<usize>, o: Machine, second: Seq<usize>, q: Machine, prepared: OutputDestination|
            #![trigger way(m, first, second), way_both(n, first, o, second), way_prepared(q, prepared)]
            way(m, first, second) && way_both(n, first, o, second) && way_prepared(q, prepared) && ran_destinations(
                p,
                depth,
                value,
                shape,
                destinations,
                count - 1,
                controls,
                a,
                m,
            ) && ran_exprs(p, depth, destinations[count - 1].index@, destinations[count - 1].index@.len() as int, m, n, first) && ran_exprs(
                p,
                depth,
                destinations[count - 1].select@,
                destinations[count - 1].select@.len() as int,
                n,
                o,
                second,
            ) && calling::output_prepared(p, destinations[count - 1], controls + first + second, o, q, prepared) && calling::destination_copied(
                p,
                &value,
                calling::place_of(shape, destinations, count - 1),
                prepared,
                q,
                b,
            )
    }
}

/// The outputs were copied, one after the other. An output whose widths together do not fit is not copied.
pub open spec fn ran_outputs<'a>(p: Program<'a>, depth: nat, function: values::Function, list: Seq<OutputArgument>, count: int, controls: Seq<usize>, a: Machine, b: Machine) -> bool
    decreases depth, 0nat, list, count as nat,
{
    if count <= 0 || count > list.len() {
        b == a
    } else {
        exists|m: Machine, formal: Option<values::Formal>, n: Machine, value: FormalValue|
            #![trigger way_value(n, value), calling::is_formal(function, list[count - 1].formal, formal), way(m, controls, controls)]
            way_value(n, value) && way(m, controls, controls) && calling::is_formal(function, list[count - 1].formal, formal) && ran_outputs(
                p,
                depth,
                function,
                list,
                count - 1,
                controls,
                a,
                m,
            ) && match formal {
                None => b == m && n == m,
                Some(formal) => calling::formal_read(p, formal.id, m, n, value) && if calling::copied_by_position(formal.shape, list[count - 1].destinations@)
                    && calling::widths_from(list[count - 1].destinations@, 0) > usize::MAX {
                    b == (Machine { fits: false, ..n })
                } else {
                    ran_destinations(
                        p,
                        depth,
                        value,
                        formal.shape,
                        list[count - 1].destinations@,
                        list[count - 1].destinations@.len() as int,
                        controls,
                        Machine { complete: n.complete && calling::copied_by_position(formal.shape, list[count - 1].destinations@), ..n },
                        b,
                    )
                },
            }
    }
}

/// Marks the way through the body of a function.
pub open spec fn way_body(opened: Machine, revision: StateRevision, ended: Machine, e: Evaluated, closed: Machine, g: Machine) -> bool {
    true
}

/// A call was evaluated by the statements of the function: the arguments are found before it is
/// entered; its variables are cleared and the arguments bound; its statements are evaluated; what was
/// changed at its exits comes together; the result is read; and the outputs are copied.
pub open spec fn ran_in_place<'a>(p: Program<'a>, depth: nat, call: Call, controls: Seq<usize>, a: Machine, b: Machine, groups: Seq<RegionGroup>) -> bool
    decreases depth, 0nat, call, 1nat,
{
    let function = p.functions@[call.callee as int];
    depth > 0 && exists|m: Machine, inputs: Seq<KeyBinding>, n: Machine|
        #![trigger way_inputs(m, inputs), way(n, controls, controls)]
        way_inputs(m, inputs) && way(n, controls, controls) && ran_inputs(p, depth, function, call.inputs@, call.inputs@.len() as int, a, m, inputs)
            && calling::function_entered(p, function, inputs, m, n) && if n.store.next_revision_id == usize::MAX {
            steps::same(Machine { fits: false, ..n }, b) && groups.len() == 0
        } else {
            exists|opened: Machine, revision: StateRevision, ended: Machine, e: Evaluated, closed: Machine, g: Machine| #[trigger]
                way_body(opened, revision, ended, e, closed, g) && calling::body_opened(n, opened, call.callee, function.result, revision) && ran_block(
                    p,
                    (depth - 1) as nat,
                    p.bodies@[call.callee as int]@,
                    controls,
                    opened,
                    ended,
                    e,
                ) && calling::body_closed(n, ended, closed, revision, e) && calling::result_read(p, function.result, closed, g, groups) && ran_outputs(
                    p,
                    depth,
                    function,
                    call.outputs@,
                    call.outputs@.len() as int,
                    controls,
                    g,
                    b,
                )
        }
}

/// A call of which nothing is known was evaluated: its arguments for their effects; what it may write is
/// forgotten; and its outputs come from what selects them alone.
pub open spec fn ran_opaque<'a>(p: Program<'a>, depth: nat, call: Call, a: Machine, b: Machine) -> bool
    decreases depth, 0nat, call, 1nat,
{
    exists|m: Machine, n: Machine, list: Seq<NodeKey>|
        #![trigger way_nodes(list), way_arm(m, n, Seq::empty())]
        way_nodes(list) && way_arm(m, n, Seq::empty()) && ran_actuals(p, depth, call.inputs@, call.inputs@.len() as int, a, m) && may_be_written(p, call, list)
            && steps::nodes_forgotten(p, list, false, m, n) && ran_unknown_outputs(p, depth, call.outputs@, call.outputs@.len() as int, n, b)
}

/// A call was evaluated: by the statements of the function where it has some and is not being evaluated
/// already, else as one of which nothing is known.
pub open spec fn ran_call<'a>(p: Program<'a>, depth: nat, call: Call, controls: Seq<usize>, a: Machine, b: Machine, groups: Seq<RegionGroup>) -> bool
    decreases depth, 0nat, call, 2nat,
{
    if enters(p, depth, call, a) {
        ran_in_place(p, depth, call, controls, a, b, groups)
    } else {
        groups.len() == 0 && ran_opaque(p, depth, call, a, b)
    }
}

/// One value was written to destinations, each once its selectors were evaluated.
pub open spec fn ran_writes<'a>(p: Program<'a>, depth: nat, list: Seq<Access>, count: int, sources: Seq<usize>, a: Machine, b: Machine) -> bool
    decreases depth, 0nat, list, count as nat,
{
    if count <= 0 || count > list.len() {
        steps::same(a, b)
    } else {
        exists|m: Machine, n: Machine, first: Seq<usize>, o: Machine, second: Seq<usize>|
            #![trigger way(m, first, second), way_both(n, first, o, second)]
            way(m, first, second) && way_both(n, first, o, second) && ran_writes(p, depth, list, count - 1, sources, a, m) && ran_exprs(
                p,
                depth,
                list[count - 1].index@,
                list[count - 1].index@.len() as int,
                m,
                n,
                first,
            ) && ran_exprs(p, depth, list[count - 1].select@, list[count - 1].select@.len() as int, n, o, second) && steps::destination_written(
                p,
                list[count - 1],
                sources + first + second,
                o,
                b,
            )
    }
}

/// A system function was called.
pub open spec fn ran_system<'a>(p: Program<'a>, depth: nat, call: SystemCall, controls: Seq<usize>, a: Machine, b: Machine, reads: Seq<usize>) -> bool
    decreases depth, 0nat, call, 1nat,
{
    match call.kind {
        SystemKind::Query => steps::same(a, b) && reads.len() == 0,
        SystemKind::Onehot | SystemKind::Cast => exists|found: Seq<usize>| #[trigger]
            way(b, found, reads) && ran_exprs(p, depth, call.inputs@, call.inputs@.len() as int, a, b, found) && values::sorted_from(reads, found),
        SystemKind::Load => reads.len() == 0 && exists|m: Machine, found: Seq<usize>| #[trigger]
            way(m, found, found) && ran_exprs(p, depth, call.inputs@, call.inputs@.len() as int, a, m, found) && ran_writes(
                p,
                depth,
                call.outputs@,
                call.outputs@.len() as int,
                found + controls,
                m,
                b,
            ),
        SystemKind::Effect => reads.len() == 0 && exists|found: Seq<usize>| #[trigger]
            way(b, found, reads) && ran_exprs(p, depth, call.inputs@, call.inputs@.len() as int, a, b, found),
    }
}


/// All versions of a result, each once.
fn all_results(groups: &Vec<RegionGroup>) -> (r: Vec<usize>)
    ensures
        result_versions(groups@, r@),
{
    let mut list: Vec<usize> = Vec::new();
    let mut g: usize = 0;
    while g < groups.len()
        invariant
            g <= groups@.len(),
            forall|version: usize| #[trigger] list@.contains(version) <==> in_result(groups@.take(g as int), version),
        decreases groups@.len() - g,
    {
        let regions = &groups[g].regions;
        let ghost before = list@;
        let mut k: usize = 0;
        while k < regions.len()
            invariant
                g < groups@.len(),
                regions@ == groups@[g as int].regions@,
                k <= regions@.len(),
                forall|version: usize| #[trigger]
                    list@.contains(version) <==> before.contains(version) || exists|q: int| 0 <= q < k && (#[trigger] regions@[q]).version == version,
            decreases regions@.len() - k,
        {
            let ghost known = list@;
            list.push(regions[k].version);
            proof {
                assert forall|version: usize| #[trigger] list@.contains(version) <==> before.contains(version) || exists|q: int|
                    0 <= q < k + 1 && (#[trigger] regions@[q]).version == version by {
                    let was = known.contains(version);
                    assert(list@[known.len() as int] == regions@[k as int].version);
                    if known.contains(version) {
                        let q = choose|q: int| 0 <= q < known.len() && known[q] == version;
                        assert(list@[q] == version);
                    }
                    if list@.contains(version) {
                        let q = choose|q: int| 0 <= q < list@.len() && list@[q] == version;
                        if q < known.len() {
                            assert(known[q] == version);
                        } else {
                            assert(regions@[k as int].version == version);
                        }
                    }
                }
            }
            k = k + 1;
        }
        proof {
            let taken = groups@.take(g as int);
            let longer = groups@.take(g + 1);
            assert forall|version: usize| #[trigger] list@.contains(version) <==> in_result(longer, version) by {
                let was = before.contains(version);
                if in_result(taken, version) {
                    let (h, q) = choose|h: int, q: int| 0 <= h < taken.len() && 0 <= q < taken[h].regions@.len() && (#[trigger] taken[h].regions@[q]).version == version;
                    assert(longer[h].regions@[q].version == version);
                }
                if in_result(longer, version) {
                    let (h, q) = choose|h: int, q: int| 0 <= h < longer.len() && 0 <= q < longer[h].regions@.len() && (#[trigger] longer[h].regions@[q]).version == version;
                    if h < g {
                        assert(taken[h].regions@[q].version == version);
                    } else {
                        assert(regions@[q].version == version);
                    }
                }
                if exists|q: int| 0 <= q < k && (#[trigger] regions@[q]).version == version {
                    let q = choose|q: int| 0 <= q < k && (#[trigger] regions@[q]).version == version;
                    assert(longer[g as int].regions@[q].version == version);
                }
            }
        }
        g = g + 1;
    }
    assert(groups@.take(g as int) =~= groups@);
    let r = sort_dedup(&list);
    assert forall|version: usize| #[trigger] r@.contains(version) <==> in_result(groups@, version) by {
        assert(r@.contains(version) <==> list@.contains(version));
    }
    r
}

proof fn lemma_result_below(groups: Seq<RegionGroup>, reads: Seq<usize>, limit: int)
    requires
        result_versions(groups, reads),
        results::result_below(groups, limit),
    ensures
        sequence::all_below(reads, limit),
{
    assert forall|k: int| 0 <= k < reads.len() implies (#[trigger] reads[k]) < limit by {
        assert(reads.contains(reads[k]));
        let (g, q) = choose|g: int, q: int| 0 <= g < groups.len() && 0 <= q < groups[g].regions@.len() && (#[trigger] groups[g].regions@[q]).version == reads[k];
        assert(groups[g].regions@[q].version < limit);
    }
}

fn join_lists(a: &Vec<usize>, b: &Vec<usize>) -> (r: Vec<usize>)
    ensures
        r@ == a@ + b@,
{
    let mut r = copy_versions(a);
    append_versions(&mut r, b);
    r
}

/// Whether a function is being evaluated.
fn find_open(functions: &Vec<OpenFunction>, callee: u64) -> (r: bool)
    ensures
        r == is_open(functions@, callee),
{
    let mut i: usize = 0;
    while i < functions.len()
        invariant
            i <= functions@.len(),
            forall|k: int| 0 <= k < i ==> (#[trigger] functions@[k]).callee != Some(callee),
        decreases functions@.len() - i,
    {
        if let Some(found) = functions[i].callee {
            if found == callee {
                assert(functions@[i as int].callee == Some(callee));
                return true;
            }
        }
        i = i + 1;
    }
    false
}

impl Machine {
    /// What a machine is evaluated with.
    pub open spec fn ready<'a>(self, p: Program<'a>) -> bool {
        self.wf() && p.wf() && self.keys == p.nodes@.len()
    }

    /// Evaluates expressions, one after the other.
    pub fn eval_exprs(&mut self, p: &Program, depth: usize, list: &Vec<Expression>) -> (r: Vec<usize>)
        requires
            old(self).ready(*p),
        ensures
            final(self).wf(),
            old(self).kept(*final(self)),
            final(self).condition == old(self).condition,
            ran_exprs(*p, depth as nat, list@, list@.len() as int, *old(self), *final(self), r@),
            sequence::all_below(r@, final(self).store.versions@.len() as int),
        decreases depth, 0nat, list, 0nat,
    {
        let ghost start = *self;
        proof {
            machine::lemma_kept_self(start);
        }
        let mut r: Vec<usize> = Vec::new();
        let mut i: usize = 0;
        while i < list.len()
            invariant
                i <= list@.len(),
                start.ready(*p),
                self.wf(),
                start.kept(*self),
                self.condition == start.condition,
                ran_exprs(*p, depth as nat, list@, i as int, start, *self, r@),
                sequence::all_below(r@, self.store.versions@.len() as int),
            decreases list@.len() - i,
        {
            let ghost m = *self;
            let ghost before = r@;
            let found = self.eval_expr(p, depth, &list[i]);
            append_versions(&mut r, &found);
            proof {
                machine::lemma_kept_twice(start, m, *self);
                machine::lemma_below_grows(before, m.store.versions@.len() as int, self.store.versions@.len() as int);
                machine::lemma_below_joined(before, found@, self.store.versions@.len() as int);
                let c = i + 1;
                assert(way(m, before, found@));
                assert(ran_exprs(*p, depth as nat, list@, c - 1, start, m, before));
                assert(ran_exprs(*p, depth as nat, list@, c, start, *self, r@));
            }
            i = i + 1;
        }
        r
    }

    /// Evaluates the parts of an expression.
    fn eval_parts(&mut self, p: &Program, depth: usize, list: &Vec<Operand>) -> (r: Vec<usize>)
        requires
            old(self).ready(*p),
        ensures
            final(self).wf(),
            old(self).kept(*final(self)),
            final(self).condition == old(self).condition,
            exists|found: Seq<usize>| #[trigger]
                way(*final(self), found, r@) && ran_operands(*p, depth as nat, list@, list@.len() as int, *old(self), *final(self), found)
                    && values::sorted_from(r@, found),
            sequence::all_below(r@, final(self).store.versions@.len() as int),
        decreases depth, 0nat, list, 0nat,
    {
        let ghost start = *self;
        proof {
            machine::lemma_kept_self(start);
        }
        let mut r: Vec<usize> = Vec::new();
        let mut i: usize = 0;
        while i < list.len()
            invariant
                i <= list@.len(),
                start.ready(*p),
                self.wf(),
                start.kept(*self),
                self.condition == start.condition,
                ran_operands(*p, depth as nat, list@, i as int, start, *self, r@),
                sequence::all_below(r@, self.store.versions@.len() as int),
            decreases list@.len() - i,
        {
            let ghost m = *self;
            let ghost before = r@;
            let found = self.eval_expr(p, depth, &list[i].value);
            append_versions(&mut r, &found);
            let ghost n = *self;
            proof {
                machine::lemma_kept_twice(start, m, n);
                machine::lemma_below_grows(before, m.store.versions@.len() as int, n.store.versions@.len() as int);
                machine::lemma_below_joined(before, found@, n.store.versions@.len() as int);
                assert(way_both(m, before, n, found@));
                assert(ran_operands(*p, depth as nat, list@, i as int, start, m, before));
            }
            if let Some(repeat) = &list[i].repeat {
                let ghost joined = r@;
                let times = self.eval_expr(p, depth, repeat);
                append_versions(&mut r, &times);
                proof {
                    machine::lemma_kept_twice(start, n, *self);
                    machine::lemma_below_grows(joined, n.store.versions@.len() as int, self.store.versions@.len() as int);
                    machine::lemma_below_joined(joined, times@, self.store.versions@.len() as int);
                    assert(way(*self, found@, times@));
                }
            }
            proof {
                let c = i + 1;
                assert(ran_operands(*p, depth as nat, list@, c - 1, start, m, before));
                assert(ran_operands(*p, depth as nat, list@, c, start, *self, r@));
            }
            i = i + 1;
        }
        let sorted = sort_dedup(&r);
        proof {
            values::lemma_sorted_below(sorted@, r@, self.store.versions@.len() as int);
            assert(way(*self, r@, sorted@));
        }
        sorted
    }

    /// Evaluates an arm of an expression.
    fn eval_expr_arm(&mut self, p: &Program, depth: usize, e: &Expression, branch: BranchId, arm: usize, parent: PathCondition) -> (r: (BranchState, Vec<usize>))
        requires
            old(self).ready(*p),
            old(self).arena.holds(parent),
            arm < branch.arms,
        ensures
            final(self).wf(),
            old(self).kept(*final(self)),
            ran_expr_arm(*p, depth as nat, *e, branch, arm, parent, *old(self), *final(self), r.0, r.1@),
            r.0.wf(),
            forall|i: int| 0 <= i < r.0.bindings@.len() ==> (#[trigger] r.0.bindings@[i]).version < final(self).store.versions@.len(),
            sequence::all_below(r.1@, final(self).store.versions@.len() as int),
        decreases depth, 0nat, e, 2nat,
    {
        let ghost m = *self;
        let checkpoint = self.open_arm(branch, arm, parent);
        let ghost opened = *self;
        let reads = self.eval_expr(p, depth, e);
        let ghost n = *self;
        let ghost found = reads@;
        let r = self.leave_expression_arm(checkpoint, Some(reads), Ghost(m), Ghost(opened));
        proof {
            assert(way_arm(opened, n, found));
        }
        r
    }

    /// Evaluates an expression.
    pub fn eval_expr(&mut self, p: &Program, depth: usize, e: &Expression) -> (r: Vec<usize>)
        requires
            old(self).ready(*p),
        ensures
            final(self).wf(),
            old(self).kept(*final(self)),
            final(self).condition == old(self).condition,
            ran_expr(*p, depth as nat, *e, *old(self), *final(self), r@),
            sequence::all_below(r@, final(self).store.versions@.len() as int),
        decreases depth, 0nat, e, 1nat,
    {
        let ghost start = *self;
        proof {
            machine::lemma_kept_self(start);
        }
        match &e.node {
            Node::Variable(access) => {
                if let Some(reads) = self.find_read(e.occurrence) {
                    return reads;
                }
                let first = self.eval_exprs(p, depth, &access.index);
                let ghost m = *self;
                let second = self.eval_exprs(p, depth, &access.select);
                let ghost n = *self;
                let found = join_lists(&first, &second);
                let selectors = sort_dedup(&found);
                let ghost listed = selectors@;
                proof {
                    machine::lemma_below_grows(first@, m.store.versions@.len() as int, n.store.versions@.len() as int);
                    machine::lemma_below_joined(first@, second@, n.store.versions@.len() as int);
                    values::lemma_sorted_below(selectors@, found@, n.store.versions@.len() as int);
                    machine::lemma_kept_twice(start, m, n);
                }
                let r = self.read_variable(p, access, e.occurrence, selectors);
                proof {
                    machine::lemma_kept_twice(start, n, *self);
                    assert(way_both(m, first@, n, second@));
                    assert(values::sorted_from(listed, first@ + second@));
                    assert(variable_read_by(*p, *access, e.occurrence, first@ + second@, n, *self, r@));
                }
                r
            },
            Node::Hierarchical(_) => Vec::new(),
            Node::Constant => Vec::new(),
            Node::Unknown => {
                let version: usize = self.opaque_value();
                let mut r: Vec<usize> = Vec::new();
                r.push(version);
                r
            },
            Node::Call(call) => self.eval_call_requested(p, depth, call, e.occurrence),
            Node::System(call) => {
                let none: Vec<usize> = Vec::new();
                assert(none@ =~= Seq::empty());
                self.eval_system_call(p, depth, call, &none)
            },
            Node::Unary(_, operand) => self.eval_expr(p, depth, operand),
            Node::Binary(left, op, right) => {
                let found = self.eval_expr(p, depth, left);
                let ghost m = *self;
                match flows::executes_right(left, *op, true) {
                    Some(false) => {
                        let r = sort_dedup(&found);
                        proof {
                            values::lemma_sorted_below(r@, found@, m.store.versions@.len() as int);
                            assert(way_both(m, found@, m, Seq::empty()));
                        }
                        r
                    },
                    Some(true) => {
                        let other = self.eval_expr(p, depth, right);
                        let all = join_lists(&found, &other);
                        let r = sort_dedup(&all);
                        proof {
                            machine::lemma_below_grows(found@, m.store.versions@.len() as int, self.store.versions@.len() as int);
                            machine::lemma_below_joined(found@, other@, self.store.versions@.len() as int);
                            values::lemma_sorted_below(r@, all@, self.store.versions@.len() as int);
                            machine::lemma_kept_twice(start, m, *self);
                            assert(way_both(m, found@, *self, other@));
                        }
                        r
                    },
                    None => {
                        let parent = self.condition;
                        let branch = self.expression_branch_id(e.occurrence);
                        let ghost n = *self;
                        let (yes, other) = self.eval_expr_arm(p, depth, right, branch, 0, parent);
                        let ghost first = *self;
                        let checkpoint = self.open_arm(branch, 1, parent);
                        let ghost opened = *self;
                        proof {
                            machine::lemma_kept_self(opened);
                        }
                        let (no, none) = self.leave_expression_arm(checkpoint, None, Ghost(first), Ghost(opened));
                        let ghost second = *self;
                        let mut states: Vec<BranchState> = Vec::new();
                        let ghost pair = (yes, no);
                        states.push(yes);
                        states.push(no);
                        proof {
                            assert(none@ =~= Seq::empty());
                            assert(states@ =~= seq![pair.0, pair.1]);
                            lemma_states_below(first, second, states@);
                        }
                        self.join_arms(states, parent);
                        let all = join_lists(&found, &other);
                        let r = sort_dedup(&all);
                        proof {
                            machine::lemma_kept_twice(start, m, n);
                            machine::lemma_kept_twice(start, n, first);
                            machine::lemma_kept_twice(start, first, second);
                            machine::lemma_kept_twice(start, second, *self);
                            machine::lemma_kept_twice(n, first, second);
                            machine::lemma_kept_twice(n, second, *self);
                            let limit = self.store.versions@.len() as int;
                            machine::lemma_below_grows(found@, m.store.versions@.len() as int, limit);
                            machine::lemma_below_grows(other@, first.store.versions@.len() as int, limit);
                            machine::lemma_below_joined(found@, other@, limit);
                            values::lemma_sorted_below(r@, all@, limit);
                            assert(skipped_arm(branch, 1, parent, first, second, pair.1));
                            assert(way_choice(n, branch, first, pair.0, other@, second, pair.1, Seq::empty()));
                            assert(way_both(m, found@, n, other@));
                        }
                        r
                    },
                }
            },
            Node::Ternary(condition, left, right) => {
                let found = self.eval_expr(p, depth, condition);
                let ghost m = *self;
                match flows::constant_truth(condition) {
                    Some(truth) => {
                        let other = if truth {
                            self.eval_expr(p, depth, left)
                        } else {
                            self.eval_expr(p, depth, right)
                        };
                        let all = join_lists(&found, &other);
                        let r = sort_dedup(&all);
                        proof {
                            machine::lemma_below_grows(found@, m.store.versions@.len() as int, self.store.versions@.len() as int);
                            machine::lemma_below_joined(found@, other@, self.store.versions@.len() as int);
                            values::lemma_sorted_below(r@, all@, self.store.versions@.len() as int);
                            machine::lemma_kept_twice(start, m, *self);
                            assert(way_both(m, found@, *self, other@));
                        }
                        r
                    },
                    None => {
                        let parent = self.condition;
                        let branch = self.expression_branch_id(e.occurrence);
                        let ghost n = *self;
                        let (yes, other) = self.eval_expr_arm(p, depth, left, branch, 0, parent);
                        let ghost first = *self;
                        let (no, more) = self.eval_expr_arm(p, depth, right, branch, 1, parent);
                        let ghost second = *self;
                        let mut states: Vec<BranchState> = Vec::new();
                        let ghost pair = (yes, no);
                        states.push(yes);
                        states.push(no);
                        proof {
                            assert(states@ =~= seq![pair.0, pair.1]);
                            lemma_states_below(first, second, states@);
                        }
                        self.join_arms(states, parent);
                        let some = join_lists(&found, &other);
                        let all = join_lists(&some, &more);
                        let r = sort_dedup(&all);
                        proof {
                            machine::lemma_kept_twice(start, m, n);
                            machine::lemma_kept_twice(start, n, first);
                            machine::lemma_kept_twice(start, first, second);
                            machine::lemma_kept_twice(start, second, *self);
                            machine::lemma_kept_twice(n, first, second);
                            machine::lemma_kept_twice(n, second, *self);
                            let limit = self.store.versions@.len() as int;
                            machine::lemma_below_grows(found@, m.store.versions@.len() as int, limit);
                            machine::lemma_below_grows(other@, first.store.versions@.len() as int, limit);
                            machine::lemma_below_grows(more@, second.store.versions@.len() as int, limit);
                            machine::lemma_below_joined(found@, other@, limit);
                            machine::lemma_below_joined(found@ + other@, more@, limit);
                            values::lemma_sorted_below(r@, all@, limit);
                            assert(way_choice(n, branch, first, pair.0, other@, second, pair.1, more@));
                            assert(way_both(m, found@, n, other@));
                        }
                        r
                    },
                }
            },
            Node::Concatenation(parts) => self.eval_parts(p, depth, parts),
            Node::ArrayLiteral(items) => self.eval_parts(p, depth, items),
            Node::Struct(members) => self.eval_parts(p, depth, members),
        }
    }

    /// The result of a call in an expression.
    pub fn eval_call_requested(&mut self, p: &Program, depth: usize, call: &Call, occurrence: usize) -> (r: Vec<usize>)
        requires
            old(self).ready(*p),
        ensures
            final(self).wf(),
            old(self).kept(*final(self)),
            final(self).condition == old(self).condition,
            ran_request(*p, depth as nat, *call, occurrence, *old(self), *final(self), r@),
            sequence::all_below(r@, final(self).store.versions@.len() as int),
        decreases depth, 0nat, call, 3nat,
    {
        broadcast use vstd::std_specs::hash::group_hash_axioms;

        let ghost start = *self;
        proof {
            machine::lemma_kept_self(start);
        }
        let mut cached: Option<Vec<usize>> = None;
        if let Some(cache) = &self.cache {
            if let Some(found) = cache.calls.get(&occurrence) {
                assert(cache.calls@.dom().contains(occurrence));
                let reads = all_results(&found.region_groups);
                proof {
                    lemma_result_below(found.region_groups@, reads@, self.store.versions@.len() as int);
                }
                cached = Some(reads);
            }
        }
        if let Some(reads) = cached {
            if self.effects_only {
                return Vec::new();
            }
            return reads;
        }
        let effects = self.effects_only;
        self.effects_only = false;
        let ghost entered = *self;
        proof {
            machine::lemma_scope_entered(start, entered);
        }
        let none: Vec<usize> = Vec::new();
        assert(none@ =~= Seq::empty());
        let result = self.eval_call_uncached(p, depth, call, &none);
        let ghost m = *self;
        let ghost groups = result.region_groups@;
        let ghost limit = m.store.versions@.len() as int;
        let reads = all_results(&result.region_groups);
        proof {
            lemma_result_below(groups, reads@, limit);
        }
        self.effects_only = effects;
        let mut taken: Option<EvaluationCache> = None;
        std::mem::swap(&mut taken, &mut self.cache);
        if let Some(mut cache) = taken {
            let ghost known = cache;
            assert(machine::cache_below(known, limit));
            let shared = Rc::new(result);
            cache.calls.insert(occurrence, shared);
            proof {
                assert(machine::cache_below(cache, limit)) by {
                    assert forall|o: usize| #[trigger] cache.calls@.dom().contains(o) implies layout::groups_wf(cache.calls@[o].region_groups@)
                        && results::result_below(cache.calls@[o].region_groups@, limit) by {
                        if o != occurrence {
                            assert(known.calls@.dom().contains(o));
                        }
                    }
                    assert forall|o: usize| #[trigger] cache.variable_reads@.dom().contains(o) implies machine::frozen_below(*cache.variable_reads@[o], limit) by {
                        assert(known.variable_reads@.dom().contains(o));
                    }
                }
                assert(cache.calls@.dom() =~= known.calls@.dom().insert(occurrence));
            }
            self.cache = Some(cache);
        }
        proof {
            machine::lemma_scope_left(start, entered, m, *self);
            assert(way_call(m, groups));
            assert(call_kept(start, m, *self, occurrence, groups));
        }
        if effects {
            return Vec::new();
        }
        reads
    }

    /// Evaluates a call of a function.
    pub fn eval_call_uncached(&mut self, p: &Program, depth: usize, call: &Call, controls: &Vec<usize>) -> (r: CallResult)
        requires
            old(self).ready(*p),
            sequence::all_below(controls@, old(self).store.versions@.len() as int),
        ensures
            final(self).wf(),
            old(self).kept(*final(self)),
            final(self).condition == old(self).condition,
            ran_call(*p, depth as nat, *call, controls@, *old(self), *final(self), r.region_groups@),
            layout::groups_wf(r.region_groups@),
            results::result_below(r.region_groups@, final(self).store.versions@.len() as int),
        decreases depth, 0nat, call, 2nat,
    {
        let has_body = call.callee < p.bodies.len() as u64;
        let lookup = if depth == 0 || find_open(&self.functions, call.callee) {
            Some(SummaryLookup::Recursive)
        } else {
            None
        };
        match plan_call(lookup, has_body) {
            CallPlan::InPlace => self.eval_call_in_place(p, depth, call, controls),
            _ => {
                self.eval_opaque_call(p, depth, call);
                CallResult { region_groups: Vec::new() }
            },
        }
    }

    /// Evaluates a call of which nothing is known.
    fn eval_opaque_call(&mut self, p: &Program, depth: usize, call: &Call)
        requires
            old(self).ready(*p),
        ensures
            final(self).wf(),
            old(self).kept(*final(self)),
            final(self).condition == old(self).condition,
            ran_opaque(*p, depth as nat, *call, *old(self), *final(self)),
        decreases depth, 0nat, call, 1nat,
    {
        let ghost start = *self;
        proof {
            machine::lemma_kept_self(start);
        }
        let mut i: usize = 0;
        while i < call.inputs.len()
            invariant
                i <= call.inputs@.len(),
                start.ready(*p),
                self.wf(),
                start.kept(*self),
                self.condition == start.condition,
                ran_actuals(*p, depth as nat, call.inputs@, i as int, start, *self),
            decreases call.inputs@.len() - i,
        {
            let ghost m = *self;
            let found = self.eval_expr(p, depth, &call.inputs[i].actual);
            proof {
                machine::lemma_kept_twice(start, m, *self);
                let c = i + 1;
                assert(way(m, found@, found@));
                assert(ran_actuals(*p, depth as nat, call.inputs@, c - 1, start, m));
                assert(ran_actuals(*p, depth as nat, call.inputs@, c, start, *self));
            }
            i = i + 1;
        }
        let ghost m = *self;
        let list = p.written_by_call(call);
        self.opaque_kill_keys(p, &list, false);
        let ghost n = *self;
        proof {
            machine::lemma_kept_twice(start, m, n);
        }
        let none: Vec<usize> = Vec::new();
        assert(none@ =~= Seq::empty());
        let mut k: usize = 0;
        while k < call.outputs.len()
            invariant
                k <= call.outputs@.len(),
                none@ == Seq::<usize>::empty(),
                start.ready(*p),
                self.wf(),
                start.kept(*self),
                self.condition == start.condition,
                ran_unknown_outputs(*p, depth as nat, call.outputs@, k as int, n, *self),
            decreases call.outputs@.len() - k,
        {
            let ghost o = *self;
            self.write_destinations(p, depth, &call.outputs[k].destinations, &none);
            proof {
                machine::lemma_kept_twice(start, o, *self);
                let c = k + 1;
                assert(way(o, Seq::empty(), Seq::empty()));
                assert(ran_unknown_outputs(*p, depth as nat, call.outputs@, c - 1, n, o));
                assert(ran_unknown_outputs(*p, depth as nat, call.outputs@, c, n, *self));
            }
            k = k + 1;
        }
        proof {
            assert(way_nodes(list@));
            assert(way_arm(m, n, Seq::empty()));
        }
    }

    /// Evaluates an argument.
    fn eval_input(&mut self, p: &Program, depth: usize, function: &values::Function, argument: &Argument, list: &mut Vec<KeyBinding>)
        requires
            old(self).ready(*p),
            calling::bindings_wf(old(list)@, old(self).store.versions@.len() as int),
        ensures
            final(self).wf(),
            old(self).kept(*final(self)),
            final(self).condition == old(self).condition,
            ran_input(*p, depth as nat, *function, *argument, *old(self), *final(self), old(list)@, final(list)@),
            calling::bindings_wf(final(list)@, final(self).store.versions@.len() as int),
        decreases depth, 0nat, argument, 0nat,
    {
        let ghost start = *self;
        let ghost before = list@;
        let parent = self.condition;
        let owns = self.cache.is_none();
        let mut kept: Option<EvaluationCache> = None;
        let mut choices: HashMap<usize, BranchId> = HashMap::new();
        if owns {
            let taken = self.open_expression();
            kept = taken.0;
            choices = taken.1;
        }
        let ghost opened = *self;
        let formal = calling::find_formal(function, argument.formal);
        let effects = self.eval_effects(p, depth, &argument.actual);
        let ghost m = *self;
        let ghost aside = effects;
        proof {
            machine::lemma_kept_self(opened);
            calling::lemma_bindings_grow(before, start.store.versions@.len() as int, m.store.versions@.len() as int);
        }
        self.pass_argument(p, formal, &argument.actual, list);
        let ghost n = *self;
        let mut states: Vec<BranchState> = Vec::new();
        states.push(effects);
        proof {
            machine::lemma_kept_twice(opened, m, n);
            assert(states@ =~= seq![aside]);
            assert forall|x: int, k: int| 0 <= x < states@.len() && 0 <= k < states@[x].bindings@.len() implies (#[trigger] states@[x].bindings@[k]).version
                < n.store.versions@.len() by {
                assert(aside.bindings@[k].version < m.store.versions@.len());
            }
        }
        self.join_arms(states, parent);
        let ghost joined = *self;
        proof {
            machine::lemma_kept_twice(opened, n, joined);
            calling::lemma_bindings_grow(list@, n.store.versions@.len() as int, joined.store.versions@.len() as int);
        }
        if owns {
            self.cache = kept;
            self.choices = choices;
            proof {
                machine::lemma_scope_left(start, opened, joined, *self);
            }
        }
        proof {
            assert(way_input(formal, opened, m, aside, n, joined));
        }
    }

    /// Evaluates the arguments of a call.
    fn eval_inputs(&mut self, p: &Program, depth: usize, function: &values::Function, list: &Vec<Argument>) -> (r: Vec<KeyBinding>)
        requires
            old(self).ready(*p),
        ensures
            final(self).wf(),
            old(self).kept(*final(self)),
            final(self).condition == old(self).condition,
            ran_inputs(*p, depth as nat, *function, list@, list@.len() as int, *old(self), *final(self), r@),
            calling::bindings_wf(r@, final(self).store.versions@.len() as int),
        decreases depth, 0nat, list, 0nat,
    {
        let ghost start = *self;
        proof {
            machine::lemma_kept_self(start);
        }
        let mut r: Vec<KeyBinding> = Vec::new();
        let mut i: usize = 0;
        while i < list.len()
            invariant
                i <= list@.len(),
                start.ready(*p),
                self.wf(),
                start.kept(*self),
                self.condition == start.condition,
                ran_inputs(*p, depth as nat, *function, list@, i as int, start, *self, r@),
                calling::bindings_wf(r@, self.store.versions@.len() as int),
            decreases list@.len() - i,
        {
            let ghost m = *self;
            let ghost before = r@;
            self.eval_input(p, depth, function, &list[i], &mut r);
            proof {
                machine::lemma_kept_twice(start, m, *self);
                let c = i + 1;
                assert(way_inputs(m, before));
                assert(ran_inputs(*p, depth as nat, *function, list@, c - 1, start, m, before));
                assert(ran_inputs(*p, depth as nat, *function, list@, c, start, *self, r@));
            }
            i = i + 1;
        }
        r
    }

    /// Copies an output to its destinations.
    fn eval_destinations(
        &mut self,
        p: &Program,
        depth: usize,
        value: &FormalValue,
        shape: Option<FormalShape>,
        destinations: &Vec<Access>,
        total: Option<usize>,
        controls: &Vec<usize>,
    )
        requires
            old(self).ready(*p),
            sequence::all_below(controls@, old(self).store.versions@.len() as int),
            value.below(old(self).store.versions@.len() as int),
            total is Some <==> calling::copied_by_position(shape, destinations@),
            total matches Some(total) ==> total == calling::widths_from(destinations@, 0),
        ensures
            final(self).wf(),
            old(self).kept(*final(self)),
            final(self).condition == old(self).condition,
            ran_destinations(*p, depth as nat, *value, shape, destinations@, destinations@.len() as int, controls@, *old(self), *final(self)),
        decreases depth, 0nat, destinations, 0nat,
    {
        let ghost start = *self;
        proof {
            machine::lemma_kept_self(start);
        }
        let mut offset: usize = match total {
            Some(total) => total,
            None => 0,
        };
        let mut i: usize = 0;
        while i < destinations.len()
            invariant
                i <= destinations@.len(),
                start.ready(*p),
                sequence::all_below(controls@, start.store.versions@.len() as int),
                value.below(start.store.versions@.len() as int),
                total is Some <==> calling::copied_by_position(shape, destinations@),
                total matches Some(total) ==> total == calling::widths_from(destinations@, 0),
                total is Some ==> offset == calling::widths_from(destinations@, i as int),
                self.wf(),
                start.kept(*self),
                self.condition == start.condition,
                ran_destinations(*p, depth as nat, *value, shape, destinations@, i as int, controls@, start, *self),
            decreases destinations@.len() - i,
        {
            let ghost m = *self;
            let access = &destinations[i];
            let first = self.eval_exprs(p, depth, &access.index);
            let ghost n = *self;
            let second = self.eval_exprs(p, depth, &access.select);
            let ghost o = *self;
            let some = join_lists(controls, &first);
            let all = join_lists(&some, &second);
            proof {
                machine::lemma_kept_twice(start, m, n);
                machine::lemma_kept_twice(start, n, o);
                let limit = o.store.versions@.len() as int;
                machine::lemma_below_grows(controls@, start.store.versions@.len() as int, limit);
                machine::lemma_below_grows(first@, n.store.versions@.len() as int, limit);
                machine::lemma_below_joined(controls@, first@, limit);
                machine::lemma_below_joined(controls@ + first@, second@, limit);
            }
            let prepared = self.prepare_output(p, access, all);
            let ghost q = *self;
            let ghost kept = prepared;
            let mut place: Option<CopyPlace> = None;
            if let Some(total) = total {
                if let Some(shape) = shape {
                    if let Some(width) = destination_width(access) {
                        proof {
                            calling::lemma_widths(destinations@, i as int, i + 1);
                        }
                        offset = offset - width;
                        let coercion = FormalOutputCoercion { actual_width: total, formal_width: shape.width, formal_signed: shape.signed };
                        place = Some(CopyPlace { offset, coercion });
                    }
                }
            }
            proof {
                machine::lemma_kept_twice(start, o, q);
                value.lemma_below_grows(start.store.versions@.len() as int, q.store.versions@.len() as int);
                assert(place == calling::place_of(shape, destinations@, i as int));
            }
            self.copy_destination(p, value, place, prepared);
            proof {
                machine::lemma_kept_twice(start, q, *self);
                let c = i + 1;
                assert(way(m, first@, second@));
                assert(way_both(n, first@, o, second@));
                assert(way_prepared(q, kept));
                assert(ran_destinations(*p, depth as nat, *value, shape, destinations@, c - 1, controls@, start, m));
                assert(ran_destinations(*p, depth as nat, *value, shape, destinations@, c, controls@, start, *self));
            }
            i = i + 1;
        }
    }

    /// Copies one output of a call.
    fn eval_output(&mut self, p: &Program, depth: usize, formal: values::Formal, destinations: &Vec<Access>, controls: &Vec<usize>) -> (r: Ghost<(Machine, FormalValue)>)
        requires
            old(self).ready(*p),
            sequence::all_below(controls@, old(self).store.versions@.len() as int),
        ensures
            final(self).wf(),
            old(self).kept(*final(self)),
            final(self).condition == old(self).condition,
            calling::formal_read(*p, formal.id, *old(self), r@.0, r@.1),
            if calling::copied_by_position(formal.shape, destinations@) && calling::widths_from(destinations@, 0) > usize::MAX {
                *final(self) == (Machine { fits: false, ..r@.0 })
            } else {
                ran_destinations(
                    *p,
                    depth as nat,
                    r@.1,
                    formal.shape,
                    destinations@,
                    destinations@.len() as int,
                    controls@,
                    Machine { complete: r@.0.complete && calling::copied_by_position(formal.shape, destinations@), ..r@.0 },
                    *final(self),
                )
            },
        decreases depth, 0nat, destinations, 1nat,
    {
        let ghost start = *self;
        let value = self.read_formal(p, formal.id);
        let ghost n = *self;
        let ghost read = (n, value);
        proof {
            machine::lemma_goes_on_self(n.store);
            assert(n.written@.take(n.written@.len() as int) =~= n.written@);
        }
        let mut total: Option<usize> = None;
        if formal.shape.is_some() && calling::widths_are_known(destinations) {
            assert(calling::copied_by_position(formal.shape, destinations@));
            total = calling::total_width(destinations);
            if total.is_none() {
                self.fits = false;
                proof {
                    machine::lemma_changed(n, *self);
                    machine::lemma_kept_twice(start, n, *self);
                }
                return Ghost(read);
            }
        } else {
            self.complete = false;
        }
        proof {
            machine::lemma_changed(n, *self);
            machine::lemma_kept_twice(start, n, *self);
            machine::lemma_below_grows(controls@, start.store.versions@.len() as int, n.store.versions@.len() as int);
            assert(*self == (Machine { complete: n.complete && calling::copied_by_position(formal.shape, destinations@), ..n }));
        }
        let ghost m = *self;
        self.eval_destinations(p, depth, &value, formal.shape, destinations, total, controls);
        proof {
            machine::lemma_kept_twice(start, m, *self);
        }
        Ghost(read)
    }

    /// Copies the outputs of a call.
    fn eval_outputs(&mut self, p: &Program, depth: usize, function: &values::Function, list: &Vec<OutputArgument>, controls: &Vec<usize>)
        requires
            old(self).ready(*p),
            sequence::all_below(controls@, old(self).store.versions@.len() as int),
        ensures
            final(self).wf(),
            old(self).kept(*final(self)),
            final(self).condition == old(self).condition,
            ran_outputs(*p, depth as nat, *function, list@, list@.len() as int, controls@, *old(self), *final(self)),
        decreases depth, 0nat, list, 0nat,
    {
        let ghost start = *self;
        proof {
            machine::lemma_kept_self(start);
        }
        let mut i: usize = 0;
        while i < list.len()
            invariant
                i <= list@.len(),
                start.ready(*p),
                sequence::all_below(controls@, start.store.versions@.len() as int),
                self.wf(),
                start.kept(*self),
                self.condition == start.condition,
                ran_outputs(*p, depth as nat, *function, list@, i as int, controls@, start, *self),
            decreases list@.len() - i,
        {
            let ghost m = *self;
            let formal = calling::find_formal(function, list[i].formal);
            let ghost mut n = *self;
            let ghost mut value: FormalValue = arbitrary();
            if let Some(formal) = formal {
                proof {
                    machine::lemma_below_grows(controls@, start.store.versions@.len() as int, m.store.versions@.len() as int);
                }
                let read = self.eval_output(p, depth, formal, &list[i].destinations, controls);
                proof {
                    n = read@.0;
                    value = read@.1;
                    machine::lemma_kept_twice(start, m, *self);
                }
            }
            proof {
                let c = i + 1;
                assert(way_value(n, value));
                assert(way(m, controls@, controls@));
                assert(calling::is_formal(*function, list@[c - 1].formal, formal));
                assert(ran_outputs(*p, depth as nat, *function, list@, c - 1, controls@, start, m));
                assert(ran_outputs(*p, depth as nat, *function, list@, c, controls@, start, *self));
            }
            i = i + 1;
        }
    }

    /// Evaluates a call by the statements of the function.
    fn eval_call_in_place(&mut self, p: &Program, depth: usize, call: &Call, controls: &Vec<usize>) -> (r: CallResult)
        requires
            old(self).ready(*p),
            depth > 0,
            call.callee < p.bodies@.len(),
            sequence::all_below(controls@, old(self).store.versions@.len() as int),
        ensures
            final(self).wf(),
            old(self).kept(*final(self)),
            final(self).condition == old(self).condition,
            ran_in_place(*p, depth as nat, *call, controls@, *old(self), *final(self), r.region_groups@),
            layout::groups_wf(r.region_groups@),
            results::result_below(r.region_groups@, final(self).store.versions@.len() as int),
        decreases depth, 0nat, call, 1nat,
    {
        let ghost start = *self;
        let count: usize = p.bodies.len();
        assert(call.callee < count);
        let callee: usize = call.callee as usize;
        assert(callee == call.callee);
        let function = &p.functions[callee];
        let parent = self.condition;
        let inputs = self.eval_inputs(p, depth, function, &call.inputs);
        let ghost m = *self;
        self.enter_function(p, function, &inputs);
        let ghost n = *self;
        proof {
            machine::lemma_kept_twice(start, m, n);
            assert(way_inputs(m, inputs@));
            assert(way(n, controls@, controls@));
        }
        if self.store.next_revision_id == usize::MAX {
            self.fits = false;
            proof {
                machine::lemma_goes_on_self(n.store);
                assert(self.written@.take(n.written@.len() as int) =~= n.written@);
                machine::lemma_changed(n, *self);
                machine::lemma_kept_twice(start, n, *self);
            }
            return CallResult { region_groups: Vec::new() };
        }
        let effects = self.effects_only;
        let (cache, checkpoint, revision) = self.open_body(call.callee, function.result);
        let ghost opened = *self;
        proof {
            machine::lemma_below_grows(controls@, start.store.versions@.len() as int, opened.store.versions@.len() as int);
        }
        let e = self.eval_block(p, depth - 1, &p.bodies[callee], controls);
        let ghost ended = *self;
        self.close_body(
            cache,
            effects,
            checkpoint,
            revision,
            parent,
            &e,
            Ghost(n),
            Ghost(opened),
            Ghost(call.callee),
            Ghost(function.result),
        );
        let ghost closed = *self;
        proof {
            machine::lemma_kept_twice(start, n, closed);
        }
        let groups = self.read_result(p, function.result);
        let ghost g = *self;
        proof {
            machine::lemma_kept_twice(start, closed, g);
            machine::lemma_below_grows(controls@, start.store.versions@.len() as int, g.store.versions@.len() as int);
        }
        self.eval_outputs(p, depth, function, &call.outputs, controls);
        proof {
            machine::lemma_kept_twice(start, g, *self);
            machine::lemma_result_grows(groups@, g.store.versions@.len() as int, self.store.versions@.len() as int);
            assert(way_body(opened, revision, ended, e, closed, g));
            assert(ran_in_place(*p, depth as nat, *call, controls@, start, *self, groups@));
        }
        CallResult { region_groups: groups }
    }

    /// Writes one value to destinations.
    fn write_destinations(&mut self, p: &Program, depth: usize, list: &Vec<Access>, sources: &Vec<usize>)
        requires
            old(self).ready(*p),
            sequence::all_below(sources@, old(self).store.versions@.len() as int),
        ensures
            final(self).wf(),
            old(self).kept(*final(self)),
            final(self).condition == old(self).condition,
            ran_writes(*p, depth as nat, list@, list@.len() as int, sources@, *old(self), *final(self)),
        decreases depth, 0nat, list, 0nat,
    {
        let ghost start = *self;
        proof {
            machine::lemma_kept_self(start);
        }
        let mut i: usize = 0;
        while i < list.len()
            invariant
                i <= list@.len(),
                start.ready(*p),
                sequence::all_below(sources@, start.store.versions@.len() as int),
                self.wf(),
                start.kept(*self),
                self.condition == start.condition,
                ran_writes(*p, depth as nat, list@, i as int, sources@, start, *self),
            decreases list@.len() - i,
        {
            let ghost m = *self;
            let access = &list[i];
            let first = self.eval_exprs(p, depth, &access.index);
            let ghost n = *self;
            let second = self.eval_exprs(p, depth, &access.select);
            let ghost o = *self;
            let some = join_lists(sources, &first);
            let dependencies = join_lists(&some, &second);
            proof {
                machine::lemma_kept_twice(start, m, n);
                machine::lemma_kept_twice(start, n, o);
                let limit = o.store.versions@.len() as int;
                machine::lemma_below_grows(sources@, start.store.versions@.len() as int, limit);
                machine::lemma_below_grows(first@, n.store.versions@.len() as int, limit);
                machine::lemma_below_joined(sources@, first@, limit);
                machine::lemma_below_joined(sources@ + first@, second@, limit);
            }
            self.write_whole(p, access, &dependencies);
            proof {
                machine::lemma_kept_twice(start, o, *self);
                let c = i + 1;
                assert(way(m, first@, second@));
                assert(way_both(n, first@, o, second@));
                assert(ran_writes(*p, depth as nat, list@, c - 1, sources@, start, m));
                assert(ran_writes(*p, depth as nat, list@, c, sources@, start, *self));
            }
            i = i + 1;
        }
    }

    /// Evaluates a call of a system function.
    pub fn eval_system_call(&mut self, p: &Program, depth: usize, call: &SystemCall, controls: &Vec<usize>) -> (r: Vec<usize>)
        requires
            old(self).ready(*p),
            sequence::all_below(controls@, old(self).store.versions@.len() as int),
        ensures
            final(self).wf(),
            old(self).kept(*final(self)),
            final(self).condition == old(self).condition,
            ran_system(*p, depth as nat, *call, controls@, *old(self), *final(self), r@),
            sequence::all_below(r@, final(self).store.versions@.len() as int),
        decreases depth, 0nat, call, 1nat,
    {
        let ghost start = *self;
        proof {
            machine::lemma_kept_self(start);
        }
        match call.kind {
            SystemKind::Query => Vec::new(),
            SystemKind::Onehot | SystemKind::Cast => {
                let found = self.eval_exprs(p, depth, &call.inputs);
                let r = sort_dedup(&found);
                proof {
                    values::lemma_sorted_below(r@, found@, self.store.versions@.len() as int);
                    assert(way(*self, found@, r@));
                }
                r
            },
            SystemKind::Load => {
                let found = self.eval_exprs(p, depth, &call.inputs);
                let ghost m = *self;
                let sources = join_lists(&found, controls);
                proof {
                    machine::lemma_below_grows(controls@, start.store.versions@.len() as int, m.store.versions@.len() as int);
                    machine::lemma_below_joined(found@, controls@, m.store.versions@.len() as int);
                }
                self.write_destinations(p, depth, &call.outputs, &sources);
                proof {
                    machine::lemma_kept_twice(start, m, *self);
                    assert(way(m, found@, found@));
                }
                Vec::new()
            },
            SystemKind::Effect => {
                let found = self.eval_exprs(p, depth, &call.inputs);
                let r: Vec<usize> = Vec::new();
                proof {
                    assert(way(*self, found@, r@));
                }
                r
            },
        }
    }
}

proof fn lemma_states_below(first: Machine, second: Machine, states: Seq<BranchState>)
    requires
        first.kept(second),
        states.len() == 2,
        forall|i: int| 0 <= i < states[0].bindings@.len() ==> (#[trigger] states[0].bindings@[i]).version < first.store.versions@.len(),
        forall|i: int| 0 <= i < states[1].bindings@.len() ==> (#[trigger] states[1].bindings@[i]).version < second.store.versions@.len(),
    ensures
        forall|i: int, k: int|
            0 <= i < states.len() && 0 <= k < states[i].bindings@.len() ==> (#[trigger] states[i].bindings@[k]).version < second.store.versions@.len(),
{
    assert forall|i: int, k: int| 0 <= i < states.len() && 0 <= k < states[i].bindings@.len() implies (#[trigger] states[i].bindings@[k]).version
        < second.store.versions@.len() by {
        if i == 0 {
            assert(states[0].bindings@[k].version < first.store.versions@.len());
        } else {
            assert(states[1].bindings@[k].version < second.store.versions@.len());
        }
    }
}

impl<'a> Program<'a> {
    /// The nodes that a call of which nothing is known may write.
    fn written_by_call(&self, call: &Call) -> (r: Vec<NodeKey>)
        requires
            self.wf(),
        ensures
            may_be_written(*self, *call, r@),
            order::strictly_sorted(r@),
            forall|key: NodeKey| #[trigger] r@.contains(key) ==> self.partition.is_node(key),
    {
        let found = function_call_write_footprint(self.partition, self.bodies, call);
        let r = self.with_owned(&found);
        proof {
            assert forall|key: NodeKey| #[trigger] r@.contains(key) implies self.partition.is_node(key) by {
                if found@.contains(key) {
                    lemma_touched_exists(*self.partition, footprint::all_written(self.bodies@, crate::collect::call_found(false, *call)), key);
                }
            }
        }
        r
    }

    /// The nodes, and those that the procedure owns.
    fn with_owned(&self, list: &Vec<NodeKey>) -> (r: Vec<NodeKey>)
        ensures
            order::strictly_sorted(r@),
            forall|key: NodeKey| #[trigger] r@.contains(key) <==> list@.contains(key) || self.owned@.contains(key),
    {
        let mut all: Vec<NodeKey> = Vec::new();
        let mut i: usize = 0;
        while i < list.len()
            invariant
                i <= list@.len(),
                all@ == list@.take(i as int),
            decreases list@.len() - i,
        {
            all.push(list[i]);
            assert(list@.take(i + 1) =~= list@.take(i as int).push(list@[i as int]));
            i = i + 1;
        }
        assert(list@.take(i as int) =~= list@);
        let mut k: usize = 0;
        while k < self.owned.len()
            invariant
                k <= self.owned@.len(),
                all@ == list@ + self.owned@.take(k as int),
            decreases self.owned@.len() - k,
        {
            all.push(self.owned[k]);
            assert(list@ + self.owned@.take(k + 1) =~= (list@ + self.owned@.take(k as int)).push(self.owned@[k as int]));
            k = k + 1;
        }
        assert(self.owned@.take(k as int) =~= self.owned@);
        let r = sort_dedup(&all);
        proof {
            assert forall|key: NodeKey| #[trigger] r@.contains(key) <==> list@.contains(key) || self.owned@.contains(key) by {
                assert(r@.contains(key) <==> all@.contains(key));
                lemma_joined_contains(list@, self.owned@, key);
            }
        }
        r
    }
}

proof fn lemma_joined_contains(a: Seq<NodeKey>, b: Seq<NodeKey>, key: NodeKey)
    ensures
        (a + b).contains(key) <==> a.contains(key) || b.contains(key),
{
    let all = a + b;
    if all.contains(key) {
        let i = choose|i: int| 0 <= i < all.len() && all[i] == key;
        if i < a.len() {
            assert(a[i] == key);
        } else {
            assert(b[i - a.len()] == key);
        }
    }
    if a.contains(key) {
        let i = choose|i: int| 0 <= i < a.len() && a[i] == key;
        assert(all[i] == key);
    }
    if b.contains(key) {
        let i = choose|i: int| 0 <= i < b.len() && b[i] == key;
        assert(all[a.len() + i] == key);
    }
}

proof fn lemma_touched_exists(partition: crate::partition::BitPartition, accesses: Set<crate::partition::RegionAccess>, key: NodeKey)
    requires
        footprint::touches(partition, accesses, key),
    ensures
        partition.is_node(key),
{
}


impl Machine {
    /// Sets a checkpoint for effects that are taken back.
    fn open_effects(&mut self) -> (r: Checkpoint)
        requires
            old(self).wf(),
        ensures
            final(self).wf(),
            effects_opened(*old(self), *final(self)),
            final(self).store.open_checkpoint(r),
            r.depth == old(self).store.checkpoints@.len(),
            final(self).store.checkpoints@ == old(self).store.checkpoints@.push(r.undo_start),
            forall|d: int| 0 <= d < old(self).store.checkpoints@.len() ==> #[trigger] final(self).store.saved(d) == old(self).store.saved(d),
            final(self).store.active_revisions@ == old(self).store.active_revisions@,
            final(self).store.revision_events@ == old(self).store.revision_events@,
            final(self).store.next_revision_id == old(self).store.next_revision_id,
            final(self).known == old(self).known,
    {
        let ghost before = *self;
        self.effects_only = true;
        let ghost entered = *self;
        proof {
            machine::lemma_scope_entered(before, entered);
        }
        let checkpoint = self.store.checkpoint();
        proof {
            assert(self.store.guards_in(self.arena@));
            machine::lemma_opened(entered, *self);
        }
        checkpoint
    }

    /// Evaluates an expression for its effects, which are taken back and kept aside.
    fn eval_effects(&mut self, p: &Program, depth: usize, value: &Expression) -> (r: BranchState)
        requires
            old(self).ready(*p),
        ensures
            final(self).wf(),
            old(self).kept(*final(self)),
            final(self).condition == old(self).condition,
            effects_taken(*p, depth as nat, *value, *old(self), *final(self), r),
            r.wf(),
            forall|i: int| 0 <= i < r.bindings@.len() ==> (#[trigger] r.bindings@[i]).version < final(self).store.versions@.len(),
        decreases depth, 0nat, value, 2nat,
    {
        let ghost start = *self;
        let effects = self.effects_only;
        let checkpoint = self.open_effects();
        let ghost opened = *self;
        let ghost entered = Machine { effects_only: true, ..start };
        let reads = self.eval_expr(p, depth, value);
        let ghost n = *self;
        proof {
            machine::lemma_scope_entered(start, entered);
        }
        let (state, none) = self.leave_expression_arm(checkpoint, None, Ghost(entered), Ghost(opened));
        let ghost left = *self;
        self.effects_only = effects;
        proof {
            assert(none@ =~= Seq::empty());
            machine::lemma_kept_cache(start, entered, left, *self);
            assert(Machine { effects_only: true, ..*self } == left);
            assert(way_arm(opened, n, reads@));
            assert(effects_left(start, n, *self, state));
        }
        state
    }
}

/// What an expression does can be taken back, and only its effects count.
pub open spec fn effects_opened(a: Machine, b: Machine) -> bool {
    &&& machine::others_same(Machine { effects_only: true, ..a }, b)
    &&& b.arena == a.arena
    &&& b.condition == a.condition
    &&& b.next_branch == a.next_branch
    &&& b.flows == a.flows
    &&& b.loops == a.loops
    &&& ssa::scope_opened(a.store, b.store)
    &&& ssa::recordings_same(a.store, b.store)
}

/// The effects are taken back and kept aside.
pub open spec fn effects_left(a: Machine, n: Machine, b: Machine, effects: BranchState) -> bool {
    b.effects_only == a.effects_only && steps::arm_left_to(
        Machine { effects_only: true, ..a },
        n,
        Machine { effects_only: true, ..b },
        None,
        effects,
        Seq::empty(),
    )
}

/// An expression was evaluated for its effects.
pub open spec fn effects_taken<'a>(p: Program<'a>, depth: nat, value: Expression, a: Machine, b: Machine, effects: BranchState) -> bool
    decreases depth, 0nat, value, 2nat,
{
    exists|opened: Machine, n: Machine, reads: Seq<usize>| #[trigger]
        way_arm(opened, n, reads) && effects_opened(a, opened) && ran_expr(p, depth, value, opened, n, reads) && effects_left(a, n, b, effects)
}


/// Marks the way through an assignment.
pub open spec fn way_assign(m: Machine, effects: BranchState, n: Machine, list: Seq<Planned>, images: Option<Seq<Seq<usize>>>, joined: Machine) -> bool {
    true
}

/// The destinations of an assignment were written, one after the other, each once its selectors were
/// evaluated; what decides on the assignment and what selects the destination controls the value.
pub open spec fn ran_assigned<'a>(
    p: Program<'a>,
    depth: nat,
    destinations: Seq<Access>,
    list: Seq<Planned>,
    images: Option<Seq<Seq<usize>>>,
    controls: Seq<usize>,
    count: int,
    a: Machine,
    b: Machine,
) -> bool
    decreases depth, 0nat, destinations, count as nat,
{
    if count <= 0 || count > destinations.len() {
        steps::same(a, b)
    } else {
        exists|m: Machine, n: Machine, first: Seq<usize>, o: Machine, second: Seq<usize>|
            #![trigger way(m, first, second), way_both(n, first, o, second)]
            way(m, first, second) && way_both(n, first, o, second) && ran_assigned(p, depth, destinations, list, images, controls, count - 1, a, m) && ran_exprs(
                p,
                depth,
                destinations[count - 1].index@,
                destinations[count - 1].index@.len() as int,
                m,
                n,
                first,
            ) && ran_exprs(p, depth, destinations[count - 1].select@, destinations[count - 1].select@.len() as int, n, o, second)
                && assigning::destination_assigned(destinations[count - 1], list[count - 1], images, controls + first + second, o, b)
    }
}

/// An expression was assigned to destinations: it is evaluated once for its effects; its bits are
/// looked at in the state before them; then the effects take place, and the destinations are written.
pub open spec fn ran_assign<'a>(p: Program<'a>, depth: nat, statement: Statement, controls: Seq<usize>, a: Machine, b: Machine) -> bool
    decreases depth, 3nat, statement, 0nat,
{
    match statement {
        Statement::Assign { destinations, value } => if !assigning::widths_known(destinations@) {
                exists|m: Machine, found: Seq<usize>| #[trigger]
                    way(m, found, found) && ran_expr(p, depth, value, a, m, found) && ran_writes(
                        p,
                        depth,
                        destinations@,
                        destinations@.len() as int,
                        found + controls,
                        m,
                        b,
                    )
            } else if assigning::bits_from(destinations@, 0) > usize::MAX {
                steps::same(Machine { fits: false, ..a }, b)
            } else {
                exists|m: Machine, effects: BranchState, n: Machine, list: Seq<Planned>, images: Option<Seq<Seq<usize>>>, joined: Machine| #[trigger]
                    way_assign(m, effects, n, list, images, joined) && effects_taken(p, depth, value, a, m, effects) && assigning::assignment_planned(
                        p,
                        destinations@,
                        value,
                        m,
                        n,
                        list,
                        images,
                    ) && steps::arms_joined(n, joined, seq![effects], a.condition) && ran_assigned(
                        p,
                        depth,
                        destinations@,
                        list,
                        images,
                        controls,
                        destinations@.len() as int,
                        joined,
                        b,
                    )
            },
        _ => false,
    }
}

/// Nothing is kept of an expression yet.
pub open spec fn expression_opened(a: Machine, b: Machine) -> bool {
    &&& machine::scoped(a, b)
    &&& b.effects_only == a.effects_only
    &&& b.choices@.dom() == Set::<usize>::empty()
    &&& b.cache matches Some(cache) && cache.calls@.dom() == Set::<usize>::empty() && cache.variable_reads@.dom() == Set::<usize>::empty()
        && cache.packed_layouts@.dom() == Set::<usize>::empty() && cache.array_layouts@.dom() == Set::<usize>::empty() && cache.struct_layouts@.dom() == Set::<
        usize,
    >::empty()
}

/// What was kept before is kept again.
pub open spec fn expression_closed(a: Machine, n: Machine, b: Machine) -> bool {
    machine::scoped(n, b) && b.cache == a.cache && b.choices == a.choices && b.effects_only == a.effects_only
}

impl Machine {
    /// Writes the destinations of an assignment.
    fn assign_destinations(
        &mut self,
        p: &Program,
        depth: usize,
        destinations: &Vec<Access>,
        list: &Vec<Planned>,
        images: &Option<Vec<Vec<usize>>>,
        controls: &Vec<usize>,
    )
        requires
            old(self).ready(*p),
            old(self).cache is Some,
            list@.len() == destinations@.len(),
            forall|i: int| 0 <= i < list@.len() ==> assigning::plan_wf(#[trigger] list@[i]),
            images matches Some(images) ==> assigning::images_below(images@, old(self).store.versions@.len() as int),
            sequence::all_below(controls@, old(self).store.versions@.len() as int),
        ensures
            final(self).wf(),
            old(self).kept(*final(self)),
            final(self).condition == old(self).condition,
            ran_assigned(*p, depth as nat, destinations@, list@, assigning::views(*images), controls@, destinations@.len() as int, *old(self), *final(self)),
        decreases depth, 0nat, destinations, 0nat,
    {
        let ghost start = *self;
        proof {
            machine::lemma_kept_self(start);
        }
        let mut i: usize = 0;
        while i < destinations.len()
            invariant
                i <= destinations@.len(),
                start.ready(*p),
                start.cache is Some,
                list@.len() == destinations@.len(),
                forall|i: int| 0 <= i < list@.len() ==> assigning::plan_wf(#[trigger] list@[i]),
                images matches Some(images) ==> assigning::images_below(images@, start.store.versions@.len() as int),
                sequence::all_below(controls@, start.store.versions@.len() as int),
                self.wf(),
                start.kept(*self),
                self.condition == start.condition,
                ran_assigned(*p, depth as nat, destinations@, list@, assigning::views(*images), controls@, i as int, start, *self),
            decreases destinations@.len() - i,
        {
            let ghost m = *self;
            let access = &destinations[i];
            let first = self.eval_exprs(p, depth, &access.index);
            let ghost n = *self;
            let second = self.eval_exprs(p, depth, &access.select);
            let ghost o = *self;
            let some = join_lists(controls, &first);
            let all = join_lists(&some, &second);
            proof {
                machine::lemma_kept_twice(start, m, n);
                machine::lemma_kept_twice(start, n, o);
                let limit = o.store.versions@.len() as int;
                machine::lemma_below_grows(controls@, start.store.versions@.len() as int, limit);
                machine::lemma_below_grows(first@, n.store.versions@.len() as int, limit);
                machine::lemma_below_joined(controls@, first@, limit);
                machine::lemma_below_joined(controls@ + first@, second@, limit);
                if let Some(images) = images {
                    assert forall|x: int, y: int| 0 <= x < images@.len() && 0 <= y < images@[x]@.len() implies (#[trigger] images@[x]@[y]) < limit by {
                        assert(images@[x]@[y] < start.store.versions@.len());
                    }
                }
            }
            self.assign_destination(p, access, &list[i], images, &all);
            proof {
                machine::lemma_kept_twice(start, o, *self);
                let c = i + 1;
                assert(way(m, first@, second@));
                assert(way_both(n, first@, o, second@));
                assert(ran_assigned(*p, depth as nat, destinations@, list@, assigning::views(*images), controls@, c - 1, start, m));
                assert(ran_assigned(*p, depth as nat, destinations@, list@, assigning::views(*images), controls@, c, start, *self));
            }
            i = i + 1;
        }
    }

    /// Assigns an expression to destinations.
    fn eval_assign(&mut self, p: &Program, depth: usize, statement: &Statement, controls: &Vec<usize>)
        requires
            old(self).ready(*p),
            old(self).cache is Some,
            statement is Assign,
            sequence::all_below(controls@, old(self).store.versions@.len() as int),
        ensures
            final(self).wf(),
            old(self).kept(*final(self)),
            final(self).condition == old(self).condition,
            ran_assign(*p, depth as nat, *statement, controls@, *old(self), *final(self)),
        decreases depth, 3nat, statement, 0nat,
    {
        let ghost start = *self;
        let parent = self.condition;
        let (destinations, value) = match statement {
            Statement::Assign { destinations, value } => (destinations, value),
            _ => {
                return;
            },
        };
        match destination_offsets(destinations) {
            TotalWidth::Unknown => {
                let found = self.eval_expr(p, depth, value);
                let ghost m = *self;
                let sources = join_lists(&found, controls);
                proof {
                    machine::lemma_below_grows(controls@, start.store.versions@.len() as int, m.store.versions@.len() as int);
                    machine::lemma_below_joined(found@, controls@, m.store.versions@.len() as int);
                }
                self.write_destinations(p, depth, destinations, &sources);
                proof {
                    machine::lemma_kept_twice(start, m, *self);
                    assert(way(m, found@, found@));
                }
            },
            TotalWidth::TooLarge => {
                self.fits = false;
                proof {
                    machine::lemma_goes_on_self(start.store);
                    assert(self.written@.take(start.written@.len() as int) =~= start.written@);
                    machine::lemma_changed(start, *self);
                }
            },
            TotalWidth::Bits(offsets) => {
                let effects = self.eval_effects(p, depth, value);
                let ghost m = *self;
                let ghost aside = effects;
                let (list, images) = self.plan_destinations(p, destinations, value, &offsets);
                let ghost n = *self;
                let mut states: Vec<BranchState> = Vec::new();
                states.push(effects);
                proof {
                    machine::lemma_kept_twice(start, m, n);
                    assert(states@ =~= seq![aside]);
                    assert forall|x: int, k: int| 0 <= x < states@.len() && 0 <= k < states@[x].bindings@.len() implies (#[trigger] states@[x].bindings@[k]).version
                        < n.store.versions@.len() by {
                        assert(aside.bindings@[k].version < m.store.versions@.len());
                    }
                }
                self.join_arms(states, parent);
                let ghost joined = *self;
                proof {
                    machine::lemma_kept_twice(start, n, joined);
                    let limit = joined.store.versions@.len() as int;
                    machine::lemma_below_grows(controls@, start.store.versions@.len() as int, limit);
                    if let Some(images) = &images {
                        assert forall|x: int, y: int| 0 <= x < images@.len() && 0 <= y < images@[x]@.len() implies (#[trigger] images@[x]@[y]) < limit by {
                            assert(images@[x]@[y] < n.store.versions@.len());
                        }
                    }
                }
                self.assign_destinations(p, depth, destinations, &list, &images, controls);
                proof {
                    machine::lemma_kept_twice(start, joined, *self);
                    assert(way_assign(m, aside, n, list@, assigning::views(images), joined));
                }
            },
        }
    }

    /// Keeps what is found in an expression apart.
    pub(crate) fn open_expression(&mut self) -> (r: (Option<EvaluationCache>, HashMap<usize, BranchId>))
        requires
            old(self).wf(),
        ensures
            final(self).wf(),
            expression_opened(*old(self), *final(self)),
            r.0 == old(self).cache,
            r.1 == old(self).choices,
    {
        broadcast use vstd::std_specs::hash::group_hash_axioms;

        let ghost before = *self;
        let mut cache: Option<EvaluationCache> = Some(EvaluationCache::new());
        std::mem::swap(&mut cache, &mut self.cache);
        let mut choices: HashMap<usize, BranchId> = HashMap::new();
        std::mem::swap(&mut choices, &mut self.choices);
        proof {
            assert(self.choices@.dom() =~= Set::<usize>::empty());
            machine::lemma_scope_entered(before, *self);
        }
        (cache, choices)
    }
}


/// Marks a state on the way through a block.
pub open spec fn way_steps(m: Machine, trees: Seq<FlowTree>, control: Option<usize>) -> bool {
    true
}

/// Marks a state on the way through a statement.
pub open spec fn way_step(m: Machine, r: Evaluated) -> bool {
    true
}

/// Marks a branch on the way through a decision.
pub open spec fn way_branch(opened: Machine, closed: Machine, r: Evaluated) -> bool {
    true
}

/// Marks the branches of a decision so far.
pub open spec fn way_branches(m: Machine, list: Seq<Branch>) -> bool {
    true
}

/// Marks the states on the way through a loop.
pub open spec fn way_loop(opened: Machine, n: Machine, trees: Seq<FlowTree>, now: Seq<usize>) -> bool {
    true
}

/// Marks the identity of a condition on the way.
pub open spec fn way_identity(m: Machine, identity: usize, versions: Seq<usize>) -> bool {
    true
}

/// Marks the states on the way through a loop whose iterations are not known.
pub open spec fn way_runtime(opened: Machine, open: RuntimeLoop, n: Machine, e: Evaluated, t: Machine, skip: Option<MaySkip>) -> bool {
    true
}

/// Whether a bound is known only when the loop is reached: then there may be no iteration.
pub open spec fn may_skip(range: ForRange) -> bool {
    range.start is Expression || range.end is Expression
}

/// The decision whether there is an iteration at all, by what the bounds come from.
pub open spec fn is_skip(range: ForRange, number: usize, found: Seq<usize>, open: RuntimeLoop, n: Machine, t: Machine, skip: Option<MaySkip>) -> bool {
    if may_skip(range) {
        skip matches Some(decision) && open.branch == Some(decision.branch) && machine::identified(
            n,
            t,
            predicates::Shape::Opaque(number),
            decision.identity as usize,
        ) && decision.identity < t.table.known@.len() && values::sorted_from(decision.controls@, found)
    } else {
        skip is None && t == n
    }
}

/// Marks a state on the way through the iterations of a loop.
pub open spec fn way_iteration(m: Machine, trees: Seq<FlowTree>, now: Seq<usize>, r: Evaluated) -> bool {
    true
}

/// The first statements of a block were evaluated, one after the other, up to one that does not
/// continue.
pub open spec fn ran_statements<'a>(
    p: Program<'a>,
    depth: nat,
    list: Seq<Statement>,
    count: int,
    controls: Seq<usize>,
    a: Machine,
    b: Machine,
    trees: Seq<FlowTree>,
    control: Option<usize>,
) -> bool
    decreases depth, 3nat, list, count as nat,
{
    if count <= 0 || count > list.len() {
        b == a && trees.len() == 0 && control is None
    } else {
        exists|m: Machine, before: Seq<FlowTree>, previous: Option<usize>| #[trigger]
            way_steps(m, before, previous) && ran_statements(p, depth, list, count - 1, controls, a, m, before, previous) && if machine::stopped(m.flows, before) {
                b == m && trees == before && control == previous
            } else {
                exists|n: Machine, r: Evaluated| #[trigger]
                    way_step(n, r) && ran_statement(p, depth, list[count - 1], machine::active(controls, previous), m, n, r) && trees == before.push(r.tree)
                        && machine::control_made(n, b, r.controls@, previous, control)
            }
    }
}

/// A block was evaluated.
pub open spec fn ran_block<'a>(p: Program<'a>, depth: nat, list: Seq<Statement>, controls: Seq<usize>, a: Machine, b: Machine, r: Evaluated) -> bool
    decreases depth, 3nat, list, list.len() + 1,
{
    exists|m: Machine, trees: Seq<FlowTree>, control: Option<usize>| #[trigger]
        way_steps(m, trees, control) && ran_statements(p, depth, list, list.len() as int, controls, a, m, trees, control) && machine::finished(
            m,
            b,
            trees,
            control,
            r,
        )
}

/// A branch of a decision was evaluated, and its changes are kept aside.
pub open spec fn ran_branch<'a>(
    p: Program<'a>,
    depth: nat,
    body: Seq<Statement>,
    nested: Seq<usize>,
    branch: BranchId,
    arm: usize,
    parent: PathCondition,
    a: Machine,
    b: Machine,
    made: Branch,
) -> bool
    decreases depth, 3nat, body, body.len() + 2,
{
    exists|opened: Machine, closed: Machine, r: Evaluated| #[trigger]
        way_branch(opened, closed, r) && machine::opens(a, opened, branch, arm, parent) && ran_block(p, depth, body, nested, opened, closed, r) && machine::closes(
            a,
            closed,
            b,
            made,
            r,
        )
}

/// The chosen arms of a case were evaluated, each from the same state.
pub open spec fn ran_case_arms<'a>(
    p: Program<'a>,
    depth: nat,
    arms: Seq<CaseArm>,
    chosen: Seq<usize>,
    count: int,
    nested: Seq<usize>,
    branch: BranchId,
    parent: PathCondition,
    a: Machine,
    b: Machine,
    list: Seq<Branch>,
) -> bool
    decreases depth, 3nat, arms, count as nat,
{
    if count <= 0 || count > chosen.len() {
        b == a && list.len() == 0
    } else {
        exists|m: Machine, before: Seq<Branch>| #[trigger]
            way_branches(m, before) && ran_case_arms(p, depth, arms, chosen, count - 1, nested, branch, parent, a, m, before) && if chosen[count - 1]
                < arms.len() {
                list.len() == before.len() + 1 && list.drop_last() == before && ran_branch(
                    p,
                    depth,
                    arms[chosen[count - 1] as int].body@,
                    nested,
                    branch,
                    chosen[count - 1],
                    parent,
                    m,
                    b,
                    list.last(),
                )
            } else {
                b == m && list == before
            }
    }
}

/// The patterns of an arm were evaluated.
pub open spec fn ran_patterns<'a>(p: Program<'a>, depth: nat, list: Seq<Pattern>, count: int, a: Machine, b: Machine, reads: Seq<usize>) -> bool
    decreases depth, 1nat, list, count as nat,
{
    if count <= 0 || count > list.len() {
        steps::same(a, b) && reads.len() == 0
    } else {
        exists|m: Machine, before: Seq<usize>, n: Machine, found: Seq<usize>| #[trigger]
            way_both(m, before, n, found) && ran_patterns(p, depth, list, count - 1, a, m, before) && match list[count - 1] {
                Pattern::Equal(e) => ran_expr(p, depth, e, m, b, found) && reads == before + found,
                Pattern::Range { low, high, .. } => exists|other: Seq<usize>| #[trigger]
                    way(b, found, other) && ran_expr(p, depth, low, m, n, found) && ran_expr(p, depth, high, n, b, other) && reads == before + found + other,
            }
    }
}

/// The patterns of all arms were evaluated.
pub open spec fn ran_all_patterns<'a>(p: Program<'a>, depth: nat, arms: Seq<CaseArm>, count: int, a: Machine, b: Machine, reads: Seq<usize>) -> bool
    decreases depth, 2nat, arms, count as nat,
{
    if count <= 0 || count > arms.len() {
        steps::same(a, b) && reads.len() == 0
    } else {
        exists|m: Machine, before: Seq<usize>, found: Seq<usize>| #[trigger]
            way(m, before, found) && ran_all_patterns(p, depth, arms, count - 1, a, m, before) && ran_patterns(
                p,
                depth,
                arms[count - 1].patterns@,
                arms[count - 1].patterns@.len() as int,
                m,
                b,
                found,
            ) && reads == before + found
    }
}

/// The first iterations were evaluated, one after the other, up to one that does not continue; what
/// decides on one decides on those behind it.
pub open spec fn ran_iterations<'a>(
    p: Program<'a>,
    depth: nat,
    iterations: Seq<Vec<Statement>>,
    count: int,
    controls: Seq<usize>,
    a: Machine,
    b: Machine,
    trees: Seq<FlowTree>,
    now: Seq<usize>,
) -> bool
    decreases depth, 3nat, iterations, count as nat,
{
    if count <= 0 || count > iterations.len() {
        b == a && trees.len() == 0 && now == controls
    } else {
        exists|m: Machine, before: Seq<FlowTree>, previous: Seq<usize>, r: Evaluated| #[trigger]
            way_iteration(m, before, previous, r) && ran_iterations(p, depth, iterations, count - 1, controls, a, m, before, previous) && if machine::stopped(
                m.flows,
                before,
            ) {
                b == m && trees == before && now == previous
            } else {
                ran_block(p, depth, iterations[count - 1]@, previous, m, b, r) && trees == before.push(r.tree) && now == machine::added(previous, r.controls@)
            }
    }
}

/// The number of arms of a case, its default among them.
pub open spec fn case_count(count: int) -> usize {
    if count < usize::MAX {
        (count + 1) as usize
    } else {
        usize::MAX
    }
}

/// Some destination is the variable of the result of the innermost function.
pub open spec fn is_return(functions: Seq<OpenFunction>, destinations: Seq<Access>) -> bool {
    functions.len() > 0 && functions.last().result is Some && exists|i: int|
        0 <= i < destinations.len() && Some((#[trigger] destinations[i]).id) == functions.last().result
}

/// The predicate of a decision.
pub open spec fn predicate_of(identity: usize, controls: Seq<usize>) -> flow::PredicateView {
    flow::PredicateView { identity: identity as u64, controls }
}

/// The branch of a decision, by the next number.
pub open spec fn next_branch_of(m: Machine, arms: usize) -> BranchId {
    BranchId { namespace: path::BranchNamespace::Procedure(m.namespace), local: m.next_branch, arms }
}

/// What the body of a loop may write.
pub open spec fn body_may_write<'a>(p: Program<'a>, body: Seq<Statement>, list: Seq<NodeKey>) -> bool {
    order::strictly_sorted(list) && forall|key: NodeKey| #[trigger]
        list.contains(key) <==> footprint::touches(*p.partition, footprint::all_written(p.bodies@, crate::collect::statements_found(false, body)), key) || (
        footprint::has_unsupported(body) && p.owned@.contains(key))
}

/// How a loop is evaluated.
pub open spec fn loop_plan_of(range: bounds::ForRange, iterations: Iterations) -> LoopPlan {
    bounds::loop_plan(range, iterations is Known, iterations is TooMany)
}

/// A case was evaluated whose target and patterns were.
pub open spec fn ran_case<'a>(p: Program<'a>, depth: nat, statement: Statement, controls: Seq<usize>, found: Seq<usize>, m: Machine, b: Machine, r: Evaluated) -> bool
    decreases depth, 3nat, statement, 0nat,
{
    match statement {
        Statement::Case { target, arms, otherwise, facts } => {
            let nested = controls + found;
            let count = case_count(arms@.len() as int);
            exists|plan: CasePlan| #[trigger]
                selection::case_planned(arms@.len() as usize, facts.selector, facts.patterns@, facts.answers, plan) && match plan {
                    CasePlan::Default => ran_block(p, depth, otherwise@, nested, m, b, r),
                    CasePlan::Arm(arm) => arm < arms@.len() && ran_block(p, depth, arms@[arm as int].body@, nested, m, b, r) || arm >= arms@.len() && ran_block(
                        p,
                        depth,
                        otherwise@,
                        nested,
                        m,
                        b,
                        r,
                    ),
                    CasePlan::Branch { arms: chosen, default } => exists|n: Machine, before: Seq<Branch>, o: Machine, list: Seq<Branch>, versions: Seq<usize>|
                        #![trigger way_branches(n, before), way_branches(o, list), way(o, found, versions)]
                        way_branches(n, before) && way_branches(o, list) && way(o, found, versions) && values::sorted_from(versions, found) && ran_case_arms(
                            p,
                            depth,
                            arms@,
                            chosen@,
                            chosen@.len() as int,
                            nested,
                            next_branch_of(m, count),
                            m.condition,
                            machine::taken_number(m),
                            n,
                            before,
                        ) && (if (default || before.len() == 0) && arms@.len() < count {
                            list.len() == before.len() + 1 && list.drop_last() == before && ran_branch(
                                p,
                                depth,
                                otherwise@,
                                nested,
                                next_branch_of(m, count),
                                arms@.len() as usize,
                                m.condition,
                                n,
                                o,
                                list.last(),
                            )
                        } else {
                            o == n && list == before
                        }) && (if list.len() == 0 {
                            machine::simple(o, b, ProcedureFlow::Continue, r) && b.store == o.store && b.loops == o.loops
                        } else {
                            exists|t: Machine, identity: usize| #[trigger]
                                way_identity(t, identity, versions) && machine::identified(o, t, predicates::Shape::Opaque(target.occurrence), identity)
                                    && machine::came_together(t, b, predicate_of(identity, versions), list, m.condition, r)
                        }),
                }
        },
        _ => false,
    }
}

/// A loop was evaluated whose bounds were.
pub open spec fn ran_for<'a>(
    p: Program<'a>,
    depth: nat,
    statement: Statement,
    range_controls: Seq<usize>,
    found: Seq<usize>,
    m: Machine,
    b: Machine,
    r: Evaluated,
) -> bool
    decreases depth, 3nat, statement, 0nat,
{
    match statement {
        Statement::For { bounds: _, body, range, iterations } => match (loop_plan_of(range, iterations), iterations) {
            (LoopPlan::Pass, _) => machine::simple(m, b, ProcedureFlow::Continue, r) && b.store == m.store && b.loops == m.loops,
            (LoopPlan::Unroll, Iterations::Known(list)) => exists|opened: Machine, n: Machine, trees: Seq<FlowTree>, now: Seq<usize>| #[trigger]
                way_loop(opened, n, trees, now) && machine::loop_opened(m, opened) && ran_iterations(
                    p,
                    depth,
                    list@,
                    list@.len() as int,
                    range_controls,
                    opened,
                    n,
                    trees,
                    now,
                ) && machine::loop_closed(m, n, b, trees, r),
            (LoopPlan::Forget { may_skip }, _) => exists|list: Seq<NodeKey>, n: Machine| #![trigger way_nodes(list), way(n, Seq::empty(), Seq::empty())]
                way_nodes(list) && way(n, Seq::empty(), Seq::empty()) && body_may_write(p, body@, list) && steps::nodes_forgotten(p, list, may_skip, m, n)
                    && machine::simple(n, b, ProcedureFlow::Continue, r) && b.store == n.store && b.loops == n.loops,
            (LoopPlan::Summarize, Iterations::Runtime(number)) => if m.functions@.len() > 0 && m.store.next_revision_id == usize::MAX {
                machine::simple(Machine { fits: false, ..m }, b, ProcedureFlow::Continue, r) && b.store == m.store && b.loops == m.loops
            } else {
                exists|opened: Machine, open: RuntimeLoop, n: Machine, e: Evaluated, t: Machine, skip: Option<MaySkip>| #[trigger]
                    way_runtime(opened, open, n, e, t, skip) && looping::runtime_opened(m, opened, may_skip(range), open) && ran_block(
                        p,
                        depth,
                        body@,
                        range_controls,
                        opened,
                        n,
                        e,
                    ) && is_skip(range, number, found, open, n, t, skip) && looping::runtime_closed(t, b, e, m.condition, skip, r)
            },
            _ => false,
        },
        _ => false,
    }
}

/// A statement was evaluated.
pub open spec fn ran_statement<'a>(p: Program<'a>, depth: nat, statement: Statement, controls: Seq<usize>, a: Machine, b: Machine, r: Evaluated) -> bool
    decreases depth, 3nat, statement, 1nat,
{
    match statement {
        Statement::Assign { destinations, value } => exists|opened: Machine, n: Machine, m: Machine, o: Machine|
            #![trigger way_arm(opened, n, Seq::empty()), way_arm(m, o, Seq::empty())]
            way_arm(opened, n, Seq::empty()) && way_arm(m, o, Seq::empty()) && expression_opened(a, opened) && ran_assign(p, depth, statement, controls, opened, n)
                && expression_closed(a, n, m) && if is_return(a.functions@, destinations@) {
                machine::return_recorded(m, o) && machine::simple(o, b, ProcedureFlow::Return, r) && b.store == o.store && b.loops == o.loops
            } else {
                o == m && machine::simple(m, b, ProcedureFlow::Continue, r) && b.store == m.store && b.loops == m.loops
            },
        Statement::If { condition, yes, no } => exists|m: Machine, found: Seq<usize>| #[trigger]
            way(m, found, found) && ran_expr(p, depth, condition, a, m, found) && match flows::truth_of(condition) {
                Some(true) => ran_block(p, depth, yes@, controls + found, m, b, r),
                Some(false) => ran_block(p, depth, no@, controls + found, m, b, r),
                None => exists|n: Machine, o: Machine, list: Seq<Branch>, t: Machine, identity: usize, versions: Seq<usize>|
                    #![trigger way_branches(n, list), way_branches(o, list), way_identity(t, identity, versions)]
                    way_branches(n, list) && way_branches(o, list) && way_identity(t, identity, versions) && list.len() == 2 && ran_branch(
                        p,
                        depth,
                        yes@,
                        controls + found,
                        next_branch_of(m, 2),
                        0,
                        m.condition,
                        machine::taken_number(m),
                        n,
                        list[0],
                    ) && ran_branch(p, depth, no@, controls + found, next_branch_of(m, 2), 1, m.condition, n, o, list[1]) && machine::identified(
                        o,
                        t,
                        predicates::written(condition),
                        identity,
                    ) && values::sorted_from(versions, found) && machine::came_together(
                        t,
                        b,
                        predicate_of(identity, versions),
                        list,
                        m.condition,
                        r,
                    ),
            },
        Statement::Case { target, arms, .. } => exists|n: Machine, first: Seq<usize>, m: Machine, second: Seq<usize>| #[trigger]
            way_both(n, first, m, second) && ran_expr(p, depth, target, a, n, first) && ran_all_patterns(
                p,
                depth,
                arms@,
                arms@.len() as int,
                n,
                m,
                second,
            ) && ran_case(p, depth, statement, controls, first + second, m, b, r),
        Statement::For { bounds, .. } => exists|m: Machine, found: Seq<usize>, range_controls: Seq<usize>|
            #![trigger way(m, found, range_controls)]
            way(m, found, range_controls) && ran_exprs(p, depth, bounds@, bounds@.len() as int, a, m, found) && values::sorted_from(range_controls, controls + found)
                && ran_for(p, depth, statement, range_controls, found, m, b, r),
        Statement::Call(call) => exists|m: Machine, groups: Seq<RegionGroup>| #[trigger]
            way_call(m, groups) && ran_call(p, depth, call, controls, a, m, groups) && machine::simple(m, b, ProcedureFlow::Continue, r) && b.store == m.store
                && b.loops == m.loops,
        Statement::System(call) => exists|m: Machine, found: Seq<usize>| #[trigger]
            way(m, found, found) && ran_system(p, depth, call, controls, a, m, found) && machine::simple(m, b, ProcedureFlow::Continue, r) && b.store == m.store
                && b.loops == m.loops,
        Statement::Break => machine::simple(a, b, ProcedureFlow::Break, r) && machine::break_recorded(a, b),
        Statement::Unsupported => exists|m: Machine| #[trigger]
            way(m, Seq::empty(), Seq::empty()) && steps::nodes_forgotten(p, p.owned@, false, a, m) && machine::simple(m, b, ProcedureFlow::Continue, r) && b.store
                == m.store && b.loops == m.loops,
        Statement::IfReset { .. } => machine::simple(a, b, ProcedureFlow::Continue, r) && b.store == a.store && b.loops == a.loops,
        Statement::Other => machine::simple(a, b, ProcedureFlow::Continue, r) && b.store == a.store && b.loops == a.loops,
    }
}


impl<'a> Program<'a> {
    /// The nodes that the body of a loop may write.
    fn written_by_body(&self, body: &Vec<Statement>) -> (r: Vec<NodeKey>)
        requires
            self.wf(),
        ensures
            body_may_write(*self, body@, r@),
            order::strictly_sorted(r@),
            forall|key: NodeKey| #[trigger] r@.contains(key) ==> self.partition.is_node(key),
    {
        let found = statement_write_footprint(self.partition, self.bodies, body);
        let unsupported = statements_have_unsupported(body);
        let r = if unsupported {
            self.with_owned(&found)
        } else {
            found
        };
        proof {
            assert forall|key: NodeKey| #[trigger] r@.contains(key) implies self.partition.is_node(key) by {
                if footprint::touches(*self.partition, footprint::all_written(self.bodies@, crate::collect::statements_found(false, body@)), key) {
                    lemma_touched_exists(*self.partition, footprint::all_written(self.bodies@, crate::collect::statements_found(false, body@)), key);
                }
            }
        }
        r
    }
}

/// Whether some destination is the variable of the result of the innermost function.
fn is_return_assignment(functions: &Vec<OpenFunction>, destinations: &Vec<Access>) -> (r: bool)
    ensures
        r == is_return(functions@, destinations@),
{
    let count: usize = functions.len();
    if count == 0 {
        return false;
    }
    let result: u64 = match functions[count - 1].result {
        Some(result) => result,
        None => {
            return false;
        },
    };
    let mut i: usize = 0;
    while i < destinations.len()
        invariant
            i <= destinations@.len(),
            functions@.len() > 0,
            functions@.last().result == Some(result),
            forall|k: int| 0 <= k < i ==> (#[trigger] destinations@[k]).id != result,
        decreases destinations@.len() - i,
    {
        if destinations[i].id == result {
            assert(Some(destinations@[i as int].id) == functions@.last().result);
            return true;
        }
        i = i + 1;
    }
    false
}

/// What evaluating a statement promises.
pub open spec fn evaluates_to(a: Machine, b: Machine, r: Evaluated) -> bool {
    b.wf() && a.kept(b) && machine::evaluated_wf(b, r)
}

impl Machine {
    /// Evaluates the statements of a block.
    pub fn eval_block(&mut self, p: &Program, depth: usize, list: &Vec<Statement>, controls: &Vec<usize>) -> (r: Evaluated)
        requires
            old(self).ready(*p),
            sequence::all_below(controls@, old(self).store.versions@.len() as int),
        ensures
            evaluates_to(*old(self), *final(self), r),
            ran_block(*p, depth as nat, list@, controls@, *old(self), *final(self), r),
        decreases depth, 3nat, list, 1nat,
    {
        let ghost start = *self;
        proof {
            machine::lemma_kept_self(start);
        }
        let mut trees: Vec<FlowTree> = Vec::new();
        let mut control: Option<usize> = None;
        let mut now: Vec<usize> = copy_versions(controls);
        let mut done = false;
        let mut i: usize = 0;
        while i < list.len()
            invariant
                i <= list@.len(),
                start.ready(*p),
                self.wf(),
                start.kept(*self),
                sequence::all_below(controls@, start.store.versions@.len() as int),
                sequence::all_below(now@, self.store.versions@.len() as int),
                control matches Some(control) ==> control < self.store.versions@.len(),
                now@ == machine::active(controls@, control),
                forall|k: int| 0 <= k < trees@.len() ==> machine::tree_below(*self, #[trigger] trees@[k]),
                done == machine::stopped(self.flows, trees@),
                ran_statements(*p, depth as nat, list@, i as int, controls@, start, *self, trees@, control),
            decreases list@.len() - i,
        {
            let ghost m = *self;
            let ghost before = trees@;
            let ghost previous = control;
            assert(way_steps(m, before, previous));
            if !done {
                let result = self.eval_statement(p, depth, &list[i], &now);
                let ghost n = *self;
                trees.push(result.tree);
                proof {
                    machine::lemma_kept_twice(start, m, n);
                    if let Some(c) = previous {
                        assert(c < n.store.versions@.len());
                    }
                }
                control = next_continuation_control(&mut self.store, &result.controls, control);
                if result.controls.len() > 0 {
                    now = copy_versions(controls);
                    if let Some(control) = control {
                        now.push(control);
                    }
                }
                done = !self.flows.contains(result.tree, ProcedureFlow::Continue);
                proof {
                    assert(self.store.guards_in(self.arena@));
                    machine::lemma_stored(n, *self);
                    machine::lemma_kept_twice(start, n, *self);
                    assert(way_step(n, result));
                    assert(machine::control_made(n, *self, result.controls@, previous, control));
                    assert(now@ =~= machine::active(controls@, control));
                    assert forall|k: int| 0 <= k < now@.len() implies (#[trigger] now@[k]) < self.store.versions@.len() by {
                        if k < controls@.len() {
                            assert(controls@[k] < start.store.versions@.len());
                        }
                    }
                    assert forall|k: int| 0 <= k < trees@.len() implies machine::tree_below(*self, #[trigger] trees@[k]) by {
                        if k < before.len() {
                            assert(machine::tree_below(m, before[k]));
                            machine::lemma_tree_kept(m, n, before[k]);
                            machine::lemma_tree_kept(n, *self, before[k]);
                        } else {
                            machine::lemma_tree_kept(n, *self, result.tree);
                        }
                    }
                }
            }
            proof {
                let c = i + 1;
                assert(ran_statements(*p, depth as nat, list@, c - 1, controls@, start, m, before, previous));
                assert(ran_statements(*p, depth as nat, list@, c, controls@, start, *self, trees@, control));
            }
            i = i + 1;
        }
        let ghost m = *self;
        assert forall|k: int| 0 <= k < trees@.len() implies self.flows.holds(#[trigger] trees@[k]) by {
            assert(machine::tree_below(m, trees@[k]));
        }
        let tree = sequence_flows(&mut self.flows, &trees);
        proof {
            machine::lemma_trees_sequenced(m, trees@);
        }
        let mut found: Vec<usize> = Vec::new();
        if let Some(control) = control {
            found.push(control);
        }
        let r = Evaluated { tree, controls: found };
        proof {
            machine::lemma_goes_on_self(m.store);
            assert(self.written@.take(m.written@.len() as int) =~= m.written@);
            machine::lemma_changed(m, *self);
            machine::lemma_kept_twice(start, m, *self);
            assert(r.controls@ =~= (match control {
                Some(control) => seq![control],
                None => Seq::empty(),
            }));
            assert(way_steps(m, trees@, control));
            assert(machine::finished(m, *self, trees@, control, r));
            assert(ran_block(*p, depth as nat, list@, controls@, start, *self, r));
        }
        r
    }

    /// Evaluates a branch of a decision.
    fn eval_branch(&mut self, p: &Program, depth: usize, body: &Vec<Statement>, nested: &Vec<usize>, branch: BranchId, arm: usize, parent: PathCondition) -> (r: Branch)
        requires
            old(self).ready(*p),
            old(self).arena.holds(parent),
            arm < branch.arms,
            sequence::all_below(nested@, old(self).store.versions@.len() as int),
        ensures
            final(self).wf(),
            old(self).kept(*final(self)),
            ran_branch(*p, depth as nat, body@, nested@, branch, arm, parent, *old(self), *final(self), r),
            branches::branch_wf(final(self).store, final(self).flows, final(self).arena@, r),
            machine::tree_below(*final(self), r.tree),
        decreases depth, 3nat, body, 2nat,
    {
        let ghost m = *self;
        let checkpoint = self.open_arm(branch, arm, parent);
        let ghost opened = *self;
        let result = self.eval_block(p, depth, body, nested);
        let ghost closed = *self;
        let condition = self.condition;
        proof {
            assert(closed.store.checkpoints@ == opened.store.checkpoints@);
            assert(closed.store.open_checkpoint(checkpoint));
        }
        let state = self.store.capture_and_rollback(checkpoint);
        let made = Branch { tree: result.tree, controls: copy_versions(&result.controls), state, condition };
        proof {
            assert(closed.store.saved(checkpoint.depth as int) == opened.store.saved(checkpoint.depth as int));
            assert(self.store.guards_in(self.arena@));
            machine::lemma_records_grow(closed.store, self.store);
            assert(self.store.checkpoints@ =~= m.store.checkpoints@);
            assert(machine::arm_stores(m.store, opened.store, closed.store, self.store));
            machine::lemma_arm_kept(m, opened, closed, *self);
            assert(machine::closes(m, closed, *self, made, result));
            assert(way_branch(opened, closed, result));
        }
        made
    }

    /// Brings the branches of a decision together.
    fn join_branches(&mut self, list: Vec<Branch>, identity: usize, versions: Vec<usize>, parent: PathCondition) -> (r: Evaluated)
        requires
            old(self).wf(),
            list@.len() > 0,
            forall|i: int| 0 <= i < list@.len() ==> branches::branch_wf(old(self).store, old(self).flows, old(self).arena@, #[trigger] list@[i]),
            forall|i: int| 0 <= i < list@.len() ==> machine::tree_below(*old(self), (#[trigger] list@[i]).tree),
            sequence::all_below(versions@, old(self).store.versions@.len() as int),
            old(self).arena.holds(parent),
        ensures
            evaluates_to(*old(self), *final(self), r),
            machine::came_together(*old(self), *final(self), predicate_of(identity, versions@), list@, parent, r),
    {
        let ghost n = *self;
        let ghost view = predicate_of(identity, versions@);
        let predicate = FlowPredicate { identity: identity as u64, controls: versions };
        assert(predicate@ == view);
        let merged = merge_branches(&mut self.store, &mut self.flows, &mut self.arena, &list, predicate, parent);
        self.condition = merged.condition;
        let r = Evaluated { tree: merged.tree, controls: merged.controls };
        proof {
            machine::lemma_continues_goes_on(n.store, self.store);
            assert(self.written@.take(n.written@.len() as int) =~= n.written@);
            machine::lemma_changed(n, *self);
            let matters = branches::decision_matters(n.flows, list@);
            let deciders = branches::deciding(n.flows, list@, view, matters);
            assert forall|k: int| 0 <= k < r.controls@.len() implies (#[trigger] r.controls@[k]) < self.store.versions@.len() by {
                assert(branches::is_token(self.store.versions@, self.arena@, deciders[k], view, matters, parent, r.controls@[k]));
            }
            assert(machine::plan_below(self.flows.plan(r.tree), self.store.versions@.len() as int)) by {
                machine::lemma_below_grows(versions@, n.store.versions@.len() as int, self.store.versions@.len() as int);
                machine::lemma_written_below(n, list@, self.store.versions@.len() as int);
            }
            assert(machine::came_together(n, *self, view, list@, parent, r));
        }
        r
    }

    /// Evaluates the chosen arms of a case, each from the same state.
    fn eval_case_arms(&mut self, p: &Program, depth: usize, arms: &Vec<CaseArm>, chosen: &Vec<usize>, nested: &Vec<usize>, branch: BranchId, parent: PathCondition) -> (r: Vec<Branch>)
        requires
            old(self).ready(*p),
            old(self).arena.holds(parent),
            arms@.len() <= branch.arms,
            sequence::all_below(nested@, old(self).store.versions@.len() as int),
        ensures
            final(self).wf(),
            old(self).kept(*final(self)),
            ran_case_arms(*p, depth as nat, arms@, chosen@, chosen@.len() as int, nested@, branch, parent, *old(self), *final(self), r@),
            forall|i: int| 0 <= i < r@.len() ==> branches::branch_wf(final(self).store, final(self).flows, final(self).arena@, #[trigger] r@[i]),
            forall|i: int| 0 <= i < r@.len() ==> machine::tree_below(*final(self), (#[trigger] r@[i]).tree),
        decreases depth, 3nat, arms, 0nat,
    {
        let ghost start = *self;
        proof {
            machine::lemma_kept_self(start);
        }
        let mut list: Vec<Branch> = Vec::new();
        let mut i: usize = 0;
        while i < chosen.len()
            invariant
                i <= chosen@.len(),
                start.ready(*p),
                start.arena.holds(parent),
                arms@.len() <= branch.arms,
                sequence::all_below(nested@, start.store.versions@.len() as int),
                self.wf(),
                start.kept(*self),
                forall|k: int| 0 <= k < list@.len() ==> branches::branch_wf(self.store, self.flows, self.arena@, #[trigger] list@[k]),
                forall|k: int| 0 <= k < list@.len() ==> machine::tree_below(*self, (#[trigger] list@[k]).tree),
                ran_case_arms(*p, depth as nat, arms@, chosen@, i as int, nested@, branch, parent, start, *self, list@),
            decreases chosen@.len() - i,
        {
            let ghost m = *self;
            let ghost before = list@;
            assert(way_branches(m, before));
            let arm: usize = chosen[i];
            if arm < arms.len() {
                proof {
                    machine::lemma_below_grows(nested@, start.store.versions@.len() as int, m.store.versions@.len() as int);
                }
                let made = self.eval_branch(p, depth, &arms[arm].body, nested, branch, arm, parent);
                list.push(made);
                proof {
                    machine::lemma_kept_twice(start, m, *self);
                    assert(list@.drop_last() =~= before);
                    lemma_branches_kept(m, *self, before, list@);
                }
            }
            proof {
                let c = i + 1;
                assert(ran_case_arms(*p, depth as nat, arms@, chosen@, c - 1, nested@, branch, parent, start, m, before));
                assert(ran_case_arms(*p, depth as nat, arms@, chosen@, c, nested@, branch, parent, start, *self, list@));
            }
            i = i + 1;
        }
        list
    }

    /// Evaluates the patterns of an arm.
    fn eval_patterns(&mut self, p: &Program, depth: usize, list: &Vec<Pattern>) -> (r: Vec<usize>)
        requires
            old(self).ready(*p),
        ensures
            final(self).wf(),
            old(self).kept(*final(self)),
            final(self).condition == old(self).condition,
            ran_patterns(*p, depth as nat, list@, list@.len() as int, *old(self), *final(self), r@),
            sequence::all_below(r@, final(self).store.versions@.len() as int),
        decreases depth, 1nat, list, 0nat,
    {
        let ghost start = *self;
        proof {
            machine::lemma_kept_self(start);
        }
        let mut r: Vec<usize> = Vec::new();
        let mut i: usize = 0;
        while i < list.len()
            invariant
                i <= list@.len(),
                start.ready(*p),
                self.wf(),
                start.kept(*self),
                self.condition == start.condition,
                ran_patterns(*p, depth as nat, list@, i as int, start, *self, r@),
                sequence::all_below(r@, self.store.versions@.len() as int),
            decreases list@.len() - i,
        {
            let ghost m = *self;
            let ghost before = r@;
            match &list[i] {
                Pattern::Equal(e) => {
                    let found = self.eval_expr(p, depth, e);
                    append_versions(&mut r, &found);
                    proof {
                        machine::lemma_kept_twice(start, m, *self);
                        machine::lemma_below_grows(before, m.store.versions@.len() as int, self.store.versions@.len() as int);
                        machine::lemma_below_joined(before, found@, self.store.versions@.len() as int);
                        assert(way_both(m, before, m, found@));
                    }
                },
                Pattern::Range { low, high, .. } => {
                    let found = self.eval_expr(p, depth, low);
                    let ghost n = *self;
                    let other = self.eval_expr(p, depth, high);
                    append_versions(&mut r, &found);
                    append_versions(&mut r, &other);
                    proof {
                        machine::lemma_kept_twice(start, m, n);
                        machine::lemma_kept_twice(start, n, *self);
                        let limit = self.store.versions@.len() as int;
                        machine::lemma_below_grows(before, m.store.versions@.len() as int, limit);
                        machine::lemma_below_grows(found@, n.store.versions@.len() as int, limit);
                        machine::lemma_below_joined(before, found@, limit);
                        machine::lemma_below_joined(before + found@, other@, limit);
                        assert(way_both(m, before, n, found@));
                        assert(way(*self, found@, other@));
                    }
                },
            }
            proof {
                let c = i + 1;
                assert(ran_patterns(*p, depth as nat, list@, c - 1, start, m, before));
                assert(ran_patterns(*p, depth as nat, list@, c, start, *self, r@));
            }
            i = i + 1;
        }
        r
    }

    /// Evaluates the patterns of all arms.
    fn eval_all_patterns(&mut self, p: &Program, depth: usize, arms: &Vec<CaseArm>) -> (r: Vec<usize>)
        requires
            old(self).ready(*p),
        ensures
            final(self).wf(),
            old(self).kept(*final(self)),
            final(self).condition == old(self).condition,
            ran_all_patterns(*p, depth as nat, arms@, arms@.len() as int, *old(self), *final(self), r@),
            sequence::all_below(r@, final(self).store.versions@.len() as int),
        decreases depth, 2nat, arms, 0nat,
    {
        let ghost start = *self;
        proof {
            machine::lemma_kept_self(start);
        }
        let mut r: Vec<usize> = Vec::new();
        let mut i: usize = 0;
        while i < arms.len()
            invariant
                i <= arms@.len(),
                start.ready(*p),
                self.wf(),
                start.kept(*self),
                self.condition == start.condition,
                ran_all_patterns(*p, depth as nat, arms@, i as int, start, *self, r@),
                sequence::all_below(r@, self.store.versions@.len() as int),
            decreases arms@.len() - i,
        {
            let ghost m = *self;
            let ghost before = r@;
            let found = self.eval_patterns(p, depth, &arms[i].patterns);
            append_versions(&mut r, &found);
            proof {
                machine::lemma_kept_twice(start, m, *self);
                machine::lemma_below_grows(before, m.store.versions@.len() as int, self.store.versions@.len() as int);
                machine::lemma_below_joined(before, found@, self.store.versions@.len() as int);
                let c = i + 1;
                assert(way(m, before, found@));
                assert(ran_all_patterns(*p, depth as nat, arms@, c - 1, start, m, before));
                assert(ran_all_patterns(*p, depth as nat, arms@, c, start, *self, r@));
            }
            i = i + 1;
        }
        r
    }
}

proof fn lemma_branches_kept(a: Machine, b: Machine, before: Seq<Branch>, list: Seq<Branch>)
    requires
        a.wf(),
        a.kept(b),
        list.len() == before.len() + 1,
        list.drop_last() == before,
        forall|k: int| 0 <= k < before.len() ==> branches::branch_wf(a.store, a.flows, a.arena@, #[trigger] before[k]),
        forall|k: int| 0 <= k < before.len() ==> machine::tree_below(a, (#[trigger] before[k]).tree),
        branches::branch_wf(b.store, b.flows, b.arena@, list.last()),
        machine::tree_below(b, list.last().tree),
    ensures
        forall|k: int| 0 <= k < list.len() ==> branches::branch_wf(b.store, b.flows, b.arena@, #[trigger] list[k]),
        forall|k: int| 0 <= k < list.len() ==> machine::tree_below(b, (#[trigger] list[k]).tree),
{
    assert forall|k: int| 0 <= k < list.len() implies branches::branch_wf(b.store, b.flows, b.arena@, #[trigger] list[k]) && machine::tree_below(b, list[k].tree) by {
        if k < before.len() {
            assert(list.drop_last()[k] == list[k]);
            machine::lemma_branch_kept(a, b, before[k]);
            machine::lemma_tree_kept(a, b, before[k].tree);
        }
    }
}


impl Machine {
    /// Evaluates the iterations of a loop.
    fn eval_known_for_iterations(&mut self, p: &Program, depth: usize, iterations: &Vec<Vec<Statement>>, controls: &Vec<usize>) -> (r: Vec<FlowTree>)
        requires
            old(self).ready(*p),
            sequence::all_below(controls@, old(self).store.versions@.len() as int),
        ensures
            final(self).wf(),
            old(self).kept(*final(self)),
            forall|k: int| 0 <= k < r@.len() ==> machine::tree_below(*final(self), #[trigger] r@[k]),
            exists|now: Seq<usize>| #[trigger]
                way(*final(self), now, now) && ran_iterations(
                    *p,
                    depth as nat,
                    iterations@,
                    iterations@.len() as int,
                    controls@,
                    *old(self),
                    *final(self),
                    r@,
                    now,
                ),
        decreases depth, 3nat, iterations, 0nat,
    {
        let ghost start = *self;
        proof {
            machine::lemma_kept_self(start);
        }
        let mut trees: Vec<FlowTree> = Vec::new();
        let mut now: Vec<usize> = copy_versions(controls);
        let mut done = false;
        let mut i: usize = 0;
        while i < iterations.len()
            invariant
                i <= iterations@.len(),
                start.ready(*p),
                self.wf(),
                start.kept(*self),
                sequence::all_below(now@, self.store.versions@.len() as int),
                forall|k: int| 0 <= k < trees@.len() ==> machine::tree_below(*self, #[trigger] trees@[k]),
                done == machine::stopped(self.flows, trees@),
                ran_iterations(*p, depth as nat, iterations@, i as int, controls@, start, *self, trees@, now@),
            decreases iterations@.len() - i,
        {
            let ghost m = *self;
            let ghost before = trees@;
            let ghost previous = now@;
            if done {
                proof {
                    let c = i + 1;
                    let none = Evaluated { tree: before.last(), controls: now };
                    assert(way_iteration(m, before, previous, none));
                    assert(ran_iterations(*p, depth as nat, iterations@, c - 1, controls@, start, m, before, previous));
                    assert(ran_iterations(*p, depth as nat, iterations@, c, controls@, start, *self, trees@, now@));
                }
            } else {
                let result = self.eval_block(p, depth, &iterations[i], &now);
                trees.push(result.tree);
                proof {
                    machine::lemma_below_grows(now@, m.store.versions@.len() as int, self.store.versions@.len() as int);
                }
                add_versions(&mut now, &result.controls, self.store.versions.len());
                done = !self.flows.contains(result.tree, ProcedureFlow::Continue);
                proof {
                    machine::lemma_kept_twice(start, m, *self);
                    assert forall|k: int| 0 <= k < trees@.len() implies machine::tree_below(*self, #[trigger] trees@[k]) by {
                        if k < before.len() {
                            assert(machine::tree_below(m, before[k]));
                            machine::lemma_tree_kept(m, *self, before[k]);
                        }
                    }
                    let c = i + 1;
                    assert(way_iteration(m, before, previous, result));
                    assert(ran_iterations(*p, depth as nat, iterations@, c - 1, controls@, start, m, before, previous));
                    assert(ran_iterations(*p, depth as nat, iterations@, c, controls@, start, *self, trees@, now@));
                }
            }
            i = i + 1;
        }
        proof {
            assert(way(*self, now@, now@));
        }
        trees
    }

    /// Evaluates a loop whose iterations are known.
    fn eval_known_for(&mut self, p: &Program, depth: usize, iterations: &Vec<Vec<Statement>>, controls: &Vec<usize>) -> (r: Evaluated)
        requires
            old(self).ready(*p),
            sequence::all_below(controls@, old(self).store.versions@.len() as int),
        ensures
            evaluates_to(*old(self), *final(self), r),
            exists|opened: Machine, n: Machine, trees: Seq<FlowTree>, now: Seq<usize>| #[trigger]
                way_loop(opened, n, trees, now) && machine::loop_opened(*old(self), opened) && ran_iterations(
                    *p,
                    depth as nat,
                    iterations@,
                    iterations@.len() as int,
                    controls@,
                    opened,
                    n,
                    trees,
                    now,
                ) && machine::loop_closed(*old(self), n, *final(self), trees, r),
        decreases depth, 3nat, iterations, 1nat,
    {
        let ghost m = *self;
        let parent = self.condition;
        let checkpoint = self.store.checkpoint();
        self.loops.push(OpenLoop { checkpoint, breaks: Vec::new() });
        self.captures.push(None);
        let ghost opened = *self;
        proof {
            assert(opened.loops@.drop_last() =~= m.loops@);
            assert(opened.captures@.drop_last() =~= m.captures@);
            assert(opened.captures@ =~= m.captures@.push(None));
            assert(machine::loop_opened(m, opened));
            lemma_loop_opened(m, opened);
        }
        let trees = self.eval_known_for_iterations(p, depth, iterations, controls);
        let ghost n = *self;
        let ghost now = choose|now: Seq<usize>| #[trigger]
            way(n, now, now) && ran_iterations(*p, depth as nat, iterations@, iterations@.len() as int, controls@, opened, n, trees@, now);
        proof {
            assert forall|k: int| 0 <= k < trees@.len() implies self.flows.holds(#[trigger] trees@[k]) by {
                assert(machine::tree_below(n, trees@[k]));
            }
        }
        let tree = sequence_flows(&mut self.flows, &trees);
        let ghost joined = *self;
        proof {
            machine::lemma_trees_sequenced(n, trees@);
            let last = opened.loops@.len() - 1;
            assert(machine::loop_kept(opened.loops@[last], n.loops@[last]));
            assert(n.loops@[last].wf(n.store, n.arena@));
            let plan = self.flows.plan(tree);
            machine::lemma_rewritten_below(plan, Plan::Outcome(ProcedureFlow::Continue), Plan::Outcome(ProcedureFlow::Continue), n.store.versions@.len() as int);
            assert forall|paths: Seq<PathNode>| #[trigger] arena::grows(self.arena@, paths) implies sequence::controls_known(
                self.store,
                paths,
                sequence::left_plan(plan),
            ) by {
                machine::lemma_controls_known(self.store, paths, sequence::left_plan(plan));
            }
        }
        let top = self.loops.pop().unwrap();
        let _ = self.captures.pop();
        let breaks = top.breaks;
        let condition = self.condition;
        let left = leave_known_loop(&mut self.store, &mut self.flows, &mut self.arena, checkpoint, breaks, tree, condition, parent);
        let ghost ended = *self;
        let ghost tokens = left.controls@;
        let ghost grown = choose|paths: Seq<PathNode>| #[trigger]
            sequence::tokens_of(ended.store.versions@, paths, ended.arena@, ended.flows.plan(left.tree), tokens) && arena::grows(n.arena@, paths);
        assert(sequence::tokens_of(ended.store.versions@, grown, ended.arena@, ended.flows.plan(left.tree), tokens));
        self.condition = left.condition;
        let r = Evaluated { tree: left.tree, controls: left.controls };
        proof {
            assert(top == n.loops@.last());
            assert(self.loops@ =~= n.loops@.drop_last());
            assert(self.captures@ =~= n.captures@.drop_last());
            assert(machine::arm_stores(m.store, opened.store, n.store, self.store));
            assert forall|l: int| 0 <= l < m.captures@.len() implies machine::capture_kept(#[trigger] m.captures@[l], self.captures@[l]) by {
                assert(opened.captures@.drop_last()[l] == m.captures@[l]);
                assert(machine::capture_kept(opened.captures@[l], n.captures@[l]));
                assert(self.captures@[l] == n.captures@[l]);
            }
            assert forall|l: int| 0 <= l < self.captures@.len() implies machine::capture_wf(#[trigger] self.captures@[l], self.store, self.arena@) by {
                assert(self.captures@[l] == n.captures@[l]);
                assert(machine::capture_wf(n.captures@[l], n.store, n.arena@));
                machine::lemma_capture_wf(n.captures@[l], n.store, self.store, n.arena@, self.arena@);
            }
            assert forall|t: int| 0 <= t < n.flows.trees@.len() implies #[trigger] n.flows.trees@[t] == self.flows.trees@[t] by {
                assert(n.flows.trees@[t] == joined.flows.trees@[t]);
            }
            machine::lemma_loop_left(m, opened, n, *self);
            machine::lemma_plan_grows(sequence::left_plan(joined.flows.plan(tree)), n.store.versions@.len() as int, self.store.versions@.len() as int);
            let plan = sequence::sequenced(sequence::plans_of(n.flows, trees@));
            let falls = flow::can_end(plan, ProcedureFlow::Continue);
            let goes_on = flow::can_end(self.flows.plan(r.tree), ProcedureFlow::Continue);
            assert(joined.flows.plan(tree) == plan);
            let (rolled, exits) = choose|rolled: SsaStore, exits: Seq<FlowState>| #[trigger]
                sequence::loop_left(n.store, rolled, self.store, checkpoint.depth as int, breaks@, condition, falls, goes_on, exits) && (goes_on && exits.len()
                    > 0 ==> forall|branch: BranchId, arm: int|
                    0 <= arm < branch.arms ==> (#[trigger] path::allows(self.arena.path(left.condition), branch, arm) <==> sequence::some_exit_allows(
                        n.arena@,
                        exits,
                        branch,
                        arm,
                    )));
            assert(sequence::loop_left(
                n.store,
                rolled,
                self.store,
                n.loops@.last().checkpoint.depth as int,
                n.loops@.last().breaks@,
                n.condition,
                falls,
                goes_on,
                exits,
            ));
            assert(sequence::tokens_of(self.store.versions@, grown, self.arena@, self.flows.plan(r.tree), r.controls@));
            assert(machine::loop_closed(m, n, *self, trees@, r));
            assert(way_loop(opened, n, trees@, now));
        }
        r
    }

    /// Evaluates a case whose target and patterns were evaluated.
    fn eval_case(&mut self, p: &Program, depth: usize, statement: &Statement, controls: &Vec<usize>, found: &Vec<usize>) -> (r: Evaluated)
        requires
            old(self).ready(*p),
            statement is Case,
            sequence::all_below(controls@, old(self).store.versions@.len() as int),
            sequence::all_below(found@, old(self).store.versions@.len() as int),
        ensures
            evaluates_to(*old(self), *final(self), r),
            ran_case(*p, depth as nat, *statement, controls@, found@, *old(self), *final(self), r),
        decreases depth, 3nat, statement, 0nat,
    {
        let ghost m = *self;
        let parent = self.condition;
        let (target, arms, otherwise, facts) = match statement {
            Statement::Case { target, arms, otherwise, facts } => (target, arms, otherwise, facts),
            _ => {
                return self.simple_flow_result(ProcedureFlow::Continue);
            },
        };
        let nested = join_lists(controls, found);
        proof {
            machine::lemma_below_joined(controls@, found@, m.store.versions@.len() as int);
        }
        let plan = plan_case(arms.len(), facts.selector, &facts.patterns, &facts.answers);
        assert(selection::case_planned(arms@.len() as usize, facts.selector, facts.patterns@, facts.answers, plan));
        match plan {
            CasePlan::Default => self.eval_block(p, depth, otherwise, &nested),
            CasePlan::Arm(arm) => {
                if arm < arms.len() {
                    self.eval_block(p, depth, &arms[arm].body, &nested)
                } else {
                    self.eval_block(p, depth, otherwise, &nested)
                }
            },
            CasePlan::Branch { arms: chosen, default } => {
                let count: usize = if arms.len() < usize::MAX {
                    arms.len() + 1
                } else {
                    usize::MAX
                };
                let versions = sort_dedup(found);
                let number: usize = self.take_number();
                let branch = BranchId::new(self.namespace, number, count);
                let ghost taken = *self;
                let mut list = self.eval_case_arms(p, depth, arms, &chosen, &nested, branch, parent);
                let ghost n = *self;
                let ghost before = list@;
                proof {
                    machine::lemma_kept_twice(m, taken, n);
                    machine::lemma_kept_self(n);
                    assert(branch == next_branch_of(m, count));
                    values::lemma_sorted_below(versions@, found@, m.store.versions@.len() as int);
                }
                if (default || list.len() == 0) && arms.len() < count {
                    proof {
                        machine::lemma_below_grows(nested@, m.store.versions@.len() as int, n.store.versions@.len() as int);
                    }
                    let made = self.eval_branch(p, depth, otherwise, &nested, branch, arms.len(), parent);
                    list.push(made);
                    proof {
                        assert(list@.drop_last() =~= before);
                        lemma_branches_kept(n, *self, before, list@);
                    }
                }
                let ghost o = *self;
                let ghost all = list@;
                let ghost listed = versions@;
                proof {
                    machine::lemma_kept_twice(m, n, o);
                    machine::lemma_below_grows(versions@, m.store.versions@.len() as int, o.store.versions@.len() as int);
                    assert(way_branches(n, before));
                    assert(way_branches(o, all));
                    assert(way(o, found@, listed));
                }
                let r = if list.len() == 0 {
                    self.simple_flow_result(ProcedureFlow::Continue)
                } else {
                    let identity: usize = self.identify(PredicateExpression::Opaque(target.occurrence));
                    let ghost t = *self;
                    let r = self.join_branches(list, identity, versions, parent);
                    proof {
                        machine::lemma_kept_twice(o, t, *self);
                        assert(way_identity(t, identity, listed));
                    }
                    r
                };
                proof {
                    machine::lemma_kept_twice(m, o, *self);
                }
                r
            },
        }
    }

    /// Evaluates a loop whose bounds were evaluated.
    fn eval_for(&mut self, p: &Program, depth: usize, statement: &Statement, range_controls: &Vec<usize>, found: &Vec<usize>) -> (r: Evaluated)
        requires
            old(self).ready(*p),
            statement is For,
            sequence::all_below(range_controls@, old(self).store.versions@.len() as int),
            sequence::all_below(found@, old(self).store.versions@.len() as int),
        ensures
            evaluates_to(*old(self), *final(self), r),
            ran_for(*p, depth as nat, *statement, range_controls@, found@, *old(self), *final(self), r),
        decreases depth, 3nat, statement, 0nat,
    {
        let ghost m = *self;
        let (body, range, iterations) = match statement {
            Statement::For { body, range, iterations, .. } => (body, range, iterations),
            _ => {
                return self.simple_flow_result(ProcedureFlow::Continue);
            },
        };
        let known = matches!(iterations, Iterations::Known(_));
        let over = matches!(iterations, Iterations::TooMany);
        let plan = plan_loop(range, known, over);
        match (plan, iterations) {
            (LoopPlan::Pass, _) => self.simple_flow_result(ProcedureFlow::Continue),
            (LoopPlan::Unroll, Iterations::Known(list)) => self.eval_known_for(p, depth, list, range_controls),
            (LoopPlan::Forget { may_skip }, _) => self.forget_body(p, body, may_skip),
            (LoopPlan::Summarize, Iterations::Runtime(number)) => self.eval_runtime_for(p, depth, body, *number, range, range_controls, found),
            _ => self.simple_flow_result(ProcedureFlow::Continue),
        }
    }

    /// Evaluates a loop whose iterations are not known.
    fn eval_runtime_for(
        &mut self,
        p: &Program,
        depth: usize,
        body: &Vec<Statement>,
        number: usize,
        range: &ForRange,
        range_controls: &Vec<usize>,
        found: &Vec<usize>,
    ) -> (r: Evaluated)
        requires
            old(self).ready(*p),
            sequence::all_below(range_controls@, old(self).store.versions@.len() as int),
            sequence::all_below(found@, old(self).store.versions@.len() as int),
        ensures
            evaluates_to(*old(self), *final(self), r),
            if old(self).functions@.len() > 0 && old(self).store.next_revision_id == usize::MAX {
                machine::simple(Machine { fits: false, ..*old(self) }, *final(self), ProcedureFlow::Continue, r) && final(self).store == old(self).store
                    && final(self).loops == old(self).loops
            } else {
                exists|opened: Machine, open: RuntimeLoop, n: Machine, e: Evaluated, t: Machine, skip: Option<MaySkip>| #[trigger]
                    way_runtime(opened, open, n, e, t, skip) && looping::runtime_opened(*old(self), opened, may_skip(*range), open) && ran_block(
                        *p,
                        depth as nat,
                        body@,
                        range_controls@,
                        opened,
                        n,
                        e,
                    ) && is_skip(*range, number, found@, open, n, t, skip) && looping::runtime_closed(t, *final(self), e, old(self).condition, skip, r)
            },
        decreases depth, 3nat, body, 2nat,
    {
        let ghost m = *self;
        if self.functions.len() > 0 && self.store.next_revision_id == usize::MAX {
            self.fits = false;
            let ghost noted = *self;
            proof {
                machine::lemma_goes_on_self(m.store);
                assert(self.written@.take(m.written@.len() as int) =~= m.written@);
                machine::lemma_changed(m, *self);
            }
            let r = self.simple_flow_result(ProcedureFlow::Continue);
            proof {
                machine::lemma_kept_twice(m, noted, *self);
            }
            return r;
        }
        let skips = for_range_has_dynamic_bounds(range);
        let open = self.open_runtime_loop(skips);
        let ghost opened = *self;
        let ghost kept_open = open;
        let e = self.eval_block(p, depth, body, range_controls);
        let ghost n = *self;
        let mut skip: Option<MaySkip> = None;
        if let Some(branch) = open.branch {
            let controls = sort_dedup(found);
            proof {
                values::lemma_sorted_below(controls@, found@, m.store.versions@.len() as int);
                machine::lemma_below_grows(controls@, m.store.versions@.len() as int, n.store.versions@.len() as int);
            }
            let identity: usize = self.identify(PredicateExpression::Opaque(number));
            skip = Some(MaySkip { branch, identity: identity as u64, controls });
        }
        let ghost decision = skip;
        let ghost t = *self;
        proof {
            machine::lemma_kept_self(n);
            machine::lemma_kept_twice(opened, n, t);
            machine::lemma_tree_kept(n, t, e.tree);
        }
        let r = self.close_runtime_loop(open, &e, skip, Ghost(m), Ghost(skips), Ghost(opened));
        proof {
            assert(is_skip(*range, number, found@, kept_open, n, t, decision));
            assert(way_runtime(opened, kept_open, n, e, t, decision));
        }
        r
    }

    /// Forgets what the body of a loop may write.
    fn forget_body(&mut self, p: &Program, body: &Vec<Statement>, weak: bool) -> (r: Evaluated)
        requires
            old(self).ready(*p),
        ensures
            evaluates_to(*old(self), *final(self), r),
            exists|list: Seq<NodeKey>, n: Machine|
                #![trigger way_nodes(list), way(n, Seq::empty(), Seq::empty())]
                way_nodes(list) && way(n, Seq::empty(), Seq::empty()) && body_may_write(*p, body@, list) && steps::nodes_forgotten(*p, list, weak, *old(self), n)
                    && machine::simple(n, *final(self), ProcedureFlow::Continue, r) && final(self).store == n.store && final(self).loops == n.loops,
    {
        let ghost m = *self;
        let list = p.written_by_body(body);
        self.opaque_kill_keys(p, &list, weak);
        let ghost n = *self;
        let r = self.simple_flow_result(ProcedureFlow::Continue);
        proof {
            machine::lemma_kept_twice(m, n, *self);
            assert(way_nodes(list@));
            assert(way(n, Seq::empty(), Seq::empty()));
        }
        r
    }

    /// Evaluates one statement.
    pub fn eval_statement(&mut self, p: &Program, depth: usize, statement: &Statement, controls: &Vec<usize>) -> (r: Evaluated)
        requires
            old(self).ready(*p),
            sequence::all_below(controls@, old(self).store.versions@.len() as int),
        ensures
            evaluates_to(*old(self), *final(self), r),
            ran_statement(*p, depth as nat, *statement, controls@, *old(self), *final(self), r),
        decreases depth, 3nat, statement, 1nat,
    {
        let ghost start = *self;
        match statement {
            Statement::Assign { destinations, .. } => {
                let leaves = is_return_assignment(&self.functions, destinations);
                let (cache, choices) = self.open_expression();
                let ghost opened = *self;
                self.eval_assign(p, depth, statement, controls);
                let ghost n = *self;
                self.cache = cache;
                self.choices = choices;
                let ghost m = *self;
                proof {
                    machine::lemma_scope_left(start, opened, n, m);
                    assert(expression_closed(start, n, m));
                    assert(way_arm(opened, n, Seq::empty()));
                }
                if leaves {
                    self.record_return();
                    let ghost o = *self;
                    let r = self.simple_flow_result(ProcedureFlow::Return);
                    proof {
                        machine::lemma_kept_twice(start, m, o);
                        machine::lemma_kept_twice(start, o, *self);
                        assert(way_arm(m, o, Seq::empty()));
                    }
                    r
                } else {
                    let r = self.simple_flow_result(ProcedureFlow::Continue);
                    proof {
                        machine::lemma_kept_twice(start, m, *self);
                        assert(way_arm(m, m, Seq::empty()));
                    }
                    r
                }
            },
            Statement::If { condition, yes, no } => {
                let found = self.eval_expr(p, depth, condition);
                let ghost m = *self;
                let parent = self.condition;
                let nested = join_lists(controls, &found);
                proof {
                    machine::lemma_below_grows(controls@, start.store.versions@.len() as int, m.store.versions@.len() as int);
                    machine::lemma_below_joined(controls@, found@, m.store.versions@.len() as int);
                    assert(way(m, found@, found@));
                }
                match flows::constant_truth(condition) {
                    Some(truth) => {
                        let r = if truth {
                            self.eval_block(p, depth, yes, &nested)
                        } else {
                            self.eval_block(p, depth, no, &nested)
                        };
                        proof {
                            machine::lemma_kept_twice(start, m, *self);
                        }
                        r
                    },
                    None => {
                        let number: usize = self.take_number();
                        let branch = BranchId::new(self.namespace, number, 2);
                        let ghost taken = *self;
                        let first = self.eval_branch(p, depth, yes, &nested, branch, 0, parent);
                        let ghost n = *self;
                        proof {
                            machine::lemma_kept_twice(m, taken, n);
                            machine::lemma_below_grows(nested@, m.store.versions@.len() as int, n.store.versions@.len() as int);
                        }
                        let second = self.eval_branch(p, depth, no, &nested, branch, 1, parent);
                        let ghost o = *self;
                        let mut list: Vec<Branch> = Vec::new();
                        list.push(first);
                        let ghost single = list@;
                        list.push(second);
                        let ghost all = list@;
                        let ghost listed = found@;
                        let versions = sort_dedup(&found);
                        let ghost sorted = versions@;
                        proof {
                            values::lemma_sorted_below(versions@, found@, m.store.versions@.len() as int);
                            assert(all.drop_last() =~= single);
                            lemma_branches_kept(n, o, single, all);
                            machine::lemma_kept_twice(m, n, o);
                            machine::lemma_below_grows(versions@, m.store.versions@.len() as int, o.store.versions@.len() as int);
                            assert(branch == next_branch_of(m, 2));
                            assert(all[0] == single[0]);
                            assert(way_branches(n, all));
                            assert(way_branches(o, all));
                        }
                        let identity: usize = self.identify(from_expression(condition));
                        let ghost t = *self;
                        let r = self.join_branches(list, identity, versions, parent);
                        proof {
                            machine::lemma_kept_twice(o, t, *self);
                            assert(way_identity(t, identity, sorted));
                            machine::lemma_kept_twice(m, o, *self);
                            machine::lemma_kept_twice(start, m, *self);
                            assert(way(m, listed, listed));
                        }
                        r
                    },
                }
            },
            Statement::Case { target, arms, .. } => {
                let first = self.eval_expr(p, depth, target);
                let ghost n = *self;
                let second = self.eval_all_patterns(p, depth, arms);
                let ghost m = *self;
                let found = join_lists(&first, &second);
                proof {
                    machine::lemma_kept_twice(start, n, m);
                    machine::lemma_below_grows(controls@, start.store.versions@.len() as int, m.store.versions@.len() as int);
                    machine::lemma_below_grows(first@, n.store.versions@.len() as int, m.store.versions@.len() as int);
                    machine::lemma_below_joined(first@, second@, m.store.versions@.len() as int);
                }
                let r = self.eval_case(p, depth, statement, controls, &found);
                proof {
                    machine::lemma_kept_twice(start, m, *self);
                    assert(way_both(n, first@, m, second@));
                }
                r
            },
            Statement::For { bounds, .. } => {
                let found = self.eval_exprs(p, depth, bounds);
                let ghost m = *self;
                let all = join_lists(controls, &found);
                let range_controls = sort_dedup(&all);
                proof {
                    machine::lemma_below_grows(controls@, start.store.versions@.len() as int, m.store.versions@.len() as int);
                    machine::lemma_below_joined(controls@, found@, m.store.versions@.len() as int);
                    values::lemma_sorted_below(range_controls@, all@, m.store.versions@.len() as int);
                }
                let r = self.eval_for(p, depth, statement, &range_controls, &found);
                proof {
                    machine::lemma_kept_twice(start, m, *self);
                    assert(way(m, found@, range_controls@));
                }
                r
            },
            Statement::Call(call) => {
                let result = self.eval_call_uncached(p, depth, call, controls);
                let ghost m = *self;
                let r = self.simple_flow_result(ProcedureFlow::Continue);
                proof {
                    machine::lemma_kept_twice(start, m, *self);
                    assert(way_call(m, result.region_groups@));
                }
                r
            },
            Statement::System(call) => {
                let found = self.eval_system_call(p, depth, call, controls);
                let ghost m = *self;
                let r = self.simple_flow_result(ProcedureFlow::Continue);
                proof {
                    machine::lemma_kept_twice(start, m, *self);
                    assert(way(m, found@, found@));
                }
                r
            },
            Statement::Break => {
                self.record_break();
                let ghost m = *self;
                let r = self.simple_flow_result(ProcedureFlow::Break);
                proof {
                    machine::lemma_kept_twice(start, m, *self);
                }
                r
            },
            Statement::Unsupported => {
                self.opaque_kill_keys(p, p.owned, false);
                let ghost m = *self;
                let r = self.simple_flow_result(ProcedureFlow::Continue);
                proof {
                    machine::lemma_kept_twice(start, m, *self);
                    assert(way(m, Seq::empty(), Seq::empty()));
                }
                r
            },
            Statement::IfReset { .. } => self.simple_flow_result(ProcedureFlow::Continue),
            Statement::Other => self.simple_flow_result(ProcedureFlow::Continue),
        }
    }
}

/// A loop that is entered is in order.
proof fn lemma_loop_opened(m: Machine, opened: Machine)
    requires
        m.wf(),
        machine::loop_opened(m, opened),
        opened.known == m.known,
        opened.store.wf(),
        opened.store.guards_in(opened.arena@),
        opened.store.open_checkpoint(opened.loops@.last().checkpoint),
        forall|d: int| 0 <= d < m.store.checkpoints@.len() ==> #[trigger] opened.store.checkpoints@[d] == m.store.checkpoints@[d],
        opened.store.active_revisions@ == m.store.active_revisions@,
        opened.store.revision_events@ == m.store.revision_events@,
    ensures
        opened.wf(),
{
    assert forall|l: int| 0 <= l < opened.loops@.len() implies (#[trigger] opened.loops@[l]).wf(opened.store, opened.arena@) by {
        if l < m.loops@.len() {
            assert(opened.loops@.drop_last()[l] == m.loops@[l]);
            assert(m.loops@[l].wf(m.store, m.arena@));
            machine::lemma_loop_wf(m.loops@[l], m.store, opened.store, m.arena@, opened.arena@);
        }
    }
    assert forall|l: int| 0 <= l < opened.captures@.len() implies machine::capture_wf(#[trigger] opened.captures@[l], opened.store, opened.arena@) by {
        if l < m.captures@.len() {
            assert(opened.captures@[l] == m.captures@[l]);
            assert(machine::capture_wf(m.captures@[l], m.store, m.arena@));
            machine::lemma_capture_wf(m.captures@[l], m.store, opened.store, m.arena@, opened.arena@);
        }
    }
    assert forall|f: int| 0 <= f < opened.functions@.len() implies machine::function_wf(#[trigger] opened.functions@[f], opened.store) by {
        assert(machine::function_wf(m.functions@[f], m.store));
    }
}

} // verus!
