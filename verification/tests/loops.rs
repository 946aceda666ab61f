use std::collections::HashSet;

use veryl_analyzer::affine::Term;
use veryl_analyzer::arena::{PathArena, PathCondition};
use veryl_analyzer::bounds::{
    affine_bound, affine_index, eval_for_range_controls, for_range_has_dynamic_bounds, for_range_is_proven_empty,
    for_range_is_proven_nonempty, plan_loop, ForBound, ForRange, IndexExpression, LoopPlan,
};
use veryl_analyzer::exits::{close_runtime_body, record_deferred_return, record_return_marker, ReturnCapture};
use veryl_analyzer::flow::{FlowArm, FlowPredicate, FlowStore, ProcedureFlow};
use veryl_analyzer::path::BranchId;
use veryl_analyzer::runtime::{leave_runtime_loop, RuntimeLoopBody};
use veryl_analyzer::sequence::leave_function_body;
use veryl_analyzer::ssa::SsaStore;

fn always() -> PathCondition {
    PathCondition { node: 0 }
}

fn sources(store: &SsaStore, arena: &mut PathArena, version: usize) -> HashSet<u64> {
    store
        .root_sources(arena, version)
        .expect("the offsets fit")
        .into_iter()
        .collect()
}

fn variable(id: u64) -> Box<IndexExpression> {
    Box::new(IndexExpression::Variable(id))
}

fn number(value: usize) -> Box<IndexExpression> {
    Box::new(IndexExpression::Constant(Some(value)))
}

fn term(id: u64, coefficient: isize) -> Term {
    Term { id, coefficient }
}

fn expression(expression: IndexExpression, value: Option<usize>, versions: Vec<usize>) -> ForBound {
    ForBound::Expression { expression, value, versions }
}

#[test]
fn sums_and_products_of_variables_are_affine() {
    // 3 * (i - j) + i - 2
    let difference = Box::new(IndexExpression::Difference(variable(1), variable(2)));
    let product = Box::new(IndexExpression::Product(number(3), difference));
    let sum = Box::new(IndexExpression::Sum(product, variable(1)));
    let whole = IndexExpression::Difference(sum, number(2));
    let index = affine_index(&whole).expect("it is affine");
    assert_eq!(index.terms, vec![term(1, 4), term(2, -3)]);
    assert_eq!(index.constant, -2);
}

#[test]
fn a_variable_without_its_multiple_leaves_a_sum() {
    let index = affine_index(&IndexExpression::Difference(variable(1), variable(1))).expect("it is affine");
    assert!(index.terms.is_empty());
    assert_eq!(index.constant, 0);
    // A product by 0 still lists the variable, so that it is no constant.
    let nothing = affine_index(&IndexExpression::Product(number(0), variable(1))).expect("it is affine");
    assert_eq!(nothing.terms, vec![term(1, 0)]);
}

#[test]
fn signs_and_casts_are_followed() {
    let minus = IndexExpression::Minus(Box::new(IndexExpression::Cast(Box::new(IndexExpression::Plus(variable(4))))));
    let index = affine_index(&minus).expect("it is affine");
    assert_eq!(index.terms, vec![term(4, -1)]);
    assert_eq!(index.constant, 0);
}

#[test]
fn other_expressions_are_not_affine() {
    assert!(affine_index(&IndexExpression::Product(variable(1), variable(2))).is_none());
    assert!(affine_index(&IndexExpression::Other).is_none());
    assert!(affine_index(&IndexExpression::Constant(None)).is_none());
    assert!(affine_index(&IndexExpression::Constant(Some(usize::MAX))).is_none());
    let large = number(isize::MAX as usize);
    assert!(affine_index(&IndexExpression::Sum(large, number(1))).is_none());
    assert!(affine_bound(&ForBound::Constant(usize::MAX)).is_none());
}

#[test]
fn equal_bounds_leave_an_exclusive_range_empty() {
    let range = |inclusive: bool| ForRange {
        start: expression(IndexExpression::Sum(variable(1), number(2)), None, vec![7, 3]),
        end: expression(IndexExpression::Sum(number(2), variable(1)), None, vec![3]),
        inclusive,
    };
    assert!(for_range_is_proven_empty(&range(false)));
    assert!(!for_range_is_proven_empty(&range(true)));
    assert!(for_range_has_dynamic_bounds(&range(false)));
    assert_eq!(plan_loop(&range(false), true, false), LoopPlan::Pass);
    assert_eq!(plan_loop(&range(true), false, false), LoopPlan::Summarize);
    let controls = eval_for_range_controls(&range(false), &vec![5, 3]);
    assert_eq!(controls.bounds, vec![3, 7]);
    assert_eq!(controls.range, vec![3, 5, 7]);
}

#[test]
fn long_loops_may_be_skipped_unless_their_bounds_are_known() {
    let known = ForRange { start: ForBound::Constant(0), end: ForBound::Constant(5000), inclusive: false };
    assert!(!for_range_has_dynamic_bounds(&known));
    assert!(for_range_is_proven_nonempty(&known));
    assert_eq!(plan_loop(&known, true, true), LoopPlan::Unroll);
    assert_eq!(plan_loop(&known, false, true), LoopPlan::Forget { may_skip: false });
    let open = ForRange {
        start: ForBound::Constant(0),
        end: expression(IndexExpression::Variable(1), None, Vec::new()),
        inclusive: true,
    };
    assert!(!for_range_is_proven_nonempty(&open));
    assert_eq!(plan_loop(&open, false, true), LoopPlan::Forget { may_skip: true });
    let point = ForRange { start: ForBound::Constant(4), end: expression(*number(4), Some(4), Vec::new()), inclusive: true };
    assert!(for_range_is_proven_nonempty(&point));
}

#[test]
fn the_innermost_loop_that_captures_returns_notes_them() {
    let mut store = SsaStore::default();
    let checkpoint = store.checkpoint();
    let function = store.begin_state_revision(checkpoint);
    let revision = store.begin_state_revision(checkpoint);
    let mut captures = vec![Some(ReturnCapture { revision, conditions: Vec::new() }), None];
    record_return_marker(&mut store, &mut captures, Some(function), always());
    assert_eq!(captures[0].as_ref().map(|capture| capture.conditions.len()), Some(1));
    assert!(captures[1].is_none());
    let events = store.revision_events.len();
    record_return_marker(&mut store, &mut Vec::new(), Some(function), always());
    assert_eq!(store.revision_events.len(), events + 1);
    record_return_marker(&mut store, &mut Vec::new(), None, always());
    assert_eq!(store.revision_events.len(), events + 1);
}

#[test]
fn a_deferred_return_is_an_exit_and_leaves_the_state() {
    let mut store = SsaStore::default();
    let mut arena = PathArena::new();
    let checkpoint = store.checkpoint();
    let function = store.begin_state_revision(checkpoint);
    let inner = store.checkpoint();
    let one = store.read(1);
    let version = store.definition(&vec![one]);
    store.bind(5, version);
    let state = store.capture_and_rollback(inner);
    record_deferred_return(&mut store, &mut Vec::new(), Some(function), state, always());
    assert!(!store.current.contains_key(&5));
    leave_function_body(&mut store, function, checkpoint, false);
    let version = store.current[&5];
    assert_eq!(sources(&store, &mut arena, version), [1].into_iter().collect());
}

#[test]
fn a_return_in_a_loop_of_unknown_length_leaves_the_function() {
    let mut store = SsaStore::default();
    let mut flows = FlowStore::new();
    let mut arena = PathArena::new();
    let zero = store.read(0);
    let before = store.definition(&vec![zero]);
    store.bind(5, before);
    let outer = store.checkpoint();
    let function = store.begin_state_revision(outer);
    let checkpoint = store.checkpoint();
    let revision = store.begin_state_revision(checkpoint);
    let branch = BranchId::new(0, 0, 2);
    let yes = arena.with_choice(always(), branch, 0);
    let no = arena.with_choice(always(), branch, 1);
    // An iteration writes 5 from 1, and may return behind it.
    let one = store.read(1);
    let version = store.definition(&vec![one]);
    store.bind(5, version);
    let mut captures = vec![Some(ReturnCapture { revision, conditions: Vec::new() })];
    record_return_marker(&mut store, &mut captures, Some(function), yes);
    let going = flows.outcome(ProcedureFlow::Continue);
    let leaving = flows.outcome(ProcedureFlow::Return);
    let tree = flows.decision(
        FlowPredicate { identity: 1, controls: Vec::new() },
        vec![FlowArm { condition: yes, tree: leaving }, FlowArm { condition: no, tree: going }],
    );
    let capture = captures.pop().expect("the loop is open");
    let body = close_runtime_body(&mut store, &mut arena, &flows, tree, capture, checkpoint);
    assert_eq!(store.current[&5], before);
    assert_eq!(body.continuing.bindings.len(), 1);
    assert!(body.returned.is_some());
    leave_runtime_loop(
        &mut store,
        &mut flows,
        &mut arena,
        checkpoint,
        RuntimeLoopBody { tree, continuing: body.continuing, breaks: Vec::new(), returned: body.returned },
        &mut captures,
        Some(function),
        None,
        always(),
    );
    let two = store.read(2);
    let later = store.definition(&vec![two]);
    store.bind(5, later);
    leave_function_body(&mut store, function, outer, true);
    let version = store.current[&5];
    assert_eq!(sources(&store, &mut arena, version), [1, 2].into_iter().collect());
}

#[test]
fn a_body_that_never_ends_changes_nothing_by_going_on() {
    let mut store = SsaStore::default();
    let mut flows = FlowStore::new();
    let mut arena = PathArena::new();
    let checkpoint = store.checkpoint();
    let one = store.read(1);
    store.bind(5, one);
    let tree = flows.outcome(ProcedureFlow::Break);
    let body = close_runtime_body(&mut store, &mut arena, &flows, tree, None, checkpoint);
    assert!(body.continuing.bindings.is_empty());
    assert!(body.returned.is_none());
    assert!(!store.current.contains_key(&5));
}
