use std::collections::HashSet;

use veryl_analyzer::arena::{PathArena, PathCondition};
use veryl_analyzer::flow::{FlowArm, FlowPredicate, FlowStore, ProcedureFlow};
use veryl_analyzer::occurrences::ExpressionBranchLayout;
use veryl_analyzer::path::BranchId;
use veryl_analyzer::lift::ExitState;
use veryl_analyzer::runtime::{leave_runtime_loop, MaySkip, RuntimeLoopBody};
use veryl_analyzer::sequence::{
    continuation_tokens, leave_function_body, leave_known_loop, merge_flow_states, next_continuation_control,
    number_top_expression, sequence_flows, FlowState,
};
use veryl_analyzer::ssa::SsaStore;

fn always() -> PathCondition {
    PathCondition { node: 0 }
}

fn sources(store: &SsaStore, arena: &mut PathArena, version: usize) -> HashSet<u64> {
    store
        .root_sources(arena, version)
        .expect("the offsets fit")
        .into_iter()
        .collect()
}

#[test]
fn a_block_ends_where_a_statement_never_continues() {
    let mut flows = FlowStore::new();
    let going = flows.outcome(ProcedureFlow::Continue);
    let leaving = flows.outcome(ProcedureFlow::Return);
    let breaking = flows.outcome(ProcedureFlow::Break);
    let all = sequence_flows(&mut flows, &vec![going, leaving, breaking]);
    assert_eq!(flows.aggregate(all), ProcedureFlow::Return);
    assert!(!flows.contains(all, ProcedureFlow::Break));
    let none = sequence_flows(&mut flows, &Vec::new());
    assert_eq!(flows.aggregate(none), ProcedureFlow::Continue);
}

#[test]
fn controls_of_a_block_build_on_each_other() {
    let mut store = SsaStore::default();
    let mut arena = PathArena::new();
    let a = store.read(1);
    let b = store.read(2);
    assert_eq!(next_continuation_control(&mut store, &Vec::new(), None), None);
    let first = next_continuation_control(&mut store, &vec![a], None).unwrap();
    assert_eq!(next_continuation_control(&mut store, &Vec::new(), Some(first)), Some(first));
    let second = next_continuation_control(&mut store, &vec![b], Some(first)).unwrap();
    assert_eq!(sources(&store, &mut arena, second), [1, 2].into_iter().collect());
}

#[test]
fn only_decisions_that_count_give_tokens() {
    let mut store = SsaStore::default();
    let mut flows = FlowStore::new();
    let mut arena = PathArena::new();
    let decision = store.read(4);
    let branch = BranchId::new(0, 0, 2);
    let yes = arena.with_choice(always(), branch, 0);
    let no = arena.with_choice(always(), branch, 1);
    let going = flows.outcome(ProcedureFlow::Continue);
    let leaving = flows.outcome(ProcedureFlow::Return);
    let predicate = || FlowPredicate { identity: 3, controls: vec![decision] };
    let same = flows.decision(
        predicate(),
        vec![FlowArm { condition: yes, tree: going }, FlowArm { condition: no, tree: going }],
    );
    assert!(continuation_tokens(&mut store, &flows, &mut arena, same).is_empty());
    let different = flows.decision(
        predicate(),
        vec![FlowArm { condition: yes, tree: going }, FlowArm { condition: no, tree: leaving }],
    );
    let tokens = continuation_tokens(&mut store, &flows, &mut arena, different);
    assert_eq!(tokens.len(), 1);
    assert_eq!(sources(&store, &mut arena, tokens[0]), [4].into_iter().collect());
}

#[test]
fn a_loop_is_left_by_its_breaks_and_by_its_end() {
    let mut store = SsaStore::default();
    let mut flows = FlowStore::new();
    let mut arena = PathArena::new();
    let zero = store.read(0);
    let one = store.read(1);
    let branch = BranchId::new(0, 0, 2);
    let yes = arena.with_choice(always(), branch, 0);
    let no = arena.with_choice(always(), branch, 1);
    let checkpoint = store.checkpoint();
    // One arm writes from 0 and breaks, the other writes from 1 and goes on.
    let version = store.definition_guarded(&vec![zero], yes);
    store.bind(5, version);
    let broken = store.snapshot_since(checkpoint);
    let version = store.definition_guarded(&vec![one], no);
    store.bind(5, version);
    let going = flows.outcome(ProcedureFlow::Continue);
    let breaking = flows.outcome(ProcedureFlow::Break);
    let tree = flows.decision(
        FlowPredicate { identity: 1, controls: Vec::new() },
        vec![FlowArm { condition: yes, tree: breaking }, FlowArm { condition: no, tree: going }],
    );
    let left = leave_known_loop(
        &mut store,
        &mut flows,
        &mut arena,
        checkpoint,
        vec![FlowState { state: broken, condition: yes }],
        tree,
        no,
        always(),
    );
    assert_eq!(flows.aggregate(left.tree), ProcedureFlow::Continue);
    assert!(!flows.contains(left.tree, ProcedureFlow::Break));
    assert!(arena.is_unconditional(left.condition));
    let version = store.current[&5];
    assert_eq!(sources(&store, &mut arena, version), [0, 1].into_iter().collect());
}

#[test]
fn a_loop_that_only_returns_keeps_what_was_before() {
    let mut store = SsaStore::default();
    let mut flows = FlowStore::new();
    let mut arena = PathArena::new();
    let zero = store.read(0);
    let before = store.definition(&vec![zero]);
    store.bind(5, before);
    let checkpoint = store.checkpoint();
    let inside = store.definition(&Vec::new());
    store.bind(5, inside);
    let tree = flows.outcome(ProcedureFlow::Return);
    let left = leave_known_loop(
        &mut store,
        &mut flows,
        &mut arena,
        checkpoint,
        Vec::new(),
        tree,
        always(),
        always(),
    );
    assert_eq!(flows.aggregate(left.tree), ProcedureFlow::Return);
    assert!(left.controls.is_empty());
    assert_eq!(store.current[&5], before);
}

#[test]
fn without_a_way_out_nothing_is_merged() {
    let mut store = SsaStore::default();
    let mut arena = PathArena::new();
    let zero = store.read(0);
    store.bind(3, zero);
    let condition = merge_flow_states(&mut store, &mut arena, &Vec::new());
    assert!(arena.is_unconditional(condition));
    assert_eq!(store.current[&3], zero);
}

#[test]
fn decisions_of_an_expression_are_numbered_in_order() {
    let layout = ExpressionBranchLayout {
        conditionals: vec![8, 3],
        calls: vec![5],
    };
    let numbered = number_top_expression(7, &layout);
    assert_eq!(numbered.branches.len(), 2);
    assert_eq!(numbered.branches[&8], BranchId::expression(7, 0, 2));
    assert_eq!(numbered.branches[&3], BranchId::expression(7, 1, 2));
    assert_eq!(numbered.calls[&5], 0);
}

#[test]
fn a_body_ends_with_what_its_exits_left() {
    let mut store = SsaStore::default();
    let mut arena = PathArena::new();
    let one = store.read(1);
    let two = store.read(2);
    let checkpoint = store.checkpoint();
    let revision = store.begin_state_revision(checkpoint);
    let version = store.definition(&vec![one]);
    store.bind(5, version);
    store.record_state_revision_exit(revision);
    let version = store.definition(&vec![two]);
    store.bind(5, version);
    leave_function_body(&mut store, revision, checkpoint, true);
    let version = store.current[&5];
    assert_eq!(sources(&store, &mut arena, version), [1, 2].into_iter().collect());
}

#[test]
fn what_stands_behind_all_exits_of_a_body_does_not_count() {
    let mut store = SsaStore::default();
    let mut arena = PathArena::new();
    let one = store.read(1);
    let two = store.read(2);
    let checkpoint = store.checkpoint();
    let revision = store.begin_state_revision(checkpoint);
    let version = store.definition(&vec![one]);
    store.bind(5, version);
    store.record_state_revision_exit(revision);
    let version = store.definition(&vec![two]);
    store.bind(5, version);
    leave_function_body(&mut store, revision, checkpoint, false);
    let version = store.current[&5];
    assert_eq!(sources(&store, &mut arena, version), [1].into_iter().collect());
}

#[test]
fn a_loop_of_unknown_length_may_not_run_at_all() {
    let mut store = SsaStore::default();
    let mut flows = FlowStore::new();
    let mut arena = PathArena::new();
    let zero = store.read(0);
    let bound = store.read(8);
    let before = store.definition(&vec![zero]);
    store.bind(5, before);
    let checkpoint = store.checkpoint();
    // One iteration: 5 comes from 1.
    let one = store.read(1);
    let version = store.definition(&vec![one]);
    store.bind(5, version);
    let state = store.capture_and_rollback(checkpoint);
    let tree = flows.outcome(ProcedureFlow::Continue);
    let left = leave_runtime_loop(
        &mut store,
        &mut flows,
        &mut arena,
        checkpoint,
        RuntimeLoopBody { tree, continuing: state, breaks: Vec::new(), returned: None },
        &mut Vec::new(),
        None,
        Some(MaySkip { branch: BranchId::new(0, 0, 2), identity: 1, controls: vec![bound] }),
        always(),
    );
    assert_eq!(flows.aggregate(left.tree), ProcedureFlow::Continue);
    let version = store.current[&5];
    assert_eq!(sources(&store, &mut arena, version), [0, 1].into_iter().collect());
}

#[test]
fn iterations_of_unknown_number_are_carried_to_the_breaks() {
    let mut store = SsaStore::default();
    let mut flows = FlowStore::new();
    let mut arena = PathArena::new();
    let checkpoint = store.checkpoint();
    // Each iteration moves 6 to 5 and 1 to 6, and may break behind it.
    let six = store.read(6);
    let one = store.read(1);
    let moved = store.definition(&vec![six]);
    store.bind(5, moved);
    let taken = store.definition(&vec![one]);
    store.bind(6, taken);
    let broken = store.snapshot_since(checkpoint);
    let state = store.capture_and_rollback(checkpoint);
    let going = flows.outcome(ProcedureFlow::Continue);
    let breaking = flows.outcome(ProcedureFlow::Break);
    let branch = BranchId::new(0, 0, 2);
    let yes = arena.with_choice(always(), branch, 0);
    let no = arena.with_choice(always(), branch, 1);
    let tree = flows.decision(
        FlowPredicate { identity: 1, controls: Vec::new() },
        vec![FlowArm { condition: yes, tree: breaking }, FlowArm { condition: no, tree: going }],
    );
    leave_runtime_loop(
        &mut store,
        &mut flows,
        &mut arena,
        checkpoint,
        RuntimeLoopBody {
            tree,
            continuing: state,
            breaks: vec![ExitState { state: broken, condition: yes }],
            returned: None,
        },
        &mut Vec::new(),
        None,
        None,
        always(),
    );
    // After two iterations 5 holds what 6 got in the first.
    let version = store.current[&5];
    assert_eq!(sources(&store, &mut arena, version), [1, 6].into_iter().collect());
}

#[test]
fn sequential_early_exits_are_linear_and_do_not_use_the_native_stack() {
    const STATEMENTS: usize = 100_000;

    let mut store = FlowStore::new();
    let continuing = store.outcome(ProcedureFlow::Continue);
    let returning = store.outcome(ProcedureFlow::Return);
    let mut statements = Vec::with_capacity(STATEMENTS);
    for _ in 0..STATEMENTS {
        statements.push(store.decision(
            FlowPredicate { identity: 0, controls: Vec::new() },
            vec![
                FlowArm { condition: always(), tree: returning },
                FlowArm { condition: always(), tree: continuing },
            ],
        ));
    }

    // A block is composed from its tail. Each bind therefore visits only
    // that statement's plan, never the already-built sequential prefix.
    let mut tree = store.outcome(ProcedureFlow::Continue);
    for statement in statements.into_iter().rev() {
        let before = store.trees.len();
        tree = store.bind(statement, tree);
        assert!(store.trees.len() <= before + 1);
    }

    assert!(store.contains(tree, ProcedureFlow::Continue));
    assert!(store.contains(tree, ProcedureFlow::Return));
    assert!(store.trees.len() <= 2 * STATEMENTS + 3);
    let mut arena = PathArena::new();
    let mut controls = Vec::new();
    store.collect_continuation_controls(&mut arena, tree, &mut controls);
    assert!(controls.is_empty());
}
