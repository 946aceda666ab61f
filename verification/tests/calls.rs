use std::collections::{HashMap, HashSet};

use veryl_analyzer::apply::{Copied, FormalShape, OutputDestination};
use veryl_analyzer::arena::{PathArena, PathCondition};
use veryl_analyzer::assign::{SummaryKey, SummaryWrite};
use veryl_analyzer::branches::{merge_branches, Branch};
use veryl_analyzer::calls::{
    copy_arguments, current_region_groups, FunctionSummary, OutputArgument, ResultGroup,
    ResultRegion, SummaryCall,
};
use veryl_analyzer::dag::{DagEdge, DagNode, DependencyDag};
use veryl_analyzer::flow::{FlowPredicate, FlowStore, ProcedureFlow};
use veryl_analyzer::frames::{
    clear_keys, enter_call, instantiate_summary_branches, leave_call,
    opaque_function_call_boundary, plan_call, CallPlan, CallSite, FunctionSummaries,
    FunctionSummaryLookup, OpaqueDestination, SummaryLookup,
};
use veryl_analyzer::ir::Selected;
use veryl_analyzer::outputs::KeyedTarget;
use veryl_analyzer::partition::{BitPartition, IndexedRanges, NodeKey};
use veryl_analyzer::path::BranchId;
use veryl_analyzer::projection::DestinationArrayProjection;
use veryl_analyzer::relation::{PositionRelation, SourceRef};
use veryl_analyzer::span::{ArraySpan, PackedSpan};
use veryl_analyzer::ssa::{KeyBinding, SsaStore};
use veryl_analyzer::summarize::{dependencies, dependency_graph, summarize_function};
use veryl_analyzer::targets::Target;
use veryl_analyzer::writes::{
    aggregate_destination_controls, bind_destination, write_all, write_destination, KeyWrite,
};

const ONE: ArraySpan = ArraySpan { start: 0, length: 1 };

/// Variable `n` has one node of eight bits, whose key is `n`.
fn variables(count: u64) -> (BitPartition, Vec<NodeKey>) {
    let partition = BitPartition::new(
        (0..count)
            .map(|id| IndexedRanges {
                id,
                array: ONE,
                packed: vec![PackedSpan { start: 0, length: 8 }],
            })
            .collect(),
    );
    let nodes = (0..count)
        .map(|id| NodeKey { id, array: ONE, index: 0 })
        .collect();
    (partition, nodes)
}

fn always() -> PathCondition {
    PathCondition { node: 0 }
}

fn exact(version: usize) -> SourceRef {
    SourceRef {
        version,
        relation: PositionRelation::default(),
    }
}

fn sources(store: &SsaStore, arena: &mut PathArena, key: u64) -> HashSet<u64> {
    let version = store.current[&key];
    store
        .root_sources(arena, version)
        .expect("the offsets fit")
        .into_iter()
        .collect()
}

fn keys(list: &[u64]) -> HashSet<u64> {
    list.iter().copied().collect()
}

fn exact_destination(key: u64, width: usize) -> OutputDestination {
    OutputDestination {
        width: Some(width),
        targets: vec![KeyedTarget {
            target: Target {
                node: NodeKey { id: key, array: ONE, index: 0 },
                span: Some(PackedSpan { start: 0, length: 8 }),
                array: Some(DestinationArrayProjection {
                    destination: ONE,
                    source: ONE,
                    array_offset: Some(0),
                }),
            },
            key,
        }],
        control: None,
        selected: Some(Selected { low: 0, high: width - 1 }),
        dynamic: false,
        keys: vec![key],
        resolved: true,
        dependencies: Vec::new(),
    }
}

#[test]
fn a_call_goes_by_its_summary_if_there_is_one() {
    assert_eq!(plan_call(Some(SummaryLookup::Ready), false), CallPlan::Apply);
    assert_eq!(plan_call(Some(SummaryLookup::Recursive), true), CallPlan::Opaque);
    assert_eq!(plan_call(Some(SummaryLookup::Missing), true), CallPlan::InPlace);
    assert_eq!(plan_call(Some(SummaryLookup::Missing), false), CallPlan::Opaque);
    assert_eq!(plan_call(None, true), CallPlan::InPlace);
    assert_eq!(plan_call(None, false), CallPlan::Opaque);
}

#[test]
fn entering_a_call_clears_what_is_not_passed() {
    let mut store = SsaStore::default();
    let mut arena = PathArena::new();
    let outside = store.read(0);
    enter_call(
        &mut store,
        &vec![1, 2],
        &vec![KeyBinding { key: 1, sources: vec![exact(outside)] }],
    );
    assert_eq!(sources(&store, &mut arena, 1), keys(&[0]));
    assert_eq!(sources(&store, &mut arena, 2), keys(&[]));
}

#[test]
fn leaving_a_call_copies_outputs_and_reads_the_result() {
    let (partition, nodes) = variables(6);
    let mut store = SsaStore::default();
    let mut arena = PathArena::new();
    // The body wrote the argument 1 from 0, and the result 2 from 3.
    let zero = store.read(0);
    let three = store.read(3);
    write_all(
        &mut store,
        &vec![
            KeyWrite { key: 1, sources: vec![exact(zero)], dynamic: false, opaque: false },
            KeyWrite { key: 2, sources: vec![exact(three)], dynamic: false, opaque: false },
        ],
        always(),
    );
    let outputs = vec![OutputArgument {
        keys: vec![1],
        formal: Some(FormalShape { width: 8, signed: false }),
        destinations: vec![exact_destination(4, 8)],
    }];
    let left = leave_call(&mut store, &mut arena, &partition, &nodes, Some(vec![2]), &outputs, always());
    assert!(left.fits && !left.partial);
    assert_eq!(sources(&store, &mut arena, 4), keys(&[0]));
    assert_eq!(left.groups.len(), 1);
    assert_eq!(left.groups[0].regions[0].version, store.current[&2]);
    assert_eq!(left.groups[0].regions[0].packed, PackedSpan { start: 0, length: 8 });
}

#[test]
fn an_output_of_unknown_width_comes_from_all_of_the_argument() {
    let (partition, nodes) = variables(5);
    let mut store = SsaStore::default();
    let mut arena = PathArena::new();
    let zero = store.read(0);
    let control = store.read(3);
    write_all(
        &mut store,
        &vec![KeyWrite { key: 1, sources: vec![exact(zero)], dynamic: false, opaque: false }],
        always(),
    );
    let mut destination = exact_destination(4, 8);
    destination.width = None;
    destination.dependencies = vec![control];
    let outputs = vec![OutputArgument {
        keys: vec![1],
        formal: Some(FormalShape { width: 8, signed: false }),
        destinations: vec![destination],
    }];
    let copied = copy_arguments(&mut store, &mut arena, &partition, &nodes, &outputs, always());
    assert_eq!(copied, Copied { partial: true, fits: true });
    assert_eq!(sources(&store, &mut arena, 4), keys(&[0, 3]));
}

#[test]
fn the_last_destination_takes_the_lowest_bits() {
    let (partition, nodes) = variables(6);
    let mut store = SsaStore::default();
    let mut arena = PathArena::new();
    let zero = store.read(0);
    write_all(
        &mut store,
        &vec![KeyWrite { key: 1, sources: vec![exact(zero)], dynamic: false, opaque: false }],
        always(),
    );
    // Destination 4 takes the high four bits of the argument, destination 5 the low four.
    let outputs = vec![OutputArgument {
        keys: vec![1],
        formal: Some(FormalShape { width: 8, signed: false }),
        destinations: vec![exact_destination(4, 4), exact_destination(5, 4)],
    }];
    let copied = copy_arguments(&mut store, &mut arena, &partition, &nodes, &outputs, always());
    assert_eq!(copied, Copied { partial: false, fits: true });
    let offset = |store: &SsaStore, arena: &mut PathArena, key: u64| {
        store
            .root_source_relations(arena, store.current[&key])
            .expect("the offsets fit")
            .into_iter()
            .find(|source| source.key == 0)
            .and_then(|source| source.relation.packed)
    };
    assert_eq!(offset(&store, &mut arena, 4), Some(-4));
    assert_eq!(offset(&store, &mut arena, 5), Some(0));
}

fn passing_graph() -> DependencyDag {
    // The external key 7 reaches the root.
    DependencyDag {
        nodes: vec![DagNode::External(7), DagNode::Internal],
        edges: vec![DagEdge {
            source: 0,
            destination: 1,
            relation: PositionRelation::default(),
            condition: always(),
        }],
        roots: vec![Some(1)],
        domains: vec![Vec::new(), Vec::new()],
        incoming: vec![Vec::new(), vec![0]],
    }
}

#[test]
fn a_summary_is_applied_with_its_keys_bound() {
    let (partition, nodes) = variables(8);
    let mut store = SsaStore::default();
    let mut arena = PathArena::new();
    let graph = store.add_graph(passing_graph());
    let actual = store.read(3);
    let control = store.read(5);
    let mut actuals = HashMap::new();
    actuals.insert(7u64, vec![exact(actual)]);
    let summary = FunctionSummary {
        graph,
        keys: vec![SummaryKey { key: 7, outer: None }],
        writes: vec![SummaryWrite { key: 2, root: Some(1) }],
        result: vec![ResultGroup {
            array: ONE,
            regions: vec![ResultRegion {
                packed: PackedSpan { start: 0, length: 8 },
                root: Some(1),
            }],
        }],
        complete: true,
    };
    let controls = vec![control];
    let outputs = Vec::new();
    let call = SummaryCall {
        partition: &partition,
        nodes: &nodes,
        summary: &summary,
        actuals: &actuals,
        controls: &controls,
        outputs: &outputs,
        condition: always(),
    };
    let applied = call.apply_function_summary(&mut store, &mut arena, Vec::new());
    assert!(applied.fits && !applied.partial);
    assert_eq!(sources(&store, &mut arena, 2), keys(&[3, 5]));
    let result = applied.groups[0].regions[0].version;
    let found: HashSet<u64> = store
        .root_sources(&mut arena, result)
        .expect("the offsets fit")
        .into_iter()
        .collect();
    assert_eq!(found, keys(&[3]));
}

#[test]
fn a_summary_reads_variables_of_the_module_where_it_is_called() {
    let (partition, nodes) = variables(8);
    let mut store = SsaStore::default();
    let mut arena = PathArena::new();
    let graph = store.add_graph(passing_graph());
    let four = store.read(4);
    // The variable 1 was written before the call.
    write_all(
        &mut store,
        &vec![KeyWrite { key: 1, sources: vec![exact(four)], dynamic: false, opaque: false }],
        always(),
    );
    let summary = FunctionSummary {
        graph,
        keys: vec![SummaryKey { key: 7, outer: Some(1) }],
        writes: vec![SummaryWrite { key: 2, root: Some(1) }, SummaryWrite { key: 6, root: None }],
        result: Vec::new(),
        complete: false,
    };
    let actuals = HashMap::new();
    let controls = Vec::new();
    let outputs = Vec::new();
    let call = SummaryCall {
        partition: &partition,
        nodes: &nodes,
        summary: &summary,
        actuals: &actuals,
        controls: &controls,
        outputs: &outputs,
        condition: always(),
    };
    let applied = call.apply_function_summary(&mut store, &mut arena, Vec::new());
    assert!(applied.fits && applied.partial);
    assert!(applied.groups.is_empty());
    assert_eq!(sources(&store, &mut arena, 2), keys(&[4]));
    assert_eq!(sources(&store, &mut arena, 6), keys(&[]));
}

#[test]
fn an_unknown_function_clears_what_it_may_write() {
    let mut store = SsaStore::default();
    let mut arena = PathArena::new();
    let zero = store.read(0);
    let selector = store.read(3);
    for key in [1, 2] {
        let version = store.related_definition(&vec![exact(zero)]);
        bind_destination(&mut store, key, version, false);
    }
    opaque_function_call_boundary(
        &mut store,
        &vec![1],
        &vec![OpaqueDestination {
            keys: vec![4],
            resolved: true,
            dynamic: false,
            selectors: vec![selector],
        }],
        always(),
    );
    assert_eq!(sources(&store, &mut arena, 1), keys(&[]));
    assert_eq!(sources(&store, &mut arena, 2), keys(&[0]));
    assert_eq!(sources(&store, &mut arena, 4), keys(&[3]));
}

#[test]
fn cleared_keys_differ_from_each_other() {
    let mut store = SsaStore::default();
    clear_keys(&mut store, &vec![1, 2]);
    assert_ne!(store.current[&1], store.current[&2]);
}

#[test]
fn a_dynamic_write_may_keep_the_old_value() {
    let mut store = SsaStore::default();
    let mut arena = PathArena::new();
    let zero = store.read(0);
    let one = store.read(1);
    let old = store.related_definition(&vec![exact(zero)]);
    bind_destination(&mut store, 5, old, false);
    write_all(
        &mut store,
        &vec![KeyWrite { key: 5, sources: vec![exact(one)], dynamic: true, opaque: false }],
        always(),
    );
    assert_eq!(sources(&store, &mut arena, 5), keys(&[0, 1]));
    // What is opaque comes from nothing, and may keep the old value too.
    write_all(
        &mut store,
        &vec![KeyWrite { key: 5, sources: vec![exact(one)], dynamic: false, opaque: true }],
        always(),
    );
    assert_eq!(sources(&store, &mut arena, 5), keys(&[0, 1]));
}

#[test]
fn controls_are_gathered_into_one_version() {
    let mut store = SsaStore::default();
    let mut arena = PathArena::new();
    assert_eq!(aggregate_destination_controls(&mut store, &Vec::new()), None);
    let a = store.read(1);
    let b = store.read(2);
    let control = aggregate_destination_controls(&mut store, &vec![a, b]).unwrap();
    let found: HashSet<u64> = store
        .root_sources(&mut arena, control)
        .expect("the offsets fit")
        .into_iter()
        .collect();
    assert_eq!(found, keys(&[1, 2]));
}

#[test]
fn an_unresolved_destination_is_written_weakly() {
    let mut store = SsaStore::default();
    let mut arena = PathArena::new();
    let zero = store.read(0);
    let one = store.read(1);
    let old = store.related_definition(&vec![exact(zero)]);
    bind_destination(&mut store, 5, old, false);
    write_destination(&mut store, &vec![5], false, false, &vec![one], always());
    assert_eq!(sources(&store, &mut arena, 5), keys(&[0]));
    write_destination(&mut store, &vec![5], true, false, &vec![one], always());
    assert_eq!(sources(&store, &mut arena, 5), keys(&[1]));
}

#[test]
fn the_summary_of_a_body_names_its_roots() {
    let (partition, nodes) = variables(5);
    let mut store = SsaStore::default();
    let mut arena = PathArena::new();
    let zero = store.read(0);
    let four = store.read(4);
    write_all(
        &mut store,
        &vec![
            KeyWrite { key: 1, sources: vec![exact(zero)], dynamic: false, opaque: false },
            KeyWrite { key: 2, sources: vec![exact(zero), exact(four)], dynamic: false, opaque: false },
            KeyWrite { key: 3, sources: vec![exact(zero)], dynamic: false, opaque: false },
        ],
        always(),
    );
    // Variable 3 is the function's own, and so is variable 4.
    let visible = vec![true, true, true, false, false];
    let summary = summarize_function(
        &mut store,
        &mut arena,
        &partition,
        &nodes,
        &visible,
        &Some(vec![2]),
        &vec![1, 3],
    );
    assert_eq!(summary.writes.len(), 1);
    assert_eq!(summary.writes[0].key, 1);
    assert!(summary.writes[0].root.is_some());
    assert_eq!(summary.result.len(), 1);
    assert_eq!(summary.result[0].regions.len(), 1);
    assert!(summary.result[0].regions[0].root.is_some());
    // Only what can be seen from outside is read from outside.
    assert_eq!(summary.keys, vec![0]);
    assert!(summary.branches.is_empty());
}

#[test]
fn the_graph_of_a_procedure_has_a_root_for_each_write() {
    let (partition, nodes) = variables(3);
    let mut store = SsaStore::default();
    let mut arena = PathArena::new();
    let zero = store.read(0);
    let branch = BranchId::new(0, 0, 2);
    let condition = arena.with_choice(always(), branch, 1);
    write_all(
        &mut store,
        &vec![KeyWrite { key: 1, sources: vec![exact(zero)], dynamic: false, opaque: false }],
        condition,
    );
    let graph = dependency_graph(&mut store, &mut arena, &partition, &nodes, &vec![true; 3], &vec![1, 2]);
    assert!(graph.result.is_empty());
    assert_eq!(graph.writes.len(), 2);
    assert_eq!(graph.branches, vec![branch]);
    assert!(graph.keys.contains(&0));
}

#[test]
fn current_values_are_listed_by_region() {
    let (partition, nodes) = variables(2);
    let mut store = SsaStore::default();
    let groups = current_region_groups(&mut store, &partition, &nodes, &vec![1]);
    assert_eq!(groups.len(), 1);
    assert_eq!(groups[0].regions[0].version, store.entries[&1]);
}

#[test]
fn branches_that_continue_are_merged() {
    let mut store = SsaStore::default();
    let mut flows = FlowStore::new();
    let mut arena = PathArena::new();
    let zero = store.read(0);
    let decision = store.read(9);
    let branch = BranchId::new(0, 0, 2);
    let yes = arena.with_choice(always(), branch, 0);
    let no = arena.with_choice(always(), branch, 1);

    let checkpoint = store.checkpoint();
    let version = store.related_definition_guarded(&vec![exact(zero)], yes);
    store.bind(1, version);
    let first = store.capture_and_rollback(checkpoint);
    let checkpoint = store.checkpoint();
    let version = store.related_definition_guarded(&Vec::new(), no);
    store.bind(1, version);
    let second = store.capture_and_rollback(checkpoint);

    let going = flows.outcome(ProcedureFlow::Continue);
    let leaving = flows.outcome(ProcedureFlow::Return);
    let predicate = || FlowPredicate { identity: 1, controls: vec![decision] };
    let merged = merge_branches(
        &mut store,
        &mut flows,
        &mut arena,
        &vec![
            Branch { tree: going, controls: Vec::new(), state: first, condition: yes },
            Branch { tree: leaving, controls: Vec::new(), state: second, condition: no },
        ],
        predicate(),
        always(),
    );
    assert_eq!(merged.flow, ProcedureFlow::Continue);
    // Only the first branch goes on, and the decision counts for what follows.
    assert_eq!(sources(&store, &mut arena, 1), keys(&[0]));
    assert_eq!(merged.controls.len(), 1);
    let found: HashSet<u64> = store
        .root_sources(&mut arena, merged.controls[0])
        .expect("the offsets fit")
        .into_iter()
        .collect();
    assert_eq!(found, keys(&[9]));
    assert!(!arena.is_unconditional(merged.condition));
}

#[test]
fn branches_that_go_on_alike_need_no_decision() {
    let mut store = SsaStore::default();
    let mut flows = FlowStore::new();
    let mut arena = PathArena::new();
    let decision = store.read(9);
    let branch = BranchId::new(0, 0, 2);
    let yes = arena.with_choice(always(), branch, 0);
    let no = arena.with_choice(always(), branch, 1);
    let checkpoint = store.checkpoint();
    let first = store.capture_and_rollback(checkpoint);
    let checkpoint = store.checkpoint();
    let second = store.capture_and_rollback(checkpoint);
    let going = flows.outcome(ProcedureFlow::Continue);
    let merged = merge_branches(
        &mut store,
        &mut flows,
        &mut arena,
        &vec![
            Branch { tree: going, controls: Vec::new(), state: first, condition: yes },
            Branch { tree: going, controls: Vec::new(), state: second, condition: no },
        ],
        FlowPredicate { identity: 1, controls: vec![decision] },
        always(),
    );
    assert!(merged.controls.is_empty());
    assert!(arena.is_unconditional(merged.condition));
}

#[test]
fn a_function_that_is_being_summarised_is_recursive() {
    let mut table = FunctionSummaries::new();
    assert_eq!(table.get(4), FunctionSummaryLookup::Start);
    assert_eq!(table.get(4), FunctionSummaryLookup::Recursive);
    table.finish(4, Some(9), true);
    assert_eq!(table.get(4), FunctionSummaryLookup::Ready(9));
    // What holds for one call only is not kept.
    assert_eq!(table.get(5), FunctionSummaryLookup::Start);
    table.finish(5, Some(8), false);
    assert_eq!(table.get(5), FunctionSummaryLookup::Start);
    table.finish(5, None, true);
    assert_eq!(table.get(5), FunctionSummaryLookup::Start);
}

#[test]
fn branches_of_a_summary_get_new_names_at_each_call() {
    let branches = vec![BranchId::new(3, 0, 2), BranchId::new(3, 5, 4)];
    let site = CallSite::Procedure { procedure: 1, next: 7 };
    let mapping = instantiate_summary_branches(site, &branches).unwrap();
    assert_eq!(
        mapping,
        vec![(branches[0], BranchId::new(1, 7, 2)), (branches[1], BranchId::new(1, 8, 4))]
    );
    let site = CallSite::Expression { root: 6, call: 2 };
    let mapping = instantiate_summary_branches(site, &branches).unwrap();
    assert_eq!(mapping[1].1, BranchId::expression_call(6, 2, 1, 4));
    let full = CallSite::Procedure { procedure: 1, next: usize::MAX };
    assert!(instantiate_summary_branches(full, &branches).is_none());
}

#[test]
fn dependencies_name_the_nodes_that_were_read_first() {
    let (_, nodes) = variables(4);
    let mut store = SsaStore::default();
    let mut arena = PathArena::new();
    let zero = store.read(0);
    let three = store.read(3);
    write_all(
        &mut store,
        &vec![
            KeyWrite { key: 1, sources: vec![exact(zero), exact(three)], dynamic: false, opaque: false },
            KeyWrite { key: 2, sources: vec![exact(zero)], dynamic: false, opaque: false },
        ],
        always(),
    );
    // Neither 2 nor 3 can be seen from outside.
    let found = dependencies(&mut store, &mut arena, &nodes, &vec![true, true, false, false], &vec![1, 2]).unwrap();
    assert_eq!(found.len(), 1);
    assert_eq!(found[0].source, 0);
    assert_eq!(found[0].destination, 1);
    assert_eq!(found[0].relation, PositionRelation::default());
}
