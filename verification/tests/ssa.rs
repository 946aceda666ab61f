use std::collections::{HashMap, HashSet};

use veryl_analyzer::arena::{PathArena, PathCondition};
use veryl_analyzer::arms::ArmSet;
use veryl_analyzer::dag::{dependency_dag_external_sources, DagEdge, DagNode, DependencyDag};
use veryl_analyzer::lift::ExitState;
use veryl_analyzer::path::{BranchConstraint, BranchId};
use veryl_analyzer::relation::{PositionDomain, PositionRelation, SourceRef};
use veryl_analyzer::remap::BranchRemapper;
use veryl_analyzer::sources::Source;
use veryl_analyzer::splice::{inline_dependency_dag, DagBuilder};
use veryl_analyzer::ssa::{Binding, BranchState, Import, KeyBinding, SsaStore, Version};

const SOURCE: u64 = 1;
const DESTINATION: u64 = 2;
const OUTER: u64 = 3;
const INNER: u64 = 4;
const FIRST: u64 = 5;
const MIDDLE: u64 = 6;
const LAST: u64 = 7;
const OUTPUT: u64 = 8;
const VALUE: u64 = 9;

fn unconditional() -> PathCondition {
    PathCondition { node: 0 }
}

fn relation(array: Option<isize>, packed: Option<isize>) -> PositionRelation {
    PositionRelation { array, packed }
}

fn chain(count: usize) -> Vec<DagEdge> {
    (0..count - 1)
        .map(|source| DagEdge {
            source,
            destination: source + 1,
            relation: PositionRelation::default(),
            condition: unconditional(),
        })
        .collect()
}

fn root_sources(ssa: &SsaStore, version: usize) -> HashSet<u64> {
    let mut arena = PathArena::new();
    ssa.root_sources(&mut arena, version)
        .expect("the offsets fit")
        .into_iter()
        .collect()
}

fn root_relation(ssa: &SsaStore, version: usize, key: u64) -> Option<PositionRelation> {
    let mut arena = PathArena::new();
    ssa.root_source_relations(&mut arena, version)
        .expect("the offsets fit")
        .into_iter()
        .find(|source| source.key == key)
        .map(|source| source.relation)
}

fn related(version: usize, relation: PositionRelation) -> SourceRef {
    SourceRef { version, relation }
}

#[test]
fn imported_roots_visit_only_their_reachable_bindings() {
    const COUNT: usize = 256;
    let graph = DependencyDag::new(
        (0..COUNT as u64).map(DagNode::External).collect(),
        Vec::new(),
        (0..COUNT).map(Some).collect(),
        vec![Vec::new(); COUNT],
    );
    let mut ssa = SsaStore::default();
    let mut arena = PathArena::new();
    let bindings: Vec<KeyBinding> = (0..COUNT as u64)
        .map(|key| KeyBinding {
            key,
            sources: vec![related(ssa.read(key), PositionRelation::default())],
        })
        .collect();
    let graph = ssa.add_graph(graph);
    let import = ssa.add_import(Import {
        graph,
        bindings,
        mapping: Vec::new(),
    });
    let roots: Vec<usize> = (0..COUNT)
        .map(|root| ssa.imported_shared(import, Some(root)))
        .collect();
    assert_eq!(ssa.imports.len(), 1);
    let allowed: HashSet<u64> = (0..COUNT as u64).collect();

    let dependency = ssa.dependency_dag(&mut arena, &roots, &allowed);
    assert_eq!(dependency.roots.len(), COUNT);
    assert!(
        dependency.nodes.len() + dependency.edges.len() <= COUNT * 4,
        "each independent imported root should inspect only its own binding"
    );
}

#[test]
fn inline_dependency_dag_indexes_incoming_edges_once() {
    const COUNT: usize = 4_096;
    let graph = DependencyDag::new(
        vec![DagNode::Internal; COUNT],
        chain(COUNT),
        vec![Some(COUNT - 1)],
        vec![Vec::new(); COUNT],
    );
    let mut arena = PathArena::new();
    let mut remapper = BranchRemapper::new(Vec::new());
    let mut builder = DagBuilder::new();
    let root = inline_dependency_dag(
        &graph,
        graph.roots[0],
        &Vec::new(),
        &mut remapper,
        &mut arena,
        &mut builder,
    );
    assert_eq!(root, Some(COUNT - 1));
    assert_eq!(builder.nodes.len(), COUNT);
    assert_eq!(builder.edges.len(), COUNT - 1);
    // The index holds each edge once.
    assert_eq!(
        graph.incoming.iter().map(Vec::len).sum::<usize>(),
        COUNT - 1
    );
}

#[test]
fn imported_shared_chain_roots_inline_each_prefix_once() {
    const COUNT: usize = 256;
    let mut nodes = vec![DagNode::External(0)];
    nodes.extend(vec![DagNode::Internal; COUNT - 1]);
    let graph = DependencyDag::new(
        nodes,
        chain(COUNT),
        (0..COUNT).map(Some).collect(),
        vec![Vec::new(); COUNT],
    );
    let mut ssa = SsaStore::default();
    let mut arena = PathArena::new();
    let source = ssa.read(0);
    let graph = ssa.add_graph(graph);
    let import = ssa.add_import(Import {
        graph,
        bindings: vec![KeyBinding {
            key: 0,
            sources: vec![related(source, PositionRelation::default())],
        }],
        mapping: Vec::new(),
    });
    let roots: Vec<usize> = (0..COUNT)
        .map(|root| ssa.imported_shared(import, Some(root)))
        .collect();

    let allowed: HashSet<u64> = [0].into_iter().collect();
    let dependency = ssa.dependency_dag(&mut arena, &roots, &allowed);

    assert_eq!(dependency.roots.len(), COUNT);
    assert_eq!(dependency.nodes.len(), COUNT + 1);
    assert_eq!(dependency.edges.len(), COUNT);
    assert!(
        dependency.nodes.len() <= COUNT * 2,
        "shared prefixes should be visited at most once plus one root lookup each"
    );
}

#[test]
fn structural_dependency_cache_visits_a_shared_chain_once() {
    const COUNT: usize = 4_096;
    let mut ssa = SsaStore::default();
    let mut current = ssa.read(0);
    let mut versions = vec![current];
    for _ in 1..COUNT {
        current = ssa.definition(&vec![current]);
        versions.push(current);
    }
    assert!(!ssa.has_structural_dependency(current));

    let mut cache = HashMap::new();
    for &version in versions.iter().rev() {
        assert!(!ssa.has_structural_dependency_cached(version, &mut cache));
    }
    assert_eq!(cache.len(), COUNT);

    let projected = ssa.projected(
        current,
        PositionDomain {
            array_start: 0,
            array_length: 1,
            packed_start: 0,
            packed_length: 1,
        },
    );
    assert!(ssa.has_structural_dependency_cached(projected, &mut cache));
    assert_eq!(cache.len(), COUNT + 1);
}

#[test]
fn persistent_paths_and_remap_caches_are_linear_and_isolated() {
    const COUNT: usize = 100_000;
    let mut arena = PathArena::new();
    let mut condition = unconditional();
    let mut source_branches = Vec::with_capacity(COUNT);
    for local in 0..COUNT {
        let branch = BranchId::new(1, local, 2);
        source_branches.push(branch);
        condition = arena.with_choice(condition, branch, local % 2);
    }
    assert_eq!(arena.len(), COUNT + 1);

    let first_mapping = source_branches
        .iter()
        .enumerate()
        .map(|(local, branch)| (*branch, BranchId::new(2, local, 2)))
        .collect();
    let second_mapping = source_branches
        .iter()
        .enumerate()
        .map(|(local, branch)| (*branch, BranchId::new(3, local, 2)))
        .collect();
    let mut first = BranchRemapper::new(first_mapping);
    let mut second = BranchRemapper::new(second_mapping);
    let first_remapped = first.remap(&mut arena, condition);
    let first_again = first.remap(&mut arena, condition);
    let second_remapped = second.remap(&mut arena, condition);

    assert_eq!(first_remapped.node, first_again.node);
    assert_ne!(first_remapped.node, second_remapped.node);
    assert_eq!(arena.len(), 3 * COUNT + 1);
    assert_eq!(first.cache.len(), COUNT + 1);
    assert_eq!(second.cache.len(), COUNT + 1);
}

#[test]
fn remap_cache_retains_the_source_arena_identity() {
    let source = BranchId::new(1, 0, 2);
    let destination = BranchId::new(2, 0, 2);
    let mut arena = PathArena::new();
    let condition = arena.with_choice(unconditional(), source, 1);
    let mut remapper = BranchRemapper::new(vec![(source, destination)]);

    let remapped = remapper.remap(&mut arena, condition);
    let expected = arena.with_choice(unconditional(), destination, 1);
    assert!(arena.same(remapped, expected));

    // The cache stays valid while the arena grows.
    arena.with_choice(condition, BranchId::new(5, 0, 2), 0);
    let length = arena.len();
    assert_eq!(remapper.remap(&mut arena, condition), remapped);
    assert_eq!(arena.len(), length);
}

#[test]
fn a_new_name_with_more_arms_keeps_the_allowed_ones() {
    let source = BranchId::new(1, 0, 2);
    let destination = BranchId::new(2, 0, 4);
    let mut arena = PathArena::new();
    let condition = arena.with_choice(unconditional(), source, 1);
    let mut remapper = BranchRemapper::new(vec![(source, destination)]);

    let remapped = remapper.remap(&mut arena, condition);
    let expected = arena.with_choice(unconditional(), destination, 1);
    assert!(arena.same(remapped, expected));
    let other = arena.with_choice(unconditional(), destination, 0);
    assert!(!arena.same(remapped, other));
}

#[test]
fn partially_overlapping_arm_sets_are_intersected_exactly() {
    let branch = BranchId::new(1, 0, 4);
    let extra = BranchId::new(1, 1, 2);
    let mut arena = PathArena::new();
    let left = arena.with_choice_range(unconditional(), branch, 0, 2);
    let right = arena.with_choice_range(unconditional(), branch, 1, 3);
    let right = arena.with_choice(right, extra, 1);
    let expected = arena.with_choice_range(unconditional(), branch, 1, 2);
    let expected = arena.with_choice(expected, extra, 1);

    let joined = arena.conjoin_if_compatible(left, right).unwrap();
    assert!(arena.same(joined, expected));
}

#[test]
fn imported_roots_share_one_branch_remap_cache() {
    let source = BranchId::new(1, 0, 2);
    let destination = BranchId::new(2, 0, 2);
    let mut ssa = SsaStore::default();
    let graph = ssa.add_graph(DependencyDag::new(
        Vec::new(),
        Vec::new(),
        vec![None, None],
        Vec::new(),
    ));
    let import = ssa.add_import(Import {
        graph,
        bindings: Vec::new(),
        mapping: vec![(source, destination)],
    });
    let first = ssa.imported_shared(import, None);
    let second = ssa.imported_shared(import, None);
    let (Version::Imported { import: first, .. }, Version::Imported { import: second, .. }) =
        (&ssa.versions[first], &ssa.versions[second])
    else {
        panic!("both versions are imported roots");
    };
    assert_eq!(first, second);

    let mut arena = PathArena::new();
    let condition = arena.with_choice(unconditional(), source, 1);
    let mut remapper = ssa.branch_remapper(*first);
    remapper.remap(&mut arena, condition);
    let cached = remapper.cache.len();
    remapper.remap(&mut arena, condition);
    assert_eq!(remapper.cache.len(), cached);
}

#[test]
fn remap_cache_maps_a_shared_materialized_prefix_once() {
    let prefix_source = BranchId::new(1, 0, 2);
    let suffix_a_source = BranchId::new(1, 1, 2);
    let suffix_b_source = BranchId::new(1, 2, 2);
    let prefix_destination = BranchId::new(2, 0, 2);
    let suffix_a_destination = BranchId::new(2, 1, 2);
    let suffix_b_destination = BranchId::new(2, 2, 2);
    let mut arena = PathArena::new();
    let prefix = arena.from_constraints(&vec![BranchConstraint {
        branch: prefix_source,
        allowed: ArmSet::range(0, 1),
    }]);
    let suffix_a = arena.with_choice(prefix, suffix_a_source, 1);
    let suffix_b = arena.with_choice(prefix, suffix_b_source, 0);
    let mut remapper = BranchRemapper::new(vec![
        (prefix_source, prefix_destination),
        (suffix_a_source, suffix_a_destination),
        (suffix_b_source, suffix_b_destination),
    ]);

    let remapped_a = remapper.remap(&mut arena, suffix_a);
    let cached_after_a = remapper.cache.len();
    let remapped_b = remapper.remap(&mut arena, suffix_b);
    assert_eq!(cached_after_a + 1, remapper.cache.len());
    assert_eq!(
        arena.collect_branches(&vec![remapped_a, remapped_b]),
        vec![
            prefix_destination,
            suffix_a_destination,
            suffix_b_destination,
        ]
    );
}

#[test]
fn definition_reports_live_on_entry_source() {
    let mut ssa = SsaStore::default();
    let source = ssa.read(SOURCE);
    let destination = ssa.definition(&vec![source]);

    let expected: HashSet<u64> = [SOURCE].into_iter().collect();
    assert_eq!(root_sources(&ssa, destination), expected);
}

#[test]
fn related_definition_preserves_source_relation() {
    let mut ssa = SsaStore::default();
    let source = ssa.read(SOURCE);
    let destination =
        ssa.related_definition(&vec![related(source, PositionRelation::default())]);

    assert_eq!(
        root_relation(&ssa, destination, SOURCE),
        Some(PositionRelation::default())
    );
}

#[test]
fn positional_offsets_compose_through_definitions() {
    let mut ssa = SsaStore::default();
    let source = ssa.read(SOURCE);
    let first = ssa.related_definition(&vec![related(source, relation(Some(3), Some(-2)))]);
    let destination = ssa.related_definition(&vec![related(first, relation(Some(-1), Some(5)))]);

    assert_eq!(
        root_relation(&ssa, destination, SOURCE),
        Some(relation(Some(2), Some(3)))
    );
}

#[test]
fn regular_transfer_is_constant_size_and_flattening_widens_only_its_axis() {
    let mut ssa = SsaStore::default();
    let mut arena = PathArena::new();
    let source = ssa.read(SOURCE);
    let repeated = ssa.repeated(
        source,
        PositionRelation::default(),
        relation(Some(0), Some(4)),
        PositionDomain {
            array_start: 0,
            array_length: 1,
            packed_start: 0,
            packed_length: 800_000,
        },
    );

    let allowed: HashSet<u64> = [SOURCE].into_iter().collect();
    let graph = ssa.dependency_dag(&mut arena, &vec![repeated], &allowed);
    assert_eq!(graph.nodes.len(), 2);
    assert_eq!(graph.edges.len(), 2);
    assert!(graph.edges.iter().any(|edge| {
        edge.source == edge.destination && edge.relation == relation(Some(0), Some(4))
    }));
    assert_eq!(
        root_relation(&ssa, repeated, SOURCE),
        Some(relation(Some(0), None))
    );
}

#[test]
fn flat_summary_does_not_discard_an_arbitrary_self_loop() {
    let graph = DependencyDag::new(
        vec![DagNode::External(SOURCE), DagNode::Internal],
        vec![
            DagEdge {
                source: 0,
                destination: 1,
                relation: PositionRelation::default(),
                condition: unconditional(),
            },
            DagEdge {
                source: 1,
                destination: 1,
                relation: PositionRelation::whole(),
                condition: unconditional(),
            },
        ],
        vec![Some(1)],
        vec![Vec::new(), Vec::new()],
    );

    let mut arena = PathArena::new();
    let sources = dependency_dag_external_sources(&graph, &mut arena, Some(1)).unwrap();
    assert!(sources.iter().any(|source| {
        source.key == SOURCE && source.relation == PositionRelation::default()
    }));
    assert!(sources.iter().any(|source| {
        source.key == SOURCE && source.relation == PositionRelation::whole()
    }));
}

#[test]
fn conflicting_offsets_only_widen_the_conflicting_axis() {
    let mut ssa = SsaStore::default();
    let source = ssa.read(SOURCE);
    let destination = ssa.related_definition(&vec![
        related(source, PositionRelation::default()),
        related(source, relation(Some(0), Some(1))),
    ]);

    assert_eq!(
        root_relation(&ssa, destination, SOURCE),
        Some(relation(Some(0), None))
    );
}

#[test]
fn whole_dependency_dominates_a_positional_path() {
    let mut ssa = SsaStore::default();
    let source = ssa.read(SOURCE);
    let destination = ssa.related_definition(&vec![
        related(source, PositionRelation::default()),
        related(source, PositionRelation::whole()),
    ]);

    assert_eq!(
        root_relation(&ssa, destination, SOURCE),
        Some(PositionRelation::whole())
    );
}

#[test]
fn retained_live_on_entry_is_not_a_combinational_read() {
    let mut ssa = SsaStore::default();
    let retained = ssa.read(DESTINATION);
    let checkpoint = ssa.checkpoint();
    let assigned = ssa.definition(&Vec::new());
    ssa.bind(DESTINATION, assigned);
    let branch = ssa.capture_and_rollback(checkpoint);

    ssa.merge(&vec![BranchState::empty(), branch]);

    let merged = ssa.read(DESTINATION);
    assert_ne!(merged, retained);
    assert!(root_sources(&ssa, merged).is_empty());
}

#[test]
fn weak_bind_retains_entry_until_a_later_explicit_read() {
    let mut ssa = SsaStore::default();
    let replacement = ssa.definition(&Vec::new());
    ssa.weak_bind(0, replacement);

    let retained = ssa.read(0);
    assert!(root_sources(&ssa, retained).is_empty());

    let observed = ssa.definition(&vec![retained]);
    let expected: HashSet<u64> = [0].into_iter().collect();
    assert_eq!(root_sources(&ssa, observed), expected);
}

#[test]
fn rollback_discards_current_bindings_without_discarding_versions() {
    let mut ssa = SsaStore::default();
    let checkpoint = ssa.checkpoint();
    let source = ssa.read(SOURCE);
    let definition = ssa.definition(&vec![source]);
    ssa.bind(DESTINATION, definition);

    let _ = ssa.capture_and_rollback(checkpoint);
    let restored = ssa.read(DESTINATION);

    let expected: HashSet<u64> = [SOURCE].into_iter().collect();
    assert_eq!(root_sources(&ssa, definition), expected);
    assert!(root_sources(&ssa, restored).is_empty());
}

#[test]
fn branch_state_contains_only_keys_changed_since_checkpoint() {
    let mut ssa = SsaStore::default();
    for key in 0..1_000 {
        let version = ssa.definition(&Vec::new());
        ssa.bind(key, version);
    }

    let checkpoint = ssa.checkpoint();
    let version = ssa.definition(&Vec::new());
    ssa.bind(500, version);
    let branch = ssa.capture_and_rollback(checkpoint);

    assert_eq!(branch.bindings.len(), 1);
    assert_eq!(branch.get(500), Some(version));
}

#[test]
fn state_revision_aggregates_cumulative_unique_writes_linearly() {
    const COUNT: usize = 10_000;

    let mut ssa = SsaStore::default();
    let checkpoint = ssa.checkpoint();
    let revision = ssa.begin_state_revision(checkpoint);
    for key in 0..COUNT {
        let version = ssa.definition(&Vec::new());
        ssa.bind(key as u64, version);
        ssa.record_state_revision_exit(revision);
    }

    // One change and one exit for each key.
    assert_eq!(ssa.revision_events.len(), 2 * COUNT);
    let exits = ssa.finish_state_revision(revision);
    assert_eq!(exits.bindings.len(), COUNT);

    let _ = ssa.capture_and_rollback(checkpoint);
    ssa.merge(&vec![exits]);
    assert_eq!(ssa.current.len(), COUNT);
}

#[test]
fn state_revision_observes_rollback_between_sibling_exits() {
    let mut ssa = SsaStore::default();
    let function = ssa.checkpoint();
    let revision = ssa.begin_state_revision(function);

    let branch = ssa.checkpoint();
    let source = ssa.read(SOURCE);
    let changed = ssa.definition(&vec![source]);
    ssa.bind(DESTINATION, changed);
    ssa.record_state_revision_exit(revision);
    let _ = ssa.capture_and_rollback(branch);
    ssa.record_state_revision_exit(revision);

    let exits = ssa.finish_state_revision(revision);
    let _ = ssa.capture_and_rollback(function);
    ssa.merge(&vec![exits]);

    let destination = ssa.read(DESTINATION);
    let expected: HashSet<u64> = [SOURCE].into_iter().collect();
    assert_eq!(root_sources(&ssa, destination), expected);
}

#[test]
fn enclosing_revision_ignores_nested_exit_markers() {
    let mut ssa = SsaStore::default();
    let outer_checkpoint = ssa.checkpoint();
    let outer = ssa.begin_state_revision(outer_checkpoint);

    let inner_checkpoint = ssa.checkpoint();
    let inner = ssa.begin_state_revision(inner_checkpoint);
    let changed = ssa.definition(&Vec::new());
    ssa.bind(INNER, changed);
    ssa.record_state_revision_exit(inner);
    let _ = ssa.finish_state_revision(inner);
    let _ = ssa.capture_and_rollback(inner_checkpoint);

    ssa.record_state_revision_exit(outer);
    let exits = ssa.finish_state_revision(outer);
    assert!(exits.bindings.is_empty());
    let _ = ssa.capture_and_rollback(outer_checkpoint);
}

#[test]
fn nested_rollback_preserves_the_outer_transaction() {
    let mut ssa = SsaStore::default();
    let base = ssa.definition(&Vec::new());
    ssa.bind(OUTER, base);

    let outer_checkpoint = ssa.checkpoint();
    let outer_definition = ssa.definition(&Vec::new());
    ssa.bind(OUTER, outer_definition);

    let inner_checkpoint = ssa.checkpoint();
    let inner_definition = ssa.definition(&Vec::new());
    ssa.bind(INNER, inner_definition);
    let inner_state = ssa.capture_and_rollback(inner_checkpoint);

    assert_eq!(ssa.read(OUTER), outer_definition);
    assert_ne!(ssa.read(INNER), inner_definition);

    ssa.merge(&vec![BranchState::empty(), inner_state]);
    let merged_inner = ssa.read(INNER);
    let outer_state = ssa.capture_and_rollback(outer_checkpoint);

    assert_eq!(ssa.read(OUTER), base);
    assert_ne!(ssa.read(INNER), merged_inner);
    assert_eq!(outer_state.get(OUTER), Some(outer_definition));
    assert_eq!(outer_state.get(INNER), Some(merged_inner));
}

#[test]
fn merge_cost_tracks_sparse_bindings_not_branch_key_product() {
    let mut ssa = SsaStore::default();
    let mut states = Vec::new();
    for key in 0..10_000 {
        let version = ssa.definition(&Vec::new());
        states.push(BranchState {
            bindings: vec![Binding { key, version }],
        });
    }

    ssa.merge(&states);

    assert_eq!(ssa.current.len(), states.len());
}

#[test]
fn repeated_transfer_closes_dependencies_across_runtime_iterations() {
    let mut ssa = SsaStore::default();
    let checkpoint = ssa.checkpoint();

    let previous_middle = ssa.read(MIDDLE);
    let last = ssa.definition(&vec![previous_middle]);
    ssa.weak_bind(LAST, last);

    let first = ssa.read(FIRST);
    let middle = ssa.definition(&vec![first]);
    ssa.weak_bind(MIDDLE, middle);

    let iteration = ssa.capture_and_rollback(checkpoint);
    let transfer = ssa.prepare_repeated_transfer(&iteration, checkpoint);
    ssa.apply_repeated_transfer(&transfer, false);

    let last = ssa.read(LAST);
    let sources = root_sources(&ssa, last);
    assert!(sources.contains(&FIRST));
}

#[test]
fn repeated_break_preserves_a_direct_break_transfer() {
    let mut ssa = SsaStore::default();
    let checkpoint = ssa.checkpoint();
    let source = ssa.read(SOURCE);
    let output = ssa.definition(&vec![source]);
    ssa.bind(OUTPUT, output);
    let mut breaks = vec![ExitState {
        state: ssa.capture_and_rollback(checkpoint),
        condition: unconditional(),
    }];

    let transfer = ssa.prepare_repeated_transfer(&BranchState::empty(), checkpoint);
    ssa.lift_repeated_exit_states(&transfer, &mut breaks);
    let lifted = breaks.pop().unwrap().state;
    ssa.merge(&vec![lifted]);

    let output = ssa.read(OUTPUT);
    let expected: HashSet<u64> = [SOURCE].into_iter().collect();
    assert_eq!(root_sources(&ssa, output), expected);
}

#[test]
fn repeated_break_retains_continuing_state_for_an_unwritten_key() {
    let mut ssa = SsaStore::default();
    let checkpoint = ssa.checkpoint();
    let source = ssa.read(SOURCE);
    let first = ssa.definition(&vec![source]);
    ssa.bind(VALUE, first);
    let continuing = ssa.capture_and_rollback(checkpoint);

    let mut breaks = vec![ExitState {
        state: BranchState::empty(),
        condition: unconditional(),
    }];
    let transfer = ssa.prepare_repeated_transfer(&continuing, checkpoint);
    ssa.lift_repeated_exit_states(&transfer, &mut breaks);
    let lifted = breaks.pop().unwrap().state;
    ssa.merge(&vec![lifted]);

    let value = ssa.read(VALUE);
    assert!(root_sources(&ssa, value).contains(&SOURCE));
}

#[test]
fn root_source_walk_does_not_use_the_native_stack() {
    const COUNT: usize = 100_000;

    let mut ssa = SsaStore::default();
    let mut version = ssa.read(SOURCE);
    for _ in 0..COUNT {
        version = ssa.definition(&vec![version]);
    }

    let expected: HashSet<u64> = [SOURCE].into_iter().collect();
    assert_eq!(root_sources(&ssa, version), expected);
}

#[test]
fn opposite_arms_of_one_branch_are_incompatible() {
    let branch = BranchId::new(1, 0, 2);
    let mut arena = PathArena::new();
    let true_path = arena.with_choice(unconditional(), branch, 0);
    let false_path = arena.with_choice(unconditional(), branch, 1);

    assert!(arena.conjoin_if_compatible(true_path, false_path).is_none());
}

#[test]
fn expression_branch_namespaces_do_not_alias_procedures_or_calls() {
    let procedure = BranchId::new(7, 3, 2);
    let expression = BranchId::expression(7, 3, 2);
    let call = BranchId::expression_call(7, 3, 0, 2);

    assert_ne!(procedure, expression);
    assert_ne!(procedure, call);
    assert_ne!(expression, call);
}

#[test]
fn arms_of_distinct_branches_are_compatible() {
    let mut arena = PathArena::new();
    let first = arena.with_choice(unconditional(), BranchId::new(1, 0, 2), 0);
    let second = arena.with_choice(unconditional(), BranchId::new(1, 1, 2), 1);

    let combined = arena
        .conjoin_if_compatible(first, second)
        .expect("distinct branches can execute on the same path");
    assert!(arena.covers(first, combined));
    assert!(arena.covers(second, combined));
}

#[test]
fn large_contiguous_arm_sets_remain_compact() {
    let branch = BranchId::new(1, 0, 1_000_001);
    let mut arena = PathArena::new();
    let lower = arena.with_choice_range(unconditional(), branch, 0, 500_000);
    let upper = arena.with_choice_range(unconditional(), branch, 500_000, 1_000_001);

    let joined = arena.disjoin(lower, upper);
    assert!(arena.same(joined, unconditional()));
    assert!(arena.conjoin_if_compatible(lower, upper).is_none());
}

#[test]
fn sequential_branch_joins_do_not_enumerate_path_combinations() {
    let mut ssa = SsaStore::default();
    let mut arena = PathArena::new();
    let source = ssa.read(SOURCE);
    let mut value = source;
    for local in 0..128 {
        let branch = BranchId::new(1, local, 2);
        let left_path = arena.with_choice(unconditional(), branch, 0);
        let left = ssa.definition_guarded(&vec![value], left_path);
        let right_path = arena.with_choice(unconditional(), branch, 1);
        let right = ssa.definition_guarded(&vec![value], right_path);
        value = ssa.phi(&vec![left, right]);
    }

    assert_eq!(
        ssa.root_source_relations_guarded(&mut arena, value, &None),
        Some(vec![Source {
            key: SOURCE,
            relation: PositionRelation::whole(),
            condition: unconditional(),
        }])
    );
}
