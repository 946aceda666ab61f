use std::collections::{HashMap, HashSet};
use std::rc::Rc;

use veryl_analyzer::arena::{PathArena, PathCondition};
use veryl_analyzer::assign::write_assignment_destination;
use veryl_analyzer::flows::{FlowNode, FlowRef, Flows, Origin, ProjectionContext, Projector};
use veryl_analyzer::ir::{
    Access, BinaryOp, Expression, Facts, Node, Operand, Region, Selected, UnaryOp,
};
use veryl_analyzer::layout::{CallResult, EvaluationCache, FrozenVariableRead, KeyVersion, RegionGroup, RegionVersion};
use veryl_analyzer::partition::{BitPartition, IndexedRanges, NodeKey};
use veryl_analyzer::path::BranchId;
use veryl_analyzer::projection::destination_array_selection;
use veryl_analyzer::realize::Realizer;
use veryl_analyzer::relation::PositionRelation;
use veryl_analyzer::results::{project_version_sources, requested_regions, select_call_result};
use veryl_analyzer::snapshots::Assignment;
use veryl_analyzer::span::{ArraySpan, PackedSpan};
use veryl_analyzer::ssa::SsaStore;
use veryl_analyzer::targets::{destination_targets, keys_for_id, read_keys, write_keys};

const ONE: ArraySpan = ArraySpan { start: 0, length: 1 };

/// Variables 0, 1 and 2 have eight bits each, split in the middle; the key of half `h` of variable
/// `n` is `2 * n + h`.
fn halves() -> (BitPartition, Vec<NodeKey>) {
    let partition = BitPartition::new(
        (0..3)
            .map(|id| IndexedRanges {
                id,
                array: ONE,
                packed: vec![
                    PackedSpan { start: 0, length: 4 },
                    PackedSpan { start: 4, length: 4 },
                ],
            })
            .collect(),
    );
    let nodes = (0..6)
        .map(|key| NodeKey {
            id: key / 2,
            array: ONE,
            index: (key % 2) as usize,
        })
        .collect();
    (partition, nodes)
}

fn expression(occurrence: usize, width: usize, node: Node) -> Expression {
    Expression {
        occurrence,
        sign: 0,
        facts: Facts {
            width: Some(width),
            array: Some(1),
            signed: false,
            value: None,
        },
        node,
    }
}

fn access(id: u64) -> Access {
    Access {
        id,
        declared: true,
        index: Vec::new(),
        select: Vec::new(),
        range: None,
        regions: vec![Region {
            array: ONE,
            packed: PackedSpan { start: 0, length: 8 },
        }],
        selected: Some(Selected { low: 0, high: 7 }),
        shape: Some(Vec::new()),
        coordinates: Vec::new(),
        flattened: None,
    }
}

fn variable(occurrence: usize, id: u64) -> Expression {
    expression(occurrence, 8, Node::Variable(access(id)))
}

/// A cache that holds what the reads of two variables found: `reads` gives their occurrences.
fn cache(store: &mut SsaStore, nodes: &[NodeKey], reads: &[(usize, u64)]) -> EvaluationCache {
    let mut cache = EvaluationCache::new();
    for &(occurrence, id) in reads {
        let versions = (0..2)
            .map(|half| {
                let key = 2 * id + half;
                KeyVersion {
                    key: nodes[key as usize],
                    version: store.read(key),
                }
            })
            .collect();
        cache.variable_reads.insert(
            occurrence,
            Rc::new(FrozenVariableRead {
                selectors: Vec::new(),
                versions,
            }),
        );
    }
    cache
}

const NO_PROJECTION: ProjectionContext<'static> = ProjectionContext {
    destination_index: None,
    destination_array: None,
    destination_array_offset: None,
};

#[test]
fn a_whole_expression_reads_all_of_its_variables() {
    let (partition, nodes) = halves();
    let mut store = SsaStore::default();
    let cache = cache(&mut store, &nodes, &[(1, 0), (2, 1)]);
    let projector = Projector {
        cache: &cache,
        partition: &partition,
        projection: &NO_PROJECTION,
    };
    let sum = expression(
        0,
        8,
        Node::Binary(Box::new(variable(1, 0)), BinaryOp::Other, Box::new(variable(2, 1))),
    );
    let mut flows = Flows::new();
    let found = projector.eval_expr_inner(&mut flows, &Vec::new(), &sum, true);
    let versions: HashSet<usize> = found
        .iter()
        .map(|origin| match origin {
            Origin::Version(version) => *version,
            Origin::Node(_) => panic!("nothing is made"),
        })
        .collect();
    assert_eq!(versions.len(), 4);
    assert!(!flows.partial);
}

#[test]
fn an_unknown_part_makes_the_answer_partial() {
    let (partition, _) = halves();
    let cache = EvaluationCache::new();
    let projector = Projector {
        cache: &cache,
        partition: &partition,
        projection: &NO_PROJECTION,
    };
    let mut flows = Flows::new();
    let found = projector.eval_expr_inner(&mut flows, &Vec::new(), &expression(0, 8, Node::Unknown), true);
    assert_eq!(found, vec![Origin::Node(0)]);
    assert!(flows.partial);
    assert!(matches!(flows.nodes[0], FlowNode::Opaque));
}

#[test]
fn bits_of_a_bitwise_expression_keep_their_places() {
    let (partition, nodes) = halves();
    let mut store = SsaStore::default();
    let cache = cache(&mut store, &nodes, &[(1, 0)]);
    let projector = Projector {
        cache: &cache,
        partition: &partition,
        projection: &NO_PROJECTION,
    };
    let not = expression(0, 8, Node::Unary(UnaryOp::Bitwise, Box::new(variable(1, 0))));
    let mut flows = Flows::new();
    let found: Vec<FlowRef> = projector.eval_expr_bits_in(
        &mut flows,
        &Vec::new(),
        &not,
        ONE,
        PackedSpan { start: 0, length: 4 },
    );
    // The low half is read, at the same place.
    assert_eq!(found.len(), 1);
    assert_eq!(found[0].origin, Origin::Version(store.entries[&0]));
    assert_eq!(found[0].relation.packed, Some(0));
}

#[test]
fn bits_of_a_reduction_depend_on_everything() {
    let (partition, nodes) = halves();
    let mut store = SsaStore::default();
    let cache = cache(&mut store, &nodes, &[(1, 0)]);
    let projector = Projector {
        cache: &cache,
        partition: &partition,
        projection: &NO_PROJECTION,
    };
    let any = expression(0, 1, Node::Unary(UnaryOp::Other, Box::new(variable(1, 0))));
    let mut flows = Flows::new();
    let found = projector.eval_expr_bits_in(&mut flows, &Vec::new(), &any, ONE, PackedSpan { start: 0, length: 1 });
    let origins: Vec<Origin> = found.iter().map(|f| f.origin).collect();
    assert_eq!(origins.len(), 2);
    assert!(origins.contains(&Origin::Version(store.entries[&0])));
    assert!(origins.contains(&Origin::Version(store.entries[&1])));
    assert!(found.iter().all(|f| f.relation.packed.is_none()));
}

#[test]
fn a_part_of_a_concatenation_is_found_by_its_place() {
    let (partition, nodes) = halves();
    let mut store = SsaStore::default();
    let cache = cache(&mut store, &nodes, &[(1, 0), (2, 1)]);
    let projector = Projector {
        cache: &cache,
        partition: &partition,
        projection: &NO_PROJECTION,
    };
    let part = |value| Operand {
        value,
        repeat: None,
        name: 0,
        width: None,
        rest: false,
    };
    // Variable 0 is the high byte, variable 1 the low one.
    let both = expression(
        0,
        16,
        Node::Concatenation(vec![part(variable(1, 0)), part(variable(2, 1))]),
    );
    let mut flows = Flows::new();
    let found = projector.eval_expr_bits_in(&mut flows, &Vec::new(), &both, ONE, PackedSpan { start: 8, length: 4 });
    assert_eq!(found.len(), 1);
    assert_eq!(found[0].origin, Origin::Version(store.entries[&0]));
    assert_eq!(found[0].relation.packed, Some(8));
}

#[test]
fn an_assignment_is_taken_node_by_node_and_written() {
    let (partition, nodes) = halves();
    let mut store = SsaStore::default();
    let mut arena = PathArena::new();
    let cache = cache(&mut store, &nodes, &[(1, 0)]);
    let destination = access(1);
    let value = variable(1, 0);
    let assignment = Assignment {
        cache: &cache,
        partition: &partition,
        destination: &destination,
        value: &value,
        offset: 0,
        context: 8,
    };
    let selection = destination_array_selection(destination.shape.as_ref(), &destination.coordinates);
    let written = write_keys(&partition, &destination, None);
    assert_eq!(written.keys, vec![nodes[2], nodes[3]]);
    let targets = destination_targets(&partition, &destination, &written.keys, &selection);
    assert_eq!(targets.len(), 2);
    let mut flows = Flows::new();
    let snapshots = assignment.snapshot_assignment_destination(&mut flows, &targets, true);
    assert_eq!(snapshots.len(), 2);
    assert!(snapshots.iter().all(|s| !s.opaque && s.sources.len() == 1));
    let branches: HashMap<usize, BranchId> = HashMap::new();
    let realizer = Realizer {
        partition: &partition,
        nodes: &nodes,
        cache: &cache,
        branches: &branches,
        base: PathCondition { node: 0 },
    };
    let images = realizer.realize(&mut store, &mut arena, &flows).unwrap();
    let fits = write_assignment_destination(
        &mut store,
        &realizer,
        &images,
        &snapshots,
        &vec![2, 3],
        None,
        false,
        PathCondition { node: 0 },
    );
    assert!(fits);
    for (key, source) in [(2u64, 0u64), (3, 1)] {
        let found: HashSet<u64> = store
            .root_sources(&mut arena, store.current[&key])
            .expect("the offsets fit")
            .into_iter()
            .collect();
        assert_eq!(found, [source].into_iter().collect());
    }
}

#[test]
fn nodes_of_a_variable_are_listed_in_order() {
    let (partition, nodes) = halves();
    assert_eq!(keys_for_id(&partition, 1), vec![nodes[2], nodes[3]]);
    assert!(keys_for_id(&partition, 9).is_empty());
    let read = access(2);
    let selection = destination_array_selection(read.shape.as_ref(), &read.coordinates);
    assert_eq!(read_keys(&partition, &read, &selection), vec![nodes[4], nodes[5]]);
}

#[test]
fn a_version_is_taken_apart_by_what_it_came_from() {
    let (partition, nodes) = halves();
    let mut store = SsaStore::default();
    let mut arena = PathArena::new();
    let low = store.read(0);
    let high = store.read(1);
    let both = store.related_definition(&vec![
        veryl_analyzer::relation::SourceRef { version: low, relation: PositionRelation::default() },
        veryl_analyzer::relation::SourceRef { version: high, relation: PositionRelation::default() },
    ]);
    let found = project_version_sources(
        &mut store,
        &mut arena,
        &partition,
        &nodes,
        both,
        ONE,
        PackedSpan { start: 4, length: 4 },
    )
    .unwrap();
    // Only the high half lies at the requested bits.
    assert_eq!(found.len(), 1);
    let keys: HashSet<u64> = store
        .root_sources(&mut arena, found[0])
        .expect("the offsets fit")
        .into_iter()
        .collect();
    assert_eq!(keys, [1].into_iter().collect());
}

#[test]
fn regions_of_a_result_are_selected_by_request() {
    let (partition, nodes) = halves();
    let mut store = SsaStore::default();
    let mut arena = PathArena::new();
    let first = store.read(0);
    let second = store.read(1);
    let result = CallResult {
        region_groups: vec![RegionGroup {
            array: ONE,
            regions: vec![
                RegionVersion { packed: PackedSpan { start: 0, length: 4 }, version: first },
                RegionVersion { packed: PackedSpan { start: 4, length: 4 }, version: second },
            ],
        }],
    };
    let request = Some(Region { array: ONE, packed: PackedSpan { start: 4, length: 1 } });
    assert_eq!(requested_regions(&result, request).len(), 1);
    assert_eq!(requested_regions(&result, None).len(), 2);
    let whole = select_call_result(&mut store, &mut arena, &partition, &nodes, &result, None).unwrap();
    let found: HashSet<usize> = whole.into_iter().collect();
    assert_eq!(found, [first, second].into_iter().collect());
}
