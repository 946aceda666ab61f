use std::collections::HashSet;

use veryl_analyzer::arena::PathCondition;
use veryl_analyzer::collect::PortRange;
use veryl_analyzer::dag::{DagEdge, DagNode, DependencyDag};
use veryl_analyzer::graph::{DependencyGraph, GraphEdge, WrittenNode};
use veryl_analyzer::fragments::SummaryRegion;
use veryl_analyzer::instance::RegionSource;
use veryl_analyzer::partition::{BitPartition, IndexedRanges, NodeKey};
use veryl_analyzer::relation::PositionRelation;
use veryl_analyzer::requests::{
    input_reads, output_writes, range_keys, selector_dependencies, whole_sources,
};
use veryl_analyzer::span::{ArraySpan, PackedSpan};
use veryl_analyzer::through::{
    add_region_dependencies, positioned_inputs, ModuleSummary, RegionDependency, SummaryEdge,
    SummaryNode, SummaryNodeKind,
};

fn partition() -> BitPartition {
    let one = ArraySpan { start: 0, length: 1 };
    BitPartition::new(vec![
        IndexedRanges {
            id: 1,
            array: one,
            packed: vec![
                PackedSpan { start: 0, length: 4 },
                PackedSpan { start: 4, length: 4 },
            ],
        },
        IndexedRanges {
            id: 2,
            array: one,
            packed: vec![PackedSpan { start: 0, length: 8 }],
        },
    ])
}

fn node(id: u64, index: usize) -> NodeKey {
    NodeKey {
        id,
        array: ArraySpan { start: 0, length: 1 },
        index,
    }
}

fn always() -> PathCondition {
    PathCondition { node: 0 }
}

#[test]
fn a_key_has_one_node() {
    let partition = partition();
    let mut graph = DependencyGraph::new();
    let first = graph.ensure_node(&partition, node(1, 1)).unwrap();
    let second = graph.ensure_node(&partition, node(2, 0)).unwrap();
    assert_ne!(first, second);
    assert_eq!(graph.ensure_node(&partition, node(1, 1)), Some(first));
    assert_eq!(graph.nodes.len(), 2);
    assert_eq!(graph.nodes[first].key, Some(node(1, 1)));
    assert_eq!(graph.nodes[first].region.packed, PackedSpan { start: 4, length: 4 });
    // There is no such part of a variable.
    assert_eq!(graph.ensure_node(&partition, node(1, 2)), None);
}

#[test]
fn an_edge_joins_the_nodes_of_two_keys() {
    let partition = partition();
    let mut graph = DependencyGraph::new();
    graph.add_region_dependency(
        &partition,
        node(1, 0),
        node(2, 0),
        PositionRelation { array: Some(0), packed: Some(4) },
        always(),
    );
    assert_eq!(graph.edges.len(), 1);
    let edge = graph.edges[0];
    assert_eq!(graph.nodes[edge.source].key, Some(node(1, 0)));
    assert_eq!(graph.nodes[edge.destination].key, Some(node(2, 0)));
    assert_eq!(edge.kind.packed, Some(4));
    // Without a node there is no edge.
    graph.add_region_dependency(&partition, node(1, 9), node(2, 0), PositionRelation { array: None, packed: None }, always());
    assert_eq!(graph.edges.len(), 1);
}

#[test]
fn all_dependencies_of_a_list_are_added() {
    let partition = partition();
    let mut graph = DependencyGraph::new();
    let kind = PositionRelation { array: None, packed: None };
    add_region_dependencies(
        &mut graph,
        &partition,
        &vec![
            RegionDependency { source: node(1, 0), destination: node(1, 1), kind, condition: always() },
            RegionDependency { source: node(1, 1), destination: node(2, 0), kind, condition: always() },
        ],
    );
    assert_eq!(graph.nodes.len(), 3);
    assert_eq!(graph.edges.len(), 2);
}

#[test]
fn internal_nodes_have_no_key() {
    let mut graph = DependencyGraph::new();
    let region = SummaryRegion {
        id: 7,
        array: ArraySpan { start: 0, length: 1 },
        packed: PackedSpan { start: 0, length: 2 },
    };
    let a = graph.add_internal(region, Vec::new(), true);
    let b = graph.add_internal(region, Vec::new(), false);
    assert_ne!(a, b);
    assert_eq!(graph.nodes[a].key, None);
    assert!(graph.nodes[a].regular_transfer);
    graph.add_dependency_edge(GraphEdge {
        source: a,
        destination: b,
        kind: PositionRelation { array: None, packed: None },
        condition: always(),
        carrier: false,
    });
    assert_eq!(graph.edges.len(), 1);
}

#[test]
fn the_graph_of_a_procedure_is_joined_at_its_keys() {
    let partition = partition();
    let mut graph = DependencyGraph::new();
    // Key 0 reaches the written node of variable 2.
    let dag = DependencyDag {
        nodes: vec![DagNode::External(0), DagNode::Internal],
        edges: vec![DagEdge {
            source: 0,
            destination: 1,
            relation: PositionRelation { array: Some(0), packed: Some(0) },
            condition: always(),
        }],
        roots: vec![Some(1)],
        domains: vec![Vec::new(), Vec::new()],
        incoming: vec![Vec::new(), vec![0]],
    };
    let keys = vec![node(1, 0), node(2, 0)];
    let visible: HashSet<u64> = [1, 2].into_iter().collect();
    graph.add_procedure_graph(
        &partition,
        &dag,
        &keys,
        &vec![WrittenNode { key: node(2, 0), root: Some(1) }],
        &visible,
    );
    let source = graph.nodes.iter().position(|n| n.key == Some(node(1, 0))).unwrap();
    let target = graph.nodes.iter().position(|n| n.key == Some(node(2, 0))).unwrap();
    let mut reached = vec![source];
    let mut at = 0;
    while at < reached.len() {
        for edge in &graph.edges {
            if edge.source == reached[at] && !reached.contains(&edge.destination) {
                reached.push(edge.destination);
            }
        }
        at += 1;
    }
    assert!(reached.contains(&target));
}

#[test]
fn a_port_range_names_the_nodes_that_it_meets() {
    let partition = partition();
    let range = PortRange {
        id: 1,
        array: ArraySpan { start: 0, length: 1 },
        packed_start: 2,
        packed_length: 4,
    };
    assert_eq!(range_keys(&partition, &range), vec![node(1, 0), node(1, 1)]);
    let reads = input_reads(&partition, Some(&range), &Vec::new()).unwrap();
    assert_eq!(reads.len(), 2);
    assert_eq!(reads[1].key, node(1, 1));
    let writes = output_writes(&partition, None, &vec![node(2, 0)]).unwrap();
    assert_eq!(writes.len(), 1);
    assert_eq!(writes[0].key, node(2, 0));
}

#[test]
fn selectors_reach_every_destination() {
    let reads: Vec<RegionSource> = whole_sources(&vec![node(1, 0)]);
    let dependencies = selector_dependencies(&reads, &vec![node(2, 0), node(1, 1)]);
    assert_eq!(dependencies.len(), 2);
    assert!(dependencies.iter().all(|d| d.source == node(1, 0)));
    assert!(dependencies.iter().any(|d| d.destination == node(1, 1)));
}

#[test]
fn inputs_that_keep_positions_are_known_by_their_edges() {
    let port = |kind| SummaryNode {
        kind,
        region: SummaryRegion {
            id: 5,
            array: ArraySpan { start: 0, length: 1 },
            packed: PackedSpan { start: 0, length: 1 },
        },
        domains: Vec::new(),
        regular_transfer: false,
    };
    let edge = |source, kind| SummaryEdge {
        source,
        destination: 2,
        kind,
        condition: always(),
        carrier: false,
    };
    let summary = ModuleSummary {
        nodes: vec![
            port(SummaryNodeKind::Input),
            port(SummaryNodeKind::Input),
            port(SummaryNodeKind::Output),
        ],
        edges: vec![
            edge(0, PositionRelation { array: Some(0), packed: Some(0) }),
            edge(1, PositionRelation { array: None, packed: None }),
        ],
    };
    let positioned = positioned_inputs(&summary);
    assert_eq!(positioned.len(), 3);
    assert!(positioned[0]);
    assert!(!positioned[1]);
}
