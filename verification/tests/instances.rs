use std::collections::HashMap;

use veryl_analyzer::arena::{PathArena, PathCondition};
use veryl_analyzer::fragments::{
    contiguous_actual_fragment, translate_actual_fragments, ActualFragmentLayout, Port, PortActual,
    SummaryRegion,
};
use veryl_analyzer::graph::DependencyGraph;
use veryl_analyzer::instance::{key_span, Endpoint, RegionSource};
use veryl_analyzer::partition::{BitPartition, IndexedRanges, NodeKey};
use veryl_analyzer::relation::PositionRelation;
use veryl_analyzer::remap::BranchRemapper;
use veryl_analyzer::requests::{remap_module_summary_branches, whole_sources};
use veryl_analyzer::path::BranchId;
use veryl_analyzer::span::{ArraySpan, PackedSpan};
use veryl_analyzer::through::{
    add_instance_feedthrough, Instance, ModuleSummary, PortConnection, SummaryEdge, SummaryNode,
    SummaryNodeKind,
};

const ONE: ArraySpan = ArraySpan { start: 0, length: 1 };

fn partition() -> BitPartition {
    BitPartition::new(
        (1..3)
            .map(|id| IndexedRanges {
                id,
                array: ONE,
                packed: vec![PackedSpan { start: 0, length: 8 }],
            })
            .collect(),
    )
}

fn node(id: u64) -> NodeKey {
    NodeKey { id, array: ONE, index: 0 }
}

fn byte_port() -> Port {
    Port { array: Some(1), width: Some(8), signed: false }
}

fn actual(parent: u64, start: usize) -> PortActual {
    PortActual {
        parent,
        array_start: 0,
        array_length: 1,
        packed_start: start,
        packed_length: 8,
        signed: false,
    }
}

fn region(id: u64, start: usize, length: usize) -> SummaryRegion {
    SummaryRegion {
        id,
        array: ONE,
        packed: PackedSpan { start, length },
    }
}

#[test]
fn a_port_lies_at_the_place_of_its_actual() {
    let fragment = contiguous_actual_fragment(byte_port(), actual(7, 16)).unwrap();
    assert_eq!(fragment.parent, 7);
    assert_eq!(fragment.child_packed, PackedSpan { start: 0, length: 8 });
    assert_eq!(fragment.parent_packed, PackedSpan { start: 16, length: 8 });
    assert_eq!(fragment.offset.packed, Some(16));
    let mut narrow = byte_port();
    narrow.width = Some(4);
    assert!(contiguous_actual_fragment(narrow, actual(7, 16)).is_none());
    narrow.width = None;
    assert!(contiguous_actual_fragment(narrow, actual(7, 16)).is_none());
}

#[test]
fn a_region_of_a_port_is_moved_to_the_parent() {
    let fragment = contiguous_actual_fragment(byte_port(), actual(7, 16)).unwrap();
    let found = translate_actual_fragments(region(3, 2, 3), &vec![fragment]).unwrap();
    assert_eq!(found.len(), 1);
    assert_eq!(found[0].parent, 7);
    assert_eq!(found[0].packed, PackedSpan { start: 18, length: 3 });
    assert_eq!(found[0].child_domain.packed, PackedSpan { start: 2, length: 3 });
    // The layout finds the same.
    let layout = ActualFragmentLayout::new(vec![fragment]);
    assert_eq!(layout.translate(region(3, 2, 3)).unwrap(), found);
    assert!(layout.translate(region(3, 9, 3)).unwrap().is_empty());
}

#[test]
fn the_bits_of_a_node_are_found_in_the_partition() {
    assert_eq!(key_span(&partition(), node(1)), Some(PackedSpan { start: 0, length: 8 }));
    assert_eq!(key_span(&partition(), NodeKey { id: 1, array: ONE, index: 1 }), None);
}

fn endpoint(parent: u64, input: bool) -> Endpoint {
    let fragment = contiguous_actual_fragment(byte_port(), actual(parent, 0)).unwrap();
    Endpoint {
        port: Some(byte_port()),
        binding: None,
        output: if input {
            None
        } else {
            Some(ActualFragmentLayout::new(vec![fragment]))
        },
        output_filters: Vec::new(),
        input: if input { Some(actual(parent, 0)) } else { None },
        actual: None,
    }
}

fn always() -> PathCondition {
    PathCondition { node: 0 }
}

#[test]
fn what_runs_through_a_child_joins_the_nodes_of_the_parent() {
    // Port 10 of the child is an input and port 11 an output; the output depends on the input.
    let port = |kind, id| SummaryNode {
        kind,
        region: region(id, 0, 8),
        domains: Vec::new(),
        regular_transfer: false,
    };
    let summary = ModuleSummary {
        nodes: vec![
            port(SummaryNodeKind::Input, 10),
            port(SummaryNodeKind::Output, 11),
        ],
        edges: vec![SummaryEdge {
            source: 0,
            destination: 1,
            kind: PositionRelation { array: None, packed: None },
            condition: always(),
            carrier: false,
        }],
    };
    let reads: Vec<RegionSource> = whole_sources(&vec![node(1)]);
    let writes: Vec<RegionSource> = whole_sources(&vec![node(2)]);
    let mut connections = HashMap::new();
    connections.insert(
        10,
        PortConnection { endpoint: endpoint(1, true), reads: Some(reads), writes: None },
    );
    connections.insert(
        11,
        PortConnection { endpoint: endpoint(2, false), reads: None, writes: Some(writes) },
    );
    let instance = Instance { connections, evaluated: Vec::new() };
    let mut graph = DependencyGraph::new();
    let mut arena = PathArena::new();
    let mut remapper = BranchRemapper::new(Vec::new());
    assert!(add_instance_feedthrough(
        &mut graph,
        &mut arena,
        &mut remapper,
        &instance,
        &summary,
        &partition(),
        &Vec::new(),
    ));
    let source = graph.nodes.iter().position(|n| n.key == Some(node(1))).unwrap();
    let target = graph.nodes.iter().position(|n| n.key == Some(node(2))).unwrap();
    assert!(graph.edges.iter().any(|e| e.source == source && e.destination == target));
    assert!(!graph.edges.iter().any(|e| e.source == target && e.destination == source));
}

/// The child copies port 10 to port 11, each at its place; the first is connected to variable 1, from bit 8 on.
fn feed(kind: PositionRelation, connected: bool) -> (bool, DependencyGraph) {
    let ranges = [(1, 8), (2, 0)]
        .into_iter()
        .map(|(id, start)| IndexedRanges {
            id,
            array: ONE,
            packed: vec![PackedSpan { start, length: 8 }],
        })
        .collect();
    let port = |kind, id| SummaryNode {
        kind,
        region: region(id, 0, 8),
        domains: Vec::new(),
        regular_transfer: false,
    };
    let condition = always();
    let summary = ModuleSummary {
        nodes: vec![port(SummaryNodeKind::Input, 10), port(SummaryNodeKind::Output, 11)],
        edges: vec![SummaryEdge { source: 0, destination: 1, kind, condition, carrier: false }],
    };
    let input = Endpoint { input: Some(actual(1, 8)), ..endpoint(1, true) };
    let mut connections = HashMap::new();
    if connected {
        connections.insert(10, PortConnection { endpoint: input, reads: None, writes: None });
    }
    connections
        .insert(11, PortConnection { endpoint: endpoint(2, false), reads: None, writes: None });
    let instance = Instance { connections, evaluated: Vec::new() };
    let mut graph = DependencyGraph::new();
    let fits = add_instance_feedthrough(
        &mut graph,
        &mut PathArena::new(),
        &mut BranchRemapper::new(Vec::new()),
        &instance,
        &summary,
        &BitPartition::new(ranges),
        &Vec::new(),
    );
    (fits, graph)
}

#[test]
fn offsets_that_do_not_fit_are_told() {
    let by = |packed: isize| PositionRelation { array: None, packed: Some(packed) };
    let (fits, graph) = feed(by(0), true);
    assert!(fits);
    assert_eq!(graph.edges.len(), 1);
    assert_eq!(graph.edges[0].kind, by(-8));
    assert!(feed(by(isize::MAX), true).0);
    assert!(!feed(by(isize::MIN), true).0);
}

#[test]
fn nothing_runs_through_a_port_that_is_not_connected() {
    let (fits, graph) = feed(PositionRelation { array: None, packed: Some(0) }, false);
    assert!(fits);
    assert!(graph.edges.is_empty());
}

#[test]
fn the_branches_of_a_child_are_renamed_in_their_order() {
    let mut arena = PathArena::new();
    let first = BranchId::new(5, 0, 2);
    let second = BranchId::new(5, 3, 4);
    let a = arena.with_choice(always(), second, 1);
    let b = arena.with_choice(always(), first, 0);
    let edge = |condition| SummaryEdge {
        source: 0,
        destination: 0,
        kind: PositionRelation { array: None, packed: None },
        condition,
        carrier: true,
    };
    let summary = ModuleSummary {
        nodes: vec![SummaryNode {
            kind: SummaryNodeKind::Internal,
            region: region(1, 0, 1),
            domains: Vec::new(),
            regular_transfer: true,
        }],
        edges: vec![edge(a), edge(b)],
    };
    let mapping = remap_module_summary_branches(&arena, &summary, 9);
    assert_eq!(mapping.len(), 2);
    assert_eq!(mapping[0].0, first);
    assert_eq!(mapping[1].0, second);
    assert_eq!(mapping[0].1.arms, 2);
    assert_eq!(mapping[1].1.arms, 4);
    assert_ne!(mapping[0].1, mapping[1].1);
}
