use std::collections::{HashMap, HashSet};

use veryl_analyzer::arena::{PathArena, PathCondition};
use veryl_analyzer::collect::{ModuleAccesses, PortRange};
use veryl_analyzer::connecting::{
    analyze_instance_actual_regions, analyze_instance_destination, analyze_instance_expressions,
};
use veryl_analyzer::fragments::{
    contiguous_actual_fragment, ActualFragmentLayout, Port, PortActual, SummaryRegion,
};
use veryl_analyzer::instance::{Endpoint, SourceOffset};
use veryl_analyzer::ir::{Access, Call, Expression, Facts, Node, Region, Selected, Statement};
use veryl_analyzer::module::{
    build_module_graph, collect_instance_summary_spans, partition_module, Component, ModuleGraph,
    ModuleParts, Procedure, Summaries,
};
use veryl_analyzer::partition::{BitPartition, IndexedRanges, NodeKey, RegionAccess};
use veryl_analyzer::relation::PositionRelation;
use veryl_analyzer::span::{ArraySpan, PackedSpan};
use veryl_analyzer::through::{
    Instance, ModuleSummary, PortConnection, SummaryEdge, SummaryNode, SummaryNodeKind,
};
use veryl_analyzer::values::{Function, Program};
use veryl_analyzer::wiring::{
    analyze_port, connect_instance, Actual, Destination, PortWiring, Wiring,
};

const WIDTH: usize = 4;
const ONE: ArraySpan = ArraySpan { start: 0, length: 1 };
const ALL: PackedSpan = PackedSpan { start: 0, length: WIDTH };

fn node(id: u64) -> NodeKey {
    NodeKey { id, array: ONE, index: 0 }
}

fn access(id: u64) -> Access {
    Access {
        id,
        declared: true,
        index: Vec::new(),
        select: Vec::new(),
        range: None,
        regions: vec![Region { array: ONE, packed: ALL }],
        selected: Some(Selected { low: 0, high: WIDTH - 1 }),
        shape: Some(Vec::new()),
        coordinates: Vec::new(),
        flattened: None,
    }
}

fn expression(occurrence: usize, node: Node) -> Expression {
    Expression {
        occurrence,
        sign: 0,
        facts: Facts { width: Some(WIDTH), array: Some(1), signed: false, value: None },
        node,
    }
}

fn read(occurrence: usize, id: u64) -> Expression {
    expression(occurrence, Node::Variable(access(id)))
}

fn choice(occurrence: usize, condition: u64, yes: u64, no: u64) -> Expression {
    expression(
        occurrence,
        Node::Ternary(
            Box::new(read(occurrence + 1, condition)),
            Box::new(read(occurrence + 2, yes)),
            Box::new(read(occurrence + 3, no)),
        ),
    )
}

fn unknown_call(occurrence: usize) -> Expression {
    let call = Call { callee: 0, receiver: Vec::new(), inputs: Vec::new(), outputs: Vec::new() };
    expression(occurrence, Node::Call(call))
}

/// Variables 0 to 4 of four bits, one node each.
struct Setup {
    partition: BitPartition,
    nodes: Vec<NodeKey>,
    bodies: Vec<Vec<Statement>>,
    functions: Vec<Function>,
    owned: Vec<NodeKey>,
    locals: Vec<u64>,
}

impl Setup {
    fn new() -> Self {
        let ranges = (0..5)
            .map(|id| IndexedRanges { id, array: ONE, packed: vec![ALL] })
            .collect();
        Setup {
            partition: BitPartition::new(ranges),
            nodes: (0..5).map(node).collect(),
            bodies: Vec::new(),
            functions: Vec::new(),
            owned: Vec::new(),
            locals: Vec::new(),
        }
    }

    fn program(&self) -> Program<'_> {
        Program {
            partition: &self.partition,
            nodes: &self.nodes,
            bodies: &self.bodies,
            functions: &self.functions,
            owned: &self.owned,
            locals: &self.locals,
        }
    }
}

fn ids(nodes: impl Iterator<Item = NodeKey>) -> HashSet<u64> {
    nodes.map(|key| key.id).collect()
}

fn set(list: &[u64]) -> HashSet<u64> {
    list.iter().copied().collect()
}

fn region(id: u64, start: usize, length: usize) -> SummaryRegion {
    SummaryRegion { id, array: ONE, packed: PackedSpan { start, length } }
}

#[test]
fn the_regions_of_an_actual_are_taken_from_one_evaluation() {
    let setup = Setup::new();
    let requests = vec![region(10, 0, WIDTH), region(10, 1, 2)];
    let (found, _) = analyze_instance_actual_regions(
        &setup.program(),
        &read(1, 3),
        &requests,
        WIDTH,
        1,
        PathArena::new(),
    );
    let found = found.expect("all numbers fit");
    assert!(found.complete);
    assert!(found.dependencies.is_empty());
    assert_eq!(ids(found.reads.iter().map(|source| source.key)), set(&[3]));
    assert_eq!(found.mappings.len(), 2);
    for (mapping, request) in found.mappings.iter().zip(&requests) {
        assert_eq!(mapping.region, *request);
        assert_eq!(mapping.nodes.len(), 1);
        assert_eq!(mapping.nodes[0].key, node(3));
        assert_eq!(
            mapping.nodes[0].offset,
            PositionRelation { array: Some(0), packed: Some(0) }
        );
    }
}

#[test]
fn a_decision_in_an_actual_is_read_with_its_arms() {
    let setup = Setup::new();
    let (found, _) = analyze_instance_actual_regions(
        &setup.program(),
        &choice(1, 0, 1, 2),
        &vec![region(10, 0, WIDTH)],
        WIDTH,
        1,
        PathArena::new(),
    );
    let found = found.expect("all numbers fit");
    assert_eq!(ids(found.reads.iter().map(|source| source.key)), set(&[0, 1, 2]));
    assert_eq!(ids(found.mappings[0].nodes.iter().map(|m| m.key)), set(&[0, 1, 2]));
    let arm = found.mappings[0].nodes.iter().find(|m| m.key == node(1)).unwrap();
    assert_ne!(arm.condition, PathCondition { node: 0 });
    assert!(found.complete);
}

#[test]
fn expressions_without_decisions_are_read_as_they_stand() {
    let setup = Setup::new();
    let (first, second, guarded) = (read(1, 0), read(2, 1), choice(3, 2, 3, 3));
    let (found, _) =
        analyze_instance_expressions(&setup.program(), &vec![&first, &second], 1, PathArena::new());
    let found = found.expect("nothing is evaluated");
    assert_eq!(ids(found.reads.iter().map(|source| source.key)), set(&[0, 1]));
    assert!(found.complete && found.dependencies.is_empty());
    let (found, _) = analyze_instance_expressions(
        &setup.program(),
        &vec![&first, &guarded, &second],
        1,
        PathArena::new(),
    );
    let found = found.expect("all numbers fit");
    assert_eq!(ids(found.reads.iter().map(|source| source.key)), set(&[0, 1, 2, 3]));
}

#[test]
fn an_actual_of_which_nothing_is_known_is_incomplete() {
    let setup = Setup::new();
    let call = unknown_call(1);
    let (found, _) =
        analyze_instance_expressions(&setup.program(), &vec![&call], 1, PathArena::new());
    assert!(!found.expect("all numbers fit").complete);
    let wiring = Wiring::Input {
        range: None,
        actuals: vec![Actual { expression: unknown_call(2), namespace: 2 }],
        width: None,
    };
    let (found, _) = analyze_port(&setup.program(), &wiring, &Vec::new(), PathArena::new());
    assert!(!found.expect("all numbers fit").complete);
}

#[test]
fn what_selects_a_destination_is_depended_on() {
    let setup = Setup::new();
    let mut target = access(4);
    target.index = vec![read(1, 2)];
    let (found, _) =
        analyze_instance_destination(&setup.program(), &target, 1, PathArena::new());
    assert_eq!(ids(found.unwrap().reads.iter().map(|source| source.key)), set(&[2]));
    let mut target = access(4);
    target.index = vec![read(1, 2)];
    let wiring = Wiring::Output {
        range: None,
        destinations: vec![Destination { access: target, namespace: 1 }],
    };
    let (found, _) = analyze_port(&setup.program(), &wiring, &Vec::new(), PathArena::new());
    let found = found.expect("nothing is evaluated");
    assert_eq!(found.dependencies.len(), 1);
    assert_eq!(found.dependencies[0].source, node(2));
    assert_eq!(found.dependencies[0].destination, node(4));
    assert_eq!(ids(found.writes.unwrap().iter().map(|source| source.key)), set(&[4]));
    assert!(found.reads.is_none());
}

#[test]
fn a_range_is_read_without_an_actual() {
    let setup = Setup::new();
    let range = PortRange { id: 1, array: ONE, packed_start: 0, packed_length: 2 };
    let wiring = Wiring::Input { range: Some(range), actuals: Vec::new(), width: Some(2) };
    let (found, _) = analyze_port(&setup.program(), &wiring, &Vec::new(), PathArena::new());
    let found = found.expect("nothing is evaluated");
    assert_eq!(ids(found.reads.unwrap().iter().map(|source| source.key)), set(&[1]));
    assert!(found.complete);
}

fn endpoint(parent: u64, input: bool) -> Endpoint {
    let port = Port { array: Some(1), width: Some(WIDTH), signed: false };
    let actual = PortActual {
        parent,
        array_start: 0,
        array_length: 1,
        packed_start: 0,
        packed_length: WIDTH,
        signed: false,
    };
    let fragment = contiguous_actual_fragment(port, actual).unwrap();
    Endpoint {
        port: Some(port),
        binding: None,
        output: if input { None } else { Some(ActualFragmentLayout::new(vec![fragment])) },
        output_filters: Vec::new(),
        input: None,
        actual: None,
    }
}

/// The output of the child, 11, depends on its input, 10, bit by bit.
fn through_summary() -> ModuleSummary {
    let port = |kind, id| SummaryNode {
        kind,
        region: region(id, 0, WIDTH),
        domains: Vec::new(),
        regular_transfer: false,
    };
    ModuleSummary {
        nodes: vec![port(SummaryNodeKind::Input, 10), port(SummaryNodeKind::Output, 11)],
        edges: vec![SummaryEdge {
            source: 0,
            destination: 1,
            kind: PositionRelation { array: Some(0), packed: Some(0) },
            condition: PathCondition { node: 0 },
            carrier: false,
        }],
    }
}

fn unconnected() -> Instance {
    let mut connections = HashMap::new();
    connections
        .insert(10, PortConnection { endpoint: endpoint(0, true), reads: None, writes: None });
    connections
        .insert(11, PortConnection { endpoint: endpoint(4, false), reads: None, writes: None });
    Instance { connections, evaluated: Vec::new() }
}

fn ports(actual: Expression) -> Vec<PortWiring> {
    vec![
        PortWiring {
            id: 10,
            wiring: Wiring::Input {
                range: None,
                actuals: vec![Actual { expression: actual, namespace: 21 }],
                width: Some(WIDTH),
            },
        },
        PortWiring {
            id: 11,
            wiring: Wiring::Output {
                range: None,
                destinations: vec![Destination { access: access(4), namespace: 22 }],
            },
        },
    ]
}

#[test]
fn an_instance_is_connected_port_by_port() {
    let setup = Setup::new();
    let (connected, _) = connect_instance(
        &setup.program(),
        unconnected(),
        &ports(choice(1, 0, 1, 2)),
        &through_summary(),
        PathArena::new(),
    );
    let connected = connected.expect("all numbers fit");
    assert!(connected.complete);
    let reads = connected.instance.connections[&10].reads.as_ref().unwrap();
    assert_eq!(ids(reads.iter().map(|source| source.key)), set(&[0, 1, 2]));
    let writes = connected.instance.connections[&11].writes.as_ref().unwrap();
    assert_eq!(ids(writes.iter().map(|source| source.key)), set(&[4]));
    assert!(connected.instance.evaluated.iter().any(|found| found.region == region(10, 0, WIDTH)));
    let offset = SourceOffset { array: 0, packed: 0 };
    assert!(reads.iter().all(|source| source.offset.is_none() || source.offset == Some(offset)));
    let (connected, _) = connect_instance(
        &setup.program(),
        unconnected(),
        &ports(unknown_call(1)),
        &through_summary(),
        PathArena::new(),
    );
    assert!(!connected.expect("all numbers fit").complete);
}

fn build(actual: Expression, known: bool) -> ModuleGraph {
    let setup = Setup::new();
    let visible: HashSet<u64> = (0..5).collect();
    let parts = ModuleParts {
        partition: &setup.partition,
        nodes: &setup.nodes,
        bodies: &setup.bodies,
        functions: &setup.functions,
        locals: &setup.locals,
        visible: &visible,
    };
    let mut summaries = Summaries::new(1);
    summaries.record(0, through_summary(), known);
    let component = Component::Module {
        number: 0,
        instance: unconnected(),
        ports: ports(actual),
        namespace: 30,
    };
    let none: Vec<Procedure> = Vec::new();
    build_module_graph(
        &parts,
        &none,
        &Vec::new(),
        vec![component],
        &summaries.list,
        PathArena::new(),
    )
    .expect("all numbers fit")
}

fn depends(module: &ModuleGraph, on: u64, variable: u64) -> bool {
    let place = |id: u64| module.graph.nodes.iter().position(|n| n.key == Some(node(id)));
    let (start, end) = match (place(on), place(variable)) {
        (Some(start), Some(end)) => (start, end),
        _ => return false,
    };
    let mut reached = HashSet::new();
    let mut open = vec![start];
    while let Some(at) = open.pop() {
        for edge in module.graph.edges.iter().filter(|edge| edge.source == at) {
            if reached.insert(edge.destination) {
                open.push(edge.destination);
            }
        }
    }
    reached.contains(&end)
}

#[test]
fn a_module_depends_on_what_runs_through_its_instances() {
    let module = build(choice(1, 0, 1, 2), true);
    assert!(module.complete);
    for on in [0, 1, 2] {
        assert!(depends(&module, on, 4));
    }
    assert!(!depends(&module, 3, 4));
    assert!(!depends(&module, 4, 0));
    assert!(!build(read(1, 0), false).complete);
    assert!(!build(unknown_call(1), true).complete);
}

#[test]
fn the_parent_is_accessed_through_the_summary_of_the_child() {
    let found = collect_instance_summary_spans(&unconnected(), &through_summary());
    assert!(found.iter().any(|a| a.id == 4 && a.array == ONE && a.packed == ALL));
}

#[test]
fn a_module_is_split_where_its_instances_access_it() {
    let accesses = || ModuleAccesses {
        procedures: Vec::new(),
        connections: Vec::new(),
        summaries: vec![RegionAccess {
            id: 4,
            array: ONE,
            packed: PackedSpan { start: 2, length: 4 },
        }],
        formals: Vec::new(),
        declared: Vec::new(),
        bodies: Vec::new(),
    };
    let child = || {
        let instance = unconnected();
        vec![Component::Module { number: 0, instance, ports: Vec::new(), namespace: 1 }]
    };
    let mut summaries = Summaries::new(1);
    let mut empty = accesses();
    empty.summaries[0].packed.length = 0;
    assert!(partition_module(empty, &child(), &summaries.list).is_none());
    let packed = |partition: &BitPartition| -> Vec<(usize, usize)> {
        let region = partition.regions.iter().find(|region| region.id == 4).expect("accessed");
        region.packed.iter().map(|p| (p.start, p.length)).collect()
    };
    let (alone, nodes) = partition_module(accesses(), &child(), &summaries.list).expect("bits");
    assert_eq!(packed(&alone), vec![(2, 4)]);
    assert_eq!(nodes, vec![node(4)]);

    summaries.record(0, through_summary(), true);
    let (split, nodes) = partition_module(accesses(), &child(), &summaries.list).expect("bits");
    assert_eq!(packed(&split), vec![(0, 2), (2, 2), (4, 2)]);
    let on_four = nodes.iter().filter(|key| key.id == 4).map(|key| key.index);
    assert_eq!(on_four.collect::<Vec<_>>(), vec![0, 1, 2]);
}
