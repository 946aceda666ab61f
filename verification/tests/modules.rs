use std::collections::{HashMap, HashSet};

use veryl_analyzer::arena::PathArena;
use veryl_analyzer::ir::{Access, Expression, Facts, Node, Region, Selected, Statement};
use veryl_analyzer::module::{
    build_module_graph, Component, ModuleGraph, ModuleParts, Procedure, Summaries, VariableKind,
};
use veryl_analyzer::partition::{BitPartition, IndexedRanges, NodeKey};
use veryl_analyzer::span::{ArraySpan, PackedSpan};
use veryl_analyzer::through::{Instance, ModuleSummary};

const WIDTH: usize = 4;

fn one() -> ArraySpan {
    ArraySpan { start: 0, length: 1 }
}

fn access(id: u64) -> Access {
    Access {
        id,
        declared: true,
        index: Vec::new(),
        select: Vec::new(),
        range: None,
        regions: vec![Region { array: one(), packed: PackedSpan { start: 0, length: WIDTH } }],
        selected: Some(Selected { low: 0, high: WIDTH - 1 }),
        shape: Some(Vec::new()),
        coordinates: Vec::new(),
        flattened: None,
    }
}

fn copies(occurrence: usize, to: u64, from: u64) -> Statement {
    Statement::Assign {
        destinations: vec![access(to)],
        value: Expression {
            occurrence,
            sign: 0,
            facts: Facts { width: Some(WIDTH), array: Some(1), signed: false, value: None },
            node: Node::Variable(access(from)),
        },
    }
}

fn procedure(namespace: usize, statements: Vec<Statement>) -> Procedure {
    Procedure { statements, namespace, owned: Vec::new() }
}

/// The graph of a module of four variables, with those shown that are given.
fn build(
    shown: &[u64],
    procedures: Vec<Procedure>,
    components: Vec<Component>,
    kinds: Vec<VariableKind>,
) -> ModuleGraph {
    let ranges = (0..4)
        .map(|id| IndexedRanges {
            id,
            array: one(),
            packed: vec![PackedSpan { start: 0, length: WIDTH }],
        })
        .collect();
    let partition = BitPartition::new(ranges);
    let nodes: Vec<NodeKey> = (0..4).map(|id| NodeKey { id, array: one(), index: 0 }).collect();
    let visible: HashSet<u64> = shown.iter().copied().collect();
    let bodies = Vec::new();
    let functions = Vec::new();
    let locals = Vec::new();
    let parts = ModuleParts {
        partition: &partition,
        nodes: &nodes,
        bodies: &bodies,
        functions: &functions,
        locals: &locals,
        visible: &visible,
    };
    let summaries = Summaries::new(2);
    build_module_graph(&parts, &procedures, &kinds, components, &summaries.list, PathArena::new())
        .expect("all numbers fit")
}

/// Whether a variable depends on another, over any number of edges.
fn depends(module: &ModuleGraph, on: u64, variable: u64) -> bool {
    let node = |id: u64| module.graph.nodes.iter().position(|n| n.key.map(|key| key.id) == Some(id));
    let (start, end) = match (node(on), node(variable)) {
        (Some(start), Some(end)) => (start, end),
        _ => return false,
    };
    let mut reached = HashSet::new();
    let mut open = vec![start];
    while let Some(at) = open.pop() {
        for edge in module.graph.edges.iter().filter(|edge| edge.source == at) {
            if reached.insert(edge.destination) {
                open.push(edge.destination);
            }
        }
    }
    reached.contains(&end)
}

#[test]
fn the_graphs_of_procedures_are_joined() {
    let module = build(
        &[0, 1, 2, 3],
        vec![procedure(1, vec![copies(1, 1, 0)]), procedure(2, vec![copies(2, 2, 1)])],
        Vec::new(),
        vec![VariableKind::Other],
    );
    assert!(depends(&module, 0, 1));
    assert!(depends(&module, 0, 2));
    assert!(!depends(&module, 2, 0));
    assert!(!depends(&module, 0, 3));
    assert!(module.complete);
}

#[test]
fn variables_that_depend_on_each_other_form_a_loop() {
    let module = build(
        &[0, 1, 2, 3],
        vec![procedure(1, vec![copies(1, 1, 0)]), procedure(2, vec![copies(2, 0, 1)])],
        Vec::new(),
        vec![VariableKind::Other],
    );
    assert!(depends(&module, 0, 0));
}

#[test]
fn a_variable_that_is_not_shown_has_no_node() {
    let module = build(&[1, 2, 3], vec![procedure(1, vec![copies(1, 1, 0)])], Vec::new(), Vec::new());
    assert!(module.graph.nodes.iter().all(|node| node.key.map(|key| key.id) != Some(0)));
    let module = build(&[0], vec![procedure(1, vec![copies(1, 1, 0)])], Vec::new(), Vec::new());
    assert!(module.graph.nodes.is_empty());
}

#[test]
fn a_module_is_complete_where_all_of_it_is_known() {
    let list = || vec![procedure(1, vec![copies(1, 1, 0)])];
    let plain = || vec![VariableKind::Other, VariableKind::Other];
    assert!(build(&[0, 1], list(), vec![Component::Interface], plain()).complete);
    let black_box = vec![Component::Interface, Component::SystemVerilog];
    assert!(!build(&[0, 1], list(), black_box, plain()).complete);
    let both_ways = vec![VariableKind::Other, VariableKind::Inout];
    assert!(!build(&[0, 1], list(), Vec::new(), both_ways).complete);
    let unsupported = procedure(2, vec![Statement::Unsupported]);
    assert!(!build(&[0, 1], vec![unsupported], Vec::new(), plain()).complete);
    let not_built = Component::Module {
        number: 1,
        instance: Instance { connections: HashMap::new(), evaluated: Vec::new() },
        ports: Vec::new(),
        namespace: 7,
    };
    assert!(!build(&[0, 1], list(), vec![not_built], plain()).complete);
}

#[test]
fn summaries_are_as_complete_as_their_graphs() {
    let empty = || ModuleSummary { nodes: Vec::new(), edges: Vec::new() };
    let mut summaries = Summaries::new(3);
    assert!(summaries.complete);
    summaries.record(1, empty(), true);
    assert!(summaries.complete);
    summaries.record(0, empty(), false);
    assert!(!summaries.complete);
    summaries.record(2, empty(), true);
    assert!(!summaries.complete);
    assert!(summaries.list[1].as_ref().is_some_and(|known| known.complete));
    assert!(summaries.list[0].as_ref().is_some_and(|known| !known.complete));
}
