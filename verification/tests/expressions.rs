use veryl_analyzer::actuals::{analyze_instance_actual, map_actual_sources};
use veryl_analyzer::arena::PathCondition;
use veryl_analyzer::bounds::{ForBound, ForRange};
use veryl_analyzer::collect::{build_bit_partition, Connection, ModuleAccesses, PortRange, WholeAccess};
use veryl_analyzer::footprint::{
    function_call_write_footprint, process_write_footprint, statement_write_footprint,
    statements_have_unsupported,
};
use veryl_analyzer::instance::{RegionSource, SourceOffset};
use veryl_analyzer::ir::{
    Access, Argument, BinaryOp, Call, CaseArm, CaseFacts, Expression, Facts, Iterations, Node,
    Operand, OutputArgument, Region, Statement, SystemCall, SystemKind, UnaryOp,
};
use veryl_analyzer::masks::{packed_mask_overlaps, AssignedMasks};
use veryl_analyzer::occurrences::{
    collect_expression_branch_layout, requires_guarded_expression_analysis,
    var_access_requires_guarded_analysis, ExpressionBranchLayout,
};
use veryl_analyzer::partition::{BitPartition, IndexedRanges, NodeKey, RegionAccess};
use veryl_analyzer::selection::SelectorType;
use veryl_analyzer::shapes::{
    array_projection_layout, expression_array_extent, packed_projection_layout,
};
use veryl_analyzer::span::{ArraySpan, PackedSpan};

fn expression(occurrence: usize, width: usize, node: Node) -> Expression {
    Expression {
        occurrence,
        sign: 0,
        facts: Facts {
            width: Some(width),
            array: Some(1),
            signed: false,
            value: None,
        },
        node,
    }
}

fn constant(occurrence: usize) -> Expression {
    expression(occurrence, 1, Node::Constant)
}

fn region(start: usize, length: usize) -> Region {
    Region {
        array: ArraySpan { start: 0, length: 1 },
        packed: PackedSpan { start, length },
    }
}

fn access(id: u64, regions: Vec<Region>) -> Access {
    Access {
        id,
        declared: true,
        index: Vec::new(),
        select: Vec::new(),
        range: None,
        regions,
        selected: None,
        shape: Some(Vec::new()),
        coordinates: Vec::new(),
        flattened: None,
    }
}

fn variable(occurrence: usize, id: u64, width: usize) -> Expression {
    expression(
        occurrence,
        width,
        Node::Variable(access(id, vec![region(0, width)])),
    )
}

fn call(callee: u64, input: Expression, output: Access) -> Call {
    Call {
        callee,
        receiver: Vec::new(),
        inputs: vec![Argument {
            formal: Some(90),
            actual: input,
        }],
        outputs: vec![OutputArgument {
            formal: Some(91),
            destinations: vec![output],
        }],
    }
}

fn assign(id: u64, start: usize, length: usize, value: Expression) -> Statement {
    Statement::Assign {
        destinations: vec![access(id, vec![region(start, length)])],
        value,
    }
}

fn two_variables() -> BitPartition {
    let one = ArraySpan { start: 0, length: 1 };
    let packed = || {
        vec![
            PackedSpan { start: 0, length: 4 },
            PackedSpan { start: 4, length: 4 },
        ]
    };
    BitPartition::new(vec![
        IndexedRanges { id: 1, array: one, packed: packed() },
        IndexedRanges { id: 2, array: one, packed: packed() },
    ])
}

fn node(id: u64, index: usize) -> NodeKey {
    NodeKey {
        id,
        array: ArraySpan { start: 0, length: 1 },
        index,
    }
}

#[test]
fn decisions_and_calls_are_found_in_order() {
    let inner = expression(
        4,
        1,
        Node::Binary(Box::new(constant(5)), BinaryOp::LogicAnd, Box::new(constant(6))),
    );
    let called = expression(3, 1, Node::Call(call(0, inner, access(1, Vec::new()))));
    let outer = expression(
        1,
        1,
        Node::Ternary(Box::new(constant(2)), Box::new(called), Box::new(constant(7))),
    );
    let mut layout = ExpressionBranchLayout::new();
    collect_expression_branch_layout(&outer, &mut layout);
    assert_eq!(layout.conditionals, vec![1, 4]);
    assert_eq!(layout.calls, vec![3]);
    assert!(requires_guarded_expression_analysis(&outer));
}

#[test]
fn plain_expressions_hold_no_decision() {
    let sum = expression(
        1,
        4,
        Node::Binary(
            Box::new(variable(2, 1, 4)),
            BinaryOp::Other,
            Box::new(expression(3, 4, Node::Unary(UnaryOp::Bitwise, Box::new(constant(4))))),
        ),
    );
    let mut layout = ExpressionBranchLayout::new();
    collect_expression_branch_layout(&sum, &mut layout);
    assert!(layout.conditionals.is_empty() && layout.calls.is_empty());
    assert!(!requires_guarded_expression_analysis(&sum));
}

#[test]
fn coordinates_and_repeats_count() {
    let decision = || {
        expression(
            9,
            1,
            Node::Ternary(Box::new(constant(1)), Box::new(constant(2)), Box::new(constant(3))),
        )
    };
    let mut indexed = access(1, Vec::new());
    indexed.index.push(decision());
    assert!(var_access_requires_guarded_analysis(&indexed));
    assert!(requires_guarded_expression_analysis(&expression(8, 1, Node::Variable(indexed))));
    let repeated = expression(
        7,
        2,
        Node::Concatenation(vec![Operand {
            value: constant(4),
            repeat: Some(decision()),
            name: 0,
            width: None,
            rest: false,
        }]),
    );
    assert!(requires_guarded_expression_analysis(&repeated));
    // The coordinates of a variable of another module are listed, but ask for no path.
    let outside = expression(6, 1, Node::Hierarchical(vec![decision()]));
    assert!(!requires_guarded_expression_analysis(&outside));
    let mut layout = ExpressionBranchLayout::new();
    collect_expression_branch_layout(&outside, &mut layout);
    assert_eq!(layout.conditionals, vec![9]);
    let system = expression(
        5,
        1,
        Node::System(SystemCall {
            kind: SystemKind::Onehot,
            inputs: vec![decision()],
            outputs: Vec::new(),
        }),
    );
    assert!(requires_guarded_expression_analysis(&system));
}

#[test]
fn a_module_is_split_at_every_access() {
    let module = ModuleAccesses {
        procedures: vec![vec![
            assign(1, 0, 8, variable(1, 2, 8)),
            Statement::If {
                condition: variable(2, 3, 1),
                yes: vec![assign(1, 4, 2, constant(3))],
                no: Vec::new(),
            },
        ]],
        connections: vec![Connection {
            range: Some(PortRange {
                id: 2,
                array: ArraySpan { start: 0, length: 1 },
                packed_start: 6,
                packed_length: 2,
            }),
            inputs: Vec::new(),
            outputs: Vec::new(),
        }],
        summaries: Vec::new(),
        formals: vec![WholeAccess {
            id: 4,
            array: Some(2),
            width: Some(3),
        }],
        declared: Vec::new(),
        bodies: Vec::new(),
    };
    let partition = build_bit_partition(&module);
    let packed = |id: u64| -> Vec<(usize, usize)> {
        partition
            .regions
            .iter()
            .filter(|region| region.id == id)
            .flat_map(|region| region.packed.iter().map(|p| (p.start, p.length)))
            .collect()
    };
    assert_eq!(packed(1), vec![(0, 4), (4, 2), (6, 2)]);
    assert_eq!(packed(2), vec![(0, 6), (6, 2)]);
    assert_eq!(packed(3), vec![(0, 1)]);
    assert_eq!(packed(4), vec![(0, 3)]);
}

#[test]
fn functions_that_are_called_are_split_too() {
    let module = ModuleAccesses {
        procedures: vec![vec![Statement::Call(call(
            0,
            constant(1),
            access(1, vec![region(0, 8)]),
        ))]],
        connections: Vec::new(),
        summaries: vec![RegionAccess {
            id: 1,
            array: ArraySpan { start: 0, length: 1 },
            packed: PackedSpan { start: 0, length: 2 },
        }],
        formals: Vec::new(),
        declared: Vec::new(),
        bodies: vec![
            vec![Statement::Call(call(1, constant(2), access(1, vec![region(0, 4)])))],
            vec![assign(1, 6, 2, constant(3))],
            vec![assign(1, 1, 1, constant(4))],
        ],
    };
    let partition = build_bit_partition(&module);
    let packed: Vec<(usize, usize)> = partition
        .regions
        .iter()
        .flat_map(|region| region.packed.iter().map(|p| (p.start, p.length)))
        .collect();
    // The last body is not called.
    assert_eq!(packed, vec![(0, 2), (2, 2), (4, 2), (6, 2)]);
}

#[test]
fn statements_write_what_they_name() {
    let partition = two_variables();
    let statements = vec![Statement::If {
        condition: variable(1, 2, 8),
        yes: vec![assign(1, 4, 4, variable(2, 2, 8))],
        no: Vec::new(),
    }];
    assert_eq!(
        statement_write_footprint(&partition, &Vec::new(), &statements),
        vec![node(1, 1)]
    );
}

#[test]
fn calls_write_what_their_functions_write() {
    let partition = two_variables();
    let bodies = vec![
        vec![assign(2, 0, 4, constant(1)), Statement::Call(call(0, constant(2), access(9, Vec::new())))],
    ];
    let called = call(0, variable(3, 1, 8), access(1, vec![region(0, 1)]));
    assert_eq!(
        function_call_write_footprint(&partition, &bodies, &called),
        vec![node(1, 0), node(2, 0)]
    );
    let inside = vec![assign(1, 4, 4, expression(4, 1, Node::Call(call(0, constant(5), access(9, Vec::new())))))];
    assert_eq!(
        statement_write_footprint(&partition, &bodies, &inside),
        vec![node(1, 1), node(2, 0)]
    );
}

#[test]
fn assigned_bits_are_part_of_a_procedure() {
    let partition = two_variables();
    let statements = vec![Statement::Unsupported];
    let high = vec![AssignedMasks { id: 2, masks: vec![vec![0x80]] }];
    assert_eq!(
        process_write_footprint(&partition, &Vec::new(), &statements, &high),
        vec![node(2, 1)]
    );
    let outside = vec![AssignedMasks { id: 2, masks: vec![vec![0x100], vec![0xff]] }];
    assert!(process_write_footprint(&partition, &Vec::new(), &statements, &outside).is_empty());
    let unknown = vec![AssignedMasks { id: 7, masks: vec![vec![0xff]] }];
    assert!(process_write_footprint(&partition, &Vec::new(), &statements, &unknown).is_empty());
}

#[test]
fn masks_meet_spans_across_words() {
    let mask = vec![0u64, 1u64 << 63, 1];
    let span = |start: usize, length: usize| PackedSpan { start, length };
    assert!(!packed_mask_overlaps(&mask, span(0, 64)));
    assert!(!packed_mask_overlaps(&mask, span(0, 127)));
    assert!(packed_mask_overlaps(&mask, span(127, 1)));
    assert!(packed_mask_overlaps(&mask, span(0, 128)));
    assert!(packed_mask_overlaps(&mask, span(128, 1)));
    assert!(!packed_mask_overlaps(&mask, span(129, 63)));
    assert!(!packed_mask_overlaps(&mask, span(129, 1000)));
    assert!(!packed_mask_overlaps(&Vec::new(), span(0, 5)));
}

#[test]
fn unsupported_statements_are_found_at_any_depth() {
    assert!(!statements_have_unsupported(&vec![Statement::Break, Statement::Other]));
    let nested = vec![Statement::Case {
        target: constant(1),
        arms: vec![CaseArm {
            patterns: Vec::new(),
            body: vec![Statement::For {
                bounds: Vec::new(),
                body: vec![Statement::Unsupported],
                range: ForRange {
                    start: ForBound::Constant(0),
                    end: ForBound::Constant(2),
                    inclusive: false,
                },
                iterations: Iterations::TooMany,
            }],
        }],
        otherwise: Vec::new(),
        facts: CaseFacts {
            selector: SelectorType { plain: false, width: None, signed: false },
            patterns: Vec::new(),
            answers: None,
        },
    }];
    assert!(statements_have_unsupported(&nested));
    let reset = vec![Statement::IfReset {
        yes: Vec::new(),
        no: vec![Statement::Unsupported],
    }];
    assert!(statements_have_unsupported(&reset));
}

fn operand(value: Expression) -> Operand {
    Operand {
        value,
        repeat: None,
        name: 0,
        width: None,
        rest: false,
    }
}

#[test]
fn parts_of_a_concatenation_lie_from_the_top_down() {
    let parts = vec![operand(variable(1, 1, 3)), operand(variable(2, 2, 5))];
    let layout = packed_projection_layout(&parts, false).unwrap();
    let mut offsets: Vec<(usize, usize, usize)> = layout
        .iter()
        .map(|f| (f.part, f.output_start, f.item_width))
        .collect();
    offsets.sort();
    assert_eq!(offsets, vec![(0, 5, 3), (1, 0, 5)]);
}

#[test]
fn items_of_an_array_literal_lie_one_after_the_other() {
    let items = vec![operand(variable(1, 1, 3)), operand(variable(2, 2, 3))];
    let layout = array_projection_layout(&items, true, 2).unwrap();
    let places: Vec<(usize, usize, usize)> = layout.iter().map(|f| (f.item, f.start, f.repeat)).collect();
    assert_eq!(places, vec![(0, 0, 1), (1, 1, 1)]);
    assert_eq!(expression_array_extent(&items[0].value), Some(1));
}

#[test]
fn an_actual_reads_each_node_once() {
    let partition = two_variables();
    let sum = expression(
        1,
        8,
        Node::Binary(
            Box::new(expression(2, 4, Node::Variable(access(1, vec![region(0, 4)])))),
            BinaryOp::Other,
            Box::new(variable(3, 1, 8)),
        ),
    );
    let reads = analyze_instance_actual(&partition, &sum).unwrap();
    assert_eq!(reads.iter().map(|r| r.key).collect::<Vec<_>>(), vec![node(1, 0), node(1, 1)]);
    assert!(reads.iter().all(|r| r.offset.is_none()));
    // The type of an input is asked for, not its value.
    let bits = expression(
        4,
        32,
        Node::System(SystemCall {
            kind: SystemKind::Query,
            inputs: vec![variable(5, 2, 8)],
            outputs: Vec::new(),
        }),
    );
    assert!(analyze_instance_actual(&partition, &bits).unwrap().is_empty());
    let choice = expression(
        6,
        8,
        Node::Ternary(
            Box::new(variable(7, 1, 1)),
            Box::new(variable(8, 1, 8)),
            Box::new(variable(9, 2, 8)),
        ),
    );
    assert!(analyze_instance_actual(&partition, &choice).is_none());
}

#[test]
fn sources_of_an_actual_keep_their_offsets() {
    let source = |offset| RegionSource {
        key: node(1, 0),
        offset,
        condition: PathCondition { node: 0 },
    };
    let mapped = map_actual_sources(&vec![
        source(Some(SourceOffset { array: 1, packed: -2 })),
        source(None),
    ]);
    assert_eq!(mapped[0].offset.array, Some(1));
    assert_eq!(mapped[0].offset.packed, Some(-2));
    assert_eq!(mapped[1].offset.array, None);
    assert_eq!(mapped[1].offset.packed, None);
    assert!(mapped[0].child_domain.is_none());
}
