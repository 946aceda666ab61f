use std::collections::HashSet;

use veryl_analyzer::analysis::{analyze, begin};
use veryl_analyzer::apply::FormalShape;
use veryl_analyzer::arena::PathArena;
use veryl_analyzer::bounds::{ForBound, ForRange, IndexExpression};
use veryl_analyzer::ir::{
    Access, Argument, Call, CaseArm, CaseFacts, Expression, Facts, Iterations, Node, OutputArgument,
    Pattern, Region, Selected, Statement,
};
use veryl_analyzer::machine::Machine;
use veryl_analyzer::partition::{BitPartition, IndexedRanges, NodeKey};
use veryl_analyzer::selection::SelectorType;
use veryl_analyzer::span::{ArraySpan, PackedSpan};
use veryl_analyzer::values::{Formal, Function, Program};

const WIDTH: usize = 4;

fn one() -> ArraySpan {
    ArraySpan { start: 0, length: 1 }
}

/// Variables 0, 1, .. of four bits, one node each.
fn variables(count: u64) -> (BitPartition, Vec<NodeKey>) {
    let ranges = (0..count)
        .map(|id| IndexedRanges {
            id,
            array: one(),
            packed: vec![PackedSpan { start: 0, length: WIDTH }],
        })
        .collect();
    let nodes = (0..count).map(|id| NodeKey { id, array: one(), index: 0 }).collect();
    (BitPartition::new(ranges), nodes)
}

fn expression(occurrence: usize, node: Node) -> Expression {
    Expression {
        occurrence,
        sign: 0,
        facts: Facts { width: Some(WIDTH), array: Some(1), signed: false, value: None },
        node,
    }
}

fn access(id: u64) -> Access {
    Access {
        id,
        declared: true,
        index: Vec::new(),
        select: Vec::new(),
        range: None,
        regions: vec![Region { array: one(), packed: PackedSpan { start: 0, length: WIDTH } }],
        selected: Some(Selected { low: 0, high: WIDTH - 1 }),
        shape: Some(Vec::new()),
        coordinates: Vec::new(),
        flattened: None,
    }
}

fn read(occurrence: usize, id: u64) -> Expression {
    expression(occurrence, Node::Variable(access(id)))
}

fn assign(to: u64, value: Expression) -> Statement {
    Statement::Assign { destinations: vec![access(to)], value }
}

struct Setup {
    partition: BitPartition,
    nodes: Vec<NodeKey>,
    bodies: Vec<Vec<Statement>>,
    functions: Vec<Function>,
    owned: Vec<NodeKey>,
    locals: Vec<u64>,
}

impl Setup {
    fn new(count: u64) -> Self {
        let (partition, nodes) = variables(count);
        let owned = nodes.clone();
        Setup { partition, nodes, bodies: Vec::new(), functions: Vec::new(), owned, locals: Vec::new() }
    }

    fn program(&self) -> Program<'_> {
        Program {
            partition: &self.partition,
            nodes: &self.nodes,
            bodies: &self.bodies,
            functions: &self.functions,
            owned: &self.owned,
            locals: &self.locals,
        }
    }

    fn run(&self, statements: Vec<Statement>) -> Machine {
        let mut machine = begin(&self.program(), 0, PathArena::new());
        machine.eval_block(&self.program(), self.bodies.len(), &statements, &Vec::new());
        assert!(machine.fits);
        machine
    }
}

fn sources(machine: &mut Machine, key: u64) -> HashSet<u64> {
    let version = machine.store.current[&key];
    machine
        .store
        .root_sources(&mut machine.arena, version)
        .expect("the offsets fit")
        .into_iter()
        .collect()
}

fn keys(list: &[u64]) -> HashSet<u64> {
    list.iter().copied().collect()
}

#[test]
fn the_last_assignment_counts() {
    let mut machine = Setup::new(3).run(vec![assign(2, read(1, 0)), assign(2, read(2, 1))]);
    assert_eq!(sources(&mut machine, 2), keys(&[1]));
    assert!(machine.complete);
}

#[test]
fn an_assignment_builds_on_the_one_before() {
    let mut machine = Setup::new(3).run(vec![assign(1, read(1, 0)), assign(2, read(2, 1))]);
    assert_eq!(sources(&mut machine, 2), keys(&[0]));
}

#[test]
fn a_condition_counts_for_what_its_sides_write() {
    let mut machine = Setup::new(4).run(vec![Statement::If {
        condition: read(1, 0),
        yes: vec![assign(3, read(2, 1))],
        no: vec![assign(3, read(3, 2))],
    }]);
    assert_eq!(sources(&mut machine, 3), keys(&[0, 1, 2]));
    assert_eq!(machine.next_branch, 1);
}

#[test]
fn a_known_condition_takes_one_side() {
    let mut condition = read(1, 0);
    condition.facts.value = Some(1);
    let mut machine = Setup::new(4).run(vec![Statement::If {
        condition,
        yes: vec![assign(3, read(2, 1))],
        no: vec![assign(3, read(3, 2))],
    }]);
    assert_eq!(sources(&mut machine, 3), keys(&[0, 1]));
    assert_eq!(machine.next_branch, 0);
}

fn case(patterns: Vec<Pattern>, answers: Option<Vec<Vec<Option<bool>>>>) -> Statement {
    Statement::Case {
        target: read(1, 0),
        arms: vec![CaseArm { patterns, body: vec![assign(3, read(3, 1))] }],
        otherwise: vec![assign(3, read(4, 2))],
        facts: CaseFacts {
            selector: SelectorType { plain: false, width: None, signed: false },
            patterns: vec![Vec::new()],
            answers,
        },
    }
}

#[test]
fn a_case_joins_its_arms_and_its_default() {
    let patterns = || vec![Pattern::Equal(expression(2, Node::Constant))];
    let mut machine = Setup::new(4).run(vec![case(patterns(), None)]);
    assert_eq!(sources(&mut machine, 3), keys(&[0, 1, 2]));
    let mut machine = Setup::new(4).run(vec![case(patterns(), Some(vec![vec![Some(true)]]))]);
    assert_eq!(sources(&mut machine, 3), keys(&[0, 1]));
    let mut machine = Setup::new(4).run(vec![case(patterns(), Some(vec![vec![Some(false)]]))]);
    assert_eq!(sources(&mut machine, 3), keys(&[0, 2]));
}

fn repeat(iterations: Iterations, body: Vec<Statement>) -> Statement {
    Statement::For {
        bounds: Vec::new(),
        body,
        range: ForRange {
            start: ForBound::Constant(0),
            end: ForBound::Constant(2),
            inclusive: false,
        },
        iterations,
    }
}

#[test]
fn known_iterations_build_on_each_other() {
    let shift = || vec![assign(2, read(1, 1)), assign(1, read(2, 0))];
    let mut machine = Setup::new(3).run(vec![repeat(Iterations::Known(vec![shift(), shift()]), shift())]);
    assert_eq!(sources(&mut machine, 2), keys(&[0]));
    assert!(machine.complete);
}

#[test]
fn too_many_iterations_are_forgotten() {
    let body = vec![assign(2, read(1, 1))];
    let machine = Setup::new(3).run(vec![repeat(Iterations::TooMany, body)]);
    assert!(!machine.complete);
    assert!(machine.written.contains(&2));
}

#[test]
fn a_break_leaves_its_loop() {
    let body = || {
        vec![
            Statement::If {
                condition: read(1, 0),
                yes: vec![Statement::Break],
                no: Vec::new(),
            },
            assign(2, read(2, 1)),
        ]
    };
    let mut machine = Setup::new(3).run(vec![repeat(Iterations::Known(vec![body()]), body())]);
    assert_eq!(sources(&mut machine, 2), keys(&[0, 1]));
}

#[test]
fn a_conditional_expression_depends_on_its_condition() {
    let value = expression(
        1,
        Node::Ternary(Box::new(read(2, 0)), Box::new(read(3, 1)), Box::new(read(4, 2))),
    );
    let mut machine = Setup::new(4).run(vec![assign(3, value)]);
    assert_eq!(sources(&mut machine, 3), keys(&[0, 1, 2]));
    assert_eq!(machine.next_branch, 1);
}

/// A function with argument 2, output 3 and result 4; the body is given.
fn with_function(body: Vec<Statement>) -> Setup {
    let mut setup = Setup::new(7);
    let shape = Some(FormalShape { width: WIDTH, signed: false });
    setup.bodies = vec![body];
    setup.functions = vec![Function {
        formals: vec![Formal { id: 2, shape }, Formal { id: 3, shape }],
        result: Some(4),
        locals: vec![2, 3, 4],
    }];
    setup.locals = vec![2, 3, 4];
    setup.owned.retain(|node| !setup.locals.contains(&node.id));
    setup
}

fn call(actual: Expression, output: u64) -> Call {
    Call {
        callee: 0,
        receiver: Vec::new(),
        inputs: vec![Argument { formal: Some(2), actual }],
        outputs: vec![OutputArgument { formal: Some(3), destinations: vec![access(output)] }],
    }
}

#[test]
fn a_call_passes_arguments_and_copies_outputs() {
    let setup = with_function(vec![assign(3, read(11, 2)), assign(4, read(12, 5))]);
    let value = expression(1, Node::Call(call(read(2, 0), 1)));
    let mut machine = setup.run(vec![assign(6, value)]);
    assert_eq!(sources(&mut machine, 6), keys(&[5]));
    assert_eq!(sources(&mut machine, 1), keys(&[0]));
    assert!(machine.complete);
}

#[test]
fn a_destination_is_selected_once_the_ones_before_it_are_written() {
    let setup = with_function(vec![assign(3, read(11, 2))]);
    let selected = || Access { index: vec![read(21, 1)], ..access(6) };
    let run = |destinations: Vec<Access>| {
        let outputs = vec![OutputArgument { formal: Some(3), destinations }];
        let value = expression(1, Node::Call(Call { outputs, ..call(read(2, 0), 1) }));
        setup.run(vec![assign(5, value)])
    };
    // The first destination takes the upper bits, which are zero, and selects the second.
    let mut after = run(vec![access(1), selected()]);
    assert!(sources(&mut after, 6).contains(&0));
    assert!(!sources(&mut after, 6).contains(&1));
    assert!(!sources(&mut after, 1).contains(&1));
    let mut before = run(vec![selected(), access(1)]);
    assert!(sources(&mut before, 6).contains(&1));
    assert_eq!(sources(&mut before, 1), keys(&[0]));
}

#[test]
fn nothing_of_a_body_counts_behind_its_return() {
    let setup = with_function(vec![assign(4, read(11, 2)), assign(4, read(12, 5))]);
    let value = expression(1, Node::Call(call(read(2, 0), 1)));
    let mut machine = setup.run(vec![assign(6, value)]);
    assert_eq!(sources(&mut machine, 6), keys(&[0]));
}

#[test]
fn a_return_on_a_condition_counts_for_the_result() {
    let setup = with_function(vec![
        Statement::If { condition: read(11, 5), yes: vec![assign(4, read(12, 2))], no: Vec::new() },
        assign(4, read(13, 1)),
    ]);
    let value = expression(1, Node::Call(call(read(2, 0), 6)));
    let mut machine = setup.run(vec![assign(6, value)]);
    assert_eq!(sources(&mut machine, 6), keys(&[0, 1, 5]));
}

#[test]
fn a_statement_before_a_call_is_seen_by_it() {
    let setup = with_function(vec![assign(4, read(11, 2))]);
    let value = expression(2, Node::Call(call(read(3, 1), 1)));
    let mut machine = setup.run(vec![assign(1, read(1, 0)), assign(6, value)]);
    assert_eq!(sources(&mut machine, 6), keys(&[0]));
}

#[test]
fn a_function_that_calls_itself_is_not_known() {
    let setup = with_function(vec![Statement::Call(call(read(11, 2), 1))]);
    let machine = setup.run(vec![Statement::Call(call(read(1, 0), 1))]);
    assert!(!machine.complete);
}

#[test]
fn a_missing_function_is_not_known() {
    let setup = Setup::new(7);
    let machine = setup.run(vec![Statement::Call(call(read(1, 0), 1))]);
    assert!(!machine.complete);
    assert!(machine.written.contains(&1));
}

#[test]
fn an_unsupported_statement_forgets_what_is_owned() {
    let mut machine = Setup::new(3).run(vec![assign(2, read(1, 0)), Statement::Unsupported]);
    assert!(!machine.complete);
    assert_eq!(sources(&mut machine, 2), keys(&[]));
}

#[test]
fn an_analysis_gives_the_graph_of_what_is_written() {
    let setup = Setup::new(3);
    let statements = vec![assign(1, read(1, 0)), assign(2, read(2, 1))];
    let (found, _) = analyze(&setup.program(), &statements, 0, PathArena::new());
    let found = found.expect("all numbers fit");
    assert!(found.complete);
    assert_eq!(found.graph.keys, vec![0]);
    let written: Vec<u64> = found.graph.writes.iter().map(|write| write.key).collect();
    assert_eq!(written, vec![1, 2]);
}

#[test]
fn no_branch_number_is_noted() {
    let setup = Setup::new(3);
    let mut machine = begin(&setup.program(), 0, PathArena::new());
    machine.next_branch = usize::MAX;
    let statements = vec![Statement::If {
        condition: read(1, 0),
        yes: vec![assign(2, read(2, 1))],
        no: Vec::new(),
    }];
    machine.eval_block(&setup.program(), 0, &statements, &Vec::new());
    assert!(!machine.fits);
    assert_eq!(sources(&mut machine, 2), keys(&[0, 1]));
}

/// A loop to a bound that is read from a variable.
fn repeat_until(bound: Expression, body: Vec<Statement>) -> Statement {
    Statement::For {
        bounds: vec![bound],
        body,
        range: ForRange {
            start: ForBound::Constant(0),
            end: ForBound::Expression {
                expression: IndexExpression::Variable(0),
                value: None,
                versions: Vec::new(),
            },
            inclusive: false,
        },
        iterations: Iterations::Runtime(50),
    }
}

#[test]
fn iterations_that_are_not_known_reach_through_each_other() {
    let body = vec![assign(2, read(1, 1)), assign(1, read(2, 0)), assign(3, read(3, 2))];
    let mut machine = Setup::new(4).run(vec![repeat(Iterations::Runtime(50), body)]);
    assert_eq!(sources(&mut machine, 3), keys(&[0, 1]));
    assert!(machine.complete);
    assert_eq!(machine.next_branch, 0);
    assert!(machine.loops.is_empty());
}

#[test]
fn a_loop_that_may_be_passed_over_keeps_what_was_there() {
    let body = || vec![assign(2, read(11, 1))];
    let mut machine =
        Setup::new(5).run(vec![repeat_until(read(10, 0), body()), assign(3, read(12, 2))]);
    assert!(sources(&mut machine, 3).contains(&1));
    assert!(sources(&mut machine, 3).contains(&2));
    assert_eq!(machine.next_branch, 1);
    assert!(machine.complete);
    let mut machine =
        Setup::new(5).run(vec![repeat(Iterations::Runtime(50), body()), assign(3, read(12, 2))]);
    assert_eq!(sources(&mut machine, 3), keys(&[1]));
}

#[test]
fn a_break_leaves_a_loop_whose_iterations_are_not_known() {
    let body = vec![
        assign(2, read(11, 1)),
        Statement::If { condition: read(12, 0), yes: vec![Statement::Break], no: Vec::new() },
        assign(2, read(13, 4)),
    ];
    let mut machine =
        Setup::new(5).run(vec![repeat(Iterations::Runtime(50), body), assign(3, read(14, 2))]);
    let found = sources(&mut machine, 3);
    assert!(found.contains(&1));
    assert!(found.contains(&4));
    assert!(!found.contains(&2));
}

#[test]
fn a_return_out_of_such_a_loop_counts_for_the_result() {
    let setup = with_function(vec![
        repeat(
            Iterations::Runtime(50),
            vec![Statement::If {
                condition: read(11, 5),
                yes: vec![assign(4, read(12, 2))],
                no: Vec::new(),
            }],
        ),
        assign(4, read(13, 1)),
    ]);
    let value = expression(1, Node::Call(call(read(2, 0), 6)));
    let mut machine = setup.run(vec![assign(6, value)]);
    assert_eq!(sources(&mut machine, 6), keys(&[0, 1, 5]));
    assert!(machine.store.active_revisions.is_empty());
}

#[test]
fn conditions_that_are_written_alike_decide_alike() {
    let leave = |occurrence: usize| Statement::If {
        condition: read(occurrence, 5),
        yes: vec![assign(4, read(occurrence + 1, 2))],
        no: Vec::new(),
    };
    let body = |first: Statement, second: Statement| {
        vec![
            Statement::If { condition: read(20, 6), yes: vec![first], no: vec![second] },
            assign(1, read(30, 0)),
            assign(4, read(31, 1)),
        ]
    };
    let run = |statements: Vec<Statement>| {
        let setup = with_function(statements);
        let value = expression(1, Node::Call(call(read(2, 0), 6)));
        let mut machine = setup.run(vec![assign(6, value)]);
        sources(&mut machine, 1)
    };
    assert_eq!(run(body(leave(40), leave(50))), keys(&[0, 5]));
    let other = Statement::If {
        condition: read(50, 0),
        yes: vec![assign(4, read(51, 2))],
        no: Vec::new(),
    };
    assert_eq!(run(body(leave(40), other)), keys(&[0, 5, 6]));
}

#[test]
fn what_is_written_twice_has_one_root() {
    let setup = Setup::new(4);
    let statements = vec![assign(3, read(1, 0)), assign(1, read(2, 0)), assign(3, read(3, 2))];
    let (found, _) = analyze(&setup.program(), &statements, 0, PathArena::new());
    let graph = found.expect("all numbers fit").graph;
    let written: Vec<u64> = graph.writes.iter().map(|write| write.key).collect();
    assert_eq!(written, vec![1, 3]);
}
