//! What stands in a statement, at any depth, and that exactly this is collected.
use vstd::prelude::*;
use crate::collect;
use crate::collect::{Found, ModuleAccesses};
use crate::ir::{Access, Argument, Call, CaseArm, Expression, Node, Operand, OutputArgument, Pattern, Region, Statement, SystemCall};
use crate::partition;
use crate::partition::{BitPartition, NodeKey, RegionAccess};

verus! {

/// A part of a program.
pub enum Term {
    Statement(Statement),
    Expression(Expression),
    Access(Access),
    Call(Call),
    System(SystemCall),
}

/// A value, or the number of its repetitions, is written in the operand.
pub open spec fn operand_has(operand: Operand, e: Expression) -> bool {
    e == operand.value || operand.repeat == Some(e)
}

/// The expression is written in the pattern.
pub open spec fn pattern_has(pattern: Pattern, e: Expression) -> bool {
    match pattern {
        Pattern::Equal(value) => e == value,
        Pattern::Range { low, high, inclusive } => e == low || e == high,
    }
}

pub open spec fn some_operand_has(operands: Seq<Operand>, e: Expression) -> bool {
    exists|i: int| 0 <= i < operands.len() && operand_has(#[trigger] operands[i], e)
}

pub open spec fn some_pattern_has(patterns: Seq<Pattern>, e: Expression) -> bool {
    exists|i: int| 0 <= i < patterns.len() && pattern_has(#[trigger] patterns[i], e)
}

pub open spec fn some_arm_asks(arms: Seq<CaseArm>, e: Expression) -> bool {
    exists|i: int| 0 <= i < arms.len() && some_pattern_has((#[trigger] arms[i]).patterns@, e)
}

pub open spec fn some_arm_runs(arms: Seq<CaseArm>, s: Statement) -> bool {
    exists|i: int| 0 <= i < arms.len() && (#[trigger] arms[i]).body@.contains(s)
}

pub open spec fn some_input_is(inputs: Seq<Argument>, e: Expression) -> bool {
    exists|i: int| 0 <= i < inputs.len() && (#[trigger] inputs[i]).actual == e
}

pub open spec fn some_output_is(outputs: Seq<OutputArgument>, a: Access) -> bool {
    exists|i: int| 0 <= i < outputs.len() && (#[trigger] outputs[i]).destinations@.contains(a)
}

/// The statement is the next one down: on either side of a condition, in an arm, in a body.
pub open spec fn statement_in(statement: Statement, s: Statement) -> bool {
    match statement {
        Statement::If { condition, yes, no } => yes@.contains(s) || no@.contains(s),
        Statement::IfReset { yes, no } => yes@.contains(s) || no@.contains(s),
        Statement::Case { target, arms, otherwise, facts } => some_arm_runs(arms@, s)
            || otherwise@.contains(s),
        Statement::For { bounds, body, range, iterations } => body@.contains(s),
        _ => false,
    }
}

/// The expression is written in the statement, and not in another one within it.
pub open spec fn expression_in(statement: Statement, e: Expression) -> bool {
    match statement {
        Statement::Assign { destinations, value } => e == value,
        Statement::If { condition, yes, no } => e == condition,
        Statement::Case { target, arms, otherwise, facts } => e == target || some_arm_asks(arms@, e),
        Statement::For { bounds, body, range, iterations } => bounds@.contains(e),
        _ => false,
    }
}

/// The expression is an operand of the other one.
pub open spec fn operand_of(expression: Expression, e: Expression) -> bool {
    match expression.node {
        Node::Unary(_, operand) => e == *operand,
        Node::Binary(left, _, right) => e == *left || e == *right,
        Node::Ternary(condition, yes, no) => e == *condition || e == *yes || e == *no,
        Node::Concatenation(operands) => some_operand_has(operands@, e),
        Node::ArrayLiteral(operands) => some_operand_has(operands@, e),
        Node::Struct(operands) => some_operand_has(operands@, e),
        _ => false,
    }
}

/// `part` is an immediate part of `whole`. Without `reads`, what is only read is passed over: the
/// variable of an operand, though not its coordinates, and the receiver of a call.
pub open spec fn part_of(reads: bool, part: Term, whole: Term) -> bool {
    match whole {
        Term::Statement(statement) => match part {
            Term::Statement(s) => statement_in(statement, s),
            Term::Expression(e) => expression_in(statement, e),
            Term::Access(a) => statement matches Statement::Assign { destinations, value } && destinations@.contains(a),
            Term::Call(c) => statement == Statement::Call(c),
            Term::System(c) => statement == Statement::System(c),
        },
        Term::Expression(expression) => match part {
            Term::Statement(s) => false,
            Term::Expression(e) => operand_of(expression, e) || match expression.node {
                Node::Hierarchical(coordinates) => reads && coordinates@.contains(e),
                Node::Variable(access) => !reads && (access.index@.contains(e)
                    || access.select@.contains(e)),
                _ => false,
            },
            Term::Access(a) => reads && expression.node == Node::Variable(a),
            Term::Call(c) => expression.node == Node::Call(c),
            Term::System(c) => expression.node == Node::System(c),
        },
        Term::Access(access) => match part {
            Term::Expression(e) => access.index@.contains(e) || access.select@.contains(e),
            _ => false,
        },
        Term::Call(call) => match part {
            Term::Expression(e) => (reads && call.receiver@.contains(e)) || some_input_is(call.inputs@, e),
            Term::Access(a) => some_output_is(call.outputs@, a),
            _ => false,
        },
        Term::System(call) => match part {
            Term::Expression(e) => call.inputs@.contains(e),
            Term::Access(a) => call.outputs@.contains(a),
            _ => false,
        },
    }
}

pub open spec fn next_part(reads: bool, chain: Seq<Term>, i: int) -> bool {
    part_of(reads, chain[i + 1], chain[i])
}

/// Each term of the chain is an immediate part of the one before.
pub open spec fn leads_down(reads: bool, chain: Seq<Term>, whole: Term, part: Term) -> bool {
    &&& chain.len() > 0
    &&& chain[0] == whole
    &&& chain.last() == part
    &&& forall|i: int| 0 <= i < chain.len() - 1 ==> #[trigger] next_part(reads, chain, i)
}

/// `part` is `whole`, or a part of a part of it, at any depth.
pub open spec fn stands_in(reads: bool, part: Term, whole: Term) -> bool {
    exists|chain: Seq<Term>| leads_down(reads, chain, whole, part)
}

/// `part` stands in a statement of the block.
pub open spec fn stands_in_block(reads: bool, part: Term, block: Seq<Statement>) -> bool {
    exists|i: int| 0 <= i < block.len() && stands_in(reads, part, Term::Statement(#[trigger] block[i]))
}

/// What is collected of a term.
spec fn found(reads: bool, term: Term) -> Found {
    match term {
        Term::Statement(s) => collect::statement_found(reads, s),
        Term::Expression(e) => collect::expression_found(reads, e),
        Term::Access(a) => collect::access_found(reads, a),
        Term::Call(c) => collect::call_found(reads, c),
        Term::System(c) => collect::system_found(reads, c),
    }
}

spec fn holds(a: Found, b: Found) -> bool {
    a.accesses.subset_of(b.accesses) && a.callees.subset_of(b.callees)
}

proof fn lemma_expressions_hold(reads: bool, list: Seq<Expression>, e: Expression)
    requires
        list.contains(e),
    ensures
        holds(collect::expression_found(reads, e), collect::expressions_found(reads, list)),
    decreases list.len(),
{
    if e != list.last() {
        let k = choose|k: int| 0 <= k < list.len() && list[k] == e;
        assert(list.drop_last()[k] == e);
        lemma_expressions_hold(reads, list.drop_last(), e);
    }
}

proof fn lemma_accesses_hold(reads: bool, list: Seq<Access>, a: Access)
    requires
        list.contains(a),
    ensures
        holds(collect::access_found(reads, a), collect::accesses_found(reads, list)),
    decreases list.len(),
{
    if a != list.last() {
        let k = choose|k: int| 0 <= k < list.len() && list[k] == a;
        assert(list.drop_last()[k] == a);
        lemma_accesses_hold(reads, list.drop_last(), a);
    }
}

proof fn lemma_operands_hold(reads: bool, list: Seq<Operand>, e: Expression)
    requires
        some_operand_has(list, e),
    ensures
        holds(collect::expression_found(reads, e), collect::operands_found(reads, list)),
    decreases list.len(),
{
    if operand_has(list.last(), e) {
        assert(holds(collect::expression_found(reads, e), collect::operand_found(reads, list.last())));
    } else {
        let k = choose|k: int| 0 <= k < list.len() && operand_has(#[trigger] list[k], e);
        assert(operand_has(list.drop_last()[k], e));
        lemma_operands_hold(reads, list.drop_last(), e);
    }
}

proof fn lemma_inputs_hold(reads: bool, list: Seq<Argument>, e: Expression)
    requires
        some_input_is(list, e),
    ensures
        holds(collect::expression_found(reads, e), collect::arguments_found(reads, list)),
    decreases list.len(),
{
    if list.last().actual != e {
        let k = choose|k: int| 0 <= k < list.len() && (#[trigger] list[k]).actual == e;
        assert(list.drop_last()[k].actual == e);
        lemma_inputs_hold(reads, list.drop_last(), e);
    }
}

proof fn lemma_outputs_hold(reads: bool, list: Seq<OutputArgument>, a: Access)
    requires
        some_output_is(list, a),
    ensures
        holds(collect::access_found(reads, a), collect::outputs_found(reads, list)),
    decreases list.len(),
{
    if list.last().destinations@.contains(a) {
        lemma_accesses_hold(reads, list.last().destinations@, a);
    } else {
        let k = choose|k: int| 0 <= k < list.len() && (#[trigger] list[k]).destinations@.contains(a);
        assert(list.drop_last()[k].destinations@.contains(a));
        lemma_outputs_hold(reads, list.drop_last(), a);
    }
}

proof fn lemma_patterns_hold(reads: bool, list: Seq<Pattern>, e: Expression)
    requires
        some_pattern_has(list, e),
    ensures
        holds(collect::expression_found(reads, e), collect::patterns_found(reads, list)),
    decreases list.len(),
{
    if !pattern_has(list.last(), e) {
        let k = choose|k: int| 0 <= k < list.len() && pattern_has(#[trigger] list[k], e);
        assert(pattern_has(list.drop_last()[k], e));
        lemma_patterns_hold(reads, list.drop_last(), e);
    }
}

proof fn lemma_statements_hold(reads: bool, list: Seq<Statement>, s: Statement)
    requires
        list.contains(s),
    ensures
        holds(collect::statement_found(reads, s), collect::statements_found(reads, list)),
    decreases list.len(),
{
    if s != list.last() {
        let k = choose|k: int| 0 <= k < list.len() && list[k] == s;
        assert(list.drop_last()[k] == s);
        lemma_statements_hold(reads, list.drop_last(), s);
    }
}

proof fn lemma_arms_ask(reads: bool, list: Seq<CaseArm>, e: Expression)
    requires
        some_arm_asks(list, e),
    ensures
        holds(collect::expression_found(reads, e), collect::arms_found(reads, list)),
    decreases list.len(),
{
    if some_pattern_has(list.last().patterns@, e) {
        lemma_patterns_hold(reads, list.last().patterns@, e);
    } else {
        let k = choose|k: int| 0 <= k < list.len() && some_pattern_has((#[trigger] list[k]).patterns@, e);
        assert(some_pattern_has(list.drop_last()[k].patterns@, e));
        lemma_arms_ask(reads, list.drop_last(), e);
    }
}

proof fn lemma_arms_run(reads: bool, list: Seq<CaseArm>, s: Statement)
    requires
        some_arm_runs(list, s),
    ensures
        holds(collect::statement_found(reads, s), collect::arms_found(reads, list)),
    decreases list.len(),
{
    if list.last().body@.contains(s) {
        lemma_statements_hold(reads, list.last().body@, s);
    } else {
        let k = choose|k: int| 0 <= k < list.len() && (#[trigger] list[k]).body@.contains(s);
        assert(list.drop_last()[k].body@.contains(s));
        lemma_arms_run(reads, list.drop_last(), s);
    }
}

proof fn lemma_statement_parts(reads: bool, statement: Statement, part: Term)
    requires
        part_of(reads, part, Term::Statement(statement)),
    ensures
        holds(found(reads, part), collect::statement_found(reads, statement)),
{
    match part {
        Term::Statement(s) => match statement {
            Statement::If { condition, yes, no } => {
                if yes@.contains(s) {
                    lemma_statements_hold(reads, yes@, s);
                } else {
                    lemma_statements_hold(reads, no@, s);
                }
            },
            Statement::IfReset { yes, no } => {
                if yes@.contains(s) {
                    lemma_statements_hold(reads, yes@, s);
                } else {
                    lemma_statements_hold(reads, no@, s);
                }
            },
            Statement::Case { target, arms, otherwise, facts } => {
                if otherwise@.contains(s) {
                    lemma_statements_hold(reads, otherwise@, s);
                } else {
                    lemma_arms_run(reads, arms@, s);
                }
            },
            Statement::For { bounds, body, range, iterations } => {
                lemma_statements_hold(reads, body@, s);
            },
            _ => {},
        },
        Term::Expression(e) => match statement {
            Statement::Case { target, arms, otherwise, facts } => {
                if e != target {
                    lemma_arms_ask(reads, arms@, e);
                }
            },
            Statement::For { bounds, body, range, iterations } => {
                lemma_expressions_hold(reads, bounds@, e);
            },
            _ => {},
        },
        Term::Access(a) => {
            if let Statement::Assign { destinations, value } = statement {
                lemma_accesses_hold(reads, destinations@, a);
            }
        },
        _ => {},
    }
}

proof fn lemma_expression_parts(reads: bool, expression: Expression, part: Term)
    requires
        part_of(reads, part, Term::Expression(expression)),
    ensures
        holds(found(reads, part), collect::expression_found(reads, expression)),
{
    if let Term::Expression(e) = part {
        match expression.node {
            Node::Variable(access) => {
                if access.index@.contains(e) {
                    lemma_expressions_hold(reads, access.index@, e);
                } else {
                    lemma_expressions_hold(reads, access.select@, e);
                }
            },
            Node::Hierarchical(coordinates) => {
                lemma_expressions_hold(reads, coordinates@, e);
            },
            Node::Concatenation(operands) => {
                lemma_operands_hold(reads, operands@, e);
            },
            Node::ArrayLiteral(operands) => {
                lemma_operands_hold(reads, operands@, e);
            },
            Node::Struct(operands) => {
                lemma_operands_hold(reads, operands@, e);
            },
            _ => {},
        }
    }
}

proof fn lemma_part(reads: bool, part: Term, whole: Term)
    requires
        part_of(reads, part, whole),
    ensures
        holds(found(reads, part), found(reads, whole)),
{
    match whole {
        Term::Statement(statement) => {
            lemma_statement_parts(reads, statement, part);
        },
        Term::Expression(expression) => {
            lemma_expression_parts(reads, expression, part);
        },
        Term::Access(access) => {
            if let Term::Expression(e) = part {
                if access.index@.contains(e) {
                    lemma_expressions_hold(reads, access.index@, e);
                } else {
                    lemma_expressions_hold(reads, access.select@, e);
                }
            }
        },
        Term::Call(call) => {
            if let Term::Expression(e) = part {
                if some_input_is(call.inputs@, e) {
                    lemma_inputs_hold(reads, call.inputs@, e);
                } else {
                    lemma_expressions_hold(reads, call.receiver@, e);
                }
            } else if let Term::Access(a) = part {
                lemma_outputs_hold(reads, call.outputs@, a);
            }
        },
        Term::System(call) => {
            if let Term::Expression(e) = part {
                lemma_expressions_hold(reads, call.inputs@, e);
            } else if let Term::Access(a) = part {
                lemma_accesses_hold(reads, call.outputs@, a);
            }
        },
    }
}

proof fn lemma_down(reads: bool, chain: Seq<Term>, whole: Term, part: Term)
    requires
        leads_down(reads, chain, whole, part),
    ensures
        holds(found(reads, part), found(reads, whole)),
    decreases chain.len(),
{
    if chain.len() > 1 {
        let shorter = chain.drop_last();
        let above = shorter.last();
        assert forall|i: int| 0 <= i < shorter.len() - 1 implies #[trigger] next_part(reads, shorter, i) by {
            assert(next_part(reads, chain, i));
        }
        lemma_down(reads, shorter, whole, above);
        assert(next_part(reads, chain, chain.len() - 2));
        lemma_part(reads, part, above);
    }
}

/// Every region of every access that stands anywhere in a block (on any side of a condition, in any
/// arm or body, in any operand, coordinate or argument) is among the accesses collected of the
/// block, and so is every function called there.
pub proof fn whatever_stands_in_a_block_is_collected(reads: bool, block: Seq<Statement>)
    ensures
        forall|access: Access, region: Region| #[trigger]
            stands_in_block(reads, Term::Access(access), block) && #[trigger] access.regions@.contains(
                region,
            ) ==> collect::statements_found(reads, block).accesses.contains(
                RegionAccess { id: access.id, array: region.array, packed: region.packed },
            ),
        forall|call: Call| #[trigger]
            stands_in_block(reads, Term::Call(call), block) ==> collect::statements_found(
                reads,
                block,
            ).callees.contains(call.callee),
{
    assert forall|term: Term| #[trigger] stands_in_block(reads, term, block) implies holds(
        found(reads, term),
        collect::statements_found(reads, block),
    ) by {
        let i = choose|i: int| 0 <= i < block.len() && stands_in(reads, term, Term::Statement(#[trigger] block[i]));
        let whole = Term::Statement(block[i]);
        let chain = choose|chain: Seq<Term>| leads_down(reads, chain, whole, term);
        lemma_down(reads, chain, whole, term);
        lemma_statements_hold(reads, block, block[i]);
    }
    assert forall|access: Access, region: Region| #[trigger]
        stands_in_block(reads, Term::Access(access), block) && #[trigger] access.regions@.contains(
            region,
        ) implies collect::statements_found(reads, block).accesses.contains(
        RegionAccess { id: access.id, array: region.array, packed: region.packed },
    ) by {
        let a = RegionAccess { id: access.id, array: region.array, packed: region.packed };
        assert(region == Region { array: a.array, packed: a.packed });
        assert(collect::own_accesses(access).accesses.contains(a));
        assert(found(reads, Term::Access(access)).accesses.contains(a));
    }
    assert forall|call: Call| #[trigger] stands_in_block(reads, Term::Call(call), block) implies collect::statements_found(
        reads,
        block,
    ).callees.contains(call.callee) by {
        assert(found(reads, Term::Call(call)).callees.contains(call.callee));
    }
}

/// Blocks of which each calls the next, the first being one of a procedure of the module.
pub open spec fn calls_down(module: ModuleAccesses, chain: Seq<Seq<Statement>>, callees: Seq<u64>) -> bool {
    &&& chain.len() > 0
    &&& callees.len() == chain.len() - 1
    &&& exists|i: int| 0 <= i < module.procedures@.len() && (#[trigger] module.procedures@[i])@ == chain[0]
    &&& forall|k: int| 0 <= k < callees.len() ==> #[trigger] calls_block(module, chain, callees, k)
}

/// A call of function number `callees[k]` stands in block `k`, and the next block is its body.
pub open spec fn calls_block(module: ModuleAccesses, chain: Seq<Seq<Statement>>, callees: Seq<u64>, k: int) -> bool {
    &&& callees[k] < module.bodies@.len()
    &&& chain[k + 1] == module.bodies@[callees[k] as int]@
    &&& exists|call: Call| #[trigger] stands_in_block(true, Term::Call(call), chain[k]) && call.callee == callees[k]
}

proof fn lemma_blocks_hold(list: Seq<Vec<Statement>>, i: int)
    requires
        0 <= i < list.len(),
    ensures
        holds(collect::statements_found(true, list[i]@), collect::blocks_found(list)),
    decreases list.len(),
{
    if i < list.len() - 1 {
        assert(list.drop_last()[i] == list[i]);
        lemma_blocks_hold(list.drop_last(), i);
    }
}

proof fn lemma_calls_down(module: ModuleAccesses, chain: Seq<Seq<Statement>>, callees: Seq<u64>, k: int)
    requires
        calls_down(module, chain, callees),
        0 <= k < chain.len(),
    ensures
        k == 0 ==> holds(collect::statements_found(true, chain[0]), collect::module_found(module)),
        k > 0 ==> collect::called(true, module.bodies@, collect::module_found(module).callees, callees[k - 1]),
    decreases k,
{
    let roots = collect::module_found(module).callees;
    if k == 0 {
        let i = choose|i: int| 0 <= i < module.procedures@.len() && (#[trigger] module.procedures@[i])@ == chain[0];
        lemma_blocks_hold(module.procedures@, i);
    } else {
        lemma_calls_down(module, chain, callees, k - 1);
        assert(calls_block(module, chain, callees, k - 1));
        let call = choose|call: Call| #[trigger] stands_in_block(true, Term::Call(call), chain[k - 1]) && call.callee == callees[k - 1];
        whatever_stands_in_a_block_is_collected(true, chain[k - 1]);
        assert(collect::statements_found(true, chain[k - 1]).callees.contains(call.callee));
        if k == 1 {
            let one = seq![callees[0]];
            assert(collect::is_chain(true, module.bodies@, roots, one));
            assert(one.last() == callees[0]);
        } else {
            assert(calls_block(module, chain, callees, k - 2));
            assert(collect::calls(true, module.bodies@, callees[k - 2], callees[k - 1]));
            collect::lemma_called_step(true, module.bodies@, roots, callees[k - 2], callees[k - 1]);
        }
    }
}

/// Every access that stands in a procedure of the module, or in a function that is called from one,
/// over any number of calls, is among the accesses of the module.
pub proof fn whatever_a_module_runs_is_collected(
    module: ModuleAccesses,
    chain: Seq<Seq<Statement>>,
    callees: Seq<u64>,
    access: Access,
    region: Region,
)
    requires
        calls_down(module, chain, callees),
        stands_in_block(true, Term::Access(access), chain.last()),
        access.regions@.contains(region),
    ensures
        collect::module_accesses(module).contains(RegionAccess { id: access.id, array: region.array, packed: region.packed }),
{
    let k = chain.len() - 1;
    lemma_calls_down(module, chain, callees, k);
    whatever_stands_in_a_block_is_collected(true, chain.last());
    let a = RegionAccess { id: access.id, array: region.array, packed: region.packed };
    assert(collect::statements_found(true, chain.last()).accesses.contains(a));
    if k > 0 {
        assert(calls_block(module, chain, callees, k - 1));
        let callee = callees[k - 1];
        assert(callee < module.bodies@.len() && collect::called(true, module.bodies@, collect::module_found(module).callees, callee)
            && collect::statements_found(true, module.bodies@[callee as int]@).accesses.contains(a));
    }
}

/// The bodies of the functions as they are declared are collected, whether they are called or not.
pub proof fn whatever_is_declared_is_collected(module: ModuleAccesses, i: int, access: Access, region: Region)
    requires
        0 <= i < module.declared@.len(),
        stands_in_block(true, Term::Access(access), module.declared@[i]@),
        access.regions@.contains(region),
    ensures
        collect::module_accesses(module).contains(RegionAccess { id: access.id, array: region.array, packed: region.packed }),
{
    whatever_stands_in_a_block_is_collected(true, module.declared@[i]@);
    lemma_blocks_hold(module.declared@, i);
}

/// What stands in the connection of a port that is not a range is collected.
pub proof fn whatever_is_connected_is_collected(module: ModuleAccesses, i: int, whole: Term, access: Access, region: Region)
    requires
        0 <= i < module.connections@.len(),
        module.connections@[i].range is None,
        match whole {
            Term::Expression(e) => module.connections@[i].inputs@.contains(e),
            Term::Access(a) => module.connections@[i].outputs@.contains(a),
            _ => false,
        },
        stands_in(true, Term::Access(access), whole),
        access.regions@.contains(region),
    ensures
        collect::module_accesses(module).contains(RegionAccess { id: access.id, array: region.array, packed: region.packed }),
{
    let a = RegionAccess { id: access.id, array: region.array, packed: region.packed };
    let part = Term::Access(access);
    let chain = choose|chain: Seq<Term>| leads_down(true, chain, whole, part);
    lemma_down(true, chain, whole, part);
    assert(region == Region { array: a.array, packed: a.packed });
    assert(collect::own_accesses(access).accesses.contains(a));
    assert(found(true, part).accesses.contains(a));
    let connection = module.connections@[i];
    match whole {
        Term::Expression(e) => {
            lemma_expressions_hold(true, connection.inputs@, e);
        },
        Term::Access(x) => {
            lemma_accesses_hold(true, connection.outputs@, x);
        },
        _ => {},
    }
    assert(collect::connection_found(connection).accesses.contains(a));
    lemma_connections_hold(module.connections@, i);
}

proof fn lemma_connections_hold(list: Seq<collect::Connection>, i: int)
    requires
        0 <= i < list.len(),
    ensures
        holds(collect::connection_found(list[i]), collect::connections_found(list)),
    decreases list.len(),
{
    if i < list.len() - 1 {
        assert(list.drop_last()[i] == list[i]);
        lemma_connections_hold(list.drop_last(), i);
    }
}

/// A module's variables are split along every access that it makes anywhere: the bits of each region
/// are exactly those of the nodes that the access touches, so that no node holds a bit that the access
/// has beside one that it does not have, and every bit lies in a node.
pub proof fn every_access_splits_its_variable(
    module: ModuleAccesses,
    partition: BitPartition,
    accesses: Seq<RegionAccess>,
    chain: Seq<Seq<Statement>>,
    callees: Seq<u64>,
    access: Access,
    region: Region,
    element: int,
    bit: int,
)
    requires
        forall|a: RegionAccess| #[trigger] accesses.contains(a) <==> collect::module_accesses(module).contains(a),
        partition::splits(accesses, Map::empty(), partition.regions@),
        calls_down(module, chain, callees),
        stands_in_block(true, Term::Access(access), chain.last()),
        access.regions@.contains(region),
        region.array.length > 0,
        region.array.bounded(),
    ensures
        region.array.has(element) && region.packed.has(bit) <==> exists|key: NodeKey|
            partition.selects(access.id, region.array, region.packed, key) && #[trigger] partition.node_has(key, element, bit),
{
    whatever_a_module_runs_is_collected(module, chain, callees, access, region);
    let a = RegionAccess { id: access.id, array: region.array, packed: region.packed };
    assert(accesses.contains(a));
    partition::access_is_a_union_of_nodes(accesses, Map::empty(), partition, a, element, bit);
}

/// The access to a region comes from an access that stands in the term.
pub open spec fn comes_from(reads: bool, whole: Term, a: RegionAccess) -> bool {
    exists|access: Access| #[trigger]
        stands_in(reads, Term::Access(access), whole) && a.id == access.id && access.regions@.contains(Region { array: a.array, packed: a.packed })
}

proof fn lemma_comes_up(reads: bool, part: Term, whole: Term, a: RegionAccess)
    requires
        part_of(reads, part, whole),
        comes_from(reads, part, a),
    ensures
        comes_from(reads, whole, a),
{
    let access = choose|access: Access| #[trigger]
        stands_in(reads, Term::Access(access), part) && a.id == access.id && access.regions@.contains(Region { array: a.array, packed: a.packed });
    let end = Term::Access(access);
    let chain = choose|chain: Seq<Term>| leads_down(reads, chain, part, end);
    let longer = seq![whole] + chain;
    assert forall|i: int| 0 <= i < longer.len() - 1 implies #[trigger] next_part(reads, longer, i) by {
        if i > 0 {
            assert(next_part(reads, chain, i - 1));
        }
    }
    assert(longer.last() == end);
    assert(leads_down(reads, longer, whole, end));
    assert(stands_in(reads, Term::Access(access), whole));
}

proof fn lemma_comes_itself(reads: bool, access: Access, a: RegionAccess)
    requires
        collect::own_accesses(access).accesses.contains(a),
    ensures
        comes_from(reads, Term::Access(access), a),
{
    let end = Term::Access(access);
    let chain = seq![end];
    assert(leads_down(reads, chain, end, end));
    assert(stands_in(reads, end, end));
}

proof fn lemma_from_expressions(reads: bool, list: Seq<Expression>, a: RegionAccess) -> (i: int)
    requires
        collect::expressions_found(reads, list).accesses.contains(a),
    ensures
        0 <= i < list.len(),
        collect::expression_found(reads, list[i]).accesses.contains(a),
    decreases list.len(),
{
    if collect::expression_found(reads, list.last()).accesses.contains(a) && list.len() > 0 {
        list.len() - 1
    } else {
        let i = lemma_from_expressions(reads, list.drop_last(), a);
        assert(list.drop_last()[i] == list[i]);
        i
    }
}

proof fn lemma_from_accesses(reads: bool, list: Seq<Access>, a: RegionAccess) -> (i: int)
    requires
        collect::accesses_found(reads, list).accesses.contains(a),
    ensures
        0 <= i < list.len(),
        collect::access_found(reads, list[i]).accesses.contains(a),
    decreases list.len(),
{
    if collect::access_found(reads, list.last()).accesses.contains(a) && list.len() > 0 {
        list.len() - 1
    } else {
        let i = lemma_from_accesses(reads, list.drop_last(), a);
        assert(list.drop_last()[i] == list[i]);
        i
    }
}

proof fn lemma_from_operands(reads: bool, list: Seq<Operand>, a: RegionAccess) -> (i: int)
    requires
        collect::operands_found(reads, list).accesses.contains(a),
    ensures
        0 <= i < list.len(),
        collect::operand_found(reads, list[i]).accesses.contains(a),
    decreases list.len(),
{
    if collect::operand_found(reads, list.last()).accesses.contains(a) && list.len() > 0 {
        list.len() - 1
    } else {
        let i = lemma_from_operands(reads, list.drop_last(), a);
        assert(list.drop_last()[i] == list[i]);
        i
    }
}

proof fn lemma_from_inputs(reads: bool, list: Seq<Argument>, a: RegionAccess) -> (i: int)
    requires
        collect::arguments_found(reads, list).accesses.contains(a),
    ensures
        0 <= i < list.len(),
        collect::expression_found(reads, list[i].actual).accesses.contains(a),
    decreases list.len(),
{
    if collect::expression_found(reads, list.last().actual).accesses.contains(a) && list.len() > 0 {
        list.len() - 1
    } else {
        let i = lemma_from_inputs(reads, list.drop_last(), a);
        assert(list.drop_last()[i] == list[i]);
        i
    }
}

proof fn lemma_from_outputs(reads: bool, list: Seq<OutputArgument>, a: RegionAccess) -> (i: int)
    requires
        collect::outputs_found(reads, list).accesses.contains(a),
    ensures
        0 <= i < list.len(),
        collect::accesses_found(reads, list[i].destinations@).accesses.contains(a),
    decreases list.len(),
{
    if collect::accesses_found(reads, list.last().destinations@).accesses.contains(a) && list.len() > 0 {
        list.len() - 1
    } else {
        let i = lemma_from_outputs(reads, list.drop_last(), a);
        assert(list.drop_last()[i] == list[i]);
        i
    }
}

proof fn lemma_from_patterns(reads: bool, list: Seq<Pattern>, a: RegionAccess) -> (i: int)
    requires
        collect::patterns_found(reads, list).accesses.contains(a),
    ensures
        0 <= i < list.len(),
        collect::pattern_found(reads, list[i]).accesses.contains(a),
    decreases list.len(),
{
    if collect::pattern_found(reads, list.last()).accesses.contains(a) && list.len() > 0 {
        list.len() - 1
    } else {
        let i = lemma_from_patterns(reads, list.drop_last(), a);
        assert(list.drop_last()[i] == list[i]);
        i
    }
}

proof fn lemma_from_statements(reads: bool, list: Seq<Statement>, a: RegionAccess) -> (i: int)
    requires
        collect::statements_found(reads, list).accesses.contains(a),
    ensures
        0 <= i < list.len(),
        collect::statement_found(reads, list[i]).accesses.contains(a),
    decreases list.len(),
{
    if collect::statement_found(reads, list.last()).accesses.contains(a) && list.len() > 0 {
        list.len() - 1
    } else {
        let i = lemma_from_statements(reads, list.drop_last(), a);
        assert(list.drop_last()[i] == list[i]);
        i
    }
}

proof fn lemma_from_arms(reads: bool, list: Seq<CaseArm>, a: RegionAccess) -> (i: int)
    requires
        collect::arms_found(reads, list).accesses.contains(a),
    ensures
        0 <= i < list.len(),
        collect::patterns_found(reads, list[i].patterns@).accesses.contains(a) || collect::statements_found(reads, list[i].body@).accesses.contains(a),
    decreases list.len(),
{
    if list.len() > 0 && (collect::patterns_found(reads, list.last().patterns@).accesses.contains(a) || collect::statements_found(
        reads,
        list.last().body@,
    ).accesses.contains(a)) {
        list.len() - 1
    } else {
        let i = lemma_from_arms(reads, list.drop_last(), a);
        assert(list.drop_last()[i] == list[i]);
        i
    }
}

/// What the coordinates of an access hold.
proof fn lemma_trace_list(reads: bool, list: Seq<Expression>, whole: Term, a: RegionAccess)
    requires
        collect::expressions_found(reads, list).accesses.contains(a),
        forall|e: Expression| #[trigger] list.contains(e) ==> part_of(reads, Term::Expression(e), whole),
    ensures
        comes_from(reads, whole, a),
    decreases list, 1nat,
{
    let i = lemma_from_expressions(reads, list, a);
    assert(list.contains(list[i]));
    lemma_trace_expression(reads, list[i], a);
    lemma_comes_up(reads, Term::Expression(list[i]), whole, a);
}

proof fn lemma_trace_accesses(reads: bool, list: Seq<Access>, whole: Term, a: RegionAccess)
    requires
        collect::accesses_found(reads, list).accesses.contains(a),
        forall|x: Access| #[trigger] list.contains(x) ==> part_of(reads, Term::Access(x), whole),
    ensures
        comes_from(reads, whole, a),
    decreases list, 1nat,
{
    let i = lemma_from_accesses(reads, list, a);
    assert(list.contains(list[i]));
    lemma_trace_access(reads, list[i], a);
    lemma_comes_up(reads, Term::Access(list[i]), whole, a);
}

proof fn lemma_trace_operands(reads: bool, list: Seq<Operand>, whole: Term, a: RegionAccess)
    requires
        collect::operands_found(reads, list).accesses.contains(a),
        forall|e: Expression| #[trigger] some_operand_has(list, e) ==> part_of(reads, Term::Expression(e), whole),
    ensures
        comes_from(reads, whole, a),
    decreases list, 1nat,
{
    let i = lemma_from_operands(reads, list, a);
    let operand = list[i];
    if collect::expression_found(reads, operand.value).accesses.contains(a) {
        assert(operand_has(list[i], operand.value));
        assert(some_operand_has(list, operand.value));
        lemma_trace_expression(reads, operand.value, a);
        lemma_comes_up(reads, Term::Expression(operand.value), whole, a);
    } else {
        let repeat = operand.repeat->0;
        assert(operand_has(list[i], repeat));
        assert(some_operand_has(list, repeat));
        lemma_trace_expression(reads, repeat, a);
        lemma_comes_up(reads, Term::Expression(repeat), whole, a);
    }
}

proof fn lemma_trace_access(reads: bool, access: Access, a: RegionAccess)
    requires
        collect::access_found(reads, access).accesses.contains(a),
    ensures
        comes_from(reads, Term::Access(access), a),
    decreases access, 0nat,
{
    let whole = Term::Access(access);
    if collect::own_accesses(access).accesses.contains(a) {
        lemma_comes_itself(reads, access, a);
    } else if collect::expressions_found(reads, access.index@).accesses.contains(a) {
        lemma_trace_list(reads, access.index@, whole, a);
    } else {
        lemma_trace_list(reads, access.select@, whole, a);
    }
}

proof fn lemma_trace_call(reads: bool, call: Call, a: RegionAccess)
    requires
        collect::call_found(reads, call).accesses.contains(a),
    ensures
        comes_from(reads, Term::Call(call), a),
    decreases call, 0nat,
{
    let whole = Term::Call(call);
    if reads && collect::expressions_found(reads, call.receiver@).accesses.contains(a) {
        lemma_trace_list(reads, call.receiver@, whole, a);
    } else if collect::arguments_found(reads, call.inputs@).accesses.contains(a) {
        let i = lemma_from_inputs(reads, call.inputs@, a);
        let e = call.inputs@[i].actual;
        assert(some_input_is(call.inputs@, e));
        lemma_trace_expression(reads, e, a);
        lemma_comes_up(reads, Term::Expression(e), whole, a);
    } else {
        let i = lemma_from_outputs(reads, call.outputs@, a);
        let list = call.outputs@[i].destinations@;
        assert forall|x: Access| #[trigger] list.contains(x) implies part_of(reads, Term::Access(x), whole) by {
            assert(call.outputs@[i].destinations@.contains(x));
            assert(some_output_is(call.outputs@, x));
        }
        lemma_trace_accesses(reads, list, whole, a);
    }
}

proof fn lemma_trace_system(reads: bool, call: SystemCall, a: RegionAccess)
    requires
        collect::system_found(reads, call).accesses.contains(a),
    ensures
        comes_from(reads, Term::System(call), a),
    decreases call, 0nat,
{
    let whole = Term::System(call);
    if collect::expressions_found(reads, call.inputs@).accesses.contains(a) {
        lemma_trace_list(reads, call.inputs@, whole, a);
    } else {
        lemma_trace_accesses(reads, call.outputs@, whole, a);
    }
}

proof fn lemma_trace_part(reads: bool, part: Expression, whole: Expression, a: RegionAccess)
    requires
        collect::expression_found(reads, part).accesses.contains(a),
        operand_of(whole, part),
    ensures
        comes_from(reads, Term::Expression(whole), a),
    decreases part, 1nat,
{
    lemma_trace_expression(reads, part, a);
    lemma_comes_up(reads, Term::Expression(part), Term::Expression(whole), a);
}

proof fn lemma_trace_expression(reads: bool, e: Expression, a: RegionAccess)
    requires
        collect::expression_found(reads, e).accesses.contains(a),
    ensures
        comes_from(reads, Term::Expression(e), a),
    decreases e, 0nat,
{
    let whole = Term::Expression(e);
    match e.node {
        Node::Variable(access) => {
            if reads {
                lemma_trace_access(reads, access, a);
                lemma_comes_up(reads, Term::Access(access), whole, a);
            } else if collect::expressions_found(reads, access.index@).accesses.contains(a) {
                lemma_trace_list(reads, access.index@, whole, a);
            } else {
                lemma_trace_list(reads, access.select@, whole, a);
            }
        },
        Node::Hierarchical(coordinates) => {
            lemma_trace_list(reads, coordinates@, whole, a);
        },
        Node::Constant => {},
        Node::Unknown => {},
        Node::Call(call) => {
            lemma_trace_call(reads, call, a);
            lemma_comes_up(reads, Term::Call(call), whole, a);
        },
        Node::System(call) => {
            lemma_trace_system(reads, call, a);
            lemma_comes_up(reads, Term::System(call), whole, a);
        },
        Node::Unary(_, operand) => {
            lemma_trace_part(reads, *operand, e, a);
        },
        Node::Binary(left, _, right) => {
            if collect::expression_found(reads, *left).accesses.contains(a) {
                lemma_trace_part(reads, *left, e, a);
            } else {
                lemma_trace_part(reads, *right, e, a);
            }
        },
        Node::Ternary(condition, yes, no) => {
            if collect::expression_found(reads, *condition).accesses.contains(a) {
                lemma_trace_part(reads, *condition, e, a);
            } else if collect::expression_found(reads, *yes).accesses.contains(a) {
                lemma_trace_part(reads, *yes, e, a);
            } else {
                lemma_trace_part(reads, *no, e, a);
            }
        },
        Node::Concatenation(operands) => {
            lemma_trace_operands(reads, operands@, whole, a);
        },
        Node::ArrayLiteral(operands) => {
            lemma_trace_operands(reads, operands@, whole, a);
        },
        Node::Struct(operands) => {
            lemma_trace_operands(reads, operands@, whole, a);
        },
    }
}

proof fn lemma_trace_statements(reads: bool, list: Seq<Statement>, whole: Statement, a: RegionAccess)
    requires
        collect::statements_found(reads, list).accesses.contains(a),
        forall|s: Statement| #[trigger] list.contains(s) ==> statement_in(whole, s),
    ensures
        comes_from(reads, Term::Statement(whole), a),
    decreases list, 1nat,
{
    let i = lemma_from_statements(reads, list, a);
    assert(list.contains(list[i]));
    lemma_trace_statement(reads, list[i], a);
    lemma_comes_up(reads, Term::Statement(list[i]), Term::Statement(whole), a);
}

proof fn lemma_trace_own(reads: bool, e: Expression, whole: Statement, a: RegionAccess)
    requires
        collect::expression_found(reads, e).accesses.contains(a),
        expression_in(whole, e),
    ensures
        comes_from(reads, Term::Statement(whole), a),
{
    lemma_trace_expression(reads, e, a);
    lemma_comes_up(reads, Term::Expression(e), Term::Statement(whole), a);
}

proof fn lemma_trace_statement(reads: bool, statement: Statement, a: RegionAccess)
    requires
        collect::statement_found(reads, statement).accesses.contains(a),
    ensures
        comes_from(reads, Term::Statement(statement), a),
    decreases statement, 0nat,
{
    let whole = Term::Statement(statement);
    match statement {
        Statement::Assign { destinations, value } => {
            if collect::expression_found(reads, value).accesses.contains(a) {
                lemma_trace_own(reads, value, statement, a);
            } else {
                lemma_trace_accesses(reads, destinations@, whole, a);
            }
        },
        Statement::If { condition, yes, no } => {
            if collect::expression_found(reads, condition).accesses.contains(a) {
                lemma_trace_own(reads, condition, statement, a);
            } else if collect::statements_found(reads, yes@).accesses.contains(a) {
                lemma_trace_statements(reads, yes@, statement, a);
            } else {
                lemma_trace_statements(reads, no@, statement, a);
            }
        },
        Statement::IfReset { yes, no } => {
            if collect::statements_found(reads, yes@).accesses.contains(a) {
                lemma_trace_statements(reads, yes@, statement, a);
            } else {
                lemma_trace_statements(reads, no@, statement, a);
            }
        },
        Statement::Case { target, arms, otherwise, facts } => {
            if collect::expression_found(reads, target).accesses.contains(a) {
                lemma_trace_own(reads, target, statement, a);
            } else if collect::arms_found(reads, arms@).accesses.contains(a) {
                let i = lemma_from_arms(reads, arms@, a);
                if collect::patterns_found(reads, arms@[i].patterns@).accesses.contains(a) {
                    let patterns = arms@[i].patterns@;
                    let k = lemma_from_patterns(reads, patterns, a);
                    let e = match patterns[k] {
                        Pattern::Equal(value) => value,
                        Pattern::Range { low, high, inclusive } => if collect::expression_found(reads, low).accesses.contains(a) {
                            low
                        } else {
                            high
                        },
                    };
                    assert(pattern_has(patterns[k], e));
                    assert(some_pattern_has(arms@[i].patterns@, e));
                    assert(some_arm_asks(arms@, e));
                    lemma_trace_own(reads, e, statement, a);
                } else {
                    let body = arms@[i].body@;
                    assert forall|s: Statement| #[trigger] body.contains(s) implies statement_in(statement, s) by {
                        assert(arms@[i].body@.contains(s));
                        assert(some_arm_runs(arms@, s));
                    }
                    lemma_trace_statements(reads, body, statement, a);
                }
            } else {
                lemma_trace_statements(reads, otherwise@, statement, a);
            }
        },
        Statement::For { bounds, body, range, iterations } => {
            if collect::expressions_found(reads, bounds@).accesses.contains(a) {
                let i = lemma_from_expressions(reads, bounds@, a);
                assert(bounds@.contains(bounds@[i]));
                lemma_trace_own(reads, bounds@[i], statement, a);
            } else {
                lemma_trace_statements(reads, body@, statement, a);
            }
        },
        Statement::Call(call) => {
            lemma_trace_call(reads, call, a);
            lemma_comes_up(reads, Term::Call(call), whole, a);
        },
        Statement::System(call) => {
            lemma_trace_system(reads, call, a);
            lemma_comes_up(reads, Term::System(call), whole, a);
        },
        _ => {},
    }
}

/// Nothing is collected of a block but the regions of the accesses that stand in it.
pub proof fn nothing_else_is_collected(reads: bool, block: Seq<Statement>, a: RegionAccess)
    requires
        collect::statements_found(reads, block).accesses.contains(a),
    ensures
        exists|access: Access| #[trigger]
            stands_in_block(reads, Term::Access(access), block) && a.id == access.id && access.regions@.contains(Region { array: a.array, packed: a.packed }),
{
    let i = lemma_from_statements(reads, block, a);
    lemma_trace_statement(reads, block[i], a);
    let access = choose|access: Access| #[trigger]
        stands_in(reads, Term::Access(access), Term::Statement(block[i])) && a.id == access.id && access.regions@.contains(
            Region { array: a.array, packed: a.packed },
        );
    assert(stands_in(reads, Term::Access(access), Term::Statement(block[i])));
    assert(stands_in_block(reads, Term::Access(access), block));
}

} // verus!
