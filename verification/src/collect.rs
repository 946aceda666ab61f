//! Collecting the accesses of statements and of the functions that they call.
use vstd::prelude::*;
use std::collections::HashMap;
use crate::ir::{Access, Argument, Call, CaseArm, Expression, Node, Operand, OutputArgument, Pattern, Region, Statement, SystemCall};
use crate::partition;
use crate::partition::{split_array_spans, BitPartition, RegionAccess};
use crate::span::{ArraySpan, PackedSpan};

verus! {

/// Accesses, and the functions called.
#[verifier::ext_equal]
pub struct Found {
    pub accesses: Set<RegionAccess>,
    pub callees: Set<u64>,
}

pub open spec fn nothing() -> Found {
    Found { accesses: Set::empty(), callees: Set::empty() }
}

pub open spec fn plus(a: Found, b: Found) -> Found {
    Found { accesses: a.accesses.union(b.accesses), callees: a.callees.union(b.callees) }
}

/// The regions of an access.
pub open spec fn own_accesses(access: Access) -> Found {
    Found {
        accesses: Set::new(
            |a: RegionAccess|
                a.id == access.id && access.regions@.contains(
                    Region { array: a.array, packed: a.packed },
                ),
        ),
        callees: Set::empty(),
    }
}

pub open spec fn expression_found(reads: bool, expression: Expression) -> Found
    decreases expression,
{
    match expression.node {
        Node::Variable(access) => if reads {
            access_found(reads, access)
        } else {
            plus(expressions_found(reads, access.index@), expressions_found(reads, access.select@))
        },
        Node::Hierarchical(coordinates) => if reads {
            expressions_found(reads, coordinates@)
        } else {
            nothing()
        },
        Node::Constant => nothing(),
        Node::Unknown => nothing(),
        Node::Call(call) => call_found(reads, call),
        Node::System(call) => system_found(reads, call),
        Node::Unary(_, operand) => expression_found(reads, *operand),
        Node::Binary(left, _, right) => plus(expression_found(reads, *left), expression_found(reads, *right)),
        Node::Ternary(condition, yes, no) => plus(
            plus(expression_found(reads, *condition), expression_found(reads, *yes)),
            expression_found(reads, *no),
        ),
        Node::Concatenation(operands) => operands_found(reads, operands@),
        Node::ArrayLiteral(operands) => operands_found(reads, operands@),
        Node::Struct(operands) => operands_found(reads, operands@),
    }
}

pub open spec fn expressions_found(reads: bool, list: Seq<Expression>) -> Found
    decreases list,
{
    if list.len() == 0 {
        nothing()
    } else {
        plus(expressions_found(reads, list.drop_last()), expression_found(reads, list.last()))
    }
}

/// An access and its index and select expressions.
pub open spec fn access_found(reads: bool, access: Access) -> Found
    decreases access,
{
    plus(
        plus(own_accesses(access), expressions_found(reads, access.index@)),
        expressions_found(reads, access.select@),
    )
}

pub open spec fn accesses_found(reads: bool, list: Seq<Access>) -> Found
    decreases list,
{
    if list.len() == 0 {
        nothing()
    } else {
        plus(accesses_found(reads, list.drop_last()), access_found(reads, list.last()))
    }
}

pub open spec fn operand_found(reads: bool, operand: Operand) -> Found
    decreases operand,
{
    match operand.repeat {
        Some(repeat) => plus(expression_found(reads, operand.value), expression_found(reads, repeat)),
        None => expression_found(reads, operand.value),
    }
}

pub open spec fn operands_found(reads: bool, list: Seq<Operand>) -> Found
    decreases list,
{
    if list.len() == 0 {
        nothing()
    } else {
        plus(operands_found(reads, list.drop_last()), operand_found(reads, list.last()))
    }
}

pub open spec fn arguments_found(reads: bool, list: Seq<Argument>) -> Found
    decreases list,
{
    if list.len() == 0 {
        nothing()
    } else {
        plus(arguments_found(reads, list.drop_last()), expression_found(reads, list.last().actual))
    }
}

pub open spec fn outputs_found(reads: bool, list: Seq<OutputArgument>) -> Found
    decreases list,
{
    if list.len() == 0 {
        nothing()
    } else {
        plus(outputs_found(reads, list.drop_last()), accesses_found(reads, list.last().destinations@))
    }
}

pub open spec fn call_found(reads: bool, call: Call) -> Found
    decreases call,
{
    plus(
        plus(
            plus(
                if reads {
                    expressions_found(reads, call.receiver@)
                } else {
                    nothing()
                },
                arguments_found(reads, call.inputs@),
            ),
            outputs_found(reads, call.outputs@),
        ),
        Found { accesses: Set::empty(), callees: set![call.callee] },
    )
}

pub open spec fn system_found(reads: bool, call: SystemCall) -> Found
    decreases call,
{
    plus(expressions_found(reads, call.inputs@), accesses_found(reads, call.outputs@))
}

pub open spec fn pattern_found(reads: bool, pattern: Pattern) -> Found {
    match pattern {
        Pattern::Equal(value) => expression_found(reads, value),
        Pattern::Range { low, high, inclusive } => plus(
            expression_found(reads, low),
            expression_found(reads, high),
        ),
    }
}

pub open spec fn patterns_found(reads: bool, list: Seq<Pattern>) -> Found
    decreases list.len(),
{
    if list.len() == 0 {
        nothing()
    } else {
        plus(patterns_found(reads, list.drop_last()), pattern_found(reads, list.last()))
    }
}

/// What a statement accesses and calls, whatever path is taken through it.
pub open spec fn statement_found(reads: bool, statement: Statement) -> Found
    decreases statement,
{
    match statement {
        Statement::Assign { destinations, value } => plus(
            expression_found(reads, value),
            accesses_found(reads, destinations@),
        ),
        Statement::If { condition, yes, no } => plus(
            plus(expression_found(reads, condition), statements_found(reads, yes@)),
            statements_found(reads, no@),
        ),
        Statement::IfReset { yes, no } => plus(statements_found(reads, yes@), statements_found(reads, no@)),
        Statement::Case { target, arms, otherwise, .. } => plus(
            plus(expression_found(reads, target), arms_found(reads, arms@)),
            statements_found(reads, otherwise@),
        ),
        Statement::For { bounds, body, .. } => plus(
            expressions_found(reads, bounds@),
            statements_found(reads, body@),
        ),
        Statement::Call(call) => call_found(reads, call),
        Statement::System(call) => system_found(reads, call),
        Statement::Break => nothing(),
        Statement::Unsupported => nothing(),
        Statement::Other => nothing(),
    }
}

pub open spec fn statements_found(reads: bool, list: Seq<Statement>) -> Found
    decreases list,
{
    if list.len() == 0 {
        nothing()
    } else {
        plus(statements_found(reads, list.drop_last()), statement_found(reads, list.last()))
    }
}

pub open spec fn arms_found(reads: bool, list: Seq<CaseArm>) -> Found
    decreases list,
{
    if list.len() == 0 {
        nothing()
    } else {
        plus(
            plus(arms_found(reads, list.drop_last()), patterns_found(reads, list.last().patterns@)),
            statements_found(reads, list.last().body@),
        )
    }
}

/// A list of accesses and of callees, with repetitions.
pub struct Collected {
    pub accesses: Vec<RegionAccess>,
    pub callees: Vec<u64>,
}

impl Collected {
    pub open spec fn found(self) -> Found {
        Found {
            accesses: Set::new(|a: RegionAccess| self.accesses@.contains(a)),
            callees: Set::new(|c: u64| self.callees@.contains(c)),
        }
    }

    /// Nothing yet.
    pub fn new() -> (r: Self)
        ensures
            r.found() == nothing(),
    {
        let r = Collected { accesses: Vec::new(), callees: Vec::new() };
        assert(r.found() =~= nothing());
        r
    }
}

/// `b` holds what `a` holds, and `more`.
pub open spec fn gains(a: Collected, b: Collected, more: Found) -> bool {
    b.found() == plus(a.found(), more)
}

proof fn lemma_gains_nothing(a: Collected)
    ensures
        gains(a, a, nothing()),
{
    assert(plus(a.found(), nothing()) =~= a.found());
}

proof fn lemma_gains_both(a: Collected, b: Collected, c: Collected, first: Found, second: Found)
    requires
        gains(a, b, first),
        gains(b, c, second),
    ensures
        gains(a, c, plus(first, second)),
{
    assert(plus(plus(a.found(), first), second) =~= plus(a.found(), plus(first, second)));
}

/// Collects an access and its index and select expressions.
pub fn collect_destination_spans(reads: bool, access: &Access, out: &mut Collected)
    ensures
        gains(*old(out), *final(out), access_found(reads, *access)),
    decreases access,
{
    let ghost start = *out;
    let mut i: usize = 0;
    proof {
        assert(plus(start.found(), listed_regions(*access, 0)) =~= start.found());
    }
    while i < access.regions.len()
        invariant
            i <= access.regions@.len(),
            gains(start, *out, listed_regions(*access, i as int)),
        decreases access.regions@.len() - i,
    {
        let ghost before = *out;
        let region = access.regions[i];
        let more = RegionAccess { id: access.id, array: region.array, packed: region.packed };
        out.accesses.push(more);
        proof {
            assert(out.found() =~= plus(start.found(), listed_regions(*access, i + 1))) by {
                assert forall|a: RegionAccess| out.accesses@.contains(a) <==> (before.accesses@.contains(a) || a == more) by {
                    partition::lemma_contains_push(before.accesses@, more, a);
                }
                assert(access.regions@.take(i + 1) =~= access.regions@.take(i as int).push(region));
                assert forall|r: Region| access.regions@.take(i + 1).contains(r) <==> (access.regions@.take(i as int).contains(r) || r == region) by {
                    partition::lemma_contains_push(access.regions@.take(i as int), region, r);
                }
                assert(before.found() == plus(start.found(), listed_regions(*access, i as int)));
                assert forall|a: RegionAccess| #[trigger] out.found().accesses.contains(a) <==> plus(start.found(), listed_regions(*access, i + 1)).accesses.contains(a) by {
                    assert(before.found().accesses.contains(a) <==> before.accesses@.contains(a));
                }
            }
        }
        i = i + 1;
    }
    proof {
        assert(access.regions@.take(i as int) =~= access.regions@);
        assert(listed_regions(*access, i as int) =~= own_accesses(*access));
    }
    let ghost own = *out;
    collect_expressions(reads, &access.index, out);
    let ghost indexed = *out;
    collect_expressions(reads, &access.select, out);
    proof {
        lemma_gains_both(start, own, indexed, own_accesses(*access), expressions_found(reads, access.index@));
        lemma_gains_both(
            start,
            indexed,
            *out,
            plus(own_accesses(*access), expressions_found(reads, access.index@)),
            expressions_found(reads, access.select@),
        );
    }
}

spec fn listed_regions(access: Access, count: int) -> Found {
    Found {
        accesses: Set::new(
            |a: RegionAccess|
                a.id == access.id && access.regions@.take(count).contains(
                    Region { array: a.array, packed: a.packed },
                ),
        ),
        callees: Set::empty(),
    }
}

/// Collects what an expression reads and calls; without `reads`, what its calls write and call only.
pub fn collect_expr_spans(reads: bool, expression: &Expression, out: &mut Collected)
    ensures
        gains(*old(out), *final(out), expression_found(reads, *expression)),
    decreases expression,
{
    let ghost start = *out;
    proof {
        lemma_gains_nothing(start);
    }
    match &expression.node {
        Node::Variable(access) => {
            if reads {
                collect_destination_spans(reads, access, out);
            } else {
                collect_expressions(reads, &access.index, out);
                let ghost middle = *out;
                collect_expressions(reads, &access.select, out);
                proof {
                    lemma_gains_both(start, middle, *out, expressions_found(reads, access.index@), expressions_found(reads, access.select@));
                }
            }
        },
        Node::Hierarchical(coordinates) => {
            if reads {
                collect_expressions(reads, coordinates, out);
            }
        },
        Node::Constant => {},
        Node::Unknown => {},
        Node::Call(call) => {
            collect_call(reads, call, out);
        },
        Node::System(call) => {
            collect_system(reads, call, out);
        },
        Node::Unary(_, operand) => {
            collect_expr_spans(reads, operand, out);
        },
        Node::Binary(left, _, right) => {
            collect_expr_spans(reads, left, out);
            let ghost middle = *out;
            collect_expr_spans(reads, right, out);
            proof {
                lemma_gains_both(start, middle, *out, expression_found(reads, **left), expression_found(reads, **right));
            }
        },
        Node::Ternary(condition, yes, no) => {
            collect_expr_spans(reads, condition, out);
            let ghost first = *out;
            collect_expr_spans(reads, yes, out);
            let ghost second = *out;
            collect_expr_spans(reads, no, out);
            proof {
                lemma_gains_both(start, first, second, expression_found(reads, **condition), expression_found(reads, **yes));
                lemma_gains_both(
                    start,
                    second,
                    *out,
                    plus(expression_found(reads, **condition), expression_found(reads, **yes)),
                    expression_found(reads, **no),
                );
            }
        },
        Node::Concatenation(operands) => {
            collect_operands(reads, operands, out);
        },
        Node::ArrayLiteral(operands) => {
            collect_operands(reads, operands, out);
        },
        Node::Struct(operands) => {
            collect_operands(reads, operands, out);
        },
    }
}

fn collect_expressions(reads: bool, list: &Vec<Expression>, out: &mut Collected)
    ensures
        gains(*old(out), *final(out), expressions_found(reads, list@)),
    decreases list,
{
    let ghost start = *out;
    proof {
        lemma_gains_nothing(start);
    }
    let mut i: usize = 0;
    while i < list.len()
        invariant
            i <= list@.len(),
            gains(start, *out, expressions_found(reads, list@.take(i as int))),
        decreases list.len() - i,
    {
        let ghost before = *out;
        collect_expr_spans(reads, &list[i], out);
        proof {
            assert(list@.take(i + 1).drop_last() =~= list@.take(i as int));
            lemma_gains_both(start, before, *out, expressions_found(reads, list@.take(i as int)), expression_found(reads, list@[i as int]));
        }
        i = i + 1;
    }
    assert(list@.take(i as int) =~= list@);
}

fn collect_accesses(reads: bool, list: &Vec<Access>, out: &mut Collected)
    ensures
        gains(*old(out), *final(out), accesses_found(reads, list@)),
    decreases list,
{
    let ghost start = *out;
    proof {
        lemma_gains_nothing(start);
    }
    let mut i: usize = 0;
    while i < list.len()
        invariant
            i <= list@.len(),
            gains(start, *out, accesses_found(reads, list@.take(i as int))),
        decreases list.len() - i,
    {
        let ghost before = *out;
        collect_destination_spans(reads, &list[i], out);
        proof {
            assert(list@.take(i + 1).drop_last() =~= list@.take(i as int));
            lemma_gains_both(start, before, *out, accesses_found(reads, list@.take(i as int)), access_found(reads, list@[i as int]));
        }
        i = i + 1;
    }
    assert(list@.take(i as int) =~= list@);
}

fn collect_operands(reads: bool, list: &Vec<Operand>, out: &mut Collected)
    ensures
        gains(*old(out), *final(out), operands_found(reads, list@)),
    decreases list,
{
    let ghost start = *out;
    proof {
        lemma_gains_nothing(start);
    }
    let mut i: usize = 0;
    while i < list.len()
        invariant
            i <= list@.len(),
            gains(start, *out, operands_found(reads, list@.take(i as int))),
        decreases list.len() - i,
    {
        let ghost before = *out;
        collect_expr_spans(reads, &list[i].value, out);
        let ghost middle = *out;
        if let Some(repeat) = &list[i].repeat {
            collect_expr_spans(reads, repeat, out);
            proof {
                lemma_gains_both(before, middle, *out, expression_found(reads, list@[i as int].value), expression_found(reads, *repeat));
            }
        }
        proof {
            assert(gains(before, *out, operand_found(reads, list@[i as int])));
            assert(list@.take(i + 1).drop_last() =~= list@.take(i as int));
            lemma_gains_both(start, before, *out, operands_found(reads, list@.take(i as int)), operand_found(reads, list@[i as int]));
        }
        i = i + 1;
    }
    assert(list@.take(i as int) =~= list@);
}

fn collect_arguments(reads: bool, list: &Vec<Argument>, out: &mut Collected)
    ensures
        gains(*old(out), *final(out), arguments_found(reads, list@)),
    decreases list,
{
    let ghost start = *out;
    proof {
        lemma_gains_nothing(start);
    }
    let mut i: usize = 0;
    while i < list.len()
        invariant
            i <= list@.len(),
            gains(start, *out, arguments_found(reads, list@.take(i as int))),
        decreases list.len() - i,
    {
        let ghost before = *out;
        collect_expr_spans(reads, &list[i].actual, out);
        proof {
            assert(list@.take(i + 1).drop_last() =~= list@.take(i as int));
            lemma_gains_both(start, before, *out, arguments_found(reads, list@.take(i as int)), expression_found(reads, list@[i as int].actual));
        }
        i = i + 1;
    }
    assert(list@.take(i as int) =~= list@);
}

fn collect_outputs(reads: bool, list: &Vec<OutputArgument>, out: &mut Collected)
    ensures
        gains(*old(out), *final(out), outputs_found(reads, list@)),
    decreases list,
{
    let ghost start = *out;
    proof {
        lemma_gains_nothing(start);
    }
    let mut i: usize = 0;
    while i < list.len()
        invariant
            i <= list@.len(),
            gains(start, *out, outputs_found(reads, list@.take(i as int))),
        decreases list.len() - i,
    {
        let ghost before = *out;
        collect_accesses(reads, &list[i].destinations, out);
        proof {
            assert(list@.take(i + 1).drop_last() =~= list@.take(i as int));
            lemma_gains_both(start, before, *out, outputs_found(reads, list@.take(i as int)), accesses_found(reads, list@[i as int].destinations@));
        }
        i = i + 1;
    }
    assert(list@.take(i as int) =~= list@);
}

/// Collects what a call reads, writes and calls.
pub fn collect_call(reads: bool, call: &Call, out: &mut Collected)
    ensures
        gains(*old(out), *final(out), call_found(reads, *call)),
    decreases call,
{
    let ghost start = *out;
    if reads {
        collect_expressions(reads, &call.receiver, out);
    }
    let ghost a = *out;
    collect_arguments(reads, &call.inputs, out);
    let ghost b = *out;
    collect_outputs(reads, &call.outputs, out);
    let ghost c = *out;
    out.callees.push(call.callee);
    proof {
        lemma_gains_nothing(start);
        let receiver = if reads { expressions_found(reads, call.receiver@) } else { nothing() };
        let one = Found { accesses: Set::<RegionAccess>::empty(), callees: set![call.callee] };
        assert forall|x: u64| out.callees@.contains(x) <==> (c.callees@.contains(x) || x == call.callee) by {
            partition::lemma_contains_push(c.callees@, call.callee, x);
        }
        assert(out.found() =~= plus(c.found(), one));
        lemma_gains_both(start, a, b, receiver, arguments_found(reads, call.inputs@));
        lemma_gains_both(start, b, c, plus(receiver, arguments_found(reads, call.inputs@)), outputs_found(reads, call.outputs@));
        lemma_gains_both(
            start,
            c,
            *out,
            plus(plus(receiver, arguments_found(reads, call.inputs@)), outputs_found(reads, call.outputs@)),
            one,
        );
    }
}

fn collect_system(reads: bool, call: &SystemCall, out: &mut Collected)
    ensures
        gains(*old(out), *final(out), system_found(reads, *call)),
    decreases call,
{
    let ghost start = *out;
    collect_expressions(reads, &call.inputs, out);
    let ghost middle = *out;
    collect_accesses(reads, &call.outputs, out);
    proof {
        lemma_gains_both(start, middle, *out, expressions_found(reads, call.inputs@), accesses_found(reads, call.outputs@));
    }
}

fn collect_patterns(reads: bool, list: &Vec<Pattern>, out: &mut Collected)
    ensures
        gains(*old(out), *final(out), patterns_found(reads, list@)),
{
    let ghost start = *out;
    proof {
        lemma_gains_nothing(start);
    }
    let mut i: usize = 0;
    while i < list.len()
        invariant
            i <= list@.len(),
            gains(start, *out, patterns_found(reads, list@.take(i as int))),
        decreases list.len() - i,
    {
        let ghost before = *out;
        match &list[i] {
            Pattern::Equal(value) => {
                collect_expr_spans(reads, value, out);
            },
            Pattern::Range { low, high, inclusive } => {
                collect_expr_spans(reads, low, out);
                let ghost middle = *out;
                collect_expr_spans(reads, high, out);
                proof {
                    lemma_gains_both(before, middle, *out, expression_found(reads, *low), expression_found(reads, *high));
                }
            },
        }
        proof {
            assert(gains(before, *out, pattern_found(reads, list@[i as int])));
            assert(list@.take(i + 1).drop_last() =~= list@.take(i as int));
            lemma_gains_both(start, before, *out, patterns_found(reads, list@.take(i as int)), pattern_found(reads, list@[i as int]));
        }
        i = i + 1;
    }
    assert(list@.take(i as int) =~= list@);
}

/// Collects what statements access and call.
pub fn collect_statement_spans(reads: bool, list: &Vec<Statement>, out: &mut Collected)
    ensures
        gains(*old(out), *final(out), statements_found(reads, list@)),
    decreases list,
{
    let ghost start = *out;
    proof {
        lemma_gains_nothing(start);
    }
    let mut i: usize = 0;
    while i < list.len()
        invariant
            i <= list@.len(),
            gains(start, *out, statements_found(reads, list@.take(i as int))),
        decreases list.len() - i,
    {
        let ghost before = *out;
        collect_statement(reads, &list[i], out);
        proof {
            assert(list@.take(i + 1).drop_last() =~= list@.take(i as int));
            lemma_gains_both(start, before, *out, statements_found(reads, list@.take(i as int)), statement_found(reads, list@[i as int]));
        }
        i = i + 1;
    }
    assert(list@.take(i as int) =~= list@);
}

fn collect_statement(reads: bool, statement: &Statement, out: &mut Collected)
    ensures
        gains(*old(out), *final(out), statement_found(reads, *statement)),
    decreases statement,
{
    let ghost start = *out;
    proof {
        lemma_gains_nothing(start);
    }
    match statement {
        Statement::Assign { destinations, value } => {
            collect_expr_spans(reads, value, out);
            let ghost middle = *out;
            collect_accesses(reads, destinations, out);
            proof {
                lemma_gains_both(start, middle, *out, expression_found(reads, *value), accesses_found(reads, destinations@));
            }
        },
        Statement::If { condition, yes, no } => {
            collect_expr_spans(reads, condition, out);
            let ghost a = *out;
            collect_statement_spans(reads, yes, out);
            let ghost b = *out;
            collect_statement_spans(reads, no, out);
            proof {
                lemma_gains_both(start, a, b, expression_found(reads, *condition), statements_found(reads, yes@));
                lemma_gains_both(start, b, *out, plus(expression_found(reads, *condition), statements_found(reads, yes@)), statements_found(reads, no@));
            }
        },
        Statement::IfReset { yes, no } => {
            collect_statement_spans(reads, yes, out);
            let ghost a = *out;
            collect_statement_spans(reads, no, out);
            proof {
                lemma_gains_both(start, a, *out, statements_found(reads, yes@), statements_found(reads, no@));
            }
        },
        Statement::Case { target, arms, otherwise, .. } => {
            collect_expr_spans(reads, target, out);
            let ghost a = *out;
            collect_arms(reads, arms, out);
            let ghost b = *out;
            collect_statement_spans(reads, otherwise, out);
            proof {
                lemma_gains_both(start, a, b, expression_found(reads, *target), arms_found(reads, arms@));
                lemma_gains_both(start, b, *out, plus(expression_found(reads, *target), arms_found(reads, arms@)), statements_found(reads, otherwise@));
            }
        },
        Statement::For { bounds, body, .. } => {
            collect_expressions(reads, bounds, out);
            let ghost a = *out;
            collect_statement_spans(reads, body, out);
            proof {
                lemma_gains_both(start, a, *out, expressions_found(reads, bounds@), statements_found(reads, body@));
            }
        },
        Statement::Call(call) => {
            collect_call(reads, call, out);
        },
        Statement::System(call) => {
            collect_system(reads, call, out);
        },
        Statement::Break => {},
        Statement::Unsupported => {},
        Statement::Other => {},
    }
}

fn collect_arms(reads: bool, list: &Vec<CaseArm>, out: &mut Collected)
    ensures
        gains(*old(out), *final(out), arms_found(reads, list@)),
    decreases list,
{
    let ghost start = *out;
    proof {
        lemma_gains_nothing(start);
    }
    let mut i: usize = 0;
    while i < list.len()
        invariant
            i <= list@.len(),
            gains(start, *out, arms_found(reads, list@.take(i as int))),
        decreases list.len() - i,
    {
        let ghost before = *out;
        collect_patterns(reads, &list[i].patterns, out);
        let ghost middle = *out;
        collect_statement_spans(reads, &list[i].body, out);
        proof {
            let taken = arms_found(reads, list@.take(i as int));
            let patterns = patterns_found(reads, list@[i as int].patterns@);
            assert(list@.take(i + 1).drop_last() =~= list@.take(i as int));
            lemma_gains_both(start, before, middle, taken, patterns);
            lemma_gains_both(start, middle, *out, plus(taken, patterns), statements_found(reads, list@[i as int].body@));
        }
        i = i + 1;
    }
    assert(list@.take(i as int) =~= list@);
}

/// The function `a` has a body, and calls `b` in it.
pub open spec fn calls(reads: bool, bodies: Seq<Vec<Statement>>, a: u64, b: u64) -> bool {
    a < bodies.len() && statements_found(reads, bodies[a as int]@).callees.contains(b)
}

/// The functions of the list call each other in turn, and the first is one of `roots`.
pub open spec fn is_chain(reads: bool, bodies: Seq<Vec<Statement>>, roots: Set<u64>, chain: Seq<u64>) -> bool {
    &&& chain.len() > 0
    &&& roots.contains(chain[0])
    &&& forall|i: int| 0 <= i < chain.len() - 1 ==> #[trigger] calls_next(reads, bodies, chain, i)
}

pub open spec fn calls_next(reads: bool, bodies: Seq<Vec<Statement>>, chain: Seq<u64>, i: int) -> bool {
    calls(reads, bodies, chain[i], chain[i + 1])
}

/// The function is one of `roots`, or called by one that is called.
pub open spec fn called(reads: bool, bodies: Seq<Vec<Statement>>, roots: Set<u64>, callee: u64) -> bool {
    exists|chain: Seq<u64>| #[trigger] is_chain(reads, bodies, roots, chain) && chain.last() == callee
}

/// The accesses in the bodies of the functions called.
pub open spec fn called_accesses(reads: bool, bodies: Seq<Vec<Statement>>, roots: Set<u64>) -> Set<RegionAccess> {
    Set::new(
        |a: RegionAccess|
            exists|callee: u64|
                callee < bodies.len() && #[trigger] called(reads, bodies, roots, callee)
                    && statements_found(reads, bodies[callee as int]@).accesses.contains(a),
    )
}

pub proof fn lemma_called_step(reads: bool, bodies: Seq<Vec<Statement>>, roots: Set<u64>, a: u64, b: u64)
    requires
        called(reads, bodies, roots, a),
        calls(reads, bodies, a, b),
    ensures
        called(reads, bodies, roots, b),
{
    let chain = choose|chain: Seq<u64>| #[trigger] is_chain(reads, bodies, roots, chain) && chain.last() == a;
    let longer = chain.push(b);
    assert forall|i: int| 0 <= i < longer.len() - 1 implies #[trigger] calls_next(reads, bodies, longer, i) by {
        if i < chain.len() - 1 {
            assert(calls_next(reads, bodies, chain, i));
        }
    }
    assert(is_chain(reads, bodies, roots, longer) && longer.last() == b);
}

spec fn unvisited(visited: Seq<bool>) -> nat
    decreases visited.len(),
{
    if visited.len() == 0 {
        0
    } else {
        unvisited(visited.drop_last()) + if visited.last() {
            0
        } else {
            1nat
        }
    }
}

proof fn lemma_visit(visited: Seq<bool>, at: int)
    requires
        0 <= at < visited.len(),
        !visited[at],
    ensures
        unvisited(visited.update(at, true)) < unvisited(visited),
    decreases visited.len(),
{
    let after = visited.update(at, true);
    if at < visited.len() - 1 {
        lemma_visit(visited.drop_last(), at);
        assert(after.drop_last() =~= visited.drop_last().update(at, true));
    } else {
        assert(after.drop_last() =~= visited.drop_last());
    }
}

/// The function is visited, waiting, or has no body.
spec fn handled(bodies: Seq<Vec<Statement>>, visited: Seq<bool>, waiting: Seq<u64>, callee: u64) -> bool {
    callee >= bodies.len() || visited[callee as int] || waiting.contains(callee)
}

/// Collects the accesses of the functions called, each body once.
pub fn collect_called_function_body_spans(reads: bool, bodies: &Vec<Vec<Statement>>, callees: Vec<u64>) -> (r: Vec<
    RegionAccess,
>)
    ensures
        forall|a: RegionAccess| #[trigger]
            r@.contains(a) <==> called_accesses(reads, 
                bodies@,
                Set::new(|c: u64| callees@.contains(c)),
            ).contains(a),
{
    let ghost roots = Set::new(|c: u64| callees@.contains(c));
    let total: usize = bodies.len();
    let mut visited: Vec<bool> = Vec::new();
    let mut i: usize = 0;
    while i < total
        invariant
            i <= total,
            visited@.len() == i,
            forall|k: int| 0 <= k < i ==> !#[trigger] visited@[k],
        decreases total - i,
    {
        visited.push(false);
        i = i + 1;
    }
    let mut state = Collected { accesses: Vec::new(), callees };
    proof {
        assert forall|c: u64| #[trigger] state.callees@.contains(c) implies called(reads, bodies@, roots, c) by {
            let chain = seq![c];
            assert(is_chain(reads, bodies@, roots, chain) && chain.last() == c);
        }
    }
    while state.callees.len() > 0
        invariant
            total == bodies@.len(),
            visited@.len() == total,
            forall|c: u64| #[trigger] state.callees@.contains(c) ==> called(reads, bodies@, roots, c),
            forall|k: u64| k < total && #[trigger] visited@[k as int] ==> called(reads, bodies@, roots, k),
            forall|c: u64| #[trigger] roots.contains(c) ==> handled(bodies@, visited@, state.callees@, c),
            forall|k: u64, c: u64| k < total && visited@[k as int] && #[trigger] calls(reads, bodies@, k, c) ==> handled(bodies@, visited@, state.callees@, c),
            forall|k: u64, a: RegionAccess| k < total && visited@[k as int] && #[trigger] statements_found(reads, bodies@[k as int]@).accesses.contains(a)
                ==> state.accesses@.contains(a),
            forall|a: RegionAccess| #[trigger] state.accesses@.contains(a) ==> called_accesses(reads, bodies@, roots).contains(a),
        decreases unvisited(visited@), state.callees@.len(),
    {
        let ghost before = state;
        let ghost visited0 = visited@;
        let callee: u64 = state.callees.pop().unwrap();
        let ghost rest = state;
        proof {
            assert(rest.callees@ =~= before.callees@.drop_last());
            assert(before.callees@[before.callees@.len() - 1] == callee);
            assert(before.callees@.contains(callee));
            assert forall|c: u64| before.callees@.contains(c) && c != callee implies #[trigger] rest.callees@.contains(c) by {
                let q = choose|q: int| 0 <= q < before.callees@.len() && before.callees@[q] == c;
                assert(rest.callees@[q] == c);
            }
            assert forall|c: u64| #[trigger] rest.callees@.contains(c) implies before.callees@.contains(c) by {
                let q = choose|q: int| 0 <= q < rest.callees@.len() && rest.callees@[q] == c;
                assert(before.callees@[q] == c);
            }
        }
        if callee >= total as u64 {
            continue;
        }
        if visited[callee as usize] {
            continue;
        }
        proof {
            lemma_visit(visited@, callee as int);
        }
        visited.set(callee as usize, true);
        collect_statement_spans(reads, &bodies[callee as usize], &mut state);
        proof {
            let more = statements_found(reads, bodies@[callee as int]@);
            assert forall|c: u64| #[trigger] state.callees@.contains(c) <==> rest.callees@.contains(c) || more.callees.contains(c) by {
                assert(state.found().callees.contains(c) <==> plus(rest.found(), more).callees.contains(c));
            }
            assert forall|a: RegionAccess| #[trigger] state.accesses@.contains(a) <==> rest.accesses@.contains(a) || more.accesses.contains(a) by {
                assert(state.found().accesses.contains(a) <==> plus(rest.found(), more).accesses.contains(a));
            }
            assert forall|c: u64| #[trigger] state.callees@.contains(c) implies called(reads, bodies@, roots, c) by {
                if !rest.callees@.contains(c) {
                    assert(calls(reads, bodies@, callee, c));
                    lemma_called_step(reads, bodies@, roots, callee, c);
                }
            }
            assert forall|k: u64, c: u64| k < total && visited@[k as int] && #[trigger] calls(reads, bodies@, k, c) implies handled(bodies@, visited@, state.callees@, c) by {
                if k == callee {
                    assert(more.callees.contains(c));
                } else {
                    assert(visited0[k as int]);
                    assert(handled(bodies@, visited0, before.callees@, c));
                }
            }
            assert forall|c: u64| #[trigger] roots.contains(c) implies handled(bodies@, visited@, state.callees@, c) by {
                assert(handled(bodies@, visited0, before.callees@, c));
            }
            assert forall|a: RegionAccess| #[trigger] state.accesses@.contains(a) implies called_accesses(reads, bodies@, roots).contains(a) by {
                if rest.accesses@.contains(a) {
                    assert(before.accesses@.contains(a));
                } else {
                    assert(called(reads, bodies@, roots, callee));
                }
            }
        }
    }
    proof {
        assert forall|a: RegionAccess| #[trigger] state.accesses@.contains(a) <==> called_accesses(reads, bodies@, roots).contains(a) by {
            if called_accesses(reads, bodies@, roots).contains(a) {
                let callee = choose|callee: u64|
                    callee < bodies@.len() && #[trigger] called(reads, bodies@, roots, callee) && statements_found(reads, bodies@[callee as int]@).accesses.contains(a);
                let chain = choose|chain: Seq<u64>| #[trigger] is_chain(reads, bodies@, roots, chain) && chain.last() == callee;
                lemma_chain_visited(reads, bodies@, roots, visited@, chain, chain.len() - 1);
            }
        }
    }
    state.accesses
}

/// Where nothing waits, every function of a chain that has a body is visited.
proof fn lemma_chain_visited(reads: bool, bodies: Seq<Vec<Statement>>, roots: Set<u64>, visited: Seq<bool>, chain: Seq<u64>, at: int)
    requires
        is_chain(reads, bodies, roots, chain),
        0 <= at < chain.len(),
        visited.len() == bodies.len(),
        forall|c: u64| #[trigger] roots.contains(c) ==> handled(bodies, visited, Seq::empty(), c),
        forall|k: u64, c: u64| k < bodies.len() && visited[k as int] && #[trigger] calls(reads, bodies, k, c) ==> handled(bodies, visited, Seq::empty(), c),
    ensures
        chain[at] < bodies.len() ==> visited[chain[at] as int],
    decreases at,
{
    if at > 0 {
        lemma_chain_visited(reads, bodies, roots, visited, chain, at - 1);
        assert(calls_next(reads, bodies, chain, at - 1));
        assert(calls(reads, bodies, chain[at - 1], chain[at]));
    } else {
        assert(roots.contains(chain[0]));
    }
}

/// A range of a parent's storage that a port is connected to.
#[derive(Clone, Copy, Debug, PartialEq, Eq)]
pub struct PortRange {
    pub id: u64,
    pub array: ArraySpan,
    pub packed_start: usize,
    pub packed_length: usize,
}

/// What a port of an instance is connected to: a range, or expressions and destinations.
pub struct Connection {
    pub range: Option<PortRange>,
    pub inputs: Vec<Expression>,
    pub outputs: Vec<Access>,
}

/// A formal argument or a result, which is accessed as a whole; missing numbers are unknown.
#[derive(Clone, Copy, Debug, PartialEq, Eq)]
pub struct WholeAccess {
    pub id: u64,
    pub array: Option<usize>,
    pub width: Option<usize>,
}

/// What decides how the variables of a module are split.
pub struct ModuleAccesses {
    pub procedures: Vec<Vec<Statement>>,
    pub connections: Vec<Connection>,
    /// What the summaries of the instances touch.
    pub summaries: Vec<RegionAccess>,
    pub formals: Vec<WholeAccess>,
    /// The bodies of the functions as they are declared.
    pub declared: Vec<Vec<Statement>>,
    /// The bodies of the functions as they are called, by their numbers.
    pub bodies: Vec<Vec<Statement>>,
}

/// The range as an access; nothing where it has no bit or its end does not fit.
pub open spec fn range_access(range: PortRange) -> Option<RegionAccess> {
    let packed = PackedSpan { start: range.packed_start, length: range.packed_length };
    if packed.wf() {
        Some(RegionAccess { id: range.id, array: range.array, packed })
    } else {
        None
    }
}

pub open spec fn connection_found(connection: Connection) -> Found {
    match connection.range {
        Some(range) => match range_access(range) {
            Some(access) => Found { accesses: set![access], callees: Set::empty() },
            None => plus(
                expressions_found(true, connection.inputs@),
                accesses_found(true, connection.outputs@),
            ),
        },
        None => plus(expressions_found(true, connection.inputs@), accesses_found(true, connection.outputs@)),
    }
}

pub open spec fn connections_found(list: Seq<Connection>) -> Found
    decreases list.len(),
{
    if list.len() == 0 {
        nothing()
    } else {
        plus(connections_found(list.drop_last()), connection_found(list.last()))
    }
}

pub open spec fn blocks_found(list: Seq<Vec<Statement>>) -> Found
    decreases list.len(),
{
    if list.len() == 0 {
        nothing()
    } else {
        plus(blocks_found(list.drop_last()), statements_found(true, list.last()@))
    }
}

/// All elements and bits; nothing where they are unknown, or there is no bit.
pub open spec fn whole_access(whole: WholeAccess) -> Option<RegionAccess> {
    match (whole.array, whole.width) {
        (Some(length), Some(width)) => if width > 0 {
            Some(
                RegionAccess {
                    id: whole.id,
                    array: ArraySpan { start: 0, length },
                    packed: PackedSpan { start: 0, length: width },
                },
            )
        } else {
            None
        },
        _ => None,
    }
}

pub open spec fn touches_whole(formals: Seq<WholeAccess>, a: RegionAccess) -> bool {
    exists|i: int| 0 <= i < formals.len() && whole_access(#[trigger] formals[i]) == Some(a)
}

/// What the procedures and the connections of a module access and call.
pub open spec fn module_found(module: ModuleAccesses) -> Found {
    plus(blocks_found(module.procedures@), connections_found(module.connections@))
}

/// The accesses that split the variables of a module: those of its procedures and connections, of
/// the functions that they call, of the summaries of its instances and of the bodies of its
/// functions, and the formals as a whole.
pub open spec fn module_accesses(module: ModuleAccesses) -> Set<RegionAccess> {
    Set::new(
        |a: RegionAccess|
            {
                ||| module_found(module).accesses.contains(a)
                ||| called_accesses(true, module.bodies@, module_found(module).callees).contains(a)
                ||| module.summaries@.contains(a)
                ||| touches_whole(module.formals@, a)
                ||| blocks_found(module.declared@).accesses.contains(a)
            },
    )
}

fn collect_connection(connection: &Connection, out: &mut Collected)
    ensures
        gains(*old(out), *final(out), connection_found(*connection)),
{
    let ghost start = *out;
    if let Some(range) = connection.range {
        if let Some(packed) = PackedSpan::new(range.packed_start, range.packed_length) {
            let access = RegionAccess { id: range.id, array: range.array, packed };
            out.accesses.push(access);
            proof {
                assert(range_access(range) == Some(access));
                assert forall|a: RegionAccess| out.accesses@.contains(a) <==> (start.accesses@.contains(a) || a == access) by {
                    partition::lemma_contains_push(start.accesses@, access, a);
                }
                assert(out.found() =~= plus(start.found(), connection_found(*connection)));
            }
            return;
        }
    }
    collect_expressions(true, &connection.inputs, out);
    let ghost middle = *out;
    collect_accesses(true, &connection.outputs, out);
    proof {
        lemma_gains_both(start, middle, *out, expressions_found(true, connection.inputs@), accesses_found(true, connection.outputs@));
    }
}

fn collect_blocks(list: &Vec<Vec<Statement>>, out: &mut Collected)
    ensures
        gains(*old(out), *final(out), blocks_found(list@)),
{
    let ghost start = *out;
    proof {
        lemma_gains_nothing(start);
    }
    let mut i: usize = 0;
    while i < list.len()
        invariant
            i <= list@.len(),
            gains(start, *out, blocks_found(list@.take(i as int))),
        decreases list.len() - i,
    {
        let ghost before = *out;
        collect_statement_spans(true, &list[i], out);
        proof {
            assert(list@.take(i + 1).drop_last() =~= list@.take(i as int));
            lemma_gains_both(start, before, *out, blocks_found(list@.take(i as int)), statements_found(true, list@[i as int]@));
        }
        i = i + 1;
    }
    assert(list@.take(i as int) =~= list@);
}

/// Adds the accesses to formals as a whole.
fn add_whole_type_access(formals: &Vec<WholeAccess>, out: &mut Vec<RegionAccess>)
    ensures
        forall|a: RegionAccess| #[trigger]
            final(out)@.contains(a) <==> old(out)@.contains(a) || touches_whole(formals@, a),
{
    let ghost start = out@;
    let mut i: usize = 0;
    while i < formals.len()
        invariant
            i <= formals@.len(),
            forall|a: RegionAccess| #[trigger]
                out@.contains(a) <==> start.contains(a) || touches_whole(formals@.take(i as int), a),
        decreases formals@.len() - i,
    {
        let ghost before = out@;
        let whole = formals[i];
        let mut added: Option<RegionAccess> = None;
        if let (Some(length), Some(width)) = (whole.array, whole.width) {
            if let Some(packed) = PackedSpan::whole(width) {
                added = Some(RegionAccess { id: whole.id, array: ArraySpan { start: 0, length }, packed });
            }
        }
        if let Some(access) = added {
            out.push(access);
        }
        proof {
            assert(added == whole_access(whole));
            assert forall|a: RegionAccess| #[trigger] out@.contains(a) <==> start.contains(a) || touches_whole(formals@.take(i + 1), a) by {
                let taken = formals@.take(i as int);
                let longer = formals@.take(i + 1);
                if touches_whole(taken, a) {
                    let k = choose|k: int| 0 <= k < taken.len() && whole_access(#[trigger] taken[k]) == Some(a);
                    assert(whole_access(longer[k]) == Some(a));
                }
                if whole_access(whole) == Some(a) {
                    assert(whole_access(longer[i as int]) == Some(a));
                }
                if touches_whole(longer, a) {
                    let k = choose|k: int| 0 <= k < longer.len() && whole_access(#[trigger] longer[k]) == Some(a);
                    if k < i {
                        assert(whole_access(taken[k]) == Some(a));
                    }
                }
                if let Some(access) = added {
                    partition::lemma_contains_push(before, access, a);
                }
            }
        }
        i = i + 1;
    }
    assert(formals@.take(i as int) =~= formals@);
}

fn append(out: &mut Vec<RegionAccess>, more: &Vec<RegionAccess>)
    ensures
        forall|a: RegionAccess| #[trigger]
            final(out)@.contains(a) <==> old(out)@.contains(a) || more@.contains(a),
{
    let ghost start = out@;
    let mut i: usize = 0;
    while i < more.len()
        invariant
            i <= more@.len(),
            forall|a: RegionAccess| #[trigger]
                out@.contains(a) <==> start.contains(a) || more@.take(i as int).contains(a),
        decreases more@.len() - i,
    {
        let ghost before = out@;
        out.push(more[i]);
        proof {
            assert(more@.take(i + 1) =~= more@.take(i as int).push(more@[i as int]));
            assert forall|a: RegionAccess| #[trigger] out@.contains(a) <==> start.contains(a) || more@.take(i + 1).contains(a) by {
                partition::lemma_contains_push(before, more@[i as int], a);
                partition::lemma_contains_push(more@.take(i as int), more@[i as int], a);
            }
        }
        i = i + 1;
    }
    assert(more@.take(i as int) =~= more@);
}

/// All accesses of a module, with repetitions.
pub fn collect_module_accesses(module: &ModuleAccesses) -> (r: Vec<RegionAccess>)
    ensures
        forall|a: RegionAccess| #[trigger] r@.contains(a) <==> module_accesses(*module).contains(a),
{
    let mut out = Collected::new();
    let ghost first = out;
    collect_blocks(&module.procedures, &mut out);
    let ghost second = out;
    let mut i: usize = 0;
    proof {
        lemma_gains_nothing(second);
    }
    while i < module.connections.len()
        invariant
            i <= module.connections@.len(),
            gains(second, out, connections_found(module.connections@.take(i as int))),
        decreases module.connections@.len() - i,
    {
        let ghost before = out;
        collect_connection(&module.connections[i], &mut out);
        proof {
            assert(module.connections@.take(i + 1).drop_last() =~= module.connections@.take(i as int));
            lemma_gains_both(second, before, out, connections_found(module.connections@.take(i as int)), connection_found(module.connections@[i as int]));
        }
        i = i + 1;
    }
    proof {
        assert(module.connections@.take(i as int) =~= module.connections@);
        lemma_gains_both(first, second, out, blocks_found(module.procedures@), connections_found(module.connections@));
        assert(out.found() =~= module_found(*module));
    }
    let Collected { accesses, callees } = out;
    let mut accesses = accesses;
    proof {
        assert(Set::new(|c: u64| callees@.contains(c)) =~= module_found(*module).callees);
        assert forall|a: RegionAccess| #[trigger] accesses@.contains(a) <==> module_found(*module).accesses.contains(a) by {
            assert(out.found().accesses.contains(a) <==> module_found(*module).accesses.contains(a));
        }
    }
    let called = collect_called_function_body_spans(true, &module.bodies, callees);
    append(&mut accesses, &called);
    append(&mut accesses, &module.summaries);
    add_whole_type_access(&module.formals, &mut accesses);
    let mut declared = Collected::new();
    let ghost fresh = declared;
    collect_blocks(&module.declared, &mut declared);
    proof {
        assert(declared.found() =~= blocks_found(module.declared@));
        assert forall|a: RegionAccess| #[trigger] declared.accesses@.contains(a) <==> blocks_found(module.declared@).accesses.contains(a) by {
            assert(declared.found().accesses.contains(a) <==> blocks_found(module.declared@).accesses.contains(a));
        }
    }
    append(&mut accesses, &declared.accesses);
    proof {
        assert forall|a: RegionAccess| #[trigger] accesses@.contains(a) <==> module_accesses(*module).contains(a) by {
        }
    }
    accesses
}

/// Whether all accesses have a bit and ends that fit.
pub fn all_have_bits(accesses: &Vec<RegionAccess>) -> (r: bool)
    ensures
        r == forall|a: RegionAccess| #[trigger] accesses@.contains(a) ==> a.packed.wf(),
{
    let mut i: usize = 0;
    while i < accesses.len()
        invariant
            i <= accesses@.len(),
            forall|k: int| 0 <= k < i ==> (#[trigger] accesses@[k]).packed.wf(),
        decreases accesses@.len() - i,
    {
        let packed = accesses[i].packed;
        if packed.length == 0 || packed.start > usize::MAX - packed.length {
            assert(accesses@.contains(accesses@[i as int]));
            return false;
        }
        i = i + 1;
    }
    true
}

/// Splits the variables of a module where its accesses start and end.
pub fn build_bit_partition(module: &ModuleAccesses) -> (r: BitPartition)
    requires
        forall|a: RegionAccess| #[trigger] module_accesses(*module).contains(a) ==> a.packed.wf(),
    ensures
        r.wf(),
        exists|accesses: Seq<RegionAccess>|
            #![trigger partition::splits(accesses, Map::empty(), r.regions@)]
            (forall|a: RegionAccess| #[trigger]
                accesses.contains(a) <==> module_accesses(*module).contains(a))
                && partition::splits(accesses, Map::empty(), r.regions@),
{
    let accesses = collect_module_accesses(module);
    split_accesses(&accesses)
}

/// Splits the variables where accesses start and end.
pub fn split_accesses(accesses: &Vec<RegionAccess>) -> (r: BitPartition)
    requires
        forall|a: RegionAccess| #[trigger] accesses@.contains(a) ==> a.packed.wf(),
    ensures
        r.wf(),
        partition::splits(accesses@, Map::empty(), r.regions@),
{
    proof {
        assert forall|k: int| 0 <= k < accesses@.len() implies (#[trigger] accesses@[k]).packed.wf() by {
            assert(accesses@.contains(accesses@[k]));
        }
    }
    let endpoints: HashMap<u64, Vec<usize>> = HashMap::new();
    let regions = split_array_spans(accesses, &endpoints);
    let r = BitPartition::new(regions);
    proof {
        assert(endpoints@ =~= Map::empty());
        partition::splitting_gives_a_partition(accesses@, endpoints@, r);
    }
    r
}

} // verus!
