//! The ways in which an always_ff block may run, and that no read of a stored bit is missed on them.
use vstd::prelude::*;
use crate::self_reads;
use crate::write_count;
use crate::write_count::{Access, Call, Declaration, Expression, Seen, Statement, StorageKind};
use crate::written::{Element, Mark};

verus! {

/// Something that happens to a variable while a block runs.
pub enum Event {
    /// The access is read for an assignment into `into`, which has no destination for conditions,
    /// coordinates and the like.
    Read { access: Access, into: Seq<Access> },
    /// The access is assigned.
    Write(Access),
    /// The output of a call is copied into the access.
    CopyBack(Access),
}

/// The access may select this bit of the element. The ends of a range are given in either order.
pub open spec fn selects(access: Access, x: Element, bit: int) -> bool {
    access.location matches Some(location) && location.id == x.id && (location.candidates matches Some(
        candidates,
    ) && candidates@.contains(x.index)) && 0 <= bit <= usize::MAX && (location.range matches Some(
        range,
    ) ==> range.1 <= bit <= range.0 || range.0 <= bit <= range.1)
}

/// The access belongs to a variable that outlives the block.
pub open spec fn outlives(access: Access) -> bool {
    access.location matches Some(location) && location.kind == StorageKind::Shared
}

/// One of the accesses may select the element.
pub open spec fn goes_into(into: Seq<Access>, x: Element) -> bool {
    exists|i: int|
        0 <= i < into.len() && outlives(#[trigger] into[i]) && (into[i].location matches Some(
            location,
        ) && location.id == x.id && (location.candidates matches Some(candidates) && candidates@.contains(x.index)))
}

/// The event may store a new value in this bit of the element.
pub open spec fn event_stores(event: Event, x: Element, bit: int) -> bool {
    match event {
        Event::Read { access, into } => false,
        Event::Write(access) => outlives(access) && selects(access, x, bit),
        Event::CopyBack(access) => outlives(access) && selects(access, x, bit),
    }
}

/// The event needs the bit of the element as it was when the block started: an assignment of the
/// element reads it, or a call copies back into it.
pub open spec fn event_needs(event: Event, x: Element, bit: int) -> bool {
    match event {
        Event::Read { access, into } => goes_into(into, x) && selects(access, x, bit),
        Event::Write(access) => false,
        Event::CopyBack(access) => outlives(access) && selects(access, x, bit),
    }
}

/// On the path, the bit is stored by one event and needed by a later one.
pub open spec fn reads_what_it_wrote(path: Seq<Event>, i: int, j: int, x: Element, bit: int) -> bool {
    0 <= i < j < path.len() && event_stores(path[i], x, bit) && event_needs(path[j], x, bit)
}

pub open spec fn joins(path: Seq<Event>, first: Seq<Event>, rest: Seq<Event>) -> bool {
    path == first + rest
}

/// The path is one of the expression, evaluated for an assignment into `into`: one side of each
/// ternary is taken.
pub open spec fn runs_expression(expression: Expression, into: Seq<Access>, path: Seq<Event>) -> bool
    decreases expression,
{
    match expression {
        Expression::Value => path.len() == 0,
        Expression::Variable(access) => exists|first: Seq<Event>, rest: Seq<Event>| #[trigger]
            joins(path, first, rest) && runs_expressions(access.coordinates@, into, first) && rest == seq![
                Event::Read { access, into },
            ],
        Expression::Operands(operands) => runs_expressions(operands@, into, path),
        Expression::Ternary(condition, yes, no) => exists|first: Seq<Event>, rest: Seq<Event>| #[trigger]
            joins(path, first, rest) && runs_expression(*condition, into, first) && (runs_expression(
                *yes,
                into,
                rest,
            ) || runs_expression(*no, into, rest)),
        Expression::FunctionCall(call) => runs_call(call, into, path),
    }
}

pub open spec fn runs_expressions(list: Seq<Expression>, into: Seq<Access>, path: Seq<Event>) -> bool
    decreases list,
{
    if list.len() == 0 {
        path.len() == 0
    } else {
        exists|first: Seq<Event>, rest: Seq<Event>| #[trigger]
            joins(path, first, rest) && runs_expressions(list.drop_last(), into, first) && runs_expression(
                list.last(),
                into,
                rest,
            )
    }
}

/// The coordinates of the accesses are evaluated, one after the other.
pub open spec fn runs_coordinates(list: Seq<Access>, into: Seq<Access>, path: Seq<Event>) -> bool
    decreases list,
{
    if list.len() == 0 {
        path.len() == 0
    } else {
        exists|first: Seq<Event>, rest: Seq<Event>| #[trigger]
            joins(path, first, rest) && runs_coordinates(list.drop_last(), into, first) && runs_expressions(
                list.last().coordinates@,
                into,
                rest,
            )
    }
}

pub open spec fn runs_arguments(call: Call, into: Seq<Access>, path: Seq<Event>) -> bool
    decreases call, 0nat,
{
    exists|first: Seq<Event>, rest: Seq<Event>| #[trigger]
        joins(path, first, rest) && runs_expressions(call.inputs@, into, first) && runs_coordinates(
            call.outputs@,
            into,
            rest,
        )
}

/// The inputs of the call are evaluated, then its outputs copied back.
pub open spec fn runs_call(call: Call, into: Seq<Access>, path: Seq<Event>) -> bool
    decreases call, 1nat,
{
    exists|first: Seq<Event>, rest: Seq<Event>| #[trigger]
        joins(path, first, rest) && runs_arguments(call, into, first) && rest == Seq::new(
            call.outputs@.len(),
            |i: int| Event::CopyBack(call.outputs@[i]),
        )
}

pub open spec fn runs_value(expression: Expression, destinations: Seq<Access>, path: Seq<Event>) -> bool {
    exists|first: Seq<Event>, rest: Seq<Event>| #[trigger]
        joins(path, first, rest) && runs_expression(expression, destinations, first) && runs_coordinates(
            destinations,
            Seq::empty(),
            rest,
        )
}

/// The value is read for the destinations, their coordinates for nothing, and then they are assigned.
pub open spec fn runs_assign(expression: Expression, destinations: Seq<Access>, path: Seq<Event>) -> bool {
    exists|first: Seq<Event>, rest: Seq<Event>| #[trigger]
        joins(path, first, rest) && runs_value(expression, destinations, first) && rest == Seq::new(
            destinations.len(),
            |i: int| Event::Write(destinations[i]),
        )
}

pub open spec fn runs_one_of(blocks: Seq<Vec<Statement>>, path: Seq<Event>) -> bool
    decreases blocks, 0nat, 0nat,
{
    exists|k: int| 0 <= k < blocks.len() && runs_block((#[trigger] blocks[k])@, path)
}

/// The path is one of the statement: one side of each condition, of each if_reset and of each case
/// is taken, known iterations run in turn, and a body whose iterations are unknown runs any number
/// of times.
pub open spec fn runs_statement(statement: Statement, path: Seq<Event>) -> bool
    decreases statement, 0nat, 0nat,
{
    match statement {
        Statement::Assign { expression, destinations } => runs_assign(expression, destinations@, path),
        Statement::If { condition, yes, no } => exists|first: Seq<Event>, rest: Seq<Event>| #[trigger]
            joins(path, first, rest) && runs_expression(condition, Seq::empty(), first) && (runs_block(
                yes@,
                rest,
            ) || runs_block(no@, rest)),
        Statement::IfReset { yes, no } => runs_block(yes@, path) || runs_block(no@, path),
        Statement::Case { target, arms, default } => exists|first: Seq<Event>, rest: Seq<Event>| #[trigger]
            joins(path, first, rest) && runs_expression(target, Seq::empty(), first) && (runs_one_of(
                arms@,
                rest,
            ) || runs_block(default@, rest)),
        Statement::For { body, iterations } => match iterations {
            Some(bodies) => runs_in_turn(bodies@, path),
            None => runs_again_and_again(body@, path),
        },
        Statement::FunctionCall(call) => runs_call(call, Seq::empty(), path),
        Statement::Other => path.len() == 0,
    }
}

pub open spec fn runs_block(statements: Seq<Statement>, path: Seq<Event>) -> bool
    decreases statements, 0nat, 0nat,
{
    if statements.len() == 0 {
        path.len() == 0
    } else {
        exists|first: Seq<Event>, rest: Seq<Event>| #[trigger]
            joins(path, first, rest) && runs_block(statements.drop_last(), first) && runs_statement(
                statements.last(),
                rest,
            )
    }
}

pub open spec fn runs_in_turn(blocks: Seq<Vec<Statement>>, path: Seq<Event>) -> bool
    decreases blocks, 0nat, 0nat,
{
    if blocks.len() == 0 {
        path.len() == 0
    } else {
        exists|first: Seq<Event>, rest: Seq<Event>| #[trigger]
            joins(path, first, rest) && runs_in_turn(blocks.drop_last(), first) && runs_block(
                blocks.last()@,
                rest,
            )
    }
}

pub open spec fn times(count: nat) -> bool {
    true
}

/// The body runs any number of times.
pub open spec fn runs_again_and_again(body: Seq<Statement>, path: Seq<Event>) -> bool
    decreases body, 1nat, 0nat,
{
    exists|count: nat| #[trigger] times(count) && runs_often(body, count, path)
}

pub open spec fn runs_often(body: Seq<Statement>, count: nat, path: Seq<Event>) -> bool
    decreases body, 0nat, count,
{
    if count == 0 {
        path.len() == 0
    } else {
        exists|first: Seq<Event>, rest: Seq<Event>| #[trigger]
            joins(path, first, rest) && runs_often(body, (count - 1) as nat, first) && runs_block(
                body,
                rest,
            )
    }
}

/// No call stands in the expression.
pub open spec fn calls_nothing(expression: Expression) -> bool
    decreases expression,
{
    match expression {
        Expression::Value => true,
        Expression::Variable(access) => all_call_nothing(access.coordinates@),
        Expression::Operands(operands) => all_call_nothing(operands@),
        Expression::Ternary(condition, yes, no) => calls_nothing(*condition) && calls_nothing(*yes)
            && calls_nothing(*no),
        Expression::FunctionCall(call) => false,
    }
}

pub open spec fn all_call_nothing(list: Seq<Expression>) -> bool
    decreases list,
{
    list.len() == 0 || (all_call_nothing(list.drop_last()) && calls_nothing(list.last()))
}

/// No call stands in the coordinates of a variable that the expression reads.
pub open spec fn reads_plainly(expression: Expression) -> bool
    decreases expression,
{
    match expression {
        Expression::Value => true,
        Expression::Variable(access) => all_call_nothing(access.coordinates@),
        Expression::Operands(operands) => all_read_plainly(operands@),
        Expression::Ternary(condition, yes, no) => reads_plainly(*condition) && reads_plainly(*yes)
            && reads_plainly(*no),
        Expression::FunctionCall(call) => call_reads_plainly(call),
    }
}

pub open spec fn all_read_plainly(list: Seq<Expression>) -> bool
    decreases list,
{
    list.len() == 0 || (all_read_plainly(list.drop_last()) && reads_plainly(list.last()))
}

pub open spec fn coordinates_read_plainly(list: Seq<Access>) -> bool
    decreases list,
{
    list.len() == 0 || (coordinates_read_plainly(list.drop_last()) && all_read_plainly(
        list.last().coordinates@,
    ))
}

pub open spec fn call_reads_plainly(call: Call) -> bool
    decreases call,
{
    all_read_plainly(call.inputs@) && coordinates_read_plainly(call.outputs@)
}

pub open spec fn stores_somewhere(path: Seq<Event>, x: Element, bit: int) -> bool {
    exists|i: int| 0 <= i < path.len() && event_stores(#[trigger] path[i], x, bit)
}

pub open spec fn body_may_store(body: Seq<Statement>, x: Element, bit: int) -> bool {
    exists|path: Seq<Event>| #[trigger] runs_block(body, path) && stores_somewhere(path, x, bit)
}

/// What the iterations store, the body as it is written may store too.
pub open spec fn iterations_fit(bodies: Seq<Vec<Statement>>, body: Seq<Statement>) -> bool {
    forall|path: Seq<Event>, x: Element, bit: int| #[trigger]
        runs_in_turn(bodies, path) && #[trigger] stores_somewhere(path, x, bit) ==> body_may_store(
            body,
            x,
            bit,
        )
}

/// Everything that may be stored inside a loop whose iterations are unknown can be told from its
/// body before it runs. `inside` says that the statement stands in such a loop.
pub open spec fn foreseen_statement(statement: Statement, inside: bool) -> bool
    decreases statement,
{
    match statement {
        Statement::Assign { expression, destinations } => inside ==> reads_plainly(expression)
            && coordinates_read_plainly(destinations@),
        Statement::If { condition, yes, no } => (inside ==> reads_plainly(condition)) && foreseen_block(yes@, inside)
            && foreseen_block(no@, inside),
        Statement::IfReset { yes, no } => foreseen_block(yes@, inside) && foreseen_block(no@, inside),
        Statement::Case { target, arms, default } => (inside ==> reads_plainly(target))
            && foreseen_blocks(arms@, inside) && foreseen_block(default@, inside),
        Statement::For { body, iterations } => match iterations {
            Some(bodies) => foreseen_blocks(bodies@, inside) && (inside ==> foreseen_block(body@, true)
                && iterations_fit(bodies@, body@)),
            None => foreseen_block(body@, true),
        },
        Statement::FunctionCall(call) => inside ==> call_reads_plainly(call),
        Statement::Other => true,
    }
}

pub open spec fn foreseen_block(statements: Seq<Statement>, inside: bool) -> bool
    decreases statements,
{
    statements.len() == 0 || (foreseen_block(statements.drop_last(), inside) && foreseen_statement(
        statements.last(),
        inside,
    ))
}

pub open spec fn foreseen_blocks(blocks: Seq<Vec<Statement>>, inside: bool) -> bool
    decreases blocks,
{
    blocks.len() == 0 || (foreseen_blocks(blocks.drop_last(), inside) && foreseen_block(
        blocks.last()@,
        inside,
    ))
}

/// One of the groups has the bit.
spec fn marked(marks: Seq<Mark>, x: Element, bit: int) -> bool {
    exists|k: int| 0 <= k < marks.len() && (#[trigger] marks[k]).bits(false).contains((x, bit))
}

proof fn lemma_marked_both(a: Seq<Mark>, b: Seq<Mark>, x: Element, bit: int)
    ensures
        marked(a, x, bit) || marked(b, x, bit) ==> marked(a + b, x, bit),
{
    if marked(a, x, bit) {
        let k = choose|k: int| 0 <= k < a.len() && (#[trigger] a[k]).bits(false).contains((x, bit));
        assert((a + b)[k].bits(false).contains((x, bit)));
    } else if marked(b, x, bit) {
        let k = choose|k: int| 0 <= k < b.len() && (#[trigger] b[k]).bits(false).contains((x, bit));
        assert((a + b)[a.len() + k].bits(false).contains((x, bit)));
    }
}

proof fn lemma_stored_in_one(path: Seq<Event>, first: Seq<Event>, rest: Seq<Event>, x: Element, bit: int)
    requires
        joins(path, first, rest),
        stores_somewhere(path, x, bit),
    ensures
        stores_somewhere(first, x, bit) || stores_somewhere(rest, x, bit),
{
    let i = choose|i: int| 0 <= i < path.len() && event_stores(#[trigger] path[i], x, bit);
    if i < first.len() {
        assert(event_stores(first[i], x, bit));
    } else {
        assert(event_stores(rest[i - first.len()], x, bit));
    }
}

proof fn lemma_mark_of_access(access: Access, x: Element, bit: int)
    requires
        outlives(access),
        selects(access, x, bit),
    ensures
        write_count::write_marks(access).len() == 1,
        write_count::write_marks(access)[0].bits(false).contains((x, bit)),
        marked(write_count::write_marks(access), x, bit),
{
    assert(write_count::write_marks(access)[0].bits(false).contains((x, bit)));
}

proof fn lemma_no_call_stores_nothing(e: Expression, into: Seq<Access>, path: Seq<Event>, x: Element, bit: int)
    requires
        calls_nothing(e),
        runs_expression(e, into, path),
    ensures
        !stores_somewhere(path, x, bit),
    decreases e,
{
    match e {
        Expression::Variable(access) => {
            let (first, rest) = choose|first: Seq<Event>, rest: Seq<Event>| #[trigger]
                joins(path, first, rest) && runs_expressions(access.coordinates@, into, first) && rest == seq![
                    Event::Read { access, into },
                ];
            lemma_no_calls_store_nothing(access.coordinates@, into, first, x, bit);
            if stores_somewhere(path, x, bit) {
                lemma_stored_in_one(path, first, rest, x, bit);
            }
        },
        Expression::Operands(operands) => {
            lemma_no_calls_store_nothing(operands@, into, path, x, bit);
        },
        Expression::Ternary(condition, yes, no) => {
            let (first, rest) = choose|first: Seq<Event>, rest: Seq<Event>| #[trigger]
                joins(path, first, rest) && runs_expression(*condition, into, first) && (runs_expression(
                    *yes,
                    into,
                    rest,
                ) || runs_expression(*no, into, rest));
            lemma_no_call_stores_nothing(*condition, into, first, x, bit);
            if runs_expression(*yes, into, rest) {
                lemma_no_call_stores_nothing(*yes, into, rest, x, bit);
            } else {
                lemma_no_call_stores_nothing(*no, into, rest, x, bit);
            }
            if stores_somewhere(path, x, bit) {
                lemma_stored_in_one(path, first, rest, x, bit);
            }
        },
        _ => {},
    }
}

proof fn lemma_no_calls_store_nothing(list: Seq<Expression>, into: Seq<Access>, path: Seq<Event>, x: Element, bit: int)
    requires
        all_call_nothing(list),
        runs_expressions(list, into, path),
    ensures
        !stores_somewhere(path, x, bit),
    decreases list,
{
    if list.len() > 0 {
        let (first, rest) = choose|first: Seq<Event>, rest: Seq<Event>| #[trigger]
            joins(path, first, rest) && runs_expressions(list.drop_last(), into, first) && runs_expression(
                list.last(),
                into,
                rest,
            );
        lemma_no_calls_store_nothing(list.drop_last(), into, first, x, bit);
        lemma_no_call_stores_nothing(list.last(), into, rest, x, bit);
        if stores_somewhere(path, x, bit) {
            lemma_stored_in_one(path, first, rest, x, bit);
        }
    }
}

proof fn lemma_expression_marks(e: Expression, into: Seq<Access>, path: Seq<Event>, x: Element, bit: int)
    requires
        reads_plainly(e),
        runs_expression(e, into, path),
        stores_somewhere(path, x, bit),
    ensures
        marked(write_count::expression_marks(e), x, bit),
    decreases e,
{
    match e {
        Expression::Variable(access) => {
            lemma_no_call_stores_nothing(e, into, path, x, bit);
        },
        Expression::Operands(operands) => {
            lemma_expressions_marks(operands@, into, path, x, bit);
        },
        Expression::Ternary(condition, yes, no) => {
            let (first, rest) = choose|first: Seq<Event>, rest: Seq<Event>| #[trigger]
                joins(path, first, rest) && runs_expression(*condition, into, first) && (runs_expression(
                    *yes,
                    into,
                    rest,
                ) || runs_expression(*no, into, rest));
            lemma_stored_in_one(path, first, rest, x, bit);
            let a = write_count::expression_marks(*condition);
            let b = write_count::expression_marks(*yes);
            let c = write_count::expression_marks(*no);
            lemma_marked_both(a, b, x, bit);
            lemma_marked_both(a + b, c, x, bit);
            if stores_somewhere(first, x, bit) {
                lemma_expression_marks(*condition, into, first, x, bit);
            } else if runs_expression(*yes, into, rest) {
                lemma_expression_marks(*yes, into, rest, x, bit);
            } else {
                lemma_expression_marks(*no, into, rest, x, bit);
            }
        },
        Expression::FunctionCall(call) => {
            lemma_call_marks(call, into, path, x, bit);
        },
        _ => {},
    }
}

proof fn lemma_expressions_marks(list: Seq<Expression>, into: Seq<Access>, path: Seq<Event>, x: Element, bit: int)
    requires
        all_read_plainly(list),
        runs_expressions(list, into, path),
        stores_somewhere(path, x, bit),
    ensures
        marked(write_count::expressions_marks(list), x, bit),
    decreases list,
{
    if list.len() > 0 {
        let (first, rest) = choose|first: Seq<Event>, rest: Seq<Event>| #[trigger]
            joins(path, first, rest) && runs_expressions(list.drop_last(), into, first) && runs_expression(
                list.last(),
                into,
                rest,
            );
        lemma_stored_in_one(path, first, rest, x, bit);
        lemma_marked_both(
            write_count::expressions_marks(list.drop_last()),
            write_count::expression_marks(list.last()),
            x,
            bit,
        );
        if stores_somewhere(first, x, bit) {
            lemma_expressions_marks(list.drop_last(), into, first, x, bit);
        } else {
            lemma_expression_marks(list.last(), into, rest, x, bit);
        }
    }
}

proof fn lemma_coordinates_marks(list: Seq<Access>, into: Seq<Access>, path: Seq<Event>, x: Element, bit: int)
    requires
        coordinates_read_plainly(list),
        runs_coordinates(list, into, path),
        stores_somewhere(path, x, bit),
    ensures
        marked(write_count::accesses_marks(list), x, bit),
    decreases list,
{
    if list.len() > 0 {
        let (first, rest) = choose|first: Seq<Event>, rest: Seq<Event>| #[trigger]
            joins(path, first, rest) && runs_coordinates(list.drop_last(), into, first) && runs_expressions(
                list.last().coordinates@,
                into,
                rest,
            );
        lemma_stored_in_one(path, first, rest, x, bit);
        let a = write_count::accesses_marks(list.drop_last());
        let b = write_count::expressions_marks(list.last().coordinates@);
        lemma_marked_both(a, b, x, bit);
        lemma_marked_both(a + b, write_count::write_marks(list.last()), x, bit);
        if stores_somewhere(first, x, bit) {
            lemma_coordinates_marks(list.drop_last(), into, first, x, bit);
        } else {
            lemma_expressions_marks(list.last().coordinates@, into, rest, x, bit);
        }
    }
}

proof fn lemma_stored_access_marks(list: Seq<Access>, i: int, x: Element, bit: int)
    requires
        0 <= i < list.len(),
        outlives(list[i]),
        selects(list[i], x, bit),
    ensures
        marked(write_count::accesses_marks(list), x, bit),
        marked(write_count::all_write_marks(list), x, bit),
    decreases list.len(),
{
    let a = write_count::accesses_marks(list.drop_last());
    let b = write_count::expressions_marks(list.last().coordinates@);
    let c = write_count::write_marks(list.last());
    lemma_marked_both(a, b, x, bit);
    lemma_marked_both(a + b, c, x, bit);
    lemma_marked_both(write_count::all_write_marks(list.drop_last()), c, x, bit);
    if i == list.len() - 1 {
        lemma_mark_of_access(list[i], x, bit);
    } else {
        assert(list.drop_last()[i] == list[i]);
        lemma_stored_access_marks(list.drop_last(), i, x, bit);
    }
}

proof fn lemma_call_marks(call: Call, into: Seq<Access>, path: Seq<Event>, x: Element, bit: int)
    requires
        call_reads_plainly(call),
        runs_call(call, into, path),
        stores_somewhere(path, x, bit),
    ensures
        marked(write_count::call_marks(call), x, bit),
    decreases call,
{
    let copies = Seq::new(call.outputs@.len(), |i: int| Event::CopyBack(call.outputs@[i]));
    let (first, rest) = choose|first: Seq<Event>, rest: Seq<Event>| #[trigger]
        joins(path, first, rest) && runs_arguments(call, into, first) && rest == copies;
    lemma_stored_in_one(path, first, rest, x, bit);
    lemma_marked_both(
        write_count::expressions_marks(call.inputs@),
        write_count::accesses_marks(call.outputs@),
        x,
        bit,
    );
    if stores_somewhere(first, x, bit) {
        let (one, two) = choose|one: Seq<Event>, two: Seq<Event>| #[trigger]
            joins(first, one, two) && runs_expressions(call.inputs@, into, one) && runs_coordinates(
                call.outputs@,
                into,
                two,
            );
        lemma_stored_in_one(first, one, two, x, bit);
        if stores_somewhere(one, x, bit) {
            lemma_expressions_marks(call.inputs@, into, one, x, bit);
        } else {
            lemma_coordinates_marks(call.outputs@, into, two, x, bit);
        }
    } else {
        let i = choose|i: int| 0 <= i < rest.len() && event_stores(#[trigger] rest[i], x, bit);
        lemma_stored_access_marks(call.outputs@, i, x, bit);
    }
}

proof fn lemma_statement_marks(statement: Statement, path: Seq<Event>, x: Element, bit: int)
    requires
        foreseen_statement(statement, true),
        runs_statement(statement, path),
        stores_somewhere(path, x, bit),
    ensures
        marked(write_count::statement_marks(statement), x, bit),
    decreases statement, 0nat,
{
    match statement {
        Statement::Assign { expression, destinations } => {
            let writes = Seq::new(destinations@.len(), |i: int| Event::Write(destinations@[i]));
            let (first, rest) = choose|first: Seq<Event>, rest: Seq<Event>| #[trigger]
                joins(path, first, rest) && runs_value(expression, destinations@, first) && rest == writes;
            lemma_stored_in_one(path, first, rest, x, bit);
            lemma_marked_both(
                write_count::expression_marks(expression),
                write_count::accesses_marks(destinations@),
                x,
                bit,
            );
            if stores_somewhere(first, x, bit) {
                let (one, two) = choose|one: Seq<Event>, two: Seq<Event>| #[trigger]
                    joins(first, one, two) && runs_expression(expression, destinations@, one) && runs_coordinates(
                        destinations@,
                        Seq::empty(),
                        two,
                    );
                lemma_stored_in_one(first, one, two, x, bit);
                if stores_somewhere(one, x, bit) {
                    lemma_expression_marks(expression, destinations@, one, x, bit);
                } else {
                    lemma_coordinates_marks(destinations@, Seq::empty(), two, x, bit);
                }
            } else {
                let i = choose|i: int| 0 <= i < rest.len() && event_stores(#[trigger] rest[i], x, bit);
                lemma_stored_access_marks(destinations@, i, x, bit);
            }
        },
        Statement::If { condition, yes, no } => {
            let (first, rest) = choose|first: Seq<Event>, rest: Seq<Event>| #[trigger]
                joins(path, first, rest) && runs_expression(condition, Seq::empty(), first) && (runs_block(
                    yes@,
                    rest,
                ) || runs_block(no@, rest));
            lemma_stored_in_one(path, first, rest, x, bit);
            let a = write_count::expression_marks(condition);
            let b = write_count::block_marks(yes@);
            lemma_marked_both(a, b, x, bit);
            lemma_marked_both(a + b, write_count::block_marks(no@), x, bit);
            if stores_somewhere(first, x, bit) {
                lemma_expression_marks(condition, Seq::empty(), first, x, bit);
            } else if runs_block(yes@, rest) {
                lemma_block_marks(yes@, rest, x, bit);
            } else {
                lemma_block_marks(no@, rest, x, bit);
            }
        },
        Statement::IfReset { yes, no } => {
            lemma_marked_both(write_count::block_marks(yes@), write_count::block_marks(no@), x, bit);
            if runs_block(yes@, path) {
                lemma_block_marks(yes@, path, x, bit);
            } else {
                lemma_block_marks(no@, path, x, bit);
            }
        },
        Statement::Case { target, arms, default } => {
            let (first, rest) = choose|first: Seq<Event>, rest: Seq<Event>| #[trigger]
                joins(path, first, rest) && runs_expression(target, Seq::empty(), first) && (runs_one_of(
                    arms@,
                    rest,
                ) || runs_block(default@, rest));
            lemma_stored_in_one(path, first, rest, x, bit);
            let a = write_count::expression_marks(target);
            let b = write_count::blocks_marks(arms@);
            lemma_marked_both(a, b, x, bit);
            lemma_marked_both(a + b, write_count::block_marks(default@), x, bit);
            if stores_somewhere(first, x, bit) {
                lemma_expression_marks(target, Seq::empty(), first, x, bit);
            } else if runs_block(default@, rest) {
                lemma_block_marks(default@, rest, x, bit);
            } else {
                lemma_blocks_marks(arms@, rest, x, bit);
            }
        },
        Statement::For { body, iterations } => match iterations {
            Some(bodies) => {
                assert(runs_in_turn(bodies@, path));
                assert(iterations_fit(bodies@, body@));
                assert(body_may_store(body@, x, bit));
                let other = choose|other: Seq<Event>| #[trigger]
                    runs_block(body@, other) && stores_somewhere(other, x, bit);
                lemma_block_marks(body@, other, x, bit);
            },
            None => {
                assert(runs_again_and_again(body@, path));
                let count = choose|count: nat| #[trigger] times(count) && runs_often(body@, count, path);
                lemma_often_marks(body@, count, path, x, bit);
            },
        },
        Statement::FunctionCall(call) => {
            lemma_call_marks(call, Seq::empty(), path, x, bit);
        },
        Statement::Other => {},
    }
}

proof fn lemma_block_marks(statements: Seq<Statement>, path: Seq<Event>, x: Element, bit: int)
    requires
        foreseen_block(statements, true),
        runs_block(statements, path),
        stores_somewhere(path, x, bit),
    ensures
        marked(write_count::block_marks(statements), x, bit),
    decreases statements, 0nat,
{
    if statements.len() > 0 {
        let (first, rest) = choose|first: Seq<Event>, rest: Seq<Event>| #[trigger]
            joins(path, first, rest) && runs_block(statements.drop_last(), first) && runs_statement(
                statements.last(),
                rest,
            );
        lemma_stored_in_one(path, first, rest, x, bit);
        lemma_marked_both(
            write_count::block_marks(statements.drop_last()),
            write_count::statement_marks(statements.last()),
            x,
            bit,
        );
        if stores_somewhere(first, x, bit) {
            lemma_block_marks(statements.drop_last(), first, x, bit);
        } else {
            lemma_statement_marks(statements.last(), rest, x, bit);
        }
    }
}

proof fn lemma_blocks_marks(blocks: Seq<Vec<Statement>>, path: Seq<Event>, x: Element, bit: int)
    requires
        foreseen_blocks(blocks, true),
        runs_one_of(blocks, path),
        stores_somewhere(path, x, bit),
    ensures
        marked(write_count::blocks_marks(blocks), x, bit),
    decreases blocks, 0nat,
{
    if blocks.len() > 0 {
        lemma_marked_both(
            write_count::blocks_marks(blocks.drop_last()),
            write_count::block_marks(blocks.last()@),
            x,
            bit,
        );
        let k = choose|k: int| 0 <= k < blocks.len() && runs_block((#[trigger] blocks[k])@, path);
        if k == blocks.len() - 1 {
            lemma_block_marks(blocks.last()@, path, x, bit);
        } else {
            assert(blocks.drop_last()[k] == blocks[k]);
            lemma_blocks_marks(blocks.drop_last(), path, x, bit);
        }
    }
}

proof fn lemma_often_marks(body: Seq<Statement>, count: nat, path: Seq<Event>, x: Element, bit: int)
    requires
        foreseen_block(body, true),
        runs_often(body, count, path),
        stores_somewhere(path, x, bit),
    ensures
        marked(write_count::block_marks(body), x, bit),
    decreases body, count,
{
    if count > 0 {
        let (first, rest) = choose|first: Seq<Event>, rest: Seq<Event>| #[trigger]
            joins(path, first, rest) && runs_often(body, (count - 1) as nat, first) && runs_block(
                body,
                rest,
            );
        lemma_stored_in_one(path, first, rest, x, bit);
        if stores_somewhere(first, x, bit) {
            lemma_often_marks(body, (count - 1) as nat, first, x, bit);
        } else {
            lemma_block_marks(body, rest, x, bit);
        }
    }
}

/// Every group that was written counts as written.
spec fn sound(seen: Seen) -> bool {
    forall|k: int, x: Element, bit: int|
        0 <= k < seen.writes.len() && #[trigger] seen.writes[k].bits(false).contains((x, bit))
            ==> seen.written.contains((x, bit))
}

/// The walk went on from `a` to `b`: what it wrote in between is listed at the end.
spec fn extends(a: Seen, b: Seen) -> bool {
    &&& sound(b)
    &&& a.writes.len() <= b.writes.len()
    &&& a.written.subset_of(b.written)
    &&& a.found.subset_of(b.found)
    &&& forall|x: Element, bit: int| #[trigger]
        b.written.contains((x, bit)) ==> a.written.contains((x, bit)) || marked(
            b.writes.skip(a.writes.len() as int),
            x,
            bit,
        )
    &&& b.writes.take(a.writes.len() as int) == a.writes
}

proof fn lemma_marked_later(writes: Seq<Mark>, from: int, earlier: int, x: Element, bit: int)
    requires
        0 <= earlier <= from <= writes.len(),
        marked(writes.skip(from), x, bit),
    ensures
        marked(writes.skip(earlier), x, bit),
{
    let k = choose|k: int| 0 <= k < writes.skip(from).len() && (#[trigger] writes.skip(from)[k]).bits(false).contains((x, bit));
    assert(writes.skip(earlier)[k + from - earlier] == writes.skip(from)[k]);
    assert(writes.skip(earlier)[k + from - earlier].bits(false).contains((x, bit)));
}

proof fn lemma_extends_self(a: Seen)
    requires
        sound(a),
    ensures
        extends(a, a),
{
    assert(a.writes.take(a.writes.len() as int) =~= a.writes);
}

proof fn lemma_extends_trans(a: Seen, b: Seen, c: Seen)
    requires
        extends(a, b),
        extends(b, c),
    ensures
        extends(a, c),
{
    assert(c.writes.take(a.writes.len() as int) =~= b.writes.take(a.writes.len() as int)) by {
        assert forall|k: int| 0 <= k < a.writes.len() implies c.writes[k] == b.writes[k] by {
            assert(c.writes.take(b.writes.len() as int)[k] == b.writes[k]);
        }
    }
    assert forall|x: Element, bit: int| #[trigger] c.written.contains((x, bit)) implies a.written.contains((x, bit)) || marked(
        c.writes.skip(a.writes.len() as int),
        x,
        bit,
    ) by {
        if b.written.contains((x, bit)) {
            if !a.written.contains((x, bit)) {
                let new = b.writes.skip(a.writes.len() as int);
                let k = choose|k: int| 0 <= k < new.len() && (#[trigger] new[k]).bits(false).contains((x, bit));
                assert(c.writes.take(b.writes.len() as int)[k + a.writes.len()] == new[k]);
                assert(c.writes.skip(a.writes.len() as int)[k] == new[k]);
                assert(c.writes.skip(a.writes.len() as int)[k].bits(false).contains((x, bit)));
            }
        } else {
            lemma_marked_later(c.writes, b.writes.len() as int, a.writes.len() as int, x, bit);
        }
    }
}

proof fn lemma_wrote_one(seen: Seen, mark: Mark)
    requires
        sound(seen),
    ensures
        extends(seen, write_count::wrote_one(seen, mark, false)),
        forall|x: Element, bit: int|
            mark.bits(false).contains((x, bit)) ==> #[trigger] write_count::wrote_one(seen, mark, false).written.contains((x, bit)),
{
    let after = write_count::wrote_one(seen, mark, false);
    if seen.writes.contains(mark) {
        lemma_extends_self(seen);
        let k = choose|k: int| 0 <= k < seen.writes.len() && seen.writes[k] == mark;
        assert forall|x: Element, bit: int| mark.bits(false).contains((x, bit)) implies #[trigger] after.written.contains((x, bit)) by {
            assert(seen.writes[k].bits(false).contains((x, bit)));
        }
    } else {
        assert(after.writes.take(seen.writes.len() as int) =~= seen.writes);
        assert forall|k: int, x: Element, bit: int| 0 <= k < after.writes.len() && #[trigger] after.writes[k].bits(false).contains((x, bit)) implies after.written.contains((x, bit)) by {
            if k < seen.writes.len() {
                assert(seen.writes[k].bits(false).contains((x, bit)));
            }
        }
        assert forall|x: Element, bit: int| #[trigger] after.written.contains((x, bit)) implies seen.written.contains((x, bit)) || marked(
            after.writes.skip(seen.writes.len() as int),
            x,
            bit,
        ) by {
            assert(after.writes.skip(seen.writes.len() as int)[0] == mark);
        }
    }
}

proof fn lemma_wrote(seen: Seen, marks: Seq<Mark>)
    requires
        sound(seen),
    ensures
        extends(seen, write_count::wrote(seen, marks, false)),
        write_count::wrote(seen, marks, false).reads == seen.reads,
        forall|x: Element, bit: int| #[trigger]
            marked(marks, x, bit) ==> write_count::wrote(seen, marks, false).written.contains((x, bit)),
    decreases marks.len(),
{
    if marks.len() == 0 {
        lemma_extends_self(seen);
    } else {
        let before = write_count::wrote(seen, marks.drop_last(), false);
        lemma_wrote(seen, marks.drop_last());
        lemma_wrote_one(before, marks.last());
        lemma_extends_trans(seen, before, write_count::wrote(seen, marks, false));
        assert forall|x: Element, bit: int| #[trigger] marked(marks, x, bit) implies write_count::wrote(seen, marks, false).written.contains((x, bit)) by {
            let k = choose|k: int| 0 <= k < marks.len() && (#[trigger] marks[k]).bits(false).contains((x, bit));
            if k < marks.len() - 1 {
                assert(marks.drop_last()[k].bits(false).contains((x, bit)));
                assert(marked(marks.drop_last(), x, bit));
                assert(before.written.contains((x, bit)));
            }
        }
    }
}

spec fn stored_before(path: Seq<Event>, j: int, x: Element, bit: int) -> bool {
    exists|i: int| 0 <= i < j && event_stores(#[trigger] path[i], x, bit)
}

/// The read is remembered, or its element found.
spec fn caught(b: Seen, into: Seq<Access>, x: Element, bit: int) -> bool {
    b.found.contains(x) || (goes_into(into, x) && b.reads.contains((x, bit)))
}

/// The walk from `a` to `b` takes in everything that happens on the path.
spec fn covers(a: Seen, b: Seen, path: Seq<Event>, into: Seq<Access>) -> bool {
    &&& extends(a, b)
    &&& forall|i: int, x: Element, bit: int|
        0 <= i < path.len() && #[trigger] event_stores(path[i], x, bit) ==> b.written.contains((x, bit))
    &&& forall|x: Element, bit: int|
        goes_into(into, x) && #[trigger] a.reads.contains((x, bit)) && a.written.contains((x, bit)) ==> caught(
            b,
            into,
            x,
            bit,
        )
    &&& forall|j: int, x: Element, bit: int|
        0 <= j < path.len() && #[trigger] event_needs(path[j], x, bit) && (a.written.contains((x, bit)) || stored_before(
            path,
            j,
            x,
            bit,
        )) ==> caught(b, into, x, bit)
}

proof fn lemma_covers_nothing(a: Seen, path: Seq<Event>, into: Seq<Access>)
    requires
        sound(a),
        path.len() == 0,
    ensures
        covers(a, a, path, into),
{
    lemma_extends_self(a);
}

proof fn lemma_covers_both(a: Seen, b: Seen, c: Seen, path: Seq<Event>, first: Seq<Event>, rest: Seq<Event>, into: Seq<Access>)
    requires
        joins(path, first, rest),
        covers(a, b, first, into),
        covers(b, c, rest, into),
    ensures
        covers(a, c, path, into),
{
    lemma_extends_trans(a, b, c);
    assert forall|i: int, x: Element, bit: int| 0 <= i < path.len() && #[trigger] event_stores(path[i], x, bit) implies c.written.contains((x, bit)) by {
        if i < first.len() {
            assert(event_stores(first[i], x, bit));
            assert(b.written.contains((x, bit)));
        } else {
            assert(event_stores(rest[i - first.len()], x, bit));
        }
    }
    assert forall|x: Element, bit: int| caught(b, into, x, bit) && #[trigger] b.written.contains((x, bit)) implies caught(c, into, x, bit) by {
        if !b.found.contains(x) {
            assert(b.reads.contains((x, bit)));
        }
    }
    assert forall|x: Element, bit: int| goes_into(into, x) && #[trigger] a.reads.contains((x, bit)) && a.written.contains((x, bit)) implies caught(
        c,
        into,
        x,
        bit,
    ) by {
        assert(caught(b, into, x, bit));
        assert(b.written.contains((x, bit)));
    }
    assert forall|j: int, x: Element, bit: int|
        0 <= j < path.len() && #[trigger] event_needs(path[j], x, bit) && (a.written.contains((x, bit)) || stored_before(
            path,
            j,
            x,
            bit,
        )) implies caught(c, into, x, bit) by {
        if j < first.len() {
            assert(event_needs(first[j], x, bit));
            if stored_before(path, j, x, bit) {
                let i = choose|i: int| 0 <= i < j && event_stores(#[trigger] path[i], x, bit);
                assert(event_stores(first[i], x, bit));
                assert(stored_before(first, j, x, bit));
                assert(b.written.contains((x, bit)));
            }
            assert(b.written.contains((x, bit)));
            assert(caught(b, into, x, bit));
        } else {
            let k = j - first.len();
            assert(event_needs(rest[k], x, bit));
            if !a.written.contains((x, bit)) {
                let i = choose|i: int| 0 <= i < j && event_stores(#[trigger] path[i], x, bit);
                if i < first.len() {
                    assert(event_stores(first[i], x, bit));
                    assert(b.written.contains((x, bit)));
                } else {
                    assert(event_stores(rest[i - first.len()], x, bit));
                    assert(stored_before(rest, k, x, bit));
                }
            }
        }
    }
}

/// Nothing is left to be found.
spec fn settles(a: Seen, b: Seen, path: Seq<Event>, into: Seq<Access>) -> bool {
    &&& covers(a, b, path, into)
    &&& b.reads == Set::<(Element, int)>::empty()
}

spec fn matched(into: Seq<Access>, targets: Set<Element>) -> bool {
    forall|x: Element| #[trigger] goes_into(into, x) ==> targets.contains(x)
}

proof fn lemma_flush(a: Seen, b: Seen, path: Seq<Event>, into: Seq<Access>, targets: Set<Element>)
    requires
        covers(a, b, path, into),
        matched(into, targets),
    ensures
        settles(a, write_count::flushed(b, targets), path, into),
{
    let c = write_count::flushed(b, targets);
    lemma_extends_self(b);
    assert(extends(a, c)) by {
        assert forall|x: Element, bit: int| #[trigger] c.written.contains((x, bit)) implies a.written.contains((x, bit)) || marked(
            c.writes.skip(a.writes.len() as int),
            x,
            bit,
        ) by {
            assert(b.written.contains((x, bit)));
        }
        assert forall|k: int, x: Element, bit: int| 0 <= k < c.writes.len() && #[trigger] c.writes[k].bits(false).contains((x, bit)) implies c.written.contains((x, bit)) by {
            assert(b.writes[k].bits(false).contains((x, bit)));
        }
    }
    assert forall|x: Element, bit: int| caught(b, into, x, bit) && #[trigger] b.written.contains((x, bit)) implies c.found.contains(x) by {
        if !b.found.contains(x) {
            assert(b.reads.contains((x, bit)) && b.written.contains((x, bit)));
            assert(targets.contains(x));
        }
    }
    assert forall|x: Element, bit: int| goes_into(into, x) && #[trigger] a.reads.contains((x, bit)) && a.written.contains((x, bit)) implies caught(
        c,
        into,
        x,
        bit,
    ) by {
        assert(b.written.contains((x, bit)));
    }
    assert forall|j: int, x: Element, bit: int|
        0 <= j < path.len() && #[trigger] event_needs(path[j], x, bit) && (a.written.contains((x, bit)) || stored_before(
            path,
            j,
            x,
            bit,
        )) implies caught(c, into, x, bit) by {
        if !a.written.contains((x, bit)) {
            let i = choose|i: int| 0 <= i < j && event_stores(#[trigger] path[i], x, bit);
            assert(event_stores(path[i], x, bit));
        }
        assert(b.written.contains((x, bit)));
    }
}

/// What is settled for some destinations is settled whatever the reads were for.
proof fn lemma_settled(a: Seen, b: Seen, path: Seq<Event>, into: Seq<Access>)
    requires
        settles(a, b, path, into),
    ensures
        settles(a, b, path, Seq::empty()),
{
    assert forall|j: int, x: Element, bit: int|
        0 <= j < path.len() && #[trigger] event_needs(path[j], x, bit) && (a.written.contains((x, bit)) || stored_before(
            path,
            j,
            x,
            bit,
        )) implies caught(b, Seq::empty(), x, bit) by {
        assert(caught(b, into, x, bit));
    }
}

/// A path that is covered up to `b` is covered up to any later point of which nothing is awaited.
proof fn lemma_covers_more(a: Seen, b: Seen, c: Seen, path: Seq<Event>, into: Seq<Access>)
    requires
        covers(a, b, path, into),
        b.reads == Set::<(Element, int)>::empty(),
        extends(a, c),
        b.written.subset_of(c.written),
        b.found.subset_of(c.found),
    ensures
        covers(a, c, path, into),
{
    assert forall|i: int, x: Element, bit: int| 0 <= i < path.len() && #[trigger] event_stores(path[i], x, bit) implies c.written.contains((x, bit)) by {
        assert(b.written.contains((x, bit)));
    }
    assert forall|x: Element, bit: int| #[trigger] caught(b, into, x, bit) implies caught(c, into, x, bit) by {
        assert(!b.reads.contains((x, bit)));
    }
}

/// An alternative starts where the others do, with what they found.
proof fn lemma_alternative(entry: Seen, before: Seen, b: Seen, path: Seq<Event>, into: Seq<Access>)
    requires
        settles(write_count::alternative(entry, before), b, path, into),
        entry.found.subset_of(before.found),
        entry.reads == Set::<(Element, int)>::empty(),
    ensures
        settles(entry, b, path, into),
{
    let start = write_count::alternative(entry, before);
    assert(extends(entry, b)) by {
        assert forall|x: Element, bit: int| #[trigger] b.written.contains((x, bit)) implies entry.written.contains((x, bit)) || marked(
            b.writes.skip(entry.writes.len() as int),
            x,
            bit,
        ) by {
            assert(start.written.contains((x, bit)) || marked(b.writes.skip(start.writes.len() as int), x, bit));
        }
    }
    assert forall|j: int, x: Element, bit: int|
        0 <= j < path.len() && #[trigger] event_needs(path[j], x, bit) && (entry.written.contains((x, bit)) || stored_before(
            path,
            j,
            x,
            bit,
        )) implies caught(b, into, x, bit) by {
        assert(start.written.contains((x, bit)) || stored_before(path, j, x, bit));
    }
}

proof fn lemma_sound_alternative(entry: Seen, before: Seen)
    requires
        sound(entry),
    ensures
        sound(write_count::alternative(entry, before)),
{
    let start = write_count::alternative(entry, before);
    assert forall|k: int, x: Element, bit: int| 0 <= k < start.writes.len() && #[trigger] start.writes[k].bits(false).contains((x, bit)) implies start.written.contains((x, bit)) by {
        assert(entry.writes[k].bits(false).contains((x, bit)));
    }
}

proof fn lemma_joined(entry: Seen, first: Seen, second: Seen)
    requires
        extends(entry, first),
        extends(write_count::alternative(entry, first), second),
    ensures
        extends(entry, write_count::joined(entry, first, second, false)),
        first.written.subset_of(write_count::joined(entry, first, second, false).written),
        second.written.subset_of(write_count::joined(entry, first, second, false).written),
        first.found.subset_of(write_count::joined(entry, first, second, false).found),
        second.found.subset_of(write_count::joined(entry, first, second, false).found),
        write_count::joined(entry, first, second, false).reads == Set::<(Element, int)>::empty(),
{
    let own = write_count::own_writes(entry, first);
    let start = write_count::alternative(entry, first);
    let all = write_count::wrote(second, own, false);
    let r = write_count::joined(entry, first, second, false);
    lemma_wrote(second, own);
    lemma_extends_trans(start, second, all);
    assert(extends(entry, r)) by {
        assert forall|x: Element, bit: int| #[trigger] r.written.contains((x, bit)) implies entry.written.contains((x, bit)) || marked(
            r.writes.skip(entry.writes.len() as int),
            x,
            bit,
        ) by {
            assert(all.written.contains((x, bit)));
            assert(start.written.contains((x, bit)) || marked(all.writes.skip(start.writes.len() as int), x, bit));
        }
        assert forall|k: int, x: Element, bit: int| 0 <= k < r.writes.len() && #[trigger] r.writes[k].bits(false).contains((x, bit)) implies r.written.contains((x, bit)) by {
            assert(all.writes[k].bits(false).contains((x, bit)));
        }
    }
    assert forall|p: (Element, int)| first.written.contains(p) implies r.written.contains(p) by {
        let (x, bit) = p;
        assert(first.written.contains((x, bit)));
        if entry.written.contains((x, bit)) {
            assert(start.written.contains((x, bit)));
        } else {
            assert(marked(own, x, bit));
        }
        assert(all.written.contains((x, bit)));
    }
}

proof fn lemma_copies(outputs: Seq<Access>, seen: Seen, path: Seq<Event>, into: Seq<Access>)
    requires
        sound(seen),
        path == Seq::new(outputs.len(), |i: int| Event::CopyBack(outputs[i])),
    ensures
        covers(seen, write_count::copied_back(outputs, false, seen), path, into),
    decreases outputs.len(),
{
    if outputs.len() == 0 {
        lemma_covers_nothing(seen, path, into);
    } else {
        let shorter = outputs.drop_last();
        let first = Seq::new(shorter.len(), |i: int| Event::CopyBack(shorter[i]));
        let rest = seq![Event::CopyBack(outputs.last())];
        assert(path =~= first + rest);
        lemma_copies(shorter, seen, first, into);
        let before = write_count::copied_back(shorter, false, seen);
        let after = write_count::copied_back(outputs, false, seen);
        let marks = write_count::write_marks(outputs.last());
        let wrote = write_count::wrote(before, marks, false);
        lemma_wrote(before, marks);
        assert(extends(before, after)) by {
            assert forall|x: Element, bit: int| #[trigger] after.written.contains((x, bit)) implies before.written.contains((x, bit)) || marked(
                after.writes.skip(before.writes.len() as int),
                x,
                bit,
            ) by {
                assert(wrote.written.contains((x, bit)));
            }
            assert forall|k: int, x: Element, bit: int| 0 <= k < after.writes.len() && #[trigger] after.writes[k].bits(false).contains((x, bit)) implies after.written.contains((x, bit)) by {
                assert(wrote.writes[k].bits(false).contains((x, bit)));
            }
            assert(before.written.subset_of(wrote.written));
        }
        assert forall|i: int, x: Element, bit: int| 0 <= i < rest.len() && #[trigger] event_stores(rest[i], x, bit) implies after.written.contains((x, bit)) by {
            lemma_mark_of_access(outputs.last(), x, bit);
        }
        assert forall|j: int, x: Element, bit: int|
            0 <= j < rest.len() && #[trigger] event_needs(rest[j], x, bit) && (before.written.contains((x, bit)) || stored_before(
                rest,
                j,
                x,
                bit,
            )) implies caught(after, into, x, bit) by {
            let bits = write_count::write_bits(outputs.last(), false);
            assert(bits.contains((x, bit)) && before.written.contains((x, bit)));
        }
        assert(covers(before, after, rest, into));
        lemma_covers_both(seen, before, after, path, first, rest, into);
    }
}

proof fn lemma_expression(e: Expression, into: Seq<Access>, targets: Set<Element>, seen: Seen, path: Seq<Event>)
    requires
        sound(seen),
        matched(into, targets),
        runs_expression(e, into, path),
    ensures
        covers(seen, write_count::expression_seen(e, targets, false, seen), path, into),
    decreases e, 0nat,
{
    match e {
        Expression::Value => {
            lemma_covers_nothing(seen, path, into);
        },
        Expression::Variable(access) => {
            let (first, rest) = choose|first: Seq<Event>, rest: Seq<Event>| #[trigger]
                joins(path, first, rest) && runs_expressions(access.coordinates@, into, first) && rest == seq![
                    Event::Read { access, into },
                ];
            lemma_expressions(access.coordinates@, into, targets, seen, first);
            let middle = write_count::expressions_seen(access.coordinates@, targets, false, seen);
            let after = write_count::expression_seen(e, targets, false, seen);
            lemma_extends_self(middle);
            assert(extends(middle, after)) by {
                assert forall|k: int, x: Element, bit: int| 0 <= k < after.writes.len() && #[trigger] after.writes[k].bits(false).contains((x, bit)) implies after.written.contains((x, bit)) by {
                    assert(middle.writes[k].bits(false).contains((x, bit)));
                }
            }
            assert forall|j: int, x: Element, bit: int| 0 <= j < rest.len() && #[trigger] event_needs(rest[j], x, bit) implies caught(after, into, x, bit) by {
                assert(write_count::read_bits(access, false).contains((x, bit)));
            }
            assert(covers(middle, after, rest, into));
            lemma_covers_both(seen, middle, after, path, first, rest, into);
        },
        Expression::Operands(operands) => {
            lemma_expressions(operands@, into, targets, seen, path);
        },
        Expression::Ternary(condition, yes, no) => {
            let (first, rest) = choose|first: Seq<Event>, rest: Seq<Event>| #[trigger]
                joins(path, first, rest) && runs_expression(*condition, into, first) && (runs_expression(
                    *yes,
                    into,
                    rest,
                ) || runs_expression(*no, into, rest));
            lemma_expression(*condition, into, targets, seen, first);
            let asked = write_count::expression_seen(*condition, targets, false, seen);
            lemma_flush(seen, asked, first, into, targets);
            let decided = write_count::flushed(asked, targets);
            let one = write_count::expression_seen(*yes, targets, false, decided);
            let left = write_count::flushed(one, targets);
            let start = write_count::alternative(decided, left);
            let two = write_count::expression_seen(*no, targets, false, start);
            let right = write_count::flushed(two, targets);
            lemma_expression_grows(*yes, into, targets, decided);
            lemma_sound_alternative(decided, left);
            lemma_expression_grows(*no, into, targets, start);
            lemma_joined(decided, left, right);
            let after = write_count::joined(decided, left, right, false);
            if runs_expression(*yes, into, rest) {
                lemma_expression(*yes, into, targets, decided, rest);
                lemma_flush(decided, one, rest, into, targets);
                lemma_covers_more(decided, left, after, rest, into);
            } else {
                lemma_expression(*no, into, targets, start, rest);
                lemma_flush(start, two, rest, into, targets);
                lemma_alternative(decided, left, right, rest, into);
                lemma_covers_more(decided, right, after, rest, into);
            }
            lemma_covers_both(seen, decided, after, path, first, rest, into);
        },
        Expression::FunctionCall(call) => {
            lemma_call(call, into, targets, seen, path);
        },
    }
}

/// Some path leads through every expression, so that the walk always goes on.
proof fn lemma_expression_grows(e: Expression, into: Seq<Access>, targets: Set<Element>, seen: Seen)
    requires
        sound(seen),
        matched(into, targets),
    ensures
        extends(seen, write_count::flushed(write_count::expression_seen(e, targets, false, seen), targets)),
    decreases e, 1nat,
{
    let path = lemma_expression_runs(e, into);
    lemma_expression(e, into, targets, seen, path);
    lemma_flush(seen, write_count::expression_seen(e, targets, false, seen), path, into, targets);
}

proof fn lemma_expressions(list: Seq<Expression>, into: Seq<Access>, targets: Set<Element>, seen: Seen, path: Seq<Event>)
    requires
        sound(seen),
        matched(into, targets),
        runs_expressions(list, into, path),
    ensures
        covers(seen, write_count::expressions_seen(list, targets, false, seen), path, into),
    decreases list, 0nat,
{
    if list.len() == 0 {
        lemma_covers_nothing(seen, path, into);
    } else {
        let (first, rest) = choose|first: Seq<Event>, rest: Seq<Event>| #[trigger]
            joins(path, first, rest) && runs_expressions(list.drop_last(), into, first) && runs_expression(
                list.last(),
                into,
                rest,
            );
        lemma_expressions(list.drop_last(), into, targets, seen, first);
        let middle = write_count::expressions_seen(list.drop_last(), targets, false, seen);
        lemma_expression(list.last(), into, targets, middle, rest);
        lemma_covers_both(seen, middle, write_count::expressions_seen(list, targets, false, seen), path, first, rest, into);
    }
}

proof fn lemma_coordinates(list: Seq<Access>, into: Seq<Access>, targets: Set<Element>, seen: Seen, path: Seq<Event>)
    requires
        sound(seen),
        matched(into, targets),
        runs_coordinates(list, into, path),
    ensures
        covers(seen, write_count::coordinates_seen(list, targets, false, seen), path, into),
    decreases list, 0nat,
{
    if list.len() == 0 {
        lemma_covers_nothing(seen, path, into);
    } else {
        let (first, rest) = choose|first: Seq<Event>, rest: Seq<Event>| #[trigger]
            joins(path, first, rest) && runs_coordinates(list.drop_last(), into, first) && runs_expressions(
                list.last().coordinates@,
                into,
                rest,
            );
        lemma_coordinates(list.drop_last(), into, targets, seen, first);
        let middle = write_count::coordinates_seen(list.drop_last(), targets, false, seen);
        lemma_expressions(list.last().coordinates@, into, targets, middle, rest);
        lemma_covers_both(seen, middle, write_count::coordinates_seen(list, targets, false, seen), path, first, rest, into);
    }
}

proof fn lemma_call(call: Call, into: Seq<Access>, targets: Set<Element>, seen: Seen, path: Seq<Event>)
    requires
        sound(seen),
        matched(into, targets),
        runs_call(call, into, path),
    ensures
        covers(seen, write_count::call_seen(call, targets, false, seen), path, into),
    decreases call, 0nat,
{
    let copies = Seq::new(call.outputs@.len(), |i: int| Event::CopyBack(call.outputs@[i]));
    let (first, rest) = choose|first: Seq<Event>, rest: Seq<Event>| #[trigger]
        joins(path, first, rest) && runs_arguments(call, into, first) && rest == copies;
    let (one, two) = choose|one: Seq<Event>, two: Seq<Event>| #[trigger]
        joins(first, one, two) && runs_expressions(call.inputs@, into, one) && runs_coordinates(
            call.outputs@,
            into,
            two,
        );
    lemma_expressions(call.inputs@, into, targets, seen, one);
    let inputs = write_count::expressions_seen(call.inputs@, targets, false, seen);
    lemma_coordinates(call.outputs@, into, targets, inputs, two);
    let placed = write_count::coordinates_seen(call.outputs@, targets, false, inputs);
    lemma_covers_both(seen, inputs, placed, first, one, two, into);
    lemma_flush(seen, placed, first, into, targets);
    let ready = write_count::flushed(placed, targets);
    lemma_copies(call.outputs@, ready, rest, into);
    lemma_covers_both(seen, ready, write_count::call_seen(call, targets, false, seen), path, first, rest, into);
}

proof fn lemma_expression_runs(e: Expression, into: Seq<Access>) -> (path: Seq<Event>)
    ensures
        runs_expression(e, into, path),
    decreases e, 0nat,
{
    match e {
        Expression::Value => Seq::empty(),
        Expression::Variable(access) => {
            let first = lemma_expressions_run(access.coordinates@, into);
            let rest = seq![Event::Read { access, into }];
            assert(joins(first + rest, first, rest));
            first + rest
        },
        Expression::Operands(operands) => lemma_expressions_run(operands@, into),
        Expression::Ternary(condition, yes, no) => {
            let first = lemma_expression_runs(*condition, into);
            let rest = lemma_expression_runs(*yes, into);
            assert(joins(first + rest, first, rest));
            first + rest
        },
        Expression::FunctionCall(call) => lemma_call_runs(call, into),
    }
}

proof fn lemma_expressions_run(list: Seq<Expression>, into: Seq<Access>) -> (path: Seq<Event>)
    ensures
        runs_expressions(list, into, path),
    decreases list, 0nat,
{
    if list.len() == 0 {
        Seq::empty()
    } else {
        let first = lemma_expressions_run(list.drop_last(), into);
        let rest = lemma_expression_runs(list.last(), into);
        assert(joins(first + rest, first, rest));
        first + rest
    }
}

proof fn lemma_coordinates_run(list: Seq<Access>, into: Seq<Access>) -> (path: Seq<Event>)
    ensures
        runs_coordinates(list, into, path),
    decreases list, 0nat,
{
    if list.len() == 0 {
        Seq::empty()
    } else {
        let first = lemma_coordinates_run(list.drop_last(), into);
        let rest = lemma_expressions_run(list.last().coordinates@, into);
        assert(joins(first + rest, first, rest));
        first + rest
    }
}

proof fn lemma_call_runs(call: Call, into: Seq<Access>) -> (path: Seq<Event>)
    ensures
        runs_call(call, into, path),
    decreases call, 0nat,
{
    let one = lemma_expressions_run(call.inputs@, into);
    let two = lemma_coordinates_run(call.outputs@, into);
    let first = one + two;
    assert(joins(first, one, two));
    assert(runs_arguments(call, into, first));
    let rest = Seq::new(call.outputs@.len(), |i: int| Event::CopyBack(call.outputs@[i]));
    assert(joins(first + rest, first, rest));
    first + rest
}

proof fn lemma_statement_runs(statement: Statement) -> (path: Seq<Event>)
    ensures
        runs_statement(statement, path),
    decreases statement, 0nat,
{
    match statement {
        Statement::Assign { expression, destinations } => {
            let one = lemma_expression_runs(expression, destinations@);
            let two = lemma_coordinates_run(destinations@, Seq::empty());
            let first = one + two;
            assert(joins(first, one, two));
            assert(runs_value(expression, destinations@, first));
            let rest = Seq::new(destinations@.len(), |i: int| Event::Write(destinations@[i]));
            assert(joins(first + rest, first, rest));
            first + rest
        },
        Statement::If { condition, yes, no } => {
            let first = lemma_expression_runs(condition, Seq::empty());
            let rest = lemma_block_runs(yes@);
            assert(joins(first + rest, first, rest));
            first + rest
        },
        Statement::IfReset { yes, no } => lemma_block_runs(yes@),
        Statement::Case { target, arms, default } => {
            let first = lemma_expression_runs(target, Seq::empty());
            let rest = lemma_block_runs(default@);
            assert(joins(first + rest, first, rest));
            first + rest
        },
        Statement::For { body, iterations } => match iterations {
            Some(bodies) => lemma_turns_run(bodies@),
            None => {
                assert(times(0));
                assert(runs_often(body@, 0, Seq::<Event>::empty()));
                assert(runs_again_and_again(body@, Seq::<Event>::empty()));
                Seq::empty()
            },
        },
        Statement::FunctionCall(call) => lemma_call_runs(call, Seq::empty()),
        Statement::Other => Seq::empty(),
    }
}

proof fn lemma_block_runs(statements: Seq<Statement>) -> (path: Seq<Event>)
    ensures
        runs_block(statements, path),
    decreases statements, 0nat,
{
    if statements.len() == 0 {
        Seq::empty()
    } else {
        let first = lemma_block_runs(statements.drop_last());
        let rest = lemma_statement_runs(statements.last());
        assert(joins(first + rest, first, rest));
        first + rest
    }
}

proof fn lemma_turns_run(blocks: Seq<Vec<Statement>>) -> (path: Seq<Event>)
    ensures
        runs_in_turn(blocks, path),
    decreases blocks, 0nat,
{
    if blocks.len() == 0 {
        Seq::empty()
    } else {
        let first = lemma_turns_run(blocks.drop_last());
        let rest = lemma_block_runs(blocks.last()@);
        assert(joins(first + rest, first, rest));
        first + rest
    }
}

spec fn nothing_awaited(seen: Seen) -> bool {
    seen.reads == Set::<(Element, int)>::empty()
}

/// Where `preapplied`, everything that a path through the block may store counts as written.
spec fn begun(statements: Seq<Statement>, preapplied: bool, seen: Seen) -> bool {
    preapplied ==> forall|path: Seq<Event>, x: Element, bit: int| #[trigger]
        runs_block(statements, path) && #[trigger] stores_somewhere(path, x, bit)
            ==> seen.written.contains((x, bit))
}

spec fn statement_begun(statement: Statement, preapplied: bool, seen: Seen) -> bool {
    preapplied ==> forall|path: Seq<Event>, x: Element, bit: int| #[trigger]
        runs_statement(statement, path) && #[trigger] stores_somewhere(path, x, bit)
            ==> seen.written.contains((x, bit))
}

spec fn turns_begun(blocks: Seq<Vec<Statement>>, preapplied: bool, seen: Seen) -> bool {
    preapplied ==> forall|path: Seq<Event>, x: Element, bit: int| #[trigger]
        runs_in_turn(blocks, path) && #[trigger] stores_somewhere(path, x, bit)
            ==> seen.written.contains((x, bit))
}

spec fn arms_begun(blocks: Seq<Vec<Statement>>, preapplied: bool, seen: Seen) -> bool {
    preapplied ==> forall|path: Seq<Event>, x: Element, bit: int| #[trigger]
        runs_one_of(blocks, path) && #[trigger] stores_somewhere(path, x, bit)
            ==> seen.written.contains((x, bit))
}

proof fn lemma_stored_in_both(first: Seq<Event>, rest: Seq<Event>, x: Element, bit: int)
    requires
        stores_somewhere(first, x, bit) || stores_somewhere(rest, x, bit),
    ensures
        stores_somewhere(first + rest, x, bit),
{
    if stores_somewhere(first, x, bit) {
        let i = choose|i: int| 0 <= i < first.len() && event_stores(#[trigger] first[i], x, bit);
        assert(event_stores((first + rest)[i], x, bit));
    } else {
        let i = choose|i: int| 0 <= i < rest.len() && event_stores(#[trigger] rest[i], x, bit);
        assert(event_stores((first + rest)[first.len() + i], x, bit));
    }
}

proof fn lemma_begun_block(statements: Seq<Statement>, preapplied: bool, seen: Seen)
    requires
        statements.len() > 0,
        begun(statements, preapplied, seen),
    ensures
        begun(statements.drop_last(), preapplied, seen),
        statement_begun(statements.last(), preapplied, seen),
{
    if preapplied {
        assert forall|path: Seq<Event>, x: Element, bit: int| #[trigger]
            runs_block(statements.drop_last(), path) && #[trigger] stores_somewhere(path, x, bit) implies seen.written.contains((x, bit)) by {
            let rest = lemma_statement_runs(statements.last());
            assert(joins(path + rest, path, rest));
            assert(runs_block(statements, path + rest));
            lemma_stored_in_both(path, rest, x, bit);
        }
        assert forall|path: Seq<Event>, x: Element, bit: int| #[trigger]
            runs_statement(statements.last(), path) && #[trigger] stores_somewhere(path, x, bit) implies seen.written.contains((x, bit)) by {
            let first = lemma_block_runs(statements.drop_last());
            assert(joins(first + path, first, path));
            assert(runs_block(statements, first + path));
            lemma_stored_in_both(first, path, x, bit);
        }
    }
}

proof fn lemma_begun_turns(blocks: Seq<Vec<Statement>>, preapplied: bool, seen: Seen)
    requires
        blocks.len() > 0,
        turns_begun(blocks, preapplied, seen),
    ensures
        turns_begun(blocks.drop_last(), preapplied, seen),
        begun(blocks.last()@, preapplied, seen),
{
    if preapplied {
        assert forall|path: Seq<Event>, x: Element, bit: int| #[trigger]
            runs_in_turn(blocks.drop_last(), path) && #[trigger] stores_somewhere(path, x, bit) implies seen.written.contains((x, bit)) by {
            let rest = lemma_block_runs(blocks.last()@);
            assert(joins(path + rest, path, rest));
            assert(runs_in_turn(blocks, path + rest));
            lemma_stored_in_both(path, rest, x, bit);
        }
        assert forall|path: Seq<Event>, x: Element, bit: int| #[trigger]
            runs_block(blocks.last()@, path) && #[trigger] stores_somewhere(path, x, bit) implies seen.written.contains((x, bit)) by {
            let first = lemma_turns_run(blocks.drop_last());
            assert(joins(first + path, first, path));
            assert(runs_in_turn(blocks, first + path));
            lemma_stored_in_both(first, path, x, bit);
        }
    }
}

proof fn lemma_begun_arms(blocks: Seq<Vec<Statement>>, preapplied: bool, seen: Seen)
    requires
        blocks.len() > 0,
        arms_begun(blocks, preapplied, seen),
    ensures
        arms_begun(blocks.drop_last(), preapplied, seen),
        begun(blocks.last()@, preapplied, seen),
{
    if preapplied {
        assert forall|path: Seq<Event>, x: Element, bit: int| #[trigger]
            runs_one_of(blocks.drop_last(), path) && #[trigger] stores_somewhere(path, x, bit) implies seen.written.contains((x, bit)) by {
            let k = choose|k: int| 0 <= k < blocks.drop_last().len() && runs_block((#[trigger] blocks.drop_last()[k])@, path);
            assert(runs_block(blocks[k]@, path));
            assert(runs_one_of(blocks, path));
        }
        assert forall|path: Seq<Event>, x: Element, bit: int| #[trigger]
            runs_block(blocks.last()@, path) && #[trigger] stores_somewhere(path, x, bit) implies seen.written.contains((x, bit)) by {
            assert(runs_block(blocks[blocks.len() - 1]@, path));
            assert(runs_one_of(blocks, path));
        }
    }
}

/// What counts as written keeps doing so.
proof fn lemma_begun_later(statements: Seq<Statement>, preapplied: bool, a: Seen, b: Seen)
    requires
        begun(statements, preapplied, a),
        a.written.subset_of(b.written),
    ensures
        begun(statements, preapplied, b),
{
}

proof fn lemma_assign(expression: Expression, destinations: Vec<Access>, preapplied: bool, seen: Seen, path: Seq<Event>)
    requires
        sound(seen),
        nothing_awaited(seen),
        runs_assign(expression, destinations@, path),
    ensures
        settles(
            seen,
            write_count::statement_seen(Statement::Assign { expression, destinations }, preapplied, false, seen),
            path,
            Seq::empty(),
        ),
{
    let none = Seq::<Access>::empty();
    let targets = write_count::target_elements(destinations@);
    let writes = Seq::new(destinations@.len(), |i: int| Event::Write(destinations@[i]));
    let (first, rest) = choose|first: Seq<Event>, rest: Seq<Event>| #[trigger]
        joins(path, first, rest) && runs_value(expression, destinations@, first) && rest == writes;
    let (one, two) = choose|one: Seq<Event>, two: Seq<Event>| #[trigger]
        joins(first, one, two) && runs_expression(expression, destinations@, one) && runs_coordinates(
            destinations@,
            Seq::empty(),
            two,
        );
    assert(matched(destinations@, targets)) by {
        assert forall|x: Element| #[trigger] goes_into(destinations@, x) implies targets.contains(x) by {
            let i = choose|i: int|
                0 <= i < destinations@.len() && outlives(#[trigger] destinations@[i]) && (destinations@[i].location matches Some(
                    location,
                ) && location.id == x.id && (location.candidates matches Some(candidates) && candidates@.contains(x.index)));
            assert(write_count::write_bits(destinations@[i], true).contains((x, 0)));
        }
    }
    lemma_expression(expression, destinations@, targets, seen, one);
    let value = write_count::expression_seen(expression, targets, false, seen);
    lemma_flush(seen, value, one, destinations@, targets);
    let read = write_count::flushed(value, targets);
    lemma_settled(seen, read, one, destinations@);
    lemma_coordinates(destinations@, none, Set::empty(), read, two);
    let placed = write_count::coordinates_seen(destinations@, Set::empty(), false, read);
    lemma_covers_both(seen, read, placed, first, one, two, none);
    lemma_flush(seen, placed, first, none, Set::empty());
    let ready = write_count::flushed(placed, Set::empty());
    let marks = write_count::all_write_marks(destinations@);
    lemma_wrote(ready, marks);
    let after = write_count::wrote(ready, marks, false);
    assert forall|i: int, x: Element, bit: int| 0 <= i < rest.len() && #[trigger] event_stores(rest[i], x, bit) implies after.written.contains((x, bit)) by {
        lemma_stored_access_marks(destinations@, i, x, bit);
    }
    assert(covers(ready, after, rest, none));
    lemma_covers_both(seen, ready, after, path, first, rest, none);
}

proof fn lemma_statement(statement: Statement, preapplied: bool, seen: Seen, path: Seq<Event>)
    requires
        sound(seen),
        nothing_awaited(seen),
        foreseen_statement(statement, preapplied),
        statement_begun(statement, preapplied, seen),
        runs_statement(statement, path),
    ensures
        settles(seen, write_count::statement_seen(statement, preapplied, false, seen), path, Seq::empty()),
    decreases statement, 1nat,
{
    let none = Seq::<Access>::empty();
    match statement {
        Statement::Assign { expression, destinations } => {
            lemma_assign(expression, destinations, preapplied, seen, path);
        },
        Statement::If { condition, yes, no } => {
            let (first, rest) = choose|first: Seq<Event>, rest: Seq<Event>| #[trigger]
                joins(path, first, rest) && runs_expression(condition, Seq::empty(), first) && (runs_block(
                    yes@,
                    rest,
                ) || runs_block(no@, rest));
            lemma_expression(condition, none, Set::empty(), seen, first);
            let asked = write_count::expression_seen(condition, Set::empty(), false, seen);
            lemma_flush(seen, asked, first, none, Set::empty());
            let decided = write_count::flushed(asked, Set::empty());
            if preapplied {
                assert forall|taken: Seq<Event>, x: Element, bit: int|
                    (runs_block(yes@, taken) || runs_block(no@, taken)) && #[trigger] stores_somewhere(taken, x, bit) implies decided.written.contains((x, bit)) by {
                    assert(joins(first + taken, first, taken));
                    assert(runs_statement(statement, first + taken));
                    lemma_stored_in_both(first, taken, x, bit);
                }
            }
            lemma_sides(statement, yes@, no@, preapplied, decided, rest);
            let one = write_count::block_seen(yes@, preapplied, false, decided);
            let two = write_count::block_seen(no@, preapplied, false, write_count::alternative(decided, one));
            lemma_covers_both(seen, decided, write_count::joined(decided, one, two, false), path, first, rest, none);
        },
        Statement::IfReset { yes, no } => {
            if preapplied {
                assert forall|taken: Seq<Event>, x: Element, bit: int|
                    (runs_block(yes@, taken) || runs_block(no@, taken)) && #[trigger] stores_somewhere(taken, x, bit) implies seen.written.contains((x, bit)) by {
                    assert(runs_statement(statement, taken));
                }
            }
            lemma_sides(statement, yes@, no@, preapplied, seen, path);
        },
        Statement::Case { target, arms, default } => {
            let (first, rest) = choose|first: Seq<Event>, rest: Seq<Event>| #[trigger]
                joins(path, first, rest) && runs_expression(target, Seq::empty(), first) && (runs_one_of(
                    arms@,
                    rest,
                ) || runs_block(default@, rest));
            lemma_expression(target, none, Set::empty(), seen, first);
            let asked = write_count::expression_seen(target, Set::empty(), false, seen);
            lemma_flush(seen, asked, first, none, Set::empty());
            let decided = write_count::flushed(asked, Set::empty());
            if preapplied {
                assert forall|taken: Seq<Event>, x: Element, bit: int|
                    (runs_one_of(arms@, taken) || runs_block(default@, taken)) && #[trigger] stores_somewhere(taken, x, bit) implies decided.written.contains((x, bit)) by {
                    assert(joins(first + taken, first, taken));
                    assert(runs_statement(statement, first + taken));
                    lemma_stored_in_both(first, taken, x, bit);
                }
            }
            lemma_arms(arms@, preapplied, decided, rest);
            let chosen = write_count::arms_seen(arms@, preapplied, false, decided);
            let start = write_count::alternative(decided, chosen);
            lemma_sound_alternative(decided, chosen);
            let taken = if runs_block(default@, rest) {
                rest
            } else {
                lemma_block_runs(default@)
            };
            lemma_begun_later(default@, preapplied, decided, start);
            lemma_block(default@, preapplied, start, taken);
            let last = write_count::block_seen(default@, preapplied, false, start);
            lemma_joined(decided, chosen, last);
            let after = write_count::joined(decided, chosen, last, false);
            if runs_one_of(arms@, rest) {
                lemma_covers_more(decided, chosen, after, rest, none);
            } else {
                lemma_alternative(decided, chosen, last, rest, none);
                lemma_covers_more(decided, last, after, rest, none);
            }
            lemma_covers_both(seen, decided, after, path, first, rest, none);
        },
        Statement::For { body, iterations } => match iterations {
            Some(bodies) => {
                if preapplied {
                    assert forall|taken: Seq<Event>, x: Element, bit: int| #[trigger]
                        runs_in_turn(bodies@, taken) && #[trigger] stores_somewhere(taken, x, bit) implies seen.written.contains((x, bit)) by {
                        assert(runs_statement(statement, taken));
                    }
                }
                assert(runs_in_turn(bodies@, path));
                lemma_turns(bodies@, preapplied, seen, path);
            },
            None => {
                assert(runs_again_and_again(body@, path));
                let count = choose|count: nat| #[trigger] times(count) && runs_often(body@, count, path);
                let marks = write_count::block_marks(body@);
                lemma_wrote(seen, marks);
                lemma_extends_self(seen);
                let start = if preapplied {
                    seen
                } else {
                    write_count::wrote(seen, marks, false)
                };
                assert forall|taken: Seq<Event>, x: Element, bit: int| #[trigger]
                    runs_block(body@, taken) && #[trigger] stores_somewhere(taken, x, bit) implies start.written.contains((x, bit)) by {
                    if preapplied {
                        let none_yet = Seq::<Event>::empty();
                        assert(joins(taken, none_yet, taken)) by {
                            assert(none_yet + taken =~= taken);
                        }
                        assert(runs_often(body@, 0, none_yet));
                        assert(runs_often(body@, 1, taken));
                        assert(times(1));
                        assert(runs_again_and_again(body@, taken));
                        assert(runs_statement(statement, taken));
                    } else {
                        lemma_block_marks(body@, taken, x, bit);
                    }
                }
                lemma_often(body@, count, start, path);
                lemma_covers_from(seen, start, write_count::block_seen(body@, true, false, start), path);
            },
        },
        Statement::FunctionCall(call) => {
            lemma_call(call, none, Set::empty(), seen, path);
            lemma_flush(seen, write_count::call_seen(call, Set::empty(), false, seen), path, none, Set::empty());
        },
        Statement::Other => {
            lemma_covers_nothing(seen, path, none);
        },
    }
}

/// What is covered from a point on is covered from an earlier one on.
proof fn lemma_covers_from(a: Seen, b: Seen, c: Seen, path: Seq<Event>)
    requires
        extends(a, b),
        settles(b, c, path, Seq::empty()),
    ensures
        settles(a, c, path, Seq::empty()),
{
    let nothing = Seq::<Event>::empty();
    assert(covers(a, b, nothing, Seq::empty()));
    assert(joins(path, nothing, path)) by {
        assert(nothing + path =~= path);
    }
    lemma_covers_both(a, b, c, path, nothing, path, Seq::empty());
}

proof fn lemma_sides(statement: Statement, yes: Seq<Statement>, no: Seq<Statement>, preapplied: bool, seen: Seen, path: Seq<Event>)
    requires
        sound(seen),
        nothing_awaited(seen),
        foreseen_block(yes, preapplied),
        foreseen_block(no, preapplied),
        begun(yes, preapplied, seen),
        begun(no, preapplied, seen),
        runs_block(yes, path) || runs_block(no, path),
        match statement {
            Statement::If { condition, yes: one, no: two } => yes == one@ && no == two@,
            Statement::IfReset { yes: one, no: two } => yes == one@ && no == two@,
            _ => false,
        },
    ensures
        ({
            let one = write_count::block_seen(yes, preapplied, false, seen);
            let two = write_count::block_seen(no, preapplied, false, write_count::alternative(seen, one));
            settles(seen, write_count::joined(seen, one, two, false), path, Seq::empty())
        }),
    decreases statement, 0nat,
{
    let none = Seq::<Access>::empty();
    let left = if runs_block(yes, path) {
        path
    } else {
        lemma_block_runs(yes)
    };
    let right = if runs_block(no, path) {
        path
    } else {
        lemma_block_runs(no)
    };
    lemma_block(yes, preapplied, seen, left);
    let one = write_count::block_seen(yes, preapplied, false, seen);
    let start = write_count::alternative(seen, one);
    lemma_sound_alternative(seen, one);
    lemma_begun_later(no, preapplied, seen, start);
    lemma_block(no, preapplied, start, right);
    let two = write_count::block_seen(no, preapplied, false, start);
    lemma_joined(seen, one, two);
    let after = write_count::joined(seen, one, two, false);
    if runs_block(yes, path) {
        lemma_covers_more(seen, one, after, path, none);
    } else {
        lemma_alternative(seen, one, two, path, none);
        lemma_covers_more(seen, two, after, path, none);
    }
}

proof fn lemma_block(statements: Seq<Statement>, preapplied: bool, seen: Seen, path: Seq<Event>)
    requires
        sound(seen),
        nothing_awaited(seen),
        foreseen_block(statements, preapplied),
        begun(statements, preapplied, seen),
        runs_block(statements, path),
    ensures
        settles(seen, write_count::block_seen(statements, preapplied, false, seen), path, Seq::empty()),
    decreases statements, 0nat,
{
    let none = Seq::<Access>::empty();
    if statements.len() == 0 {
        lemma_covers_nothing(seen, path, none);
    } else {
        let (first, rest) = choose|first: Seq<Event>, rest: Seq<Event>| #[trigger]
            joins(path, first, rest) && runs_block(statements.drop_last(), first) && runs_statement(
                statements.last(),
                rest,
            );
        lemma_begun_block(statements, preapplied, seen);
        lemma_block(statements.drop_last(), preapplied, seen, first);
        let middle = write_count::block_seen(statements.drop_last(), preapplied, false, seen);
        lemma_statement(statements.last(), preapplied, middle, rest);
        lemma_covers_both(seen, middle, write_count::block_seen(statements, preapplied, false, seen), path, first, rest, none);
    }
}

proof fn lemma_turns(blocks: Seq<Vec<Statement>>, preapplied: bool, seen: Seen, path: Seq<Event>)
    requires
        sound(seen),
        nothing_awaited(seen),
        foreseen_blocks(blocks, preapplied),
        turns_begun(blocks, preapplied, seen),
        runs_in_turn(blocks, path),
    ensures
        settles(seen, write_count::iterations_seen(blocks, preapplied, false, seen), path, Seq::empty()),
    decreases blocks, 0nat,
{
    let none = Seq::<Access>::empty();
    if blocks.len() == 0 {
        lemma_covers_nothing(seen, path, none);
    } else {
        let (first, rest) = choose|first: Seq<Event>, rest: Seq<Event>| #[trigger]
            joins(path, first, rest) && runs_in_turn(blocks.drop_last(), first) && runs_block(
                blocks.last()@,
                rest,
            );
        lemma_begun_turns(blocks, preapplied, seen);
        lemma_turns(blocks.drop_last(), preapplied, seen, first);
        let middle = write_count::iterations_seen(blocks.drop_last(), preapplied, false, seen);
        lemma_begun_later(blocks.last()@, preapplied, seen, middle);
        lemma_block(blocks.last()@, preapplied, middle, rest);
        lemma_covers_both(seen, middle, write_count::iterations_seen(blocks, preapplied, false, seen), path, first, rest, none);
    }
}

proof fn lemma_arms(arms: Seq<Vec<Statement>>, preapplied: bool, seen: Seen, path: Seq<Event>)
    requires
        sound(seen),
        nothing_awaited(seen),
        foreseen_blocks(arms, preapplied),
        arms_begun(arms, preapplied, seen),
    ensures
        extends(seen, write_count::arms_seen(arms, preapplied, false, seen)),
        nothing_awaited(write_count::arms_seen(arms, preapplied, false, seen)),
        runs_one_of(arms, path) ==> settles(
            seen,
            write_count::arms_seen(arms, preapplied, false, seen),
            path,
            Seq::empty(),
        ),
    decreases arms, 0nat,
{
    let none = Seq::<Access>::empty();
    if arms.len() == 0 {
        lemma_extends_self(seen);
    } else {
        lemma_begun_arms(arms, preapplied, seen);
        lemma_arms(arms.drop_last(), preapplied, seen, path);
        let before = write_count::arms_seen(arms.drop_last(), preapplied, false, seen);
        let start = write_count::alternative(seen, before);
        lemma_sound_alternative(seen, before);
        lemma_begun_later(arms.last()@, preapplied, seen, start);
        let taken = if runs_block(arms.last()@, path) {
            path
        } else {
            lemma_block_runs(arms.last()@)
        };
        lemma_block(arms.last()@, preapplied, start, taken);
        let next = write_count::block_seen(arms.last()@, preapplied, false, start);
        lemma_alternative(seen, before, next, taken, none);
        let after = write_count::arms_seen(arms, preapplied, false, seen);
        lemma_gathered(seen, before, next);
        if runs_one_of(arms, path) {
            if runs_block(arms.last()@, path) {
                lemma_covers_more(seen, next, after, path, none);
            } else {
                let k = choose|k: int| 0 <= k < arms.len() && runs_block((#[trigger] arms[k])@, path);
                assert(arms.drop_last()[k] == arms[k]);
                assert(runs_one_of(arms.drop_last(), path));
                lemma_covers_more(seen, before, after, path, none);
            }
        }
    }
}

proof fn lemma_gathered(entry: Seen, before: Seen, next: Seen)
    requires
        extends(entry, before),
        extends(entry, next),
        before.found.subset_of(next.found),
    ensures
        extends(entry, write_count::gathered(entry, before, next)),
{
    let r = write_count::gathered(entry, before, next);
    let own = write_count::own_writes(entry, next);
    let n = entry.writes.len() as int;
    assert(r.writes.take(n) =~= before.writes.take(n));
    assert forall|k: int, x: Element, bit: int| 0 <= k < r.writes.len() && #[trigger] r.writes[k].bits(false).contains((x, bit)) implies r.written.contains((x, bit)) by {
        if k < before.writes.len() {
            assert(before.writes[k].bits(false).contains((x, bit)));
        } else {
            assert(next.writes[k - before.writes.len() + n].bits(false).contains((x, bit)));
        }
    }
    assert(r.writes.skip(n) =~= before.writes.skip(n) + own);
    assert forall|x: Element, bit: int| #[trigger] r.written.contains((x, bit)) implies entry.written.contains((x, bit)) || marked(
        r.writes.skip(n),
        x,
        bit,
    ) by {
        lemma_marked_both(before.writes.skip(n), own, x, bit);
        assert(before.written.contains((x, bit)) || next.written.contains((x, bit)));
    }
}

proof fn lemma_often(body: Seq<Statement>, count: nat, seen: Seen, path: Seq<Event>)
    requires
        sound(seen),
        nothing_awaited(seen),
        foreseen_block(body, true),
        begun(body, true, seen),
        runs_often(body, count, path),
    ensures
        settles(seen, write_count::block_seen(body, true, false, seen), path, Seq::empty()),
        forall|x: Element, bit: int| #[trigger] stores_somewhere(path, x, bit) ==> seen.written.contains((x, bit)),
    decreases body, count + 1,
{
    let none = Seq::<Access>::empty();
    let after = write_count::block_seen(body, true, false, seen);
    if count == 0 {
        let some = lemma_block_runs(body);
        lemma_block(body, true, seen, some);
    } else {
        let (first, rest) = choose|first: Seq<Event>, rest: Seq<Event>| #[trigger]
            joins(path, first, rest) && runs_often(body, (count - 1) as nat, first) && runs_block(
                body,
                rest,
            );
        lemma_often(body, (count - 1) as nat, seen, first);
        lemma_block(body, true, seen, rest);
        assert forall|x: Element, bit: int| #[trigger] stores_somewhere(path, x, bit) implies seen.written.contains((x, bit)) by {
            lemma_stored_in_one(path, first, rest, x, bit);
        }
        assert forall|i: int, x: Element, bit: int| 0 <= i < path.len() && #[trigger] event_stores(path[i], x, bit) implies after.written.contains((x, bit)) by {
            assert(stores_somewhere(path, x, bit));
            assert(seen.written.contains((x, bit)));
        }
        assert forall|j: int, x: Element, bit: int|
            0 <= j < path.len() && #[trigger] event_needs(path[j], x, bit) && (seen.written.contains((x, bit)) || stored_before(
                path,
                j,
                x,
                bit,
            )) implies caught(after, none, x, bit) by {
            if !seen.written.contains((x, bit)) {
                let i = choose|i: int| 0 <= i < j && event_stores(#[trigger] path[i], x, bit);
                assert(stores_somewhere(path, x, bit));
            }
            if j < first.len() {
                assert(event_needs(first[j], x, bit));
            } else {
                assert(event_needs(rest[j - first.len()], x, bit));
            }
        }
    }
}

/// Whichever way an always_ff block takes (one side of each condition, of each if_reset and of each
/// case), an element is found where an assignment to it reads one of its bits, or a call copies back
/// into one, after an earlier event on the same way has stored it.
///
/// In a loop whose iterations are unknown, what may be stored must be told from its body: no call
/// may stand in the coordinates of a variable that is read there, and known iterations in it may
/// store only what their body may.
pub proof fn reads_of_stored_bits_are_found(
    statements: Vec<Statement>,
    path: Seq<Event>,
    i: int,
    j: int,
    x: Element,
    bit: int,
)
    requires
        foreseen_block(statements@, false),
        runs_block(statements@, path),
        reads_what_it_wrote(path, i, j, x, bit),
    ensures
        self_reads::declaration_reads(Declaration::Ff(statements), false).contains(x),
{
    let start = write_count::unseen();
    lemma_block(statements@, false, start, path);
    let after = write_count::block_seen(statements@, false, false, start);
    assert(event_stores(path[i], x, bit));
    assert(stored_before(path, j, x, bit));
    assert(caught(after, Seq::empty(), x, bit));
}

/// On some way through the block, the element reads, or is copied back into, what an earlier event
/// has stored in it.
pub open spec fn may_read_what_it_wrote(statements: Seq<Statement>, x: Element) -> bool {
    exists|path: Seq<Event>, i: int, j: int, bit: int|
        runs_block(statements, path) && #[trigger] reads_what_it_wrote(path, i, j, x, bit)
}

/// As for one way, so for the block: an element that may read what the block stored in it is found.
pub proof fn blocks_that_read_what_they_wrote_are_found(statements: Vec<Statement>)
    requires
        foreseen_block(statements@, false),
    ensures
        forall|x: Element| #[trigger]
            may_read_what_it_wrote(statements@, x) ==> self_reads::declaration_reads(
                Declaration::Ff(statements),
                false,
            ).contains(x),
{
    assert forall|x: Element| #[trigger] may_read_what_it_wrote(statements@, x) implies self_reads::declaration_reads(
        Declaration::Ff(statements),
        false,
    ).contains(x) by {
        let (path, i, j, bit) = choose|path: Seq<Event>, i: int, j: int, bit: int|
            runs_block(statements@, path) && #[trigger] reads_what_it_wrote(path, i, j, x, bit);
        reads_of_stored_bits_are_found(statements, path, i, j, x, bit);
    }
}

/// The iterations of all loops are known.
pub open spec fn known_loops(statement: Statement) -> bool
    decreases statement,
{
    match statement {
        Statement::If { condition, yes, no } => block_known(yes@) && block_known(no@),
        Statement::IfReset { yes, no } => block_known(yes@) && block_known(no@),
        Statement::Case { target, arms, default } => blocks_known(arms@) && block_known(default@),
        Statement::For { body, iterations } => match iterations {
            Some(bodies) => blocks_known(bodies@),
            None => false,
        },
        _ => true,
    }
}

pub open spec fn block_known(statements: Seq<Statement>) -> bool
    decreases statements,
{
    statements.len() == 0 || (block_known(statements.drop_last()) && known_loops(statements.last()))
}

pub open spec fn blocks_known(blocks: Seq<Vec<Statement>>) -> bool
    decreases blocks,
{
    blocks.len() == 0 || (blocks_known(blocks.drop_last()) && block_known(blocks.last()@))
}

proof fn lemma_known_statement(statement: Statement)
    requires
        known_loops(statement),
    ensures
        foreseen_statement(statement, false),
    decreases statement,
{
    match statement {
        Statement::If { condition, yes, no } => {
            lemma_known_block(yes@);
            lemma_known_block(no@);
        },
        Statement::IfReset { yes, no } => {
            lemma_known_block(yes@);
            lemma_known_block(no@);
        },
        Statement::Case { target, arms, default } => {
            lemma_known_blocks(arms@);
            lemma_known_block(default@);
        },
        Statement::For { body, iterations } => {
            if let Some(bodies) = iterations {
                lemma_known_blocks(bodies@);
            }
        },
        _ => {},
    }
}

proof fn lemma_known_block(statements: Seq<Statement>)
    requires
        block_known(statements),
    ensures
        foreseen_block(statements, false),
    decreases statements,
{
    if statements.len() > 0 {
        lemma_known_block(statements.drop_last());
        lemma_known_statement(statements.last());
    }
}

proof fn lemma_known_blocks(blocks: Seq<Vec<Statement>>)
    requires
        blocks_known(blocks),
    ensures
        foreseen_blocks(blocks, false),
    decreases blocks,
{
    if blocks.len() > 0 {
        lemma_known_blocks(blocks.drop_last());
        lemma_known_block(blocks.last()@);
    }
}

/// The path is one of those.
spec fn taken(runs: spec_fn(Seq<Event>) -> bool, path: Seq<Event>) -> bool {
    runs(path)
}

spec fn may_store(runs: spec_fn(Seq<Event>) -> bool, x: Element, bit: int) -> bool {
    exists|path: Seq<Event>| #[trigger] taken(runs, path) && stores_somewhere(path, x, bit)
}

spec fn late(a: Seen, path: Seq<Event>, j: int, x: Element, bit: int) -> bool {
    0 <= j < path.len() && (a.written.contains((x, bit)) || stored_before(path, j, x, bit))
}

spec fn reads_late(a: Seen, into: Seq<Access>, path: Seq<Event>, j: int, x: Element, bit: int) -> bool {
    late(a, path, j, x, bit) && (path[j] matches Event::Read { access, into: target } && target == into && selects(access, x, bit))
}

spec fn needs_late(a: Seen, path: Seq<Event>, j: int, x: Element, bit: int) -> bool {
    late(a, path, j, x, bit) && event_needs(path[j], x, bit)
}

spec fn may_read(a: Seen, into: Seq<Access>, runs: spec_fn(Seq<Event>) -> bool, x: Element, bit: int) -> bool {
    exists|path: Seq<Event>, j: int| #[trigger] reads_late(a, into, path, j, x, bit) && taken(runs, path)
}

spec fn may_need(a: Seen, runs: spec_fn(Seq<Event>) -> bool, x: Element) -> bool {
    exists|path: Seq<Event>, j: int, bit: int| #[trigger] needs_late(a, path, j, x, bit) && taken(runs, path)
}

spec fn awaited(a: Seen, targets: Set<Element>, x: Element) -> bool {
    targets.contains(x) && exists|bit: int| #[trigger] a.reads.contains((x, bit)) && a.written.contains((x, bit))
}

/// Whatever the walk from `a` to `b` takes in happens on one of the paths.
spec fn grounded(a: Seen, b: Seen, into: Seq<Access>, targets: Set<Element>, runs: spec_fn(Seq<Event>) -> bool) -> bool {
    &&& exists|path: Seq<Event>| #[trigger] taken(runs, path)
    &&& forall|x: Element, bit: int| #[trigger] b.written.contains((x, bit)) ==> a.written.contains((x, bit)) || may_store(runs, x, bit)
    &&& forall|x: Element, bit: int| #[trigger]
        b.reads.contains((x, bit)) && b.written.contains((x, bit)) ==> (a.reads.contains((x, bit)) && a.written.contains((x, bit))) || may_read(
            a,
            into,
            runs,
            x,
            bit,
        )
    &&& forall|x: Element| #[trigger] b.found.contains(x) ==> a.found.contains(x) || awaited(a, targets, x) || may_need(a, runs, x)
}

spec fn aimed(into: Seq<Access>, targets: Set<Element>) -> bool {
    forall|x: Element| #[trigger] targets.contains(x) <==> goes_into(into, x)
}

proof fn lemma_late_first(a: Seen, first: Seq<Event>, rest: Seq<Event>, j: int, x: Element, bit: int)
    requires
        late(a, first, j, x, bit),
    ensures
        late(a, first + rest, j, x, bit),
        (first + rest)[j] == first[j],
{
    if !a.written.contains((x, bit)) {
        let i = choose|i: int| 0 <= i < j && event_stores(#[trigger] first[i], x, bit);
        assert(event_stores((first + rest)[i], x, bit));
    }
}

/// What is late behind a first part is late on some whole path.
proof fn lemma_late_rest(
    a: Seen,
    b: Seen,
    one: spec_fn(Seq<Event>) -> bool,
    rest: Seq<Event>,
    j: int,
    x: Element,
    bit: int,
) -> (first: Seq<Event>)
    requires
        late(b, rest, j, x, bit),
        exists|path: Seq<Event>| #[trigger] taken(one, path),
        b.written.contains((x, bit)) ==> a.written.contains((x, bit)) || may_store(one, x, bit),
    ensures
        taken(one, first),
        late(a, first + rest, first.len() + j, x, bit),
        (first + rest)[first.len() + j] == rest[j],
{
    if stored_before(rest, j, x, bit) {
        let first = choose|path: Seq<Event>| #[trigger] taken(one, path);
        let i = choose|i: int| 0 <= i < j && event_stores(#[trigger] rest[i], x, bit);
        assert(event_stores((first + rest)[first.len() + i], x, bit));
        first
    } else if a.written.contains((x, bit)) {
        choose|path: Seq<Event>| #[trigger] taken(one, path)
    } else {
        let first = choose|path: Seq<Event>| #[trigger] taken(one, path) && stores_somewhere(path, x, bit);
        let i = choose|i: int| 0 <= i < first.len() && event_stores(#[trigger] first[i], x, bit);
        assert(event_stores((first + rest)[i], x, bit));
        first
    }
}

proof fn lemma_grounded_both(
    a: Seen,
    b: Seen,
    c: Seen,
    into: Seq<Access>,
    targets: Set<Element>,
    one: spec_fn(Seq<Event>) -> bool,
    two: spec_fn(Seq<Event>) -> bool,
    both: spec_fn(Seq<Event>) -> bool,
)
    requires
        grounded(a, b, into, targets, one),
        grounded(b, c, into, targets, two),
        aimed(into, targets),
        forall|p: Seq<Event>, q: Seq<Event>| #[trigger] taken(one, p) && #[trigger] taken(two, q) ==> taken(both, p + q),
    ensures
        grounded(a, c, into, targets, both),
{
    let p0 = choose|path: Seq<Event>| #[trigger] taken(one, path);
    let q0 = choose|path: Seq<Event>| #[trigger] taken(two, path);
    assert(taken(both, p0 + q0));
    assert forall|x: Element, bit: int| #[trigger] c.written.contains((x, bit)) implies a.written.contains((x, bit)) || may_store(both, x, bit) by {
        if b.written.contains((x, bit)) {
            if !a.written.contains((x, bit)) {
                let p = choose|path: Seq<Event>| #[trigger] taken(one, path) && stores_somewhere(path, x, bit);
                lemma_stored_in_both(p, q0, x, bit);
                assert(taken(both, p + q0));
            }
        } else {
            let q = choose|path: Seq<Event>| #[trigger] taken(two, path) && stores_somewhere(path, x, bit);
            lemma_stored_in_both(p0, q, x, bit);
            assert(taken(both, p0 + q));
        }
    }
    assert forall|x: Element, bit: int| may_read(a, into, one, x, bit) implies #[trigger] may_read(a, into, both, x, bit) by {
        let (p, j) = choose|path: Seq<Event>, j: int| #[trigger] reads_late(a, into, path, j, x, bit) && taken(one, path);
        lemma_late_first(a, p, q0, j, x, bit);
        assert(reads_late(a, into, p + q0, j, x, bit));
        assert(taken(both, p + q0));
    }
    assert forall|x: Element, bit: int| #[trigger]
        c.reads.contains((x, bit)) && c.written.contains((x, bit)) implies (a.reads.contains((x, bit)) && a.written.contains((x, bit))) || may_read(
        a,
        into,
        both,
        x,
        bit,
    ) by {
        if b.reads.contains((x, bit)) && b.written.contains((x, bit)) {
            if may_read(a, into, one, x, bit) {
                assert(may_read(a, into, both, x, bit));
            }
        } else {
            let (q, j) = choose|path: Seq<Event>, j: int| #[trigger] reads_late(b, into, path, j, x, bit) && taken(two, path);
            let p = lemma_late_rest(a, b, one, q, j, x, bit);
            assert(reads_late(a, into, p + q, p.len() + j, x, bit));
            assert(taken(both, p + q));
        }
    }
    assert forall|x: Element| #[trigger] c.found.contains(x) implies a.found.contains(x) || awaited(a, targets, x) || may_need(a, both, x) by {
        if b.found.contains(x) {
            if may_need(a, one, x) {
                let (p, j, bit) = choose|path: Seq<Event>, j: int, bit: int| #[trigger] needs_late(a, path, j, x, bit) && taken(one, path);
                lemma_late_first(a, p, q0, j, x, bit);
                assert(needs_late(a, p + q0, j, x, bit));
                assert(taken(both, p + q0));
            }
        } else if awaited(b, targets, x) {
            let bit = choose|bit: int| #[trigger] b.reads.contains((x, bit)) && b.written.contains((x, bit));
            if !(a.reads.contains((x, bit)) && a.written.contains((x, bit))) {
                let (p, j) = choose|path: Seq<Event>, j: int| #[trigger] reads_late(a, into, path, j, x, bit) && taken(one, path);
                lemma_late_first(a, p, q0, j, x, bit);
                assert(goes_into(into, x));
                assert(needs_late(a, p + q0, j, x, bit));
                assert(taken(both, p + q0));
            }
        } else {
            let (q, j, bit) = choose|path: Seq<Event>, j: int, bit: int| #[trigger] needs_late(b, path, j, x, bit) && taken(two, path);
            let p = lemma_late_rest(a, b, one, q, j, x, bit);
            assert(needs_late(a, p + q, p.len() + j, x, bit));
            assert(taken(both, p + q));
        }
    }
}

proof fn lemma_grounded_flush(a: Seen, b: Seen, into: Seq<Access>, targets: Set<Element>, runs: spec_fn(Seq<Event>) -> bool)
    requires
        grounded(a, b, into, targets, runs),
        aimed(into, targets),
    ensures
        grounded(a, write_count::flushed(b, targets), into, targets, runs),
{
    let c = write_count::flushed(b, targets);
    assert forall|x: Element, bit: int| #[trigger] c.written.contains((x, bit)) implies a.written.contains((x, bit)) || may_store(runs, x, bit) by {
        assert(b.written.contains((x, bit)));
    }
    assert forall|x: Element| #[trigger] c.found.contains(x) implies a.found.contains(x) || awaited(a, targets, x) || may_need(a, runs, x) by {
        if !b.found.contains(x) {
            let bit = choose|bit: int| #[trigger] b.reads.contains((x, bit)) && b.written.contains((x, bit));
            if !(a.reads.contains((x, bit)) && a.written.contains((x, bit))) {
                let (p, j) = choose|path: Seq<Event>, j: int| #[trigger] reads_late(a, into, path, j, x, bit) && taken(runs, path);
                assert(goes_into(into, x));
                assert(needs_late(a, p, j, x, bit));
            }
        }
    }
}

/// With nothing awaited on either side, it does not matter what the reads were for.
proof fn lemma_grounded_settled(a: Seen, b: Seen, into: Seq<Access>, targets: Set<Element>, runs: spec_fn(Seq<Event>) -> bool)
    requires
        grounded(a, b, into, targets, runs),
        nothing_awaited(a),
        nothing_awaited(b),
    ensures
        grounded(a, b, Seq::empty(), Set::empty(), runs),
{
}

proof fn lemma_grounded_more(
    a: Seen,
    b: Seen,
    into: Seq<Access>,
    targets: Set<Element>,
    runs: spec_fn(Seq<Event>) -> bool,
    more: spec_fn(Seq<Event>) -> bool,
)
    requires
        grounded(a, b, into, targets, runs),
        forall|p: Seq<Event>| #[trigger] taken(runs, p) ==> taken(more, p),
    ensures
        grounded(a, b, into, targets, more),
{
    assert forall|x: Element, bit: int| may_store(runs, x, bit) implies #[trigger] may_store(more, x, bit) by {
        let p = choose|path: Seq<Event>| #[trigger] taken(runs, path) && stores_somewhere(path, x, bit);
        assert(taken(more, p));
    }
    assert forall|x: Element, bit: int| may_read(a, into, runs, x, bit) implies #[trigger] may_read(a, into, more, x, bit) by {
        let (p, j) = choose|path: Seq<Event>, j: int| #[trigger] reads_late(a, into, path, j, x, bit) && taken(runs, path);
        assert(taken(more, p));
    }
    assert forall|x: Element| may_need(a, runs, x) implies #[trigger] may_need(a, more, x) by {
        let (p, j, bit) = choose|path: Seq<Event>, j: int, bit: int| #[trigger] needs_late(a, path, j, x, bit) && taken(runs, path);
        assert(taken(more, p));
    }
    let p = choose|path: Seq<Event>| #[trigger] taken(runs, path);
    assert(taken(more, p));
    assert forall|x: Element, bit: int| #[trigger] b.written.contains((x, bit)) implies a.written.contains((x, bit)) || may_store(more, x, bit) by {
        assert(a.written.contains((x, bit)) || may_store(runs, x, bit));
        assert(may_store(runs, x, bit) ==> may_store(more, x, bit));
    }
    assert forall|x: Element, bit: int| #[trigger]
        b.reads.contains((x, bit)) && b.written.contains((x, bit)) implies (a.reads.contains((x, bit)) && a.written.contains((x, bit))) || may_read(
        a,
        into,
        more,
        x,
        bit,
    ) by {
        assert(may_read(a, into, runs, x, bit) ==> may_read(a, into, more, x, bit));
    }
    assert forall|x: Element| #[trigger] b.found.contains(x) implies a.found.contains(x) || awaited(a, targets, x) || may_need(a, more, x) by {
        assert(may_need(a, runs, x) ==> may_need(a, more, x));
    }
}

/// Writing adds no more than the groups have.
proof fn lemma_wrote_only(seen: Seen, marks: Seq<Mark>, x: Element, bit: int)
    requires
        write_count::wrote(seen, marks, false).written.contains((x, bit)),
    ensures
        seen.written.contains((x, bit)) || marked(marks, x, bit),
        write_count::wrote(seen, marks, false).found == seen.found,
        write_count::wrote(seen, marks, false).reads == seen.reads,
    decreases marks.len(),
{
    lemma_wrote_found(seen, marks);
    if marks.len() > 0 {
        let before = write_count::wrote(seen, marks.drop_last(), false);
        if before.written.contains((x, bit)) {
            lemma_wrote_only(seen, marks.drop_last(), x, bit);
            if !seen.written.contains((x, bit)) {
                let k = choose|k: int| 0 <= k < marks.drop_last().len() && (#[trigger] marks.drop_last()[k]).bits(false).contains((x, bit));
                assert(marks[k].bits(false).contains((x, bit)));
            }
        } else {
            assert(marks[marks.len() - 1].bits(false).contains((x, bit)));
        }
    }
}

proof fn lemma_wrote_found(seen: Seen, marks: Seq<Mark>)
    ensures
        write_count::wrote(seen, marks, false).found == seen.found,
        write_count::wrote(seen, marks, false).reads == seen.reads,
    decreases marks.len(),
{
    if marks.len() > 0 {
        lemma_wrote_found(seen, marks.drop_last());
    }
}

proof fn lemma_grounded_joined(
    entry: Seen,
    first: Seen,
    second: Seen,
    into: Seq<Access>,
    targets: Set<Element>,
    one: spec_fn(Seq<Event>) -> bool,
    two: spec_fn(Seq<Event>) -> bool,
    either: spec_fn(Seq<Event>) -> bool,
)
    requires
        nothing_awaited(entry),
        sound(first),
        entry.writes.len() <= first.writes.len(),
        grounded(entry, first, into, targets, one),
        grounded(write_count::alternative(entry, first), second, into, targets, two),
        forall|p: Seq<Event>| #[trigger] taken(one, p) ==> taken(either, p),
        forall|p: Seq<Event>| #[trigger] taken(two, p) ==> taken(either, p),
    ensures
        grounded(entry, write_count::joined(entry, first, second, false), into, targets, either),
{
    let r = write_count::joined(entry, first, second, false);
    let own = write_count::own_writes(entry, first);
    let start = write_count::alternative(entry, first);
    lemma_grounded_more(entry, first, into, targets, one, either);
    lemma_grounded_more(start, second, into, targets, two, either);
    lemma_wrote_found(second, own);
    assert forall|x: Element, bit: int| #[trigger] r.written.contains((x, bit)) implies entry.written.contains((x, bit)) || may_store(either, x, bit) by {
        lemma_wrote_only(second, own, x, bit);
        if !second.written.contains((x, bit)) {
            let k = choose|k: int| 0 <= k < own.len() && (#[trigger] own[k]).bits(false).contains((x, bit));
            lemma_own_written(entry, first, k, x, bit);
        } else {
            assert(start.written.contains((x, bit)) || may_store(either, x, bit));
        }
    }
    assert forall|x: Element| #[trigger] r.found.contains(x) implies entry.found.contains(x) || awaited(entry, targets, x) || may_need(entry, either, x) by {
        assert(second.found.contains(x));
        if may_need(start, either, x) {
            let (p, j, bit) = choose|path: Seq<Event>, j: int, bit: int| #[trigger] needs_late(start, path, j, x, bit) && taken(either, path);
            assert(needs_late(entry, p, j, x, bit));
        } else {
            assert(!awaited(start, targets, x));
            assert(first.found.contains(x));
        }
    }
}

proof fn lemma_own_written(entry: Seen, first: Seen, k: int, x: Element, bit: int)
    requires
        sound(first),
        entry.writes.len() <= first.writes.len(),
        0 <= k < write_count::own_writes(entry, first).len(),
        write_count::own_writes(entry, first)[k].bits(false).contains((x, bit)),
    ensures
        first.written.contains((x, bit)),
{
    let n = entry.writes.len() as int;
    assert(first.writes.skip(n)[k] == first.writes[n + k]);
    assert(first.writes[n + k].bits(false).contains((x, bit)));
}

proof fn lemma_grounded_nothing(a: Seen, into: Seq<Access>, targets: Set<Element>, runs: spec_fn(Seq<Event>) -> bool)
    requires
        forall|p: Seq<Event>| p.len() == 0 ==> #[trigger] taken(runs, p),
    ensures
        grounded(a, a, into, targets, runs),
{
    let none = Seq::<Event>::empty();
    assert(taken(runs, none));
}

proof fn lemma_grounded_copies(outputs: Seq<Access>, seen: Seen, into: Seq<Access>, targets: Set<Element>, runs: spec_fn(Seq<Event>) -> bool)
    requires
        nothing_awaited(seen),
        aimed(into, targets),
        taken(runs, Seq::new(outputs.len(), |i: int| Event::CopyBack(outputs[i]))),
    ensures
        grounded(seen, write_count::copied_back(outputs, false, seen), into, targets, runs),
        nothing_awaited(write_count::copied_back(outputs, false, seen)),
    decreases outputs.len(),
{
    let path = Seq::new(outputs.len(), |i: int| Event::CopyBack(outputs[i]));
    if outputs.len() == 0 {
        assert(taken(runs, path));
    } else {
        let shorter = outputs.drop_last();
        let first = Seq::new(shorter.len(), |i: int| Event::CopyBack(shorter[i]));
        let rest = seq![Event::CopyBack(outputs.last())];
        let one = |p: Seq<Event>| p == first;
        let two = |p: Seq<Event>| p == rest;
        assert(taken(one, first));
        assert(taken(two, rest));
        lemma_grounded_copies(shorter, seen, into, targets, one);
        let before = write_count::copied_back(shorter, false, seen);
        let after = write_count::copied_back(outputs, false, seen);
        let last = outputs.last();
        let marks = write_count::write_marks(last);
        assert forall|x: Element, bit: int| #[trigger] after.written.contains((x, bit)) implies before.written.contains((x, bit)) || may_store(two, x, bit) by {
            lemma_wrote_only(before, marks, x, bit);
            if !before.written.contains((x, bit)) {
                lemma_access_of_mark(last, x, bit);
                assert(event_stores(rest[0], x, bit));
                assert(stores_somewhere(rest, x, bit));
            }
        }
        assert forall|x: Element| #[trigger] after.found.contains(x) implies before.found.contains(x) || awaited(before, targets, x) || may_need(before, two, x) by {
            if !before.found.contains(x) {
                let bits = write_count::write_bits(last, false);
                let bit = choose|bit: int| #[trigger] bits.contains((x, bit)) && before.written.contains((x, bit));
                assert(event_needs(rest[0], x, bit));
                assert(needs_late(before, rest, 0, x, bit));
            }
        }
        assert(grounded(before, after, into, targets, two));
        assert forall|p: Seq<Event>, q: Seq<Event>| #[trigger] taken(one, p) && #[trigger] taken(two, q) implies taken(runs, p + q) by {
            assert(first + rest =~= path);
        }
        lemma_grounded_both(seen, before, after, into, targets, one, two, runs);
    }
}

proof fn lemma_access_of_mark(access: Access, x: Element, bit: int)
    requires
        marked(write_count::write_marks(access), x, bit),
    ensures
        outlives(access),
        selects(access, x, bit),
{
    let marks = write_count::write_marks(access);
    let k = choose|k: int| 0 <= k < marks.len() && (#[trigger] marks[k]).bits(false).contains((x, bit));
    assert(k == 0);
}

proof fn lemma_grounded_expression(e: Expression, into: Seq<Access>, targets: Set<Element>, seen: Seen)
    requires
        sound(seen),
        aimed(into, targets),
    ensures
        grounded(
            seen,
            write_count::expression_seen(e, targets, false, seen),
            into,
            targets,
            |path: Seq<Event>| runs_expression(e, into, path),
        ),
    decreases e, 0nat,
{
    let runs = |path: Seq<Event>| runs_expression(e, into, path);
    let after = write_count::expression_seen(e, targets, false, seen);
    match e {
        Expression::Value => {
            assert forall|p: Seq<Event>| p.len() == 0 implies #[trigger] taken(runs, p) by {}
            lemma_grounded_nothing(seen, into, targets, runs);
        },
        Expression::Variable(access) => {
            lemma_grounded_expressions(access.coordinates@, into, targets, seen);
            let one = |path: Seq<Event>| runs_expressions(access.coordinates@, into, path);
            let rest = seq![Event::Read { access, into }];
            let two = |path: Seq<Event>| path == rest;
            assert(taken(two, rest));
            let middle = write_count::expressions_seen(access.coordinates@, targets, false, seen);
            assert forall|x: Element, bit: int| #[trigger]
                after.reads.contains((x, bit)) && after.written.contains((x, bit)) implies (middle.reads.contains((x, bit)) && middle.written.contains((x, bit)))
                || may_read(middle, into, two, x, bit) by {
                if !middle.reads.contains((x, bit)) {
                    assert(write_count::read_bits(access, false).contains((x, bit)));
                    assert(selects(access, x, bit));
                    assert(reads_late(middle, into, rest, 0, x, bit));
                }
            }
            assert(grounded(middle, after, into, targets, two));
            assert forall|p: Seq<Event>, q: Seq<Event>| #[trigger] taken(one, p) && #[trigger] taken(two, q) implies taken(runs, p + q) by {
                assert(joins(p + q, p, q));
            }
            lemma_grounded_both(seen, middle, after, into, targets, one, two, runs);
        },
        Expression::Operands(operands) => {
            lemma_grounded_expressions(operands@, into, targets, seen);
            let one = |path: Seq<Event>| runs_expressions(operands@, into, path);
            assert forall|p: Seq<Event>| #[trigger] taken(one, p) implies taken(runs, p) by {}
            lemma_grounded_more(seen, after, into, targets, one, runs);
        },
        Expression::Ternary(condition, yes, no) => {
            lemma_grounded_expression(*condition, into, targets, seen);
            let one = |path: Seq<Event>| runs_expression(*condition, into, path);
            let asked = write_count::expression_seen(*condition, targets, false, seen);
            lemma_grounded_flush(seen, asked, into, targets, one);
            let decided = write_count::flushed(asked, targets);
            lemma_expression_grows(*condition, into, targets, seen);
            let y = |path: Seq<Event>| runs_expression(*yes, into, path);
            let n = |path: Seq<Event>| runs_expression(*no, into, path);
            let either = |path: Seq<Event>| runs_expression(*yes, into, path) || runs_expression(*no, into, path);
            lemma_grounded_expression(*yes, into, targets, decided);
            let left = write_count::flushed(write_count::expression_seen(*yes, targets, false, decided), targets);
            lemma_grounded_flush(decided, write_count::expression_seen(*yes, targets, false, decided), into, targets, y);
            lemma_expression_grows(*yes, into, targets, decided);
            let start = write_count::alternative(decided, left);
            lemma_sound_alternative(decided, left);
            lemma_grounded_expression(*no, into, targets, start);
            let right = write_count::flushed(write_count::expression_seen(*no, targets, false, start), targets);
            lemma_grounded_flush(start, write_count::expression_seen(*no, targets, false, start), into, targets, n);
            assert forall|p: Seq<Event>| #[trigger] taken(y, p) implies taken(either, p) by {}
            assert forall|p: Seq<Event>| #[trigger] taken(n, p) implies taken(either, p) by {}
            lemma_grounded_joined(decided, left, right, into, targets, y, n, either);
            assert forall|p: Seq<Event>, q: Seq<Event>| #[trigger] taken(one, p) && #[trigger] taken(either, q) implies taken(runs, p + q) by {
                assert(joins(p + q, p, q));
            }
            lemma_grounded_both(seen, decided, after, into, targets, one, either, runs);
        },
        Expression::FunctionCall(call) => {
            lemma_grounded_call(call, into, targets, seen);
            let one = |path: Seq<Event>| runs_call(call, into, path);
            assert forall|p: Seq<Event>| #[trigger] taken(one, p) implies taken(runs, p) by {}
            lemma_grounded_more(seen, after, into, targets, one, runs);
        },
    }
}

proof fn lemma_expressions_sound(list: Seq<Expression>, into: Seq<Access>, targets: Set<Element>, seen: Seen)
    requires
        sound(seen),
        matched(into, targets),
    ensures
        sound(write_count::expressions_seen(list, targets, false, seen)),
{
    let path = lemma_expressions_run(list, into);
    lemma_expressions(list, into, targets, seen, path);
}

proof fn lemma_coordinates_sound(list: Seq<Access>, into: Seq<Access>, targets: Set<Element>, seen: Seen)
    requires
        sound(seen),
        matched(into, targets),
    ensures
        sound(write_count::coordinates_seen(list, targets, false, seen)),
{
    let path = lemma_coordinates_run(list, into);
    lemma_coordinates(list, into, targets, seen, path);
}

proof fn lemma_grounded_expressions(list: Seq<Expression>, into: Seq<Access>, targets: Set<Element>, seen: Seen)
    requires
        sound(seen),
        aimed(into, targets),
    ensures
        grounded(
            seen,
            write_count::expressions_seen(list, targets, false, seen),
            into,
            targets,
            |path: Seq<Event>| runs_expressions(list, into, path),
        ),
    decreases list, 0nat,
{
    let runs = |path: Seq<Event>| runs_expressions(list, into, path);
    if list.len() == 0 {
        assert forall|p: Seq<Event>| p.len() == 0 implies #[trigger] taken(runs, p) by {}
        lemma_grounded_nothing(seen, into, targets, runs);
    } else {
        lemma_grounded_expressions(list.drop_last(), into, targets, seen);
        let one = |path: Seq<Event>| runs_expressions(list.drop_last(), into, path);
        let middle = write_count::expressions_seen(list.drop_last(), targets, false, seen);
        lemma_expressions_sound(list.drop_last(), into, targets, seen);
        lemma_grounded_expression(list.last(), into, targets, middle);
        let two = |path: Seq<Event>| runs_expression(list.last(), into, path);
        assert forall|p: Seq<Event>, q: Seq<Event>| #[trigger] taken(one, p) && #[trigger] taken(two, q) implies taken(runs, p + q) by {
            assert(joins(p + q, p, q));
        }
        lemma_grounded_both(seen, middle, write_count::expressions_seen(list, targets, false, seen), into, targets, one, two, runs);
    }
}

proof fn lemma_grounded_coordinates(list: Seq<Access>, into: Seq<Access>, targets: Set<Element>, seen: Seen)
    requires
        sound(seen),
        aimed(into, targets),
    ensures
        grounded(
            seen,
            write_count::coordinates_seen(list, targets, false, seen),
            into,
            targets,
            |path: Seq<Event>| runs_coordinates(list, into, path),
        ),
    decreases list, 0nat,
{
    let runs = |path: Seq<Event>| runs_coordinates(list, into, path);
    if list.len() == 0 {
        assert forall|p: Seq<Event>| p.len() == 0 implies #[trigger] taken(runs, p) by {}
        lemma_grounded_nothing(seen, into, targets, runs);
    } else {
        lemma_grounded_coordinates(list.drop_last(), into, targets, seen);
        let one = |path: Seq<Event>| runs_coordinates(list.drop_last(), into, path);
        let middle = write_count::coordinates_seen(list.drop_last(), targets, false, seen);
        lemma_coordinates_sound(list.drop_last(), into, targets, seen);
        lemma_grounded_expressions(list.last().coordinates@, into, targets, middle);
        let two = |path: Seq<Event>| runs_expressions(list.last().coordinates@, into, path);
        assert forall|p: Seq<Event>, q: Seq<Event>| #[trigger] taken(one, p) && #[trigger] taken(two, q) implies taken(runs, p + q) by {
            assert(joins(p + q, p, q));
        }
        lemma_grounded_both(seen, middle, write_count::coordinates_seen(list, targets, false, seen), into, targets, one, two, runs);
    }
}

proof fn lemma_grounded_call(call: Call, into: Seq<Access>, targets: Set<Element>, seen: Seen)
    requires
        sound(seen),
        aimed(into, targets),
    ensures
        grounded(
            seen,
            write_count::call_seen(call, targets, false, seen),
            into,
            targets,
            |path: Seq<Event>| runs_call(call, into, path),
        ),
    decreases call, 0nat,
{
    let runs = |path: Seq<Event>| runs_call(call, into, path);
    lemma_grounded_expressions(call.inputs@, into, targets, seen);
    let one = |path: Seq<Event>| runs_expressions(call.inputs@, into, path);
    let inputs = write_count::expressions_seen(call.inputs@, targets, false, seen);
    lemma_expressions_sound(call.inputs@, into, targets, seen);
    lemma_grounded_coordinates(call.outputs@, into, targets, inputs);
    let two = |path: Seq<Event>| runs_coordinates(call.outputs@, into, path);
    let placed = write_count::coordinates_seen(call.outputs@, targets, false, inputs);
    let arguments = |path: Seq<Event>| runs_arguments(call, into, path);
    assert forall|p: Seq<Event>, q: Seq<Event>| #[trigger] taken(one, p) && #[trigger] taken(two, q) implies taken(arguments, p + q) by {
        assert(joins(p + q, p, q));
    }
    lemma_grounded_both(seen, inputs, placed, into, targets, one, two, arguments);
    lemma_grounded_flush(seen, placed, into, targets, arguments);
    let ready = write_count::flushed(placed, targets);
    let copies = Seq::new(call.outputs@.len(), |i: int| Event::CopyBack(call.outputs@[i]));
    let three = |path: Seq<Event>| path == copies;
    assert(taken(three, copies));
    lemma_grounded_copies(call.outputs@, ready, into, targets, three);
    assert forall|p: Seq<Event>, q: Seq<Event>| #[trigger] taken(arguments, p) && #[trigger] taken(three, q) implies taken(runs, p + q) by {
        assert(joins(p + q, p, q));
    }
    lemma_grounded_both(seen, ready, write_count::call_seen(call, targets, false, seen), into, targets, arguments, three, runs);
}

/// The walk goes on from a block with known loops, and nothing is awaited behind it.
proof fn lemma_block_goes_on(statements: Seq<Statement>, seen: Seen)
    requires
        sound(seen),
        nothing_awaited(seen),
        block_known(statements),
    ensures
        extends(seen, write_count::block_seen(statements, false, false, seen)),
        nothing_awaited(write_count::block_seen(statements, false, false, seen)),
{
    let path = lemma_block_runs(statements);
    lemma_known_block(statements);
    lemma_block(statements, false, seen, path);
}

proof fn lemma_grounded_assign(expression: Expression, destinations: Vec<Access>, seen: Seen)
    requires
        sound(seen),
        nothing_awaited(seen),
    ensures
        grounded(
            seen,
            write_count::statement_seen(Statement::Assign { expression, destinations }, false, false, seen),
            Seq::empty(),
            Set::empty(),
            |path: Seq<Event>| runs_statement(Statement::Assign { expression, destinations }, path),
        ),
{
    let none = Seq::<Access>::empty();
    let nobody = Set::<Element>::empty();
    let statement = Statement::Assign { expression, destinations };
    let runs = |path: Seq<Event>| runs_statement(statement, path);
    let targets = write_count::target_elements(destinations@);
    assert(aimed(destinations@, targets)) by {
        assert forall|x: Element| #[trigger] targets.contains(x) <==> goes_into(destinations@, x) by {
            if targets.contains(x) {
                let i = choose|i: int| 0 <= i < destinations@.len() && write_count::write_bits(#[trigger] destinations@[i], true).contains((x, 0));
                assert(outlives(destinations@[i]));
            }
            if goes_into(destinations@, x) {
                let i = choose|i: int|
                    0 <= i < destinations@.len() && outlives(#[trigger] destinations@[i]) && (destinations@[i].location matches Some(
                        location,
                    ) && location.id == x.id && (location.candidates matches Some(candidates) && candidates@.contains(x.index)));
                assert(write_count::write_bits(destinations@[i], true).contains((x, 0)));
            }
        }
    }
    assert(aimed(none, nobody));
    lemma_grounded_expression(expression, destinations@, targets, seen);
    let one = |path: Seq<Event>| runs_expression(expression, destinations@, path);
    let value = write_count::expression_seen(expression, targets, false, seen);
    lemma_grounded_flush(seen, value, destinations@, targets, one);
    lemma_expression_grows(expression, destinations@, targets, seen);
    let read = write_count::flushed(value, targets);
    lemma_grounded_settled(seen, read, destinations@, targets, one);
    lemma_grounded_coordinates(destinations@, none, nobody, read);
    let two = |path: Seq<Event>| runs_coordinates(destinations@, none, path);
    let placed = write_count::coordinates_seen(destinations@, nobody, false, read);
    let reading = |path: Seq<Event>| runs_value(expression, destinations@, path);
    assert forall|p: Seq<Event>, q: Seq<Event>| #[trigger] taken(one, p) && #[trigger] taken(two, q) implies taken(reading, p + q) by {
        assert(joins(p + q, p, q));
    }
    lemma_grounded_both(seen, read, placed, none, nobody, one, two, reading);
    lemma_grounded_flush(seen, placed, none, nobody, reading);
    let ready = write_count::flushed(placed, nobody);
    let marks = write_count::all_write_marks(destinations@);
    let after = write_count::wrote(ready, marks, false);
    lemma_wrote_found(ready, marks);
    let writes = Seq::new(destinations@.len(), |i: int| Event::Write(destinations@[i]));
    let three = |path: Seq<Event>| path == writes;
    assert(taken(three, writes));
    assert forall|x: Element, bit: int| #[trigger] after.written.contains((x, bit)) implies ready.written.contains((x, bit)) || may_store(three, x, bit) by {
        lemma_wrote_only(ready, marks, x, bit);
        if !ready.written.contains((x, bit)) {
            let i = lemma_stored_access(destinations@, x, bit);
            assert(event_stores(writes[i], x, bit));
            assert(stores_somewhere(writes, x, bit));
        }
    }
    assert(grounded(ready, after, none, nobody, three));
    assert forall|p: Seq<Event>, q: Seq<Event>| #[trigger] taken(reading, p) && #[trigger] taken(three, q) implies taken(runs, p + q) by {
        assert(joins(p + q, p, q));
        assert(runs_assign(expression, destinations@, p + q));
    }
    lemma_grounded_both(seen, ready, after, none, nobody, reading, three, runs);
}

proof fn lemma_stored_access(list: Seq<Access>, x: Element, bit: int) -> (i: int)
    requires
        marked(write_count::all_write_marks(list), x, bit),
    ensures
        0 <= i < list.len(),
        outlives(list[i]),
        selects(list[i], x, bit),
    decreases list.len(),
{
    let marks = write_count::all_write_marks(list);
    let k = choose|k: int| 0 <= k < marks.len() && (#[trigger] marks[k]).bits(false).contains((x, bit));
    let before = write_count::all_write_marks(list.drop_last());
    if k < before.len() {
        assert(before[k].bits(false).contains((x, bit)));
        let i = lemma_stored_access(list.drop_last(), x, bit);
        assert(list.drop_last()[i] == list[i]);
        i
    } else {
        let last = write_count::write_marks(list.last());
        assert(last[k - before.len()].bits(false).contains((x, bit)));
        lemma_access_of_mark(list.last(), x, bit);
        list.len() - 1
    }
}

/// Both sides from one state.
proof fn lemma_grounded_sides(statement: Statement, yes: Seq<Statement>, no: Seq<Statement>, seen: Seen)
    requires
        sound(seen),
        nothing_awaited(seen),
        block_known(yes),
        block_known(no),
        match statement {
            Statement::If { condition, yes: one, no: two } => yes == one@ && no == two@,
            Statement::IfReset { yes: one, no: two } => yes == one@ && no == two@,
            _ => false,
        },
    ensures
        ({
            let one = write_count::block_seen(yes, false, false, seen);
            let two = write_count::block_seen(no, false, false, write_count::alternative(seen, one));
            grounded(
                seen,
                write_count::joined(seen, one, two, false),
                Seq::empty(),
                Set::empty(),
                |path: Seq<Event>| runs_block(yes, path) || runs_block(no, path),
            )
        }),
    decreases statement, 0nat,
{
    let y = |path: Seq<Event>| runs_block(yes, path);
    let n = |path: Seq<Event>| runs_block(no, path);
    let either = |path: Seq<Event>| runs_block(yes, path) || runs_block(no, path);
    lemma_grounded_block(yes, seen);
    lemma_block_goes_on(yes, seen);
    let one = write_count::block_seen(yes, false, false, seen);
    let start = write_count::alternative(seen, one);
    lemma_sound_alternative(seen, one);
    lemma_grounded_block(no, start);
    let two = write_count::block_seen(no, false, false, start);
    assert forall|p: Seq<Event>| #[trigger] taken(y, p) implies taken(either, p) by {}
    assert forall|p: Seq<Event>| #[trigger] taken(n, p) implies taken(either, p) by {}
    lemma_grounded_joined(seen, one, two, Seq::empty(), Set::empty(), y, n, either);
}

proof fn lemma_grounded_statement(statement: Statement, seen: Seen)
    requires
        sound(seen),
        nothing_awaited(seen),
        known_loops(statement),
    ensures
        grounded(
            seen,
            write_count::statement_seen(statement, false, false, seen),
            Seq::empty(),
            Set::empty(),
            |path: Seq<Event>| runs_statement(statement, path),
        ),
    decreases statement, 1nat,
{
    let none = Seq::<Access>::empty();
    let nobody = Set::<Element>::empty();
    let runs = |path: Seq<Event>| runs_statement(statement, path);
    let after = write_count::statement_seen(statement, false, false, seen);
    assert(aimed(none, nobody));
    match statement {
        Statement::Assign { expression, destinations } => {
            lemma_grounded_assign(expression, destinations, seen);
        },
        Statement::If { condition, yes, no } => {
            lemma_grounded_expression(condition, none, nobody, seen);
            let one = |path: Seq<Event>| runs_expression(condition, none, path);
            let asked = write_count::expression_seen(condition, nobody, false, seen);
            lemma_grounded_flush(seen, asked, none, nobody, one);
            lemma_expression_grows(condition, none, nobody, seen);
            let decided = write_count::flushed(asked, nobody);
            lemma_grounded_sides(statement, yes@, no@, decided);
            let either = |path: Seq<Event>| runs_block(yes@, path) || runs_block(no@, path);
            assert forall|p: Seq<Event>, q: Seq<Event>| #[trigger] taken(one, p) && #[trigger] taken(either, q) implies taken(runs, p + q) by {
                assert(joins(p + q, p, q));
            }
            lemma_grounded_both(seen, decided, after, none, nobody, one, either, runs);
        },
        Statement::IfReset { yes, no } => {
            lemma_grounded_sides(statement, yes@, no@, seen);
            let either = |path: Seq<Event>| runs_block(yes@, path) || runs_block(no@, path);
            assert forall|p: Seq<Event>| #[trigger] taken(either, p) implies taken(runs, p) by {}
            lemma_grounded_more(seen, after, none, nobody, either, runs);
        },
        Statement::Case { target, arms, default } => {
            lemma_grounded_expression(target, none, nobody, seen);
            let one = |path: Seq<Event>| runs_expression(target, none, path);
            let asked = write_count::expression_seen(target, nobody, false, seen);
            lemma_grounded_flush(seen, asked, none, nobody, one);
            lemma_expression_grows(target, none, nobody, seen);
            let decided = write_count::flushed(asked, nobody);
            let chosen = write_count::arms_seen(arms@, false, false, decided);
            let start = write_count::alternative(decided, chosen);
            lemma_known_blocks(arms@);
            lemma_arms(arms@, false, decided, Seq::empty());
            lemma_sound_alternative(decided, chosen);
            lemma_grounded_block(default@, start);
            let last = write_count::block_seen(default@, false, false, start);
            let d = |path: Seq<Event>| runs_block(default@, path);
            let either = |path: Seq<Event>| runs_one_of(arms@, path) || runs_block(default@, path);
            assert forall|p: Seq<Event>| #[trigger] taken(d, p) implies taken(either, p) by {}
            if arms@.len() == 0 {
                assert(chosen == decided);
                assert(grounded(decided, chosen, none, nobody, either)) by {
                    let p = lemma_block_runs(default@);
                    assert(taken(d, p));
                    assert(taken(either, p));
                }
                lemma_grounded_joined(decided, chosen, last, none, nobody, either, d, either);
            } else {
                lemma_grounded_arms(arms@, decided);
                let a = |path: Seq<Event>| runs_one_of(arms@, path);
                assert forall|p: Seq<Event>| #[trigger] taken(a, p) implies taken(either, p) by {}
                lemma_grounded_joined(decided, chosen, last, none, nobody, a, d, either);
            }
            assert forall|p: Seq<Event>, q: Seq<Event>| #[trigger] taken(one, p) && #[trigger] taken(either, q) implies taken(runs, p + q) by {
                assert(joins(p + q, p, q));
            }
            lemma_grounded_both(seen, decided, after, none, nobody, one, either, runs);
        },
        Statement::For { body, iterations } => {
            if let Some(bodies) = iterations {
                lemma_grounded_turns(bodies@, seen);
                let one = |path: Seq<Event>| runs_in_turn(bodies@, path);
                assert forall|p: Seq<Event>| #[trigger] taken(one, p) implies taken(runs, p) by {
                    assert(runs_in_turn(bodies@, p));
                    assert(runs_statement(statement, p));
                }
                lemma_grounded_more(seen, after, none, nobody, one, runs);
            }
        },
        Statement::FunctionCall(call) => {
            lemma_grounded_call(call, none, nobody, seen);
            let one = |path: Seq<Event>| runs_call(call, none, path);
            lemma_grounded_flush(seen, write_count::call_seen(call, nobody, false, seen), none, nobody, one);
            assert forall|p: Seq<Event>| #[trigger] taken(one, p) implies taken(runs, p) by {}
            lemma_grounded_more(seen, after, none, nobody, one, runs);
        },
        Statement::Other => {
            assert forall|p: Seq<Event>| p.len() == 0 implies #[trigger] taken(runs, p) by {}
            lemma_grounded_nothing(seen, none, nobody, runs);
        },
    }
}

proof fn lemma_grounded_block(statements: Seq<Statement>, seen: Seen)
    requires
        sound(seen),
        nothing_awaited(seen),
        block_known(statements),
    ensures
        grounded(
            seen,
            write_count::block_seen(statements, false, false, seen),
            Seq::empty(),
            Set::empty(),
            |path: Seq<Event>| runs_block(statements, path),
        ),
    decreases statements, 0nat,
{
    let none = Seq::<Access>::empty();
    let nobody = Set::<Element>::empty();
    let runs = |path: Seq<Event>| runs_block(statements, path);
    assert(aimed(none, nobody));
    if statements.len() == 0 {
        assert forall|p: Seq<Event>| p.len() == 0 implies #[trigger] taken(runs, p) by {}
        lemma_grounded_nothing(seen, none, nobody, runs);
    } else {
        lemma_grounded_block(statements.drop_last(), seen);
        lemma_block_goes_on(statements.drop_last(), seen);
        let one = |path: Seq<Event>| runs_block(statements.drop_last(), path);
        let middle = write_count::block_seen(statements.drop_last(), false, false, seen);
        lemma_grounded_statement(statements.last(), middle);
        let two = |path: Seq<Event>| runs_statement(statements.last(), path);
        assert forall|p: Seq<Event>, q: Seq<Event>| #[trigger] taken(one, p) && #[trigger] taken(two, q) implies taken(runs, p + q) by {
            assert(joins(p + q, p, q));
        }
        lemma_grounded_both(seen, middle, write_count::block_seen(statements, false, false, seen), none, nobody, one, two, runs);
    }
}

proof fn lemma_grounded_turns(blocks: Seq<Vec<Statement>>, seen: Seen)
    requires
        sound(seen),
        nothing_awaited(seen),
        blocks_known(blocks),
    ensures
        grounded(
            seen,
            write_count::iterations_seen(blocks, false, false, seen),
            Seq::empty(),
            Set::empty(),
            |path: Seq<Event>| runs_in_turn(blocks, path),
        ),
    decreases blocks, 0nat,
{
    let none = Seq::<Access>::empty();
    let nobody = Set::<Element>::empty();
    let runs = |path: Seq<Event>| runs_in_turn(blocks, path);
    assert(aimed(none, nobody));
    if blocks.len() == 0 {
        assert forall|p: Seq<Event>| p.len() == 0 implies #[trigger] taken(runs, p) by {}
        lemma_grounded_nothing(seen, none, nobody, runs);
    } else {
        lemma_grounded_turns(blocks.drop_last(), seen);
        let one = |path: Seq<Event>| runs_in_turn(blocks.drop_last(), path);
        let middle = write_count::iterations_seen(blocks.drop_last(), false, false, seen);
        let some = lemma_turns_run(blocks.drop_last());
        lemma_known_blocks(blocks.drop_last());
        lemma_turns(blocks.drop_last(), false, seen, some);
        lemma_grounded_block(blocks.last()@, middle);
        let two = |path: Seq<Event>| runs_block(blocks.last()@, path);
        assert forall|p: Seq<Event>, q: Seq<Event>| #[trigger] taken(one, p) && #[trigger] taken(two, q) implies taken(runs, p + q) by {
            assert(joins(p + q, p, q));
        }
        lemma_grounded_both(seen, middle, write_count::iterations_seen(blocks, false, false, seen), none, nobody, one, two, runs);
    }
}

proof fn lemma_grounded_arms(arms: Seq<Vec<Statement>>, seen: Seen)
    requires
        sound(seen),
        nothing_awaited(seen),
        blocks_known(arms),
        arms.len() > 0,
    ensures
        grounded(
            seen,
            write_count::arms_seen(arms, false, false, seen),
            Seq::empty(),
            Set::empty(),
            |path: Seq<Event>| runs_one_of(arms, path),
        ),
    decreases arms, 0nat,
{
    let none = Seq::<Access>::empty();
    let nobody = Set::<Element>::empty();
    let runs = |path: Seq<Event>| runs_one_of(arms, path);
    let before = write_count::arms_seen(arms.drop_last(), false, false, seen);
    let start = write_count::alternative(seen, before);
    lemma_sound_alternative(seen, before);
    lemma_grounded_block(arms.last()@, start);
    let next = write_count::block_seen(arms.last()@, false, false, start);
    let last = |path: Seq<Event>| runs_block(arms.last()@, path);
    assert forall|p: Seq<Event>| #[trigger] taken(last, p) implies taken(runs, p) by {
        assert(runs_block(arms[arms.len() - 1]@, p));
    }
    lemma_grounded_more(start, next, none, nobody, last, runs);
    if arms.len() > 1 {
        lemma_grounded_arms(arms.drop_last(), seen);
        let one = |path: Seq<Event>| runs_one_of(arms.drop_last(), path);
        assert forall|p: Seq<Event>| #[trigger] taken(one, p) implies taken(runs, p) by {
            let k = choose|k: int| 0 <= k < arms.drop_last().len() && runs_block((#[trigger] arms.drop_last()[k])@, p);
            assert(runs_block(arms[k]@, p));
        }
        lemma_grounded_more(seen, before, none, nobody, one, runs);
    }
    let after = write_count::arms_seen(arms, false, false, seen);
    assert forall|x: Element, bit: int| #[trigger] after.written.contains((x, bit)) implies seen.written.contains((x, bit)) || may_store(runs, x, bit) by {
        assert(before.written.contains((x, bit)) || next.written.contains((x, bit)));
    }
    assert forall|x: Element| #[trigger] after.found.contains(x) implies seen.found.contains(x) || awaited(seen, nobody, x) || may_need(seen, runs, x) by {
        assert(next.found.contains(x));
        if may_need(start, runs, x) {
            let (p, j, bit) = choose|path: Seq<Event>, j: int, bit: int| #[trigger] needs_late(start, path, j, x, bit) && taken(runs, path);
            assert(needs_late(seen, p, j, x, bit));
        } else {
            assert(before.found.contains(x));
        }
    }
}

/// An element is found only where it has to be: on some way through the block, an assignment to it
/// reads one of its bits, or a call copies back into one, after an earlier event has stored it. Writes
/// on one side of a condition do not count for the other side.
///
/// The iterations of all loops must be known: where they are not, everything that the body may store
/// counts as stored.
pub proof fn only_reads_of_stored_bits_are_found(statements: Vec<Statement>, x: Element)
    requires
        block_known(statements@),
    ensures
        self_reads::declaration_reads(Declaration::Ff(statements), false).contains(x) <==> may_read_what_it_wrote(statements@, x),
{
    let start = write_count::unseen();
    let runs = |path: Seq<Event>| runs_block(statements@, path);
    lemma_grounded_block(statements@, start);
    let after = write_count::block_seen(statements@, false, false, start);
    if after.found.contains(x) {
        assert(may_need(start, runs, x));
        let (path, j, bit) = choose|path: Seq<Event>, j: int, bit: int| #[trigger] needs_late(start, path, j, x, bit) && taken(runs, path);
        let i = choose|i: int| 0 <= i < j && event_stores(#[trigger] path[i], x, bit);
        assert(reads_what_it_wrote(path, i, j, x, bit));
        assert(runs_block(statements@, path));
    }
    lemma_known_block(statements@);
    blocks_that_read_what_they_wrote_are_found(statements);
}

} // verus!
