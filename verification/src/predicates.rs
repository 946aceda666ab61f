//! The conditions of decisions: two that are written alike, and read the same versions, decide alike.
use vstd::prelude::*;
use crate::ir::{Expression, Node, Operand};

verus! {

/// A condition, as it is written.
pub enum PredicateExpression {
    /// A variable with its indexes and selects, and with the operator and the end of a range.
    Variable {
        id: u64,
        index: Vec<PredicateExpression>,
        select: Vec<PredicateExpression>,
        range: Option<PredicateRange>,
    },
    /// A value; equal values have equal numbers.
    Value(u64),
    Unary(u64, Box<PredicateExpression>),
    Binary(Box<PredicateExpression>, u64, Box<PredicateExpression>),
    Ternary(Box<PredicateExpression>, Box<PredicateExpression>, Box<PredicateExpression>),
    Concatenation(Vec<PredicatePart>),
    ArrayLiteral(Vec<PredicatePart>),
    StructConstructor(Vec<PredicateMember>),
    /// Anything else, which is like nothing but itself.
    Opaque(usize),
}

/// The range of a select.
pub struct PredicateRange {
    pub op: u8,
    pub end: Box<PredicateExpression>,
}

/// A part of a concatenation or an item of an array literal.
pub struct PredicatePart {
    pub value: PredicateExpression,
    pub repeat: Option<Box<PredicateExpression>>,
}

/// A member of a struct constructor.
pub struct PredicateMember {
    pub name: u64,
    pub value: PredicateExpression,
}

/// The condition as a value.
pub enum Shape {
    Variable { id: u64, index: Seq<Shape>, select: Seq<Shape>, op: Option<u8>, end: Seq<Shape> },
    Value(u64),
    Unary(u64, Box<Shape>),
    Binary(Box<Shape>, u64, Box<Shape>),
    Ternary(Box<Shape>, Box<Shape>, Box<Shape>),
    /// The parts, each with how often it is repeated where that is written.
    Concatenation(Seq<Shape>),
    ArrayLiteral(Seq<Shape>),
    StructConstructor(Seq<Shape>),
    Part { value: Box<Shape>, repeat: Seq<Shape> },
    Member { name: u64, value: Box<Shape> },
    Opaque(usize),
}

/// What is written.
pub open spec fn shape(expression: PredicateExpression) -> Shape
    decreases expression,
{
    match expression {
        PredicateExpression::Variable { id, index, select, range } => Shape::Variable {
            id,
            index: shapes(index@),
            select: shapes(select@),
            op: match range {
                Some(range) => Some(range.op),
                None => None,
            },
            end: match range {
                Some(range) => seq![shape(*range.end)],
                None => Seq::empty(),
            },
        },
        PredicateExpression::Value(value) => Shape::Value(value),
        PredicateExpression::Unary(op, inner) => Shape::Unary(op, Box::new(shape(*inner))),
        PredicateExpression::Binary(left, op, right) => Shape::Binary(Box::new(shape(*left)), op, Box::new(shape(*right))),
        PredicateExpression::Ternary(condition, left, right) => Shape::Ternary(
            Box::new(shape(*condition)),
            Box::new(shape(*left)),
            Box::new(shape(*right)),
        ),
        PredicateExpression::Concatenation(parts) => Shape::Concatenation(part_shapes(parts@)),
        PredicateExpression::ArrayLiteral(parts) => Shape::ArrayLiteral(part_shapes(parts@)),
        PredicateExpression::StructConstructor(members) => Shape::StructConstructor(member_shapes(members@)),
        PredicateExpression::Opaque(identity) => Shape::Opaque(identity),
    }
}

pub open spec fn shapes(list: Seq<PredicateExpression>) -> Seq<Shape>
    decreases list,
{
    if list.len() == 0 {
        Seq::empty()
    } else {
        shapes(list.drop_last()).push(shape(list.last()))
    }
}

pub open spec fn part_shape(part: PredicatePart) -> Shape
    decreases part,
{
    Shape::Part {
        value: Box::new(shape(part.value)),
        repeat: match part.repeat {
            Some(repeat) => seq![shape(*repeat)],
            None => Seq::empty(),
        },
    }
}

pub open spec fn part_shapes(list: Seq<PredicatePart>) -> Seq<Shape>
    decreases list,
{
    if list.len() == 0 {
        Seq::empty()
    } else {
        part_shapes(list.drop_last()).push(part_shape(list.last()))
    }
}

pub open spec fn member_shapes(list: Seq<PredicateMember>) -> Seq<Shape>
    decreases list,
{
    if list.len() == 0 {
        Seq::empty()
    } else {
        member_shapes(list.drop_last()).push(Shape::Member { name: list.last().name, value: Box::new(shape(list.last().value)) })
    }
}

proof fn lemma_shapes(list: Seq<PredicateExpression>)
    ensures
        shapes(list).len() == list.len(),
        forall|i: int| 0 <= i < list.len() ==> #[trigger] shapes(list)[i] == shape(list[i]),
    decreases list.len(),
{
    if list.len() > 0 {
        lemma_shapes(list.drop_last());
        assert forall|i: int| 0 <= i < list.len() implies #[trigger] shapes(list)[i] == shape(list[i]) by {
            if i < list.len() - 1 {
                assert(shapes(list.drop_last())[i] == shape(list.drop_last()[i]));
            }
        }
    }
}

proof fn lemma_part_shapes(list: Seq<PredicatePart>)
    ensures
        part_shapes(list).len() == list.len(),
        forall|i: int| 0 <= i < list.len() ==> #[trigger] part_shapes(list)[i] == part_shape(list[i]),
    decreases list.len(),
{
    if list.len() > 0 {
        lemma_part_shapes(list.drop_last());
        assert forall|i: int| 0 <= i < list.len() implies #[trigger] part_shapes(list)[i] == part_shape(list[i]) by {
            if i < list.len() - 1 {
                assert(part_shapes(list.drop_last())[i] == part_shape(list.drop_last()[i]));
            }
        }
    }
}

spec fn member_shape(member: PredicateMember) -> Shape {
    Shape::Member { name: member.name, value: Box::new(shape(member.value)) }
}

proof fn lemma_member_shapes(list: Seq<PredicateMember>)
    ensures
        member_shapes(list).len() == list.len(),
        forall|i: int| 0 <= i < list.len() ==> #[trigger] member_shapes(list)[i] == member_shape(list[i]),
    decreases list.len(),
{
    if list.len() > 0 {
        lemma_member_shapes(list.drop_last());
        assert forall|i: int| 0 <= i < list.len() implies #[trigger] member_shapes(list)[i] == member_shape(list[i]) by {
            if i < list.len() - 1 {
                assert(member_shapes(list.drop_last())[i] == member_shape(list.drop_last()[i]));
            }
        }
    }
}

fn same_list(a: &Vec<PredicateExpression>, b: &Vec<PredicateExpression>) -> (r: bool)
    ensures
        r == (shapes(a@) == shapes(b@)),
    decreases a,
{
    proof {
        lemma_shapes(a@);
        lemma_shapes(b@);
    }
    if a.len() != b.len() {
        return false;
    }
    let mut i: usize = 0;
    while i < a.len()
        invariant
            a@.len() == b@.len(),
            i <= a@.len(),
            shapes(a@).len() == a@.len(),
            shapes(b@).len() == b@.len(),
            forall|k: int| 0 <= k < a@.len() ==> #[trigger] shapes(a@)[k] == shape(a@[k]),
            forall|k: int| 0 <= k < b@.len() ==> #[trigger] shapes(b@)[k] == shape(b@[k]),
            forall|k: int| 0 <= k < i ==> shapes(a@)[k] == shapes(b@)[k],
        decreases a@.len() - i,
    {
        if !same_expression(&a[i], &b[i]) {
            assert(shapes(a@)[i as int] != shapes(b@)[i as int]);
            return false;
        }
        i = i + 1;
    }
    assert(shapes(a@) =~= shapes(b@));
    true
}

fn same_part(a: &PredicatePart, b: &PredicatePart) -> (r: bool)
    ensures
        r == (part_shape(*a) == part_shape(*b)),
    decreases a,
{
    let repeated = match (&a.repeat, &b.repeat) {
        (Some(first), Some(second)) => {
            let same = same_expression(first, second);
            proof {
                assert(seq![shape(**first)][0] == shape(**first));
                assert(seq![shape(**second)][0] == shape(**second));
                assert(same ==> seq![shape(**first)] =~= seq![shape(**second)]);
            }
            same
        },
        (None, None) => true,
        (Some(first), None) => {
            assert(seq![shape(**first)].len() != Seq::<Shape>::empty().len());
            false
        },
        (None, Some(second)) => {
            assert(seq![shape(**second)].len() != Seq::<Shape>::empty().len());
            false
        },
    };
    same_expression(&a.value, &b.value) && repeated
}

fn same_parts(a: &Vec<PredicatePart>, b: &Vec<PredicatePart>) -> (r: bool)
    ensures
        r == (part_shapes(a@) == part_shapes(b@)),
    decreases a,
{
    proof {
        lemma_part_shapes(a@);
        lemma_part_shapes(b@);
    }
    if a.len() != b.len() {
        return false;
    }
    let mut i: usize = 0;
    while i < a.len()
        invariant
            a@.len() == b@.len(),
            i <= a@.len(),
            part_shapes(a@).len() == a@.len(),
            part_shapes(b@).len() == b@.len(),
            forall|k: int| 0 <= k < a@.len() ==> #[trigger] part_shapes(a@)[k] == part_shape(a@[k]),
            forall|k: int| 0 <= k < b@.len() ==> #[trigger] part_shapes(b@)[k] == part_shape(b@[k]),
            forall|k: int| 0 <= k < i ==> part_shapes(a@)[k] == part_shapes(b@)[k],
        decreases a@.len() - i,
    {
        if !same_part(&a[i], &b[i]) {
            assert(part_shapes(a@)[i as int] != part_shapes(b@)[i as int]);
            return false;
        }
        i = i + 1;
    }
    assert(part_shapes(a@) =~= part_shapes(b@));
    true
}

fn same_members(a: &Vec<PredicateMember>, b: &Vec<PredicateMember>) -> (r: bool)
    ensures
        r == (member_shapes(a@) == member_shapes(b@)),
    decreases a,
{
    proof {
        lemma_member_shapes(a@);
        lemma_member_shapes(b@);
    }
    if a.len() != b.len() {
        return false;
    }
    let mut i: usize = 0;
    while i < a.len()
        invariant
            a@.len() == b@.len(),
            i <= a@.len(),
            member_shapes(a@).len() == a@.len(),
            member_shapes(b@).len() == b@.len(),
            forall|k: int| 0 <= k < a@.len() ==> #[trigger] member_shapes(a@)[k] == member_shape(a@[k]),
            forall|k: int| 0 <= k < b@.len() ==> #[trigger] member_shapes(b@)[k] == member_shape(b@[k]),
            forall|k: int| 0 <= k < i ==> member_shapes(a@)[k] == member_shapes(b@)[k],
        decreases a@.len() - i,
    {
        let first = &a[i];
        let second = &b[i];
        if first.name != second.name || !same_expression(&first.value, &second.value) {
            assert(member_shapes(a@)[i as int] != member_shapes(b@)[i as int]);
            return false;
        }
        i = i + 1;
    }
    assert(member_shapes(a@) =~= member_shapes(b@));
    true
}

fn same_range(a: &Option<PredicateRange>, b: &Option<PredicateRange>) -> (r: bool)
    ensures
        r == match (*a, *b) {
            (Some(first), Some(second)) => first.op == second.op && shape(*first.end) == shape(*second.end),
            (None, None) => true,
            _ => false,
        },
    decreases a,
{
    match (a, b) {
        (Some(first), Some(second)) => first.op == second.op && same_expression(&first.end, &second.end),
        (None, None) => true,
        _ => false,
    }
}

/// Whether two conditions are written alike.
pub fn same_expression(a: &PredicateExpression, b: &PredicateExpression) -> (r: bool)
    ensures
        r == (shape(*a) == shape(*b)),
    decreases a,
{
    match (a, b) {
        (
            PredicateExpression::Variable { id, index, select, range },
            PredicateExpression::Variable { id: other, index: indexes, select: selects, range: ranges },
        ) => {
            let same = same_range(range, ranges);
            proof {
                if let Some(first) = range {
                    let one = seq![shape(*first.end)];
                    assert(one[0] == shape(*first.end) && one.len() == 1);
                    if let Some(second) = ranges {
                        let two = seq![shape(*second.end)];
                        assert(two[0] == shape(*second.end));
                        assert(shape(*first.end) == shape(*second.end) ==> one =~= two);
                    }
                }
            }
            *id == *other && same && same_list(index, indexes) && same_list(select, selects)
        },
        (PredicateExpression::Value(value), PredicateExpression::Value(other)) => *value == *other,
        (PredicateExpression::Unary(op, inner), PredicateExpression::Unary(ops, others)) => *op == *ops && same_expression(inner, others),
        (PredicateExpression::Binary(left, op, right), PredicateExpression::Binary(lefts, ops, rights)) => *op == *ops && same_expression(left, lefts)
            && same_expression(right, rights),
        (PredicateExpression::Ternary(condition, left, right), PredicateExpression::Ternary(conditions, lefts, rights)) => same_expression(
            condition,
            conditions,
        ) && same_expression(left, lefts) && same_expression(right, rights),
        (PredicateExpression::Concatenation(parts), PredicateExpression::Concatenation(others)) => same_parts(parts, others),
        (PredicateExpression::ArrayLiteral(parts), PredicateExpression::ArrayLiteral(others)) => same_parts(parts, others),
        (PredicateExpression::StructConstructor(members), PredicateExpression::StructConstructor(others)) => same_members(members, others),
        (PredicateExpression::Opaque(identity), PredicateExpression::Opaque(other)) => *identity == *other,
        _ => false,
    }
}

/// What is written in an expression. What is neither a variable nor a value, nor made of these by operators,
/// is like nothing but itself.
pub open spec fn written(expression: Expression) -> Shape
    decreases expression,
{
    match expression.node {
        Node::Variable(access) => Shape::Variable {
            id: access.id,
            index: written_list(access.index@),
            select: if access.range is Some && access.select@.len() > 0 {
                written_list(access.select@).drop_last()
            } else {
                written_list(access.select@)
            },
            op: if access.select@.len() > 0 {
                access.range
            } else {
                None
            },
            end: if access.range is Some && access.select@.len() > 0 {
                seq![written_list(access.select@).last()]
            } else {
                Seq::empty()
            },
        },
        Node::Constant => Shape::Value(expression.sign),
        Node::Unary(_, inner) => Shape::Unary(expression.sign, Box::new(written(*inner))),
        Node::Binary(left, _, right) => Shape::Binary(Box::new(written(*left)), expression.sign, Box::new(written(*right))),
        Node::Ternary(condition, left, right) => Shape::Ternary(Box::new(written(*condition)), Box::new(written(*left)), Box::new(written(*right))),
        Node::Concatenation(parts) => Shape::Concatenation(written_parts(parts@)),
        Node::ArrayLiteral(parts) => Shape::ArrayLiteral(written_parts(parts@)),
        Node::Struct(members) => Shape::StructConstructor(written_members(members@)),
        _ => Shape::Opaque(expression.occurrence),
    }
}

pub open spec fn written_list(list: Seq<Expression>) -> Seq<Shape>
    decreases list,
{
    if list.len() == 0 {
        Seq::empty()
    } else {
        written_list(list.drop_last()).push(written(list.last()))
    }
}

pub open spec fn written_part(operand: Operand) -> Shape
    decreases operand,
{
    Shape::Part {
        value: Box::new(written(operand.value)),
        repeat: match operand.repeat {
            Some(repeat) => seq![written(repeat)],
            None => Seq::empty(),
        },
    }
}

pub open spec fn written_parts(list: Seq<Operand>) -> Seq<Shape>
    decreases list,
{
    if list.len() == 0 {
        Seq::empty()
    } else {
        written_parts(list.drop_last()).push(written_part(list.last()))
    }
}

pub open spec fn written_members(list: Seq<Operand>) -> Seq<Shape>
    decreases list,
{
    if list.len() == 0 {
        Seq::empty()
    } else {
        written_members(list.drop_last()).push(Shape::Member { name: list.last().name, value: Box::new(written(list.last().value)) })
    }
}

proof fn lemma_written_list(list: Seq<Expression>)
    ensures
        written_list(list).len() == list.len(),
        forall|i: int| 0 <= i < list.len() ==> #[trigger] written_list(list)[i] == written(list[i]),
    decreases list.len(),
{
    if list.len() > 0 {
        lemma_written_list(list.drop_last());
        assert forall|i: int| 0 <= i < list.len() implies #[trigger] written_list(list)[i] == written(list[i]) by {
            if i < list.len() - 1 {
                assert(written_list(list.drop_last())[i] == written(list.drop_last()[i]));
            }
        }
    }
}

/// The conditions of the first expressions of a list.
fn from_list(list: &Vec<Expression>, count: usize) -> (r: Vec<PredicateExpression>)
    requires
        count <= list@.len(),
    ensures
        shapes(r@) == written_list(list@.take(count as int)),
    decreases list,
{
    let mut r: Vec<PredicateExpression> = Vec::new();
    let mut i: usize = 0;
    assert(list@.take(0) =~= Seq::empty());
    while i < count
        invariant
            i <= count <= list@.len(),
            shapes(r@) == written_list(list@.take(i as int)),
        decreases count - i,
    {
        let ghost before = r@;
        r.push(from_expression(&list[i]));
        proof {
            assert(r@.drop_last() =~= before);
            assert(list@.take(i as int + 1).drop_last() =~= list@.take(i as int));
        }
        i = i + 1;
    }
    r
}

fn from_parts(list: &Vec<Operand>) -> (r: Vec<PredicatePart>)
    ensures
        part_shapes(r@) == written_parts(list@),
    decreases list,
{
    let mut r: Vec<PredicatePart> = Vec::new();
    let mut i: usize = 0;
    assert(list@.take(0) =~= Seq::empty());
    while i < list.len()
        invariant
            i <= list@.len(),
            part_shapes(r@) == written_parts(list@.take(i as int)),
        decreases list@.len() - i,
    {
        let ghost before = r@;
        let operand = &list[i];
        let repeat = match &operand.repeat {
            Some(repeat) => Some(Box::new(from_expression(repeat))),
            None => None,
        };
        let part = PredicatePart { value: from_expression(&operand.value), repeat };
        assert(part_shape(part) == written_part(*operand));
        r.push(part);
        proof {
            assert(r@.drop_last() =~= before);
            assert(list@.take(i as int + 1).drop_last() =~= list@.take(i as int));
        }
        i = i + 1;
    }
    assert(list@.take(i as int) =~= list@);
    r
}

fn from_members(list: &Vec<Operand>) -> (r: Vec<PredicateMember>)
    ensures
        member_shapes(r@) == written_members(list@),
    decreases list,
{
    let mut r: Vec<PredicateMember> = Vec::new();
    let mut i: usize = 0;
    assert(list@.take(0) =~= Seq::empty());
    while i < list.len()
        invariant
            i <= list@.len(),
            member_shapes(r@) == written_members(list@.take(i as int)),
        decreases list@.len() - i,
    {
        let ghost before = r@;
        r.push(PredicateMember { name: list[i].name, value: from_expression(&list[i].value) });
        proof {
            assert(r@.drop_last() =~= before);
            assert(list@.take(i as int + 1).drop_last() =~= list@.take(i as int));
        }
        i = i + 1;
    }
    assert(list@.take(i as int) =~= list@);
    r
}

/// The condition that an expression is.
pub fn from_expression(expression: &Expression) -> (r: PredicateExpression)
    ensures
        shape(r) == written(*expression),
    decreases expression,
{
    match &expression.node {
        Node::Variable(access) => {
            let index = from_list(&access.index, access.index.len());
            let count: usize = access.select.len();
            assert(access.index@.take(access.index@.len() as int) =~= access.index@);
            proof {
                lemma_written_list(access.select@);
            }
            match access.range {
                Some(op) if count > 0 => {
                    let select = from_list(&access.select, count - 1);
                    let end = from_expression(&access.select[count - 1]);
                    proof {
                        assert(access.select@.take(count - 1) =~= access.select@.drop_last());
                        assert(written_list(access.select@).drop_last() =~= written_list(access.select@.drop_last()));
                    }
                    PredicateExpression::Variable { id: access.id, index, select, range: Some(PredicateRange { op, end: Box::new(end) }) }
                },
                _ => {
                    let select = from_list(&access.select, count);
                    assert(access.select@.take(count as int) =~= access.select@);
                    PredicateExpression::Variable { id: access.id, index, select, range: None }
                },
            }
        },
        Node::Constant => PredicateExpression::Value(expression.sign),
        Node::Unary(_, inner) => PredicateExpression::Unary(expression.sign, Box::new(from_expression(inner))),
        Node::Binary(left, _, right) => PredicateExpression::Binary(
            Box::new(from_expression(left)),
            expression.sign,
            Box::new(from_expression(right)),
        ),
        Node::Ternary(condition, left, right) => PredicateExpression::Ternary(
            Box::new(from_expression(condition)),
            Box::new(from_expression(left)),
            Box::new(from_expression(right)),
        ),
        Node::Concatenation(parts) => PredicateExpression::Concatenation(from_parts(parts)),
        Node::ArrayLiteral(parts) => PredicateExpression::ArrayLiteral(from_parts(parts)),
        Node::Struct(members) => PredicateExpression::StructConstructor(from_members(members)),
        _ => PredicateExpression::Opaque(expression.occurrence),
    }
}

/// The conditions that were seen, of which no two are alike. The place of a condition is its identity.
pub struct PredicateTable {
    pub known: Vec<PredicateExpression>,
}

impl PredicateTable {
    /// No two conditions are alike.
    pub open spec fn wf(self) -> bool {
        forall|i: int, j: int| 0 <= i < j < self.known@.len() ==> shape(#[trigger] self.known@[i]) != shape(#[trigger] self.known@[j])
    }

    /// No condition was seen.
    pub fn new() -> (r: Self)
        ensures
            r.wf(),
            r.known@.len() == 0,
    {
        PredicateTable { known: Vec::new() }
    }

    /// The identity of a condition: that of the condition like it, where there is one, else a new one.
    pub fn identity(&mut self, expression: PredicateExpression) -> (r: usize)
        requires
            old(self).wf(),
        ensures
            final(self).wf(),
            r < final(self).known@.len(),
            shape(final(self).known@[r as int]) == shape(expression),
            old(self).known@.len() <= final(self).known@.len(),
            forall|i: int| 0 <= i < old(self).known@.len() ==> #[trigger] final(self).known@[i] == old(self).known@[i],
            (exists|i: int| 0 <= i < old(self).known@.len() && shape(#[trigger] old(self).known@[i]) == shape(expression)) ==> *final(self) == *old(self),
            r == old(self).known@.len() ==> final(self).known@.len() == old(self).known@.len() + 1,
    {
        let mut i: usize = 0;
        while i < self.known.len()
            invariant
                *self == *old(self),
                self.wf(),
                i <= self.known@.len(),
                forall|k: int| 0 <= k < i ==> shape(#[trigger] self.known@[k]) != shape(expression),
            decreases self.known@.len() - i,
        {
            if same_expression(&self.known[i], &expression) {
                return i;
            }
            i = i + 1;
        }
        self.known.push(expression);
        i
    }
}

/// The conditions that were seen are still known.
pub open spec fn table_grows(a: PredicateTable, b: PredicateTable) -> bool {
    a.known@.len() <= b.known@.len() && forall|i: int| 0 <= i < a.known@.len() ==> #[trigger] b.known@[i] == a.known@[i]
}

/// Two conditions of a table have the same identity only where they are alike, and then they do.
pub proof fn identities_tell_conditions_apart(table: PredicateTable, a: PredicateExpression, b: PredicateExpression, i: int, j: int)
    requires
        table.wf(),
        0 <= i < table.known@.len(),
        0 <= j < table.known@.len(),
        shape(table.known@[i]) == shape(a),
        shape(table.known@[j]) == shape(b),
    ensures
        i == j <==> shape(a) == shape(b),
{
    if i < j {
        assert(shape(table.known@[i]) != shape(table.known@[j]));
    } else if j < i {
        assert(shape(table.known@[j]) != shape(table.known@[i]));
    }
}

} // verus!
