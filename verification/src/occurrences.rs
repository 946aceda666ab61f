//! The decisions and calls inside an expression.
use vstd::prelude::*;
use crate::ir::{Access, Argument, BinaryOp, Call, Expression, Node, Operand, OutputArgument};

verus! {

/// The conditional expressions and the calls of an expression, by their occurrences, each before what
/// lies inside it.
pub struct Layout {
    pub conditionals: Seq<usize>,
    pub calls: Seq<usize>,
}

pub open spec fn empty() -> Layout {
    Layout { conditionals: Seq::empty(), calls: Seq::empty() }
}

pub open spec fn followed(a: Layout, b: Layout) -> Layout {
    Layout { conditionals: a.conditionals + b.conditionals, calls: a.calls + b.calls }
}

/// The expression decides which of its operands counts.
pub open spec fn is_conditional(expression: Expression) -> bool {
    match expression.node {
        Node::Ternary(..) => true,
        Node::Binary(_, op, _) => op == BinaryOp::LogicAnd || op == BinaryOp::LogicOr,
        _ => false,
    }
}

/// What the expression itself adds.
pub open spec fn own(expression: Expression) -> Layout {
    Layout {
        conditionals: if is_conditional(expression) {
            seq![expression.occurrence]
        } else {
            Seq::empty()
        },
        calls: if expression.node is Call {
            seq![expression.occurrence]
        } else {
            Seq::empty()
        },
    }
}

pub open spec fn layout_of(expression: Expression) -> Layout
    decreases expression,
{
    followed(
        own(expression),
        match expression.node {
            Node::Variable(access) => access_layout(access),
            Node::Hierarchical(coordinates) => expressions_layout(coordinates@),
            Node::Constant => empty(),
            Node::Unknown => empty(),
            Node::Call(call) => followed(followed(expressions_layout(call.receiver@), arguments_layout(call.inputs@)), outputs_layout(call.outputs@)),
            Node::System(call) => followed(expressions_layout(call.inputs@), accesses_layout(call.outputs@)),
            Node::Unary(_, operand) => layout_of(*operand),
            Node::Binary(left, _, right) => followed(layout_of(*left), layout_of(*right)),
            Node::Ternary(condition, yes, no) => followed(followed(layout_of(*condition), layout_of(*yes)), layout_of(*no)),
            Node::Concatenation(operands) => operands_layout(operands@),
            Node::ArrayLiteral(operands) => operands_layout(operands@),
            Node::Struct(operands) => operands_layout(operands@),
        },
    )
}

pub open spec fn expressions_layout(list: Seq<Expression>) -> Layout
    decreases list,
{
    if list.len() == 0 {
        empty()
    } else {
        followed(expressions_layout(list.drop_last()), layout_of(list.last()))
    }
}

pub open spec fn access_layout(access: Access) -> Layout
    decreases access,
{
    followed(expressions_layout(access.index@), expressions_layout(access.select@))
}

pub open spec fn accesses_layout(list: Seq<Access>) -> Layout
    decreases list,
{
    if list.len() == 0 {
        empty()
    } else {
        followed(accesses_layout(list.drop_last()), access_layout(list.last()))
    }
}

pub open spec fn operand_layout(operand: Operand) -> Layout
    decreases operand,
{
    match operand.repeat {
        Some(repeat) => followed(layout_of(operand.value), layout_of(repeat)),
        None => layout_of(operand.value),
    }
}

pub open spec fn operands_layout(list: Seq<Operand>) -> Layout
    decreases list,
{
    if list.len() == 0 {
        empty()
    } else {
        followed(operands_layout(list.drop_last()), operand_layout(list.last()))
    }
}

pub open spec fn arguments_layout(list: Seq<Argument>) -> Layout
    decreases list,
{
    if list.len() == 0 {
        empty()
    } else {
        followed(arguments_layout(list.drop_last()), layout_of(list.last().actual))
    }
}

pub open spec fn outputs_layout(list: Seq<OutputArgument>) -> Layout
    decreases list,
{
    if list.len() == 0 {
        empty()
    } else {
        followed(outputs_layout(list.drop_last()), accesses_layout(list.last().destinations@))
    }
}

/// The conditional expressions and the calls found so far.
pub struct ExpressionBranchLayout {
    pub conditionals: Vec<usize>,
    pub calls: Vec<usize>,
}

impl View for ExpressionBranchLayout {
    type V = Layout;

    open spec fn view(&self) -> Layout {
        Layout { conditionals: self.conditionals@, calls: self.calls@ }
    }
}

impl ExpressionBranchLayout {
    /// Nothing found yet.
    pub fn new() -> (r: Self)
        ensures
            r@ == empty(),
    {
        ExpressionBranchLayout { conditionals: Vec::new(), calls: Vec::new() }
    }
}

proof fn lemma_followed(a: Layout, b: Layout, c: Layout)
    ensures
        followed(followed(a, b), c) == followed(a, followed(b, c)),
        followed(a, empty()) == a,
        followed(empty(), a) == a,
{
    assert((a.conditionals + b.conditionals) + c.conditionals =~= a.conditionals + (b.conditionals + c.conditionals));
    assert((a.calls + b.calls) + c.calls =~= a.calls + (b.calls + c.calls));
    assert(a.conditionals + Seq::<usize>::empty() =~= a.conditionals);
    assert(a.calls + Seq::<usize>::empty() =~= a.calls);
    assert(Seq::<usize>::empty() + a.conditionals =~= a.conditionals);
    assert(Seq::<usize>::empty() + a.calls =~= a.calls);
}

/// Adds the conditional expressions and the calls of an expression.
pub fn collect_expression_branch_layout(expression: &Expression, layout: &mut ExpressionBranchLayout)
    ensures
        final(layout)@ == followed(old(layout)@, layout_of(*expression)),
    decreases expression,
{
    let ghost start = layout@;
    match &expression.node {
        Node::Ternary(..) => {
            layout.conditionals.push(expression.occurrence);
        },
        Node::Binary(_, op, _) => {
            if *op == BinaryOp::LogicAnd || *op == BinaryOp::LogicOr {
                layout.conditionals.push(expression.occurrence);
            }
        },
        Node::Call(_) => {
            layout.calls.push(expression.occurrence);
        },
        _ => {},
    }
    proof {
        assert(layout@.conditionals =~= followed(start, own(*expression)).conditionals);
        assert(layout@.calls =~= followed(start, own(*expression)).calls);
    }
    let ghost entered = layout@;
    proof {
        lemma_followed(entered, empty(), empty());
    }
    match &expression.node {
        Node::Variable(access) => {
            collect_access(access, layout);
            proof {
                lemma_followed(start, own(*expression), access_layout(*access));
            }
        },
        Node::Hierarchical(coordinates) => {
            collect_expressions(coordinates, layout);
            proof {
                lemma_followed(start, own(*expression), expressions_layout(coordinates@));
            }
        },
        Node::Constant => {
            proof {
                lemma_followed(start, own(*expression), empty());
            }
        },
        Node::Unknown => {
            proof {
                lemma_followed(start, own(*expression), empty());
            }
        },
        Node::Call(call) => {
            collect_expressions(&call.receiver, layout);
            collect_arguments(&call.inputs, layout);
            collect_outputs(&call.outputs, layout);
            proof {
                let a = expressions_layout(call.receiver@);
                let b = arguments_layout(call.inputs@);
                let c = outputs_layout(call.outputs@);
                lemma_followed(entered, a, b);
                lemma_followed(entered, followed(a, b), c);
                lemma_followed(start, own(*expression), followed(followed(a, b), c));
            }
        },
        Node::System(call) => {
            collect_expressions(&call.inputs, layout);
            collect_accesses(&call.outputs, layout);
            proof {
                let a = expressions_layout(call.inputs@);
                let b = accesses_layout(call.outputs@);
                lemma_followed(entered, a, b);
                lemma_followed(start, own(*expression), followed(a, b));
            }
        },
        Node::Unary(_, operand) => {
            collect_expression_branch_layout(operand, layout);
            proof {
                lemma_followed(start, own(*expression), layout_of(**operand));
            }
        },
        Node::Binary(left, _, right) => {
            collect_expression_branch_layout(left, layout);
            collect_expression_branch_layout(right, layout);
            proof {
                lemma_followed(entered, layout_of(**left), layout_of(**right));
                lemma_followed(start, own(*expression), followed(layout_of(**left), layout_of(**right)));
            }
        },
        Node::Ternary(condition, yes, no) => {
            collect_expression_branch_layout(condition, layout);
            collect_expression_branch_layout(yes, layout);
            collect_expression_branch_layout(no, layout);
            proof {
                let a = layout_of(**condition);
                let b = layout_of(**yes);
                let c = layout_of(**no);
                lemma_followed(entered, a, b);
                lemma_followed(entered, followed(a, b), c);
                lemma_followed(start, own(*expression), followed(followed(a, b), c));
            }
        },
        Node::Concatenation(operands) => {
            collect_operands(operands, layout);
            proof {
                lemma_followed(start, own(*expression), operands_layout(operands@));
            }
        },
        Node::ArrayLiteral(operands) => {
            collect_operands(operands, layout);
            proof {
                lemma_followed(start, own(*expression), operands_layout(operands@));
            }
        },
        Node::Struct(operands) => {
            collect_operands(operands, layout);
            proof {
                lemma_followed(start, own(*expression), operands_layout(operands@));
            }
        },
    }
}

fn collect_expressions(list: &Vec<Expression>, layout: &mut ExpressionBranchLayout)
    ensures
        final(layout)@ == followed(old(layout)@, expressions_layout(list@)),
    decreases list,
{
    let ghost start = layout@;
    proof {
        lemma_followed(start, empty(), empty());
    }
    let mut i: usize = 0;
    while i < list.len()
        invariant
            i <= list@.len(),
            layout@ == followed(start, expressions_layout(list@.take(i as int))),
        decreases list.len() - i,
    {
        collect_expression_branch_layout(&list[i], layout);
        proof {
            assert(list@.take(i + 1).drop_last() =~= list@.take(i as int));
            lemma_followed(start, expressions_layout(list@.take(i as int)), layout_of(list@[i as int]));
        }
        i = i + 1;
    }
    assert(list@.take(i as int) =~= list@);
}

fn collect_access(access: &Access, layout: &mut ExpressionBranchLayout)
    ensures
        final(layout)@ == followed(old(layout)@, access_layout(*access)),
    decreases access,
{
    let ghost start = layout@;
    collect_expressions(&access.index, layout);
    collect_expressions(&access.select, layout);
    proof {
        lemma_followed(start, expressions_layout(access.index@), expressions_layout(access.select@));
    }
}

fn collect_accesses(list: &Vec<Access>, layout: &mut ExpressionBranchLayout)
    ensures
        final(layout)@ == followed(old(layout)@, accesses_layout(list@)),
    decreases list,
{
    let ghost start = layout@;
    proof {
        lemma_followed(start, empty(), empty());
    }
    let mut i: usize = 0;
    while i < list.len()
        invariant
            i <= list@.len(),
            layout@ == followed(start, accesses_layout(list@.take(i as int))),
        decreases list.len() - i,
    {
        collect_access(&list[i], layout);
        proof {
            assert(list@.take(i + 1).drop_last() =~= list@.take(i as int));
            lemma_followed(start, accesses_layout(list@.take(i as int)), access_layout(list@[i as int]));
        }
        i = i + 1;
    }
    assert(list@.take(i as int) =~= list@);
}

fn collect_operand(operand: &Operand, layout: &mut ExpressionBranchLayout)
    ensures
        final(layout)@ == followed(old(layout)@, operand_layout(*operand)),
    decreases operand,
{
    let ghost start = layout@;
    collect_expression_branch_layout(&operand.value, layout);
    if let Some(repeat) = &operand.repeat {
        collect_expression_branch_layout(repeat, layout);
        proof {
            lemma_followed(start, layout_of(operand.value), layout_of(*repeat));
        }
    }
}

fn collect_operands(list: &Vec<Operand>, layout: &mut ExpressionBranchLayout)
    ensures
        final(layout)@ == followed(old(layout)@, operands_layout(list@)),
    decreases list,
{
    let ghost start = layout@;
    proof {
        lemma_followed(start, empty(), empty());
    }
    let mut i: usize = 0;
    while i < list.len()
        invariant
            i <= list@.len(),
            layout@ == followed(start, operands_layout(list@.take(i as int))),
        decreases list.len() - i,
    {
        collect_operand(&list[i], layout);
        proof {
            assert(list@.take(i + 1).drop_last() =~= list@.take(i as int));
            lemma_followed(start, operands_layout(list@.take(i as int)), operand_layout(list@[i as int]));
        }
        i = i + 1;
    }
    assert(list@.take(i as int) =~= list@);
}

fn collect_arguments(list: &Vec<Argument>, layout: &mut ExpressionBranchLayout)
    ensures
        final(layout)@ == followed(old(layout)@, arguments_layout(list@)),
    decreases list,
{
    let ghost start = layout@;
    proof {
        lemma_followed(start, empty(), empty());
    }
    let mut i: usize = 0;
    while i < list.len()
        invariant
            i <= list@.len(),
            layout@ == followed(start, arguments_layout(list@.take(i as int))),
        decreases list.len() - i,
    {
        collect_expression_branch_layout(&list[i].actual, layout);
        proof {
            assert(list@.take(i + 1).drop_last() =~= list@.take(i as int));
            lemma_followed(start, arguments_layout(list@.take(i as int)), layout_of(list@[i as int].actual));
        }
        i = i + 1;
    }
    assert(list@.take(i as int) =~= list@);
}

fn collect_outputs(list: &Vec<OutputArgument>, layout: &mut ExpressionBranchLayout)
    ensures
        final(layout)@ == followed(old(layout)@, outputs_layout(list@)),
    decreases list,
{
    let ghost start = layout@;
    proof {
        lemma_followed(start, empty(), empty());
    }
    let mut i: usize = 0;
    while i < list.len()
        invariant
            i <= list@.len(),
            layout@ == followed(start, outputs_layout(list@.take(i as int))),
        decreases list.len() - i,
    {
        collect_accesses(&list[i].destinations, layout);
        proof {
            assert(list@.take(i + 1).drop_last() =~= list@.take(i as int));
            lemma_followed(start, outputs_layout(list@.take(i as int)), accesses_layout(list@[i as int].destinations@));
        }
        i = i + 1;
    }
    assert(list@.take(i as int) =~= list@);
}

/// What an expression gives depends on a decision or on a call: it is not the same on every path.
pub open spec fn is_guarded(expression: Expression) -> bool
    decreases expression,
{
    match expression.node {
        Node::Variable(access) => access_guarded(access),
        Node::Call(_) => true,
        Node::System(call) => any_guarded(call.inputs@) || any_access_guarded(call.outputs@),
        Node::Unary(_, operand) => is_guarded(*operand),
        Node::Binary(left, op, right) => op == BinaryOp::LogicAnd || op == BinaryOp::LogicOr || is_guarded(*left) || is_guarded(*right),
        Node::Ternary(..) => true,
        Node::Concatenation(operands) => any_operand_guarded(operands@),
        Node::ArrayLiteral(operands) => any_operand_guarded(operands@),
        Node::Struct(operands) => any_operand_guarded(operands@),
        _ => false,
    }
}

pub open spec fn any_guarded(list: Seq<Expression>) -> bool
    decreases list,
{
    list.len() > 0 && (any_guarded(list.drop_last()) || is_guarded(list.last()))
}

pub open spec fn access_guarded(access: Access) -> bool
    decreases access,
{
    any_guarded(access.index@) || any_guarded(access.select@)
}

pub open spec fn any_access_guarded(list: Seq<Access>) -> bool
    decreases list,
{
    list.len() > 0 && (any_access_guarded(list.drop_last()) || access_guarded(list.last()))
}

pub open spec fn operand_guarded(operand: Operand) -> bool
    decreases operand,
{
    is_guarded(operand.value) || (operand.repeat matches Some(repeat) && is_guarded(repeat))
}

pub open spec fn any_operand_guarded(list: Seq<Operand>) -> bool
    decreases list,
{
    list.len() > 0 && (any_operand_guarded(list.drop_last()) || operand_guarded(list.last()))
}

/// Whether an expression has to be analysed path by path.
pub fn requires_guarded_expression_analysis(expression: &Expression) -> (r: bool)
    ensures
        r == is_guarded(*expression),
    decreases expression,
{
    match &expression.node {
        Node::Variable(access) => var_access_requires_guarded_analysis(access),
        Node::Call(_) => true,
        Node::System(call) => find_guarded(&call.inputs) || find_access_guarded(&call.outputs),
        Node::Unary(_, operand) => requires_guarded_expression_analysis(operand),
        Node::Binary(left, op, right) => {
            *op == BinaryOp::LogicAnd || *op == BinaryOp::LogicOr || requires_guarded_expression_analysis(left) || requires_guarded_expression_analysis(right)
        },
        Node::Ternary(..) => true,
        Node::Concatenation(operands) => find_operand_guarded(operands),
        Node::ArrayLiteral(operands) => find_operand_guarded(operands),
        Node::Struct(operands) => find_operand_guarded(operands),
        _ => false,
    }
}

/// Whether the coordinates of an access have to be analysed path by path.
pub fn var_access_requires_guarded_analysis(access: &Access) -> (r: bool)
    ensures
        r == access_guarded(*access),
    decreases access,
{
    find_guarded(&access.index) || find_guarded(&access.select)
}

fn find_guarded(list: &Vec<Expression>) -> (r: bool)
    ensures
        r == any_guarded(list@),
    decreases list,
{
    let mut found = false;
    let mut i: usize = 0;
    while i < list.len()
        invariant
            i <= list@.len(),
            found == any_guarded(list@.take(i as int)),
        decreases list.len() - i,
    {
        assert(list@.take(i + 1).drop_last() =~= list@.take(i as int));
        if requires_guarded_expression_analysis(&list[i]) {
            found = true;
        }
        i = i + 1;
    }
    assert(list@.take(i as int) =~= list@);
    found
}

fn find_access_guarded(list: &Vec<Access>) -> (r: bool)
    ensures
        r == any_access_guarded(list@),
    decreases list,
{
    let mut found = false;
    let mut i: usize = 0;
    while i < list.len()
        invariant
            i <= list@.len(),
            found == any_access_guarded(list@.take(i as int)),
        decreases list.len() - i,
    {
        assert(list@.take(i + 1).drop_last() =~= list@.take(i as int));
        if var_access_requires_guarded_analysis(&list[i]) {
            found = true;
        }
        i = i + 1;
    }
    assert(list@.take(i as int) =~= list@);
    found
}

fn find_one_operand(operand: &Operand) -> (r: bool)
    ensures
        r == operand_guarded(*operand),
    decreases operand,
{
    if requires_guarded_expression_analysis(&operand.value) {
        return true;
    }
    match &operand.repeat {
        Some(repeat) => requires_guarded_expression_analysis(repeat),
        None => false,
    }
}

fn find_operand_guarded(list: &Vec<Operand>) -> (r: bool)
    ensures
        r == any_operand_guarded(list@),
    decreases list,
{
    let mut found = false;
    let mut i: usize = 0;
    while i < list.len()
        invariant
            i <= list@.len(),
            found == any_operand_guarded(list@.take(i as int)),
        decreases list.len() - i,
    {
        assert(list@.take(i + 1).drop_last() =~= list@.take(i as int));
        if find_one_operand(&list[i]) {
            found = true;
        }
        i = i + 1;
    }
    assert(list@.take(i as int) =~= list@);
    found
}


pub open spec fn has_any(layout: Layout) -> bool {
    layout.conditionals.len() > 0 || layout.calls.len() > 0
}

/// An expression that has to be analysed path by path holds a decision or a call.
pub proof fn guarded_expressions_hold_decisions(expression: Expression)
    requires
        is_guarded(expression),
    ensures
        has_any(layout_of(expression)),
    decreases expression,
{
    match expression.node {
        Node::Variable(access) => {
            lemma_access(access);
        },
        Node::System(call) => {
            if any_guarded(call.inputs@) {
                lemma_list(call.inputs@);
            } else {
                lemma_accesses(call.outputs@);
            }
        },
        Node::Unary(_, operand) => {
            guarded_expressions_hold_decisions(*operand);
        },
        Node::Binary(left, op, right) => {
            if op == BinaryOp::LogicAnd || op == BinaryOp::LogicOr {
                assert(own(expression).conditionals.len() > 0);
            } else if is_guarded(*left) {
                guarded_expressions_hold_decisions(*left);
            } else {
                guarded_expressions_hold_decisions(*right);
            }
        },
        Node::Concatenation(operands) => {
            lemma_operands(operands@);
        },
        Node::ArrayLiteral(operands) => {
            lemma_operands(operands@);
        },
        Node::Struct(operands) => {
            lemma_operands(operands@);
        },
        _ => {},
    }
}

proof fn lemma_list(list: Seq<Expression>)
    requires
        any_guarded(list),
    ensures
        has_any(expressions_layout(list)),
    decreases list,
{
    if any_guarded(list.drop_last()) {
        lemma_list(list.drop_last());
    } else {
        guarded_expressions_hold_decisions(list.last());
    }
}

proof fn lemma_access(access: Access)
    requires
        access_guarded(access),
    ensures
        has_any(access_layout(access)),
    decreases access,
{
    if any_guarded(access.index@) {
        lemma_list(access.index@);
    } else {
        lemma_list(access.select@);
    }
}

proof fn lemma_accesses(list: Seq<Access>)
    requires
        any_access_guarded(list),
    ensures
        has_any(accesses_layout(list)),
    decreases list,
{
    if any_access_guarded(list.drop_last()) {
        lemma_accesses(list.drop_last());
    } else {
        lemma_access(list.last());
    }
}

proof fn lemma_operand(operand: Operand)
    requires
        operand_guarded(operand),
    ensures
        has_any(operand_layout(operand)),
    decreases operand,
{
    if is_guarded(operand.value) {
        guarded_expressions_hold_decisions(operand.value);
    } else {
        guarded_expressions_hold_decisions(operand.repeat->0);
    }
}

proof fn lemma_operands(list: Seq<Operand>)
    requires
        any_operand_guarded(list),
    ensures
        has_any(operands_layout(list)),
    decreases list,
{
    if any_operand_guarded(list.drop_last()) {
        lemma_operands(list.drop_last());
    } else {
        lemma_operand(list.last());
    }
}

} // verus!
