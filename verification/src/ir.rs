//! The statements of a module with what is known about them before it runs: widths, constant values,
//! and the regions that each access may touch.
use vstd::prelude::*;
use crate::affine::AffineIndex;
use crate::bounds::ForRange;
use crate::projection::Coordinate;
use crate::selection::{CasePattern, SelectorType};
use crate::span::{ArraySpan, PackedSpan};

verus! {

/// What is known about the value of an expression.
#[derive(Clone, Copy, Debug, PartialEq, Eq)]
pub struct Facts {
    /// The number of packed bits.
    pub width: Option<usize>,
    /// The number of array elements.
    pub array: Option<usize>,
    pub signed: bool,
    /// The value, where it is constant and fits.
    pub value: Option<usize>,
}

/// Packed bits of array elements.
#[derive(Clone, Copy, Debug, PartialEq, Eq, Structural)]
pub struct Region {
    pub array: ArraySpan,
    pub packed: PackedSpan,
}

/// An access to a variable, read or written.
pub struct Access {
    pub id: u64,
    /// Whether the variable is declared; one that is not is accessed as a whole.
    pub declared: bool,
    pub index: Vec<Expression>,
    /// The select expressions, and the end of the range where there is one.
    pub select: Vec<Expression>,
    /// The number of the operator of the range, where the last select expression is the end of one.
    pub range: Option<u8>,
    /// The regions that may be touched; none where they are not known.
    pub regions: Vec<Region>,
    /// The lowest and the highest bit selected, where they are constant.
    pub selected: Option<Selected>,
    /// The dimensions of the array, where the variable is known.
    pub shape: Option<Vec<Option<usize>>>,
    /// What is known about each index.
    pub coordinates: Vec<Coordinate>,
    /// The position in the flattened array, where it is a sum of multiples of variables.
    pub flattened: Option<AffineIndex>,
}

/// A range of packed bits, given by its ends.
#[derive(Clone, Copy, Debug, PartialEq, Eq, Structural)]
pub struct Selected {
    pub low: usize,
    pub high: usize,
}

/// What is passed for an argument.
pub struct Argument {
    pub formal: Option<u64>,
    pub actual: Expression,
}

/// Where an output argument is copied to.
pub struct OutputArgument {
    pub formal: Option<u64>,
    pub destinations: Vec<Access>,
}

/// A call of a function of the module.
pub struct Call {
    /// The number of the function, of which there is one for each receiver.
    pub callee: u64,
    pub receiver: Vec<Expression>,
    pub inputs: Vec<Argument>,
    pub outputs: Vec<OutputArgument>,
}

/// What a system function does, as far as dependencies see it.
#[derive(Clone, Copy, Debug, PartialEq, Eq, Structural)]
pub enum SystemKind {
    /// The result depends on the type of the input only.
    Query,
    Onehot,
    /// The input with another signedness.
    Cast,
    /// Fills its outputs from a file named by the input.
    Load,
    /// The inputs are evaluated for their effects.
    Effect,
}

/// A call of a system function.
pub struct SystemCall {
    pub kind: SystemKind,
    pub inputs: Vec<Expression>,
    pub outputs: Vec<Access>,
}

/// A part of a concatenation, an item of an array literal or a member of a struct constructor.
pub struct Operand {
    pub value: Expression,
    /// How often a part or an item is repeated.
    pub repeat: Option<Expression>,
    /// The number of the name of a member.
    pub name: u64,
    /// The width of a member.
    pub width: Option<usize>,
    /// An item that fills up the rest of an array.
    pub rest: bool,
}

/// How the bits of a result depend on those of the operand.
#[derive(Clone, Copy, Debug, PartialEq, Eq, Structural)]
pub enum UnaryOp {
    /// Each bit of the result depends on the bit at the same place.
    Bitwise,
    /// Each bit of the result depends on every bit.
    Other,
}

/// How the bits of a result depend on those of the operands.
#[derive(Clone, Copy, Debug, PartialEq, Eq, Structural)]
pub enum BinaryOp {
    /// The right operand is a type.
    As,
    ShiftLeft,
    LogicShiftRight,
    ArithShiftRight,
    Bitwise,
    LogicAnd,
    LogicOr,
    Other,
}

/// The kinds of expressions.
pub enum Node {
    Variable(Access),
    /// A variable of another module: only its coordinates are read here.
    Hierarchical(Vec<Expression>),
    Constant,
    Unknown,
    Call(Call),
    System(SystemCall),
    Unary(UnaryOp, Box<Expression>),
    Binary(Box<Expression>, BinaryOp, Box<Expression>),
    Ternary(Box<Expression>, Box<Expression>, Box<Expression>),
    Concatenation(Vec<Operand>),
    ArrayLiteral(Vec<Operand>),
    Struct(Vec<Operand>),
}

/// An expression.
pub struct Expression {
    /// The number of the occurrence, which no other expression of the procedure has.
    pub occurrence: usize,
    /// The number of the operator, or of the value, as it is written; equal ones have equal numbers.
    pub sign: u64,
    pub facts: Facts,
    pub node: Node,
}

/// A pattern of an arm.
pub enum Pattern {
    Equal(Expression),
    Range { low: Expression, high: Expression, inclusive: bool },
}

/// An arm of a case.
pub struct CaseArm {
    pub patterns: Vec<Pattern>,
    pub body: Vec<Statement>,
}

/// What is known of the arms of a case.
pub struct CaseFacts {
    pub selector: SelectorType,
    /// The constants of the patterns, by arms.
    pub patterns: Vec<Vec<CasePattern>>,
    /// Where the target is constant, whether it has each pattern, as far as that is known.
    pub answers: Option<Vec<Vec<Option<bool>>>>,
}

/// What is known of the iterations of a loop.
pub enum Iterations {
    /// The body of each iteration, with what is known there.
    Known(Vec<Vec<Statement>>),
    /// There are too many to evaluate each.
    TooMany,
    /// Their number is not known; the number of the loop, which no expression of the procedure has.
    Runtime(usize),
}

/// A statement.
pub enum Statement {
    Assign { destinations: Vec<Access>, value: Expression },
    If { condition: Expression, yes: Vec<Statement>, no: Vec<Statement> },
    IfReset { yes: Vec<Statement>, no: Vec<Statement> },
    Case { target: Expression, arms: Vec<CaseArm>, otherwise: Vec<Statement>, facts: CaseFacts },
    For { bounds: Vec<Expression>, body: Vec<Statement>, range: ForRange, iterations: Iterations },
    Call(Call),
    System(SystemCall),
    Break,
    /// A statement of which nothing is known.
    Unsupported,
    Other,
}

} // verus!
