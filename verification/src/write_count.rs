//! Self-references that an always_ff element cannot make without a register.
//!
//! Dropping the register is sound only while a self-reference still sees the value that the
//! block started with. Statements write in place, so a write that has already run is what a
//! later read gets. Branch arms are alternatives: what leaves a branch is the union of what its
//! arms may have written. Loops with constant bounds are walked iteration by iteration; without
//! them, every write of the body counts as already done, since the body runs again.
use vstd::prelude::*;
use crate::bits::PackedMask;
use crate::written;
use crate::written::{Element, Mark};

verus! {

/// How a variable is stored.
#[derive(Clone, Copy, Debug, PartialEq, Eq, Hash, Structural)]
pub enum StorageKind {
    /// It outlives the block.
    Shared,
    /// A `let` binding.
    Let,
    /// It belongs to the block itself.
    Block,
}

/// What an access touches, as far as it is known.
pub struct Location {
    pub id: u64,
    pub kind: StorageKind,
    /// The array elements that the indices may select, if they can be listed.
    pub candidates: Option<Vec<usize>>,
    /// The packed bits `(high, low)`, if they are known.
    pub range: Option<(usize, usize)>,
}

/// An access to a variable; the location is missing if the variable is unknown.
pub struct Access {
    /// Index and select expressions, in the order in which they are evaluated.
    pub coordinates: Vec<Expression>,
    pub location: Option<Location>,
}

/// A call whose outputs are copied back after all of its inputs were evaluated.
pub struct Call {
    pub inputs: Vec<Expression>,
    pub outputs: Vec<Access>,
}

/// What the order of evaluation depends on in an expression.
pub enum Expression {
    Value,
    Variable(Access),
    /// Operands that are all evaluated, in order.
    Operands(Vec<Expression>),
    Ternary(Box<Expression>, Box<Expression>, Box<Expression>),
    FunctionCall(Call),
}

/// A statement, as far as writes are counted.
pub enum Statement {
    Assign { expression: Expression, destinations: Vec<Access> },
    If { condition: Expression, yes: Vec<Statement>, no: Vec<Statement> },
    IfReset { yes: Vec<Statement>, no: Vec<Statement> },
    Case { target: Expression, arms: Vec<Vec<Statement>>, default: Vec<Statement> },
    For {
        body: Vec<Statement>,
        /// The body as it is in every iteration, if the iterations are known.
        iterations: Option<Vec<Vec<Statement>>>,
    },
    FunctionCall(Call),
    Other,
}

/// A declaration of a module.
pub enum Declaration {
    Ff(Vec<Statement>),
    Other,
}

/// The bits that an access reads.
pub open spec fn read_bits(access: Access, coarse: bool) -> Set<(Element, int)> {
    match access.location {
        Some(location) => location_bits(location, coarse),
        None => Set::empty(),
    }
}

/// The bits of a location; none if its elements cannot be listed.
pub open spec fn location_bits(location: Location, coarse: bool) -> Set<(Element, int)> {
    Set::new(
        |p: (Element, int)|
            p.0.id == location.id && location.candidates is Some
                && location.candidates->0@.contains(p.0.index) && 0 <= p.1 <= usize::MAX && (coarse
                || range_mask(location.range).covers(p.1)),
    )
}

pub open spec fn range_mask(range: Option<(usize, usize)>) -> PackedMask {
    match range {
        Some((high, low)) => PackedMask::Range { high, low },
        None => PackedMask::Unknown,
    }
}

/// The bits that a write to an access leaves for the rest of the block.
pub open spec fn write_bits(access: Access, coarse: bool) -> Set<(Element, int)> {
    match access.location {
        Some(location) if location.kind == StorageKind::Shared => location_bits(location, coarse),
        _ => Set::empty(),
    }
}

/// What a write to an access writes; nothing if the elements cannot be listed.
pub open spec fn location_mark(location: Location) -> Mark {
    Mark { id: location.id, candidates: location.candidates->0@, mask: range_mask(location.range) }
}

pub open spec fn write_marks(access: Access) -> Seq<Mark> {
    match access.location {
        Some(location) if location.kind == StorageKind::Shared && location.candidates is Some => seq![location_mark(location)],
        _ => Seq::empty(),
    }
}

/// What writes to the accesses write, in order.
pub open spec fn all_write_marks(accesses: Seq<Access>) -> Seq<Mark>
    decreases accesses.len(),
{
    if accesses.len() == 0 {
        Seq::empty()
    } else {
        all_write_marks(accesses.drop_last()) + write_marks(accesses.last())
    }
}

pub open spec fn all_write_bits(accesses: Seq<Access>, coarse: bool) -> Set<(Element, int)> {
    Set::new(
        |p: (Element, int)|
            exists|i: int|
                0 <= i < accesses.len() && write_bits(#[trigger] accesses[i], coarse).contains(p),
    )
}

/// What is known at one point of the walk.
///
/// With `coarse` the walk takes every access as one of whole elements.
pub struct Seen {
    /// The bits written so far.
    pub written: Set<(Element, int)>,
    /// The bits read since the last side effect.
    pub reads: Set<(Element, int)>,
    /// The elements that read what was written before.
    pub found: Set<Element>,
    /// What was written, in order, each group once.
    pub writes: Seq<Mark>,
    /// Somewhere a group of written or read bits went through too many fragments of one element.
    pub crowded: bool,
}

/// A group is written; one that was written before adds nothing.
pub open spec fn wrote_one(seen: Seen, mark: Mark, coarse: bool) -> Seen {
    if seen.writes.contains(mark) {
        seen
    } else {
        Seen {
            written: seen.written.union(mark.bits(coarse)),
            reads: seen.reads,
            found: seen.found,
            writes: seen.writes.push(mark),
            crowded: seen.crowded || written::crowds(seen.written, mark),
        }
    }
}

/// Groups are written, one after the other.
pub open spec fn wrote(seen: Seen, marks: Seq<Mark>, coarse: bool) -> Seen
    decreases marks.len(),
{
    if marks.len() == 0 {
        seen
    } else {
        wrote_one(wrote(seen, marks.drop_last(), coarse), marks.last(), coarse)
    }
}

/// The reads are held against the writes so far: a target that reads written bits is found.
pub open spec fn flushed(seen: Seen, targets: Set<Element>) -> Seen {
    Seen {
        written: seen.written,
        reads: Set::empty(),
        found: seen.found.union(
            Set::new(
                |x: Element|
                    targets.contains(x) && exists|bit: int| #[trigger]
                        seen.reads.contains((x, bit)) && seen.written.contains((x, bit)),
            ),
        ),
        writes: seen.writes,
        crowded: seen.crowded,
    }
}

/// The outputs of a call are copied back: one that covers written bits is found.
pub open spec fn copied_back(outputs: Seq<Access>, coarse: bool, seen: Seen) -> Seen
    decreases outputs.len(),
{
    if outputs.len() == 0 {
        seen
    } else {
        let before = copied_back(outputs.drop_last(), coarse, seen);
        let bits = write_bits(outputs.last(), coarse);
        let after = wrote(before, write_marks(outputs.last()), coarse);
        Seen {
            written: after.written,
            reads: before.reads,
            writes: after.writes,
            crowded: after.crowded,
            found: before.found.union(
                Set::new(
                    |x: Element|
                        exists|bit: int| #[trigger]
                            bits.contains((x, bit)) && before.written.contains((x, bit)),
                ),
            ),
        }
    }
}

/// The walk through an expression.
pub open spec fn expression_seen(
    expression: Expression,
    targets: Set<Element>,
    coarse: bool,
    seen: Seen,
) -> Seen
    decreases expression,
{
    match expression {
        Expression::Value => seen,
        Expression::Variable(access) => {
            let after = expressions_seen(access.coordinates@, targets, coarse, seen);
            Seen {
                written: after.written,
                reads: after.reads.union(read_bits(access, coarse)),
                found: after.found,
                writes: after.writes,
                crowded: after.crowded || (access.location matches Some(location) && location.candidates is Some && written::crowds(
                    after.reads,
                    location_mark(location),
                )),
            }
        },
        Expression::Operands(operands) => expressions_seen(operands@, targets, coarse, seen),
        Expression::Ternary(condition, yes, no) => {
            let decided = flushed(expression_seen(*condition, targets, coarse, seen), targets);
            let first = flushed(expression_seen(*yes, targets, coarse, decided), targets);
            joined(
                decided,
                first,
                flushed(
                    expression_seen(*no, targets, coarse, alternative(decided, first)),
                    targets,
                ),
                coarse,
            )
        },
        Expression::FunctionCall(call) => call_seen(call, targets, coarse, seen),
    }
}

pub open spec fn call_seen(call: Call, targets: Set<Element>, coarse: bool, seen: Seen) -> Seen
    decreases call,
{
    let inputs = expressions_seen(call.inputs@, targets, coarse, seen);
    let ready = flushed(coordinates_seen(call.outputs@, targets, coarse, inputs), targets);
    copied_back(call.outputs@, coarse, ready)
}

pub open spec fn expressions_seen(
    expressions: Seq<Expression>,
    targets: Set<Element>,
    coarse: bool,
    seen: Seen,
) -> Seen
    decreases expressions,
{
    if expressions.len() == 0 {
        seen
    } else {
        expression_seen(
            expressions.last(),
            targets,
            coarse,
            expressions_seen(expressions.drop_last(), targets, coarse, seen),
        )
    }
}

/// The walk through the index and select expressions of accesses.
pub open spec fn coordinates_seen(
    accesses: Seq<Access>,
    targets: Set<Element>,
    coarse: bool,
    seen: Seen,
) -> Seen
    decreases accesses,
{
    if accesses.len() == 0 {
        seen
    } else {
        expressions_seen(
            accesses.last().coordinates@,
            targets,
            coarse,
            coordinates_seen(accesses.drop_last(), targets, coarse, seen),
        )
    }
}

/// The elements that an assignment to the accesses may write.
pub open spec fn target_elements(accesses: Seq<Access>) -> Set<Element> {
    Set::new(|x: Element| all_write_bits(accesses, true).contains((x, 0)))
}

/// The walk through one statement; `preapplied` if an enclosing loop already counts every write
/// of its body as done.
pub open spec fn statement_seen(statement: Statement, preapplied: bool, coarse: bool, seen: Seen) -> Seen
    decreases statement,
{
    match statement {
        Statement::Assign { expression, destinations } => {
            let targets = target_elements(destinations@);
            let read = flushed(expression_seen(expression, targets, coarse, seen), targets);
            let placed = coordinates_seen(destinations@, Set::empty(), coarse, read);
            wrote(flushed(placed, Set::empty()), all_write_marks(destinations@), coarse)
        },
        Statement::If { condition, yes, no } => {
            let decided = flushed(
                expression_seen(condition, Set::empty(), coarse, seen),
                Set::empty(),
            );
            let first = block_seen(yes@, preapplied, coarse, decided);
            joined(decided, first, block_seen(no@, preapplied, coarse, alternative(decided, first)), coarse)
        },
        Statement::IfReset { yes, no } => {
            let first = block_seen(yes@, preapplied, coarse, seen);
            joined(seen, first, block_seen(no@, preapplied, coarse, alternative(seen, first)), coarse)
        },
        Statement::Case { target, arms, default } => {
            let decided = flushed(
                expression_seen(target, Set::empty(), coarse, seen),
                Set::empty(),
            );
            let chosen = arms_seen(arms@, preapplied, coarse, decided);
            joined(
                decided,
                chosen,
                block_seen(default@, preapplied, coarse, alternative(decided, chosen)),
                coarse,
            )
        },
        Statement::For { body, iterations } => match iterations {
            Some(bodies) => iterations_seen(bodies@, preapplied, coarse, seen),
            None => {
                let begun = if preapplied {
                    seen
                } else {
                    wrote(seen, block_marks(body@), coarse)
                };
                block_seen(body@, true, coarse, begun)
            },
        },
        Statement::FunctionCall(call) => flushed(
            call_seen(call, Set::empty(), coarse, seen),
            Set::empty(),
        ),
        Statement::Other => seen,
    }
}

/// The walk through a sequence of statements.
pub open spec fn block_seen(
    statements: Seq<Statement>,
    preapplied: bool,
    coarse: bool,
    seen: Seen,
) -> Seen
    decreases statements,
{
    if statements.len() == 0 {
        seen
    } else {
        statement_seen(
            statements.last(),
            preapplied,
            coarse,
            block_seen(statements.drop_last(), preapplied, coarse, seen),
        )
    }
}

/// The state in which the next alternative starts.
pub open spec fn alternative(entry: Seen, before: Seen) -> Seen {
    Seen {
        written: entry.written,
        reads: Set::empty(),
        found: before.found,
        writes: entry.writes,
        crowded: before.crowded,
    }
}

/// What was written since the entry.
pub open spec fn own_writes(entry: Seen, seen: Seen) -> Seq<Mark> {
    seen.writes.skip(entry.writes.len() as int)
}

/// What two alternatives may have written; `second` was walked after `first`, both from `entry`.
pub open spec fn joined(entry: Seen, first: Seen, second: Seen, coarse: bool) -> Seen {
    let all = wrote(second, own_writes(entry, first), coarse);
    Seen { written: all.written, reads: Set::empty(), found: all.found, writes: all.writes, crowded: all.crowded }
}

/// What the alternatives so far and one more write, in order, without bringing them together.
pub open spec fn gathered(entry: Seen, before: Seen, next: Seen) -> Seen {
    Seen {
        written: before.written.union(next.written),
        reads: Set::empty(),
        found: next.found,
        writes: before.writes + own_writes(entry, next),
        crowded: next.crowded,
    }
}

/// What any of the arms may have written.
pub open spec fn arms_seen(
    arms: Seq<Vec<Statement>>,
    preapplied: bool,
    coarse: bool,
    seen: Seen,
) -> Seen
    decreases arms,
{
    if arms.len() == 0 {
        seen
    } else {
        let before = arms_seen(arms.drop_last(), preapplied, coarse, seen);
        gathered(
            seen,
            before,
            block_seen(arms.last()@, preapplied, coarse, alternative(seen, before)),
        )
    }
}

/// Iterations one after the other.
pub open spec fn iterations_seen(
    bodies: Seq<Vec<Statement>>,
    preapplied: bool,
    coarse: bool,
    seen: Seen,
) -> Seen
    decreases bodies,
{
    if bodies.len() == 0 {
        seen
    } else {
        block_seen(
            bodies.last()@,
            preapplied,
            coarse,
            iterations_seen(bodies.drop_last(), preapplied, coarse, seen),
        )
    }
}

/// Everything that an expression may write, whatever the order.
pub open spec fn expression_marks(expression: Expression) -> Seq<Mark>
    decreases expression,
{
    match expression {
        Expression::Value => Seq::empty(),
        Expression::Variable(_) => Seq::empty(),
        Expression::Operands(operands) => expressions_marks(operands@),
        Expression::Ternary(condition, yes, no) => expression_marks(*condition) + expression_marks(*yes) + expression_marks(*no),
        Expression::FunctionCall(call) => call_marks(call),
    }
}

pub open spec fn expressions_marks(expressions: Seq<Expression>) -> Seq<Mark>
    decreases expressions,
{
    if expressions.len() == 0 {
        Seq::empty()
    } else {
        expressions_marks(expressions.drop_last()) + expression_marks(expressions.last())
    }
}

pub open spec fn call_marks(call: Call) -> Seq<Mark>
    decreases call,
{
    expressions_marks(call.inputs@) + accesses_marks(call.outputs@)
}

/// What writing the accesses writes, with the calls in their coordinates.
pub open spec fn accesses_marks(accesses: Seq<Access>) -> Seq<Mark>
    decreases accesses,
{
    if accesses.len() == 0 {
        Seq::empty()
    } else {
        accesses_marks(accesses.drop_last()) + expressions_marks(accesses.last().coordinates@) + write_marks(accesses.last())
    }
}

/// Everything that a statement may write, whatever the order.
pub open spec fn statement_marks(statement: Statement) -> Seq<Mark>
    decreases statement,
{
    match statement {
        Statement::Assign { expression, destinations } => expression_marks(expression) + accesses_marks(destinations@),
        Statement::If { condition, yes, no } => expression_marks(condition) + block_marks(yes@) + block_marks(no@),
        Statement::IfReset { yes, no } => block_marks(yes@) + block_marks(no@),
        Statement::Case { target, arms, default } => expression_marks(target) + blocks_marks(arms@) + block_marks(default@),
        Statement::For { body, .. } => block_marks(body@),
        Statement::FunctionCall(call) => call_marks(call),
        Statement::Other => Seq::empty(),
    }
}

pub open spec fn block_marks(statements: Seq<Statement>) -> Seq<Mark>
    decreases statements,
{
    if statements.len() == 0 {
        Seq::empty()
    } else {
        block_marks(statements.drop_last()) + statement_marks(statements.last())
    }
}

pub open spec fn blocks_marks(blocks: Seq<Vec<Statement>>) -> Seq<Mark>
    decreases blocks,
{
    if blocks.len() == 0 {
        Seq::empty()
    } else {
        blocks_marks(blocks.drop_last()) + block_marks(blocks.last()@)
    }
}

/// The state before any statement.
pub open spec fn unseen() -> Seen {
    Seen { written: Set::empty(), reads: Set::empty(), found: Set::empty(), writes: Seq::empty(), crowded: false }
}

/// Somewhere on the walk through the block, a group of written or read bits goes through too many
/// fragments of what was written or read before of one element.
pub open spec fn gives_up(statements: Seq<Statement>) -> bool {
    block_seen(statements, false, false, unseen()).crowded
}

/// The elements of a block that read what the block wrote before.
///
/// With `coarse`, accesses to an element count as accesses to all of its bits.
pub open spec fn self_reads(statements: Seq<Statement>, coarse: bool) -> Set<Element> {
    block_seen(statements, false, coarse, unseen()).found
}

} // verus!
