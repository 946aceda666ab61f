//! Which bits of the variables that an expression reads each of its bits draws on, and that these
//! are the sources found for it, at the right distance.
use vstd::prelude::*;
use crate::affine;
use crate::affine::RepeatedProjection;
use crate::flows;
use crate::flows::{Decision, FlowRef, FlowState, FlowView, Found, Origin, Projector};
use crate::ir::{Access, BinaryOp, Expression, Node, Operand, UnaryOp};
use crate::layout::{KeyVersion, PackedProjectionFragment};
use crate::order;
use crate::partition::NodeKey;
use crate::project;
use crate::relation::PositionRelation;
use crate::shapes;
use crate::span::{ArraySpan, PackedSpan};

verus! {

/// Numbers of bits up to which offsets surely fit.
pub open spec fn modest(n: int) -> bool {
    0 <= n && 2 * n <= isize::MAX
}

/// One bit.
pub open spec fn bit(k: int) -> PackedSpan {
    PackedSpan { start: k as usize, length: 1 }
}

/// One element.
pub open spec fn scalar() -> ArraySpan {
    ArraySpan { start: 0, length: 1 }
}

/// The expression has a number of bits that is known, no sign that fills up further bits, and is not
/// an empty array.
pub open spec fn unsigned_scalar(e: Expression) -> bool {
    &&& e.facts.width matches Some(width) && modest(width as int)
    &&& !e.facts.signed
    &&& e.facts.array matches Some(extent) ==> extent > 0
    &&& !(e.node is ArrayLiteral)
}

/// How often a part of a concatenation is repeated.
pub open spec fn copies(part: Operand) -> int {
    match part.repeat {
        None => 1,
        Some(repeat) => match repeat.facts.value {
            Some(count) => count as int,
            None => 0,
        },
    }
}

pub open spec fn width(e: Expression) -> int {
    match e.facts.width {
        Some(width) => width as int,
        None => 0,
    }
}

/// The bits that the parts from number `i` on take: the last part is lowest.
pub open spec fn bits_from(parts: Seq<Operand>, i: int) -> int
    decreases parts.len() - i,
{
    if i < 0 || i >= parts.len() {
        0
    } else {
        bits_from(parts, i + 1) + width(parts[i].value) * copies(parts[i])
    }
}

/// Bit `k` of the concatenation lies in a copy of part `i`.
pub open spec fn lies_in(parts: Seq<Operand>, i: int, k: int) -> bool {
    bits_from(parts, i + 1) <= k < bits_from(parts, i)
}

/// The place of bit `k` within its copy of part `i`.
pub open spec fn place_in(parts: Seq<Operand>, i: int, k: int) -> int {
    (k - bits_from(parts, i + 1)) % width(parts[i].value)
}

/// Bit `k` of the expression draws on bit `j` of the read that is written at occurrence `o`, as the
/// operators are meant: bits of a shift to the left come from lower bits of the operand, those of a
/// shift to the right from higher ones, bitwise operators keep their places, and the parts of a
/// concatenation stand one above the other.
pub open spec fn draws(e: Expression, k: int, o: usize, access: Access, j: int) -> bool
    decreases e,
{
    match e.node {
        Node::Variable(a) => o == e.occurrence && access == a && j == k,
        Node::Unary(op, operand) => draws(*operand, k, o, access, j),
        Node::Binary(left, op, right) => match op {
            BinaryOp::ShiftLeft => k >= right.facts.value->0 && draws(*left, k - right.facts.value->0, o, access, j),
            BinaryOp::LogicShiftRight => k + right.facts.value->0 < width(*left) && draws(
                *left,
                k + right.facts.value->0,
                o,
                access,
                j,
            ),
            BinaryOp::ArithShiftRight => k + right.facts.value->0 < width(*left) && draws(
                *left,
                k + right.facts.value->0,
                o,
                access,
                j,
            ),
            BinaryOp::Bitwise => (k < width(*left) && draws(*left, k, o, access, j)) || (k < width(
                *right,
            ) && draws(*right, k, o, access, j)),
            BinaryOp::As => k < width(*left) && draws(*left, k, o, access, j),
            _ => false,
        },
        Node::Ternary(condition, yes, no) => if condition.facts.value->0 != 0 {
            k < width(*yes) && draws(*yes, k, o, access, j)
        } else {
            k < width(*no) && draws(*no, k, o, access, j)
        },
        Node::Concatenation(parts) => some_part_draws(parts@, k, o, access, j),
        Node::Struct(members) => some_member_draws(members@, k, o, access, j),
        _ => false,
    }
}

/// The width of a member.
pub open spec fn member_width(member: Operand) -> int {
    match member.width {
        Some(width) => width as int,
        None => 0,
    }
}

/// The bits that the members from number `i` on take: the last member is lowest.
pub open spec fn members_from(members: Seq<Operand>, i: int) -> int
    decreases members.len() - i,
{
    if i < 0 || i >= members.len() {
        0
    } else {
        members_from(members, i + 1) + member_width(members[i])
    }
}

/// Bit `k` of the struct lies in member `i`.
pub open spec fn in_member(members: Seq<Operand>, i: int, k: int) -> bool {
    members_from(members, i + 1) <= k < members_from(members, i)
}

/// A member has the bits of its value, as far as those reach.
pub open spec fn some_member_draws(members: Seq<Operand>, k: int, o: usize, access: Access, j: int) -> bool
    decreases members,
{
    exists|i: int|
        #![trigger in_member(members, i, k)]
        0 <= i < members.len() && in_member(members, i, k) && k - members_from(members, i + 1) < width(members[i].value) && draws(
            members[i].value,
            k - members_from(members, i + 1),
            o,
            access,
            j,
        )
}

pub open spec fn some_part_draws(parts: Seq<Operand>, k: int, o: usize, access: Access, j: int) -> bool
    decreases parts,
{
    exists|i: int|
        #![trigger lies_in(parts, i, k)]
        0 <= i < parts.len() && lies_in(parts, i, k) && draws(
            parts[i].value,
            place_in(parts, i, k),
            o,
            access,
            j,
        )
}

/// The expression is built of reads, constants, bitwise operators, shifts by constants, choices
/// that are constant, concatenations and structs.
pub open spec fn positional(e: Expression) -> bool
    decreases e,
{
    match e.node {
        Node::Variable(a) => a.selected matches Some(selected) ==> modest(selected.low as int),
        Node::Constant => true,
        Node::Unary(op, operand) => op == UnaryOp::Bitwise && positional(*operand),
        Node::Binary(left, op, right) => match op {
            BinaryOp::ShiftLeft => positional(*left) && right.node is Constant && right.facts.value is Some,
            BinaryOp::LogicShiftRight => positional(*left) && unsigned_scalar(*left) && right.node is Constant
                && right.facts.value is Some,
            BinaryOp::ArithShiftRight => positional(*left) && unsigned_scalar(*left) && right.node is Constant
                && right.facts.value is Some,
            BinaryOp::Bitwise => positional(*left) && positional(*right) && unsigned_scalar(*left)
                && unsigned_scalar(*right),
            BinaryOp::As => positional(*left) && unsigned_scalar(*left),
            _ => false,
        },
        Node::Ternary(condition, yes, no) => condition.node is Constant && condition.facts.value is Some
            && positional(*yes) && positional(*no) && unsigned_scalar(*yes) && unsigned_scalar(*no),
        Node::Concatenation(parts) => modest(bits_from(parts@, 0)) && parts_positional(parts@),
        Node::Struct(members) => modest(members_from(members@, 0)) && members_positional(members@),
        _ => false,
    }
}

pub open spec fn member_positional(member: Operand) -> bool
    decreases member,
{
    positional(member.value) && unsigned_scalar(member.value) && member.width is Some
}

pub open spec fn members_positional(members: Seq<Operand>) -> bool
    decreases members,
{
    members.len() == 0 || (members_positional(members.drop_last()) && member_positional(members.last()))
}

pub open spec fn part_positional(part: Operand) -> bool
    decreases part,
{
    positional(part.value) && part.value.facts.width is Some && match part.repeat {
        None => true,
        Some(repeat) => repeat.node is Constant && repeat.facts.value is Some,
    }
}

pub open spec fn parts_positional(parts: Seq<Operand>) -> bool
    decreases parts,
{
    parts.len() == 0 || (parts_positional(parts.drop_last()) && part_positional(parts.last()))
}

/// The source with its bits moved up by a distance.
pub open spec fn displaced(source: FlowRef, by: int) -> FlowRef {
    FlowRef {
        origin: source.origin,
        relation: PositionRelation {
            array: source.relation.array,
            packed: match source.relation.packed {
                Some(packed) => Some((packed + by) as isize),
                None => None,
            },
        },
    }
}

impl<'a> Projector<'a> {
    /// What bit `j` of a read depends on.
    pub open spec fn leaf(self, o: usize, access: Access, j: int) -> Seq<FlowRef> {
        self.variable_bits(FlowState { nodes: Seq::empty(), partial: false }, o, access, scalar(), bit(j)).sources
    }

    /// The source is one of a bit of a read that bit `k` of the expression draws on, as far away as
    /// the two bits are.
    pub open spec fn drawn(self, e: Expression, k: int, source: FlowRef) -> bool {
        exists|o: usize, access: Access, j: int, own: FlowRef|
            #![trigger draws(e, k, o, access, j), self.leaf(o, access, j).contains(own)]
            draws(e, k, o, access, j) && self.leaf(o, access, j).contains(own) && source == displaced(own, k - j)
    }
}

impl<'a> Projector<'a> {
    /// As for a bit of the expression itself, seen from a bit of another one that it is moved to.
    spec fn drawn_at(self, e: Expression, k: int, source: FlowRef, to: int) -> bool {
        exists|o: usize, access: Access, j: int, own: FlowRef|
            #![trigger draws(e, k, o, access, j), self.leaf(o, access, j).contains(own)]
            draws(e, k, o, access, j) && self.leaf(o, access, j).contains(own) && source == displaced(own, to - j)
    }

    spec fn exact(self, sources: Seq<FlowRef>, e: Expression, k: int, to: int) -> bool {
        forall|source: FlowRef| #[trigger] sources.contains(source) <==> self.drawn_at(e, k, source, to)
    }

    /// What is read at a bit does not depend on what was looked at before.
    proof fn lemma_leaf(self, state: FlowState, o: usize, access: Access, j: int)
        ensures
            self.variable_bits(state, o, access, scalar(), bit(j)).sources == self.leaf(o, access, j),
    {
    }

    /// The offsets of a read lead down to the lowest bit selected.
    proof fn lemma_leaf_offset(self, o: usize, access: Access, j: int, own: FlowRef)
        requires
            access.selected matches Some(selected) ==> modest(selected.low as int),
            self.leaf(o, access, j).contains(own),
        ensures
            own.relation.packed matches Some(packed) ==> modest(-packed),
    {
        let leaf = self.leaf(o, access, j);
        let i = choose|i: int| 0 <= i < leaf.len() && leaf[i] == own;
        assert(leaf[i] == own);
        if self.cache.variable_reads@.dom().contains(o) {
            let read = *self.cache.variable_reads@[o];
            let selectors = flows::versions_of(read.selectors@);
            match access.selected {
                None => {
                    assert(own.relation == PositionRelation::anything());
                },
                Some(selected) => {
                    let found = self.regions_read(
                        read.versions@,
                        access,
                        scalar(),
                        project::bits_above(bit(j), selected.low),
                        access.regions@.len() as int,
                    );
                    match self.read_offset(access, selected.low) {
                        Some(relation) => {
                            if i < found.len() {
                                assert(own.relation == relation);
                            } else {
                                assert(own.relation == PositionRelation::anything());
                            }
                        },
                        None => {
                            assert(own.relation == PositionRelation::anything());
                        },
                    }
                },
            }
        }
    }

    /// Sources that are moved as far as the bit they are drawn for.
    proof fn lemma_moved(self, inner: Seq<FlowRef>, e: Expression, k: int, to: int)
        requires
            positional(e),
            modest(k),
            modest(to),
            self.exact(inner, e, k, k),
        ensures
            self.exact(flows::all_changed(inner, flows::packed_move(to - k)), e, k, to),
    {
        let change = flows::packed_move(to - k);
        let outer = flows::all_changed(inner, change);
        assert forall|o: usize, access: Access, j: int, own: FlowRef|
            #![trigger draws(e, k, o, access, j), self.leaf(o, access, j).contains(own)]
            draws(e, k, o, access, j) && self.leaf(o, access, j).contains(own) implies flows::changed(
            displaced(own, k - j),
            change,
        ) == displaced(own, to - j) by {
            lemma_draws_modest(e, k, o, access, j);
            self.lemma_leaf_offset(o, access, j, own);
        }
        assert forall|source: FlowRef| #[trigger] outer.contains(source) <==> self.drawn_at(e, k, source, to) by {
            if outer.contains(source) {
                let i = choose|i: int| 0 <= i < outer.len() && outer[i] == source;
                assert(inner.contains(inner[i]));
                assert(self.drawn_at(e, k, inner[i], k));
                let (o, access, j, own) = choose|o: usize, access: Access, j: int, own: FlowRef|
                    #![trigger draws(e, k, o, access, j), self.leaf(o, access, j).contains(own)]
                    draws(e, k, o, access, j) && self.leaf(o, access, j).contains(own) && inner[i] == displaced(own, k - j);
                assert(flows::changed(displaced(own, k - j), change) == displaced(own, to - j));
                assert(source == displaced(own, to - j));
            }
            if self.drawn_at(e, k, source, to) {
                let (o, access, j, own) = choose|o: usize, access: Access, j: int, own: FlowRef|
                    #![trigger draws(e, k, o, access, j), self.leaf(o, access, j).contains(own)]
                    draws(e, k, o, access, j) && self.leaf(o, access, j).contains(own) && source == displaced(own, to - j);
                let there = displaced(own, k - j);
                assert(self.drawn_at(e, k, there, k));
                assert(inner.contains(there));
                let i = choose|i: int| 0 <= i < inner.len() && inner[i] == there;
                assert(outer[i] == flows::changed(there, change));
                assert(flows::changed(displaced(own, k - j), change) == displaced(own, to - j));
                assert(outer[i] == source);
            }
        }
    }
}

/// Bits drawn on have modest places.
proof fn lemma_draws_modest(e: Expression, k: int, o: usize, access: Access, j: int)
    requires
        positional(e),
        modest(k),
        draws(e, k, o, access, j),
    ensures
        modest(j),
        access.selected matches Some(selected) ==> modest(selected.low as int),
    decreases e,
{
    match e.node {
        Node::Unary(op, operand) => {
            lemma_draws_modest(*operand, k, o, access, j);
        },
        Node::Binary(left, op, right) => match op {
            BinaryOp::ShiftLeft => {
                lemma_draws_modest(*left, k - right.facts.value->0, o, access, j);
            },
            BinaryOp::LogicShiftRight => {
                lemma_draws_modest(*left, k + right.facts.value->0, o, access, j);
            },
            BinaryOp::ArithShiftRight => {
                lemma_draws_modest(*left, k + right.facts.value->0, o, access, j);
            },
            BinaryOp::Bitwise => {
                if k < width(*left) && draws(*left, k, o, access, j) {
                    lemma_draws_modest(*left, k, o, access, j);
                } else {
                    lemma_draws_modest(*right, k, o, access, j);
                }
            },
            BinaryOp::As => {
                lemma_draws_modest(*left, k, o, access, j);
            },
            _ => {},
        },
        Node::Ternary(condition, yes, no) => {
            if condition.facts.value->0 != 0 {
                lemma_draws_modest(*yes, k, o, access, j);
            } else {
                lemma_draws_modest(*no, k, o, access, j);
            }
        },
        Node::Concatenation(parts) => {
            assert(some_part_draws(parts@, k, o, access, j));
            let i = choose|i: int|
                #![trigger lies_in(parts@, i, k)]
                0 <= i < parts@.len() && lies_in(parts@, i, k) && draws(
                    parts@[i].value,
                    place_in(parts@, i, k),
                    o,
                    access,
                    j,
                );
            lemma_parts_positional(parts@, i);
            lemma_place(parts@, i, k);
            lemma_draws_modest(parts@[i].value, place_in(parts@, i, k), o, access, j);
        },
        Node::Struct(members) => {
            assert(some_member_draws(members@, k, o, access, j));
            let i = choose|i: int|
                #![trigger in_member(members@, i, k)]
                0 <= i < members@.len() && in_member(members@, i, k) && k - members_from(members@, i + 1) < width(members@[i].value) && draws(
                    members@[i].value,
                    k - members_from(members@, i + 1),
                    o,
                    access,
                    j,
                );
            lemma_members_positional(members@, i);
            lemma_members_from(members@, i + 1, i + 1);
            lemma_draws_modest(members@[i].value, k - members_from(members@, i + 1), o, access, j);
        },
        _ => {},
    }
}

proof fn lemma_members_positional(members: Seq<Operand>, i: int)
    requires
        members_positional(members),
        0 <= i < members.len(),
    ensures
        member_positional(members[i]),
        positional(members[i].value),
    decreases members.len(),
{
    assert(member_positional(members.last()) ==> positional(members.last().value));
    if i < members.len() - 1 {
        assert(members.drop_last()[i] == members[i]);
        lemma_members_positional(members.drop_last(), i);
    }
}

/// The members from one on take no more bits than all.
proof fn lemma_members_from(members: Seq<Operand>, i: int, n: int)
    requires
        0 <= i <= n <= members.len(),
    ensures
        0 <= members_from(members, n) <= members_from(members, i),
    decreases 2 * members.len() - i - n,
{
    if n < members.len() {
        lemma_members_from(members, n + 1, n + 1);
    }
    if i < n {
        lemma_members_from(members, i + 1, n);
    }
}

/// Where the layout of a struct puts its members.
proof fn lemma_members_layout(members: Seq<Operand>, i: int)
    requires
        0 <= i <= members.len(),
        members_positional(members),
        modest(members_from(members, 0)),
        members.len() <= usize::MAX,
    ensures
        shapes::packed_from(members, true, i) matches Some(found) && found.end == members_from(members, i)
            && found.fragments.len() == members.len() - i && forall|m: int|
            0 <= m < found.fragments.len() ==> member_placed(members, #[trigger] found.fragments[m], members.len() - 1 - m),
    decreases members.len() - i,
{
    if i < members.len() {
        lemma_members_layout(members, i + 1);
        lemma_members_positional(members, i);
        lemma_members_from(members, 0, i);
        let lower = shapes::packed_from(members, true, i + 1)->0;
        let found = shapes::packed_from(members, true, i)->0;
        let w = member_width(members[i]);
        assert(member_positional(members[i]));
        assert(shapes::part_width(members[i], true) == Some(w as usize));
        assert(shapes::part_count(members[i], true) == Some(1usize));
        lemma_members_from(members, i + 1, i + 1);
        assert(shapes::behind(lower.end, w as usize, 1) == Some(members_from(members, i) as usize)) by {
            assert(w * 1 == w);
        }
        assert forall|m: int| 0 <= m < found.fragments.len() implies member_placed(members, #[trigger] found.fragments[m], members.len() - 1 - m) by {
            if m < lower.fragments.len() {
                assert(member_placed(members, lower.fragments[m], members.len() - 1 - m));
            }
        }
    }
}

/// The fragment stands for member `i`.
spec fn member_placed(members: Seq<Operand>, fragment: PackedProjectionFragment, i: int) -> bool {
    &&& fragment.part == i
    &&& fragment.output_start == members_from(members, i + 1)
    &&& fragment.item_width == member_width(members[i])
}

proof fn lemma_parts_positional(parts: Seq<Operand>, i: int)
    requires
        parts_positional(parts),
        0 <= i < parts.len(),
    ensures
        part_positional(parts[i]),
        positional(parts[i].value),
    decreases parts.len(),
{
    assert(part_positional(parts.last()) ==> positional(parts.last().value));
    if i < parts.len() - 1 {
        assert(parts.drop_last()[i] == parts[i]);
        lemma_parts_positional(parts.drop_last(), i);
    }
}

/// The parts from one on take no more bits than all.
proof fn lemma_bits_from(parts: Seq<Operand>, i: int, n: int)
    requires
        0 <= i <= n <= parts.len(),
    ensures
        0 <= bits_from(parts, n) <= bits_from(parts, i),
    decreases 2 * parts.len() - i - n,
{
    if n < parts.len() {
        lemma_bits_from(parts, n + 1, n + 1);
        assert(0 <= width(parts[n].value) * copies(parts[n])) by (nonlinear_arith)
            requires
                0 <= width(parts[n].value),
                0 <= copies(parts[n]),
        ;
    }
    if i < n {
        lemma_bits_from(parts, i + 1, n);
        assert(0 <= width(parts[i].value) * copies(parts[i])) by (nonlinear_arith)
            requires
                0 <= width(parts[i].value),
                0 <= copies(parts[i]),
        ;
    }
}

proof fn lemma_place(parts: Seq<Operand>, i: int, k: int)
    requires
        0 <= i < parts.len(),
        lies_in(parts, i, k),
        modest(k),
    ensures
        width(parts[i].value) > 0,
        0 <= place_in(parts, i, k) <= k,
        modest(place_in(parts, i, k)),
{
    lemma_bits_from(parts, i + 1, parts.len() as int);
    let w = width(parts[i].value);
    let n = copies(parts[i]);
    assert(w > 0) by (nonlinear_arith)
        requires
            0 <= w,
            0 < w * n,
    ;
    let d = k - bits_from(parts, i + 1);
    assert(0 <= d % w <= d) by (nonlinear_arith)
        requires
            0 <= d,
            w > 0,
    ;
}

/// Where the layout of a concatenation puts its parts.
proof fn lemma_layout(parts: Seq<Operand>, i: int)
    requires
        0 <= i <= parts.len(),
        parts_positional(parts),
        modest(bits_from(parts, 0)),
        parts.len() <= usize::MAX,
    ensures
        shapes::packed_from(parts, false, i) matches Some(found) && found.end == bits_from(parts, i)
            && found.fragments.len() == parts.len() - i && forall|m: int|
            0 <= m < found.fragments.len() ==> placed(parts, #[trigger] found.fragments[m], parts.len() - 1 - m),
    decreases parts.len() - i,
{
    if i < parts.len() {
        lemma_layout(parts, i + 1);
        lemma_parts_positional(parts, i);
        lemma_bits_from(parts, 0, i);
        let lower = shapes::packed_from(parts, false, i + 1)->0;
        let found = shapes::packed_from(parts, false, i)->0;
        let w = width(parts[i].value);
        let n = copies(parts[i]);
        assert(part_positional(parts[i]));
        assert(shapes::part_width(parts[i], false) == Some(w as usize));
        assert(shapes::part_count(parts[i], false) == Some(n as usize));
        lemma_bits_from(parts, i + 1, i + 1);
        assert(shapes::behind(lower.end, w as usize, n as usize) == Some(bits_from(parts, i) as usize));
        assert forall|m: int| 0 <= m < found.fragments.len() implies placed(parts, #[trigger] found.fragments[m], parts.len() - 1 - m) by {
            if m < lower.fragments.len() {
                assert(placed(parts, lower.fragments[m], parts.len() - 1 - m));
            }
        }
    }
}

/// The fragment stands for part `i`.
spec fn placed(parts: Seq<Operand>, fragment: PackedProjectionFragment, i: int) -> bool {
    &&& fragment.part == i
    &&& fragment.output_start == bits_from(parts, i + 1)
    &&& fragment.item_width == width(parts[i].value)
    &&& fragment.repeat == copies(parts[i])
}

/// One requested bit lies in one copy of an item, or in none.
proof fn lemma_one_bit(k: int, start: int, w: int, n: int)
    requires
        modest(k),
        0 <= start,
        0 <= w,
        0 <= n,
        w <= usize::MAX,
        n <= usize::MAX,
        modest(start + w * n),
        0 <= w * n,
    ensures
        !(start <= k < start + w * n) ==> affine::repeated_span_of(k as usize, 1, start as usize, w as usize, n as usize) is Empty,
        start <= k < start + w * n ==> (affine::repeated_span_of(k as usize, 1, start as usize, w as usize, n as usize) matches RepeatedProjection::Exact { first, second } && second is None
            && first.local_start == (k - start) % w && first.length == 1 && first.output_start + first.local_start == k && modest(first.output_start as int)),
{
    if start <= k < start + w * n {
        assert(w > 0) by (nonlinear_arith)
            requires
                0 <= w,
                0 < w * n,
        ;
        let d = k - start;
        assert(0 <= d / w && 0 <= d % w && d == (d / w) * w + d % w && (d / w) * w <= d && 0 <= (d / w) * w) by (nonlinear_arith)
            requires
                0 <= d,
                w > 0,
        ;
    }
}

impl<'a> Projector<'a> {
    /// The repetitions of the parts are constant, and so depend on nothing.
    proof fn lemma_repeats(self, state: FlowState, decisions: Seq<Decision>, parts: Seq<Operand>)
        requires
            parts_positional(parts),
        ensures
            self.repeats_whole(state, decisions, parts, true).origins.len() == 0,
        decreases parts.len(),
    {
        if parts.len() > 0 {
            self.lemma_repeats(state, decisions, parts.drop_last());
            let before = self.repeats_whole(state, decisions, parts.drop_last(), true);
            assert(part_positional(parts.last()));
            assert(self.repeat_whole(before.state, decisions, parts.last(), true).origins.len() == 0);
        }
    }

    spec fn some_part_drawn(self, parts: Seq<Operand>, from: int, k: int, source: FlowRef) -> bool {
        exists|i: int|
            #![trigger lies_in(parts, i, k)]
            from <= i < parts.len() && lies_in(parts, i, k) && self.drawn_at(
                parts[i].value,
                place_in(parts, i, k),
                source,
                k,
            )
    }

    proof fn lemma_parts(
        self,
        state: FlowState,
        decisions: Seq<Decision>,
        parts: Seq<Operand>,
        fragments: Seq<PackedProjectionFragment>,
        count: int,
        k: int,
    )
        requires
            modest(k),
            parts_positional(parts),
            modest(bits_from(parts, 0)),
            parts.len() <= usize::MAX,
            shapes::packed_layout_of(parts, false) == Some(fragments),
            0 <= count <= fragments.len(),
        ensures
            forall|source: FlowRef| #[trigger]
                self.parts_bits(state, decisions, parts, fragments, count, scalar(), bit(k)).sources.contains(source)
                    <==> self.some_part_drawn(parts, parts.len() - count, k, source),
        decreases parts, 1nat, count,
    {
        lemma_layout(parts, 0);
        let all = self.parts_bits(state, decisions, parts, fragments, count, scalar(), bit(k)).sources;
        if count > 0 {
            self.lemma_parts(state, decisions, parts, fragments, count - 1, k);
            let before = self.parts_bits(state, decisions, parts, fragments, count - 1, scalar(), bit(k));
            let fragment = fragments[count - 1];
            let i = parts.len() - count;
            assert(placed(parts, fragment, parts.len() - 1 - (count - 1)));
            lemma_parts_positional(parts, i);
            lemma_bits_from(parts, 0, i);
            lemma_bits_from(parts, i + 1, i + 1);
            let w = width(parts[i].value);
            let n = copies(parts[i]);
            assert(0 <= w * n) by (nonlinear_arith)
                requires
                    0 <= w,
                    0 <= n,
            ;
            lemma_one_bit(k, bits_from(parts, i + 1), w, n);
            let own = self.part_bits(before.state, decisions, parts[i], fragment, scalar(), bit(k));
            assert(all == before.sources + own.sources);
            if lies_in(parts, i, k) {
                lemma_place(parts, i, k);
                let place = place_in(parts, i, k);
                self.lemma_bits(before.state, decisions, parts[i].value, place);
                let inner = self.bits_of(before.state, decisions, parts[i].value, scalar(), bit(place));
                self.lemma_moved(inner.sources, parts[i].value, place, k);
                assert(own.sources == flows::all_changed(inner.sources, flows::packed_move(k - place)));
            } else {
                assert(own.sources.len() == 0);
            }
            assert forall|source: FlowRef| #[trigger] all.contains(source) <==> self.some_part_drawn(parts, i, k, source) by {
                lemma_contains_both(before.sources, own.sources, source);
                if self.some_part_drawn(parts, i + 1, k, source) {
                    let m = choose|m: int|
                        #![trigger lies_in(parts, m, k)]
                        i + 1 <= m < parts.len() && lies_in(parts, m, k) && self.drawn_at(
                            parts[m].value,
                            place_in(parts, m, k),
                            source,
                            k,
                        );
                    assert(lies_in(parts, m, k));
                }
                if self.some_part_drawn(parts, i, k, source) {
                    let m = choose|m: int|
                        #![trigger lies_in(parts, m, k)]
                        i <= m < parts.len() && lies_in(parts, m, k) && self.drawn_at(
                            parts[m].value,
                            place_in(parts, m, k),
                            source,
                            k,
                        );
                    assert(lies_in(parts, m, k));
                }
            }
        } else {
            assert forall|source: FlowRef| #[trigger] all.contains(source) <==> self.some_part_drawn(parts, parts.len() as int, k, source) by {}
        }
    }

    spec fn some_member_drawn(self, members: Seq<Operand>, from: int, k: int, source: FlowRef) -> bool {
        exists|i: int|
            #![trigger in_member(members, i, k)]
            from <= i < members.len() && in_member(members, i, k) && k - members_from(members, i + 1) < width(members[i].value) && self.drawn_at(
                members[i].value,
                k - members_from(members, i + 1),
                source,
                k,
            )
    }

    proof fn lemma_members(
        self,
        state: FlowState,
        decisions: Seq<Decision>,
        members: Seq<Operand>,
        fragments: Seq<PackedProjectionFragment>,
        count: int,
        k: int,
    )
        requires
            modest(k),
            members_positional(members),
            modest(members_from(members, 0)),
            members.len() <= usize::MAX,
            shapes::packed_layout_of(members, true) == Some(fragments),
            0 <= count <= fragments.len(),
        ensures
            forall|source: FlowRef| #[trigger]
                self.members_bits(state, decisions, members, fragments, count, scalar(), bit(k)).sources.contains(source)
                    <==> self.some_member_drawn(members, members.len() - count, k, source),
        decreases members, 1nat, count,
    {
        lemma_members_layout(members, 0);
        let all = self.members_bits(state, decisions, members, fragments, count, scalar(), bit(k)).sources;
        if count > 0 {
            self.lemma_members(state, decisions, members, fragments, count - 1, k);
            let before = self.members_bits(state, decisions, members, fragments, count - 1, scalar(), bit(k));
            let fragment = fragments[count - 1];
            let i = members.len() - count;
            assert(member_placed(members, fragment, members.len() - 1 - (count - 1)));
            lemma_members_positional(members, i);
            assert(member_positional(members[i]));
            lemma_members_from(members, 0, i);
            lemma_members_from(members, i + 1, i + 1);
            let value = members[i].value;
            let start = members_from(members, i + 1);
            let w = member_width(members[i]);
            let window = PackedSpan { start: start as usize, length: w as usize };
            let own = self.member_bits(before.state, decisions, members[i], fragment, scalar(), bit(k));
            assert(all == before.sources + own.sources);
            let here = in_member(members, i, k) && k - start < width(value);
            if in_member(members, i, k) {
                assert(window.wf());
                assert(bit(k).common(window) == Some(bit(k)));
                self.lemma_requested(before.state, decisions, value, k - start, w as usize);
                let asked = self.requested_of(before.state, decisions, value, scalar(), bit(k - start), w as usize);
                assert(own.sources == flows::all_changed(asked.sources, flows::packed_move(start)));
                if here {
                    self.lemma_bits(before.state, decisions, value, k - start);
                    self.lemma_moved(asked.sources, value, k - start, k);
                }
            } else {
                assert(!(window.wf() && bit(k).common(window) is Some));
            }
            assert(!here ==> own.sources.len() == 0);
            assert forall|source: FlowRef| #[trigger] all.contains(source) <==> self.some_member_drawn(members, i, k, source) by {
                lemma_contains_both(before.sources, own.sources, source);
                if self.some_member_drawn(members, i + 1, k, source) {
                    let m = choose|m: int|
                        #![trigger in_member(members, m, k)]
                        i + 1 <= m < members.len() && in_member(members, m, k) && k - members_from(members, m + 1) < width(members[m].value) && self.drawn_at(
                            members[m].value,
                            k - members_from(members, m + 1),
                            source,
                            k,
                        );
                    assert(in_member(members, m, k));
                }
                if self.some_member_drawn(members, i, k, source) {
                    let m = choose|m: int|
                        #![trigger in_member(members, m, k)]
                        i <= m < members.len() && in_member(members, m, k) && k - members_from(members, m + 1) < width(members[m].value) && self.drawn_at(
                            members[m].value,
                            k - members_from(members, m + 1),
                            source,
                            k,
                        );
                    assert(in_member(members, m, k));
                }
            }
        } else {
            assert forall|source: FlowRef| #[trigger] all.contains(source) <==> self.some_member_drawn(members, members.len() as int, k, source) by {}
        }
    }

    proof fn lemma_some_member(self, e: Expression, members: Seq<Operand>, k: int, source: FlowRef)
        requires
            e.node matches Node::Struct(list) && list@ == members,
        ensures
            self.drawn_at(e, k, source, k) <==> self.some_member_drawn(members, 0, k, source),
    {
        if self.drawn_at(e, k, source, k) {
            let (o, access, j, own) = choose|o: usize, access: Access, j: int, own: FlowRef|
                #![trigger draws(e, k, o, access, j), self.leaf(o, access, j).contains(own)]
                draws(e, k, o, access, j) && self.leaf(o, access, j).contains(own) && source == displaced(own, k - j);
            assert(some_member_draws(members, k, o, access, j));
            let i = choose|i: int|
                #![trigger in_member(members, i, k)]
                0 <= i < members.len() && in_member(members, i, k) && k - members_from(members, i + 1) < width(members[i].value) && draws(
                    members[i].value,
                    k - members_from(members, i + 1),
                    o,
                    access,
                    j,
                );
            assert(self.leaf(o, access, j).contains(own));
            assert(self.drawn_at(members[i].value, k - members_from(members, i + 1), source, k));
        }
        if self.some_member_drawn(members, 0, k, source) {
            let i = choose|i: int|
                #![trigger in_member(members, i, k)]
                0 <= i < members.len() && in_member(members, i, k) && k - members_from(members, i + 1) < width(members[i].value) && self.drawn_at(
                    members[i].value,
                    k - members_from(members, i + 1),
                    source,
                    k,
                );
            let at = k - members_from(members, i + 1);
            let part = members[i].value;
            let (o, access, j, own) = choose|o: usize, access: Access, j: int, own: FlowRef|
                #![trigger draws(part, at, o, access, j), self.leaf(o, access, j).contains(own)]
                draws(part, at, o, access, j) && self.leaf(o, access, j).contains(own) && source == displaced(own, k - j);
            assert(some_member_draws(members, k, o, access, j));
            assert(draws(e, k, o, access, j));
        }
    }

    /// An operand that is seen in a context has the bits of its width, and no others.
    proof fn lemma_requested(self, state: FlowState, decisions: Seq<Decision>, e: Expression, k: int, context: usize)
        requires
            positional(e),
            unsigned_scalar(e),
            modest(k),
        ensures
            k < width(e) ==> self.requested_of(state, decisions, e, scalar(), bit(k), context) == self.bits_of(
                state,
                decisions,
                e,
                scalar(),
                bit(k),
            ),
            k >= width(e) ==> self.requested_of(state, decisions, e, scalar(), bit(k), context).sources.len() == 0,
    {
        let present = project::present_elements(e, scalar());
        assert(present == Some(scalar()));
        let all = PackedSpan { start: 0, length: width(e) as usize };
        if k < width(e) {
            assert(bit(k).common(all) == Some(bit(k)));
        } else {
            assert(bit(k).common(all) is None);
        }
    }

    proof fn lemma_bits(self, state: FlowState, decisions: Seq<Decision>, e: Expression, k: int)
        requires
            positional(e),
            modest(k),
        ensures
            self.exact(self.bits_of(state, decisions, e, scalar(), bit(k)).sources, e, k, k),
        decreases e, 0nat, 0int,
    {
        let found = self.bits_of(state, decisions, e, scalar(), bit(k)).sources;
        match e.node {
            Node::Variable(a) => {
                self.lemma_leaf(state, e.occurrence, a, k);
                assert forall|source: FlowRef| #[trigger] found.contains(source) <==> self.drawn_at(e, k, source, k) by {
                    if found.contains(source) {
                        self.lemma_leaf_offset(e.occurrence, a, k, source);
                        assert(draws(e, k, e.occurrence, a, k));
                        assert(displaced(source, k - k) == source);
                    }
                    if self.drawn_at(e, k, source, k) {
                        let (o, access, j, own) = choose|o: usize, access: Access, j: int, own: FlowRef|
                            #![trigger draws(e, k, o, access, j), self.leaf(o, access, j).contains(own)]
                            draws(e, k, o, access, j) && self.leaf(o, access, j).contains(own) && source == displaced(own, k - j);
                        assert(displaced(own, k - j) == own);
                    }
                }
            },
            Node::Constant => {
                assert forall|source: FlowRef| #[trigger] found.contains(source) <==> self.drawn_at(e, k, source, k) by {}
            },
            Node::Unary(op, operand) => {
                self.lemma_bits(state, decisions, *operand, k);
                assert forall|o: usize, access: Access, j: int| #[trigger] draws(e, k, o, access, j) == draws(*operand, k, o, access, j) by {}
                self.lemma_same(e, k, *operand, k, k, found);
            },
            Node::Binary(left, op, right) => match op {
                BinaryOp::ShiftLeft => {
                    let s = right.facts.value->0;
                    let by = self.wide_of(state, decisions, *right);
                    assert(by.sources =~= Seq::empty());
                    if s <= k {
                        assert(project::shifted_left(bit(k), s) == Some(bit(k - s)));
                        self.lemma_bits(by.state, decisions, *left, k - s);
                        let inner = self.bits_of(by.state, decisions, *left, scalar(), bit(k - s)).sources;
                        self.lemma_moved(inner, *left, k - s, k);
                        assert(found =~= flows::all_changed(inner, flows::packed_move(s as int)));
                        self.lemma_same(e, k, *left, k - s, k, found);
                    } else {
                        assert(project::shifted_left(bit(k), s) is None);
                        self.lemma_nothing(e, k, found);
                    }
                },
                BinaryOp::LogicShiftRight => {
                    self.lemma_shift_right(state, decisions, *left, *right, false, k);
                    if k + right.facts.value->0 < width(*left) {
                        self.lemma_same(e, k, *left, k + right.facts.value->0, k, found);
                    } else {
                        self.lemma_nothing(e, k, found);
                    }
                },
                BinaryOp::ArithShiftRight => {
                    self.lemma_shift_right(state, decisions, *left, *right, true, k);
                    if k + right.facts.value->0 < width(*left) {
                        self.lemma_same(e, k, *left, k + right.facts.value->0, k, found);
                    } else {
                        self.lemma_nothing(e, k, found);
                    }
                },
                BinaryOp::Bitwise => {
                    let context = project::context_width(e, bit(k));
                    let l = self.requested_of(state, decisions, *left, scalar(), bit(k), context);
                    let r = self.requested_of(l.state, decisions, *right, scalar(), bit(k), context);
                    self.lemma_requested(state, decisions, *left, k, context);
                    self.lemma_requested(l.state, decisions, *right, k, context);
                    self.lemma_bits(state, decisions, *left, k);
                    self.lemma_bits(l.state, decisions, *right, k);
                    assert forall|source: FlowRef| #[trigger] found.contains(source) <==> self.drawn_at(e, k, source, k) by {
                        lemma_contains_both(l.sources, r.sources, source);
                        self.lemma_either(e, *left, *right, k, source);
                    }
                },
                BinaryOp::As => {
                    let context = project::context_width(e, bit(k));
                    self.lemma_requested(state, decisions, *left, k, context);
                    self.lemma_bits(state, decisions, *left, k);
                    if k < width(*left) {
                        self.lemma_same(e, k, *left, k, k, found);
                    } else {
                        self.lemma_nothing(e, k, found);
                    }
                },
                _ => {},
            },
            Node::Ternary(condition, yes, no) => {
                let context = project::context_width(e, bit(k));
                let c = self.wide_of(state, decisions, *condition);
                assert(c.sources =~= Seq::empty());
                let side = if condition.facts.value->0 != 0 {
                    *yes
                } else {
                    *no
                };
                self.lemma_requested(c.state, decisions, side, k, context);
                if condition.facts.value->0 != 0 {
                    self.lemma_bits(c.state, decisions, *yes, k);
                } else {
                    self.lemma_bits(c.state, decisions, *no, k);
                }
                let own = self.requested_of(c.state, decisions, side, scalar(), bit(k), context).sources;
                assert(found =~= own);
                if k < width(side) {
                    self.lemma_same(e, k, side, k, k, found);
                } else {
                    self.lemma_nothing(e, k, found);
                }
            },
            Node::Struct(members) => {
                assert(members@.len() == members.len());
                lemma_members_layout(members@, 0);
                let fragments = shapes::packed_layout_of(members@, true)->0;
                self.lemma_members(state, decisions, members@, fragments, fragments.len() as int, k);
                let own = self.members_bits(state, decisions, members@, fragments, fragments.len() as int, scalar(), bit(k)).sources;
                assert(fragments.len() == members@.len());
                assert(found == own);
                assert forall|source: FlowRef| #[trigger] found.contains(source) <==> self.drawn_at(e, k, source, k) by {
                    self.lemma_some_member(e, members@, k, source);
                }
            },
            Node::Concatenation(parts) => {
                assert(parts@.len() == parts.len());
                lemma_layout(parts@, 0);
                let fragments = shapes::packed_layout_of(parts@, false)->0;
                let controls = flows::wide_found(self.repeats_whole(state, decisions, parts@, true));
                self.lemma_repeats(state, decisions, parts@);
                self.lemma_parts(controls.state, decisions, parts@, fragments, fragments.len() as int, k);
                let own = self.parts_bits(controls.state, decisions, parts@, fragments, fragments.len() as int, scalar(), bit(k)).sources;
                assert(found =~= own);
                assert forall|source: FlowRef| #[trigger] found.contains(source) <==> self.drawn_at(e, k, source, k) by {
                    self.lemma_some_part(e, parts@, k, source);
                }
            },
            _ => {},
        }
    }

    /// What draws on the same bits has the same sources.
    proof fn lemma_same(self, e: Expression, k: int, part: Expression, at: int, to: int, sources: Seq<FlowRef>)
        requires
            forall|o: usize, access: Access, j: int| #[trigger] draws(e, k, o, access, j) == draws(part, at, o, access, j),
            self.exact(sources, part, at, to),
        ensures
            self.exact(sources, e, k, to),
    {
        assert forall|source: FlowRef| self.drawn_at(part, at, source, to) <==> #[trigger] self.drawn_at(e, k, source, to) by {
            if self.drawn_at(part, at, source, to) {
                let (o, access, j, own) = choose|o: usize, access: Access, j: int, own: FlowRef|
                    #![trigger draws(part, at, o, access, j), self.leaf(o, access, j).contains(own)]
                    draws(part, at, o, access, j) && self.leaf(o, access, j).contains(own) && source == displaced(own, to - j);
                assert(draws(e, k, o, access, j));
                assert(self.leaf(o, access, j).contains(own));
            }
            if self.drawn_at(e, k, source, to) {
                let (o, access, j, own) = choose|o: usize, access: Access, j: int, own: FlowRef|
                    #![trigger draws(e, k, o, access, j), self.leaf(o, access, j).contains(own)]
                    draws(e, k, o, access, j) && self.leaf(o, access, j).contains(own) && source == displaced(own, to - j);
                assert(draws(part, at, o, access, j));
                assert(self.leaf(o, access, j).contains(own));
            }
        }
    }

    proof fn lemma_nothing(self, e: Expression, k: int, sources: Seq<FlowRef>)
        requires
            forall|o: usize, access: Access, j: int| !#[trigger] draws(e, k, o, access, j),
            sources.len() == 0,
        ensures
            self.exact(sources, e, k, k),
    {
    }

    proof fn lemma_either(self, e: Expression, left: Expression, right: Expression, k: int, source: FlowRef)
        requires
            forall|o: usize, access: Access, j: int| #[trigger] draws(e, k, o, access, j) <==> (k < width(left) && draws(left, k, o, access, j)) || (k
                < width(right) && draws(right, k, o, access, j)),
        ensures
            self.drawn_at(e, k, source, k) <==> (k < width(left) && self.drawn_at(left, k, source, k)) || (k < width(
                right,
            ) && self.drawn_at(right, k, source, k)),
    {
        if self.drawn_at(e, k, source, k) {
            let (o, access, j, own) = choose|o: usize, access: Access, j: int, own: FlowRef|
                #![trigger draws(e, k, o, access, j), self.leaf(o, access, j).contains(own)]
                draws(e, k, o, access, j) && self.leaf(o, access, j).contains(own) && source == displaced(own, k - j);
            assert(self.leaf(o, access, j).contains(own));
        }
        if k < width(left) && self.drawn_at(left, k, source, k) {
            let (o, access, j, own) = choose|o: usize, access: Access, j: int, own: FlowRef|
                #![trigger draws(left, k, o, access, j), self.leaf(o, access, j).contains(own)]
                draws(left, k, o, access, j) && self.leaf(o, access, j).contains(own) && source == displaced(own, k - j);
            assert(draws(e, k, o, access, j));
        }
        if k < width(right) && self.drawn_at(right, k, source, k) {
            let (o, access, j, own) = choose|o: usize, access: Access, j: int, own: FlowRef|
                #![trigger draws(right, k, o, access, j), self.leaf(o, access, j).contains(own)]
                draws(right, k, o, access, j) && self.leaf(o, access, j).contains(own) && source == displaced(own, k - j);
            assert(draws(e, k, o, access, j));
        }
    }

    proof fn lemma_some_part(self, e: Expression, parts: Seq<Operand>, k: int, source: FlowRef)
        requires
            e.node matches Node::Concatenation(list) && list@ == parts,
        ensures
            self.drawn_at(e, k, source, k) <==> self.some_part_drawn(parts, 0, k, source),
    {
        if self.drawn_at(e, k, source, k) {
            let (o, access, j, own) = choose|o: usize, access: Access, j: int, own: FlowRef|
                #![trigger draws(e, k, o, access, j), self.leaf(o, access, j).contains(own)]
                draws(e, k, o, access, j) && self.leaf(o, access, j).contains(own) && source == displaced(own, k - j);
            assert(some_part_draws(parts, k, o, access, j));
            let i = choose|i: int|
                #![trigger lies_in(parts, i, k)]
                0 <= i < parts.len() && lies_in(parts, i, k) && draws(
                    parts[i].value,
                    place_in(parts, i, k),
                    o,
                    access,
                    j,
                );
            assert(self.leaf(o, access, j).contains(own));
            assert(self.drawn_at(parts[i].value, place_in(parts, i, k), source, k));
        }
        if self.some_part_drawn(parts, 0, k, source) {
            let i = choose|i: int|
                #![trigger lies_in(parts, i, k)]
                0 <= i < parts.len() && lies_in(parts, i, k) && self.drawn_at(
                    parts[i].value,
                    place_in(parts, i, k),
                    source,
                    k,
                );
            let at = place_in(parts, i, k);
            let part = parts[i].value;
            let (o, access, j, own) = choose|o: usize, access: Access, j: int, own: FlowRef|
                #![trigger draws(part, at, o, access, j), self.leaf(o, access, j).contains(own)]
                draws(part, at, o, access, j) && self.leaf(o, access, j).contains(own) && source == displaced(own, k - j);
            assert(some_part_draws(parts, k, o, access, j));
            assert(draws(e, k, o, access, j));
        }
    }

    proof fn lemma_shift_right(self, state: FlowState, decisions: Seq<Decision>, left: Expression, right: Expression, arithmetic: bool, k: int)
        requires
            positional(left),
            unsigned_scalar(left),
            modest(k),
            right.node is Constant,
            right.facts.value is Some,
        ensures
            ({
                let found = self.shift_right_bits(state, decisions, left, right, arithmetic, scalar(), bit(k)).sources;
                let from = k + right.facts.value->0;
                if from < width(left) {
                    self.exact(found, left, from, k)
                } else {
                    found.len() == 0
                }
            }),
        decreases left, 1nat, 0int,
    {
        let s = right.facts.value->0;
        let by = self.wide_of(state, decisions, right);
        assert(by.sources =~= Seq::empty());
        let found = self.shift_right_bits(state, decisions, left, right, arithmetic, scalar(), bit(k)).sources;
        let w = width(left) as usize;
        if k + s < width(left) {
            assert(project::shifted_right(bit(k), s, w) == Some(bit(k + s)));
            self.lemma_bits(by.state, decisions, left, k + s);
            let inner = self.bits_of(by.state, decisions, left, scalar(), bit(k + s)).sources;
            self.lemma_moved(inner, left, k + s, k);
            assert(found =~= flows::all_changed(inner, flows::packed_move(-(s as int))));
        } else {
            assert(project::shifted_right(bit(k), s, w) is None);
        }
    }
}

proof fn lemma_contains_both(a: Seq<FlowRef>, b: Seq<FlowRef>, source: FlowRef)
    ensures
        (a + b).contains(source) <==> a.contains(source) || b.contains(source),
{
    if a.contains(source) {
        let i = choose|i: int| 0 <= i < a.len() && a[i] == source;
        assert((a + b)[i] == source);
    }
    if b.contains(source) {
        let i = choose|i: int| 0 <= i < b.len() && b[i] == source;
        assert((a + b)[a.len() + i] == source);
    }
    if (a + b).contains(source) {
        let i = choose|i: int| 0 <= i < (a + b).len() && (a + b)[i] == source;
        if i < a.len() {
            assert(a[i] == source);
        } else {
            assert(b[i - a.len()] == source);
        }
    }
}

impl<'a> Projector<'a> {
    /// The sources of a bit of an expression are those of the bits of the reads that it draws on, each
    /// with an offset that leads from the one bit to the other, and no others.
    pub proof fn sources_are_the_bits_drawn_on(self, state: FlowState, decisions: Seq<Decision>, e: Expression, k: int)
        requires
            positional(e),
            modest(k),
        ensures
            forall|source: FlowRef| #[trigger]
                self.bits_of(state, decisions, e, scalar(), bit(k)).sources.contains(source) <==> self.drawn(e, k, source),
    {
        self.lemma_bits(state, decisions, e, k);
        assert forall|source: FlowRef| #[trigger]
            self.bits_of(state, decisions, e, scalar(), bit(k)).sources.contains(source) <==> self.drawn(e, k, source) by {
            assert(self.drawn(e, k, source) == self.drawn_at(e, k, source, k));
        }
    }
}

impl<'a> Projector<'a> {
    /// What a read of one bit of an element finds: the version of each node that holds the bit, at the
    /// distance of the lowest bit that the access selects, and what selects it, at no known distance.
    ///
    /// The access has constant coordinates and one region, and the bits that it selects are constant;
    /// `nodes` are the nodes that hold the bit.
    pub proof fn a_read_finds_the_nodes_of_its_bit(self, o: usize, access: Access, low: usize, j: int, nodes: Seq<NodeKey>)
        requires
            self.cache.variable_reads@.dom().contains(o),
            self.projection.destination_index is None,
            access.selected matches Some(selected) && selected.low == low,
            modest(low as int),
            modest(j),
            project::keeps_positions(access),
            modest(access.regions@[0].array.start as int),
            access.regions@[0].array.length > 0,
            access.regions@[0].array.bounded(),
            access.regions@[0].packed.wf(),
            access.regions@[0].packed.has(low + j),
            project::lists_selected(
                *self.partition,
                access.id,
                ArraySpan { start: access.regions@[0].array.start, length: 1 },
                bit(low + j),
                nodes,
            ),
        ensures
            forall|v: usize|
                (exists|key: NodeKey|
                    nodes.contains(key) && #[trigger] project::version_at(self.cache.variable_reads@[o].versions@, key) == Some(v))
                    ==> #[trigger] self.leaf(o, access, j).contains(
                    FlowRef {
                        origin: Origin::Version(v),
                        relation: PositionRelation {
                            array: Some((-access.regions@[0].array.start) as isize),
                            packed: Some((-low) as isize),
                        },
                    },
                ),
            forall|source: FlowRef| #[trigger]
                self.leaf(o, access, j).contains(source) ==> source.relation == PositionRelation::anything() || (source.relation == PositionRelation {
                    array: Some((-access.regions@[0].array.start) as isize),
                    packed: Some((-low) as isize),
                } && exists|key: NodeKey| #[trigger]
                    nodes.contains(key) && finds(self.cache.variable_reads@[o].versions@, key, source.origin)),
    {
        let region = access.regions@[0];
        let read = *self.cache.variable_reads@[o];
        let above = project::bits_above(bit(j), low);
        assert(above == Some(bit(low + j)));
        assert(self.absolute_offset(access) is None);
        let elements = ArraySpan { start: region.array.start, length: 1 };
        assert(project::elements_above(scalar(), region.array.start) == Some(elements));
        assert(elements.common(region.array) == Some(elements));
        assert(self.read_elements(access, region, scalar()) == Some(elements));
        assert(bit(low + j).common(region.packed) == Some(bit(low + j)));
        let chosen = project::selected_keys(*self.partition, access.id, elements, bit(low + j));
        assert(project::lists_selected(*self.partition, access.id, elements, bit(low + j), chosen));
        assert(order::same_elements(nodes, chosen)) by {
            assert forall|key: NodeKey| #[trigger] nodes.contains(key) <==> chosen.contains(key) by {
                assert(nodes.contains(key) <==> self.partition.selects(access.id, elements, bit(low + j), key));
                assert(chosen.contains(key) <==> self.partition.selects(access.id, elements, bit(low + j), key));
            }
        }
        order::sorted_list_is_canonical(nodes, chosen);
        let found = self.regions_read(read.versions@, access, scalar(), above, 1);
        assert(self.regions_read(read.versions@, access, scalar(), above, 0) =~= Seq::empty());
        assert(found =~= project::versions_at(read.versions@, nodes));
        let relation = PositionRelation { array: Some((-region.array.start) as isize), packed: Some((-low) as isize) };
        assert(self.read_offset(access, low) == Some(relation));
        let shown = found.map_values(|origin: Origin| FlowRef { origin, relation });
        let selectors = flows::all_wide(flows::versions_of(read.selectors@));
        let leaf = self.leaf(o, access, j);
        assert(leaf =~= shown + selectors);
        assert forall|v: usize|
            (exists|key: NodeKey|
                nodes.contains(key) && #[trigger] project::version_at(self.cache.variable_reads@[o].versions@, key) == Some(v)) implies #[trigger] leaf.contains(
            FlowRef { origin: Origin::Version(v), relation },
        ) by {
            let key = choose|key: NodeKey|
                nodes.contains(key) && #[trigger] project::version_at(self.cache.variable_reads@[o].versions@, key) == Some(v);
            let i = lemma_version_listed(read.versions@, nodes, key, v);
            assert(shown[i] == FlowRef { origin: Origin::Version(v), relation });
            assert(leaf[i] == shown[i]);
        }
        assert forall|source: FlowRef| #[trigger] leaf.contains(source) implies source.relation == PositionRelation::anything() || (source.relation == relation
            && exists|key: NodeKey| #[trigger]
            nodes.contains(key) && finds(self.cache.variable_reads@[o].versions@, key, source.origin)) by {
            let i = choose|i: int| 0 <= i < leaf.len() && leaf[i] == source;
            if i < shown.len() {
                assert(source.origin == found[i]);
                lemma_listed_version(read.versions@, nodes, i);
            } else {
                assert(source == selectors[i - shown.len()]);
            }
        }
    }

    /// A shift to the left by a known number of bits, whatever is shifted and whichever bits are
    /// requested: the bits below that number draw on nothing but the distance itself; the others draw on
    /// what the operand's bits that much lower draw on, moved up by as much.
    pub proof fn a_shift_to_the_left_draws_on_lower_bits(
        self,
        state: FlowState,
        decisions: Seq<Decision>,
        e: Expression,
        array: ArraySpan,
        packed: PackedSpan,
        lower: PackedSpan,
    )
        requires
            e.node matches Node::Binary(left, op, right) && op == BinaryOp::ShiftLeft && right.facts.value is Some,
            packed.wf(),
        ensures
            e.node matches Node::Binary(left, op, right) && {
                let s = right.facts.value->0;
                let found = self.bits_of(state, decisions, e, array, packed);
                let by = self.wide_of(state, decisions, *right);
                let inner = self.bits_of(by.state, decisions, *left, array, lower);
                &&& packed.start + packed.length <= s ==> found.sources == by.sources
                &&& (lower.wf() && forall|j: int| #[trigger] lower.has(j) <==> 0 <= j && packed.has(j + s)) && s <= isize::MAX ==> found.sources.len()
                    == by.sources.len() + inner.sources.len() && (forall|i: int|
                    0 <= i < by.sources.len() ==> #[trigger] found.sources[i] == by.sources[i]) && (forall|i: int|
                    0 <= i < inner.sources.len() ==> moved_up(#[trigger] inner.sources[i], found.sources[by.sources.len() + i], s as int))
            },
    {
        if let Node::Binary(left, op, right) = e.node {
            let s = right.facts.value->0;
            if lower.wf() && forall|j: int| #[trigger] lower.has(j) <==> 0 <= j && packed.has(j + s) {
                assert(lower.has(lower.start as int));
                assert(lower.has(lower.start + lower.length - 1));
                assert(!lower.has(lower.start + lower.length));
                assert(!lower.has(lower.start - 1));
                assert(lower.has(packed.start + packed.length - 1 - s));
                assert(packed.start >= s ==> lower.has(packed.start - s));
                assert(packed.start < s ==> lower.has(0));
                assert(project::shifted_left(packed, s) == Some(lower));
            }
        }
    }

    /// A shift by a number of bits that is not known may bring any bit anywhere: everything that the
    /// operands draw on is drawn on, at no known distance.
    pub proof fn an_unknown_shift_draws_on_everything(
        self,
        state: FlowState,
        decisions: Seq<Decision>,
        e: Expression,
        array: ArraySpan,
        packed: PackedSpan,
    )
        requires
            e.node matches Node::Binary(left, op, right) && (op == BinaryOp::ShiftLeft || op == BinaryOp::LogicShiftRight || op == BinaryOp::ArithShiftRight)
                && right.facts.value is None,
        ensures
            e.node matches Node::Binary(left, op, right) && {
                let found = self.bits_of(state, decisions, e, array, packed).sources;
                let r = self.whole_of(state, decisions, *right, true);
                let l = self.whole_of(r.state, decisions, *left, true);
                &&& forall|i: int| 0 <= i < found.len() ==> (#[trigger] found[i]).relation == PositionRelation::anything()
                &&& found.len() == r.origins.len() + l.origins.len()
                &&& forall|i: int| 0 <= i < r.origins.len() ==> found[i].origin == #[trigger] r.origins[i]
                &&& forall|i: int| 0 <= i < l.origins.len() ==> found[r.origins.len() + i].origin == #[trigger] l.origins[i]
            },
    {
        if let Node::Binary(left, op, right) = e.node {
            let by = self.wide_of(state, decisions, *right);
            let all = flows::both(by, self.wide_of(by.state, decisions, *left));
            assert(self.shift_right_bits(state, decisions, *left, *right, true, array, packed) == all);
            assert(self.shift_right_bits(state, decisions, *left, *right, false, array, packed) == all);
            assert(self.bits_of(state, decisions, e, array, packed) == all);
        }
    }

    /// An operator that is neither bitwise nor a shift may let each bit depend on every bit of its
    /// operands: nothing is left out, and no distance is claimed.
    pub proof fn other_operators_draw_on_everything(
        self,
        state: FlowState,
        decisions: Seq<Decision>,
        e: Expression,
        array: ArraySpan,
        packed: PackedSpan,
    )
        requires
            e.node matches Node::Binary(left, op, right) && op == BinaryOp::Other,
        ensures
            e.node matches Node::Binary(left, op, right) && {
                let found = self.bits_of(state, decisions, e, array, packed).sources;
                let l = self.whole_of(state, decisions, *left, true);
                let r = self.whole_of(l.state, decisions, *right, true);
                &&& forall|i: int| 0 <= i < found.len() ==> (#[trigger] found[i]).relation == PositionRelation::anything()
                &&& found.len() == l.origins.len() + r.origins.len()
                &&& forall|i: int| 0 <= i < l.origins.len() ==> found[i].origin == #[trigger] l.origins[i]
                &&& forall|i: int| 0 <= i < r.origins.len() ==> found[l.origins.len() + i].origin == #[trigger] r.origins[i]
            },
    {
    }
}

/// The one source is the other, its bits moved up, as far as the offset fits.
pub open spec fn moved_up(own: FlowRef, moved: FlowRef, by: int) -> bool {
    &&& moved.origin == own.origin
    &&& moved.relation.array == own.relation.array
    &&& own.relation.packed is None ==> moved.relation.packed is None
    &&& own.relation.packed matches Some(packed) ==> (packed + by <= isize::MAX ==> moved.relation.packed == Some((packed + by) as isize))
}

/// The read found the version at the node.
pub open spec fn finds(read: Seq<KeyVersion>, key: NodeKey, origin: Origin) -> bool {
    project::version_at(read, key) matches Some(v) && origin == Origin::Version(v)
}

proof fn lemma_version_listed(read: Seq<KeyVersion>, nodes: Seq<NodeKey>, key: NodeKey, v: usize) -> (i: int)
    requires
        nodes.contains(key),
        project::version_at(read, key) == Some(v),
    ensures
        0 <= i < project::versions_at(read, nodes).len(),
        project::versions_at(read, nodes)[i] == Origin::Version(v),
    decreases nodes.len(),
{
    let before = project::versions_at(read, nodes.drop_last());
    if nodes.last() == key {
        before.len() as int
    } else {
        let k = choose|k: int| 0 <= k < nodes.len() && nodes[k] == key;
        assert(nodes.drop_last()[k] == key);
        let i = lemma_version_listed(read, nodes.drop_last(), key, v);
        i
    }
}

proof fn lemma_listed_version(read: Seq<KeyVersion>, nodes: Seq<NodeKey>, i: int)
    requires
        0 <= i < project::versions_at(read, nodes).len(),
    ensures
        exists|key: NodeKey| #[trigger] nodes.contains(key) && finds(read, key, project::versions_at(read, nodes)[i]),
    decreases nodes.len(),
{
    if nodes.len() > 0 {
        let before = project::versions_at(read, nodes.drop_last());
        if i < before.len() {
            lemma_listed_version(read, nodes.drop_last(), i);
            let key = choose|key: NodeKey| #[trigger] nodes.drop_last().contains(key) && finds(read, key, before[i]);
            let k = choose|k: int| 0 <= k < nodes.drop_last().len() && nodes.drop_last()[k] == key;
            assert(nodes[k] == key);
            assert(nodes.contains(key));
        } else {
            assert(nodes.contains(nodes.last()));
        }
    }
}

impl<'a> Projector<'a> {
    /// Bits behind the width of an operand, in a wider context: they draw on nothing where the operand
    /// has no sign, and on its highest bit, at no known distance, where it has one.
    pub proof fn bits_behind_the_width_come_from_the_sign(
        self,
        state: FlowState,
        decisions: Seq<Decision>,
        e: Expression,
        array: ArraySpan,
        packed: PackedSpan,
        context: usize,
    )
        requires
            packed.wf(),
            e.facts.width matches Some(w) && 0 < w <= packed.start && w < context,
            project::present_elements(e, array) == Some(array),
        ensures
            ({
                let found = self.requested_of(state, decisions, e, array, packed, context).sources;
                let sign = self.bits_of(state, decisions, e, array, bit(e.facts.width->0 - 1)).sources;
                if e.facts.signed {
                    found.len() == sign.len() && forall|i: int|
                        0 <= i < sign.len() ==> (#[trigger] found[i]).origin == sign[i].origin && found[i].relation.array == sign[i].relation.array
                            && found[i].relation.packed is None
                } else {
                    found.len() == 0
                }
            }),
    {
        let w = e.facts.width->0;
        let all = PackedSpan { start: 0, length: w };
        assert(packed.common(all) is None);
        let own = flows::none(state);
        let sign = self.bits_of(state, decisions, e, array, bit(w - 1));
        if e.facts.signed {
            assert(self.requested_of(state, decisions, e, array, packed, context).sources =~= flows::all_changed(
                sign.sources,
                flows::Change::ForgetPacked,
            ));
        }
    }

    /// Bits that a shift to the right takes from behind the width of its operand: a logical shift brings
    /// in nothing there, nor does an arithmetic one of an operand without a sign; of one with a sign it
    /// brings in its highest bit, at no known distance.
    pub proof fn a_shift_to_the_right_fills_up_with_the_sign(
        self,
        state: FlowState,
        decisions: Seq<Decision>,
        e: Expression,
        array: ArraySpan,
        packed: PackedSpan,
    )
        requires
            packed.wf(),
            e.node matches Node::Binary(left, op, right) && (op == BinaryOp::LogicShiftRight || op == BinaryOp::ArithShiftRight) && (right.facts.value matches Some(s)
                && left.facts.width matches Some(w) && 0 < w <= packed.start + s && packed.start + packed.length + s <= usize::MAX),
        ensures
            e.node matches Node::Binary(left, op, right) && {
                let found = self.bits_of(state, decisions, e, array, packed).sources;
                let by = self.wide_of(state, decisions, *right);
                let sign = self.bits_of(by.state, decisions, *left, array, bit(left.facts.width->0 - 1)).sources;
                if op == BinaryOp::ArithShiftRight && left.facts.signed {
                    &&& found.len() == by.sources.len() + sign.len()
                    &&& forall|i: int| 0 <= i < by.sources.len() ==> #[trigger] found[i] == by.sources[i]
                    &&& forall|i: int|
                        0 <= i < sign.len() ==> found[by.sources.len() + i] == (FlowRef {
                            origin: (#[trigger] sign[i]).origin,
                            relation: PositionRelation::anything(),
                        })
                } else {
                    found == by.sources
                }
            },
    {
        if let Node::Binary(left, op, right) = e.node {
            let s = right.facts.value->0;
            let w = left.facts.width->0;
            let arithmetic = op == BinaryOp::ArithShiftRight;
            let by = self.wide_of(state, decisions, *right);
            assert(project::shifted_right(packed, s, w) is None);
            assert(project::takes_sign(packed, s, w));
            assert(self.bits_of(state, decisions, e, array, packed) == self.shift_right_bits(state, decisions, *left, *right, arithmetic, array, packed));
        }
    }
}

impl<'a> Projector<'a> {
    /// Looking at such an expression makes no node.
    proof fn lemma_nodes(self, state: FlowState, decisions: Seq<Decision>, e: Expression, k: int)
        requires
            positional(e),
            modest(k),
        ensures
            self.bits_of(state, decisions, e, scalar(), bit(k)).state.nodes == state.nodes,
        decreases e, 0nat, 0int,
    {
        match e.node {
            Node::Unary(op, operand) => {
                self.lemma_nodes(state, decisions, *operand, k);
            },
            Node::Binary(left, op, right) => match op {
                BinaryOp::ShiftLeft => {
                    let s = right.facts.value->0;
                    let by = self.wide_of(state, decisions, *right);
                    if s <= k {
                        assert(project::shifted_left(bit(k), s) == Some(bit(k - s)));
                        self.lemma_nodes(by.state, decisions, *left, k - s);
                    } else {
                        assert(project::shifted_left(bit(k), s) is None);
                    }
                },
                BinaryOp::LogicShiftRight => {
                    self.lemma_nodes_right(state, decisions, *left, *right, false, k);
                },
                BinaryOp::ArithShiftRight => {
                    self.lemma_nodes_right(state, decisions, *left, *right, true, k);
                },
                BinaryOp::Bitwise => {
                    let context = project::context_width(e, bit(k));
                    let l = self.requested_of(state, decisions, *left, scalar(), bit(k), context);
                    self.lemma_nodes(state, decisions, *left, k);
                    self.lemma_nodes_requested(state, decisions, *left, k, context);
                    self.lemma_nodes(l.state, decisions, *right, k);
                    self.lemma_nodes_requested(l.state, decisions, *right, k, context);
                },
                BinaryOp::As => {
                    let context = project::context_width(e, bit(k));
                    self.lemma_nodes(state, decisions, *left, k);
                    self.lemma_nodes_requested(state, decisions, *left, k, context);
                },
                _ => {},
            },
            Node::Ternary(condition, yes, no) => {
                let context = project::context_width(e, bit(k));
                let c = self.wide_of(state, decisions, *condition);
                if condition.facts.value->0 != 0 {
                    self.lemma_nodes(c.state, decisions, *yes, k);
                    self.lemma_nodes_requested(c.state, decisions, *yes, k, context);
                } else {
                    self.lemma_nodes(c.state, decisions, *no, k);
                    self.lemma_nodes_requested(c.state, decisions, *no, k, context);
                }
            },
            Node::Concatenation(parts) => {
                assert(parts@.len() == parts.len());
                lemma_layout(parts@, 0);
                let fragments = shapes::packed_layout_of(parts@, false)->0;
                let controls = flows::wide_found(self.repeats_whole(state, decisions, parts@, true));
                self.lemma_nodes_repeats(state, decisions, parts@);
                self.lemma_nodes_parts(controls.state, decisions, parts@, fragments, fragments.len() as int, k);
            },
            Node::Struct(members) => {
                assert(members@.len() == members.len());
                lemma_members_layout(members@, 0);
                let fragments = shapes::packed_layout_of(members@, true)->0;
                self.lemma_nodes_members(state, decisions, members@, fragments, fragments.len() as int, k);
            },
            _ => {},
        }
    }

    proof fn lemma_nodes_requested(self, state: FlowState, decisions: Seq<Decision>, e: Expression, k: int, context: usize)
        requires
            positional(e),
            unsigned_scalar(e),
            modest(k),
            self.bits_of(state, decisions, e, scalar(), bit(k)).state.nodes == state.nodes,
        ensures
            self.requested_of(state, decisions, e, scalar(), bit(k), context).state.nodes == state.nodes,
    {
        assert(project::present_elements(e, scalar()) == Some(scalar()));
        let all = PackedSpan { start: 0, length: width(e) as usize };
        if k < width(e) {
            assert(bit(k).common(all) == Some(bit(k)));
        } else {
            assert(bit(k).common(all) is None);
        }
    }

    proof fn lemma_nodes_right(self, state: FlowState, decisions: Seq<Decision>, left: Expression, right: Expression, arithmetic: bool, k: int)
        requires
            positional(left),
            unsigned_scalar(left),
            modest(k),
            right.node is Constant,
            right.facts.value is Some,
        ensures
            self.shift_right_bits(state, decisions, left, right, arithmetic, scalar(), bit(k)).state.nodes == state.nodes,
        decreases left, 1nat, 0int,
    {
        let s = right.facts.value->0;
        let by = self.wide_of(state, decisions, right);
        let w = width(left) as usize;
        if k + s < width(left) {
            assert(project::shifted_right(bit(k), s, w) == Some(bit(k + s)));
            self.lemma_nodes(by.state, decisions, left, k + s);
        } else {
            assert(project::shifted_right(bit(k), s, w) is None);
        }
    }

    proof fn lemma_nodes_repeats(self, state: FlowState, decisions: Seq<Decision>, parts: Seq<Operand>)
        requires
            parts_positional(parts),
        ensures
            self.repeats_whole(state, decisions, parts, true).state.nodes == state.nodes,
        decreases parts.len(),
    {
        if parts.len() > 0 {
            self.lemma_nodes_repeats(state, decisions, parts.drop_last());
            let before = self.repeats_whole(state, decisions, parts.drop_last(), true);
            assert(part_positional(parts.last()));
            assert(self.repeat_whole(before.state, decisions, parts.last(), true).state.nodes == before.state.nodes);
        }
    }

    proof fn lemma_nodes_parts(
        self,
        state: FlowState,
        decisions: Seq<Decision>,
        parts: Seq<Operand>,
        fragments: Seq<PackedProjectionFragment>,
        count: int,
        k: int,
    )
        requires
            modest(k),
            parts_positional(parts),
            modest(bits_from(parts, 0)),
            parts.len() <= usize::MAX,
            shapes::packed_layout_of(parts, false) == Some(fragments),
            0 <= count <= fragments.len(),
        ensures
            self.parts_bits(state, decisions, parts, fragments, count, scalar(), bit(k)).state.nodes == state.nodes,
        decreases parts, 1nat, count,
    {
        lemma_layout(parts, 0);
        if count > 0 {
            self.lemma_nodes_parts(state, decisions, parts, fragments, count - 1, k);
            let before = self.parts_bits(state, decisions, parts, fragments, count - 1, scalar(), bit(k));
            let fragment = fragments[count - 1];
            let i = parts.len() - count;
            assert(placed(parts, fragment, parts.len() - 1 - (count - 1)));
            lemma_parts_positional(parts, i);
            lemma_bits_from(parts, 0, i);
            lemma_bits_from(parts, i + 1, i + 1);
            let w = width(parts[i].value);
            let n = copies(parts[i]);
            assert(0 <= w * n) by (nonlinear_arith)
                requires
                    0 <= w,
                    0 <= n,
            ;
            lemma_one_bit(k, bits_from(parts, i + 1), w, n);
            if lies_in(parts, i, k) {
                lemma_place(parts, i, k);
                self.lemma_nodes(before.state, decisions, parts[i].value, place_in(parts, i, k));
            }
            assert(self.part_bits(before.state, decisions, parts[i], fragment, scalar(), bit(k)).state.nodes == before.state.nodes);
        }
    }

    proof fn lemma_nodes_members(
        self,
        state: FlowState,
        decisions: Seq<Decision>,
        members: Seq<Operand>,
        fragments: Seq<PackedProjectionFragment>,
        count: int,
        k: int,
    )
        requires
            modest(k),
            members_positional(members),
            modest(members_from(members, 0)),
            members.len() <= usize::MAX,
            shapes::packed_layout_of(members, true) == Some(fragments),
            0 <= count <= fragments.len(),
        ensures
            self.members_bits(state, decisions, members, fragments, count, scalar(), bit(k)).state.nodes == state.nodes,
        decreases members, 1nat, count,
    {
        lemma_members_layout(members, 0);
        if count > 0 {
            self.lemma_nodes_members(state, decisions, members, fragments, count - 1, k);
            let before = self.members_bits(state, decisions, members, fragments, count - 1, scalar(), bit(k));
            let fragment = fragments[count - 1];
            let i = members.len() - count;
            assert(member_placed(members, fragment, members.len() - 1 - (count - 1)));
            lemma_members_positional(members, i);
            assert(member_positional(members[i]));
            lemma_members_from(members, 0, i);
            lemma_members_from(members, i + 1, i + 1);
            let start = members_from(members, i + 1);
            let w = member_width(members[i]);
            let window = PackedSpan { start: start as usize, length: w as usize };
            if in_member(members, i, k) {
                assert(window.wf());
                assert(bit(k).common(window) == Some(bit(k)));
                self.lemma_nodes(before.state, decisions, members[i].value, k - start);
                self.lemma_nodes_requested(before.state, decisions, members[i].value, k - start, w as usize);
            } else {
                assert(!(window.wf() && bit(k).common(window) is Some));
            }
            assert(self.member_bits(before.state, decisions, members[i], fragment, scalar(), bit(k)).state.nodes == before.state.nodes);
        }
    }

    /// The side of the choice stands in a node that counts only where the choice is made so: the node
    /// holds exactly the sources of the side, and is a source of the choice, at the same place.
    pub open spec fn side_counts(self, found: Found, decisions: Seq<Decision>, choice: usize, arm: usize, side: Expression, k: int) -> bool {
        exists|i: int|
            0 <= i < found.state.nodes.len() && (#[trigger] found.state.nodes[i] matches FlowView::Guarded { sources, decisions: made } && made == decisions.push(
                Decision { occurrence: choice, arm },
            ) && (forall|source: FlowRef| #[trigger] sources.contains(source) <==> self.drawn(side, k, source)) && found.sources.contains(
                FlowRef { origin: Origin::Node(i as usize), relation: PositionRelation { array: Some(0), packed: Some(0) } },
            ))
    }

    /// A choice whose condition is not constant depends on the condition, as a whole, and on both of its
    /// sides, each at the same bit and under the decision for it. A side that draws on nothing there adds
    /// nothing.
    pub proof fn a_choice_draws_on_its_condition_and_both_sides(self, state: FlowState, decisions: Seq<Decision>, e: Expression, k: int)
        requires
            e.node matches Node::Ternary(condition, yes, no) && condition.facts.value is None && positional(*yes) && positional(*no) && unsigned_scalar(*yes)
                && unsigned_scalar(*no) && self.whole_of(state, decisions, *condition, true).state.nodes.len() + 2 <= usize::MAX,
            modest(k),
        ensures
            e.node matches Node::Ternary(condition, yes, no) && {
                let found = self.bits_of(state, decisions, e, scalar(), bit(k));
                let asked = self.whole_of(state, decisions, *condition, true).origins;
                &&& forall|i: int|
                    0 <= i < asked.len() ==> found.sources[i] == (FlowRef { origin: #[trigger] asked[i], relation: PositionRelation::anything() })
                &&& (k < width(*yes) && exists|source: FlowRef| #[trigger] self.drawn(*yes, k, source)) ==> self.side_counts(
                    found,
                    decisions,
                    e.occurrence,
                    0,
                    *yes,
                    k,
                )
                &&& (k < width(*no) && exists|source: FlowRef| #[trigger] self.drawn(*no, k, source)) ==> self.side_counts(
                    found,
                    decisions,
                    e.occurrence,
                    1,
                    *no,
                    k,
                )
            },
    {
        if let Node::Ternary(condition, yes, no) = e.node {
            let context = project::context_width(e, bit(k));
            let c = self.wide_of(state, decisions, *condition);
            let first = flows::deciding(decisions, e.occurrence, 0);
            let second = flows::deciding(decisions, e.occurrence, 1);
            let y0 = self.requested_of(c.state, first, *yes, scalar(), bit(k), context);
            self.lemma_nodes(c.state, first, *yes, k);
            self.lemma_nodes_requested(c.state, first, *yes, k, context);
            self.lemma_requested(c.state, first, *yes, k, context);
            let y = flows::guarded_found(y0, first);
            let n0 = self.requested_of(y.state, second, *no, scalar(), bit(k), context);
            self.lemma_nodes(y.state, second, *no, k);
            self.lemma_nodes_requested(y.state, second, *no, k, context);
            self.lemma_requested(y.state, second, *no, k, context);
            let n = flows::guarded_found(n0, second);
            let found = self.bits_of(state, decisions, e, scalar(), bit(k));
            assert(found == flows::both(flows::both(c, y), n));
            if k < width(*yes) && exists|source: FlowRef| #[trigger] self.drawn(*yes, k, source) {
                self.sources_are_the_bits_drawn_on(c.state, first, *yes, k);
                let source = choose|source: FlowRef| #[trigger] self.drawn(*yes, k, source);
                assert(y0.sources.contains(source));
                let i = c.state.nodes.len() as int;
                assert(y.state.nodes[i] == found.state.nodes[i]);
                lemma_contains_both(c.sources, y.sources, y.sources[0]);
                lemma_contains_both(c.sources + y.sources, n.sources, y.sources[0]);
                assert(y.sources.contains(y.sources[0]));
                assert(found.state.nodes[i] matches FlowView::Guarded { sources, decisions: made } && sources == y0.sources && made == first);
            }
            if k < width(*no) && exists|source: FlowRef| #[trigger] self.drawn(*no, k, source) {
                self.sources_are_the_bits_drawn_on(y.state, second, *no, k);
                let source = choose|source: FlowRef| #[trigger] self.drawn(*no, k, source);
                assert(n0.sources.contains(source));
                let i = y.state.nodes.len() as int;
                lemma_contains_both(c.sources + y.sources, n.sources, n.sources[0]);
                assert(n.sources.contains(n.sources[0]));
                assert(found.state.nodes[i] matches FlowView::Guarded { sources, decisions: made } && sources == n0.sources && made == second);
            }
        }
    }
}

} // verus!
