//! What the requested bits of an expression depend on.
use vstd::prelude::*;
use crate::affine;
use crate::affine::{project_repeated_span, RepeatedFragment, RepeatedProjection};
use crate::flows;
use crate::flows::{change_all, constant_truth, decide, extend, move_array, move_packed, move_packed_back, to_wide, Change, Decision, FlowRef, FlowState, Flows, Found, Origin, Projector};
use crate::ir::{Access, BinaryOp, Expression, Node, Operand, Region, SystemCall, SystemKind, UnaryOp};
use crate::layout;
use crate::layout::{FrozenVariableRead, KeyVersion, PackedProjectionFragment};
use crate::order;
use crate::partition::{BitPartition, NodeKey};
use crate::projection::Coordinate;
use crate::relation::PositionRelation;
use crate::shapes;
use crate::shapes::{array_projection_layout, expression_array_extent, packed_projection_layout, LiteralFragment};
use crate::span::{translate_array_span, ArraySpan, PackedSpan};

verus! {

/// The list holds, in order, the nodes that an access touches.
pub open spec fn lists_selected(partition: BitPartition, id: u64, array: ArraySpan, packed: PackedSpan, list: Seq<NodeKey>) -> bool {
    order::strictly_sorted(list) && forall|key: NodeKey| #[trigger] list.contains(key) <==> partition.selects(id, array, packed, key)
}

/// The nodes that an access touches, in order.
pub open spec fn selected_keys(partition: BitPartition, id: u64, array: ArraySpan, packed: PackedSpan) -> Seq<NodeKey> {
    choose|list: Seq<NodeKey>| #[trigger] lists_selected(partition, id, array, packed, list)
}

fn select_keys(partition: &BitPartition, id: u64, array: ArraySpan, packed: PackedSpan) -> (r: Vec<NodeKey>)
    requires
        partition.wf(),
        packed.wf(),
    ensures
        r@ == selected_keys(*partition, id, array, packed),
{
    let r = partition.overlapping_access(id, array, packed);
    proof {
        assert(lists_selected(*partition, id, array, packed, r@));
        let chosen = selected_keys(*partition, id, array, packed);
        assert(lists_selected(*partition, id, array, packed, chosen));
        assert(order::same_elements(r@, chosen)) by {
            assert forall|key: NodeKey| #[trigger] r@.contains(key) <==> chosen.contains(key) by {
                assert(r@.contains(key) <==> partition.selects(id, array, packed, key));
                assert(chosen.contains(key) <==> partition.selects(id, array, packed, key));
            }
        }
        order::sorted_list_is_canonical(r@, chosen);
    }
    r
}

/// The version that a read found at a node.
pub open spec fn version_at(read: Seq<KeyVersion>, key: NodeKey) -> Option<usize> {
    if exists|i: int| 0 <= i < read.len() && (#[trigger] read[i]).key == key {
        let i = choose|i: int| 0 <= i < read.len() && (#[trigger] read[i]).key == key;
        Some(read[i].version)
    } else {
        None
    }
}

fn find_version(read: &FrozenVariableRead, key: NodeKey) -> (r: Option<usize>)
    requires
        layout::keys_ascend(read.versions@),
    ensures
        r == version_at(read.versions@, key),
{
    let r = read.version(key);
    proof {
        let list = read.versions@;
        match r {
            Some(version) => {
                let i = choose|i: int| 0 <= i < list.len() && list[i] == (KeyVersion { key, version });
                assert(list[i].key == key);
                let k = choose|k: int| 0 <= k < list.len() && (#[trigger] list[k]).key == key;
                lemma_key_once(list, i, k);
            },
            None => {},
        }
    }
    r
}

proof fn lemma_key_once(list: Seq<KeyVersion>, i: int, k: int)
    requires
        layout::keys_ascend(list),
        0 <= i < list.len(),
        0 <= k < list.len(),
        list[i].key == list[k].key,
    ensures
        i == k,
{
    <NodeKey as crate::order::Ordered>::lt_irreflexive(list[i].key);
}

/// The versions that a read found at the nodes, where it found one.
pub open spec fn versions_at(read: Seq<KeyVersion>, keys: Seq<NodeKey>) -> Seq<Origin>
    decreases keys.len(),
{
    if keys.len() == 0 {
        Seq::empty()
    } else {
        let before = versions_at(read, keys.drop_last());
        match version_at(read, keys.last()) {
            Some(version) => before.push(Origin::Version(version)),
            None => before,
        }
    }
}

/// The elements moved by an offset.
pub open spec fn elements_at(span: ArraySpan, offset: int) -> Option<ArraySpan> {
    if 0 <= span.start + offset <= usize::MAX {
        Some(ArraySpan { start: (span.start + offset) as usize, length: span.length })
    } else {
        None
    }
}

/// The elements moved up; nothing where their end does not fit.
pub open spec fn elements_above(span: ArraySpan, by: usize) -> Option<ArraySpan> {
    if span.start + by + span.length <= usize::MAX {
        Some(ArraySpan { start: (span.start + by) as usize, length: span.length })
    } else {
        None
    }
}

/// The bits moved up; nothing where their end does not fit.
pub open spec fn bits_above(span: PackedSpan, by: usize) -> Option<PackedSpan> {
    if span.start + by + span.length <= usize::MAX {
        Some(PackedSpan { start: (span.start + by) as usize, length: span.length })
    } else {
        None
    }
}

/// All coordinates are constant and one region is read: its positions keep their order.
pub open spec fn keeps_positions(access: Access) -> bool {
    all_constant(access.coordinates@) && access.regions@.len() == 1
}

pub open spec fn all_constant(coordinates: Seq<Coordinate>) -> bool {
    forall|i: int| 0 <= i < coordinates.len() ==> (#[trigger] coordinates[i]) is Constant
}

fn positions_kept(access: &Access) -> (r: bool)
    ensures
        r == keeps_positions(*access),
{
    let mut i: usize = 0;
    while i < access.coordinates.len()
        invariant
            i <= access.coordinates@.len(),
            forall|k: int| 0 <= k < i ==> (#[trigger] access.coordinates@[k]) is Constant,
        decreases access.coordinates@.len() - i,
    {
        match access.coordinates[i] {
            Coordinate::Constant(_) => {},
            Coordinate::Dynamic => {
                assert(!(access.coordinates@[i as int] is Constant));
                return false;
            },
        }
        i = i + 1;
    }
    access.regions.len() == 1
}

impl<'a> Projector<'a> {
    /// What leads from the position of the variable read to that written, where both have the same
    /// terms.
    pub open spec fn absolute_offset(self, access: Access) -> Option<isize> {
        match (self.projection.destination_index, access.flattened) {
            (Some(destination), Some(source)) => if destination.terms@.len() > 0 && destination.terms@ == source.terms@ && isize::MIN
                <= destination.constant - source.constant <= isize::MAX {
                Some((destination.constant - source.constant) as isize)
            } else {
                None
            },
            _ => None,
        }
    }

    fn find_absolute_offset(&self, access: &Access) -> (r: Option<isize>)
        ensures
            r == self.absolute_offset(*access),
    {
        match (self.projection.destination_index, &access.flattened) {
            (Some(destination), Some(source)) => if destination.terms.len() > 0 {
                destination.destination_offset_from(source)
            } else {
                None
            },
            _ => None,
        }
    }

    /// The elements of a region that are read for the requested elements.
    pub open spec fn read_elements(self, access: Access, region: Region, array: ArraySpan) -> Option<ArraySpan> {
        match self.absolute_offset(access) {
            Some(offset) => if offset == isize::MIN {
                None
            } else {
                let wanted = match self.projection.destination_array {
                    Some(destination) => destination,
                    None => array,
                };
                match elements_at(wanted, -offset) {
                    Some(wanted) => wanted.common(region.array),
                    None => None,
                }
            },
            None => if keeps_positions(access) {
                match elements_above(array, region.array.start) {
                    Some(wanted) => wanted.common(region.array),
                    None => None,
                }
            } else {
                Some(region.array)
            },
        }
    }

    fn find_elements(&self, access: &Access, region: Region, array: ArraySpan) -> (r: Option<ArraySpan>)
        ensures
            r == self.read_elements(*access, region, array),
    {
        match self.find_absolute_offset(access) {
            Some(offset) => {
                if offset == isize::MIN {
                    return None;
                }
                let wanted = match self.projection.destination_array {
                    Some(destination) => destination,
                    None => array,
                };
                match translate_array_span(wanted, -offset) {
                    Some(wanted) => wanted.intersection(region.array),
                    None => None,
                }
            },
            None => if positions_kept(access) {
                match array.translated(0, region.array.start) {
                    Some(wanted) => wanted.intersection(region.array),
                    None => None,
                }
            } else {
                Some(region.array)
            },
        }
    }

    /// The nodes of a region that are read for the requested elements and bits.
    pub open spec fn region_keys(self, access: Access, region: Region, array: ArraySpan, packed: Option<PackedSpan>) -> Seq<NodeKey> {
        match (self.read_elements(access, region, array), packed) {
            (Some(elements), Some(bits)) => if region.packed.wf() {
                match bits.common(region.packed) {
                    Some(bits) => selected_keys(*self.partition, access.id, elements, bits),
                    None => Seq::empty(),
                }
            } else {
                Seq::empty()
            },
            _ => Seq::empty(),
        }
    }

    /// The versions read in the first `count` regions.
    pub open spec fn regions_read(self, read: Seq<KeyVersion>, access: Access, array: ArraySpan, packed: Option<PackedSpan>, count: int) -> Seq<Origin>
        decreases count,
    {
        if count <= 0 {
            Seq::empty()
        } else {
            self.regions_read(read, access, array, packed, count - 1) + versions_at(
                read,
                self.region_keys(access, access.regions@[count - 1], array, packed),
            )
        }
    }

    fn read_region(&self, read: &FrozenVariableRead, access: &Access, region: Region, array: ArraySpan, packed: Option<PackedSpan>) -> (r: Vec<Origin>)
        requires
            self.wf(),
            layout::keys_ascend(read.versions@),
            packed matches Some(bits) ==> bits.wf(),
        ensures
            r@ == versions_at(read.versions@, self.region_keys(*access, region, array, packed)),
    {
        let mut r: Vec<Origin> = Vec::new();
        let (elements, bits) = match (self.find_elements(access, region, array), packed) {
            (Some(elements), Some(bits)) => (elements, bits),
            _ => {
                return r;
            },
        };
        let other = match PackedSpan::new(region.packed.start, region.packed.length) {
            Some(other) => other,
            None => {
                return r;
            },
        };
        let bits = match bits.intersection(other) {
            Some(bits) => bits,
            None => {
                return r;
            },
        };
        let keys = select_keys(self.partition, access.id, elements, bits);
        let mut i: usize = 0;
        while i < keys.len()
            invariant
                i <= keys@.len(),
                layout::keys_ascend(read.versions@),
                r@ == versions_at(read.versions@, keys@.take(i as int)),
            decreases keys@.len() - i,
        {
            if let Some(version) = find_version(read, keys[i]) {
                r.push(Origin::Version(version));
            }
            proof {
                assert(keys@.take(i + 1).drop_last() =~= keys@.take(i as int));
            }
            i = i + 1;
        }
        assert(keys@.take(i as int) =~= keys@);
        r
    }

    /// What leads from positions of the variable to those of the expression, where one offset does.
    pub open spec fn read_offset(self, access: Access, low: usize) -> Option<PositionRelation> {
        let local = match (self.absolute_offset(access), self.projection.destination_array_offset) {
            (Some(absolute), Some(destination)) => if isize::MIN <= absolute - destination <= isize::MAX {
                Some((absolute - destination) as isize)
            } else {
                None
            },
            _ => None,
        };
        if low > isize::MAX {
            None
        } else {
            match local {
                Some(array) => Some(PositionRelation { array: Some(array), packed: Some((-low) as isize) }),
                None => if keeps_positions(access) && access.regions@[0].array.start <= isize::MAX {
                    Some(
                        PositionRelation {
                            array: Some((-access.regions@[0].array.start) as isize),
                            packed: Some((-low) as isize),
                        },
                    )
                } else {
                    None
                },
            }
        }
    }

    fn find_offset(&self, access: &Access, low: usize) -> (r: Option<PositionRelation>)
        ensures
            r == self.read_offset(*access, low),
    {
        let local: Option<isize> = match (self.find_absolute_offset(access), self.projection.destination_array_offset) {
            (Some(absolute), Some(destination)) => absolute.checked_sub(destination),
            _ => None,
        };
        if low > isize::MAX as usize {
            return None;
        }
        let packed: isize = -(low as isize);
        match local {
            Some(array) => Some(PositionRelation { array: Some(array), packed: Some(packed) }),
            None => if positions_kept(access) && access.regions[0].array.start <= isize::MAX as usize {
                Some(PositionRelation { array: Some(-(access.regions[0].array.start as isize)), packed: Some(packed) })
            } else {
                None
            },
        }
    }

    /// What the requested bits of a variable depend on.
    pub open spec fn variable_bits(self, state: FlowState, occurrence: usize, access: Access, array: ArraySpan, packed: PackedSpan) -> Found {
        if !self.cache.variable_reads@.dom().contains(occurrence) {
            Found { state: state.missing(), sources: Seq::empty() }
        } else {
            let read = *self.cache.variable_reads@[occurrence];
            let selectors = flows::versions_of(read.selectors@);
            match access.selected {
                None => Found { state, sources: flows::all_wide(selectors + flows::read_versions(read.versions@)) },
                Some(selected) => {
                    let found = self.regions_read(read.versions@, access, array, bits_above(packed, selected.low), access.regions@.len() as int);
                    match self.read_offset(access, selected.low) {
                        Some(relation) => Found {
                            state,
                            sources: found.map_values(|o: Origin| FlowRef { origin: o, relation }) + flows::all_wide(selectors),
                        },
                        None => Found { state, sources: flows::all_wide(selectors + found) },
                    }
                },
            }
        }
    }

    fn project_variable(&self, flows: &mut Flows, occurrence: usize, access: &Access, array: ArraySpan, packed: PackedSpan) -> (r: Vec<FlowRef>)
        requires
            self.wf(),
            packed.wf(),
        ensures
            final(flows).state() == self.variable_bits(old(flows).state(), occurrence, *access, array, packed).state,
            r@ == self.variable_bits(old(flows).state(), occurrence, *access, array, packed).sources,
    {
        broadcast use vstd::std_specs::hash::group_hash_axioms;

        let selected = match access.selected {
            Some(selected) => selected,
            None => {
                let origins = self.eval_variable(flows, occurrence);
                let r = to_wide(&origins);
                proof {
                    if !self.cache.variable_reads@.dom().contains(occurrence) {
                        assert(r@ =~= Seq::empty());
                    }
                }
                return r;
            },
        };
        let read = match self.cache.variable_reads.get(&occurrence) {
            None => {
                flows.mark_partial();
                return Vec::new();
            },
            Some(read) => read,
        };
        assert(layout::keys_ascend(read.versions@));
        let ghost selectors = flows::versions_of(read.selectors@);
        let moved = packed.translated(0, selected.low);
        assert(moved == bits_above(packed, selected.low));
        let mut found: Vec<Origin> = Vec::new();
        let mut i: usize = 0;
        while i < access.regions.len()
            invariant
                i <= access.regions@.len(),
                self.wf(),
                layout::keys_ascend(read.versions@),
                moved matches Some(bits) ==> bits.wf(),
                found@ == self.regions_read(read.versions@, *access, array, moved, i as int),
            decreases access.regions@.len() - i,
        {
            let more = self.read_region(read, access, access.regions[i], array, moved);
            flows::extend_origins(&mut found, &more);
            i = i + 1;
        }
        let mut origins: Vec<Origin> = Vec::new();
        let mut k: usize = 0;
        while k < read.selectors.len()
            invariant
                k <= read.selectors@.len(),
                origins@ == flows::versions_of(read.selectors@.take(k as int)),
            decreases read.selectors@.len() - k,
        {
            origins.push(Origin::Version(read.selectors[k]));
            k = k + 1;
            assert(origins@ =~= flows::versions_of(read.selectors@.take(k as int)));
        }
        assert(read.selectors@.take(k as int) =~= read.selectors@);
        match self.find_offset(access, selected.low) {
            Some(relation) => {
                let mut r = related(&found, relation);
                let wide = to_wide(&origins);
                extend(&mut r, &wide);
                r
            },
            None => {
                flows::extend_origins(&mut origins, &found);
                to_wide(&origins)
            },
        }
    }
}

fn related(origins: &Vec<Origin>, relation: PositionRelation) -> (r: Vec<FlowRef>)
    ensures
        r@ == origins@.map_values(|o: Origin| FlowRef { origin: o, relation }),
{
    let mut r: Vec<FlowRef> = Vec::new();
    let mut i: usize = 0;
    while i < origins.len()
        invariant
            i <= origins@.len(),
            r@ == origins@.take(i as int).map_values(|o: Origin| FlowRef { origin: o, relation }),
        decreases origins@.len() - i,
    {
        r.push(FlowRef { origin: origins[i], relation });
        i = i + 1;
        assert(r@ =~= origins@.take(i as int).map_values(|o: Origin| FlowRef { origin: o, relation }));
    }
    assert(origins@.take(i as int) =~= origins@);
    r
}

/// The width that a context of unknown width has: up to the last requested bit.
pub open spec fn context_width(expression: Expression, packed: PackedSpan) -> usize {
    match expression.facts.width {
        Some(width) => width,
        None => (packed.start + packed.length) as usize,
    }
}

fn find_context_width(expression: &Expression, packed: PackedSpan) -> (r: usize)
    requires
        packed.wf(),
    ensures
        r == context_width(*expression, packed),
{
    match expression.facts.width {
        Some(width) => width,
        None => packed.end(),
    }
}

/// The elements that an expression has among the requested ones. A literal is looked at item by item.
pub open spec fn present_elements(expression: Expression, array: ArraySpan) -> Option<ArraySpan> {
    if expression.node is ArrayLiteral {
        Some(array)
    } else {
        let extent = match expression.facts.array {
            Some(extent) => extent,
            None => 1,
        };
        array.common(ArraySpan { start: 0, length: extent })
    }
}

fn find_present(expression: &Expression, array: ArraySpan) -> (r: Option<ArraySpan>)
    ensures
        r == present_elements(*expression, array),
{
    match &expression.node {
        Node::ArrayLiteral(_) => Some(array),
        _ => {
            let extent: usize = match expression.facts.array {
                Some(extent) => extent,
                None => 1,
            };
            array.intersection(ArraySpan { start: 0, length: extent })
        },
    }
}

/// The bits of the left operand of a shift to the left.
pub open spec fn shifted_left(packed: PackedSpan, by: usize) -> Option<PackedSpan> {
    let start = if packed.start < by {
        by
    } else {
        packed.start
    };
    if start < packed.start + packed.length {
        Some(PackedSpan { start: (start - by) as usize, length: (packed.start + packed.length - start) as usize })
    } else {
        None
    }
}

fn shift_left(packed: PackedSpan, by: usize) -> (r: Option<PackedSpan>)
    requires
        packed.wf(),
    ensures
        r == shifted_left(packed, by),
        r matches Some(span) ==> span.wf(),
{
    let start: usize = if packed.start < by {
        by
    } else {
        packed.start
    };
    if start < packed.end() {
        Some(PackedSpan { start: start - by, length: packed.end() - start })
    } else {
        None
    }
}

/// The bits of the left operand of a shift to the right.
pub open spec fn shifted_right(packed: PackedSpan, by: usize, width: usize) -> Option<PackedSpan> {
    match bits_above(packed, by) {
        Some(moved) => if width > 0 {
            (PackedSpan { start: 0, length: width }).common(moved)
        } else {
            None
        },
        None => None,
    }
}

fn shift_right(packed: PackedSpan, by: usize, width: usize) -> (r: Option<PackedSpan>)
    requires
        packed.wf(),
    ensures
        r == shifted_right(packed, by, width),
        r matches Some(span) ==> span.wf(),
{
    match packed.translated(0, by) {
        Some(moved) => match PackedSpan::whole(width) {
            Some(all) => all.intersection(moved),
            None => None,
        },
        None => None,
    }
}

/// The sign is shifted into a requested bit.
pub open spec fn takes_sign(packed: PackedSpan, by: usize, width: usize) -> bool {
    match bits_above(packed, by) {
        Some(moved) => moved.start + moved.length > width,
        None => false,
    }
}

fn sign_taken(packed: PackedSpan, by: usize, width: usize) -> (r: bool)
    requires
        packed.wf(),
    ensures
        r == takes_sign(packed, by, width),
{
    match packed.translated(0, by) {
        Some(moved) => moved.end() > width,
        None => false,
    }
}

pub open spec fn back_move(by: usize) -> Change {
    if by <= isize::MAX {
        flows::packed_move(-by)
    } else {
        Change::Widen
    }
}

pub open spec fn width_or_none(expression: Expression) -> usize {
    match expression.facts.width {
        Some(width) => width,
        None => 0,
    }
}

impl<'a> Projector<'a> {
    /// All that an expression depends on, without positions.
    pub open spec fn wide_of(self, state: FlowState, decisions: Seq<Decision>, expression: Expression) -> Found {
        flows::wide_found(self.whole_of(state, decisions, expression, true))
    }

    /// What the requested bits of an expression depend on, seen in a context: bits behind its width
    /// depend on the sign where there is one, and on nothing else.
    pub open spec fn requested_of(
        self,
        state: FlowState,
        decisions: Seq<Decision>,
        expression: Expression,
        array: ArraySpan,
        packed: PackedSpan,
        context: usize,
    ) -> Found
        decreases expression, 1int, 0int,
    {
        match present_elements(expression, array) {
            None => flows::none(state),
            Some(array) => {
                let width = match expression.facts.width {
                    Some(width) => width,
                    None => context,
                };
                let all = PackedSpan { start: 0, length: width };
                let own = if width > 0 && packed.common(all) is Some {
                    self.bits_of(state, decisions, expression, array, packed.common(all)->0)
                } else {
                    flows::none(state)
                };
                if context > width && expression.facts.signed && packed.start + packed.length > width && width != 0 {
                    let sign = self.bits_of(
                        own.state,
                        decisions,
                        expression,
                        array,
                        PackedSpan { start: (width - 1) as usize, length: 1 },
                    );
                    flows::both(own, flows::change_found(sign, Change::ForgetPacked))
                } else {
                    own
                }
            },
        }
    }

    /// What the requested bits of an expression depend on.
    pub open spec fn bits_of(
        self,
        state: FlowState,
        decisions: Seq<Decision>,
        expression: Expression,
        array: ArraySpan,
        packed: PackedSpan,
    ) -> Found
        decreases expression, 0int, 0int,
    {
        match expression.node {
            Node::Variable(access) => self.variable_bits(state, expression.occurrence, access, array, packed),
            Node::Hierarchical(_) => flows::none(state),
            Node::Constant => flows::none(state),
            Node::Unknown => self.wide_of(state, decisions, expression),
            Node::Call(_) => self.call_bits(state, expression.occurrence, array, packed),
            Node::System(call) => self.system_bits(state, decisions, call, array, packed),
            Node::Unary(op, operand) => match op {
                UnaryOp::Bitwise => self.bits_of(state, decisions, *operand, array, packed),
                UnaryOp::Other => self.wide_of(state, decisions, *operand),
            },
            Node::Binary(left, op, right) => match op {
                BinaryOp::As => self.requested_of(state, decisions, *left, array, packed, context_width(expression, packed)),
                BinaryOp::ShiftLeft => {
                    let by = self.wide_of(state, decisions, *right);
                    match right.facts.value {
                        None => flows::both(by, self.wide_of(by.state, decisions, *left)),
                        Some(shift) => match shifted_left(packed, shift) {
                            None => by,
                            Some(input) => flows::both(
                                by,
                                flows::change_found(
                                    self.bits_of(by.state, decisions, *left, array, input),
                                    flows::packed_move(shift as int),
                                ),
                            ),
                        },
                    }
                },
                BinaryOp::LogicShiftRight => self.shift_right_bits(state, decisions, *left, *right, false, array, packed),
                BinaryOp::ArithShiftRight => self.shift_right_bits(state, decisions, *left, *right, true, array, packed),
                BinaryOp::Bitwise => {
                    let context = context_width(expression, packed);
                    let l = self.requested_of(state, decisions, *left, array, packed, context);
                    flows::both(l, self.requested_of(l.state, decisions, *right, array, packed, context))
                },
                BinaryOp::LogicAnd => self.wide_of(state, decisions, expression),
                BinaryOp::LogicOr => self.wide_of(state, decisions, expression),
                BinaryOp::Other => self.wide_of(state, decisions, expression),
            },
            Node::Ternary(condition, yes, no) => {
                let context = context_width(expression, packed);
                let c = self.wide_of(state, decisions, *condition);
                match flows::truth_of(*condition) {
                    Some(true) => flows::both(c, self.requested_of(c.state, decisions, *yes, array, packed, context)),
                    Some(false) => flows::both(c, self.requested_of(c.state, decisions, *no, array, packed, context)),
                    None => {
                        let first = flows::deciding(decisions, expression.occurrence, 0);
                        let second = flows::deciding(decisions, expression.occurrence, 1);
                        let y = flows::guarded_found(
                            self.requested_of(c.state, first, *yes, array, packed, context),
                            first,
                        );
                        let n = flows::guarded_found(
                            self.requested_of(y.state, second, *no, array, packed, context),
                            second,
                        );
                        flows::both(flows::both(c, y), n)
                    },
                }
            },
            Node::Concatenation(parts) => match shapes::packed_layout_of(parts@, false) {
                None => self.wide_of(state, decisions, expression),
                Some(fragments) => {
                    let controls = flows::wide_found(self.repeats_whole(state, decisions, parts@, true));
                    flows::both(
                        controls,
                        self.parts_bits(controls.state, decisions, parts@, fragments, fragments.len() as int, array, packed),
                    )
                },
            },
            Node::ArrayLiteral(items) => self.literal_bits(state, decisions, expression, items@, array, packed),
            Node::Struct(members) => match shapes::packed_layout_of(members@, true) {
                None => self.wide_of(state, decisions, expression),
                Some(fragments) => self.members_bits(state, decisions, members@, fragments, fragments.len() as int, array, packed),
            },
        }
    }

    pub open spec fn call_bits(self, state: FlowState, occurrence: usize, array: ArraySpan, packed: PackedSpan) -> Found {
        let found = self.call_whole(state, occurrence, Some(Region { array, packed }));
        Found {
            state: found.state,
            sources: found.origins.map_values(
                |o: Origin| FlowRef { origin: o, relation: PositionRelation::identity() },
            ),
        }
    }

    pub open spec fn system_bits(self, state: FlowState, decisions: Seq<Decision>, call: SystemCall, array: ArraySpan, packed: PackedSpan) -> Found
        decreases call, 0int, 0int,
    {
        if call.kind == SystemKind::Cast && call.inputs@.len() == 1 {
            self.bits_of(state, decisions, call.inputs@[0], array, packed)
        } else {
            flows::wide_found(self.system_whole(state, decisions, call))
        }
    }

    pub open spec fn shift_right_bits(
        self,
        state: FlowState,
        decisions: Seq<Decision>,
        left: Expression,
        right: Expression,
        arithmetic: bool,
        array: ArraySpan,
        packed: PackedSpan,
    ) -> Found
        decreases left, 2int, 0int,
    {
        let by = self.wide_of(state, decisions, right);
        match right.facts.value {
            None => flows::both(by, self.wide_of(by.state, decisions, left)),
            Some(shift) => {
                let width = width_or_none(left);
                let own = match shifted_right(packed, shift, width) {
                    None => by,
                    Some(input) => flows::both(
                        by,
                        flows::change_found(self.bits_of(by.state, decisions, left, array, input), back_move(shift)),
                    ),
                };
                if arithmetic && left.facts.signed && width != 0 && takes_sign(packed, shift, width) {
                    flows::both(
                        own,
                        flows::change_found(
                            self.bits_of(
                                own.state,
                                decisions,
                                left,
                                array,
                                PackedSpan { start: (width - 1) as usize, length: 1 },
                            ),
                            Change::Widen,
                        ),
                    )
                } else {
                    own
                }
            },
        }
    }

    /// What a part of one copy of a part depends on.
    pub open spec fn copy_bits(self, state: FlowState, decisions: Seq<Decision>, part: Operand, copy: RepeatedFragment, array: ArraySpan) -> Found
        decreases part, 0int, 0int,
    {
        let local = PackedSpan { start: copy.local_start, length: copy.length };
        if local.wf() {
            flows::change_found(
                self.bits_of(state, decisions, part.value, array, local),
                flows::packed_move(copy.output_start as int),
            )
        } else {
            flows::none(state)
        }
    }

    /// What the requested bits of the copies of a part depend on.
    pub open spec fn part_bits(
        self,
        state: FlowState,
        decisions: Seq<Decision>,
        part: Operand,
        fragment: PackedProjectionFragment,
        array: ArraySpan,
        packed: PackedSpan,
    ) -> Found
        decreases part, 1int, 0int,
    {
        let width = fragment.item_width;
        match affine::repeated_span_of(packed.start, packed.length, fragment.output_start, width, fragment.repeat) {
            RepeatedProjection::Empty => flows::none(state),
            RepeatedProjection::Exact { first, second } => {
                let a = self.copy_bits(state, decisions, part, first, array);
                match second {
                    Some(second) => flows::both(a, self.copy_bits(a.state, decisions, part, second, array)),
                    None => a,
                }
            },
            RepeatedProjection::Periodic => if width == 0 {
                self.wide_of(state, decisions, part.value)
            } else {
                let inner = self.bits_of(state, decisions, part.value, array, PackedSpan { start: 0, length: width });
                if width * fragment.repeat <= usize::MAX {
                    flows::packed_repeat(inner, array, fragment.output_start, (width * fragment.repeat) as usize, width)
                } else {
                    flows::change_found(inner, Change::ForgetPacked)
                }
            },
        }
    }

    pub open spec fn parts_bits(
        self,
        state: FlowState,
        decisions: Seq<Decision>,
        parts: Seq<Operand>,
        fragments: Seq<PackedProjectionFragment>,
        count: int,
        array: ArraySpan,
        packed: PackedSpan,
    ) -> Found
        decreases parts, 2int, count,
    {
        if count <= 0 {
            flows::none(state)
        } else {
            let before = self.parts_bits(state, decisions, parts, fragments, count - 1, array, packed);
            let fragment = fragments[count - 1];
            if fragment.part < parts.len() {
                flows::both(
                    before,
                    self.part_bits(before.state, decisions, parts[fragment.part as int], fragment, array, packed),
                )
            } else {
                before
            }
        }
    }

    /// What the requested bits of a member depend on.
    pub open spec fn member_bits(
        self,
        state: FlowState,
        decisions: Seq<Decision>,
        member: Operand,
        fragment: PackedProjectionFragment,
        array: ArraySpan,
        packed: PackedSpan,
    ) -> Found
        decreases member, 1int, 0int,
    {
        let window = PackedSpan { start: fragment.output_start, length: fragment.item_width };
        if window.wf() && packed.common(window) is Some {
            let shown = packed.common(window)->0;
            flows::change_found(
                self.requested_of(
                    state,
                    decisions,
                    member.value,
                    array,
                    PackedSpan { start: (shown.start - fragment.output_start) as usize, length: shown.length },
                    fragment.item_width,
                ),
                flows::packed_move(fragment.output_start as int),
            )
        } else {
            flows::none(state)
        }
    }

    pub open spec fn members_bits(
        self,
        state: FlowState,
        decisions: Seq<Decision>,
        members: Seq<Operand>,
        fragments: Seq<PackedProjectionFragment>,
        count: int,
        array: ArraySpan,
        packed: PackedSpan,
    ) -> Found
        decreases members, 2int, count,
    {
        if count <= 0 {
            flows::none(state)
        } else {
            let before = self.members_bits(state, decisions, members, fragments, count - 1, array, packed);
            let fragment = fragments[count - 1];
            if fragment.part < members.len() {
                flows::both(
                    before,
                    self.member_bits(before.state, decisions, members[fragment.part as int], fragment, array, packed),
                )
            } else {
                before
            }
        }
    }

    /// What some elements of an item depend on.
    pub open spec fn item_bits(self, state: FlowState, decisions: Seq<Decision>, item: Operand, array: ArraySpan, packed: PackedSpan) -> Found
        decreases item, 0int, 0int,
    {
        let context = match item.value.facts.width {
            Some(width) => width,
            None => packed.length,
        };
        self.requested_of(state, decisions, item.value, array, packed, context)
    }

    pub open spec fn item_copy_bits(self, state: FlowState, decisions: Seq<Decision>, item: Operand, copy: RepeatedFragment, packed: PackedSpan) -> Found
        decreases item, 1int, 0int,
    {
        flows::change_found(
            self.item_bits(state, decisions, item, ArraySpan { start: copy.local_start, length: copy.length }, packed),
            flows::array_move(copy.output_start as int),
        )
    }

    /// What the requested elements of the copies of an item depend on.
    pub open spec fn copies_bits(
        self,
        state: FlowState,
        decisions: Seq<Decision>,
        item: Operand,
        fragment: LiteralFragment,
        array: ArraySpan,
        packed: PackedSpan,
    ) -> Found
        decreases item, 2int, 0int,
    {
        match affine::repeated_span_of(array.start, array.length, fragment.start, fragment.item_length, fragment.repeat) {
            RepeatedProjection::Empty => flows::none(state),
            RepeatedProjection::Exact { first, second } => {
                let a = self.item_copy_bits(state, decisions, item, first, packed);
                match second {
                    Some(second) => flows::both(a, self.item_copy_bits(a.state, decisions, item, second, packed)),
                    None => a,
                }
            },
            RepeatedProjection::Periodic => {
                let inner = self.item_bits(state, decisions, item, ArraySpan { start: 0, length: fragment.item_length }, packed);
                match fragment.length {
                    Some(length) => flows::array_repeat(inner, packed, fragment.start, length, fragment.item_length),
                    None => flows::change_found(inner, Change::ForgetArray),
                }
            },
        }
    }

    pub open spec fn items_bits(
        self,
        state: FlowState,
        decisions: Seq<Decision>,
        items: Seq<Operand>,
        fragments: Seq<LiteralFragment>,
        count: int,
        array: ArraySpan,
        packed: PackedSpan,
    ) -> Found
        decreases items, 3int, count,
    {
        if count <= 0 {
            flows::none(state)
        } else {
            let before = self.items_bits(state, decisions, items, fragments, count - 1, array, packed);
            let fragment = fragments[count - 1];
            if fragment.item < items.len() {
                flows::both(
                    before,
                    self.copies_bits(before.state, decisions, items[fragment.item as int], fragment, array, packed),
                )
            } else {
                before
            }
        }
    }

    /// What the requested elements of an array literal depend on: by a layout in which every item has
    /// its place, or else by one that takes an item of unknown size for one element.
    pub open spec fn literal_bits(
        self,
        state: FlowState,
        decisions: Seq<Decision>,
        expression: Expression,
        items: Seq<Operand>,
        array: ArraySpan,
        packed: PackedSpan,
    ) -> Found
        decreases items, 4int, 0int,
    {
        let end = array.start + array.length;
        let extent = shapes::extent_of(expression);
        let strict = match extent {
            Some(total) => if end <= total {
                shapes::literal_layout_of(items, true, total)
            } else {
                None
            },
            None => None,
        };
        let known = match extent {
            Some(total) => total as int,
            None => 1,
        };
        let total = if known < end {
            end
        } else {
            known
        };
        if end > usize::MAX {
            self.wide_of(state, decisions, expression)
        } else {
            match strict {
                Some(fragments) => {
                    let controls = flows::wide_found(self.repeats_whole(state, decisions, items, true));
                    flows::both(
                        controls,
                        self.items_bits(controls.state, decisions, items, fragments, fragments.len() as int, array, packed),
                    )
                },
                None => match shapes::literal_layout_of(items, false, total as usize) {
                    Some(fragments) => {
                        let controls = flows::wide_found(self.repeats_whole(state, decisions, items, false));
                        flows::both(
                            controls,
                            self.items_bits(controls.state, decisions, items, fragments, fragments.len() as int, array, packed),
                        )
                    },
                    None => self.wide_of(state, decisions, expression),
                },
            }
        }
    }
}

impl<'a> Projector<'a> {
    fn eval_wide(&self, flows: &mut Flows, decisions: &Vec<Decision>, expression: &Expression) -> (r: Vec<FlowRef>)
        ensures
            final(flows).state() == self.wide_of(old(flows).state(), decisions@, *expression).state,
            r@ == self.wide_of(old(flows).state(), decisions@, *expression).sources,
    {
        let origins = self.eval_expr_inner(flows, decisions, expression, true);
        to_wide(&origins)
    }

    /// What the requested bits of an expression depend on, seen in a context of a width.
    pub fn eval_expr_requested_in(
        &self,
        flows: &mut Flows,
        decisions: &Vec<Decision>,
        expression: &Expression,
        array: ArraySpan,
        packed: PackedSpan,
        context: usize,
    ) -> (r: Vec<FlowRef>)
        requires
            self.wf(),
            packed.wf(),
        ensures
            final(flows).state() == self.requested_of(old(flows).state(), decisions@, *expression, array, packed, context).state,
            r@ == self.requested_of(old(flows).state(), decisions@, *expression, array, packed, context).sources,
        decreases expression, 1int, 0int,
    {
        let array = match find_present(expression, array) {
            Some(array) => array,
            None => {
                return Vec::new();
            },
        };
        let width: usize = match expression.facts.width {
            Some(width) => width,
            None => context,
        };
        let mut r: Vec<FlowRef> = Vec::new();
        if let Some(all) = PackedSpan::whole(width) {
            if let Some(own) = packed.intersection(all) {
                r = self.eval_expr_bits_in(flows, decisions, expression, array, own);
            }
        }
        if context > width && expression.facts.signed && packed.end() > width && width != 0 {
            let sign = self.eval_expr_bits_in(flows, decisions, expression, array, PackedSpan { start: width - 1, length: 1 });
            let sign = change_all(&sign, Change::ForgetPacked);
            extend(&mut r, &sign);
        }
        r
    }

    /// What the requested bits of an expression depend on.
    pub fn eval_expr_bits_in(
        &self,
        flows: &mut Flows,
        decisions: &Vec<Decision>,
        expression: &Expression,
        array: ArraySpan,
        packed: PackedSpan,
    ) -> (r: Vec<FlowRef>)
        requires
            self.wf(),
            packed.wf(),
        ensures
            final(flows).state() == self.bits_of(old(flows).state(), decisions@, *expression, array, packed).state,
            r@ == self.bits_of(old(flows).state(), decisions@, *expression, array, packed).sources,
        decreases expression, 0int, 0int,
    {
        match &expression.node {
            Node::Variable(access) => self.project_variable(flows, expression.occurrence, access, array, packed),
            Node::Hierarchical(_) => Vec::new(),
            Node::Constant => Vec::new(),
            Node::Unknown => self.eval_wide(flows, decisions, expression),
            Node::Call(_) => {
                let origins = self.eval_call_result(flows, expression.occurrence, Some(Region { array, packed }));
                related(&origins, PositionRelation { array: Some(0), packed: Some(0) })
            },
            Node::System(call) => self.project_system(flows, decisions, call, array, packed),
            Node::Unary(op, operand) => match op {
                UnaryOp::Bitwise => self.eval_expr_bits_in(flows, decisions, operand, array, packed),
                UnaryOp::Other => self.eval_wide(flows, decisions, operand),
            },
            Node::Binary(left, op, right) => match op {
                BinaryOp::As => {
                    let context: usize = find_context_width(expression, packed);
                    self.eval_expr_requested_in(flows, decisions, left, array, packed, context)
                },
                BinaryOp::ShiftLeft => {
                    let mut r = self.eval_wide(flows, decisions, right);
                    match right.facts.value {
                        None => {
                            let more = self.eval_wide(flows, decisions, left);
                            extend(&mut r, &more);
                        },
                        Some(by) => {
                            if let Some(input) = shift_left(packed, by) {
                                let more = self.eval_expr_bits_in(flows, decisions, left, array, input);
                                let more = change_all(&more, move_packed(by));
                                extend(&mut r, &more);
                            }
                        },
                    }
                    r
                },
                BinaryOp::LogicShiftRight => self.project_shift_right(flows, decisions, left, right, false, array, packed),
                BinaryOp::ArithShiftRight => self.project_shift_right(flows, decisions, left, right, true, array, packed),
                BinaryOp::Bitwise => {
                    let context: usize = find_context_width(expression, packed);
                    let mut r = self.eval_expr_requested_in(flows, decisions, left, array, packed, context);
                    let more = self.eval_expr_requested_in(flows, decisions, right, array, packed, context);
                    extend(&mut r, &more);
                    r
                },
                BinaryOp::LogicAnd => self.eval_wide(flows, decisions, expression),
                BinaryOp::LogicOr => self.eval_wide(flows, decisions, expression),
                BinaryOp::Other => self.eval_wide(flows, decisions, expression),
            },
            Node::Ternary(condition, yes, no) => {
                let context: usize = find_context_width(expression, packed);
                let mut r = self.eval_wide(flows, decisions, condition);
                match constant_truth(condition) {
                    Some(true) => {
                        let more = self.eval_expr_requested_in(flows, decisions, yes, array, packed, context);
                        extend(&mut r, &more);
                    },
                    Some(false) => {
                        let more = self.eval_expr_requested_in(flows, decisions, no, array, packed, context);
                        extend(&mut r, &more);
                    },
                    None => {
                        let first = decide(decisions, expression.occurrence, 0);
                        let found = self.eval_expr_requested_in(flows, &first, yes, array, packed, context);
                        let found = self.guard_expression_sources(flows, found, first);
                        extend(&mut r, &found);
                        let second = decide(decisions, expression.occurrence, 1);
                        let found = self.eval_expr_requested_in(flows, &second, no, array, packed, context);
                        let found = self.guard_expression_sources(flows, found, second);
                        extend(&mut r, &found);
                    },
                }
                r
            },
            Node::Concatenation(parts) => match packed_projection_layout(parts, false) {
                None => self.eval_wide(flows, decisions, expression),
                Some(fragments) => {
                    let controls = self.eval_repeats(flows, decisions, parts, true);
                    let mut r = to_wide(&controls);
                    let more = self.project_parts(flows, decisions, parts, &fragments, array, packed);
                    extend(&mut r, &more);
                    r
                },
            },
            Node::ArrayLiteral(items) => self.project_literal(flows, decisions, expression, items, array, packed),
            Node::Struct(members) => match packed_projection_layout(members, true) {
                None => self.eval_wide(flows, decisions, expression),
                Some(fragments) => self.project_members(flows, decisions, members, &fragments, array, packed),
            },
        }
    }

    fn project_system(&self, flows: &mut Flows, decisions: &Vec<Decision>, call: &SystemCall, array: ArraySpan, packed: PackedSpan) -> (r: Vec<FlowRef>)
        requires
            self.wf(),
            packed.wf(),
        ensures
            final(flows).state() == self.system_bits(old(flows).state(), decisions@, *call, array, packed).state,
            r@ == self.system_bits(old(flows).state(), decisions@, *call, array, packed).sources,
        decreases call, 0int, 0int,
    {
        if call.kind == SystemKind::Cast && call.inputs.len() == 1 {
            self.eval_expr_bits_in(flows, decisions, &call.inputs[0], array, packed)
        } else {
            let origins = self.eval_system_call(flows, decisions, call);
            to_wide(&origins)
        }
    }

    fn project_shift_right(
        &self,
        flows: &mut Flows,
        decisions: &Vec<Decision>,
        left: &Expression,
        right: &Expression,
        arithmetic: bool,
        array: ArraySpan,
        packed: PackedSpan,
    ) -> (r: Vec<FlowRef>)
        requires
            self.wf(),
            packed.wf(),
        ensures
            final(flows).state() == self.shift_right_bits(old(flows).state(), decisions@, *left, *right, arithmetic, array, packed).state,
            r@ == self.shift_right_bits(old(flows).state(), decisions@, *left, *right, arithmetic, array, packed).sources,
        decreases left, 2int, 0int,
    {
        let mut r = self.eval_wide(flows, decisions, right);
        match right.facts.value {
            None => {
                let more = self.eval_wide(flows, decisions, left);
                extend(&mut r, &more);
            },
            Some(by) => {
                let width: usize = match left.facts.width {
                    Some(width) => width,
                    None => 0,
                };
                if let Some(input) = shift_right(packed, by, width) {
                    let more = self.eval_expr_bits_in(flows, decisions, left, array, input);
                    let more = change_all(&more, move_packed_back(by));
                    extend(&mut r, &more);
                }
                if arithmetic && left.facts.signed && width != 0 && sign_taken(packed, by, width) {
                    let sign = self.eval_expr_bits_in(flows, decisions, left, array, PackedSpan { start: width - 1, length: 1 });
                    let sign = change_all(&sign, Change::Widen);
                    extend(&mut r, &sign);
                }
            },
        }
        r
    }

    fn project_copy(&self, flows: &mut Flows, decisions: &Vec<Decision>, part: &Operand, copy: RepeatedFragment, array: ArraySpan) -> (r: Vec<FlowRef>)
        requires
            self.wf(),
        ensures
            final(flows).state() == self.copy_bits(old(flows).state(), decisions@, *part, copy, array).state,
            r@ == self.copy_bits(old(flows).state(), decisions@, *part, copy, array).sources,
        decreases part, 0int, 0int,
    {
        match PackedSpan::new(copy.local_start, copy.length) {
            Some(local) => {
                let found = self.eval_expr_bits_in(flows, decisions, &part.value, array, local);
                change_all(&found, move_packed(copy.output_start))
            },
            None => Vec::new(),
        }
    }

    fn project_part(
        &self,
        flows: &mut Flows,
        decisions: &Vec<Decision>,
        part: &Operand,
        fragment: PackedProjectionFragment,
        array: ArraySpan,
        packed: PackedSpan,
    ) -> (r: Vec<FlowRef>)
        requires
            self.wf(),
            packed.wf(),
        ensures
            final(flows).state() == self.part_bits(old(flows).state(), decisions@, *part, fragment, array, packed).state,
            r@ == self.part_bits(old(flows).state(), decisions@, *part, fragment, array, packed).sources,
        decreases part, 1int, 0int,
    {
        let width: usize = fragment.item_width;
        match project_repeated_span(packed.start, packed.length, fragment.output_start, width, fragment.repeat) {
            RepeatedProjection::Empty => Vec::new(),
            RepeatedProjection::Exact { first, second } => {
                let mut r = self.project_copy(flows, decisions, part, first, array);
                if let Some(second) = second {
                    let more = self.project_copy(flows, decisions, part, second, array);
                    extend(&mut r, &more);
                }
                r
            },
            RepeatedProjection::Periodic => {
                let local = match PackedSpan::whole(width) {
                    Some(local) => local,
                    None => {
                        return self.eval_wide(flows, decisions, &part.value);
                    },
                };
                let inner = self.eval_expr_bits_in(flows, decisions, &part.value, array, local);
                match width.checked_mul(fragment.repeat) {
                    Some(length) => self.regular_packed_repeat(flows, &inner, array, fragment.output_start, length, width),
                    None => change_all(&inner, Change::ForgetPacked),
                }
            },
        }
    }

    fn project_parts(
        &self,
        flows: &mut Flows,
        decisions: &Vec<Decision>,
        parts: &Vec<Operand>,
        fragments: &Vec<PackedProjectionFragment>,
        array: ArraySpan,
        packed: PackedSpan,
    ) -> (r: Vec<FlowRef>)
        requires
            self.wf(),
            packed.wf(),
            shapes::parts_in(fragments@, parts@.len() as int),
        ensures
            final(flows).state() == self.parts_bits(old(flows).state(), decisions@, parts@, fragments@, fragments@.len() as int, array, packed).state,
            r@ == self.parts_bits(old(flows).state(), decisions@, parts@, fragments@, fragments@.len() as int, array, packed).sources,
        decreases parts, 2int, 0int,
    {
        let ghost start = flows.state();
        let mut r: Vec<FlowRef> = Vec::new();
        let mut i: usize = 0;
        while i < fragments.len()
            invariant
                i <= fragments@.len(),
                self.wf(),
                packed.wf(),
                shapes::parts_in(fragments@, parts@.len() as int),
                flows.state() == self.parts_bits(start, decisions@, parts@, fragments@, i as int, array, packed).state,
                r@ == self.parts_bits(start, decisions@, parts@, fragments@, i as int, array, packed).sources,
            decreases fragments@.len() - i,
        {
            let fragment = fragments[i];
            assert(fragments@[i as int].part < parts@.len());
            let more = self.project_part(flows, decisions, &parts[fragment.part], fragment, array, packed);
            extend(&mut r, &more);
            i = i + 1;
        }
        r
    }

    fn project_member(
        &self,
        flows: &mut Flows,
        decisions: &Vec<Decision>,
        member: &Operand,
        fragment: PackedProjectionFragment,
        array: ArraySpan,
        packed: PackedSpan,
    ) -> (r: Vec<FlowRef>)
        requires
            self.wf(),
            packed.wf(),
        ensures
            final(flows).state() == self.member_bits(old(flows).state(), decisions@, *member, fragment, array, packed).state,
            r@ == self.member_bits(old(flows).state(), decisions@, *member, fragment, array, packed).sources,
        decreases member, 1int, 0int,
    {
        if let Some(window) = PackedSpan::new(fragment.output_start, fragment.item_width) {
            if let Some(shown) = packed.intersection(window) {
                let local = PackedSpan { start: shown.start - fragment.output_start, length: shown.length };
                let found = self.eval_expr_requested_in(flows, decisions, &member.value, array, local, fragment.item_width);
                return change_all(&found, move_packed(fragment.output_start));
            }
        }
        Vec::new()
    }

    fn project_members(
        &self,
        flows: &mut Flows,
        decisions: &Vec<Decision>,
        members: &Vec<Operand>,
        fragments: &Vec<PackedProjectionFragment>,
        array: ArraySpan,
        packed: PackedSpan,
    ) -> (r: Vec<FlowRef>)
        requires
            self.wf(),
            packed.wf(),
            shapes::parts_in(fragments@, members@.len() as int),
        ensures
            final(flows).state() == self.members_bits(old(flows).state(), decisions@, members@, fragments@, fragments@.len() as int, array, packed).state,
            r@ == self.members_bits(old(flows).state(), decisions@, members@, fragments@, fragments@.len() as int, array, packed).sources,
        decreases members, 2int, 0int,
    {
        let ghost start = flows.state();
        let mut r: Vec<FlowRef> = Vec::new();
        let mut i: usize = 0;
        while i < fragments.len()
            invariant
                i <= fragments@.len(),
                self.wf(),
                packed.wf(),
                shapes::parts_in(fragments@, members@.len() as int),
                flows.state() == self.members_bits(start, decisions@, members@, fragments@, i as int, array, packed).state,
                r@ == self.members_bits(start, decisions@, members@, fragments@, i as int, array, packed).sources,
            decreases fragments@.len() - i,
        {
            let fragment = fragments[i];
            assert(fragments@[i as int].part < members@.len());
            let more = self.project_member(flows, decisions, &members[fragment.part], fragment, array, packed);
            extend(&mut r, &more);
            i = i + 1;
        }
        r
    }

    fn project_item(&self, flows: &mut Flows, decisions: &Vec<Decision>, item: &Operand, array: ArraySpan, packed: PackedSpan) -> (r: Vec<FlowRef>)
        requires
            self.wf(),
            packed.wf(),
        ensures
            final(flows).state() == self.item_bits(old(flows).state(), decisions@, *item, array, packed).state,
            r@ == self.item_bits(old(flows).state(), decisions@, *item, array, packed).sources,
        decreases item, 0int, 0int,
    {
        let context: usize = match item.value.facts.width {
            Some(width) => width,
            None => packed.length,
        };
        self.eval_expr_requested_in(flows, decisions, &item.value, array, packed, context)
    }

    fn project_item_copy(&self, flows: &mut Flows, decisions: &Vec<Decision>, item: &Operand, copy: RepeatedFragment, packed: PackedSpan) -> (r: Vec<FlowRef>)
        requires
            self.wf(),
            packed.wf(),
        ensures
            final(flows).state() == self.item_copy_bits(old(flows).state(), decisions@, *item, copy, packed).state,
            r@ == self.item_copy_bits(old(flows).state(), decisions@, *item, copy, packed).sources,
        decreases item, 1int, 0int,
    {
        let found = self.project_item(flows, decisions, item, ArraySpan { start: copy.local_start, length: copy.length }, packed);
        change_all(&found, move_array(copy.output_start))
    }

    fn project_copies(
        &self,
        flows: &mut Flows,
        decisions: &Vec<Decision>,
        item: &Operand,
        fragment: LiteralFragment,
        array: ArraySpan,
        packed: PackedSpan,
    ) -> (r: Vec<FlowRef>)
        requires
            self.wf(),
            packed.wf(),
        ensures
            final(flows).state() == self.copies_bits(old(flows).state(), decisions@, *item, fragment, array, packed).state,
            r@ == self.copies_bits(old(flows).state(), decisions@, *item, fragment, array, packed).sources,
        decreases item, 2int, 0int,
    {
        match project_repeated_span(array.start, array.length, fragment.start, fragment.item_length, fragment.repeat) {
            RepeatedProjection::Empty => Vec::new(),
            RepeatedProjection::Exact { first, second } => {
                let mut r = self.project_item_copy(flows, decisions, item, first, packed);
                if let Some(second) = second {
                    let more = self.project_item_copy(flows, decisions, item, second, packed);
                    extend(&mut r, &more);
                }
                r
            },
            RepeatedProjection::Periodic => {
                let inner = self.project_item(flows, decisions, item, ArraySpan { start: 0, length: fragment.item_length }, packed);
                match fragment.length {
                    Some(length) => self.regular_array_repeat(flows, &inner, packed, fragment.start, length, fragment.item_length),
                    None => change_all(&inner, Change::ForgetArray),
                }
            },
        }
    }

    fn project_items(
        &self,
        flows: &mut Flows,
        decisions: &Vec<Decision>,
        items: &Vec<Operand>,
        fragments: &Vec<LiteralFragment>,
        array: ArraySpan,
        packed: PackedSpan,
    ) -> (r: Vec<FlowRef>)
        requires
            self.wf(),
            packed.wf(),
            shapes::items_in(fragments@, items@.len() as int),
        ensures
            final(flows).state() == self.items_bits(old(flows).state(), decisions@, items@, fragments@, fragments@.len() as int, array, packed).state,
            r@ == self.items_bits(old(flows).state(), decisions@, items@, fragments@, fragments@.len() as int, array, packed).sources,
        decreases items, 3int, 0int,
    {
        let ghost start = flows.state();
        let mut r: Vec<FlowRef> = Vec::new();
        let mut i: usize = 0;
        while i < fragments.len()
            invariant
                i <= fragments@.len(),
                self.wf(),
                packed.wf(),
                shapes::items_in(fragments@, items@.len() as int),
                flows.state() == self.items_bits(start, decisions@, items@, fragments@, i as int, array, packed).state,
                r@ == self.items_bits(start, decisions@, items@, fragments@, i as int, array, packed).sources,
            decreases fragments@.len() - i,
        {
            let fragment = fragments[i];
            assert(fragments@[i as int].item < items@.len());
            let more = self.project_copies(flows, decisions, &items[fragment.item], fragment, array, packed);
            extend(&mut r, &more);
            i = i + 1;
        }
        r
    }

    fn project_literal(
        &self,
        flows: &mut Flows,
        decisions: &Vec<Decision>,
        expression: &Expression,
        items: &Vec<Operand>,
        array: ArraySpan,
        packed: PackedSpan,
    ) -> (r: Vec<FlowRef>)
        requires
            self.wf(),
            packed.wf(),
        ensures
            final(flows).state() == self.literal_bits(old(flows).state(), decisions@, *expression, items@, array, packed).state,
            r@ == self.literal_bits(old(flows).state(), decisions@, *expression, items@, array, packed).sources,
        decreases items, 4int, 0int,
    {
        let end: usize = match array.end() {
            Some(end) => end,
            None => {
                return self.eval_wide(flows, decisions, expression);
            },
        };
        let extent = expression_array_extent(expression);
        let mut strict: Option<Vec<LiteralFragment>> = None;
        if let Some(total) = extent {
            if end <= total {
                strict = array_projection_layout(items, true, total);
            }
        }
        if let Some(fragments) = strict {
            let controls = self.eval_repeats(flows, decisions, items, true);
            let mut r = to_wide(&controls);
            let more = self.project_items(flows, decisions, items, &fragments, array, packed);
            extend(&mut r, &more);
            return r;
        }
        let known: usize = match extent {
            Some(total) => total,
            None => 1,
        };
        let total: usize = if known < end {
            end
        } else {
            known
        };
        match array_projection_layout(items, false, total) {
            Some(fragments) => {
                let controls = self.eval_repeats(flows, decisions, items, false);
                let mut r = to_wide(&controls);
                let more = self.project_items(flows, decisions, items, &fragments, array, packed);
                extend(&mut r, &more);
                r
            },
            None => self.eval_wide(flows, decisions, expression),
        }
    }
}

} // verus!
