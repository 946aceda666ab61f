//! Which nodes of the parent a region of an instance corresponds to.
use vstd::prelude::*;
use crate::arena::PathCondition;
use crate::fragments;
use crate::fragments::{coerced_input_contiguous_actual_fragments, contiguous_actual_fragment, translate_actual_fragments, ActualFragment, ActualFragmentLayout, Port, PortActual, SummaryRegion, TranslatedFragmentAccess};
use crate::ir::Region;
use crate::layout;
use crate::layout::filtered_actual_keys;
use crate::order;
use crate::partition;
use crate::partition::{BitPartition, NodeKey};
use crate::projection::{PeriodicArrayFilter, StaticArrayFilters};
use crate::relation::PositionRelation;
use crate::span::{signed_difference, translate_packed_span, translate_position, ArraySpan, PackedSpan};

verus! {

/// A node of the parent, with what is added to a position of the child for that of the parent.
#[derive(Clone, Copy, Debug, PartialEq, Eq, Structural)]
pub struct MappedNode {
    pub key: NodeKey,
    pub offset: PositionRelation,
    /// The region of the child that corresponds to the node, where it is known.
    pub child_domain: Option<SummaryRegion>,
    pub condition: PathCondition,
}

/// A node that an actual reads, under a condition.
#[derive(Clone, Copy, Debug, PartialEq, Eq, Structural)]
pub struct RegionSource {
    pub key: NodeKey,
    /// What leads from a position of the actual to that of the node, where one offset does.
    pub offset: Option<SourceOffset>,
    pub condition: PathCondition,
}

/// What is added to a position of the actual for that of the node.
#[derive(Clone, Copy, Debug, PartialEq, Eq, Structural)]
pub struct SourceOffset {
    pub array: isize,
    pub packed: isize,
}

/// Which way a port is looked through.
#[derive(Clone, Copy, Debug, PartialEq, Eq, Structural)]
pub enum PortDirection {
    Input,
    Output,
}

/// A variable that a port is connected to, with the regions that may be selected.
pub struct PortAccess {
    pub parent: u64,
    pub regions: Vec<Region>,
    /// All coordinates are constant.
    pub constant: bool,
    pub filters: StaticArrayFilters,
}

/// How a variable of the child is connected.
pub struct Endpoint {
    /// The variable, where it is known.
    pub port: Option<Port>,
    /// What an interface member is bound to.
    pub binding: Option<PortActual>,
    /// The actuals of an output, laid out by the bits of the port, with their filters.
    pub output: Option<ActualFragmentLayout>,
    pub output_filters: Vec<StaticArrayFilters>,
    /// The range that an input takes.
    pub input: Option<PortActual>,
    /// The variable that an input or an output is connected to.
    pub actual: Option<PortAccess>,
}

/// The part of the child that a region of the parent's node is seen as.
pub enum RegionProjection {
    Exact(SummaryRegion),
    Disjoint,
    Unknown,
}

/// The elements moved by `offset`, where there are some and they fit.
pub open spec fn moved_elements(span: ArraySpan, offset: int) -> Option<ArraySpan> {
    if span.length > 0 && 0 <= span.start + offset && span.start + offset + span.length
        <= usize::MAX {
        Some(ArraySpan { start: (span.start + offset) as usize, length: span.length })
    } else {
        None
    }
}

/// The bits moved by `offset`, where they fit.
pub open spec fn moved_bits(span: PackedSpan, offset: int) -> Option<PackedSpan> {
    if 0 <= span.start + offset && span.start + offset + span.length <= usize::MAX {
        Some(PackedSpan { start: (span.start + offset) as usize, length: span.length })
    } else {
        None
    }
}

fn move_elements(span: ArraySpan, offset: isize) -> (r: Option<ArraySpan>)
    ensures
        r == moved_elements(span, offset as int),
{
    match translate_position(span.start, offset) {
        Some(start) => if span.length != 0 && start.checked_add(span.length).is_some() {
            Some(ArraySpan { start, length: span.length })
        } else {
            None
        },
        None => None,
    }
}

fn negated(offset: isize) -> (r: Option<isize>)
    ensures
        r is Some <==> offset != isize::MIN,
        r matches Some(n) ==> n == -offset,
{
    if offset == isize::MIN {
        None
    } else {
        Some(-offset)
    }
}

/// The packed bits of a node.
pub open spec fn key_span_of(partition: BitPartition, key: NodeKey) -> Option<PackedSpan> {
    if partition.is_node(key) {
        let i = choose|i: int|
            0 <= i < partition.regions@.len() && (#[trigger] partition.regions@[i]).id == key.id
                && partition.regions@[i].array == key.array && key.index
                < partition.regions@[i].packed@.len();
        Some(partition.regions@[i].packed@[key.index as int])
    } else {
        None
    }
}

/// The packed bits of a node; nothing where there is no such node.
pub fn key_span(partition: &BitPartition, key: NodeKey) -> (r: Option<PackedSpan>)
    requires
        partition.wf(),
    ensures
        r == key_span_of(*partition, key),
        r matches Some(span) ==> span.wf(),
{
    match partition.ranges_of(key.id, key.array) {
        Some(ranges) => {
            let ghost i = choose|i: int|
                0 <= i < partition.regions@.len() && (#[trigger] partition.regions@[i]).id == key.id
                    && partition.regions@[i].array == key.array && partition.regions@[i].packed
                    == *ranges;
            proof {
                assert(partition::spans_ascend(partition.regions@[i].packed@));
                if partition.is_node(key) {
                    let j = choose|j: int|
                        0 <= j < partition.regions@.len() && (#[trigger] partition.regions@[j]).id == key.id
                            && partition.regions@[j].array == key.array && key.index
                            < partition.regions@[j].packed@.len();
                    if i < j {
                        assert(partition::region_before(partition.regions@[i], partition.regions@[j]));
                    } else if j < i {
                        assert(partition::region_before(partition.regions@[j], partition.regions@[i]));
                    }
                }
            }
            if key.index < ranges.len() {
                assert(partition.regions@[i].id == key.id && key.index < partition.regions@[i].packed@.len());
                Some(ranges[key.index])
            } else {
                None
            }
        },
        None => None,
    }
}

/// The elements of the child that the elements of a node are seen as.
pub open spec fn seen_elements(node: MappedNode) -> Option<ArraySpan> {
    match node.offset.array {
        Some(offset) => if offset == isize::MIN {
            None
        } else {
            moved_elements(node.key.array, -offset)
        },
        None => match node.child_domain {
            Some(domain) => Some(domain.array),
            None => None,
        },
    }
}

/// The bits of the child that the bits of a node are seen as.
pub open spec fn seen_bits(node: MappedNode, packed: PackedSpan) -> Option<PackedSpan> {
    match node.offset.packed {
        Some(offset) => if offset == isize::MIN {
            None
        } else {
            moved_bits(packed, -offset)
        },
        None => match node.child_domain {
            Some(domain) => Some(domain.packed),
            None => None,
        },
    }
}

/// The region of `source` on which the part of `destination` depends that is seen as `array` and
/// `packed`, where the dependency moves positions by fixed offsets.
pub open spec fn source_of(
    source: SummaryRegion,
    destination: SummaryRegion,
    array_offset: isize,
    packed_offset: isize,
    array: ArraySpan,
    packed: PackedSpan,
) -> RegionProjection {
    match (array.common(destination.array), packed.common(destination.packed)) {
        (Some(array), Some(packed)) => if array_offset == isize::MIN || packed_offset
            == isize::MIN {
            RegionProjection::Unknown
        } else {
            match (moved_elements(array, -array_offset), moved_bits(packed, -packed_offset)) {
                (Some(array), Some(packed)) => match (
                    array.common(source.array),
                    packed.common(source.packed),
                ) {
                    (Some(array), Some(packed)) => RegionProjection::Exact(
                        SummaryRegion { id: source.id, array, packed },
                    ),
                    _ => RegionProjection::Disjoint,
                },
                _ => RegionProjection::Unknown,
            }
        },
        _ => RegionProjection::Disjoint,
    }
}

/// The region of the child's source on which a node depends.
pub open spec fn projected_source(
    source: SummaryRegion,
    destination: SummaryRegion,
    array_offset: isize,
    packed_offset: isize,
    node: MappedNode,
    partition: BitPartition,
) -> RegionProjection {
    match key_span_of(partition, node.key) {
        None => RegionProjection::Unknown,
        Some(packed) => match (seen_elements(node), seen_bits(node, packed)) {
            (Some(array), Some(packed)) => source_of(
                source,
                destination,
                array_offset,
                packed_offset,
                array,
                packed,
            ),
            _ => RegionProjection::Unknown,
        },
    }
}

/// The domain that a node has of the child is well formed.
pub open spec fn mapped_wf(node: MappedNode) -> bool {
    node.child_domain matches Some(domain) ==> domain.packed.wf()
}

/// The region of the child's source on which a node depends that a region of the child drives.
pub fn child_source_region_for_destination(
    source: SummaryRegion,
    destination: SummaryRegion,
    array_offset: isize,
    packed_offset: isize,
    node: &MappedNode,
    partition: &BitPartition,
) -> (r: RegionProjection)
    requires
        partition.wf(),
        source.packed.wf(),
        destination.packed.wf(),
        mapped_wf(*node),
    ensures
        r == projected_source(source, destination, array_offset, packed_offset, *node, *partition),
        r matches RegionProjection::Exact(region) ==> region.packed.wf(),
{
    let parent_packed = match key_span(partition, node.key) {
        Some(span) => span,
        None => {
            return RegionProjection::Unknown;
        },
    };
    let array = match node.offset.array {
        Some(offset) => match negated(offset) {
            Some(offset) => match move_elements(node.key.array, offset) {
                Some(span) => span,
                None => {
                    return RegionProjection::Unknown;
                },
            },
            None => {
                return RegionProjection::Unknown;
            },
        },
        None => match node.child_domain {
            Some(domain) => domain.array,
            None => {
                return RegionProjection::Unknown;
            },
        },
    };
    let packed = match node.offset.packed {
        Some(offset) => match negated(offset) {
            Some(offset) => match translate_packed_span(parent_packed, offset) {
                Some(span) => span,
                None => {
                    return RegionProjection::Unknown;
                },
            },
            None => {
                return RegionProjection::Unknown;
            },
        },
        None => match node.child_domain {
            Some(domain) => domain.packed,
            None => {
                return RegionProjection::Unknown;
            },
        },
    };
    assert(seen_elements(*node) == Some(array));
    assert(seen_bits(*node, parent_packed) == Some(packed));
    let array = match array.intersection(destination.array) {
        Some(span) => span,
        None => {
            return RegionProjection::Disjoint;
        },
    };
    let packed = match packed.intersection(destination.packed) {
        Some(span) => span,
        None => {
            return RegionProjection::Disjoint;
        },
    };
    let (array_offset, packed_offset) = match (negated(array_offset), negated(packed_offset)) {
        (Some(array), Some(packed)) => (array, packed),
        _ => {
            return RegionProjection::Unknown;
        },
    };
    let array = match move_elements(array, array_offset) {
        Some(span) => span,
        None => {
            return RegionProjection::Unknown;
        },
    };
    let packed = match translate_packed_span(packed, packed_offset) {
        Some(span) => span,
        None => {
            return RegionProjection::Unknown;
        },
    };
    match (array.intersection(source.array), packed.intersection(source.packed)) {
        (Some(array), Some(packed)) => RegionProjection::Exact(
            SummaryRegion { id: source.id, array, packed },
        ),
        _ => RegionProjection::Disjoint,
    }
}

/// The filters of an actual; none where there are none for it.
pub open spec fn filters_for(filters: Seq<StaticArrayFilters>, actual: int) -> Seq<
    PeriodicArrayFilter,
> {
    if actual < filters.len() {
        filters[actual].filters@
    } else {
        Seq::empty()
    }
}

/// One of the accesses touches the node.
pub open spec fn maps_access(
    accesses: Seq<TranslatedFragmentAccess>,
    filters: Seq<StaticArrayFilters>,
    partition: BitPartition,
    node: MappedNode,
) -> bool {
    exists|i: int|
        0 <= i < accesses.len() && #[trigger] maps_one(accesses[i], filters, partition, node)
}

pub open spec fn maps_one(
    access: TranslatedFragmentAccess,
    filters: Seq<StaticArrayFilters>,
    partition: BitPartition,
    node: MappedNode,
) -> bool {
    &&& partition.selects(access.parent, access.array, access.packed, node.key)
    &&& layout::filter_keeps(
        node.key.array,
        access.array,
        filters_for(filters, access.actual as int),
    )
    &&& node == (MappedNode {
        key: node.key,
        offset: access.offset,
        child_domain: Some(access.child_domain),
        condition: PathCondition { node: 0 },
    })
}

/// The nodes that accesses of the parent touch.
pub fn map_translated_fragment_accesses(
    accesses: &Vec<TranslatedFragmentAccess>,
    filters: &Vec<StaticArrayFilters>,
    partition: &BitPartition,
) -> (r: Vec<MappedNode>)
    requires
        partition.wf(),
        fragments::translated_wf(accesses@),
    ensures
        forall|node: MappedNode| #[trigger]
            r@.contains(node) <==> maps_access(accesses@, filters@, *partition, node),
{
    let none = StaticArrayFilters { filters: Vec::new() };
    let mut r: Vec<MappedNode> = Vec::new();
    let mut i: usize = 0;
    while i < accesses.len()
        invariant
            i <= accesses@.len(),
            partition.wf(),
            none.filters@.len() == 0,
            fragments::translated_wf(accesses@),
            forall|node: MappedNode| #[trigger]
                r@.contains(node) <==> maps_access(accesses@.take(i as int), filters@, *partition, node),
        decreases accesses@.len() - i,
    {
        let access = accesses[i];
        let ghost before = r@;
        assert(accesses@[i as int].packed.wf());
        let filter = if access.actual < filters.len() {
            &filters[access.actual]
        } else {
            &none
        };
        assert(filter.filters@ =~= filters_for(filters@, access.actual as int));
        let keys = filtered_actual_keys(partition, access.parent, access.array, access.packed, filter);
        let mut k: usize = 0;
        while k < keys.len()
            invariant
                k <= keys@.len(),
                forall|node: MappedNode| #[trigger]
                    r@.contains(node) <==> before.contains(node) || (keys@.take(k as int).contains(node.key) && node == mapped_by(access, node.key)),
            decreases keys@.len() - k,
        {
            let node = MappedNode {
                key: keys[k],
                offset: access.offset,
                child_domain: Some(access.child_domain),
                condition: PathCondition { node: 0 },
            };
            let ghost now = r@;
            r.push(node);
            proof {
                assert(keys@.take(k + 1) =~= keys@.take(k as int).push(keys@[k as int]));
                assert forall|n: MappedNode| #[trigger] r@.contains(n) <==> before.contains(n) || (keys@.take(k + 1).contains(n.key) && n == mapped_by(access, n.key)) by {
                    partition::lemma_contains_push(now, node, n);
                    partition::lemma_contains_push(keys@.take(k as int), keys@[k as int], n.key);
                }
            }
            k = k + 1;
        }
        proof {
            assert(keys@.take(k as int) =~= keys@);
            assert forall|node: MappedNode| #[trigger] r@.contains(node) <==> maps_access(accesses@.take(i + 1), filters@, *partition, node) by {
                let taken = accesses@.take(i as int);
                let longer = accesses@.take(i + 1);
                if maps_access(taken, filters@, *partition, node) {
                    let z = choose|z: int| 0 <= z < taken.len() && #[trigger] maps_one(taken[z], filters@, *partition, node);
                    assert(maps_one(longer[z], filters@, *partition, node));
                }
                if keys@.contains(node.key) && node == mapped_by(access, node.key) {
                    assert(maps_one(longer[i as int], filters@, *partition, node));
                }
                if maps_access(longer, filters@, *partition, node) {
                    let z = choose|z: int| 0 <= z < longer.len() && #[trigger] maps_one(longer[z], filters@, *partition, node);
                    if z < i {
                        assert(maps_one(taken[z], filters@, *partition, node));
                    }
                }
            }
        }
        i = i + 1;
    }
    assert(accesses@.take(i as int) =~= accesses@);
    r
}

spec fn mapped_by(access: TranslatedFragmentAccess, key: NodeKey) -> MappedNode {
    MappedNode {
        key,
        offset: access.offset,
        child_domain: Some(access.child_domain),
        condition: PathCondition { node: 0 },
    }
}

/// What a region is translated to where the port has the size of the one region that its actual
/// selects.
pub struct TranslatedSummaryAccess {
    pub array: ArraySpan,
    pub packed: PackedSpan,
    pub offset: SourceOffset,
}

pub open spec fn summary_access_of(region: SummaryRegion, port: Port, actual: PortAccess) -> Option<
    TranslatedSummaryAccess,
> {
    if actual.regions@.len() != 1 || !actual.constant {
        None
    } else {
        let parent = actual.regions@[0];
        let start = region.array.start + parent.array.start;
        match (
            fragments::difference(parent.array.start as int, 0),
            fragments::difference(parent.packed.start as int, 0),
            moved_bits(region.packed, parent.packed.start as int),
        ) {
            (Some(array), Some(packed), Some(moved)) => if port.array == Some(parent.array.length)
                && port.width == Some(parent.packed.length) && start <= usize::MAX
                && region.array.bounded() && region.array.start + region.array.length
                <= parent.array.length && moved.common(parent.packed) is Some {
                Some(
                    TranslatedSummaryAccess {
                        array: ArraySpan { start: start as usize, length: region.array.length },
                        packed: moved.common(parent.packed)->0,
                        offset: SourceOffset { array, packed },
                    },
                )
            } else {
                None
            },
            _ => None,
        }
    }
}

/// What a region is translated to where every coordinate of its actual is constant and nothing is
/// coerced.
pub fn translated_summary_access(region: SummaryRegion, port: Port, actual: &PortAccess) -> (r: Option<
    TranslatedSummaryAccess,
>)
    requires
        region.packed.wf(),
        regions_wf(actual.regions@),
    ensures
        r == summary_access_of(region, port, *actual),
        r matches Some(access) ==> access.packed.wf(),
{
    if actual.regions.len() != 1 || !actual.constant {
        return None;
    }
    let parent = actual.regions[0];
    assert(actual.regions@[0].packed.wf());
    if port.array != Some(parent.array.length) || port.width != Some(parent.packed.length) {
        return None;
    }
    let start: usize = match region.array.start.checked_add(parent.array.start) {
        Some(start) => start,
        None => {
            return None;
        },
    };
    match region.array.end() {
        Some(end) => {
            if end > parent.array.length {
                return None;
            }
        },
        None => {
            return None;
        },
    }
    let moved = match region.packed.translated(0, parent.packed.start) {
        Some(moved) => moved,
        None => {
            return None;
        },
    };
    let packed = match moved.intersection(parent.packed) {
        Some(packed) => packed,
        None => {
            return None;
        },
    };
    match (signed_difference(parent.array.start, 0), signed_difference(parent.packed.start, 0)) {
        (Some(array), Some(low)) => Some(
            TranslatedSummaryAccess {
                array: ArraySpan { start, length: region.array.length },
                packed,
                offset: SourceOffset { array, packed: low },
            },
        ),
        _ => None,
    }
}

pub open spec fn regions_wf(regions: Seq<Region>) -> bool {
    forall|i: int| 0 <= i < regions.len() ==> (#[trigger] regions[i]).packed.wf()
}

/// One of the regions of the actual touches the node.
pub open spec fn actual_touches(actual: PortAccess, partition: BitPartition, key: NodeKey) -> bool {
    exists|i: int|
        0 <= i < actual.regions@.len() && #[trigger] region_touches(
            actual,
            actual.regions@[i],
            partition,
            key,
        )
}

pub open spec fn region_touches(
    actual: PortAccess,
    region: Region,
    partition: BitPartition,
    key: NodeKey,
) -> bool {
    partition.selects(actual.parent, region.array, region.packed, key) && layout::filter_keeps(
        key.array,
        region.array,
        actual.filters.filters@,
    )
}

/// The node is one to which a region of a port corresponds that is connected to a variable.
pub open spec fn maps_actual(
    region: SummaryRegion,
    port: Port,
    actual: PortAccess,
    partition: BitPartition,
    node: MappedNode,
) -> bool {
    &&& node.child_domain is None
    &&& node.condition == (PathCondition { node: 0 })
    &&& match summary_access_of(region, port, actual) {
        Some(access) => partition.selects(
            actual.parent,
            access.array,
            access.packed,
            node.key,
        ) && node.offset == (PositionRelation {
            array: Some(access.offset.array),
            packed: Some(access.offset.packed),
        }),
        None => actual_touches(actual, partition, node.key) && node.offset
            == PositionRelation::anything(),
    }
}

/// The nodes to which a region of a port corresponds that is connected to a variable: those of the
/// translated region, or all that the actual may touch.
pub fn map_summary_region(
    region: SummaryRegion,
    port: Port,
    actual: &PortAccess,
    partition: &BitPartition,
) -> (r: Vec<MappedNode>)
    requires
        partition.wf(),
        region.packed.wf(),
        regions_wf(actual.regions@),
    ensures
        forall|node: MappedNode| #[trigger]
            r@.contains(node) <==> maps_actual(region, port, *actual, *partition, node),
{
    let translated = translated_summary_access(region, port, actual);
    let mut keys: Vec<NodeKey> = Vec::new();
    let mut offset = PositionRelation::whole();
    match translated {
        Some(access) => {
            keys = partition.overlapping_access(actual.parent, access.array, access.packed);
            offset = PositionRelation {
                array: Some(access.offset.array),
                packed: Some(access.offset.packed),
            };
        },
        None => {
            let mut i: usize = 0;
            while i < actual.regions.len()
                invariant
                    i <= actual.regions@.len(),
                    partition.wf(),
                    regions_wf(actual.regions@),
                    forall|key: NodeKey| #[trigger]
                        keys@.contains(key) <==> exists|k: int|
                            0 <= k < i && #[trigger] region_touches(*actual, actual.regions@[k], *partition, key),
                decreases actual.regions@.len() - i,
            {
                let ghost before = keys@;
                let part = actual.regions[i];
                assert(actual.regions@[i as int].packed.wf());
                let more = filtered_actual_keys(partition, actual.parent, part.array, part.packed, &actual.filters);
                append_keys(&mut keys, &more);
                proof {
                    assert forall|key: NodeKey| #[trigger] keys@.contains(key) <==> exists|k: int|
                        0 <= k < i + 1 && #[trigger] region_touches(*actual, actual.regions@[k], *partition, key) by {
                        if before.contains(key) {
                            let k = choose|k: int| 0 <= k < i && #[trigger] region_touches(*actual, actual.regions@[k], *partition, key);
                            assert(0 <= k < i + 1 && region_touches(*actual, actual.regions@[k], *partition, key));
                        }
                        if more@.contains(key) {
                            assert(region_touches(*actual, actual.regions@[i as int], *partition, key));
                        }
                    }
                }
                i = i + 1;
            }
            proof {
                assert forall|key: NodeKey| #[trigger] keys@.contains(key) <==> actual_touches(*actual, *partition, key) by {
                }
            }
        },
    }
    let sorted = order::sort_dedup(&keys);
    let mut r: Vec<MappedNode> = Vec::new();
    let mut k: usize = 0;
    while k < sorted.len()
        invariant
            k <= sorted@.len(),
            forall|node: MappedNode| #[trigger]
                r@.contains(node) <==> sorted@.take(k as int).contains(node.key) && node == plain_node(node.key, offset),
        decreases sorted@.len() - k,
    {
        let node = MappedNode { key: sorted[k], offset, child_domain: None, condition: PathCondition { node: 0 } };
        let ghost now = r@;
        r.push(node);
        proof {
            assert(sorted@.take(k + 1) =~= sorted@.take(k as int).push(sorted@[k as int]));
            assert forall|n: MappedNode| #[trigger] r@.contains(n) <==> sorted@.take(k + 1).contains(n.key) && n == plain_node(n.key, offset) by {
                partition::lemma_contains_push(now, node, n);
                partition::lemma_contains_push(sorted@.take(k as int), sorted@[k as int], n.key);
            }
        }
        k = k + 1;
    }
    proof {
        assert(sorted@.take(k as int) =~= sorted@);
        assert forall|node: MappedNode| #[trigger] r@.contains(node) <==> maps_actual(region, port, *actual, *partition, node) by {
            assert(sorted@.contains(node.key) <==> keys@.contains(node.key));
        }
    }
    r
}

spec fn plain_node(key: NodeKey, offset: PositionRelation) -> MappedNode {
    MappedNode { key, offset, child_domain: None, condition: PathCondition { node: 0 } }
}

fn append_keys(keys: &mut Vec<NodeKey>, more: &Vec<NodeKey>)
    ensures
        forall|key: NodeKey| #[trigger]
            final(keys)@.contains(key) <==> old(keys)@.contains(key) || more@.contains(key),
{
    let ghost start = keys@;
    let mut i: usize = 0;
    while i < more.len()
        invariant
            i <= more@.len(),
            forall|key: NodeKey| #[trigger]
                keys@.contains(key) <==> start.contains(key) || more@.take(i as int).contains(key),
        decreases more@.len() - i,
    {
        let ghost before = keys@;
        keys.push(more[i]);
        proof {
            assert(more@.take(i + 1) =~= more@.take(i as int).push(more@[i as int]));
            assert forall|key: NodeKey| #[trigger] keys@.contains(key) <==> start.contains(key) || more@.take(i + 1).contains(key) by {
                partition::lemma_contains_push(before, more@[i as int], key);
                partition::lemma_contains_push(more@.take(i as int), more@[i as int], key);
            }
        }
        i = i + 1;
    }
    assert(more@.take(i as int) =~= more@);
}

impl Endpoint {
    pub open spec fn wf(self) -> bool {
        &&& self.output matches Some(layout) ==> layout.wf()
        &&& self.actual matches Some(actual) ==> regions_wf(actual.regions@)
    }
}

/// The accesses through the binding of an interface member, where it has one of its size.
pub open spec fn binding_accesses(endpoint: Endpoint, region: SummaryRegion) -> Option<
    Seq<TranslatedFragmentAccess>,
> {
    match (endpoint.port, endpoint.binding) {
        (Some(port), Some(binding)) => match fragments::contiguous_of(port, binding) {
            Some(fragment) => fragments::translations(region, seq![fragment], 1),
            None => None,
        },
        _ => None,
    }
}

/// The accesses through the range of an input.
pub open spec fn input_accesses(endpoint: Endpoint, region: SummaryRegion) -> Option<
    Seq<TranslatedFragmentAccess>,
> {
    match (endpoint.port, endpoint.input) {
        (Some(port), Some(actual)) => match fragments::input_fragments_of(port, actual) {
            Some(list) => fragments::translations(region, list, list.len() as int),
            None => None,
        },
        _ => None,
    }
}

/// The region is translated through the layout of an output.
pub open spec fn through_layout(endpoint: Endpoint, region: SummaryRegion) -> bool {
    endpoint.port is Some && match endpoint.output {
        Some(layout) => !fragments::fails(region, layout.fragments@),
        None => false,
    }
}

/// The node is one of the given sources.
pub open spec fn maps_fallback(fallback: Option<Seq<RegionSource>>, node: MappedNode) -> bool {
    match fallback {
        Some(sources) => maps_source(sources, node),
        None => false,
    }
}

pub open spec fn maps_source(sources: Seq<RegionSource>, node: MappedNode) -> bool {
    exists|i: int| 0 <= i < sources.len() && node == #[trigger] fallback_node(sources[i])
}

pub open spec fn fallback_node(source: RegionSource) -> MappedNode {
    MappedNode {
        key: source.key,
        offset: PositionRelation::anything(),
        child_domain: None,
        condition: source.condition,
    }
}

/// The node corresponds to the region: through a binding, the layout of an output or the range of an
/// input where one applies, else through the variable that the port is connected to, else because
/// it is one of the given sources.
pub open spec fn maps_region(
    endpoint: Endpoint,
    region: SummaryRegion,
    direction: PortDirection,
    fallback: Option<Seq<RegionSource>>,
    partition: BitPartition,
    node: MappedNode,
) -> bool {
    if let Some(list) = binding_accesses(endpoint, region) {
        maps_access(list, Seq::empty(), partition, node)
    } else if direction == PortDirection::Output && through_layout(endpoint, region) {
        maps_given(endpoint.output->0, endpoint.output_filters@, region, partition, node)
    } else if direction == PortDirection::Input && input_accesses(endpoint, region) is Some {
        maps_access(input_accesses(endpoint, region)->0, Seq::empty(), partition, node)
    } else if endpoint.port is Some && endpoint.actual is Some {
        maps_actual(region, endpoint.port->0, endpoint.actual->0, partition, node)
    } else {
        maps_fallback(fallback, node)
    }
}

/// An access that the layout gives touches the node.
pub open spec fn maps_given(
    layout: ActualFragmentLayout,
    filters: Seq<StaticArrayFilters>,
    region: SummaryRegion,
    partition: BitPartition,
    node: MappedNode,
) -> bool {
    exists|access: TranslatedFragmentAccess|
        fragments::gives(region, layout.fragments@, access) && #[trigger] maps_one(
            access,
            filters,
            partition,
            node,
        )
}

/// The accesses through the binding of an interface member.
fn translated_interface_binding_accesses(endpoint: &Endpoint, region: SummaryRegion) -> (r: Option<
    Vec<TranslatedFragmentAccess>,
>)
    requires
        region.packed.wf(),
    ensures
        match r {
            Some(list) => binding_accesses(*endpoint, region) == Some(list@)
                && fragments::translated_wf(list@),
            None => binding_accesses(*endpoint, region) is None,
        },
{
    match (endpoint.port, endpoint.binding) {
        (Some(port), Some(binding)) => match contiguous_actual_fragment(port, binding) {
            Some(fragment) => {
                let mut list: Vec<ActualFragment> = Vec::new();
                list.push(fragment);
                assert(list@ =~= seq![fragment]);
                translate_actual_fragments(region, &list)
            },
            None => None,
        },
        _ => None,
    }
}

/// The accesses through the range of an input.
fn translated_coerced_input_contiguous_actual_accesses(endpoint: &Endpoint, region: SummaryRegion) -> (r:
    Option<Vec<TranslatedFragmentAccess>>)
    requires
        region.packed.wf(),
    ensures
        match r {
            Some(list) => input_accesses(*endpoint, region) == Some(list@)
                && fragments::translated_wf(list@),
            None => input_accesses(*endpoint, region) is None,
        },
{
    match (endpoint.port, endpoint.input) {
        (Some(port), Some(actual)) => match coerced_input_contiguous_actual_fragments(port, actual) {
            Some(list) => translate_actual_fragments(region, &list),
            None => None,
        },
        _ => None,
    }
}

/// The accesses through the layout of an output.
fn translated_output_accesses(endpoint: &Endpoint, region: SummaryRegion) -> (r: Option<
    Vec<TranslatedFragmentAccess>,
>)
    requires
        region.packed.wf(),
        endpoint.wf(),
    ensures
        r is Some <==> through_layout(*endpoint, region),
        r matches Some(list) ==> fragments::translated_wf(list@) && forall|access: TranslatedFragmentAccess| #[trigger]
            list@.contains(access) <==> fragments::gives(region, endpoint.output->0.fragments@, access),
{
    if endpoint.port.is_none() {
        return None;
    }
    match &endpoint.output {
        Some(layout) => layout.translate(region),
        None => None,
    }
}

/// The condition is that of one of the sources, or none at all.
pub open spec fn conditioned(sources: Option<Seq<RegionSource>>, condition: PathCondition) -> bool {
    condition.node == 0 || match sources {
        Some(sources) => has_condition(sources, condition),
        None => false,
    }
}

pub open spec fn has_condition(sources: Seq<RegionSource>, condition: PathCondition) -> bool {
    exists|i: int| 0 <= i < sources.len() && (#[trigger] sources[i]).condition == condition
}

proof fn lemma_accessed_nodes(
    list: Seq<TranslatedFragmentAccess>,
    filters: Seq<StaticArrayFilters>,
    partition: BitPartition,
    nodes: Seq<MappedNode>,
)
    requires
        fragments::translated_wf(list),
        forall|node: MappedNode| #[trigger] nodes.contains(node) <==> maps_access(list, filters, partition, node),
    ensures
        forall|k: int| 0 <= k < nodes.len() ==> mapped_wf(#[trigger] nodes[k]) && nodes[k].condition.node == 0,
{
    assert forall|k: int| 0 <= k < nodes.len() implies mapped_wf(#[trigger] nodes[k]) && nodes[k].condition.node == 0 by {
        assert(nodes.contains(nodes[k]));
        let i = choose|i: int| 0 <= i < list.len() && #[trigger] maps_one(list[i], filters, partition, nodes[k]);
        assert(list[i].child_domain.packed.wf());
    }
}

/// The nodes of the parent to which a region of a variable of the child corresponds.
pub fn instance_region_mapping(
    endpoint: &Endpoint,
    region: SummaryRegion,
    direction: PortDirection,
    fallback: Option<&Vec<RegionSource>>,
    partition: &BitPartition,
) -> (r: Vec<MappedNode>)
    requires
        partition.wf(),
        region.packed.wf(),
        endpoint.wf(),
    ensures
        forall|node: MappedNode| #[trigger]
            r@.contains(node) <==> maps_region(
                *endpoint,
                region,
                direction,
                match fallback {
                    Some(sources) => Some(sources@),
                    None => None,
                },
                *partition,
                node,
            ),
        forall|k: int|
            0 <= k < r@.len() ==> mapped_wf(#[trigger] r@[k]) && conditioned(
                sources_view(fallback),
                r@[k].condition,
            ),
{
    let none: Vec<StaticArrayFilters> = Vec::new();
    if let Some(list) = translated_interface_binding_accesses(endpoint, region) {
        assert(none@ =~= Seq::empty());
        let r = map_translated_fragment_accesses(&list, &none, partition);
        proof {
            lemma_accessed_nodes(list@, none@, *partition, r@);
        }
        return r;
    }
    if direction == PortDirection::Output {
        if let Some(list) = translated_output_accesses(endpoint, region) {
            let r = map_translated_fragment_accesses(&list, &endpoint.output_filters, partition);
            proof {
                lemma_accessed_nodes(list@, endpoint.output_filters@, *partition, r@);
                assert forall|node: MappedNode| #[trigger] r@.contains(node) <==> maps_given(endpoint.output->0, endpoint.output_filters@, region, *partition, node) by {
                    if maps_access(list@, endpoint.output_filters@, *partition, node) {
                        let i = choose|i: int| 0 <= i < list@.len() && #[trigger] maps_one(list@[i], endpoint.output_filters@, *partition, node);
                        assert(list@.contains(list@[i]));
                        assert(fragments::gives(region, endpoint.output->0.fragments@, list@[i]));
                    }
                    if maps_given(endpoint.output->0, endpoint.output_filters@, region, *partition, node) {
                        let access = choose|access: TranslatedFragmentAccess|
                            fragments::gives(region, endpoint.output->0.fragments@, access) && #[trigger] maps_one(access, endpoint.output_filters@, *partition, node);
                        assert(list@.contains(access));
                        let i = choose|i: int| 0 <= i < list@.len() && list@[i] == access;
                        assert(maps_one(list@[i], endpoint.output_filters@, *partition, node));
                    }
                }
            }
            return r;
        }
    } else {
        if let Some(list) = translated_coerced_input_contiguous_actual_accesses(endpoint, region) {
            assert(none@ =~= Seq::empty());
            let r = map_translated_fragment_accesses(&list, &none, partition);
            proof {
                lemma_accessed_nodes(list@, none@, *partition, r@);
            }
            return r;
        }
    }
    if let Some(port) = endpoint.port {
        if let Some(actual) = &endpoint.actual {
            let r = map_summary_region(region, port, actual, partition);
            proof {
                assert forall|k: int| 0 <= k < r@.len() implies mapped_wf(#[trigger] r@[k]) && conditioned(sources_view(fallback), r@[k].condition) by {
                    assert(r@.contains(r@[k]));
                }
            }
            return r;
        }
    }
    let mut r: Vec<MappedNode> = Vec::new();
    if let Some(sources) = fallback {
        let mut i: usize = 0;
        while i < sources.len()
            invariant
                i <= sources@.len(),
                forall|node: MappedNode| #[trigger]
                    r@.contains(node) <==> maps_source(sources@.take(i as int), node),
                fallback == Some(sources),
                forall|k: int|
                    0 <= k < r@.len() ==> mapped_wf(#[trigger] r@[k]) && conditioned(
                        sources_view(fallback),
                        r@[k].condition,
                    ),
            decreases sources@.len() - i,
        {
            let ghost before = r@;
            let node = MappedNode {
                key: sources[i].key,
                offset: PositionRelation::whole(),
                child_domain: None,
                condition: sources[i].condition,
            };
            r.push(node);
            proof {
                assert(sources@[i as int].condition == node.condition);
                let taken = sources@.take(i as int);
                let longer = sources@.take(i + 1);
                assert forall|n: MappedNode| #[trigger] r@.contains(n) <==> maps_source(longer, n) by {
                    partition::lemma_contains_push(before, node, n);
                    if maps_source(taken, n) {
                        let k = choose|k: int| 0 <= k < taken.len() && n == #[trigger] fallback_node(taken[k]);
                        assert(n == fallback_node(longer[k]));
                    }
                    if n == node {
                        assert(n == fallback_node(longer[i as int]));
                    }
                    if maps_source(longer, n) {
                        let k = choose|k: int| 0 <= k < longer.len() && n == #[trigger] fallback_node(longer[k]);
                        if k < i {
                            assert(n == fallback_node(taken[k]));
                        }
                    }
                }
            }
            i = i + 1;
        }
        assert(sources@.take(i as int) =~= sources@);
    }
    r
}

/// The access lies in the parent where the region of the child is translated to.
pub open spec fn touches_parent(
    endpoint: Endpoint,
    region: SummaryRegion,
    direction: PortDirection,
    access: partition::RegionAccess,
) -> bool {
    if let Some(list) = binding_accesses(endpoint, region) {
        lists_access(list, access)
    } else if direction == PortDirection::Output && through_layout(endpoint, region) {
        exists|t: TranslatedFragmentAccess|
            #[trigger] fragments::gives(region, endpoint.output->0.fragments@, t) && access == parent_access(t)
    } else if direction == PortDirection::Input && input_accesses(endpoint, region) is Some {
        lists_access(input_accesses(endpoint, region)->0, access)
    } else if endpoint.port is Some && endpoint.actual is Some {
        match summary_access_of(region, endpoint.port->0, endpoint.actual->0) {
            Some(t) => access == (partition::RegionAccess {
                id: endpoint.actual->0.parent,
                array: t.array,
                packed: t.packed,
            }),
            None => false,
        }
    } else {
        false
    }
}

pub open spec fn parent_access(t: TranslatedFragmentAccess) -> partition::RegionAccess {
    partition::RegionAccess { id: t.parent, array: t.array, packed: t.packed }
}

pub open spec fn lists_access(list: Seq<TranslatedFragmentAccess>, access: partition::RegionAccess) -> bool {
    exists|i: int| 0 <= i < list.len() && access == #[trigger] parent_access(list[i])
}

fn parent_accesses(list: &Vec<TranslatedFragmentAccess>) -> (r: Vec<partition::RegionAccess>)
    ensures
        forall|access: partition::RegionAccess| #[trigger]
            r@.contains(access) <==> lists_access(list@, access),
{
    let mut r: Vec<partition::RegionAccess> = Vec::new();
    let mut i: usize = 0;
    while i < list.len()
        invariant
            i <= list@.len(),
            r@.len() == i,
            forall|k: int| 0 <= k < i ==> #[trigger] r@[k] == parent_access(list@[k]),
        decreases list@.len() - i,
    {
        r.push(partition::RegionAccess { id: list[i].parent, array: list[i].array, packed: list[i].packed });
        i = i + 1;
    }
    proof {
        assert forall|access: partition::RegionAccess| #[trigger] r@.contains(access) <==> lists_access(list@, access) by {
            if r@.contains(access) {
                let k = choose|k: int| 0 <= k < r@.len() && r@[k] == access;
                assert(access == parent_access(list@[k]));
            }
            if lists_access(list@, access) {
                let k = choose|k: int| 0 <= k < list@.len() && access == #[trigger] parent_access(list@[k]);
                assert(r@[k] == access);
            }
        }
    }
    r
}

/// The accesses of the parent through which a summary of the child is used.
pub fn summary_parent_accesses(endpoint: &Endpoint, region: SummaryRegion, direction: PortDirection) -> (r: Vec<
    partition::RegionAccess,
>)
    requires
        region.packed.wf(),
        endpoint.wf(),
    ensures
        forall|access: partition::RegionAccess| #[trigger]
            r@.contains(access) <==> touches_parent(*endpoint, region, direction, access),
{
    if let Some(list) = translated_interface_binding_accesses(endpoint, region) {
        return parent_accesses(&list);
    }
    if direction == PortDirection::Output {
        if let Some(list) = translated_output_accesses(endpoint, region) {
            let r = parent_accesses(&list);
            proof {
                assert forall|access: partition::RegionAccess| #[trigger] r@.contains(access) <==> touches_parent(*endpoint, region, direction, access) by {
                    if lists_access(list@, access) {
                        let k = choose|k: int| 0 <= k < list@.len() && access == #[trigger] parent_access(list@[k]);
                        assert(list@.contains(list@[k]));
                        assert(fragments::gives(region, endpoint.output->0.fragments@, list@[k]));
                    }
                    if touches_parent(*endpoint, region, direction, access) {
                        let t = choose|t: TranslatedFragmentAccess|
                            #[trigger] fragments::gives(region, endpoint.output->0.fragments@, t) && access == parent_access(t);
                        assert(list@.contains(t));
                        let k = choose|k: int| 0 <= k < list@.len() && list@[k] == t;
                        assert(access == parent_access(list@[k]));
                    }
                }
            }
            return r;
        }
    } else {
        if let Some(list) = translated_coerced_input_contiguous_actual_accesses(endpoint, region) {
            return parent_accesses(&list);
        }
    }
    let mut r: Vec<partition::RegionAccess> = Vec::new();
    if let Some(port) = endpoint.port {
        if let Some(actual) = &endpoint.actual {
            if let Some(t) = translated_summary_access(region, port, actual) {
                let access = partition::RegionAccess { id: actual.parent, array: t.array, packed: t.packed };
                r.push(access);
                proof {
                    assert forall|a: partition::RegionAccess| #[trigger] r@.contains(a) <==> a == access by {
                        partition::lemma_contains_push(Seq::empty(), access, a);
                        assert(Seq::<partition::RegionAccess>::empty().push(access) =~= r@);
                    }
                }
            }
        }
    }
    r
}

/// A region of a port that was evaluated, with the nodes found.
pub struct EvaluatedRegion {
    pub region: SummaryRegion,
    pub nodes: Vec<MappedNode>,
}

/// Some node of the parent has an exact position on an axis.
pub open spec fn positioned(node: MappedNode) -> bool {
    node.offset.array is Some || node.offset.packed is Some
}

/// The region was evaluated with this node, which is one of those read.
pub open spec fn evaluated_node(
    evaluated: Seq<EvaluatedRegion>,
    region: SummaryRegion,
    allowed: Option<Seq<RegionSource>>,
    node: MappedNode,
) -> bool {
    reads_key(allowed, node.key) && exists|i: int|
        first_evaluated(evaluated, region, i) && (#[trigger] evaluated[i]).nodes@.contains(node)
}

/// The sources have the key.
pub open spec fn reads_key(allowed: Option<Seq<RegionSource>>, key: NodeKey) -> bool {
    match allowed {
        Some(sources) => has_key(sources, key),
        None => false,
    }
}

pub open spec fn has_key(sources: Seq<RegionSource>, key: NodeKey) -> bool {
    exists|i: int| 0 <= i < sources.len() && (#[trigger] sources[i]).key == key
}

/// The first entry for the region.
pub open spec fn first_evaluated(evaluated: Seq<EvaluatedRegion>, region: SummaryRegion, i: int) -> bool {
    &&& 0 <= i < evaluated.len()
    &&& evaluated[i].region == region
    &&& forall|k: int| 0 <= k < i ==> (#[trigger] evaluated[k]).region != region
}

/// The region was evaluated.
pub open spec fn is_evaluated(evaluated: Seq<EvaluatedRegion>, region: SummaryRegion) -> bool {
    exists|i: int| 0 <= i < evaluated.len() && (#[trigger] evaluated[i]).region == region
}

/// Some node to which the region corresponds is positioned.
pub open spec fn some_positioned(
    endpoint: Endpoint,
    region: SummaryRegion,
    allowed: Option<Seq<RegionSource>>,
    partition: BitPartition,
) -> bool {
    exists|node: MappedNode| #[trigger]
        maps_region(endpoint, region, PortDirection::Input, allowed, partition, node) && positioned(node)
}

/// The nodes that a region of an input corresponds to: where its position matters, and no node found
/// without evaluating the actual has one, those that the evaluation found.
pub open spec fn maps_source_region(
    endpoint: Endpoint,
    region: SummaryRegion,
    preserve_position: bool,
    allowed: Option<Seq<RegionSource>>,
    evaluated: Seq<EvaluatedRegion>,
    partition: BitPartition,
    node: MappedNode,
) -> bool {
    if preserve_position && !some_positioned(endpoint, region, allowed, partition)
        && endpoint.input is None && is_evaluated(evaluated, region) {
        evaluated_node(evaluated, region, allowed, node)
    } else {
        maps_region(endpoint, region, PortDirection::Input, allowed, partition, node)
    }
}

pub open spec fn sources_view(allowed: Option<&Vec<RegionSource>>) -> Option<Seq<RegionSource>> {
    match allowed {
        Some(sources) => Some(sources@),
        None => None,
    }
}

/// The domains of the nodes found by evaluation are well formed.
pub open spec fn evaluated_wf(evaluated: Seq<EvaluatedRegion>) -> bool {
    forall|i: int, k: int|
        0 <= i < evaluated.len() && 0 <= k < evaluated[i].nodes@.len() ==> mapped_wf(
            #[trigger] evaluated[i].nodes@[k],
        )
}

/// The condition is that of a node found by evaluation.
pub open spec fn evaluated_condition(evaluated: Seq<EvaluatedRegion>, condition: PathCondition) -> bool {
    exists|i: int, k: int|
        0 <= i < evaluated.len() && 0 <= k < evaluated[i].nodes@.len()
            && (#[trigger] evaluated[i].nodes@[k]).condition == condition
}

/// The nodes that a region of an input corresponds to.
pub fn map_instance_source_region(
    endpoint: &Endpoint,
    region: SummaryRegion,
    preserve_position: bool,
    allowed: Option<&Vec<RegionSource>>,
    evaluated: &Vec<EvaluatedRegion>,
    partition: &BitPartition,
) -> (r: Vec<MappedNode>)
    requires
        partition.wf(),
        region.packed.wf(),
        endpoint.wf(),
        evaluated_wf(evaluated@),
    ensures
        forall|node: MappedNode| #[trigger]
            r@.contains(node) <==> maps_source_region(
                *endpoint,
                region,
                preserve_position,
                sources_view(allowed),
                evaluated@,
                *partition,
                node,
            ),
        forall|k: int|
            0 <= k < r@.len() ==> mapped_wf(#[trigger] r@[k]) && (conditioned(
                sources_view(allowed),
                r@[k].condition,
            ) || evaluated_condition(evaluated@, r@[k].condition)),
{
    let nodes = instance_region_mapping(endpoint, region, PortDirection::Input, allowed, partition);
    let ghost view = sources_view(allowed);
    if !preserve_position || endpoint.input.is_some() {
        return nodes;
    }
    let mut i: usize = 0;
    while i < nodes.len()
        invariant
            i <= nodes@.len(),
            view == sources_view(allowed),
            preserve_position,
            endpoint.input is None,
            forall|node: MappedNode| #[trigger]
                nodes@.contains(node) <==> maps_region(*endpoint, region, PortDirection::Input, view, *partition, node),
            forall|k: int| 0 <= k < i ==> !positioned(#[trigger] nodes@[k]),
            forall|k: int| 0 <= k < nodes@.len() ==> mapped_wf(#[trigger] nodes@[k]) && conditioned(view, nodes@[k].condition),
        decreases nodes@.len() - i,
    {
        if nodes[i].offset.array.is_some() || nodes[i].offset.packed.is_some() {
            proof {
                assert(nodes@.contains(nodes@[i as int]));
                assert(maps_region(*endpoint, region, PortDirection::Input, view, *partition, nodes@[i as int]) && positioned(nodes@[i as int]));
                assert(some_positioned(*endpoint, region, view, *partition));
            }
            return nodes;
        }
        i = i + 1;
    }
    proof {
        if some_positioned(*endpoint, region, view, *partition) {
            let node = choose|node: MappedNode| #[trigger] maps_region(*endpoint, region, PortDirection::Input, view, *partition, node) && positioned(node);
            assert(nodes@.contains(node));
            let k = choose|k: int| 0 <= k < nodes@.len() && nodes@[k] == node;
            assert(!positioned(nodes@[k]));
        }
    }
    let mut e: usize = 0;
    while e < evaluated.len()
        invariant
            e <= evaluated@.len(),
            view == sources_view(allowed),
            preserve_position,
            endpoint.input is None,
            !some_positioned(*endpoint, region, view, *partition),
            evaluated_wf(evaluated@),
            forall|k: int| 0 <= k < e ==> (#[trigger] evaluated@[k]).region != region,
        decreases evaluated@.len() - e,
    {
        if evaluated[e].region == region {
            let r = read_nodes(&evaluated[e].nodes, allowed);
            proof {
                assert forall|k: int| 0 <= k < r@.len() implies mapped_wf(#[trigger] r@[k]) && evaluated_condition(evaluated@, r@[k].condition) by {
                    assert(r@.contains(r@[k]));
                    let found = evaluated@[e as int].nodes@;
                    let at = choose|at: int| 0 <= at < found.len() && found[at] == r@[k];
                    assert(evaluated@[e as int].nodes@[at].condition == r@[k].condition);
                }
                assert(evaluated@[e as int].region == region);
                assert(is_evaluated(evaluated@, region));
                assert(first_evaluated(evaluated@, region, e as int));
                assert forall|node: MappedNode| #[trigger] r@.contains(node) <==> evaluated_node(evaluated@, region, view, node) by {
                    if evaluated_node(evaluated@, region, view, node) {
                        let k = choose|k: int| first_evaluated(evaluated@, region, k) && (#[trigger] evaluated@[k]).nodes@.contains(node);
                        assert(k == e) by {
                            if k < e {
                                assert(evaluated@[k].region != region);
                            } else if e < k {
                                assert(evaluated@[e as int].region != region);
                            }
                        }
                    }
                    if r@.contains(node) {
                        assert(evaluated@[e as int].nodes@.contains(node));
                    }
                }
            }
            return r;
        }
        e = e + 1;
    }
    proof {
        assert(!is_evaluated(evaluated@, region));
    }
    nodes
}

/// The nodes that are read.
fn read_nodes(nodes: &Vec<MappedNode>, allowed: Option<&Vec<RegionSource>>) -> (r: Vec<MappedNode>)
    ensures
        forall|node: MappedNode| #[trigger]
            r@.contains(node) <==> nodes@.contains(node) && reads_key(sources_view(allowed), node.key),
{
    let mut r: Vec<MappedNode> = Vec::new();
    let mut i: usize = 0;
    while i < nodes.len()
        invariant
            i <= nodes@.len(),
            forall|node: MappedNode| #[trigger]
                r@.contains(node) <==> nodes@.take(i as int).contains(node) && reads_key(sources_view(allowed), node.key),
        decreases nodes@.len() - i,
    {
        let node = nodes[i];
        let ghost before = r@;
        let read: bool = match allowed {
            Some(sources) => source_reads(sources, node.key),
            None => false,
        };
        if read {
            r.push(node);
        }
        proof {
            assert(nodes@.take(i + 1) =~= nodes@.take(i as int).push(node));
            assert forall|n: MappedNode| #[trigger] r@.contains(n) <==> nodes@.take(i + 1).contains(n) && reads_key(sources_view(allowed), n.key) by {
                partition::lemma_contains_push(nodes@.take(i as int), node, n);
                if read {
                    partition::lemma_contains_push(before, node, n);
                }
            }
        }
        i = i + 1;
    }
    assert(nodes@.take(i as int) =~= nodes@);
    r
}

fn source_reads(sources: &Vec<RegionSource>, key: NodeKey) -> (r: bool)
    ensures
        r == has_key(sources@, key),
{
    let mut i: usize = 0;
    while i < sources.len()
        invariant
            i <= sources@.len(),
            forall|k: int| 0 <= k < i ==> (#[trigger] sources@[k]).key != key,
        decreases sources@.len() - i,
    {
        if sources[i].key == key {
            assert(sources@[i as int].key == key);
            return true;
        }
        i = i + 1;
    }
    false
}

/// The conditions under which a region corresponds to nodes are those of the given sources.
pub proof fn mapping_keeps_conditions(
    endpoint: Endpoint,
    region: SummaryRegion,
    direction: PortDirection,
    fallback: Option<Seq<RegionSource>>,
    partition: BitPartition,
    node: MappedNode,
)
    requires
        maps_region(endpoint, region, direction, fallback, partition, node),
    ensures
        conditioned(fallback, node.condition),
{
    if binding_accesses(endpoint, region) is Some {
    } else if direction == PortDirection::Output && through_layout(endpoint, region) {
    } else if direction == PortDirection::Input && input_accesses(endpoint, region) is Some {
    } else if endpoint.port is Some && endpoint.actual is Some {
    } else {
        let sources = fallback->0;
        let i = choose|i: int| 0 <= i < sources.len() && node == #[trigger] fallback_node(sources[i]);
        assert(sources[i].condition == node.condition);
    }
}

/// The conditions under which a region of an input corresponds to nodes are those of what was read
/// or evaluated.
pub proof fn source_mapping_keeps_conditions(
    endpoint: Endpoint,
    region: SummaryRegion,
    preserve_position: bool,
    allowed: Option<Seq<RegionSource>>,
    evaluated: Seq<EvaluatedRegion>,
    partition: BitPartition,
    node: MappedNode,
)
    requires
        maps_source_region(endpoint, region, preserve_position, allowed, evaluated, partition, node),
    ensures
        conditioned(allowed, node.condition) || evaluated_condition(evaluated, node.condition),
{
    if preserve_position && !some_positioned(endpoint, region, allowed, partition)
        && endpoint.input is None && is_evaluated(evaluated, region) {
        let i = choose|i: int|
            first_evaluated(evaluated, region, i) && (#[trigger] evaluated[i]).nodes@.contains(node);
        let k = choose|k: int| 0 <= k < evaluated[i].nodes@.len() && evaluated[i].nodes@[k] == node;
        assert(evaluated[i].nodes@[k].condition == node.condition);
    } else {
        mapping_keeps_conditions(endpoint, region, PortDirection::Input, allowed, partition, node);
    }
}

} // verus!
