//! Regions of versions, and what calls return.
use vstd::prelude::*;
use std::collections::HashSet;
use crate::arena;
use crate::arena::{PathArena, PathNode};
use crate::imports;
use crate::instance;
use crate::instance::key_span;
use crate::ir::Region;
use crate::layout;
use crate::layout::{CallResult, RegionGroup};
use crate::order;
use crate::order::sort_dedup;
use crate::partition;
use crate::partition::{BitPartition, NodeKey};
use crate::reach;
use crate::reach::Visit;
use crate::relation::{PositionDomain, PositionRelation, SourceRef};
use crate::sources;
use crate::sources::Source;
use crate::span::{translate_array_span, translate_packed_span, ArraySpan, PackedSpan};
use crate::ssa;
use crate::ssa::{SsaStore, Version};
use crate::summary;
use crate::writes;

verus! {

/// The store and the arena belong together.
pub open spec fn tied(store: SsaStore, arena: PathArena) -> bool {
    &&& store.wf()
    &&& arena.wf()
    &&& store.guards_in(arena@)
}

/// Every key of the store has a node.
pub open spec fn keys_known(store: SsaStore, nodes: Seq<NodeKey>) -> bool {
    forall|i: int| 0 <= i < store.versions@.len() ==> ((#[trigger] store.versions@[i]) matches Version::Entry(key) ==> key < nodes.len())
}

/// The elements of a source lie among the requested ones, once moved.
pub open spec fn elements_match(node: NodeKey, offset: Option<isize>, array: ArraySpan) -> bool {
    match offset {
        None => true,
        Some(offset) => 0 <= node.array.start + offset <= usize::MAX && spans_share(
            ArraySpan { start: (node.array.start + offset) as usize, length: node.array.length },
            array,
        ),
    }
}

pub open spec fn spans_share(a: ArraySpan, b: ArraySpan) -> bool {
    a.bounded() && b.bounded() && exists|element: int| #[trigger] a.has(element) && b.has(element)
}

/// The bits of a source lie among the requested ones, once moved.
pub open spec fn bits_match(partition: BitPartition, node: NodeKey, offset: Option<isize>, packed: PackedSpan) -> bool {
    match offset {
        None => true,
        Some(offset) => match instance::key_span_of(partition, node) {
            Some(span) => 0 <= span.start + offset && span.start + offset + span.length <= usize::MAX && exists|bit: int|
                #[trigger] packed.has(bit) && span.start + offset <= bit < span.start + offset + span.length,
            None => false,
        },
    }
}

/// A source of a version reaches the requested region.
pub open spec fn source_matches(partition: BitPartition, node: NodeKey, relation: PositionRelation, array: ArraySpan, packed: PackedSpan) -> bool {
    elements_match(node, relation.array, array) && bits_match(partition, node, relation.packed, packed)
}

fn matches_region(partition: &BitPartition, node: NodeKey, relation: PositionRelation, array: ArraySpan, packed: PackedSpan) -> (r: bool)
    requires
        partition.wf(),
        packed.wf(),
    ensures
        r == source_matches(*partition, node, relation, array, packed),
{
    let elements: bool = match relation.array {
        None => true,
        Some(offset) => match translate_array_span(node.array, offset) {
            Some(span) => span.overlaps(array),
            None => false,
        },
    };
    let bits: bool = match relation.packed {
        None => true,
        Some(offset) => match key_span(partition, node) {
            Some(span) => match translate_packed_span(span, offset) {
                Some(moved) => {
                    let meets: bool = packed.overlaps(moved);
                    proof {
                        if meets {
                            let bit = choose|bit: int| #[trigger] packed.has(bit) && moved.has(bit);
                            assert(packed.has(bit) && span.start + offset <= bit < span.start + offset + span.length);
                        }
                        if bits_match(*partition, node, relation.packed, packed) {
                            let bit = choose|bit: int|
                                #[trigger] packed.has(bit) && span.start + offset <= bit < span.start + offset + span.length;
                            assert(packed.has(bit) && moved.has(bit));
                        }
                    }
                    meets
                },
                None => false,
            },
            None => false,
        },
    };
    elements && bits
}

/// The version is the current one of the key.
pub open spec fn is_current(store: SsaStore, key: u64, version: usize) -> bool {
    if store.current@.contains_key(key) {
        store.current@[key] == version
    } else {
        store.entries@.contains_key(key) && store.entries@[key] == version
    }
}

/// The version reads the source as it is now, under its condition.
pub open spec fn reads_source(store: SsaStore, source: Source, version: usize) -> bool {
    exists|read: usize| #[trigger]
        is_current(store, source.key, read) && writes::is_definition(
            store.versions@,
            version as int,
            seq![SourceRef { version: read, relation: source.relation }],
            source.condition,
        )
}

/// The versions are those of the sources that reach the region.
pub open spec fn picks(
    store: SsaStore,
    partition: BitPartition,
    nodes: Seq<NodeKey>,
    list: Seq<Source>,
    count: int,
    array: ArraySpan,
    packed: PackedSpan,
    versions: Seq<usize>,
) -> bool
    decreases count,
{
    if count <= 0 {
        versions.len() == 0
    } else {
        let source = list[count - 1];
        if source_matches(partition, nodes[source.key as int], source.relation, array, packed) {
            versions.len() > 0 && reads_source(store, source, versions.last()) && picks(
                store,
                partition,
                nodes,
                list,
                count - 1,
                array,
                packed,
                versions.drop_last(),
            )
        } else {
            picks(store, partition, nodes, list, count - 1, array, packed, versions)
        }
    }
}

pub open spec fn domain_of(array: ArraySpan, packed: PackedSpan) -> PositionDomain {
    PositionDomain {
        array_start: array.start,
        array_length: array.length,
        packed_start: packed.start,
        packed_length: packed.length,
    }
}

/// What stands for a region of a version: a projection where the version depends on an imported graph,
/// a projection or a regular transfer; else one version for each of its sources that reaches the
/// region, or the version itself where it has no sources.
pub open spec fn stands_for_region(
    before: SsaStore,
    after: SsaStore,
    paths: Seq<PathNode>,
    more: Seq<PathNode>,
    partition: BitPartition,
    nodes: Seq<NodeKey>,
    version: usize,
    array: ArraySpan,
    packed: PackedSpan,
    r: Seq<usize>,
) -> bool {
    if imports::structural(before.versions@, version as int) {
        r == seq![before.versions@.len() as usize] && after.versions@ == before.versions@.push(
            Version::Projected { source: version, domain: domain_of(array, packed) },
        )
    } else {
        exists|list: Seq<Source>| #[trigger]
            summary::summarises(before, paths, version, false, None, list, more) && if list.len() == 0 {
                r == seq![version] && after.versions@ == before.versions@
            } else {
                picks(after, partition, nodes, list, list.len() as int, array, packed, r)
            }
    }
}

/// There is nothing that stands for a region of a version: it depends on no imported graph, projection
/// or regular transfer, and an offset on a way to one of its sources does not fit.
pub open spec fn unprojectable(store: SsaStore, paths: Seq<PathNode>, version: usize) -> bool {
    !imports::structural(store.versions@, version as int) && summary::sources_overflow(store, paths, version, false)
}

proof fn lemma_picks_kept(
    a: SsaStore,
    b: SsaStore,
    partition: BitPartition,
    nodes: Seq<NodeKey>,
    list: Seq<Source>,
    count: int,
    array: ArraySpan,
    packed: PackedSpan,
    versions: Seq<usize>,
)
    requires
        a.wf(),
        b.wf(),
        ssa::versions_grow(a.versions@, b.versions@),
        a.current@ == b.current@,
        picks(a, partition, nodes, list, count, array, packed, versions),
    ensures
        picks(b, partition, nodes, list, count, array, packed, versions),
    decreases count,
{
    if count > 0 {
        let source = list[count - 1];
        if source_matches(partition, nodes[source.key as int], source.relation, array, packed) {
            lemma_picks_kept(a, b, partition, nodes, list, count - 1, array, packed, versions.drop_last());
            let version = versions.last();
            let read = choose|read: usize| #[trigger]
                is_current(a, source.key, read) && writes::is_definition(
                    a.versions@,
                    version as int,
                    seq![SourceRef { version: read, relation: source.relation }],
                    source.condition,
                );
            if !a.current@.contains_key(source.key) {
                writes::lemma_entry_kept(a, b, source.key);
            }
            assert(is_current(b, source.key, read));
            assert(a.versions@[version as int] == b.versions@[version as int]);
        } else {
            lemma_picks_kept(a, b, partition, nodes, list, count - 1, array, packed, versions);
        }
    }
}

proof fn lemma_source_key(store: SsaStore, paths: Seq<PathNode>, more: Seq<PathNode>, version: usize, list: Seq<Source>, nodes: Seq<NodeKey>, i: int)
    requires
        keys_known(store, nodes),
        summary::summarises(store, paths, version, false, None, list, more),
        0 <= i < list.len(),
    ensures
        list[i].key < nodes.len(),
        list[i].condition.node < more.len(),
{
    let reached = choose|reached: Map<Visit, Seq<crate::path::Choice>>| #[trigger]
        reach::is_solution(store, paths, summary::version_start(version, false), reached) && summary::lists_entries(store, reached, None, list, more);
    assert(list[i].condition.node < more.len());
    assert(sources::names(list, list[i].key, list[i].relation));
    let v = choose|v: Visit| #[trigger] summary::entry_at(store, reached, v, list[i].key, list[i].relation);
    assert(store.versions@[v.node as int] == Version::Entry(list[i].key));
}

/// What stands for a region of a version; nothing where an offset on the way does not fit.
pub fn project_version_sources(
    store: &mut SsaStore,
    arena: &mut PathArena,
    partition: &BitPartition,
    nodes: &Vec<NodeKey>,
    version: usize,
    array: ArraySpan,
    packed: PackedSpan,
) -> (r: Option<Vec<usize>>)
    requires
        tied(*old(store), *old(arena)),
        keys_known(*old(store), nodes@),
        partition.wf(),
        packed.wf(),
        version < old(store).versions@.len(),
    ensures
        tied(*final(store), *final(arena)),
        arena::grows(old(arena)@, final(arena)@),
        writes::continues(*old(store), *final(store)),
        final(store).current@ == old(store).current@,
        keys_known(*final(store), nodes@),
        r matches Some(list) ==> stands_for_region(
            *old(store),
            *final(store),
            old(arena)@,
            final(arena)@,
            *partition,
            nodes@,
            version,
            array,
            packed,
            list@,
        ) && forall|i: int| 0 <= i < list@.len() ==> (#[trigger] list@[i]) < final(store).versions@.len(),
        r is None ==> *final(store) == *old(store) && unprojectable(*old(store), old(arena)@, version),
{
    let ghost before = *store;
    let ghost paths = arena@;
    let mut r: Vec<usize> = Vec::new();
    if store.has_structural_dependency(version) {
        let projected: usize = store.projected(
            version,
            PositionDomain {
                array_start: array.start,
                array_length: array.length,
                packed_start: packed.start,
                packed_length: packed.length,
            },
        );
        r.push(projected);
        proof {
            assert forall|depth: int| 0 <= depth < before.checkpoints@.len() implies #[trigger] store.saved(depth) == before.saved(depth) by {}
            assert(r@ =~= seq![before.versions@.len() as usize]);
            arena::growth_is_transitive(paths, paths, paths);
        }
        return Some(r);
    }
    let all: Option<HashSet<u64>> = None;
    let list = match store.root_source_relations_guarded(arena, version, &all) {
        Some(list) => list,
        None => {
            proof {
                ssa::store_survives_growth(*store, paths, arena@);
            }
            return None;
        },
    };
    let ghost more = arena@;
    proof {
        ssa::store_survives_growth(*store, paths, more);
        assert(summary::summarises(before, paths, version, false, None, list@, more));
    }
    if list.len() == 0 {
        r.push(version);
        assert(r@ =~= seq![version]);
        return Some(r);
    }
    let mut i: usize = 0;
    while i < list.len()
        invariant
            i <= list@.len(),
            before.wf(),
            keys_known(before, nodes@),
            summary::summarises(before, paths, version, false, None, list@, more),
            more == arena@,
            store.wf(),
            store.guards_in(more),
            arena.wf(),
            partition.wf(),
            packed.wf(),
            writes::continues(before, *store),
            store.current@ == before.current@,
            keys_known(*store, nodes@),
            picks(*store, *partition, nodes@, list@, i as int, array, packed, r@),
            forall|k: int| 0 <= k < r@.len() ==> (#[trigger] r@[k]) < store.versions@.len(),
        decreases list@.len() - i,
    {
        let source = list[i];
        proof {
            lemma_source_key(before, paths, more, version, list@, nodes@, i as int);
            assert(nodes@.len() == nodes.len());
        }
        let ghost known = *store;
        let ghost r0 = r@;
        if matches_region(partition, nodes[source.key as usize], source.relation, array, packed) {
            let read: usize = store.read(source.key);
            let ghost middle = *store;
            let mut one: Vec<SourceRef> = Vec::new();
            one.push(SourceRef { version: read, relation: source.relation });
            assert(one@ =~= seq![SourceRef { version: read, relation: source.relation }]);
            let made: usize = store.related_definition_guarded(&one, source.condition);
            r.push(made);
            proof {
                assert(ssa::versions_grow(known.versions@, store.versions@)) by {
                    assert forall|k: int| 0 <= k < known.versions@.len() implies #[trigger] known.versions@[k] == store.versions@[k] by {
                        assert(known.versions@[k] == middle.versions@[k]);
                    }
                }
                if !known.current@.contains_key(source.key) {
                    writes::lemma_entry_kept(middle, *store, source.key);
                }
                assert(is_current(*store, source.key, read));
                assert(reads_source(*store, source, made));
                lemma_picks_kept(known, *store, *partition, nodes@, list@, i as int, array, packed, r0);
                assert(r@.drop_last() =~= r0);
                assert(writes::continues(known, *store)) by {
                    assert forall|depth: int| 0 <= depth < known.checkpoints@.len() implies #[trigger] store.saved(depth) == known.saved(depth) by {}
                }
                writes::continues_is_transitive(before, known, *store);
                assert forall|k: int| 0 <= k < store.versions@.len() implies ((#[trigger] store.versions@[k]) matches Version::Entry(key) ==> key < nodes@.len()) by {
                    if k < known.versions@.len() {
                        assert(known.versions@[k] == store.versions@[k]);
                    } else if store.versions@[k] is Entry {
                        assert(k < middle.versions@.len());
                        assert(middle.versions@[k] == store.versions@[k]);
                        lemma_new_entry(known, middle, source.key, k);
                    }
                }
            }
        }
        i = i + 1;
    }
    Some(r)
}

/// Reading a key makes an entry of that key at most.
proof fn lemma_new_entry(before: SsaStore, after: SsaStore, key: u64, i: int)
    requires
        before.wf(),
        after.wf(),
        before.current@.contains_key(key) ==> after == before,
        !before.current@.contains_key(key) ==> exists|r: usize| after.versions@[r as int] == Version::Entry(key) && #[trigger] before.entries@.insert(key, r) == after.entries@,
        before.versions@.len() <= i < after.versions@.len(),
        after.versions@[i] is Entry,
    ensures
        after.versions@[i] == Version::Entry(key),
{
    let k = after.versions@[i]->Entry_0;
    assert(after.entries@.contains_key(k) && after.entries@[k] == i);
    if k != key {
        assert(before.entries@.contains_key(k));
        assert(before.entries@[k] == i);
        assert(before.entries@[k] < before.versions@.len());
    }
}

/// A region of what a call returns, with its version.
#[derive(Clone, Copy, Debug, PartialEq, Eq, Structural)]
pub struct ResultRegion {
    pub array: ArraySpan,
    pub packed: PackedSpan,
    pub version: usize,
}

/// The regions of a group of which the requested bits have one, among the first `count`.
pub open spec fn group_regions(group: RegionGroup, packed: Option<PackedSpan>, count: int) -> Seq<ResultRegion>
    decreases count,
{
    if count <= 0 {
        Seq::empty()
    } else {
        let region = group.regions@[count - 1];
        let before = group_regions(group, packed, count - 1);
        let wanted = match packed {
            None => true,
            Some(packed) => partition::spans_meet(region.packed, packed),
        };
        if wanted {
            before.push(ResultRegion { array: group.array, packed: region.packed, version: region.version })
        } else {
            before
        }
    }
}

/// The regions that a request asks for, in the first `count` groups.
pub open spec fn requested_regions_of(groups: Seq<RegionGroup>, request: Option<Region>, count: int) -> Seq<ResultRegion>
    decreases count,
{
    if count <= 0 {
        Seq::empty()
    } else {
        let group = groups[count - 1];
        let before = requested_regions_of(groups, request, count - 1);
        let array = match request {
            Some(request) => Some(request.array),
            None => None,
        };
        let packed = match request {
            Some(request) => Some(request.packed),
            None => None,
        };
        if layout::group_requested(group, array) {
            before + group_regions(group, packed, group.regions@.len() as int)
        } else {
            before
        }
    }
}

proof fn lemma_groups_skipped(groups: Seq<RegionGroup>, request: Option<Region>, from: int, to: int)
    requires
        0 <= from <= to <= groups.len(),
        forall|k: int|
            from <= k < to ==> !layout::group_requested(
                #[trigger] groups[k],
                match request {
                    Some(request) => Some(request.array),
                    None => None,
                },
            ),
    ensures
        requested_regions_of(groups, request, to) == requested_regions_of(groups, request, from),
    decreases to - from,
{
    if from < to {
        lemma_groups_skipped(groups, request, from, to - 1);
    }
}

/// The regions of what a call returns that a request asks for; all of them without one.
pub fn requested_regions(result: &CallResult, request: Option<Region>) -> (r: Vec<ResultRegion>)
    requires
        layout::groups_wf(result.region_groups@),
        request matches Some(request) ==> request.packed.wf(),
    ensures
        r@ == requested_regions_of(result.region_groups@, request, result.region_groups@.len() as int),
{
    let ghost groups = result.region_groups@;
    let array: Option<ArraySpan> = match request {
        Some(request) => Some(request.array),
        None => None,
    };
    let packed: Option<PackedSpan> = match request {
        Some(request) => Some(request.packed),
        None => None,
    };
    let picked = result.region_groups_in(array);
    let mut r: Vec<ResultRegion> = Vec::new();
    let ghost mut done: int = 0;
    let mut i: usize = 0;
    while i < picked.len()
        invariant
            i <= picked@.len(),
            groups == result.region_groups@,
            layout::groups_wf(groups),
            packed matches Some(bits) ==> bits.wf(),
            array == (match request {
                Some(request) => Some(request.array),
                None => None,
            }),
            packed == (match request {
                Some(request) => Some(request.packed),
                None => None,
            }),
            order::strictly_sorted(picked@),
            forall|k: usize| #[trigger] picked@.contains(k) <==> k < groups.len() && layout::group_requested(groups[k as int], array),
            0 <= done <= groups.len(),
            i > 0 ==> done == picked@[i - 1] + 1,
            i == 0 ==> done == 0,
            r@ == requested_regions_of(groups, request, done),
        decreases picked@.len() - i,
    {
        let at: usize = picked[i];
        assert(picked@.contains(picked@[i as int]));
        let group = &result.region_groups[at];
        let ghost before = r@;
        proof {
            if i > 0 {
                assert(picked@[i - 1] < picked@[i as int]);
            }
            assert forall|k: int| done <= k < at implies !layout::group_requested(#[trigger] groups[k], array) by {
                if layout::group_requested(groups[k], array) {
                    assert(groups.len() == result.region_groups.len());
                    assert(picked@.contains(k as usize));
                    let j = choose|j: int| 0 <= j < picked@.len() && picked@[j] == k;
                    if j < i {
                        if j < i - 1 {
                            assert(picked@[j] < picked@[i - 1]);
                        }
                    } else if j > i {
                        assert(picked@[i as int] < picked@[j]);
                    }
                }
            }
            lemma_groups_skipped(groups, request, done, at as int);
        }
        let mut k: usize = 0;
        while k < group.regions.len()
            invariant
                k <= group.regions@.len(),
                at < groups.len(),
                *group == groups[at as int],
                layout::groups_wf(groups),
                packed matches Some(bits) ==> bits.wf(),
                r@ == before + group_regions(*group, packed, k as int),
            decreases group.regions@.len() - k,
        {
            let region = group.regions[k];
            assert(layout::regions_wf(groups[at as int].regions@));
            assert(group.regions@[k as int].packed.wf());
            let wanted: bool = match packed {
                None => true,
                Some(packed) => region.packed.start < packed.end() && packed.start < region.packed.end(),
            };
            if wanted {
                r.push(ResultRegion { array: group.array, packed: region.packed, version: region.version });
            }
            k = k + 1;
            assert(r@ =~= before + group_regions(*group, packed, k as int));
        }
        proof {
            done = at + 1;
        }
        i = i + 1;
    }
    proof {
        assert forall|k: int| done <= k < groups.len() implies !layout::group_requested(#[trigger] groups[k], array) by {
            if layout::group_requested(groups[k], array) {
                assert(groups.len() == result.region_groups.len());
                assert(picked@.contains(k as usize));
                let j = choose|j: int| 0 <= j < picked@.len() && picked@[j] == k;
                if j < picked@.len() - 1 {
                    assert(picked@[j] < picked@[picked@.len() - 1]);
                }
            }
        }
        lemma_groups_skipped(groups, request, done, groups.len() as int);
    }
    r
}

/// The request asks for all of the region.
pub open spec fn covers_region(request: Option<Region>, region: ResultRegion) -> bool {
    match request {
        None => true,
        Some(request) => request.array.common(region.array) == Some(region.array) && request.packed.common(region.packed) == Some(region.packed),
    }
}

/// What stands for the requested part of a region.
pub open spec fn region_piece(
    before: SsaStore,
    after: SsaStore,
    paths: Seq<PathNode>,
    more: Seq<PathNode>,
    partition: BitPartition,
    nodes: Seq<NodeKey>,
    request: Option<Region>,
    region: ResultRegion,
    r: Seq<usize>,
) -> bool {
    if covers_region(request, region) {
        r == seq![region.version] && after == before && more == paths
    } else {
        stands_for_region(before, after, paths, more, partition, nodes, region.version, request->0.array, request->0.packed, r)
    }
}

/// What stands for the requested parts of the first `count` regions, one after the other.
pub open spec fn region_pieces(
    before: SsaStore,
    after: SsaStore,
    paths: Seq<PathNode>,
    more: Seq<PathNode>,
    partition: BitPartition,
    nodes: Seq<NodeKey>,
    request: Option<Region>,
    regions: Seq<ResultRegion>,
    count: int,
    r: Seq<usize>,
) -> bool
    decreases count,
{
    if count <= 0 {
        r.len() == 0 && after == before && more == paths
    } else {
        exists|middle: SsaStore, between: Seq<PathNode>, split: int|
            0 <= split <= r.len() && region_pieces(
                before,
                middle,
                paths,
                between,
                partition,
                nodes,
                request,
                regions,
                count - 1,
                r.take(split),
            ) && #[trigger] region_piece(
                middle,
                after,
                between,
                more,
                partition,
                nodes,
                request,
                regions[count - 1],
                r.skip(split),
            )
    }
}

/// The list holds, in order and each once, what stands for the requested parts of a call's result.
pub open spec fn selects_result(
    before: SsaStore,
    after: SsaStore,
    paths: Seq<PathNode>,
    more: Seq<PathNode>,
    partition: BitPartition,
    nodes: Seq<NodeKey>,
    groups: Seq<RegionGroup>,
    request: Option<Region>,
    list: Seq<usize>,
) -> bool {
    let wanted = requested_regions_of(groups, request, groups.len() as int);
    order::strictly_sorted(list) && exists|pieces: Seq<usize>| #[trigger]
        order::same_elements(list, pieces) && region_pieces(
            before,
            after,
            paths,
            more,
            partition,
            nodes,
            request,
            wanted,
            wanted.len() as int,
            pieces,
        )
}

/// What stands for the requested parts of the regions before `at` was found, and of the region at
/// `at`, of which a part only is requested, there is nothing that does.
pub open spec fn region_missing(
    before: SsaStore,
    after: SsaStore,
    paths: Seq<PathNode>,
    between: Seq<PathNode>,
    partition: BitPartition,
    nodes: Seq<NodeKey>,
    request: Option<Region>,
    regions: Seq<ResultRegion>,
    at: int,
    pieces: Seq<usize>,
) -> bool {
    &&& 0 <= at < regions.len()
    &&& region_pieces(before, after, paths, between, partition, nodes, request, regions, at, pieces)
    &&& !covers_region(request, regions[at])
    &&& unprojectable(after, between, regions[at].version)
}

/// A requested part of a call's result has nothing that stands for it.
pub open spec fn selection_stops(
    before: SsaStore,
    after: SsaStore,
    paths: Seq<PathNode>,
    more: Seq<PathNode>,
    partition: BitPartition,
    nodes: Seq<NodeKey>,
    groups: Seq<RegionGroup>,
    request: Option<Region>,
) -> bool {
    let wanted = requested_regions_of(groups, request, groups.len() as int);
    exists|between: Seq<PathNode>, at: int, pieces: Seq<usize>| #[trigger]
        region_missing(before, after, paths, between, partition, nodes, request, wanted, at, pieces) && arena::grows(between, more)
}

/// The versions that stand for what is requested of a call's result; nothing where an offset on the
/// way does not fit.
pub fn select_call_result(
    store: &mut SsaStore,
    arena: &mut PathArena,
    partition: &BitPartition,
    nodes: &Vec<NodeKey>,
    result: &CallResult,
    request: Option<Region>,
) -> (r: Option<Vec<usize>>)
    requires
        tied(*old(store), *old(arena)),
        keys_known(*old(store), nodes@),
        partition.wf(),
        layout::groups_wf(result.region_groups@),
        request matches Some(request) ==> request.packed.wf(),
        result_below(result.region_groups@, old(store).versions@.len() as int),
    ensures
        tied(*final(store), *final(arena)),
        arena::grows(old(arena)@, final(arena)@),
        writes::continues(*old(store), *final(store)),
        final(store).current@ == old(store).current@,
        keys_known(*final(store), nodes@),
        r matches Some(list) ==> forall|i: int| 0 <= i < list@.len() ==> (#[trigger] list@[i]) < final(store).versions@.len(),
        r matches Some(list) ==> selects_result(
            *old(store),
            *final(store),
            old(arena)@,
            final(arena)@,
            *partition,
            nodes@,
            result.region_groups@,
            request,
            list@,
        ),
        r is None ==> selection_stops(
            *old(store),
            *final(store),
            old(arena)@,
            final(arena)@,
            *partition,
            nodes@,
            result.region_groups@,
            request,
        ),
{
    let ghost before = *store;
    let ghost paths = arena@;
    let regions = requested_regions(result, request);
    proof {
        lemma_regions_below(result.region_groups@, request, result.region_groups@.len() as int, store.versions@.len() as int);
        assert forall|depth: int| 0 <= depth < before.checkpoints@.len() implies #[trigger] store.saved(depth) == before.saved(depth) by {}
    }
    let mut pieces: Vec<usize> = Vec::new();
    let mut i: usize = 0;
    while i < regions.len()
        invariant
            i <= regions@.len(),
            regions@ == requested_regions_of(result.region_groups@, request, result.region_groups@.len() as int),
            before == *old(store),
            paths == old(arena)@,
            tied(*store, *arena),
            keys_known(*store, nodes@),
            partition.wf(),
            request matches Some(request) ==> request.packed.wf(),
            arena::grows(paths, arena@),
            writes::continues(before, *store),
            store.current@ == before.current@,
            forall|k: int| 0 <= k < regions@.len() ==> (#[trigger] regions@[k]).version < before.versions@.len() && regions@[k].packed.wf(),
            region_pieces(before, *store, paths, arena@, *partition, nodes@, request, regions@, i as int, pieces@),
            forall|k: int| 0 <= k < pieces@.len() ==> (#[trigger] pieces@[k]) < store.versions@.len(),
        decreases regions@.len() - i,
    {
        let region = regions[i];
        assert(regions@[i as int].version < before.versions@.len());
        let ghost known = *store;
        let ghost between = arena@;
        let ghost first = pieces@;
        let covered: bool = match request {
            None => true,
            Some(request) => match (request.array.intersection(region.array), request.packed.intersection(region.packed)) {
                (Some(array), Some(packed)) => array == region.array && packed == region.packed,
                _ => false,
            },
        };
        assert(covered == covers_region(request, region));
        if covered {
            pieces.push(region.version);
            proof {
                assert(pieces@ =~= first + seq![region.version]);
                assert(region_piece(known, *store, between, arena@, *partition, nodes@, request, regions@[i as int], seq![region.version]));
                lemma_piece_added(before, known, *store, paths, between, arena@, *partition, nodes@, request, regions@, i as int, first, seq![region.version]);
            }
        } else {
            let asked = match request {
                Some(asked) => asked,
                None => {
                    assert(false);
                    return None;
                },
            };
            match project_version_sources(store, arena, partition, nodes, region.version, asked.array, asked.packed) {
                None => {
                    proof {
                        arena::growth_is_transitive(paths, between, arena@);
                        writes::continues_is_transitive(before, known, *store);
                        assert(region_missing(before, *store, paths, between, *partition, nodes@, request, regions@, i as int, first));
                    }
                    return None;
                },
                Some(more) => {
                    append_versions(&mut pieces, &more);
                    proof {
                        arena::growth_is_transitive(paths, between, arena@);
                        writes::continues_is_transitive(before, known, *store);
                        assert(region_piece(known, *store, between, arena@, *partition, nodes@, request, regions@[i as int], more@));
                        lemma_piece_added(before, known, *store, paths, between, arena@, *partition, nodes@, request, regions@, i as int, first, more@);
                    }
                },
            }
        }
        i = i + 1;
    }
    let r = sort_dedup(&pieces);
    proof {
        assert forall|k: int| 0 <= k < r@.len() implies (#[trigger] r@[k]) < store.versions@.len() by {
            assert(r@.contains(r@[k]));
            assert(pieces@.contains(r@[k]));
        }
        let wanted = requested_regions_of(result.region_groups@, request, result.region_groups@.len() as int);
        assert(order::strictly_sorted(r@));
        assert(order::same_elements(r@, pieces@));
        assert(regions@ == wanted);
        assert(region_pieces(before, *store, paths, arena@, *partition, nodes@, request, wanted, wanted.len() as int, pieces@));
        assert(selects_result(before, *store, paths, arena@, *partition, nodes@, result.region_groups@, request, r@));
    }
    Some(r)
}

proof fn lemma_piece_added(
    before: SsaStore,
    middle: SsaStore,
    after: SsaStore,
    paths: Seq<PathNode>,
    between: Seq<PathNode>,
    more: Seq<PathNode>,
    partition: BitPartition,
    nodes: Seq<NodeKey>,
    request: Option<Region>,
    regions: Seq<ResultRegion>,
    count: int,
    first: Seq<usize>,
    last: Seq<usize>,
)
    requires
        0 <= count,
        region_pieces(before, middle, paths, between, partition, nodes, request, regions, count, first),
        region_piece(middle, after, between, more, partition, nodes, request, regions[count], last),
    ensures
        region_pieces(before, after, paths, more, partition, nodes, request, regions, count + 1, first + last),
{
    let r = first + last;
    let n = count + 1;
    let split = first.len() as int;
    assert(r.take(split) =~= first);
    assert(r.skip(split) =~= last);
    assert(region_piece(middle, after, between, more, partition, nodes, request, regions[n - 1], r.skip(split)));
}

/// Adds versions to a list.
pub fn append_versions(list: &mut Vec<usize>, more: &Vec<usize>)
    ensures
        final(list)@ == old(list)@ + more@,
{
    let ghost before = list@;
    let mut i: usize = 0;
    while i < more.len()
        invariant
            i <= more@.len(),
            list@ == before + more@.take(i as int),
        decreases more@.len() - i,
    {
        list.push(more[i]);
        i = i + 1;
        assert(list@ =~= before + more@.take(i as int));
    }
    assert(more@.take(i as int) =~= more@);
}

/// The versions that a call returns exist.
pub open spec fn result_below(groups: Seq<RegionGroup>, limit: int) -> bool {
    forall|g: int, k: int|
        0 <= g < groups.len() && 0 <= k < groups[g].regions@.len() ==> (#[trigger] groups[g].regions@[k]).version < limit && groups[g].regions@[k].packed.wf()
}

proof fn lemma_regions_below(groups: Seq<RegionGroup>, request: Option<Region>, count: int, limit: int)
    requires
        0 <= count <= groups.len(),
        result_below(groups, limit),
    ensures
        forall|k: int|
            0 <= k < requested_regions_of(groups, request, count).len() ==> (#[trigger] requested_regions_of(groups, request, count)[k]).version < limit
                && requested_regions_of(groups, request, count)[k].packed.wf(),
    decreases count,
{
    if count > 0 {
        lemma_regions_below(groups, request, count - 1, limit);
        let packed = match request {
            Some(request) => Some(request.packed),
            None => None,
        };
        lemma_group_below(groups, count - 1, packed, groups[count - 1].regions@.len() as int, limit);
        let before = requested_regions_of(groups, request, count - 1);
        let added = group_regions(groups[count - 1], packed, groups[count - 1].regions@.len() as int);
        let all = requested_regions_of(groups, request, count);
        assert forall|k: int| 0 <= k < all.len() implies (#[trigger] all[k]).version < limit && all[k].packed.wf() by {
            if k < before.len() {
                assert(all[k] == before[k]);
            } else {
                assert(all[k] == added[k - before.len()]);
            }
        }
    }
}

proof fn lemma_group_below(groups: Seq<RegionGroup>, g: int, packed: Option<PackedSpan>, count: int, limit: int)
    requires
        0 <= g < groups.len(),
        0 <= count <= groups[g].regions@.len(),
        result_below(groups, limit),
    ensures
        forall|k: int|
            0 <= k < group_regions(groups[g], packed, count).len() ==> (#[trigger] group_regions(groups[g], packed, count)[k]).version < limit && group_regions(
                groups[g],
                packed,
                count,
            )[k].packed.wf(),
    decreases count,
{
    if count > 0 {
        lemma_group_below(groups, g, packed, count - 1, limit);
        assert(groups[g].regions@[count - 1].version < limit && groups[g].regions@[count - 1].packed.wf());
        let before = group_regions(groups[g], packed, count - 1);
        let all = group_regions(groups[g], packed, count);
        assert forall|k: int| 0 <= k < all.len() implies (#[trigger] all[k]).version < limit && all[k].packed.wf() by {
            if k < before.len() {
                assert(all[k] == before[k]);
            }
        }
    }
}

} // verus!
