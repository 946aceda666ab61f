//! Versions of the regions of a value, and how the parts of an expression are laid out in it.
use vstd::prelude::*;
use std::collections::HashMap;
use std::rc::Rc;
use crate::order;
use crate::order::Ordered;
use crate::partition;
use crate::partition::{BitPartition, NodeKey};
use crate::projection;
use crate::projection::StaticArrayFilters;
use crate::span::{ArraySpan, PackedSpan};

verus! {

/// The version of a packed range.
#[derive(Clone, Copy, Debug, PartialEq, Eq, Structural)]
pub struct RegionVersion {
    pub packed: PackedSpan,
    pub version: usize,
}

/// The versions of the packed ranges of some elements.
pub struct RegionGroup {
    pub array: ArraySpan,
    pub regions: Vec<RegionVersion>,
}

/// The packed ranges ascend without overlap.
pub open spec fn regions_wf(regions: Seq<RegionVersion>) -> bool {
    &&& forall|i: int| 0 <= i < regions.len() ==> (#[trigger] regions[i]).packed.wf()
    &&& forall|i: int, j: int|
        0 <= i < j < regions.len() ==> (#[trigger] regions[i]).packed.start
            + regions[i].packed.length <= (#[trigger] regions[j]).packed.start
}

/// The elements ascend without overlap.
pub open spec fn groups_wf(groups: Seq<RegionGroup>) -> bool {
    &&& forall|i: int|
        0 <= i < groups.len() ==> (#[trigger] groups[i]).array.bounded() && groups[i].array.length
            > 0 && regions_wf(groups[i].regions@)
    &&& forall|i: int, j: int|
        0 <= i < j < groups.len() ==> (#[trigger] groups[i]).array.start + groups[i].array.length
            <= (#[trigger] groups[j]).array.start
}

/// The number of the first group that ends behind `element`.
fn first_group(groups: &Vec<RegionGroup>, element: usize) -> (r: usize)
    requires
        groups_wf(groups@),
    ensures
        r <= groups@.len(),
        forall|i: int|
            0 <= i < r ==> (#[trigger] groups@[i]).array.start + groups@[i].array.length <= element,
        forall|i: int|
            r <= i < groups@.len() ==> (#[trigger] groups@[i]).array.start
                + groups@[i].array.length > element,
{
    let mut low: usize = 0;
    let mut high: usize = groups.len();
    while low < high
        invariant
            groups_wf(groups@),
            low <= high <= groups@.len(),
            forall|i: int|
                0 <= i < low ==> (#[trigger] groups@[i]).array.start + groups@[i].array.length
                    <= element,
            forall|i: int|
                high <= i < groups@.len() ==> (#[trigger] groups@[i]).array.start
                    + groups@[i].array.length > element,
        decreases high - low,
    {
        let middle: usize = low + (high - low) / 2;
        let ghost here = groups@[middle as int];
        if groups[middle].array.start + groups[middle].array.length <= element {
            proof {
                assert forall|i: int| 0 <= i < middle implies (#[trigger] groups@[i]).array.start
                    + groups@[i].array.length <= here.array.start by {
                }
            }
            low = middle + 1;
        } else {
            proof {
                assert forall|i: int| middle < i < groups@.len() implies here.array.start
                    + here.array.length <= (#[trigger] groups@[i]).array.start by {
                }
            }
            high = middle;
        }
    }
    low
}

/// The number of the first range that ends behind `bit`.
fn first_region(regions: &Vec<RegionVersion>, bit: usize) -> (r: usize)
    requires
        regions_wf(regions@),
    ensures
        r <= regions@.len(),
        forall|i: int|
            0 <= i < r ==> (#[trigger] regions@[i]).packed.start + regions@[i].packed.length <= bit,
        forall|i: int|
            r <= i < regions@.len() ==> (#[trigger] regions@[i]).packed.start
                + regions@[i].packed.length > bit,
{
    let mut low: usize = 0;
    let mut high: usize = regions.len();
    while low < high
        invariant
            regions_wf(regions@),
            low <= high <= regions@.len(),
            forall|i: int|
                0 <= i < low ==> (#[trigger] regions@[i]).packed.start + regions@[i].packed.length
                    <= bit,
            forall|i: int|
                high <= i < regions@.len() ==> (#[trigger] regions@[i]).packed.start
                    + regions@[i].packed.length > bit,
        decreases high - low,
    {
        let middle: usize = low + (high - low) / 2;
        let ghost here = regions@[middle as int];
        assert(here.packed.wf());
        if regions[middle].packed.end() <= bit {
            proof {
                assert forall|i: int| 0 <= i < middle implies (#[trigger] regions@[i]).packed.start
                    + regions@[i].packed.length <= here.packed.start by {
                }
            }
            low = middle + 1;
        } else {
            proof {
                assert forall|i: int| middle < i < regions@.len() implies here.packed.start
                    + here.packed.length <= (#[trigger] regions@[i]).packed.start && regions@[i].packed.length > 0 by {
                    assert(regions@[i].packed.wf());
                }
            }
            high = middle;
        }
    }
    low
}

/// What a function call returns.
pub struct CallResult {
    pub region_groups: Vec<RegionGroup>,
}

/// The group is one of those that a request asks for.
pub open spec fn group_requested(group: RegionGroup, request: Option<ArraySpan>) -> bool {
    match request {
        None => true,
        Some(span) => span.bounded() && partition::arrays_meet(group.array, span),
    }
}

impl CallResult {
    /// The numbers of the groups that have an element of the request, in ascending order; all of
    /// them where there is no request.
    pub fn region_groups_in(&self, request: Option<ArraySpan>) -> (r: Vec<usize>)
        requires
            groups_wf(self.region_groups@),
        ensures
            order::strictly_sorted(r@),
            forall|i: usize| #[trigger]
                r@.contains(i) <==> i < self.region_groups@.len() && group_requested(
                    self.region_groups@[i as int],
                    request,
                ),
    {
        let mut r: Vec<usize> = Vec::new();
        let total: usize = self.region_groups.len();
        let mut first: usize = 0;
        let mut end: usize = usize::MAX;
        if let Some(span) = request {
            match span.end() {
                Some(last) => {
                    first = first_group(&self.region_groups, span.start);
                    end = last;
                    if span.length == 0 {
                        return r;
                    }
                },
                None => {
                    return r;
                },
            }
        }
        let mut i: usize = first;
        while i < self.region_groups.len() && self.region_groups[i].array.start < end
            invariant
                first <= i <= total,
                total == self.region_groups@.len(),
                groups_wf(self.region_groups@),
                request is None ==> first == 0,
                request matches Some(span) ==> span.bounded() && end == span.start + span.length
                    && span.length > 0 && forall|k: int|
                    first <= k < total ==> (#[trigger] self.region_groups@[k]).array.start
                        + self.region_groups@[k].array.length > span.start,
                r@.len() == i - first,
                forall|k: int| 0 <= k < r@.len() ==> #[trigger] r@[k] == first + k,
                forall|k: int|
                    first <= k < i ==> group_requested(#[trigger] self.region_groups@[k], request),
            decreases total - i,
        {
            r.push(i);
            i = i + 1;
        }
        proof {
            assert forall|k: usize| #[trigger] r@.contains(k) <==> k < total && group_requested(
                self.region_groups@[k as int],
                request,
            ) by {
                if r@.contains(k) {
                    let m = choose|m: int| 0 <= m < r@.len() && r@[m] == k;
                    assert(k == first + m);
                }
                if k < total && group_requested(self.region_groups@[k as int], request) {
                    assert(k >= first);
                    if k >= i {
                        if k > i {
                            assert(self.region_groups@[i as int].array.start
                                + self.region_groups@[i as int].array.length
                                <= self.region_groups@[k as int].array.start);
                        }
                    }
                    assert(r@[k - first] == k);
                }
            }
        }
        r
    }
}

/// The version of a node.
#[derive(Clone, Copy, Debug, PartialEq, Eq, Structural)]
pub struct KeyVersion {
    pub key: NodeKey,
    pub version: usize,
}

/// The keys ascend.
pub open spec fn keys_ascend(versions: Seq<KeyVersion>) -> bool {
    forall|i: int, j: int|
        0 <= i < j < versions.len() ==> (#[trigger] versions[i]).key.lt(
            (#[trigger] versions[j]).key,
        )
}

/// The versions of a formal argument, laid out by its regions.
pub struct FormalVersionLayout {
    pub groups: Vec<RegionGroup>,
}

/// The groups list this version of this range of these elements.
pub open spec fn lists_version(
    groups: Seq<RegionGroup>,
    array: ArraySpan,
    packed: PackedSpan,
    version: usize,
) -> bool {
    exists|g: int, k: int|
        0 <= g < groups.len() && groups[g].array == array && 0 <= k < groups[g].regions@.len()
            && #[trigger] groups[g].regions@[k] == (RegionVersion { packed, version })
}

/// The version belongs to a node with this range of these elements.
pub open spec fn names_version(
    regions: Seq<partition::IndexedRanges>,
    versions: Seq<KeyVersion>,
    count: int,
    array: ArraySpan,
    packed: PackedSpan,
    version: usize,
) -> bool {
    exists|k: int, i: int|
        0 <= k < count && 0 <= i < regions.len() && #[trigger] names_at(
            regions[i],
            #[trigger] versions[k],
            array,
            packed,
            version,
        )
}

pub open spec fn names_at(
    region: partition::IndexedRanges,
    named: KeyVersion,
    array: ArraySpan,
    packed: PackedSpan,
    version: usize,
) -> bool {
    &&& region.id == named.key.id
    &&& region.array == named.key.array
    &&& named.key.array == array
    &&& named.key.index < region.packed@.len()
    &&& region.packed@[named.key.index as int] == packed
    &&& named.version == version
}

/// The versions of the ranges that meet `packed`, among the first `count`.
pub open spec fn region_hits(
    regions: Seq<RegionVersion>,
    packed: PackedSpan,
    count: int,
) -> Seq<usize>
    decreases count,
{
    if count <= 0 {
        Seq::empty()
    } else if partition::spans_meet(regions[count - 1].packed, packed) {
        region_hits(regions, packed, count - 1).push(regions[count - 1].version)
    } else {
        region_hits(regions, packed, count - 1)
    }
}

/// The versions of the ranges of the first `count` groups that meet an access, in their order.
pub open spec fn group_hits(
    groups: Seq<RegionGroup>,
    array: ArraySpan,
    packed: PackedSpan,
    count: int,
) -> Seq<usize>
    decreases count,
{
    if count <= 0 {
        Seq::empty()
    } else if partition::arrays_meet(groups[count - 1].array, array) {
        group_hits(groups, array, packed, count - 1) + region_hits(
            groups[count - 1].regions@,
            packed,
            groups[count - 1].regions@.len() as int,
        )
    } else {
        group_hits(groups, array, packed, count - 1)
    }
}

proof fn lemma_no_region_hits(regions: Seq<RegionVersion>, packed: PackedSpan, from: int, to: int)
    requires
        0 <= from <= to <= regions.len(),
        forall|i: int|
            from <= i < to ==> !partition::spans_meet((#[trigger] regions[i]).packed, packed),
    ensures
        region_hits(regions, packed, to) == region_hits(regions, packed, from),
    decreases to - from,
{
    if from < to {
        lemma_no_region_hits(regions, packed, from, to - 1);
    }
}

proof fn lemma_no_group_hits(
    groups: Seq<RegionGroup>,
    array: ArraySpan,
    packed: PackedSpan,
    from: int,
    to: int,
)
    requires
        0 <= from <= to <= groups.len(),
        forall|i: int|
            from <= i < to ==> !partition::arrays_meet((#[trigger] groups[i]).array, array),
    ensures
        group_hits(groups, array, packed, to) == group_hits(groups, array, packed, from),
    decreases to - from,
{
    if from < to {
        lemma_no_group_hits(groups, array, packed, from, to - 1);
    }
}

impl FormalVersionLayout {
    /// Groups the versions of one variable by elements; versions of keys that are no nodes are left
    /// out.
    pub fn new(versions: &Vec<KeyVersion>, partition: &BitPartition) -> (r: Self)
        requires
            partition.wf(),
            keys_ascend(versions@),
            forall|i: int, j: int|
                0 <= i < versions@.len() && 0 <= j < versions@.len() ==> (
                #[trigger] versions@[i]).key.id == (#[trigger] versions@[j]).key.id,
        ensures
            groups_wf(r.groups@),
            forall|array: ArraySpan, packed: PackedSpan, version: usize| #[trigger]
                lists_version(r.groups@, array, packed, version) <==> names_version(
                    partition.regions@,
                    versions@,
                    versions@.len() as int,
                    array,
                    packed,
                    version,
                ),
    {
        let mut groups: Vec<RegionGroup> = Vec::new();
        let mut i: usize = 0;
        let ghost regions = partition.regions@;
        while i < versions.len()
            invariant
                i <= versions@.len(),
                partition.wf(),
                regions == partition.regions@,
                keys_ascend(versions@),
                forall|i: int, j: int|
                    0 <= i < versions@.len() && 0 <= j < versions@.len() ==> (
                    #[trigger] versions@[i]).key.id == (#[trigger] versions@[j]).key.id,
                groups_wf(groups@),
                groups@.len() > 0 ==> i > 0 && groups@.last().array.start <= versions@[i - 1].key.array.start,
                forall|g: int|
                    0 <= g < groups@.len() ==> i > 0 && is_array(regions, versions@[0].key.id, (#[trigger] groups@[g]).array),
                groups@.len() > 0 ==> last_group_behind(regions, versions@[0].key.id, groups@.last(), versions@[i - 1].key),
                forall|array: ArraySpan, packed: PackedSpan, version: usize| #[trigger]
                    lists_version(groups@, array, packed, version) <==> names_version(
                        regions,
                        versions@,
                        i as int,
                        array,
                        packed,
                        version,
                    ),
            decreases versions@.len() - i,
        {
            let ghost before = groups@;
            let named = versions[i];
            let ghost id = versions@[0].key.id;
            proof {
                assert(named.key.id == id) by {
                    assert(versions@[0].key.id == versions@[i as int].key.id);
                }
                if i > 0 {
                    assert(versions@[i - 1].key.lt(versions@[i as int].key));
                }
            }
            let mut found: Option<PackedSpan> = None;
            if let Some(ranges) = partition.ranges_of(named.key.id, named.key.array) {
                if named.key.index < ranges.len() {
                    found = Some(ranges[named.key.index]);
                }
            }
            let ghost region_number: int = choose|k: int|
                0 <= k < regions.len() && (#[trigger] regions[k]).id == id && regions[k].array == named.key.array;
            match found {
                Some(packed) => {
                    let ghost region = regions[region_number];
                    proof {
                        assert(0 <= region_number < regions.len() && region.id == id && region.array == named.key.array);
                        lemma_one_region(*partition, named.key, region_number);
                        assert(named.key.index < region.packed@.len() && region.packed@[named.key.index as int] == packed);
                        assert(partition::spans_ascend(region.packed@));
                        assert(packed.wf());
                        if before.len() > 0 && before.last().array != named.key.array {
                            lemma_arrays_apart(*partition, id, before.last().array, named.key.array);
                        }
                    }
                    let same: bool = groups.len() > 0 && groups[groups.len() - 1].array == named.key.array;
                    let entry = RegionVersion { packed, version: named.version };
                    if same {
                        let mut last = groups.pop().unwrap();
                        let ghost rows = last.regions@;
                        let ghost array0 = last.array;
                        last.regions.push(entry);
                        let ghost rows1 = last.regions@;
                        groups.push(last);
                        proof {
                            let g = before.len() - 1;
                            assert(groups@ =~= before.update(g, groups@[g]));
                            assert(groups@[g].array == array0 && groups@[g].regions@ == rows.push(entry));
                            assert(last_group_behind(regions, id, before.last(), versions@[i - 1].key));
                            lemma_behind(*partition, id, before.last(), versions@[i - 1].key, named.key, region_number);
                            assert(regions_wf(groups@[g].regions@));
                            assert forall|array: ArraySpan, p: PackedSpan, version: usize| #[trigger] lists_version(groups@, array, p, version) <==> lists_version(before, array, p, version) || (array == named.key.array && p == packed && version == named.version) by {
                                lemma_lists_append(before, groups@, g, entry, array, p, version);
                            }
                        }
                    } else {
                        let mut rows: Vec<RegionVersion> = Vec::new();
                        rows.push(entry);
                        groups.push(RegionGroup { array: named.key.array, regions: rows });
                        proof {
                            let g = before.len() as int;
                            assert(groups@ =~= before.push(groups@[g]));
                            assert(groups@[g].regions@ =~= seq![entry]);
                            assert(regions_wf(groups@[g].regions@));
                            assert forall|x: int, y: int| 0 <= x < y < groups@.len() implies (#[trigger] groups@[x]).array.start + groups@[x].array.length <= (#[trigger] groups@[y]).array.start by {
                                if y == g {
                                    if x < g - 1 {
                                        assert(before[x].array.start + before[x].array.length <= before[g - 1].array.start);
                                    }
                                    assert(before[g - 1].array.bounded());
                                } else {
                                    assert(before[x].array.start + before[x].array.length <= before[y].array.start);
                                }
                            }
                            assert forall|array: ArraySpan, p: PackedSpan, version: usize| #[trigger] lists_version(groups@, array, p, version) <==> lists_version(before, array, p, version) || (array == named.key.array && p == packed && version == named.version) by {
                                lemma_lists_push(before, groups@[g], entry, array, p, version);
                            }
                        }
                    }
                    proof {
                        assert forall|array: ArraySpan, p: PackedSpan, version: usize| #[trigger] lists_version(groups@, array, p, version) <==> names_version(regions, versions@, i + 1, array, p, version) by {
                            lemma_names_step(regions, versions@, i as int, array, p, version);
                            if names_now(regions, versions@[i as int], array, p, version) {
                                let k = choose|k: int| 0 <= k < regions.len() && #[trigger] names_at(regions[k], versions@[i as int], array, p, version);
                                lemma_one_region(*partition, named.key, k);
                                lemma_one_region(*partition, named.key, region_number);
                                lemma_same_region(*partition, k, region_number);
                            }
                            if array == named.key.array && p == packed && version == named.version {
                                assert(names_at(regions[region_number], versions@[i as int], array, p, version));
                            }
                        }
                        assert(last_group_behind(regions, id, groups@.last(), named.key)) by {
                            let rows = groups@.last().regions@;
                            assert(rows[rows.len() - 1] == entry);
                            assert(behind_at(regions, id, groups@.last(), named.key, region_number));
                        }
                        assert(is_array(regions, id, named.key.array));
                    }
                },
                None => {
                    proof {
                        assert forall|array: ArraySpan, p: PackedSpan, version: usize| #[trigger] lists_version(groups@, array, p, version) <==> names_version(regions, versions@, i + 1, array, p, version) by {
                            lemma_names_step(regions, versions@, i as int, array, p, version);
                            if names_now(regions, versions@[i as int], array, p, version) {
                                let k = choose|k: int| 0 <= k < regions.len() && #[trigger] names_at(regions[k], versions@[i as int], array, p, version);
                                lemma_same_region(*partition, k, region_number);
                            }
                        }
                        if groups@.len() > 0 {
                            assert(last_group_behind(regions, id, groups@.last(), versions@[i - 1].key));
                            let previous = versions@[i - 1].key;
                            let group = groups@.last();
                            let k = choose|k: int| behind_at(regions, id, group, previous, k);
                            assert(behind_at(regions, id, groups@.last(), named.key, k));
                        }
                    }
                },
            }
            i = i + 1;
        }
        FormalVersionLayout { groups }
    }

    /// The versions of the regions that an access touches; none where its end does not fit.
    pub fn overlapping(&self, array: ArraySpan, packed: PackedSpan) -> (r: Vec<usize>)
        requires
            groups_wf(self.groups@),
            packed.wf(),
        ensures
            r@ == (if array.bounded() {
                group_hits(self.groups@, array, packed, self.groups@.len() as int)
            } else {
                Seq::empty()
            }),
    {
        let mut r: Vec<usize> = Vec::new();
        let end: usize = match array.end() {
            Some(end) => end,
            None => {
                return r;
            },
        };
        let first: usize = first_group(&self.groups, array.start);
        proof {
            lemma_no_group_hits(self.groups@, array, packed, 0, first as int);
        }
        let mut i: usize = first;
        while i < self.groups.len() && self.groups[i].array.start < end
            invariant
                first <= i <= self.groups@.len(),
                groups_wf(self.groups@),
                packed.wf(),
                array.bounded(),
                end == array.start + array.length,
                forall|k: int|
                    first <= k < self.groups@.len() ==> (#[trigger] self.groups@[k]).array.start
                        + self.groups@[k].array.length > array.start,
                r@ == group_hits(self.groups@, array, packed, i as int),
            decreases self.groups@.len() - i,
        {
            let ghost before = r@;
            if array.length > 0 {
                let regions = &self.groups[i].regions;
                assert(regions_wf(regions@));
                let begin: usize = first_region(regions, packed.start);
                proof {
                    lemma_no_region_hits(regions@, packed, 0, begin as int);
                    assert(before + Seq::<usize>::empty() =~= before);
                }
                let mut j: usize = begin;
                while j < regions.len() && regions[j].packed.start < packed.start + packed.length
                    invariant
                        begin <= j <= regions@.len(),
                        packed.wf(),
                        regions_wf(regions@),
                        forall|k: int|
                            begin <= k < regions@.len() ==> (#[trigger] regions@[k]).packed.start
                                + regions@[k].packed.length > packed.start,
                        r@ == before + region_hits(regions@, packed, j as int),
                    decreases regions@.len() - j,
                {
                    r.push(regions[j].version);
                    j = j + 1;
                }
                proof {
                    assert forall|k: int| j <= k < regions@.len() implies !partition::spans_meet(
                        (#[trigger] regions@[k]).packed,
                        packed,
                    ) by {
                        if k > j {
                            assert(regions@[j as int].packed.start + regions@[j as int].packed.length <= regions@[k].packed.start);
                        }
                    }
                    lemma_no_region_hits(regions@, packed, j as int, regions@.len() as int);
                    assert(partition::arrays_meet(self.groups@[i as int].array, array));
                }
            }
            i = i + 1;
        }
        proof {
            assert forall|k: int| i <= k < self.groups@.len() implies !partition::arrays_meet(
                (#[trigger] self.groups@[k]).array,
                array,
            ) by {
                if k > i {
                    assert(self.groups@[i as int].array.start + self.groups@[i as int].array.length
                        <= self.groups@[k].array.start);
                }
            }
            lemma_no_group_hits(self.groups@, array, packed, i as int, self.groups@.len() as int);
        }
        r
    }
}

/// The elements are those of a region of the variable.
spec fn is_array(regions: Seq<partition::IndexedRanges>, id: u64, array: ArraySpan) -> bool {
    exists|k: int| 0 <= k < regions.len() && (#[trigger] regions[k]).id == id && regions[k].array == array
}

/// The last range of the group is that of a node whose key does not lie behind `key`.
spec fn behind_at(regions: Seq<partition::IndexedRanges>, id: u64, group: RegionGroup, key: NodeKey, k: int) -> bool {
    &&& 0 <= k < regions.len()
    &&& regions[k].id == id
    &&& regions[k].array == group.array
    &&& group.regions@.len() > 0
    &&& exists|index: int| 0 <= index < regions[k].packed@.len() && #[trigger] regions[k].packed@[index] == group.regions@.last().packed && (group.array == key.array
        ==> index <= key.index)
}

spec fn last_group_behind(regions: Seq<partition::IndexedRanges>, id: u64, group: RegionGroup, key: NodeKey) -> bool {
    (group.array.start < key.array.start || group.array == key.array || (group.array.start == key.array.start && group.array.length < key.array.length)) && exists|k: int| behind_at(regions, id, group, key, k)
}

spec fn names_now(regions: Seq<partition::IndexedRanges>, named: KeyVersion, array: ArraySpan, packed: PackedSpan, version: usize) -> bool {
    exists|i: int| 0 <= i < regions.len() && #[trigger] names_at(regions[i], named, array, packed, version)
}

proof fn lemma_names_step(regions: Seq<partition::IndexedRanges>, versions: Seq<KeyVersion>, count: int, array: ArraySpan, packed: PackedSpan, version: usize)
    requires
        0 <= count < versions.len(),
    ensures
        names_version(regions, versions, count + 1, array, packed, version) <==> names_version(regions, versions, count, array, packed, version)
            || names_now(regions, versions[count], array, packed, version),
{
    if names_version(regions, versions, count, array, packed, version) {
        let (k, i) = choose|k: int, i: int| 0 <= k < count && 0 <= i < regions.len() && #[trigger] names_at(regions[i], #[trigger] versions[k], array, packed, version);
        assert(0 <= k < count + 1 && 0 <= i < regions.len() && names_at(regions[i], versions[k], array, packed, version));
    }
    if names_now(regions, versions[count], array, packed, version) {
        let i = choose|i: int| 0 <= i < regions.len() && #[trigger] names_at(regions[i], versions[count], array, packed, version);
        assert(0 <= count < count + 1 && 0 <= i < regions.len() && names_at(regions[i], versions[count], array, packed, version));
    }
}

proof fn lemma_same_region(partition: BitPartition, a: int, b: int)
    requires
        partition.wf(),
        0 <= a < partition.regions@.len(),
        0 <= b < partition.regions@.len(),
        partition.regions@[a].id == partition.regions@[b].id,
        partition.regions@[a].array == partition.regions@[b].array,
    ensures
        a == b,
{
    if a < b {
        assert(partition::region_before(partition.regions@[a], partition.regions@[b]));
    } else if b < a {
        assert(partition::region_before(partition.regions@[b], partition.regions@[a]));
    }
}

proof fn lemma_one_region(partition: BitPartition, key: NodeKey, k: int)
    requires
        partition.wf(),
        0 <= k < partition.regions@.len(),
        partition.regions@[k].id == key.id,
        partition.regions@[k].array == key.array,
    ensures
        forall|i: int| 0 <= i < partition.regions@.len() && (#[trigger] partition.regions@[i]).id == key.id && partition.regions@[i].array == key.array ==> i == k,
{
    assert forall|i: int| 0 <= i < partition.regions@.len() && (#[trigger] partition.regions@[i]).id == key.id && partition.regions@[i].array == key.array implies i == k by {
        lemma_same_region(partition, i, k);
    }
}

proof fn lemma_arrays_apart(partition: BitPartition, id: u64, a: ArraySpan, b: ArraySpan)
    requires
        partition.wf(),
        is_array(partition.regions@, id, a),
        is_array(partition.regions@, id, b),
        a != b,
        a.start <= b.start,
    ensures
        a.start + a.length <= b.start,
{
    let i = choose|i: int| 0 <= i < partition.regions@.len() && (#[trigger] partition.regions@[i]).id == id && partition.regions@[i].array == a;
    let j = choose|j: int| 0 <= j < partition.regions@.len() && (#[trigger] partition.regions@[j]).id == id && partition.regions@[j].array == b;
    if i < j {
        assert(partition::region_before(partition.regions@[i], partition.regions@[j]));
    } else {
        assert(partition::region_before(partition.regions@[j], partition.regions@[i]));
    }
}

/// A later key of the same elements has a range behind the last one of the group.
proof fn lemma_behind(partition: BitPartition, id: u64, group: RegionGroup, last: NodeKey, key: NodeKey, k: int)
    requires
        partition.wf(),
        last_group_behind(partition.regions@, id, group, last),
        last.lt(key),
        last.id == id,
        key.id == id,
        group.array == key.array,
        0 <= k < partition.regions@.len(),
        partition.regions@[k].id == id,
        partition.regions@[k].array == key.array,
        key.index < partition.regions@[k].packed@.len(),
    ensures
        group.regions@.len() > 0,
        group.regions@.last().packed.start + group.regions@.last().packed.length <= partition.regions@[k].packed@[key.index as int].start,
{
    let m = choose|m: int| behind_at(partition.regions@, id, group, last, m);
    lemma_same_region(partition, m, k);
    let packed = partition.regions@[k].packed@;
    let index = choose|index: int| 0 <= index < packed.len() && #[trigger] packed[index] == group.regions@.last().packed && (group.array == last.array ==> index <= last.index);
    assert(partition::spans_ascend(packed));
    assert(group.array == last.array);
    assert(index < key.index);
    assert(packed[index].start + packed[index].length <= packed[key.index as int].start);
}

proof fn lemma_lists_push(before: Seq<RegionGroup>, group: RegionGroup, entry: RegionVersion, array: ArraySpan, packed: PackedSpan, version: usize)
    requires
        group.regions@ == seq![entry],
    ensures
        lists_version(before.push(group), array, packed, version) <==> lists_version(before, array, packed, version) || (array == group.array && packed == entry.packed
            && version == entry.version),
{
    let after = before.push(group);
    if lists_version(before, array, packed, version) {
        let (g, k) = choose|g: int, k: int| 0 <= g < before.len() && before[g].array == array && 0 <= k < before[g].regions@.len() && #[trigger] before[g].regions@[k] == (RegionVersion { packed, version });
        assert(after[g].regions@[k] == (RegionVersion { packed, version }));
    }
    if array == group.array && packed == entry.packed && version == entry.version {
        assert(after[before.len() as int].regions@[0] == (RegionVersion { packed, version }));
    }
    if lists_version(after, array, packed, version) {
        let (g, k) = choose|g: int, k: int| 0 <= g < after.len() && after[g].array == array && 0 <= k < after[g].regions@.len() && #[trigger] after[g].regions@[k] == (RegionVersion { packed, version });
        if g < before.len() {
            assert(before[g].regions@[k] == (RegionVersion { packed, version }));
        }
    }
}

proof fn lemma_lists_append(before: Seq<RegionGroup>, after: Seq<RegionGroup>, at: int, entry: RegionVersion, array: ArraySpan, packed: PackedSpan, version: usize)
    requires
        0 <= at < before.len(),
        after == before.update(at, after[at]),
        after[at].array == before[at].array,
        after[at].regions@ == before[at].regions@.push(entry),
    ensures
        lists_version(after, array, packed, version) <==> lists_version(before, array, packed, version) || (array == before[at].array && packed == entry.packed
            && version == entry.version),
{
    if lists_version(before, array, packed, version) {
        let (g, k) = choose|g: int, k: int| 0 <= g < before.len() && before[g].array == array && 0 <= k < before[g].regions@.len() && #[trigger] before[g].regions@[k] == (RegionVersion { packed, version });
        assert(after[g].regions@[k] == (RegionVersion { packed, version }));
    }
    if array == before[at].array && packed == entry.packed && version == entry.version {
        assert(after[at].regions@[before[at].regions@.len() as int] == (RegionVersion { packed, version }));
    }
    if lists_version(after, array, packed, version) {
        let (g, k) = choose|g: int, k: int| 0 <= g < after.len() && after[g].array == array && 0 <= k < after[g].regions@.len() && #[trigger] after[g].regions@[k] == (RegionVersion { packed, version });
        if g != at || k < before[at].regions@.len() {
            assert(before[g].regions@[k] == (RegionVersion { packed, version }));
        }
    }
}

/// The versions that a read of a variable found, and those of its selectors.
pub struct FrozenVariableRead {
    pub selectors: Vec<usize>,
    pub versions: Vec<KeyVersion>,
}

impl FrozenVariableRead {
    /// The version that the read found at a node.
    pub fn version(&self, key: NodeKey) -> (r: Option<usize>)
        requires
            keys_ascend(self.versions@),
        ensures
            match r {
                Some(version) => self.versions@.contains(KeyVersion { key, version }),
                None => forall|i: int|
                    0 <= i < self.versions@.len() ==> (#[trigger] self.versions@[i]).key != key,
            },
    {
        let mut low: usize = 0;
        let mut high: usize = self.versions.len();
        while low < high
            invariant
                keys_ascend(self.versions@),
                low <= high <= self.versions@.len(),
                forall|i: int| 0 <= i < low ==> (#[trigger] self.versions@[i]).key.lt(key),
                forall|i: int| high <= i < self.versions@.len() ==> !(#[trigger] self.versions@[i]).key.lt(key) && self.versions@[i].key != key,
            decreases high - low,
        {
            let middle: usize = low + (high - low) / 2;
            let here = self.versions[middle];
            if here.key == key {
                assert(self.versions@[middle as int] == (KeyVersion { key, version: here.version }));
                return Some(here.version);
            }
            if here.key.less(key) {
                proof {
                    assert forall|i: int| 0 <= i < middle + 1 implies (#[trigger] self.versions@[i]).key.lt(key) by {
                        if i < middle {
                            assert(self.versions@[i].key.lt(self.versions@[middle as int].key));
                            NodeKey::lt_transitive(self.versions@[i].key, here.key, key);
                        }
                    }
                }
                low = middle + 1;
            } else {
                proof {
                    NodeKey::lt_total(here.key, key);
                    assert forall|i: int| middle <= i < self.versions@.len() implies !(#[trigger] self.versions@[i]).key.lt(key) && self.versions@[i].key != key by {
                        if i > middle {
                            assert(self.versions@[middle as int].key.lt(self.versions@[i].key));
                            NodeKey::lt_transitive(key, here.key, self.versions@[i].key);
                        }
                        NodeKey::lt_irreflexive(key);
                        if self.versions@[i].key.lt(key) {
                            NodeKey::lt_transitive(key, self.versions@[i].key, key);
                        }
                    }
                }
                high = middle;
            }
        }
        proof {
            NodeKey::lt_irreflexive(key);
        }
        None
    }
}

/// One part of a packed value: `repeat` copies of an item of `item_width` bits.
#[derive(Clone, Copy, Debug, PartialEq, Eq)]
pub struct PackedProjectionFragment {
    pub part: usize,
    pub output_start: usize,
    pub item_width: usize,
    pub repeat: usize,
}

impl PackedProjectionFragment {
    /// Where the part ends; nothing where that does not fit.
    pub fn output_end(self) -> (r: Option<usize>)
        ensures
            r is Some <==> self.output_start + self.item_width * self.repeat <= usize::MAX,
            r matches Some(end) ==> end == self.output_start + self.item_width * self.repeat,
    {
        match self.item_width.checked_mul(self.repeat) {
            Some(width) => width.checked_add(self.output_start),
            None => None,
        }
    }
}

/// Where the parts of a value lie along its bits.
pub struct PackedProjectionLayout {
    pub fragments: Vec<PackedProjectionFragment>,
    pub controls: Vec<usize>,
}

/// One item of an array value: `repeat` copies of `item_length` elements.
#[derive(Clone, Copy, Debug, PartialEq, Eq)]
pub struct ArrayProjectionFragment {
    pub item: usize,
    pub output_start: usize,
    pub item_length: usize,
    pub repeat: usize,
    pub output_length: usize,
}

impl ArrayProjectionFragment {
    /// Where the item ends; nothing where that does not fit.
    pub fn output_end(self) -> (r: Option<usize>)
        ensures
            r is Some <==> self.output_start + self.output_length <= usize::MAX,
            r matches Some(end) ==> end == self.output_start + self.output_length,
    {
        self.output_start.checked_add(self.output_length)
    }
}

/// Where the items of a value lie along its elements.
pub struct ArrayProjectionLayout {
    pub fragments: Vec<ArrayProjectionFragment>,
    pub controls: Vec<usize>,
    pub total: usize,
}

/// What was found while one right-hand side was evaluated, by the number of the occurrence. A
/// lookup shares what was found.
pub struct EvaluationCache {
    pub calls: HashMap<usize, Rc<CallResult>>,
    pub variable_reads: HashMap<usize, Rc<FrozenVariableRead>>,
    pub packed_layouts: HashMap<usize, Rc<PackedProjectionLayout>>,
    pub array_layouts: HashMap<usize, Rc<ArrayProjectionLayout>>,
    pub struct_layouts: HashMap<usize, Rc<PackedProjectionLayout>>,
}

impl EvaluationCache {
    /// An empty cache.
    pub fn new() -> (r: Self)
        ensures
            r.calls@.dom() == Set::<usize>::empty(),
            r.variable_reads@.dom() == Set::<usize>::empty(),
            r.packed_layouts@.dom() == Set::<usize>::empty(),
            r.array_layouts@.dom() == Set::<usize>::empty(),
            r.struct_layouts@.dom() == Set::<usize>::empty(),
    {
        broadcast use vstd::std_specs::hash::group_hash_axioms;

        EvaluationCache {
            calls: HashMap::new(),
            variable_reads: HashMap::new(),
            packed_layouts: HashMap::new(),
            array_layouts: HashMap::new(),
            struct_layouts: HashMap::new(),
        }
    }
}

/// The nodes that an access touches and whose elements no constant coordinate excludes, in
/// ascending order.
pub fn filtered_actual_keys(
    partition: &BitPartition,
    parent: u64,
    array: ArraySpan,
    packed: PackedSpan,
    filters: &StaticArrayFilters,
) -> (r: Vec<NodeKey>)
    requires
        partition.wf(),
        packed.wf(),
    ensures
        order::strictly_sorted(r@),
        forall|key: NodeKey| #[trigger]
            r@.contains(key) <==> partition.selects(parent, array, packed, key) && filter_keeps(
                key.array,
                array,
                filters.filters@,
            ),
{
    let keys = partition.overlapping_access(parent, array, packed);
    let mut r: Vec<NodeKey> = Vec::new();
    let mut i: usize = 0;
    while i < keys.len()
        invariant
            i <= keys@.len(),
            order::strictly_sorted(keys@),
            order::strictly_sorted(r@),
            forall|key: NodeKey| #[trigger] r@.contains(key) ==> keys@.take(i as int).contains(key),
            forall|key: NodeKey| #[trigger]
                r@.contains(key) <==> keys@.take(i as int).contains(key) && filter_keeps(
                    key.array,
                    array,
                    filters.filters@,
                ),
        decreases keys@.len() - i,
    {
        let key = keys[i];
        let ghost before = r@;
        let common = key.array.intersection(array);
        let keep: bool = match common {
            Some(span) => filters.may_select(span),
            None => false,
        };
        proof {
            assert forall|span: ArraySpan| key.array.bounded() && array.bounded() && span.length > 0 && #[trigger] projection::is_intersection(key.array, array, span) implies keep == (forall|
                k: int,
            |
                0 <= k < filters.filters@.len() ==> projection::may_overlap(span, #[trigger] filters.filters@[k])) by {
                assert(span.has(span.start as int));
                assert(key.array.has(span.start as int));
                assert(projection::is_intersection(key.array, array, common->0));
                projection::intersection_is_unique(key.array, array, span, common->0);
            }
            lemma_keeps(key.array, array, filters.filters@, keep);
        }
        if keep {
            r.push(key);
        }
        proof {
            assert(keys@.take(i + 1) =~= keys@.take(i as int).push(key));
            assert forall|k: NodeKey| #[trigger] r@.contains(k) <==> keys@.take(i + 1).contains(k) && filter_keeps(k.array, array, filters.filters@) by {
                partition::lemma_contains_push(keys@.take(i as int), key, k);
                if keep {
                    partition::lemma_contains_push(before, key, k);
                    assert(r@ =~= before.push(key));
                }
            }
            assert forall|x: int, y: int| 0 <= x < y < r@.len() implies (#[trigger] r@[x]).lt(#[trigger] r@[y]) by {
                if keep && y == r@.len() - 1 {
                    assert(before.contains(before[x]));
                    let m = choose|m: int| 0 <= m < keys@.take(i as int).len() && keys@.take(i as int)[m] == before[x];
                    assert(keys@[m].lt(keys@[i as int]));
                } else {
                    assert(before[x].lt(before[y]));
                }
            }
        }
        i = i + 1;
    }
    assert(keys@.take(i as int) =~= keys@);
    r
}

/// The elements of a node that an access touches are not all excluded.
pub open spec fn filter_keeps(
    key: ArraySpan,
    array: ArraySpan,
    filters: Seq<projection::PeriodicArrayFilter>,
) -> bool {
    key.bounded() && array.bounded() && exists|span: ArraySpan|
        span.length > 0 && #[trigger] projection::is_intersection(key, array, span) && (forall|
            i: int,
        |
            0 <= i < filters.len() ==> projection::may_overlap(span, #[trigger] filters[i]))
}

proof fn lemma_keeps(
    key: ArraySpan,
    array: ArraySpan,
    filters: Seq<projection::PeriodicArrayFilter>,
    keep: bool,
)
    requires
        !(key.bounded() && array.bounded() && exists|element: int| #[trigger]
            key.has(element) && array.has(element)) ==> !keep,
        forall|span: ArraySpan|
            key.bounded() && array.bounded() && span.length > 0 && #[trigger] projection::is_intersection(key, array, span) ==> keep == (forall|
                i: int,
            |
                0 <= i < filters.len() ==> projection::may_overlap(span, #[trigger] filters[i])),
    ensures
        keep == filter_keeps(key, array, filters),
{
    if keep {
        let element = choose|element: int| #[trigger] key.has(element) && array.has(element);
        let start = if key.start < array.start { array.start } else { key.start };
        let end = if key.start + key.length < array.start + array.length { key.start + key.length } else { array.start + array.length };
        let span = ArraySpan { start, length: (end - start) as usize };
        assert(projection::is_intersection(key, array, span));
    }
}

} // verus!
