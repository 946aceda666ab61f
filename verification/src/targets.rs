//! The nodes that accesses read and write.
use vstd::prelude::*;
use crate::instance;
use crate::instance::key_span;
use crate::ir::{Access, Region};
use crate::order;
use crate::order::sort_dedup;
use crate::partition;
use crate::partition::{BitPartition, NodeKey};
use crate::projection;
use crate::projection::{destination_array_projection, DestinationArrayProjection, DestinationArraySelection};
use crate::span::{ArraySpan, PackedSpan};

verus! {

/// The node is one of the variable.
pub open spec fn node_of(partition: BitPartition, id: u64, key: NodeKey) -> bool {
    key.id == id && partition.is_node(key)
}

/// All nodes of a variable.
pub fn keys_for_id(partition: &BitPartition, id: u64) -> (r: Vec<NodeKey>)
    requires
        partition.wf(),
    ensures
        order::strictly_sorted(r@),
        forall|key: NodeKey| #[trigger] r@.contains(key) <==> node_of(*partition, id, key),
{
    let mut keys: Vec<NodeKey> = Vec::new();
    let mut i: usize = 0;
    while i < partition.regions.len()
        invariant
            i <= partition.regions@.len(),
            forall|key: NodeKey| #[trigger] keys@.contains(key) <==> node_before(*partition, id, key, i as int),
        decreases partition.regions@.len() - i,
    {
        let ghost before = keys@;
        let region = &partition.regions[i];
        if region.id == id {
            let mut k: usize = 0;
            while k < region.packed.len()
                invariant
                    i < partition.regions@.len(),
                    *region == partition.regions@[i as int],
                    region.id == id,
                    k <= region.packed@.len(),
                    forall|key: NodeKey| #[trigger]
                        keys@.contains(key) <==> node_before(*partition, id, key, i as int) || (key.id == id && key.array == region.array && key.index < k),
                decreases region.packed@.len() - k,
            {
                let ghost known = keys@;
                let added = NodeKey { id, array: region.array, index: k };
                keys.push(added);
                proof {
                    assert forall|key: NodeKey| #[trigger] keys@.contains(key) <==> node_before(*partition, id, key, i as int) || (key.id == id && key.array == region.array && key.index < k + 1) by {
                        let here = known.contains(key);
                        partition::lemma_contains_push(known, added, key);
                    }
                }
                k = k + 1;
            }
        }
        proof {
            assert forall|key: NodeKey| #[trigger] keys@.contains(key) <==> node_before(*partition, id, key, i + 1) by {
                let here = node_before(*partition, id, key, i as int);
                if here {
                    let j = choose|j: int| 0 <= j < i && #[trigger] node_in(*partition, id, key, j);
                    assert(node_in(*partition, id, key, j));
                }
                if node_in(*partition, id, key, i as int) {
                    assert(node_before(*partition, id, key, i + 1));
                }
                if node_before(*partition, id, key, i + 1) && !here {
                    let j = choose|j: int| 0 <= j < i + 1 && #[trigger] node_in(*partition, id, key, j);
                    assert(j == i);
                }
            }
        }
        i = i + 1;
    }
    let r = sort_dedup(&keys);
    proof {
        assert forall|key: NodeKey| #[trigger] r@.contains(key) <==> node_of(*partition, id, key) by {
            assert(r@.contains(key) <==> keys@.contains(key));
            if node_of(*partition, id, key) {
                let j = choose|j: int|
                    0 <= j < partition.regions@.len() && (#[trigger] partition.regions@[j]).id == key.id && partition.regions@[j].array == key.array && key.index
                        < partition.regions@[j].packed@.len();
                assert(node_in(*partition, id, key, j));
            }
            if node_before(*partition, id, key, i as int) {
                let j = choose|j: int| 0 <= j < i && #[trigger] node_in(*partition, id, key, j);
                assert(partition.regions@[j].id == key.id);
            }
        }
    }
    r
}

/// All nodes of the partition.
pub fn all_nodes(partition: &BitPartition) -> (r: Vec<NodeKey>)
    requires
        partition.wf(),
    ensures
        order::strictly_sorted(r@),
        forall|key: NodeKey| #[trigger] r@.contains(key) <==> partition.is_node(key),
{
    let mut keys: Vec<NodeKey> = Vec::new();
    let mut i: usize = 0;
    while i < partition.regions.len()
        invariant
            i <= partition.regions@.len(),
            forall|key: NodeKey| #[trigger] keys@.contains(key) <==> node_before(*partition, key.id, key, i as int),
        decreases partition.regions@.len() - i,
    {
        let region = &partition.regions[i];
        let ghost before = keys@;
        let mut k: usize = 0;
        while k < region.packed.len()
            invariant
                i < partition.regions@.len(),
                *region == partition.regions@[i as int],
                k <= region.packed@.len(),
                forall|key: NodeKey| #[trigger]
                    keys@.contains(key) <==> node_before(*partition, key.id, key, i as int) || (key.id == region.id && key.array == region.array && key.index < k),
            decreases region.packed@.len() - k,
        {
            let ghost known = keys@;
            let added = NodeKey { id: region.id, array: region.array, index: k };
            keys.push(added);
            proof {
                assert forall|key: NodeKey| #[trigger] keys@.contains(key) <==> node_before(*partition, key.id, key, i as int) || (key.id == region.id && key.array
                    == region.array && key.index < k + 1) by {
                    let here = known.contains(key);
                    partition::lemma_contains_push(known, added, key);
                }
            }
            k = k + 1;
        }
        proof {
            assert forall|key: NodeKey| #[trigger] keys@.contains(key) <==> node_before(*partition, key.id, key, i + 1) by {
                let here = node_before(*partition, key.id, key, i as int);
                if here {
                    let j = choose|j: int| 0 <= j < i && #[trigger] node_in(*partition, key.id, key, j);
                    assert(node_in(*partition, key.id, key, j));
                }
                if node_in(*partition, key.id, key, i as int) {
                    assert(node_before(*partition, key.id, key, i + 1));
                }
                if node_before(*partition, key.id, key, i + 1) && !here {
                    let j = choose|j: int| 0 <= j < i + 1 && #[trigger] node_in(*partition, key.id, key, j);
                    assert(j == i);
                }
            }
        }
        i = i + 1;
    }
    let r = sort_dedup(&keys);
    proof {
        assert forall|key: NodeKey| #[trigger] r@.contains(key) <==> partition.is_node(key) by {
            assert(r@.contains(key) <==> keys@.contains(key));
            if partition.is_node(key) {
                let j = choose|j: int|
                    0 <= j < partition.regions@.len() && (#[trigger] partition.regions@[j]).id == key.id && partition.regions@[j].array == key.array && key.index
                        < partition.regions@[j].packed@.len();
                assert(node_in(*partition, key.id, key, j));
            }
            if node_before(*partition, key.id, key, i as int) {
                let j = choose|j: int| 0 <= j < i && #[trigger] node_in(*partition, key.id, key, j);
                assert(partition.regions@[j].id == key.id);
            }
        }
    }
    r
}

pub open spec fn node_in(partition: BitPartition, id: u64, key: NodeKey, i: int) -> bool {
    key.id == id && partition.regions@[i].id == id && partition.regions@[i].array == key.array && key.index < partition.regions@[i].packed@.len()
}

pub open spec fn node_before(partition: BitPartition, id: u64, key: NodeKey, count: int) -> bool {
    exists|i: int| 0 <= i < count && #[trigger] node_in(partition, id, key, i)
}

/// One of the regions touches the node.
pub open spec fn touched(partition: BitPartition, id: u64, regions: Seq<Region>, key: NodeKey) -> bool {
    exists|i: int| 0 <= i < regions.len() && #[trigger] region_touches(partition, id, regions[i], key)
}

pub open spec fn region_touches(partition: BitPartition, id: u64, region: Region, key: NodeKey) -> bool {
    region.packed.wf() && partition.selects(id, region.array, region.packed, key)
}

/// The nodes that regions of a variable touch.
fn touched_keys(partition: &BitPartition, id: u64, regions: &Vec<Region>) -> (r: Vec<NodeKey>)
    requires
        partition.wf(),
    ensures
        order::strictly_sorted(r@),
        forall|key: NodeKey| #[trigger] r@.contains(key) <==> touched(*partition, id, regions@, key),
{
    let mut keys: Vec<NodeKey> = Vec::new();
    let mut i: usize = 0;
    while i < regions.len()
        invariant
            i <= regions@.len(),
            partition.wf(),
            forall|key: NodeKey| #[trigger] keys@.contains(key) <==> touched(*partition, id, regions@.take(i as int), key),
        decreases regions@.len() - i,
    {
        let ghost before = keys@;
        let ghost more: Seq<NodeKey> = Seq::empty();
        let region = regions[i];
        if let Some(packed) = PackedSpan::new(region.packed.start, region.packed.length) {
            let found = partition.overlapping_access(id, region.array, packed);
            extend_keys(&mut keys, &found);
            proof {
                more = found@;
            }
        }
        proof {
            let taken = regions@.take(i as int);
            let longer = regions@.take(i + 1);
            assert forall|key: NodeKey| #[trigger] keys@.contains(key) <==> touched(*partition, id, longer, key) by {
                let here = before.contains(key);
                let there = more.contains(key);
                assert(there <==> region_touches(*partition, id, region, key));
                if touched(*partition, id, taken, key) {
                    let k = choose|k: int| 0 <= k < taken.len() && #[trigger] region_touches(*partition, id, taken[k], key);
                    assert(region_touches(*partition, id, longer[k], key));
                }
                if there {
                    assert(region_touches(*partition, id, longer[i as int], key));
                }
                if touched(*partition, id, longer, key) {
                    let k = choose|k: int| 0 <= k < longer.len() && #[trigger] region_touches(*partition, id, longer[k], key);
                    if k < i {
                        assert(region_touches(*partition, id, taken[k], key));
                    }
                }
            }
        }
        i = i + 1;
    }
    let r = sort_dedup(&keys);
    proof {
        assert(regions@.take(i as int) =~= regions@);
        assert forall|key: NodeKey| #[trigger] r@.contains(key) <==> touched(*partition, id, regions@, key) by {
            assert(r@.contains(key) <==> keys@.contains(key));
        }
    }
    r
}

fn extend_keys(list: &mut Vec<NodeKey>, more: &Vec<NodeKey>)
    ensures
        forall|key: NodeKey| #[trigger] final(list)@.contains(key) <==> old(list)@.contains(key) || more@.contains(key),
{
    let ghost before = list@;
    let mut i: usize = 0;
    while i < more.len()
        invariant
            i <= more@.len(),
            forall|key: NodeKey| #[trigger] list@.contains(key) <==> before.contains(key) || more@.take(i as int).contains(key),
        decreases more@.len() - i,
    {
        let ghost known = list@;
        list.push(more[i]);
        proof {
            assert(more@.take(i + 1) =~= more@.take(i as int).push(more@[i as int]));
            assert forall|key: NodeKey| #[trigger] list@.contains(key) <==> before.contains(key) || more@.take(i + 1).contains(key) by {
                let here = known.contains(key);
                partition::lemma_contains_push(known, more@[i as int], key);
                partition::lemma_contains_push(more@.take(i as int), more@[i as int], key);
            }
        }
        i = i + 1;
    }
    assert(more@.take(i as int) =~= more@);
}

/// An access to a variable that is not declared, without coordinates: all of it is meant.
pub open spec fn is_whole(access: Access) -> bool {
    !access.declared && access.index@.len() == 0 && access.select@.len() == 0
}

/// The nodes that a destination may write, and whether they are known by region.
pub struct WriteKeys {
    pub keys: Vec<NodeKey>,
    pub resolved: bool,
}

/// The destination may write the node. Where its regions are not known it may write any node of its
/// variable, of a variable of the module only those that the procedure owns.
pub open spec fn may_write(partition: BitPartition, access: Access, owned: Option<Seq<NodeKey>>, key: NodeKey) -> bool {
    if is_whole(access) {
        node_of(partition, access.id, key)
    } else if access.regions@.len() == 0 {
        match owned {
            Some(owned) => owned.contains(key) && key.id == access.id,
            None => node_of(partition, access.id, key),
        }
    } else {
        touched(partition, access.id, access.regions@, key)
    }
}

pub open spec fn keys_view(owned: Option<&Vec<NodeKey>>) -> Option<Seq<NodeKey>> {
    match owned {
        Some(keys) => Some(keys@),
        None => None,
    }
}

/// The nodes are those that a destination may write.
pub open spec fn are_written(partition: BitPartition, access: Access, owned: Option<Seq<NodeKey>>, r: WriteKeys) -> bool {
    &&& order::strictly_sorted(r.keys@)
    &&& forall|key: NodeKey| #[trigger] r.keys@.contains(key) <==> may_write(partition, access, owned, key)
    &&& r.resolved == (is_whole(access) || access.regions@.len() > 0)
}

/// The nodes that a destination may write. `owned` holds the nodes that the procedure owns where the
/// variable is one of the module.
pub fn write_keys(partition: &BitPartition, access: &Access, owned: Option<&Vec<NodeKey>>) -> (r: WriteKeys)
    requires
        partition.wf(),
    ensures
        are_written(*partition, *access, keys_view(owned), r),
{
    if !access.declared && access.index.len() == 0 && access.select.len() == 0 {
        return WriteKeys { keys: keys_for_id(partition, access.id), resolved: true };
    }
    if access.regions.len() == 0 {
        let keys = match owned {
            Some(owned) => {
                let list = keys_with_id(owned, access.id);
                let r = sort_dedup(&list);
                proof {
                    assert forall|key: NodeKey| #[trigger] r@.contains(key) <==> owned@.contains(key) && key.id == access.id by {
                        assert(r@.contains(key) <==> list@.contains(key));
                    }
                }
                r
            },
            None => keys_for_id(partition, access.id),
        };
        return WriteKeys { keys, resolved: false };
    }
    WriteKeys { keys: touched_keys(partition, access.id, &access.regions), resolved: true }
}

fn keys_with_id(keys: &Vec<NodeKey>, id: u64) -> (r: Vec<NodeKey>)
    ensures
        forall|key: NodeKey| #[trigger] r@.contains(key) <==> keys@.contains(key) && key.id == id,
{
    let mut r: Vec<NodeKey> = Vec::new();
    let mut i: usize = 0;
    while i < keys.len()
        invariant
            i <= keys@.len(),
            forall|key: NodeKey| #[trigger] r@.contains(key) <==> keys@.take(i as int).contains(key) && key.id == id,
        decreases keys@.len() - i,
    {
        let ghost before = r@;
        let found = keys[i];
        if found.id == id {
            r.push(found);
        }
        proof {
            assert(keys@.take(i + 1) =~= keys@.take(i as int).push(found));
            assert forall|key: NodeKey| #[trigger] r@.contains(key) <==> keys@.take(i + 1).contains(key) && key.id == id by {
                let here = before.contains(key);
                partition::lemma_contains_push(keys@.take(i as int), found, key);
                if found.id == id {
                    partition::lemma_contains_push(before, found, key);
                }
            }
        }
        i = i + 1;
    }
    assert(keys@.take(i as int) =~= keys@);
    r
}

/// How a value written to `candidates` reaches the elements of a key.
pub open spec fn reaches(key: ArraySpan, candidates: ArraySpan, selection: DestinationArraySelection, r: Option<DestinationArrayProjection>) -> bool {
    &&& !(key.bounded() && candidates.bounded() && exists|element: int| #[trigger] key.has(element) && candidates.has(element)) ==> r is None
    &&& forall|destination: ArraySpan|
        key.bounded() && candidates.bounded() && destination.length > 0 && #[trigger] projection::is_intersection(key, candidates, destination)
            ==> projection::projects_selection(destination, candidates, selection, r)
}

/// A region of the access touches the node at elements that the index selects.
pub open spec fn reads_in(partition: BitPartition, access: Access, selection: DestinationArraySelection, key: NodeKey, i: int) -> bool {
    region_touches(partition, access.id, access.regions@[i], key) && exists|r: DestinationArrayProjection|
        #[trigger] reaches(key.array, access.regions@[i].array, selection, Some(r))
}

pub open spec fn reads_among(partition: BitPartition, access: Access, selection: DestinationArraySelection, key: NodeKey, count: int) -> bool {
    exists|i: int| 0 <= i < count && #[trigger] reads_in(partition, access, selection, key, i)
}

/// The index selects no element of the node in any region that touches it.
pub open spec fn passes_by(partition: BitPartition, access: Access, selection: DestinationArraySelection, key: NodeKey, count: int) -> bool {
    forall|i: int|
        0 <= i < count && #[trigger] region_touches(partition, access.id, access.regions@[i], key) ==> reaches(key.array, access.regions@[i].array, selection, None)
}

/// The list holds the nodes that an access reads.
pub open spec fn are_read(partition: BitPartition, access: Access, selection: DestinationArraySelection, list: Seq<NodeKey>) -> bool {
    &&& order::strictly_sorted(list)
    &&& is_whole(access) ==> forall|key: NodeKey| #[trigger] list.contains(key) <==> node_of(partition, access.id, key)
    &&& !is_whole(access) ==> forall|key: NodeKey| #[trigger] list.contains(key) ==> reads_among(partition, access, selection, key, access.regions@.len() as int)
    &&& !is_whole(access) ==> forall|key: NodeKey| !(#[trigger] list.contains(key)) ==> passes_by(partition, access, selection, key, access.regions@.len() as int)
}

/// The nodes that an access reads. Nothing is read where its regions are not known.
pub fn read_keys(partition: &BitPartition, access: &Access, selection: &DestinationArraySelection) -> (r: Vec<NodeKey>)
    requires
        partition.wf(),
    ensures
        are_read(*partition, *access, *selection, r@),
{
    if !access.declared && access.index.len() == 0 && access.select.len() == 0 {
        return keys_for_id(partition, access.id);
    }
    let mut keys: Vec<NodeKey> = Vec::new();
    let mut i: usize = 0;
    while i < access.regions.len()
        invariant
            i <= access.regions@.len(),
            partition.wf(),
            forall|key: NodeKey| #[trigger] keys@.contains(key) ==> reads_among(*partition, *access, *selection, key, i as int),
            forall|key: NodeKey| !(#[trigger] keys@.contains(key)) ==> passes_by(*partition, *access, *selection, key, i as int),
        decreases access.regions@.len() - i,
    {
        let region = access.regions[i];
        let ghost before = keys@;
        let found = selected_in(partition, access, region, selection);
        extend_keys(&mut keys, &found);
        proof {
            assert forall|key: NodeKey| #[trigger] keys@.contains(key) implies reads_among(*partition, *access, *selection, key, i + 1) by {
                let here = before.contains(key);
                if here {
                    let k = choose|k: int| 0 <= k < i && #[trigger] reads_in(*partition, *access, *selection, key, k);
                    assert(reads_in(*partition, *access, *selection, key, k));
                } else {
                    assert(found@.contains(key));
                    assert(reads_in(*partition, *access, *selection, key, i as int));
                }
            }
            assert forall|key: NodeKey| !(#[trigger] keys@.contains(key)) implies passes_by(*partition, *access, *selection, key, i + 1) by {
                let here = before.contains(key);
                let there = found@.contains(key);
                assert(passes_by(*partition, *access, *selection, key, i as int));
            }
        }
        i = i + 1;
    }
    let r = sort_dedup(&keys);
    proof {
        assert forall|key: NodeKey| #[trigger] r@.contains(key) <==> keys@.contains(key) by {}
    }
    r
}

/// The nodes of one region that the index selects.
fn selected_in(partition: &BitPartition, access: &Access, region: Region, selection: &DestinationArraySelection) -> (r: Vec<NodeKey>)
    requires
        partition.wf(),
    ensures
        forall|key: NodeKey| #[trigger]
            r@.contains(key) ==> region_touches(*partition, access.id, region, key) && exists|p: DestinationArrayProjection| #[trigger] reaches(key.array, region.array, *selection, Some(p)),
        forall|key: NodeKey| !(#[trigger] r@.contains(key)) && region_touches(*partition, access.id, region, key) ==> reaches(key.array, region.array, *selection, None),
{
    let mut r: Vec<NodeKey> = Vec::new();
    let packed = match PackedSpan::new(region.packed.start, region.packed.length) {
        Some(packed) => packed,
        None => {
            return r;
        },
    };
    let found = partition.overlapping_access(access.id, region.array, packed);
    let mut k: usize = 0;
    while k < found.len()
        invariant
            k <= found@.len(),
            region.packed.wf(),
            forall|key: NodeKey| #[trigger] found@.contains(key) <==> partition.selects(access.id, region.array, region.packed, key),
            forall|key: NodeKey| #[trigger]
                r@.contains(key) ==> region_touches(*partition, access.id, region, key) && exists|p: DestinationArrayProjection| #[trigger] reaches(key.array, region.array, *selection, Some(p)),
            forall|key: NodeKey| !(#[trigger] r@.contains(key)) && found@.take(k as int).contains(key) ==> reaches(key.array, region.array, *selection, None),
        decreases found@.len() - k,
    {
        let ghost known = r@;
        let key = found[k];
        let projected = destination_array_projection(key.array, region.array, selection);
        assert(reaches(key.array, region.array, *selection, projected));
        if projected.is_some() {
            r.push(key);
        }
        proof {
            assert(found@.take(k + 1) =~= found@.take(k as int).push(key));
            assert(found@.contains(key));
            assert forall|n: NodeKey| #[trigger] r@.contains(n) implies region_touches(*partition, access.id, region, n) && exists|p: DestinationArrayProjection| #[trigger] reaches(n.array, region.array, *selection, Some(p)) by {
                partition::lemma_contains_push(known, key, n);
                if !known.contains(n) {
                    assert(reaches(n.array, region.array, *selection, Some(projected->0)));
                }
            }
            assert forall|n: NodeKey| !(#[trigger] r@.contains(n)) && found@.take(k + 1).contains(n) implies reaches(n.array, region.array, *selection, None) by {
                partition::lemma_contains_push(found@.take(k as int), key, n);
                partition::lemma_contains_push(known, key, n);
            }
        }
        k = k + 1;
    }
    assert(found@.take(k as int) =~= found@);
    r
}

/// A node of a destination, with how the value reaches its elements.
#[derive(Clone, Copy, Debug, PartialEq, Eq)]
pub struct Target {
    pub node: NodeKey,
    pub span: Option<PackedSpan>,
    /// Missing where the elements written are not known.
    pub array: Option<DestinationArrayProjection>,
}

/// The targets among the first `count` keys: all, less those that the index passes by.
pub open spec fn lists_targets(partition: BitPartition, keys: Seq<NodeKey>, candidates: Option<ArraySpan>, selection: DestinationArraySelection, count: int, list: Seq<Target>) -> bool
    decreases count,
{
    if count <= 0 {
        list.len() == 0
    } else {
        let key = keys[count - 1];
        match candidates {
            None => list.len() > 0 && list.last() == (Target { node: key, span: instance::key_span_of(partition, key), array: None }) && lists_targets(
                partition,
                keys,
                candidates,
                selection,
                count - 1,
                list.drop_last(),
            ),
            Some(candidates) => ({
                ||| reaches(key.array, candidates, selection, None) && lists_targets(partition, keys, Some(candidates), selection, count - 1, list)
                ||| list.len() > 0 && list.last().array is Some && list.last() == (Target {
                    node: key,
                    span: instance::key_span_of(partition, key),
                    array: list.last().array,
                }) && reaches(key.array, candidates, selection, list.last().array) && lists_targets(
                    partition,
                    keys,
                    Some(candidates),
                    selection,
                    count - 1,
                    list.drop_last(),
                )
            }),
        }
    }
}

/// The elements that a destination writes first.
pub open spec fn first_elements(access: Access) -> Option<ArraySpan> {
    if access.regions@.len() > 0 {
        Some(access.regions@[0].array)
    } else {
        None
    }
}

/// The targets of a destination.
pub fn destination_targets(partition: &BitPartition, access: &Access, keys: &Vec<NodeKey>, selection: &DestinationArraySelection) -> (r: Vec<Target>)
    requires
        partition.wf(),
    ensures
        lists_targets(*partition, keys@, first_elements(*access), *selection, keys@.len() as int, r@),
{
    let candidates: Option<ArraySpan> = if access.regions.len() > 0 { Some(access.regions[0].array) } else { None };
    let mut r: Vec<Target> = Vec::new();
    let mut i: usize = 0;
    while i < keys.len()
        invariant
            i <= keys@.len(),
            partition.wf(),
            candidates == first_elements(*access),
            lists_targets(*partition, keys@, candidates, *selection, i as int, r@),
        decreases keys@.len() - i,
    {
        let node = keys[i];
        let ghost before = r@;
        match candidates {
            None => {
                r.push(Target { node, span: key_span(partition, node), array: None });
                assert(r@.drop_last() =~= before);
            },
            Some(elements) => {
                let array = destination_array_projection(node.array, elements, selection);
                assert(reaches(node.array, elements, *selection, array));
                if array.is_some() {
                    r.push(Target { node, span: key_span(partition, node), array });
                    assert(r@.drop_last() =~= before);
                }
            },
        }
        i = i + 1;
    }
    r
}

} // verus!
