//! What has to be known of the actuals of an instance.
use vstd::prelude::*;
use crate::arena::{PathArena, PathCondition};
use crate::collect::PortRange;
use crate::fragments::SummaryRegion;
use crate::instance;
use crate::instance::{child_source_region_for_destination, instance_region_mapping, MappedNode, PortDirection, RegionProjection, RegionSource, SourceOffset};
use crate::order;
use crate::order::{sort_dedup, Ordered};
use crate::partition;
use crate::partition::{BitPartition, NodeKey};
use crate::path;
use crate::path::{BranchId, Choice};
use crate::relation::PositionRelation;
use crate::remap;
use crate::span::PackedSpan;
use crate::through;
use crate::through::{Instance, ModuleSummary, PortConnection, RegionDependency, SummaryNodeKind};

verus! {

impl Ordered for SummaryRegion {
    open spec fn lt(self, other: Self) -> bool {
        if self.id != other.id {
            self.id < other.id
        } else if self.array.start != other.array.start {
            self.array.start < other.array.start
        } else if self.array.length != other.array.length {
            self.array.length < other.array.length
        } else if self.packed.start != other.packed.start {
            self.packed.start < other.packed.start
        } else {
            self.packed.length < other.packed.length
        }
    }

    proof fn lt_irreflexive(a: Self) {
    }

    proof fn lt_transitive(a: Self, b: Self, c: Self) {
    }

    proof fn lt_total(a: Self, b: Self) {
    }

    fn less(self, other: Self) -> (r: bool) {
        if self.id != other.id {
            self.id < other.id
        } else if self.array.start != other.array.start {
            self.array.start < other.array.start
        } else if self.array.length != other.array.length {
            self.array.length < other.array.length
        } else if self.packed.start != other.packed.start {
            self.packed.start < other.packed.start
        } else {
            self.packed.length < other.packed.length
        }
    }
}

/// Reads without an offset come before those with one.
pub open spec fn offset_lt(a: Option<SourceOffset>, b: Option<SourceOffset>) -> bool {
    match (a, b) {
        (None, Some(_)) => true,
        (Some(a), Some(b)) => a.array < b.array || (a.array == b.array && a.packed < b.packed),
        _ => false,
    }
}

fn offset_less(a: Option<SourceOffset>, b: Option<SourceOffset>) -> (r: bool)
    ensures
        r == offset_lt(a, b),
{
    match (a, b) {
        (None, Some(_)) => true,
        (Some(a), Some(b)) => a.array < b.array || (a.array == b.array && a.packed < b.packed),
        _ => false,
    }
}

impl Ordered for RegionSource {
    open spec fn lt(self, other: Self) -> bool {
        if self.key != other.key {
            self.key.lt(other.key)
        } else if self.offset != other.offset {
            offset_lt(self.offset, other.offset)
        } else {
            self.condition.node < other.condition.node
        }
    }

    proof fn lt_irreflexive(a: Self) {
    }

    proof fn lt_transitive(a: Self, b: Self, c: Self) {
    }

    proof fn lt_total(a: Self, b: Self) {
    }

    fn less(self, other: Self) -> (r: bool) {
        if self.key != other.key {
            self.key.less(other.key)
        } else if self.offset != other.offset {
            offset_less(self.offset, other.offset)
        } else {
            self.condition.node < other.condition.node
        }
    }
}

/// The access to all of a node, whatever holds.
pub open spec fn whole_source(key: NodeKey) -> RegionSource {
    RegionSource { key, offset: None, condition: PathCondition { node: 0 } }
}

/// Accesses to all of some nodes.
pub fn whole_sources(keys: &Vec<NodeKey>) -> (r: Vec<RegionSource>)
    ensures
        r@ == Seq::new(keys@.len(), |i: int| whole_source(keys@[i])),
{
    let mut r: Vec<RegionSource> = Vec::new();
    let mut i: usize = 0;
    while i < keys.len()
        invariant
            i <= keys@.len(),
            r@ == Seq::new(i as nat, |k: int| whole_source(keys@[k])),
        decreases keys@.len() - i,
    {
        r.push(RegionSource { key: keys[i], offset: None, condition: PathCondition { node: 0 } });
        i = i + 1;
        assert(r@ =~= Seq::new(i as nat, |k: int| whole_source(keys@[k])));
    }
    r
}

/// The range touches the node.
pub open spec fn range_selects(partition: BitPartition, range: PortRange, key: NodeKey) -> bool {
    let packed = PackedSpan { start: range.packed_start, length: range.packed_length };
    packed.wf() && partition.selects(range.id, range.array, packed, key)
}

/// The nodes that a range touches.
pub fn range_keys(partition: &BitPartition, range: &PortRange) -> (r: Vec<NodeKey>)
    requires
        partition.wf(),
    ensures
        order::strictly_sorted(r@),
        forall|key: NodeKey| #[trigger] r@.contains(key) <==> range_selects(*partition, *range, key),
{
    match PackedSpan::new(range.packed_start, range.packed_length) {
        Some(packed) => partition.overlapping_access(range.id, range.array, packed),
        None => Vec::new(),
    }
}

/// What an input was found to read: the range that it takes, or what its expressions read; each once
/// and in order, nothing where there is none.
pub fn input_reads(partition: &BitPartition, range: Option<&PortRange>, evaluated: &Vec<RegionSource>) -> (r: Option<Vec<RegionSource>>)
    requires
        partition.wf(),
    ensures
        r matches Some(list) ==> list@.len() > 0 && order::strictly_sorted(list@),
        forall|source: RegionSource| #[trigger]
            reads(*partition, range, evaluated@, source) <==> (r matches Some(list) && list@.contains(source)),
{
    let list = match range {
        Some(range) => {
            let keys = range_keys(partition, range);
            let sources = whole_sources(&keys);
            proof {
                assert forall|source: RegionSource| #[trigger] sources@.contains(source) <==> (range_selects(*partition, *range, source.key) && source == whole_source(source.key)) by {
                    if sources@.contains(source) {
                        let i = choose|i: int| 0 <= i < sources@.len() && sources@[i] == source;
                        assert(keys@.contains(keys@[i]));
                    }
                    if range_selects(*partition, *range, source.key) && source == whole_source(source.key) {
                        assert(keys@.contains(source.key));
                        let i = choose|i: int| 0 <= i < keys@.len() && keys@[i] == source.key;
                        assert(sources@[i] == source);
                    }
                }
            }
            sort_dedup(&sources)
        },
        None => sort_dedup(evaluated),
    };
    proof {
        assert forall|source: RegionSource| #[trigger] reads(*partition, range, evaluated@, source) <==> list@.contains(source) by {
            match range {
                Some(range) => {},
                None => {
                    assert(list@.contains(source) <==> evaluated@.contains(source));
                },
            }
        }
    }
    if list.len() == 0 {
        proof {
            assert forall|source: RegionSource| !(#[trigger] reads(*partition, range, evaluated@, source)) by {
                assert(!list@.contains(source));
            }
        }
        None
    } else {
        Some(list)
    }
}

/// The input reads the node so.
pub open spec fn reads(partition: BitPartition, range: Option<&PortRange>, evaluated: Seq<RegionSource>, source: RegionSource) -> bool {
    match range {
        Some(range) => range_selects(partition, *range, source.key) && source == whole_source(source.key),
        None => evaluated.contains(source),
    }
}

/// The nodes that an output was found to write: those of its range and those of its destinations,
/// each once and in order, nothing where there is none.
pub fn output_writes(partition: &BitPartition, range: Option<&PortRange>, destinations: &Vec<NodeKey>) -> (r: Option<Vec<RegionSource>>)
    requires
        partition.wf(),
    ensures
        r matches Some(list) ==> list@.len() > 0,
        forall|key: NodeKey| #[trigger]
            writes(*partition, range, destinations@, key) <==> (r matches Some(list) && list@.contains(whole_source(key))),
        r matches Some(list) ==> forall|i: int| 0 <= i < list@.len() ==> (#[trigger] list@[i]) == whole_source(list@[i].key),
        r matches Some(list) ==> forall|i: int, j: int| 0 <= i < j < list@.len() ==> (#[trigger] list@[i]).key.lt((#[trigger] list@[j]).key),
{
    let keys = match range {
        Some(range) => range_keys(partition, range),
        None => sort_dedup(destinations),
    };
    proof {
        assert forall|key: NodeKey| #[trigger] writes(*partition, range, destinations@, key) <==> keys@.contains(key) by {
            match range {
                Some(range) => {},
                None => {
                    assert(keys@.contains(key) <==> destinations@.contains(key));
                },
            }
        }
    }
    let list = whole_sources(&keys);
    proof {
        assert forall|key: NodeKey| #[trigger] writes(*partition, range, destinations@, key) <==> list@.contains(whole_source(key)) by {
            if keys@.contains(key) {
                let i = choose|i: int| 0 <= i < keys@.len() && keys@[i] == key;
                assert(list@[i] == whole_source(key));
            }
            if list@.contains(whole_source(key)) {
                let i = choose|i: int| 0 <= i < list@.len() && list@[i] == whole_source(key);
                assert(keys@[i] == key);
            }
        }
    }
    if list.len() == 0 {
        None
    } else {
        Some(list)
    }
}

/// The output writes the node: through its range where it has one, else through its destinations.
pub open spec fn writes(partition: BitPartition, range: Option<&PortRange>, destinations: Seq<NodeKey>, key: NodeKey) -> bool {
    match range {
        Some(range) => range_selects(partition, *range, key),
        None => destinations.contains(key),
    }
}

/// A node selects where an output is written.
pub open spec fn selector_dependency(source: RegionSource, destination: NodeKey) -> RegionDependency {
    RegionDependency {
        source: source.key,
        destination,
        kind: PositionRelation::anything(),
        condition: source.condition,
    }
}

/// Every node that selects where an output is written, with every node written.
pub fn selector_dependencies(reads: &Vec<RegionSource>, destinations: &Vec<NodeKey>) -> (r: Vec<RegionDependency>)
    ensures
        r@.len() == reads@.len() * destinations@.len(),
        forall|i: int, j: int|
            #![trigger reads@[i], destinations@[j]]
            0 <= i < reads@.len() && 0 <= j < destinations@.len() ==> r@[i * destinations@.len() + j] == selector_dependency(reads@[i], destinations@[j]),
{
    let mut r: Vec<RegionDependency> = Vec::new();
    let ghost width = destinations@.len() as int;
    let mut i: usize = 0;
    while i < reads.len()
        invariant
            i <= reads@.len(),
            width == destinations@.len(),
            r@.len() == i * width,
            forall|a: int, b: int|
                #![trigger reads@[a], destinations@[b]]
                0 <= a < i && 0 <= b < width ==> a * width + b < r@.len() && r@[a * width + b] == selector_dependency(reads@[a], destinations@[b]),
        decreases reads@.len() - i,
    {
        let source = reads[i];
        let mut j: usize = 0;
        while j < destinations.len()
            invariant
                i < reads@.len(),
                source == reads@[i as int],
                width == destinations@.len(),
                j <= width,
                r@.len() == i * width + j,
                forall|a: int, b: int|
                    #![trigger reads@[a], destinations@[b]]
                    0 <= a < i && 0 <= b < width ==> a * width + b < i * width && r@[a * width + b] == selector_dependency(reads@[a], destinations@[b]),
                forall|b: int| #![trigger destinations@[b]] 0 <= b < j ==> r@[i * width + b] == selector_dependency(source, destinations@[b]),
            decreases width - j,
        {
            r.push(
                RegionDependency {
                    source: source.key,
                    destination: destinations[j],
                    kind: PositionRelation::whole(),
                    condition: source.condition,
                },
            );
            j = j + 1;
        }
        proof {
            assert((i + 1) * width == i * width + width) by (nonlinear_arith);
            assert forall|a: int, b: int|
                #![trigger reads@[a], destinations@[b]]
                0 <= a < i + 1 && 0 <= b < width implies a * width + b < (i + 1) * width && r@[a * width + b] == selector_dependency(reads@[a], destinations@[b]) by {
                if a < i {
                    assert((a + 1) * width <= i * width) by (nonlinear_arith)
                        requires
                            a + 1 <= i,
                            width >= 0,
                    ;
                }
            }
        }
        i = i + 1;
    }
    r
}

/// The node is one in which a value leaves the child at a port, as far as it is known without the
/// actual of an output.
pub open spec fn leaves_at(instance: Instance, summary: ModuleSummary, partition: BitPartition, i: int, m: MappedNode) -> bool {
    let node = summary.nodes@[i];
    let endpoint = instance.connections@[node.region.id].endpoint;
    let connected = instance.connections@.dom().contains(node.region.id);
    match node.kind {
        SummaryNodeKind::Output => connected && instance::maps_region(endpoint, node.region, PortDirection::Output, None, partition, m),
        SummaryNodeKind::Interface => connected && instance::maps_region(endpoint, node.region, PortDirection::Input, None, partition, m),
        _ => false,
    }
}

/// A dependency that moves positions by fixed offsets needs the region for the node in which it ends.
pub open spec fn needs_region(instance: Instance, summary: ModuleSummary, partition: BitPartition, e: int, m: MappedNode, region: SummaryRegion) -> bool {
    let edge = summary.edges@[e];
    &&& 0 <= e < summary.edges@.len()
    &&& summary.nodes@[edge.source as int].kind == SummaryNodeKind::Input
    &&& edge.kind.array is Some
    &&& edge.kind.packed is Some
    &&& leaves_at(instance, summary, partition, edge.destination as int, m)
    &&& instance::projected_source(
        summary.nodes@[edge.source as int].region,
        summary.nodes@[edge.destination as int].region,
        edge.kind.array->0,
        edge.kind.packed->0,
        m,
        partition,
    ) == RegionProjection::Exact(region)
}

/// The region of an input has to be evaluated: a dependency keeps its position, or starts at that
/// part of it.
pub open spec fn requested(instance: Instance, summary: ModuleSummary, partition: BitPartition, region: SummaryRegion) -> bool {
    requested_whole(summary, region) || requested_part(instance, summary, partition, region, summary.edges@.len() as int)
}

pub open spec fn requested_whole(summary: ModuleSummary, region: SummaryRegion) -> bool {
    exists|i: int|
        0 <= i < summary.nodes@.len() && (#[trigger] summary.nodes@[i]).kind == SummaryNodeKind::Input && summary.positioned(i)
            && summary.nodes@[i].region == region
}

pub open spec fn requested_part(instance: Instance, summary: ModuleSummary, partition: BitPartition, region: SummaryRegion, count: int) -> bool {
    exists|e: int, m: MappedNode| e < count && #[trigger] needs_region(instance, summary, partition, e, m, region)
}

/// The regions of the inputs of an instance that have to be evaluated.
pub fn instance_input_region_requests(instance: &Instance, summary: &ModuleSummary, partition: &BitPartition) -> (r: Vec<SummaryRegion>)
    requires
        summary.wf(),
        partition.wf(),
        forall|id: u64| #[trigger] instance.connections@.dom().contains(id) ==> instance.connections@[id].endpoint.wf(),
    ensures
        order::strictly_sorted(r@),
        forall|region: SummaryRegion| #[trigger] r@.contains(region) <==> requested(*instance, *summary, *partition, region),
{
    let positions = through::positioned_inputs(summary);
    let mut regions: Vec<SummaryRegion> = Vec::new();
    let mut i: usize = 0;
    while i < summary.nodes.len()
        invariant
            i <= summary.nodes@.len(),
            positions@.len() == summary.nodes@.len(),
            forall|k: int| 0 <= k < positions@.len() ==> #[trigger] positions@[k] == summary.positioned(k),
            forall|region: SummaryRegion| #[trigger] regions@.contains(region) <==> whole_before(*summary, region, i as int),
        decreases summary.nodes@.len() - i,
    {
        let ghost before = regions@;
        assert(positions@[i as int] == summary.positioned(i as int));
        let wanted: bool = positions[i] && summary.nodes[i].kind == SummaryNodeKind::Input;
        if wanted {
            regions.push(summary.nodes[i].region);
        }
        proof {
            assert forall|region: SummaryRegion| #[trigger] regions@.contains(region) <==> whole_before(*summary, region, i + 1) by {
                let here = before.contains(region);
                if wanted {
                    partition::lemma_contains_push(before, summary.nodes@[i as int].region, region);
                }
                if whole_before(*summary, region, i as int) {
                    let k = choose|k: int|
                        0 <= k < i && (#[trigger] summary.nodes@[k]).kind == SummaryNodeKind::Input && summary.positioned(k) && summary.nodes@[k].region == region;
                    assert(summary.nodes@[k].region == region);
                }
                if wanted && summary.nodes@[i as int].region == region {
                    assert(whole_before(*summary, region, i + 1));
                }
                if whole_before(*summary, region, i + 1) {
                    let k = choose|k: int|
                        0 <= k < i + 1 && (#[trigger] summary.nodes@[k]).kind == SummaryNodeKind::Input && summary.positioned(k) && summary.nodes@[k].region == region;
                    if k < i {
                        assert(whole_before(*summary, region, i as int));
                    }
                }
            }
        }
        i = i + 1;
    }
    let mut e: usize = 0;
    proof {
        assert forall|region: SummaryRegion| #[trigger] regions@.contains(region) <==> requested_whole(*summary, region) || requested_part(*instance, *summary, *partition, region, 0) by {
            let here = whole_before(*summary, region, i as int);
        }
    }
    while e < summary.edges.len()
        invariant
            e <= summary.edges@.len(),
            summary.wf(),
            partition.wf(),
            forall|id: u64| #[trigger] instance.connections@.dom().contains(id) ==> instance.connections@[id].endpoint.wf(),
            forall|region: SummaryRegion| #[trigger]
                regions@.contains(region) <==> requested_whole(*summary, region) || requested_part(*instance, *summary, *partition, region, e as int),
        decreases summary.edges@.len() - e,
    {
        let ghost before = regions@;
        let more = edge_requests(instance, summary, partition, e);
        append(&mut regions, &more);
        proof {
            assert forall|region: SummaryRegion| #[trigger] regions@.contains(region) <==> requested_whole(*summary, region) || requested_part(*instance, *summary, *partition, region, e + 1) by {
                let here = before.contains(region);
                let there = more@.contains(region);
                if requested_part(*instance, *summary, *partition, region, e as int) {
                    let (k, m) = choose|k: int, m: MappedNode| k < e && #[trigger] needs_region(*instance, *summary, *partition, k, m, region);
                    assert(needs_region(*instance, *summary, *partition, k, m, region));
                }
                if there {
                    let m = choose|m: MappedNode| #[trigger] needs_region(*instance, *summary, *partition, e as int, m, region);
                    assert(needs_region(*instance, *summary, *partition, e as int, m, region));
                }
                if requested_part(*instance, *summary, *partition, region, e + 1) {
                    let (k, m) = choose|k: int, m: MappedNode| k < e + 1 && #[trigger] needs_region(*instance, *summary, *partition, k, m, region);
                    if k == e {
                        assert(edge_requested(*instance, *summary, *partition, e as int, region));
                    } else {
                        assert(requested_part(*instance, *summary, *partition, region, e as int));
                    }
                }
            }
        }
        e = e + 1;
    }
    let r = sort_dedup(&regions);
    proof {
        assert forall|region: SummaryRegion| #[trigger] r@.contains(region) <==> requested(*instance, *summary, *partition, region) by {
            assert(r@.contains(region) <==> regions@.contains(region));
        }
    }
    r
}

pub open spec fn whole_before(summary: ModuleSummary, region: SummaryRegion, count: int) -> bool {
    exists|i: int|
        0 <= i < count && (#[trigger] summary.nodes@[i]).kind == SummaryNodeKind::Input && summary.positioned(i) && summary.nodes@[i].region == region
}

pub open spec fn edge_requested(instance: Instance, summary: ModuleSummary, partition: BitPartition, e: int, region: SummaryRegion) -> bool {
    exists|m: MappedNode| #[trigger] needs_region(instance, summary, partition, e, m, region)
}

fn append(list: &mut Vec<SummaryRegion>, more: &Vec<SummaryRegion>)
    ensures
        forall|region: SummaryRegion| #[trigger] final(list)@.contains(region) <==> old(list)@.contains(region) || more@.contains(region),
{
    let ghost before = list@;
    let mut i: usize = 0;
    while i < more.len()
        invariant
            i <= more@.len(),
            forall|region: SummaryRegion| #[trigger] list@.contains(region) <==> before.contains(region) || more@.take(i as int).contains(region),
        decreases more@.len() - i,
    {
        let ghost known = list@;
        list.push(more[i]);
        proof {
            assert(more@.take(i + 1) =~= more@.take(i as int).push(more@[i as int]));
            assert forall|region: SummaryRegion| #[trigger] list@.contains(region) <==> before.contains(region) || more@.take(i + 1).contains(region) by {
                let here = known.contains(region);
                partition::lemma_contains_push(known, more@[i as int], region);
                partition::lemma_contains_push(more@.take(i as int), more@[i as int], region);
            }
        }
        i = i + 1;
    }
    assert(more@.take(i as int) =~= more@);
}

/// The nodes in which values leave the child at a port.
fn leaving_nodes(instance: &Instance, summary: &ModuleSummary, partition: &BitPartition, i: usize) -> (r: Vec<MappedNode>)
    requires
        summary.wf(),
        partition.wf(),
        forall|id: u64| #[trigger] instance.connections@.dom().contains(id) ==> instance.connections@[id].endpoint.wf(),
        i < summary.nodes@.len(),
    ensures
        forall|m: MappedNode| #[trigger] r@.contains(m) <==> leaves_at(*instance, *summary, *partition, i as int, m),
        forall|k: int| 0 <= k < r@.len() ==> instance::mapped_wf(#[trigger] r@[k]),
{
    broadcast use vstd::std_specs::hash::group_hash_axioms;

    let region = summary.nodes[i].region;
    let kind = summary.nodes[i].kind;
    let found: Option<&PortConnection> = instance.connections.get(&region.id);
    match (kind, found) {
        (SummaryNodeKind::Output, Some(connection)) => instance_region_mapping(&connection.endpoint, region, PortDirection::Output, None, partition),
        (SummaryNodeKind::Interface, Some(connection)) => instance_region_mapping(&connection.endpoint, region, PortDirection::Input, None, partition),
        _ => Vec::new(),
    }
}

/// The regions that one dependency needs.
fn edge_requests(instance: &Instance, summary: &ModuleSummary, partition: &BitPartition, e: usize) -> (r: Vec<SummaryRegion>)
    requires
        summary.wf(),
        partition.wf(),
        forall|id: u64| #[trigger] instance.connections@.dom().contains(id) ==> instance.connections@[id].endpoint.wf(),
        e < summary.edges@.len(),
    ensures
        forall|region: SummaryRegion| #[trigger] r@.contains(region) <==> edge_requested(*instance, *summary, *partition, e as int, region),
{
    let edge = summary.edges[e];
    let mut r: Vec<SummaryRegion> = Vec::new();
    assert(summary.edges@[e as int].source < summary.nodes@.len() && summary.edges@[e as int].destination < summary.nodes@.len());
    if summary.nodes[edge.source].kind != SummaryNodeKind::Input {
        return r;
    }
    let (array, packed) = match (edge.kind.array, edge.kind.packed) {
        (Some(array), Some(packed)) => (array, packed),
        _ => {
            return r;
        },
    };
    let nodes = leaving_nodes(instance, summary, partition, edge.destination);
    let mut i: usize = 0;
    while i < nodes.len()
        invariant
            i <= nodes@.len(),
            summary.wf(),
            partition.wf(),
            e < summary.edges@.len(),
            edge == summary.edges@[e as int],
            edge.source < summary.nodes@.len(),
            edge.destination < summary.nodes@.len(),
            summary.nodes@[edge.source as int].kind == SummaryNodeKind::Input,
            edge.kind.array == Some(array),
            edge.kind.packed == Some(packed),
            forall|m: MappedNode| #[trigger] nodes@.contains(m) <==> leaves_at(*instance, *summary, *partition, edge.destination as int, m),
            forall|k: int| 0 <= k < nodes@.len() ==> instance::mapped_wf(#[trigger] nodes@[k]),
            forall|region: SummaryRegion| #[trigger] r@.contains(region) <==> requested_among(*instance, *summary, *partition, e as int, nodes@.take(i as int), region),
        decreases nodes@.len() - i,
    {
        let ghost before = r@;
        let ghost m = nodes@[i as int];
        let found = child_source_region_for_destination(summary.nodes[edge.source].region, summary.nodes[edge.destination].region, array, packed, &nodes[i], partition);
        let ghost mut added: Option<SummaryRegion> = None;
        if let RegionProjection::Exact(region) = found {
            r.push(region);
            proof {
                added = Some(region);
                assert(nodes@.contains(m));
                assert(needs_region(*instance, *summary, *partition, e as int, m, region));
            }
        }
        proof {
            assert(nodes@.take(i + 1) =~= nodes@.take(i as int).push(m));
            assert forall|region: SummaryRegion| #[trigger] r@.contains(region) <==> requested_among(*instance, *summary, *partition, e as int, nodes@.take(i + 1), region) by {
                let here = before.contains(region);
                if added is Some {
                    partition::lemma_contains_push(before, added->0, region);
                }
                if requested_among(*instance, *summary, *partition, e as int, nodes@.take(i as int), region) {
                    let n = choose|n: MappedNode| nodes@.take(i as int).contains(n) && #[trigger] needs_region(*instance, *summary, *partition, e as int, n, region);
                    partition::lemma_contains_push(nodes@.take(i as int), m, n);
                    assert(nodes@.take(i + 1).contains(n) && needs_region(*instance, *summary, *partition, e as int, n, region));
                }
                partition::lemma_contains_push(nodes@.take(i as int), m, m);
                if requested_among(*instance, *summary, *partition, e as int, nodes@.take(i + 1), region) {
                    let n = choose|n: MappedNode| nodes@.take(i + 1).contains(n) && #[trigger] needs_region(*instance, *summary, *partition, e as int, n, region);
                    partition::lemma_contains_push(nodes@.take(i as int), m, n);
                    if nodes@.take(i as int).contains(n) {
                        assert(requested_among(*instance, *summary, *partition, e as int, nodes@.take(i as int), region));
                    } else {
                        assert(n == m);
                    }
                }
            }
        }
        i = i + 1;
    }
    proof {
        assert(nodes@.take(i as int) =~= nodes@);
        assert forall|region: SummaryRegion| #[trigger] r@.contains(region) <==> edge_requested(*instance, *summary, *partition, e as int, region) by {
            let here = requested_among(*instance, *summary, *partition, e as int, nodes@, region);
            if edge_requested(*instance, *summary, *partition, e as int, region) {
                let n = choose|n: MappedNode| #[trigger] needs_region(*instance, *summary, *partition, e as int, n, region);
                assert(nodes@.contains(n));
            }
        }
    }
    r
}

pub open spec fn requested_among(instance: Instance, summary: ModuleSummary, partition: BitPartition, e: int, nodes: Seq<MappedNode>, region: SummaryRegion) -> bool {
    exists|m: MappedNode| nodes.contains(m) && #[trigger] needs_region(instance, summary, partition, e, m, region)
}

/// Names of its own for the branches of a summary, in their order.
pub open spec fn names_branches(branches: Seq<BranchId>, namespace: usize, mapping: Seq<(BranchId, BranchId)>) -> bool {
    &&& mapping.len() == branches.len()
    &&& forall|i: int|
        0 <= i < mapping.len() ==> (#[trigger] mapping[i]).0 == branches[i] && mapping[i].1 == (BranchId {
            namespace: path::BranchNamespace::Procedure(namespace),
            local: i as usize,
            arms: branches[i].arms,
        })
}

/// A branch that some condition of the summary speaks of.
pub open spec fn speaks_of(arena: PathArena, summary: ModuleSummary, branch: BranchId) -> bool {
    exists|e: int| 0 <= e < summary.edges@.len() && path::constrains(arena.path((#[trigger] summary.edges@[e]).condition), branch)
}

/// The names that an instance gives to the branches of a summary: one for each branch of which a
/// condition speaks, in a namespace of its own. Renaming so keeps every condition in order.
pub fn remap_module_summary_branches(arena: &PathArena, summary: &ModuleSummary, namespace: usize) -> (r: Vec<(BranchId, BranchId)>)
    requires
        arena.wf(),
        forall|e: int| 0 <= e < summary.edges@.len() ==> arena.holds((#[trigger] summary.edges@[e]).condition),
    ensures
        exists|branches: Seq<BranchId>|
            order::strictly_sorted(branches) && (forall|branch: BranchId| #[trigger] branches.contains(branch) <==> speaks_of(*arena, *summary, branch))
                && #[trigger] names_branches(branches, namespace, r@),
        forall|i: int, j: int| 0 <= i < j < r@.len() ==> (#[trigger] r@[i]).0.lt((#[trigger] r@[j]).0),
        forall|e: int| 0 <= e < summary.edges@.len() ==> remap::keeps_order(r@, arena.path((#[trigger] summary.edges@[e]).condition)),
{
    let mut conditions: Vec<PathCondition> = Vec::new();
    let mut e: usize = 0;
    while e < summary.edges.len()
        invariant
            e <= summary.edges@.len(),
            forall|e: int| 0 <= e < summary.edges@.len() ==> arena.holds((#[trigger] summary.edges@[e]).condition),
            conditions@.len() == e,
            forall|k: int| 0 <= k < e ==> (#[trigger] conditions@[k]) == summary.edges@[k].condition,
        decreases summary.edges@.len() - e,
    {
        conditions.push(summary.edges[e].condition);
        e = e + 1;
    }
    proof {
        assert forall|i: int| 0 <= i < conditions@.len() implies arena.holds(#[trigger] conditions@[i]) by {
            assert(arena.holds(summary.edges@[i].condition));
        }
    }
    let branches = arena.collect_branches(&conditions);
    let mut r: Vec<(BranchId, BranchId)> = Vec::new();
    let mut i: usize = 0;
    while i < branches.len()
        invariant
            i <= branches@.len(),
            r@.len() == i,
            names_branches(branches@.take(i as int), namespace, r@),
        decreases branches@.len() - i,
    {
        let branch = branches[i];
        let ghost before = r@;
        r.push((branch, BranchId::new(namespace, i, branch.arms())));
        proof {
            let more = branches@.take(i + 1);
            assert forall|k: int| 0 <= k < r@.len() implies (#[trigger] r@[k]).0 == more[k] && r@[k].1 == (BranchId {
                namespace: path::BranchNamespace::Procedure(namespace),
                local: k as usize,
                arms: more[k].arms,
            }) by {
                if k < i {
                    assert(before[k].0 == branches@.take(i as int)[k]);
                }
            }
        }
        i = i + 1;
    }
    proof {
        assert(branches@.take(i as int) =~= branches@);
        let list = branches@;
        assert forall|branch: BranchId| #[trigger] list.contains(branch) <==> speaks_of(*arena, *summary, branch) by {
            if remap::some_constrains(*arena, conditions@, branch) {
                let k = choose|k: int| 0 <= k < conditions@.len() && path::constrains(arena.path(#[trigger] conditions@[k]), branch);
                assert(path::constrains(arena.path(summary.edges@[k].condition), branch));
            }
            if speaks_of(*arena, *summary, branch) {
                let k = choose|k: int| 0 <= k < summary.edges@.len() && path::constrains(arena.path((#[trigger] summary.edges@[k]).condition), branch);
                assert(path::constrains(arena.path(conditions@[k]), branch));
            }
        }
        assert(names_branches(list, namespace, r@));
        assert forall|a: int, b: int| 0 <= a < b < r@.len() implies (#[trigger] r@[a]).0.lt((#[trigger] r@[b]).0) by {
            assert(list[a].lt(list[b]));
        }
        assert forall|e: int| 0 <= e < summary.edges@.len() implies remap::keeps_order(r@, arena.path((#[trigger] summary.edges@[e]).condition)) by {
            let whole = arena.path(summary.edges@[e].condition);
            assert(arena.holds(summary.edges@[e].condition));
            crate::arena::arena_paths_wf(arena@, summary.edges@[e].condition.node as int);
            assert forall|k: int| 0 <= k < whole.len() implies list.contains((#[trigger] whole[k]).branch) by {
                assert(path::constrains(whole, whole[k].branch));
                assert(speaks_of(*arena, *summary, whole[k].branch));
            }
            lemma_names_keep_order(list, namespace, r@, whole);
        }
    }
    r
}

/// Names given in the order of the branches keep paths in order.
proof fn lemma_names_keep_order(branches: Seq<BranchId>, namespace: usize, mapping: Seq<(BranchId, BranchId)>, whole: Seq<Choice>)
    requires
        branches.len() <= usize::MAX,
        order::strictly_sorted(branches),
        names_branches(branches, namespace, mapping),
        path::path_wf(whole),
        forall|k: int| 0 <= k < whole.len() ==> branches.contains((#[trigger] whole[k]).branch),
        forall|i: int, j: int| 0 <= i < j < mapping.len() ==> (#[trigger] mapping[i]).0.lt((#[trigger] mapping[j]).0),
    ensures
        remap::keeps_order(mapping, whole),
{
    assert forall|i: int, j: int| 0 <= i < j < whole.len() implies remap::renamed(mapping, (#[trigger] whole[i]).branch).lt(remap::renamed(mapping, (#[trigger] whole[j]).branch)) by {
        let a = choose|a: int| 0 <= a < branches.len() && branches[a] == whole[i].branch;
        let b = choose|b: int| 0 <= b < branches.len() && branches[b] == whole[j].branch;
        assert(branches.contains(whole[i].branch) && branches.contains(whole[j].branch));
        assert(whole[i].branch.lt(whole[j].branch));
        if b < a {
            assert(branches[b].lt(branches[a]));
            BranchId::lt_transitive(branches[a], branches[b], branches[a]);
            BranchId::lt_irreflexive(branches[a]);
        }
        if a == b {
            BranchId::lt_irreflexive(branches[a]);
        }
        assert(mapping[a].0 == branches[a] && mapping[b].0 == branches[b]);
        remap::lemma_renamed_at(mapping, a);
        remap::lemma_renamed_at(mapping, b);
    }
    assert forall|i: int| 0 <= i < whole.len() implies remap::renamed(mapping, (#[trigger] whole[i]).branch).arms == whole[i].branch.arms by {
        assert(branches.contains(whole[i].branch));
        let a = choose|a: int| 0 <= a < branches.len() && branches[a] == whole[i].branch;
        assert(mapping[a].0 == branches[a]);
        remap::lemma_renamed_at(mapping, a);
    }
}

} // verus!
