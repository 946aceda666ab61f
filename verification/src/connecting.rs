//! The actuals of an instance: what its inputs read, and what selects where its outputs are written.
use vstd::prelude::*;
use std::collections::HashSet;
use crate::actuals;
use crate::actuals::{analyze_instance_actual, map_actual_sources};
use crate::analysis;
use crate::analysis::{begin, find_visible};
use crate::arena;
use crate::arena::{PathArena, PathCondition, PathNode};
use crate::assigning;
use crate::flows;
use crate::flows::{FlowRef, Flows, ProjectionContext, Projector};
use crate::fragments::SummaryRegion;
use crate::instance::{EvaluatedRegion, RegionSource, SourceOffset};
use crate::ir::{Access, Expression};
use crate::layout;
use crate::layout::EvaluationCache;
use crate::machine;
use crate::machine::Machine;
use crate::occurrences;
use crate::order;
use crate::order::sort_dedup;
use crate::partition::{BitPartition, NodeKey};
use crate::procedure;
use crate::realize;
use crate::relation::{PositionRelation, SourceRef};
use crate::requests;
use crate::results;
use crate::sources;
use crate::sources::Source;
use crate::ssa;
use crate::ssa::{SsaStore, Version};
use crate::summarize;
use crate::summarize::{dependencies, Dependency};
use crate::summary;
use crate::through::RegionDependency;
use crate::values::Program;
use crate::writes;

verus! {

/// The key belongs to a variable of the module.
pub open spec fn shows<'a>(p: Program<'a>, key: u64) -> bool {
    key < p.nodes@.len() && !p.locals@.contains(p.nodes@[key as int].id)
}

/// What is read of the module, each node as a whole.
pub open spec fn whole_reads<'a>(p: Program<'a>, list: Seq<Source>) -> Seq<RegionSource>
    decreases list.len(),
{
    if list.len() == 0 {
        Seq::empty()
    } else {
        let before = whole_reads(p, list.drop_last());
        if shows(p, list.last().key) {
            before.push(RegionSource { key: p.nodes@[list.last().key as int], offset: None, condition: list.last().condition })
        } else {
            before
        }
    }
}

/// What leads from a position of the value to that of the node, where one offset does.
pub open spec fn offset_of(relation: PositionRelation) -> Option<SourceOffset> {
    if relation.array is Some && relation.packed is Some {
        Some(SourceOffset { array: (-relation.array->0) as isize, packed: (-relation.packed->0) as isize })
    } else {
        None
    }
}

/// What is read of the module through a relation.
pub open spec fn region_reads<'a>(p: Program<'a>, relation: PositionRelation, list: Seq<Source>) -> Seq<RegionSource>
    decreases list.len(),
{
    if list.len() == 0 {
        Seq::empty()
    } else {
        let before = region_reads(p, relation, list.drop_last());
        let last = list.last();
        if shows(p, last.key) {
            before.push(RegionSource { key: p.nodes@[last.key as int], offset: offset_of(relation.then_by(last.relation)), condition: last.condition })
        } else {
            before
        }
    }
}

/// All offsets fit.
pub open spec fn offsets_fit<'a>(p: Program<'a>, relation: PositionRelation, list: Seq<Source>) -> bool {
    forall|i: int|
        0 <= i < list.len() && shows(p, (#[trigger] list[i]).key) ==> relation.composes(list[i].relation) && relation.then_by(list[i].relation).reversible()
}

/// The conditions exist.
pub open spec fn reads_hold(list: Seq<RegionSource>, paths: Seq<PathNode>) -> bool {
    forall|i: int| 0 <= i < list.len() ==> (#[trigger] list[i]).condition.node < paths.len()
}

/// The sources of a version were found, the one that it has on entry among them.
pub open spec fn source_found(store: SsaStore, version: usize, paths: Seq<PathNode>, more: Seq<PathNode>, list: Seq<Source>, split: int) -> bool {
    summary::summarises(store, paths, version, true, None, list, more)
}

/// What the first values come from was found, one after the other.
pub open spec fn region_found<'a>(
    p: Program<'a>,
    store: SsaStore,
    values: Seq<SourceRef>,
    count: int,
    paths: Seq<PathNode>,
    more: Seq<PathNode>,
    r: Seq<RegionSource>,
) -> bool
    decreases count,
{
    if count <= 0 {
        r.len() == 0 && more == paths
    } else {
        exists|between: Seq<PathNode>, list: Seq<Source>, split: int|
            0 <= split <= r.len() && #[trigger] source_found(store, values[count - 1].version, between, more, list, split) && region_found(
                p,
                store,
                values,
                count - 1,
                paths,
                between,
                r.take(split),
            ) && offsets_fit(p, values[count - 1].relation, list) && r.skip(split) == region_reads(p, values[count - 1].relation, list)
    }
}

/// An offset on a way to a source of some value does not fit.
pub open spec fn region_stops<'a>(p: Program<'a>, store: SsaStore, values: Seq<SourceRef>, at: int, between: Seq<PathNode>) -> bool {
    &&& 0 <= at < values.len()
    &&& summary::sources_overflow(store, between, values[at].version, true) || exists|more: Seq<PathNode>, list: Seq<Source>| #[trigger]
        source_found(store, values[at].version, between, more, list, 0) && !offsets_fit(p, values[at].relation, list)
}

/// The nodes that stand for a region: what was found for it, each once and in order.
pub open spec fn region_mapped<'a>(
    p: Program<'a>,
    store: SsaStore,
    values: Seq<SourceRef>,
    region: SummaryRegion,
    paths: Seq<PathNode>,
    more: Seq<PathNode>,
    mapped: EvaluatedRegion,
) -> bool {
    &&& mapped.region == region
    &&& exists|found: Seq<RegionSource>, sorted: Seq<RegionSource>|
        #![trigger region_found(p, store, values, values.len() as int, paths, more, found), order::strictly_sorted(sorted)]
        region_found(p, store, values, values.len() as int, paths, more, found) && order::strictly_sorted(sorted) && order::same_elements(sorted, found)
            && mapped.nodes@ == sorted.map_values(|source: RegionSource| actuals::mapped_source(source))
}

pub open spec fn way_paths(paths: Seq<PathNode>) -> bool {
    true
}

/// The first regions were mapped, one after the other.
pub open spec fn regions_mapped<'a>(
    p: Program<'a>,
    store: SsaStore,
    values: Seq<Vec<SourceRef>>,
    requests: Seq<SummaryRegion>,
    count: int,
    paths: Seq<PathNode>,
    more: Seq<PathNode>,
    list: Seq<EvaluatedRegion>,
) -> bool
    decreases count,
{
    if count <= 0 {
        more == paths
    } else {
        exists|between: Seq<PathNode>| #[trigger]
            way_paths(between) && regions_mapped(p, store, values, requests, count - 1, paths, between, list) && region_mapped(
                p,
                store,
                values[count - 1]@,
                requests[count - 1],
                between,
                more,
                list[count - 1],
            )
    }
}

fn show(p: &Program, key: u64) -> (r: Option<NodeKey>)
    ensures
        r is Some <==> shows(*p, key),
        r matches Some(node) ==> node == p.nodes@[key as int],
{
    if key >= p.nodes.len() as u64 {
        return None;
    }
    let count: usize = p.nodes.len();
    assert(key < count);
    let node = p.nodes[key as usize];
    if p.is_local(node.id) {
        None
    } else {
        Some(node)
    }
}

/// What a version reads of the module, each node as a whole.
fn find_whole(p: &Program, store: &SsaStore, arena: &mut PathArena, version: usize) -> (r: Option<Vec<RegionSource>>)
    requires
        results::tied(*store, *old(arena)),
        version < store.versions@.len(),
    ensures
        results::tied(*store, *final(arena)),
        arena::grows(old(arena)@, final(arena)@),
        match r {
            Some(reads) => reads_hold(reads@, final(arena)@) && exists|list: Seq<Source>| #[trigger]
                summary::summarises(*store, old(arena)@, version, false, None, list, final(arena)@) && reads@ == whole_reads(*p, list),
            None => summary::sources_overflow(*store, old(arena)@, version, false),
        },
{
    let ghost paths = arena@;
    let none: Option<HashSet<u64>> = None;
    let list = match store.root_source_relations_guarded(arena, version, &none) {
        Some(list) => list,
        None => {
            proof {
                ssa::store_survives_growth(*store, paths, arena@);
            }
            return None;
        },
    };
    proof {
        ssa::store_survives_growth(*store, paths, arena@);
        assert(list@.take(0) =~= Seq::empty());
        assert(sources::sources_valid(list@, arena@));
    }
    let mut r: Vec<RegionSource> = Vec::new();
    let mut i: usize = 0;
    while i < list.len()
        invariant
            i <= list@.len(),
            r@ == whole_reads(*p, list@.take(i as int)),
            reads_hold(r@, arena@),
            sources::sources_valid(list@, arena@),
        decreases list@.len() - i,
    {
        let source = list[i];
        proof {
            assert(list@.take(i as int + 1).drop_last() =~= list@.take(i as int));
            assert(list@.take(i as int + 1).last() == source);
            assert(list@[i as int].condition.node < arena@.len());
        }
        if let Some(key) = show(p, source.key) {
            r.push(RegionSource { key, offset: None, condition: source.condition });
        }
        i = i + 1;
    }
    assert(list@.take(i as int) =~= list@);
    Some(r)
}

/// What the values read of the module.
fn find_region(p: &Program, store: &SsaStore, arena: &mut PathArena, values: &Vec<SourceRef>) -> (r: Option<Vec<RegionSource>>)
    requires
        results::tied(*store, *old(arena)),
        ssa::sources_before(values@, store.versions@.len() as int),
    ensures
        results::tied(*store, *final(arena)),
        arena::grows(old(arena)@, final(arena)@),
        match r {
            Some(reads) => reads_hold(reads@, final(arena)@) && region_found(*p, *store, values@, values@.len() as int, old(arena)@, final(arena)@, reads@),
            None => exists|at: int, between: Seq<PathNode>, first: Seq<RegionSource>| #[trigger]
                region_found(*p, *store, values@, at, old(arena)@, between, first) && region_stops(*p, *store, values@, at, between),
        },
{
    let ghost paths = arena@;
    let none: Option<HashSet<u64>> = None;
    let mut r: Vec<RegionSource> = Vec::new();
    let mut i: usize = 0;
    while i < values.len()
        invariant
            i <= values@.len(),
            none is None,
            paths == old(arena)@,
            results::tied(*store, *arena),
            arena::grows(paths, arena@),
            ssa::sources_before(values@, store.versions@.len() as int),
            region_found(*p, *store, values@, i as int, paths, arena@, r@),
            reads_hold(r@, arena@),
        decreases values@.len() - i,
    {
        let ghost between = arena@;
        let ghost before = r@;
        let value = values[i];
        assert(values@[i as int].version < store.versions@.len());
        let found = store.root_source_relations_guarded_including_entry(arena, value.version, &none);
        proof {
            arena::growth_is_transitive(paths, between, arena@);
            ssa::store_survives_growth(*store, between, arena@);
        }
        let list = match found {
            Some(list) => list,
            None => {
                assert(region_found(*p, *store, values@, i as int, paths, between, before) && region_stops(*p, *store, values@, i as int, between));
                return None;
            },
        };
        proof {
            assert(source_found(*store, value.version, between, arena@, list@, 0));
            assert(list@.take(0) =~= Seq::empty());
            assert(before + region_reads(*p, value.relation, Seq::empty()) =~= before);
            assert(sources::sources_valid(list@, arena@));
        }
        let mut k: usize = 0;
        while k < list.len()
            invariant
                k <= list@.len(),
                i < values@.len(),
                value == values@[i as int],
                none is None,
                paths == old(arena)@,
                results::tied(*store, *arena),
                arena::grows(paths, arena@),
                arena::grows(between, arena@),
                sources::sources_valid(list@, arena@),
                source_found(*store, value.version, between, arena@, list@, 0),
                region_found(*p, *store, values@, i as int, paths, between, before),
                offsets_fit(*p, value.relation, list@.take(k as int)),
                r@ == before + region_reads(*p, value.relation, list@.take(k as int)),
                reads_hold(r@, arena@),
            decreases list@.len() - k,
        {
            let source = list[k];
            let ghost shorter = list@.take(k as int);
            let ghost longer = list@.take(k as int + 1);
            proof {
                assert(longer.drop_last() =~= shorter);
                assert(longer.last() == source);
                assert(list@[k as int].condition.node < arena@.len());
            }
            if let Some(key) = show(p, source.key) {
                let relation = match value.relation.checked_compose(source.relation) {
                    Some(relation) => relation,
                    None => {
                        proof {
                            assert(shows(*p, list@[k as int].key));
                            assert(!offsets_fit(*p, value.relation, list@));
                            assert(region_stops(*p, *store, values@, i as int, between));
                        }
                        return None;
                    },
                };
                if relation.array == Some(isize::MIN) || relation.packed == Some(isize::MIN) {
                    proof {
                        assert(shows(*p, list@[k as int].key));
                        assert(!offsets_fit(*p, value.relation, list@));
                        assert(region_stops(*p, *store, values@, i as int, between));
                    }
                    return None;
                }
                let back = relation.reversed();
                let offset = match (back.array, back.packed) {
                    (Some(array), Some(packed)) => Some(SourceOffset { array, packed }),
                    _ => None,
                };
                assert(offset == offset_of(relation));
                r.push(RegionSource { key, offset, condition: source.condition });
            }
            proof {
                assert(r@ =~= before + region_reads(*p, value.relation, longer));
                assert forall|m: int| 0 <= m < longer.len() && shows(*p, (#[trigger] longer[m]).key) implies value.relation.composes(longer[m].relation)
                    && value.relation.then_by(longer[m].relation).reversible() by {
                    if m < k {
                        assert(shorter[m] == longer[m]);
                    }
                }
            }
            k = k + 1;
        }
        proof {
            assert(list@.take(k as int) =~= list@);
            let split = before.len() as int;
            let c = i + 1;
            assert(r@.take(split) =~= before);
            assert(r@.skip(split) =~= region_reads(*p, values@[c - 1].relation, list@));
            assert(source_found(*store, values@[c - 1].version, between, arena@, list@, split));
            assert(region_found(*p, *store, values@, c, paths, arena@, r@));
        }
        i = i + 1;
    }
    Some(r)
}

/// The nodes of the parent for each of the regions.
fn find_regions(p: &Program, store: &SsaStore, arena: &mut PathArena, requests: &Vec<SummaryRegion>, values: &Vec<Vec<SourceRef>>) -> (r: Option<Vec<EvaluatedRegion>>)
    requires
        results::tied(*store, *old(arena)),
        values@.len() == requests@.len(),
        forall|i: int| 0 <= i < values@.len() ==> ssa::sources_before((#[trigger] values@[i])@, store.versions@.len() as int),
    ensures
        results::tied(*store, *final(arena)),
        arena::grows(old(arena)@, final(arena)@),
        match r {
            Some(list) => list@.len() == requests@.len() && nodes_hold(list@, final(arena)@) && regions_mapped(
                *p,
                *store,
                values@,
                requests@,
                requests@.len() as int,
                old(arena)@,
                final(arena)@,
                list@,
            ),
            None => regions_stop(*p, *store, values@, requests@, old(arena)@),
        },
{
    let ghost paths = arena@;
    let mut r: Vec<EvaluatedRegion> = Vec::new();
    let mut i: usize = 0;
    while i < requests.len()
        invariant
            i <= requests@.len(),
            paths == old(arena)@,
            values@.len() == requests@.len(),
            forall|i: int| 0 <= i < values@.len() ==> ssa::sources_before((#[trigger] values@[i])@, store.versions@.len() as int),
            results::tied(*store, *arena),
            arena::grows(paths, arena@),
            r@.len() == i,
            nodes_hold(r@, arena@),
            regions_mapped(*p, *store, values@, requests@, i as int, paths, arena@, r@),
        decreases requests@.len() - i,
    {
        let ghost between = arena@;
        let ghost before = r@;
        assert(ssa::sources_before(values@[i as int]@, store.versions@.len() as int));
        let reads = match find_region(p, store, arena, &values[i]) {
            Some(reads) => reads,
            None => {
                proof {
                    assert(way_paths(between));
                    assert(regions_stop(*p, *store, values@, requests@, paths)) by {
                        let (at, inner, first) = choose|at: int, inner: Seq<PathNode>, first: Seq<RegionSource>| #[trigger]
                            region_found(*p, *store, values@[i as int]@, at, between, inner, first) && region_stops(*p, *store, values@[i as int]@, at, inner);
                        assert(stops_at(*p, *store, values@, requests@, paths, i as int, between, before));
                    }
                    arena::growth_is_transitive(paths, between, arena@);
                }
                return None;
            },
        };
        let sorted = sort_dedup(&reads);
        let nodes = map_actual_sources(&sorted);
        let region = requests[i];
        let made = EvaluatedRegion { region, nodes };
        r.push(made);
        proof {
            arena::growth_is_transitive(paths, between, arena@);
            assert(region_found(*p, *store, values@[i as int]@, values@[i as int]@.len() as int, between, arena@, reads@));
            assert(order::strictly_sorted(sorted@));
            assert(region_mapped(*p, *store, values@[i as int]@, requests@[i as int], between, arena@, made));
            let c = i + 1;
            lemma_mapped_list(*p, *store, values@, requests@, c - 1, paths, between, before, r@);
            assert(way_paths(between));
            assert(regions_mapped(*p, *store, values@, requests@, c, paths, arena@, r@));
            assert forall|a: int, b: int| 0 <= a < r@.len() && 0 <= b < r@[a].nodes@.len() implies (#[trigger] r@[a].nodes@[b]).condition.node < arena@.len() && r@[a].nodes@[b].child_domain is None by {
                if a < before.len() {
                    assert(r@[a] == before[a]);
                    assert(before[a].nodes@[b].condition.node < between.len());
                } else {
                    assert(sorted@.contains(sorted@[b]));
                    let k = choose|k: int| 0 <= k < reads@.len() && reads@[k] == sorted@[b];
                    assert(reads@[k].condition.node < arena@.len());
                }
            }
        }
        i = i + 1;
    }
    Some(r)
}

pub open spec fn nodes_hold(list: Seq<EvaluatedRegion>, paths: Seq<PathNode>) -> bool {
    forall|a: int, b: int|
        0 <= a < list.len() && 0 <= b < list[a].nodes@.len() ==> (#[trigger] list[a].nodes@[b]).condition.node < paths.len() && list[a].nodes@[b].child_domain is None
}

/// The regions before `at` were mapped, and an offset for that at `at` does not fit.
pub open spec fn stops_at<'a>(
    p: Program<'a>,
    store: SsaStore,
    values: Seq<Vec<SourceRef>>,
    requests: Seq<SummaryRegion>,
    paths: Seq<PathNode>,
    at: int,
    between: Seq<PathNode>,
    list: Seq<EvaluatedRegion>,
) -> bool {
    &&& 0 <= at < requests.len()
    &&& regions_mapped(p, store, values, requests, at, paths, between, list)
    &&& exists|value: int, inner: Seq<PathNode>, first: Seq<RegionSource>| #[trigger]
        region_found(p, store, values[at]@, value, between, inner, first) && region_stops(p, store, values[at]@, value, inner)
}

pub open spec fn regions_stop<'a>(p: Program<'a>, store: SsaStore, values: Seq<Vec<SourceRef>>, requests: Seq<SummaryRegion>, paths: Seq<PathNode>) -> bool {
    exists|at: int, between: Seq<PathNode>, list: Seq<EvaluatedRegion>| #[trigger] stops_at(p, store, values, requests, paths, at, between, list)
}

proof fn lemma_mapped_list<'a>(
    p: Program<'a>,
    store: SsaStore,
    values: Seq<Vec<SourceRef>>,
    requests: Seq<SummaryRegion>,
    count: int,
    paths: Seq<PathNode>,
    more: Seq<PathNode>,
    a: Seq<EvaluatedRegion>,
    b: Seq<EvaluatedRegion>,
)
    requires
        regions_mapped(p, store, values, requests, count, paths, more, a),
        forall|i: int| 0 <= i < count ==> a[i] == b[i],
    ensures
        regions_mapped(p, store, values, requests, count, paths, more, b),
    decreases count,
{
    if count > 0 {
        let between = choose|between: Seq<PathNode>| #[trigger]
            way_paths(between) && regions_mapped(p, store, values, requests, count - 1, paths, between, a) && region_mapped(
                p,
                store,
                values[count - 1]@,
                requests[count - 1],
                between,
                more,
                a[count - 1],
            );
        lemma_mapped_list(p, store, values, requests, count - 1, paths, between, a, b);
        assert(way_paths(between));
    }
}

/// The state after the first regions were looked at.
pub open spec fn regions_state<'a>(projector: Projector<'a>, e: Expression, requests: Seq<SummaryRegion>, width: usize, count: int) -> flows::FlowState
    decreases count,
{
    if count <= 0 {
        flows::FlowState { nodes: Seq::empty(), partial: false }
    } else {
        projector.requested_of(
            regions_state(projector, e, requests, width, count - 1),
            Seq::empty(),
            e,
            requests[count - 1].array,
            requests[count - 1].packed,
            width,
        ).state
    }
}

/// What the bits of each region come from.
pub open spec fn regions_planned<'a>(projector: Projector<'a>, e: Expression, requests: Seq<SummaryRegion>, width: usize, list: Seq<Vec<FlowRef>>) -> bool {
    list.len() == requests.len() && forall|i: int|
        0 <= i < list.len() ==> (#[trigger] list[i])@ == projector.requested_of(
            regions_state(projector, e, requests, width, i),
            Seq::empty(),
            e,
            requests[i].array,
            requests[i].packed,
            width,
        ).sources
}

/// The regions of an expression that was evaluated are looked at, and versions are made for them.
pub open spec fn regions_looked_at<'a>(
    p: Program<'a>,
    e: Expression,
    requests: Seq<SummaryRegion>,
    width: usize,
    a: Machine,
    b: Machine,
    list: Seq<Vec<FlowRef>>,
    images: Option<Seq<Seq<usize>>>,
) -> bool {
    exists|flows: Flows|
        #![trigger flows.state()]
        regions_planned(assigning::plain_projector(p, &a.cache->0), e, requests, width, list) && flows.state() == regions_state(
            assigning::plain_projector(p, &a.cache->0),
            e,
            requests,
            width,
            requests.len() as int,
        ) && assigning::flows_realized(p, a, b, flows, images)
}

fn look_at_regions(p: &Program, cache: &EvaluationCache, e: &Expression, requests: &Vec<SummaryRegion>, width: usize, flows: &mut Flows) -> (r: Vec<Vec<FlowRef>>)
    requires
        p.wf(),
        forall|o: usize| #[trigger] cache.variable_reads@.dom().contains(o) ==> layout::keys_ascend(cache.variable_reads@[o].versions@),
        old(flows).state() == (flows::FlowState { nodes: Seq::empty(), partial: false }),
        forall|i: int| 0 <= i < requests@.len() ==> (#[trigger] requests@[i]).packed.wf(),
    ensures
        regions_planned(assigning::plain_projector(*p, cache), *e, requests@, width, r@),
        final(flows).state() == regions_state(assigning::plain_projector(*p, cache), *e, requests@, width, requests@.len() as int),
{
    let context = ProjectionContext { destination_index: None, destination_array: None, destination_array_offset: None };
    let projector = Projector { cache, partition: p.partition, projection: &context };
    assert(projector == assigning::plain_projector(*p, cache));
    let none: Vec<flows::Decision> = Vec::new();
    assert(none@ =~= Seq::empty());
    let mut r: Vec<Vec<FlowRef>> = Vec::new();
    let mut i: usize = 0;
    while i < requests.len()
        invariant
            i <= requests@.len(),
            p.wf(),
            projector.wf(),
            projector == assigning::plain_projector(*p, cache),
            none@ == Seq::<flows::Decision>::empty(),
            forall|i: int| 0 <= i < requests@.len() ==> (#[trigger] requests@[i]).packed.wf(),
            r@.len() == i,
            flows.state() == regions_state(projector, *e, requests@, width, i as int),
            forall|k: int|
                0 <= k < i ==> (#[trigger] r@[k])@ == projector.requested_of(
                    regions_state(projector, *e, requests@, width, k),
                    Seq::empty(),
                    *e,
                    requests@[k].array,
                    requests@[k].packed,
                    width,
                ).sources,
        decreases requests@.len() - i,
    {
        let region = requests[i];
        assert(requests@[i as int].packed.wf());
        let found = projector.eval_expr_requested_in(flows, &none, e, region.array, region.packed, width);
        r.push(found);
        proof {
            let c = i + 1;
            assert(regions_state(projector, *e, requests@, width, c) == projector.requested_of(
                regions_state(projector, *e, requests@, width, c - 1),
                Seq::empty(),
                *e,
                requests@[c - 1].array,
                requests@[c - 1].packed,
                width,
            ).state);
        }
        i = i + 1;
    }
    r
}

/// What the analysis of an actual gives.
pub struct ActualAnalysis {
    /// What the actual reads, each node as a whole.
    pub reads: Vec<RegionSource>,
    /// The nodes of the parent for each region that was asked for.
    pub mappings: Vec<EvaluatedRegion>,
    /// What the effects of the actual make depend on what.
    pub dependencies: Vec<RegionDependency>,
    /// Nothing was met of which nothing is known.
    pub complete: bool,
}

/// The dependency between nodes.
pub open spec fn region_dependency<'a>(p: Program<'a>, d: Dependency) -> RegionDependency {
    RegionDependency { source: p.nodes@[d.source as int], destination: p.nodes@[d.destination as int], kind: d.relation, condition: d.condition }
}

/// The dependencies between nodes of the module, in order.
pub open spec fn region_dependencies<'a>(p: Program<'a>, list: Seq<Dependency>) -> Seq<RegionDependency>
    decreases list.len(),
{
    if list.len() == 0 {
        Seq::empty()
    } else {
        let before = region_dependencies(p, list.drop_last());
        if shows(p, list.last().source) && shows(p, list.last().destination) {
            before.push(region_dependency(p, list.last()))
        } else {
            before
        }
    }
}

fn find_dependencies(p: &Program, list: &Vec<Dependency>) -> (r: Vec<RegionDependency>)
    ensures
        r@ == region_dependencies(*p, list@),
{
    let mut r: Vec<RegionDependency> = Vec::new();
    let mut i: usize = 0;
    assert(list@.take(0) =~= Seq::empty());
    while i < list.len()
        invariant
            i <= list@.len(),
            r@ == region_dependencies(*p, list@.take(i as int)),
        decreases list@.len() - i,
    {
        let d = list[i];
        proof {
            assert(list@.take(i as int + 1).drop_last() =~= list@.take(i as int));
            assert(list@.take(i as int + 1).last() == d);
        }
        if let (Some(source), Some(destination)) = (show(p, d.source), show(p, d.destination)) {
            r.push(RegionDependency { source, destination, kind: d.relation, condition: d.condition });
        }
        i = i + 1;
    }
    assert(list@.take(i as int) =~= list@);
    r
}

/// The value that reads all of the versions.
pub open spec fn is_value(before: SsaStore, after: SsaStore, reads: Seq<usize>, value: usize) -> bool {
    &&& value == before.versions@.len()
    &&& after.versions@.len() == before.versions@.len() + 1
    &&& ssa::same_state(before, after)
    &&& after.versions@[value as int] matches Version::Definition { sources, condition } && condition.node == 0 && forall|s: SourceRef| #[trigger]
        sources@.contains(s) <==> s.relation == PositionRelation::anything() && reads.contains(s.version)
}

/// What the effects of the evaluation make depend on what.
pub open spec fn effects_found<'a>(p: Program<'a>, written: Seq<u64>, store: SsaStore, paths: Seq<PathNode>, last: Seq<PathNode>, list: Seq<RegionDependency>) -> bool {
    exists|after: SsaStore, visible: Seq<bool>, versions: Seq<usize>, allowed: HashSet<u64>, found: Seq<Dependency>|
        #![trigger summarize::lists_dependencies(after, Some(allowed), summarize::visible_keys(visible, written), versions, versions.len() as int, paths, last, found)]
        writes::continues(store, after) && after.current@ == store.current@ && analysis::are_visible(p, visible) && summarize::reads_all(
            after,
            summarize::visible_keys(visible, written),
            versions,
        ) && summarize::are_entries(after, visible, allowed@) && summarize::lists_dependencies(
            after,
            Some(allowed),
            summarize::visible_keys(visible, written),
            versions,
            versions.len() as int,
            paths,
            last,
            found,
        ) && list == region_dependencies(p, found)
}

/// An offset on a way to a source of what the evaluation wrote does not fit.
pub open spec fn effects_stop<'a>(p: Program<'a>, written: Seq<u64>, store: SsaStore, paths: Seq<PathNode>, last: Seq<PathNode>) -> bool {
    exists|after: SsaStore, visible: Seq<bool>, versions: Seq<usize>, allowed: HashSet<u64>|
        #![trigger summarize::dependencies_stop(after, Some(allowed), summarize::visible_keys(visible, written), versions, paths, last)]
        writes::continues(store, after) && after.current@ == store.current@ && analysis::are_visible(p, visible) && summarize::reads_all(
            after,
            summarize::visible_keys(visible, written),
            versions,
        ) && summarize::are_entries(after, visible, allowed@) && summarize::dependencies_stop(
            after,
            Some(allowed),
            summarize::visible_keys(visible, written),
            versions,
            paths,
            last,
        )
}

/// What the evaluation of an actual up to `v` gives: the regions, what is read, and the effects.
pub open spec fn actual_found<'a>(
    p: Program<'a>,
    requests: Seq<SummaryRegion>,
    v: Machine,
    reads: Seq<usize>,
    values: Seq<Vec<SourceRef>>,
    store: SsaStore,
    value: usize,
    one: Seq<PathNode>,
    two: Seq<PathNode>,
    list: Seq<Source>,
    last: Seq<PathNode>,
    r: ActualAnalysis,
) -> bool {
    &&& r.complete == v.complete
    &&& is_value(v.store, store, reads, value)
    &&& store.current@ == v.store.current@
    &&& r.mappings@.len() == requests.len()
    &&& regions_mapped(p, store, values, requests, requests.len() as int, v.arena@, one, r.mappings@)
    &&& summary::summarises(store, one, value, false, None, list, two)
    &&& order::strictly_sorted(r.reads@)
    &&& order::same_elements(r.reads@, whole_reads(p, list))
    &&& effects_found(p, v.written@, store, two, last, r.dependencies@)
}

/// The regions were found, up to these conditions.
pub open spec fn regions_done<'a>(p: Program<'a>, store: SsaStore, values: Seq<Vec<SourceRef>>, requests: Seq<SummaryRegion>, paths: Seq<PathNode>, more: Seq<PathNode>) -> bool {
    exists|mappings: Seq<EvaluatedRegion>| #[trigger] regions_mapped(p, store, values, requests, requests.len() as int, paths, more, mappings)
}

/// What the value reads was found, up to these conditions.
pub open spec fn reads_done(store: SsaStore, value: usize, paths: Seq<PathNode>, more: Seq<PathNode>) -> bool {
    exists|list: Seq<Source>| #[trigger] summary::summarises(store, paths, value, false, None, list, more)
}

/// Some number does not fit: in the evaluation, in a region, in what is read or in an effect.
pub open spec fn actual_stops<'a>(
    p: Program<'a>,
    requests: Seq<SummaryRegion>,
    v: Machine,
    reads: Seq<usize>,
    list: Seq<Vec<FlowRef>>,
    images: Option<Seq<Seq<usize>>>,
    values: Seq<Vec<SourceRef>>,
    store: SsaStore,
    value: usize,
    one: Seq<PathNode>,
    two: Seq<PathNode>,
    last: Seq<PathNode>,
) -> bool {
    ||| !analysis::numbers_fit(p, v)
    ||| exists|i: int| 0 <= i < list.len() && !realize::refs_exist((#[trigger] list[i])@, v.store.versions@.len() as int)
    ||| images is Some && values_made(list, images->0, values) && is_value(v.store, store, reads, value) && {
        ||| regions_stop(p, store, values, requests, v.arena@)
        ||| regions_done(p, store, values, requests, v.arena@, one) && summary::sources_overflow(store, one, value, false)
        ||| regions_done(p, store, values, requests, v.arena@, one) && reads_done(store, value, one, two) && effects_stop(p, v.written@, store, two, last)
    }
}

/// The values of the regions, by the versions that were made.
pub open spec fn values_made(list: Seq<Vec<FlowRef>>, images: Seq<Seq<usize>>, values: Seq<Vec<SourceRef>>) -> bool {
    values.len() == list.len() && forall|i: int| 0 <= i < values.len() ==> (#[trigger] values[i])@ == realize::realized(images, list[i]@)
}

/// Marks the states on the way through the analysis of an actual.
pub open spec fn way_actual(start: Machine, opened: Machine, n: Machine, reads: Seq<usize>, v: Machine, list: Seq<Vec<FlowRef>>, images: Option<Seq<Seq<usize>>>) -> bool {
    true
}

/// The actual was evaluated once, in order, and its regions were looked at in what that left behind.
pub open spec fn actual_evaluated<'a>(
    p: Program<'a>,
    e: Expression,
    requests: Seq<SummaryRegion>,
    width: usize,
    namespace: usize,
    arena: PathArena,
    start: Machine,
    opened: Machine,
    n: Machine,
    reads: Seq<usize>,
    v: Machine,
    list: Seq<Vec<FlowRef>>,
    images: Option<Seq<Seq<usize>>>,
) -> bool {
    &&& analysis::at_start(p, namespace, arena, start)
    &&& procedure::expression_opened(start, opened)
    &&& procedure::ran_expr(p, p.bodies@.len() as nat, e, opened, n, reads)
    &&& regions_looked_at(p, e, requests, width, n, v, list, images)
}

/// What was found stands for the values that were made for the regions.
pub open spec fn some_found<'a>(
    p: Program<'a>,
    requests: Seq<SummaryRegion>,
    v: Machine,
    reads: Seq<usize>,
    list: Seq<Vec<FlowRef>>,
    images: Seq<Seq<usize>>,
    last: Seq<PathNode>,
    found: ActualAnalysis,
) -> bool {
    exists|values: Seq<Vec<SourceRef>>, store: SsaStore, value: usize, one: Seq<PathNode>, two: Seq<PathNode>, sources: Seq<Source>| #[trigger]
        actual_found(p, requests, v, reads, values, store, value, one, two, sources, last, found) && values_made(list, images, values)
}

pub open spec fn analysed<'a>(
    p: Program<'a>,
    requests: Seq<SummaryRegion>,
    v: Machine,
    reads: Seq<usize>,
    list: Seq<Vec<FlowRef>>,
    images: Option<Seq<Seq<usize>>>,
    last: Seq<PathNode>,
    r: Option<ActualAnalysis>,
) -> bool {
    match r {
        Some(found) => analysis::numbers_fit(p, v) && images is Some && some_found(p, requests, v, reads, list, images->0, last, found),
        None => exists|values: Seq<Vec<SourceRef>>, store: SsaStore, value: usize, one: Seq<PathNode>, two: Seq<PathNode>| #[trigger]
            actual_stops(p, requests, v, reads, list, images, values, store, value, one, two, last),
    }
}

/// The actual was analysed for the regions.
pub open spec fn actual_analysed<'a>(
    p: Program<'a>,
    e: Expression,
    requests: Seq<SummaryRegion>,
    width: usize,
    namespace: usize,
    arena: PathArena,
    last: PathArena,
    r: Option<ActualAnalysis>,
) -> bool {
    exists|start: Machine, opened: Machine, n: Machine, reads: Seq<usize>, v: Machine, list: Seq<Vec<FlowRef>>, images: Option<Seq<Seq<usize>>>| #[trigger]
        way_actual(start, opened, n, reads, v, list, images) && actual_evaluated(
            p,
            e,
            requests,
            width,
            namespace,
            arena,
            start,
            opened,
            n,
            reads,
            v,
            list,
            images,
        ) && analysed(p, requests, v, reads, list, images, last@, r)
}

/// Analyses an actual for the regions that are asked of it. The actual is evaluated once, in order; every
/// region is taken from what that left behind. There is no answer where some number does not fit.
pub fn analyze_instance_actual_regions(
    p: &Program,
    e: &Expression,
    requests: &Vec<SummaryRegion>,
    context_width: usize,
    namespace: usize,
    arena: PathArena,
) -> (r: (Option<ActualAnalysis>, PathArena))
    requires
        p.wf(),
        arena.wf(),
        forall|i: int| 0 <= i < requests@.len() ==> (#[trigger] requests@[i]).packed.wf(),
    ensures
        r.1.wf(),
        arena::grows(arena@, r.1@),
        actual_analysed(*p, *e, requests@, context_width, namespace, arena, r.1, r.0),
        r.0 matches Some(found) ==> reads_hold(found.reads@, r.1@) && nodes_hold(found.mappings@, r.1@),
{
    let mut m = begin(p, namespace, arena);
    let ghost start = m;
    let _ = m.open_expression();
    let ghost opened = m;
    let reads = m.eval_expr(p, p.bodies.len(), e);
    let ghost n = m;
    let mut flows = Flows::new();
    let mut list: Vec<Vec<FlowRef>> = Vec::new();
    if let Some(cache) = &m.cache {
        proof {
            assert forall|o: usize| #[trigger] cache.variable_reads@.dom().contains(o) implies layout::keys_ascend(cache.variable_reads@[o].versions@) by {
                assert(machine::frozen_below(*cache.variable_reads@[o], n.store.versions@.len() as int));
            }
        }
        list = look_at_regions(p, cache, e, requests, context_width, &mut flows);
    }
    let images = m.realize_flows(p, &flows);
    let ghost v = m;
    let ghost made_images = assigning::views(images);
    proof {
        assert(flows.state() == regions_state(assigning::plain_projector(*p, &n.cache->0), *e, requests@, context_width, requests@.len() as int));
        assert(regions_looked_at(*p, *e, requests@, context_width, n, v, list@, made_images));
        assert(actual_evaluated(*p, *e, requests@, context_width, namespace, arena, start, opened, n, reads@, v, list@, made_images));
        assert(way_actual(start, opened, n, reads@, v, list@, made_images));
        machine::lemma_kept_twice(opened, n, v);
        machine::lemma_below_grows(reads@, n.store.versions@.len() as int, v.store.versions@.len() as int);
    }
    let known = m.keys_are_known();
    let ghost checked = m;
    let ghost no_values: Seq<Vec<SourceRef>> = Seq::empty();
    let values = match &images {
        Some(images) if m.fits && known => {
            let limit: usize = m.store.versions.len();
            m.realize_all(p, images, &list, limit)
        },
        _ => {
            proof {
                assert(!analysis::numbers_fit(*p, v));
                assert(actual_stops(*p, requests@, v, reads@, list@, made_images, no_values, v.store, 0, Seq::empty(), Seq::empty(), m.arena@));
            }
            return (None, m.arena);
        },
    };
    let values = match values {
        Some(values) => values,
        None => {
            proof {
                assert(actual_stops(*p, requests@, v, reads@, list@, made_images, no_values, v.store, 0, Seq::empty(), Seq::empty(), m.arena@));
            }
            return (None, m.arena);
        },
    };
    proof {
        assert(analysis::numbers_fit(*p, v));
        assert(made_images is Some);
    }
    let complete = m.complete;
    let Machine { mut store, mut arena, written, .. } = m;
    let value = store.definition(&reads);
    let ghost with_value = store;
    proof {
        assert(is_value(v.store, with_value, reads@, value));
        assert(store.guards_in(arena@));
        assert forall|i: int| 0 <= i < values@.len() implies ssa::sources_before((#[trigger] values@[i])@, store.versions@.len() as int) by {
            assert(ssa::sources_before(values@[i]@, v.store.versions@.len() as int));
        }
    }
    let ghost zero = arena@;
    let mappings = match find_regions(p, &store, &mut arena, requests, &values) {
        Some(mappings) => mappings,
        None => {
            proof {
                arena::growth_is_transitive(start.arena@, zero, arena@);
                assert(actual_stops(*p, requests@, v, reads@, list@, made_images, values@, with_value, value, Seq::empty(), Seq::empty(), arena@));
            }
            return (None, arena);
        },
    };
    let ghost one = arena@;
    let found = match find_whole(p, &store, &mut arena, value) {
        Some(found) => found,
        None => {
            proof {
                arena::growth_is_transitive(start.arena@, zero, one);
                arena::growth_is_transitive(start.arena@, one, arena@);
                assert(actual_stops(*p, requests@, v, reads@, list@, made_images, values@, with_value, value, one, Seq::empty(), arena@));
            }
            return (None, arena);
        },
    };
    let ghost two = arena@;
    let whole = sort_dedup(&found);
    let visible = find_visible(p);
    let ghost sources = choose|sources: Seq<Source>| #[trigger]
        summary::summarises(with_value, one, value, false, None, sources, two) && found@ == whole_reads(*p, sources);
    proof {
        lemma_keys_known_kept(v.store, with_value, p.nodes@, value);
    }
    let effects = dependencies(&mut store, &mut arena, p.nodes, &visible, &written);
    proof {
        arena::growth_is_transitive(start.arena@, zero, one);
        arena::growth_is_transitive(start.arena@, one, two);
        arena::growth_is_transitive(start.arena@, two, arena@);
    }
    let effects = match effects {
        Some(effects) => effects,
        None => {
            proof {
                let (versions, allowed) = choose|versions: Seq<usize>, allowed: HashSet<u64>|
                    #![trigger summarize::reads_all(store, summarize::visible_keys(visible@, written@), versions), summarize::are_entries(store, visible@, allowed@)]
                    summarize::reads_all(store, summarize::visible_keys(visible@, written@), versions) && summarize::are_entries(store, visible@, allowed@)
                        && summarize::dependencies_stop(store, Some(allowed), summarize::visible_keys(visible@, written@), versions, two, arena@);
                assert(summarize::dependencies_stop(store, Some(allowed), summarize::visible_keys(visible@, v.written@), versions, two, arena@));
                assert(effects_stop(*p, v.written@, with_value, two, arena@));
                assert(actual_stops(*p, requests@, v, reads@, list@, made_images, values@, with_value, value, one, two, arena@));
            }
            return (None, arena);
        },
    };
    let made = find_dependencies(p, &effects);
    let r = ActualAnalysis { reads: whole, mappings, dependencies: made, complete };
    proof {
        let (versions, allowed) = choose|versions: Seq<usize>, allowed: HashSet<u64>|
            #![trigger summarize::reads_all(store, summarize::visible_keys(visible@, written@), versions), summarize::are_entries(store, visible@, allowed@)]
            summarize::reads_all(store, summarize::visible_keys(visible@, written@), versions) && summarize::are_entries(store, visible@, allowed@)
                && summarize::lists_dependencies(
                store,
                Some(allowed),
                summarize::visible_keys(visible@, written@),
                versions,
                versions.len() as int,
                two,
                arena@,
                effects@,
            );
        assert(summarize::lists_dependencies(
            store,
            Some(allowed),
            summarize::visible_keys(visible@, v.written@),
            versions,
            versions.len() as int,
            two,
            arena@,
            effects@,
        ));
        assert(effects_found(*p, v.written@, with_value, two, arena@, r.dependencies@));
        assert(values_made(list@, made_images->0, values@));
        assert(actual_found(*p, requests@, v, reads@, values@, with_value, value, one, two, sources, arena@, r));
        lemma_analysed(*p, requests@, v, reads@, list@, made_images, values@, with_value, value, one, two, sources, arena@, r);
        assert forall|i: int| 0 <= i < r.reads@.len() implies (#[trigger] r.reads@[i]).condition.node < arena@.len() by {
            assert(r.reads@.contains(r.reads@[i]));
            let k = choose|k: int| 0 <= k < found@.len() && found@[k] == r.reads@[i];
            assert(found@[k].condition.node < two.len());
        }
        assert forall|a: int, b: int| 0 <= a < r.mappings@.len() && 0 <= b < r.mappings@[a].nodes@.len() implies (#[trigger] r.mappings@[a].nodes@[b]).condition.node
            < arena@.len() && r.mappings@[a].nodes@[b].child_domain is None by {
            assert(r.mappings@[a].nodes@[b].condition.node < one.len());
        }
    }
    (Some(r), arena)
}

proof fn lemma_analysed<'a>(
    p: Program<'a>,
    requests: Seq<SummaryRegion>,
    v: Machine,
    reads: Seq<usize>,
    list: Seq<Vec<FlowRef>>,
    images: Option<Seq<Seq<usize>>>,
    values: Seq<Vec<SourceRef>>,
    store: SsaStore,
    value: usize,
    one: Seq<PathNode>,
    two: Seq<PathNode>,
    sources: Seq<Source>,
    last: Seq<PathNode>,
    r: ActualAnalysis,
)
    requires
        analysis::numbers_fit(p, v),
        images is Some,
        actual_found(p, requests, v, reads, values, store, value, one, two, sources, last, r),
        values_made(list, images->0, values),
    ensures
        analysed(p, requests, v, reads, list, images, last, Some(r)),
{
    assert(some_found(p, requests, v, reads, list, images->0, last, r));
}

proof fn lemma_keys_known_kept(a: SsaStore, b: SsaStore, nodes: Seq<NodeKey>, value: usize)
    requires
        results::keys_known(a, nodes),
        value == a.versions@.len(),
        b.versions@.len() == a.versions@.len() + 1,
        ssa::versions_grow(a.versions@, b.versions@),
        b.versions@[value as int] is Definition,
    ensures
        results::keys_known(b, nodes),
{
    assert forall|i: int| 0 <= i < b.versions@.len() implies ((#[trigger] b.versions@[i]) matches Version::Entry(key) ==> key < nodes.len()) by {
        if i < a.versions@.len() {
            assert(a.versions@[i] == b.versions@[i]);
        }
    }
}

/// What a value reads of the module was found; or an offset on the way does not fit.
pub open spec fn whole_found<'a>(p: Program<'a>, store: SsaStore, value: usize, paths: Seq<PathNode>, more: Seq<PathNode>, r: Option<Seq<RegionSource>>) -> bool {
    match r {
        Some(found) => some_whole(p, store, value, paths, more, found),
        None => summary::sources_overflow(store, paths, value, false),
    }
}

pub open spec fn some_whole<'a>(p: Program<'a>, store: SsaStore, value: usize, paths: Seq<PathNode>, more: Seq<PathNode>, found: Seq<RegionSource>) -> bool {
    exists|list: Seq<Source>| #[trigger] summary::summarises(store, paths, value, false, None, list, more) && found == whole_reads(p, list)
}

/// Marks the states on the way through an expression.
pub open spec fn way_read(opened: Machine, n: Machine, reads: Seq<usize>, d: Machine, value: usize) -> bool {
    true
}

/// An expression was evaluated, and what it reads of the module was found.
pub open spec fn expression_read<'a>(p: Program<'a>, e: Expression, a: Machine, b: Machine, r: Option<Seq<RegionSource>>) -> bool {
    exists|opened: Machine, n: Machine, reads: Seq<usize>, d: Machine, value: usize| #[trigger]
        way_read(opened, n, reads, d, value) && procedure::expression_opened(a, opened) && procedure::ran_expr(p, p.bodies@.len() as nat, e, opened, n, reads)
            && procedure::expression_closed(a, n, d) && b == (Machine { store: b.store, arena: b.arena, ..d }) && is_value(d.store, b.store, reads, value)
            && b.store.current@ == d.store.current@ && whole_found(p, b.store, value, d.arena@, b.arena@, r)
}

pub open spec fn seq_of(r: Option<Vec<RegionSource>>) -> Option<Seq<RegionSource>> {
    match r {
        Some(list) => Some(list@),
        None => None,
    }
}

impl Machine {
    /// Evaluates an expression for what it reads of the module.
    fn read_expression(&mut self, p: &Program, e: &Expression) -> (r: Option<Vec<RegionSource>>)
        requires
            old(self).ready(*p),
        ensures
            final(self).wf(),
            old(self).kept(*final(self)),
            expression_read(*p, *e, *old(self), *final(self), seq_of(r)),
            r matches Some(found) ==> reads_hold(found@, final(self).arena@),
    {
        let ghost start = *self;
        let (cache, choices) = self.open_expression();
        let ghost opened = *self;
        let reads = self.eval_expr(p, p.bodies.len(), e);
        let ghost n = *self;
        self.cache = cache;
        self.choices = choices;
        let ghost d = *self;
        proof {
            machine::lemma_scope_left(start, opened, n, d);
        }
        let value = self.store.definition(&reads);
        let ghost stored = *self;
        proof {
            assert(self.store.guards_in(self.arena@));
        }
        let r = find_whole(p, &self.store, &mut self.arena, value);
        proof {
            machine::lemma_same_goes_on(d.store, self.store);
            crate::branches::lemma_held_grows(d.flows, d.arena, self.arena);
            assert(self.written@.take(d.written@.len() as int) =~= d.written@);
            machine::lemma_changed(d, *self);
            machine::lemma_kept_twice(start, d, *self);
            assert(is_value(d.store, self.store, reads@, value));
            if r is Some {
                assert(some_whole(*p, self.store, value, d.arena@, self.arena@, r->0@));
            }
            assert(whole_found(*p, self.store, value, d.arena@, self.arena@, seq_of(r)));
            assert(way_read(opened, n, reads@, d, value));
        }
        r
    }
}

/// Marks a state on the way through expressions.
pub open spec fn way_reads(m: Machine, before: Seq<RegionSource>, more: Seq<RegionSource>) -> bool {
    true
}

/// The expressions from `from` on were evaluated, one after the other, for what they read of the module.
pub open spec fn expressions_read<'a>(p: Program<'a>, list: Seq<&'a Expression>, from: int, count: int, a: Machine, b: Machine, r: Seq<RegionSource>) -> bool
    decreases count - from,
{
    if count <= from {
        b == a && r.len() == 0
    } else {
        exists|m: Machine, before: Seq<RegionSource>, more: Seq<RegionSource>| #[trigger]
            way_reads(m, before, more) && expressions_read(p, list, from, count - 1, a, m, before) && expression_read(p, *list[count - 1], m, b, Some(more)) && r
                == before + more
    }
}

/// What the analysis of expressions gives.
pub struct SelectorAnalysis {
    pub reads: Vec<RegionSource>,
    pub dependencies: Vec<RegionDependency>,
    pub complete: bool,
}

/// The first expressions have no decisions and calls; the one at `k`, where there is one, has.
pub open spec fn first_guarded<'a>(list: Seq<&'a Expression>, k: int) -> bool {
    &&& 0 <= k <= list.len()
    &&& forall|i: int| 0 <= i < k ==> !occurrences::is_guarded(*#[trigger] list[i])
    &&& k < list.len() ==> occurrences::is_guarded(*list[k])
}

/// One of the first expressions reads the node.
pub open spec fn plain_read<'a>(partition: BitPartition, list: Seq<&'a Expression>, k: int, source: RegionSource) -> bool {
    source == requests::whole_source(source.key) && exists|i: int| 0 <= i < k && actuals::unguarded_reads(partition, *#[trigger] list[i]).contains(source.key)
}

/// Marks the states of an analysis of expressions.
pub open spec fn way_expressions(start: Machine, m: Machine, found: Seq<RegionSource>) -> bool {
    true
}

/// The expressions were analysed: those before the first that has decisions or calls for the nodes that they
/// touch, and the others by evaluating them in order.
pub open spec fn expressions_analysed<'a>(p: Program<'a>, list: Seq<&'a Expression>, k: int, namespace: usize, arena: PathArena, last: PathArena, r: Option<SelectorAnalysis>) -> bool {
    if k == list.len() {
        last == arena && (r matches Some(found) && found.complete && found.dependencies@.len() == 0 && order::strictly_sorted(found.reads@) && forall|source: RegionSource|
            #[trigger] found.reads@.contains(source) <==> plain_read(*p.partition, list, k, source))
    } else {
        exists|start: Machine, m: Machine, found: Seq<RegionSource>| #[trigger]
            way_expressions(start, m, found) && analysis::at_start(p, namespace, arena, start) && evaluated_to(p, list, k, start, m, found, last, r)
    }
}

pub open spec fn evaluated_to<'a>(
    p: Program<'a>,
    list: Seq<&'a Expression>,
    k: int,
    start: Machine,
    m: Machine,
    found: Seq<RegionSource>,
    last: PathArena,
    r: Option<SelectorAnalysis>,
) -> bool {
    match r {
        Some(given) => expressions_read(p, list, k, list.len() as int, start, m, found) && analysis::numbers_fit(p, m) && given.complete == m.complete
            && order::strictly_sorted(given.reads@) && (forall|source: RegionSource| #[trigger]
            given.reads@.contains(source) <==> plain_read(*p.partition, list, k, source) || found.contains(source)) && effects_found(
            p,
            m.written@,
            m.store,
            m.arena@,
            last@,
            given.dependencies@,
        ),
        None => (exists|at: int, b: Machine|
            k <= at < list.len() && expressions_read(p, list, k, at, start, m, found) && #[trigger] expression_read(p, *list[at], m, b, None)) || (expressions_read(
            p,
            list,
            k,
            list.len() as int,
            start,
            m,
            found,
        ) && (!analysis::numbers_fit(p, m) || effects_stop(p, m.written@, m.store, m.arena@, last@))),
    }
}

pub(crate) fn extend_reads(list: &mut Vec<RegionSource>, more: &Vec<RegionSource>)
    ensures
        final(list)@ == old(list)@ + more@,
{
    let ghost before = list@;
    let mut i: usize = 0;
    while i < more.len()
        invariant
            i <= more@.len(),
            list@ == before + more@.take(i as int),
        decreases more@.len() - i,
    {
        list.push(more[i]);
        i = i + 1;
        assert(list@ =~= before + more@.take(i as int));
    }
    assert(more@.take(i as int) =~= more@);
}

/// The effects of what a machine evaluated; nothing where an offset does not fit.
fn find_effects(p: &Program, m: Machine) -> (r: (Option<Vec<RegionDependency>>, PathArena))
    requires
        m.ready(*p),
        results::keys_known(m.store, p.nodes@),
    ensures
        r.1.wf(),
        arena::grows(m.arena@, r.1@),
        match r.0 {
            Some(list) => effects_found(*p, m.written@, m.store, m.arena@, r.1@, list@),
            None => effects_stop(*p, m.written@, m.store, m.arena@, r.1@),
        },
{
    let ghost before = m;
    let visible = find_visible(p);
    let Machine { mut store, mut arena, written, .. } = m;
    let effects = dependencies(&mut store, &mut arena, p.nodes, &visible, &written);
    match effects {
        Some(effects) => {
            let made = find_dependencies(p, &effects);
            proof {
                let (versions, allowed) = choose|versions: Seq<usize>, allowed: HashSet<u64>|
                    #![trigger summarize::reads_all(store, summarize::visible_keys(visible@, written@), versions), summarize::are_entries(store, visible@, allowed@)]
                    summarize::reads_all(store, summarize::visible_keys(visible@, written@), versions) && summarize::are_entries(store, visible@, allowed@)
                        && summarize::lists_dependencies(
                        store,
                        Some(allowed),
                        summarize::visible_keys(visible@, written@),
                        versions,
                        versions.len() as int,
                        before.arena@,
                        arena@,
                        effects@,
                    );
                assert(summarize::lists_dependencies(
                    store,
                    Some(allowed),
                    summarize::visible_keys(visible@, before.written@),
                    versions,
                    versions.len() as int,
                    before.arena@,
                    arena@,
                    effects@,
                ));
            }
            (Some(made), arena)
        },
        None => {
            proof {
                let (versions, allowed) = choose|versions: Seq<usize>, allowed: HashSet<u64>|
                    #![trigger summarize::reads_all(store, summarize::visible_keys(visible@, written@), versions), summarize::are_entries(store, visible@, allowed@)]
                    summarize::reads_all(store, summarize::visible_keys(visible@, written@), versions) && summarize::are_entries(store, visible@, allowed@)
                        && summarize::dependencies_stop(store, Some(allowed), summarize::visible_keys(visible@, written@), versions, before.arena@, arena@);
                assert(summarize::dependencies_stop(store, Some(allowed), summarize::visible_keys(visible@, before.written@), versions, before.arena@, arena@));
            }
            (None, arena)
        },
    }
}

/// The expressions were analysed, one after the other.
pub open spec fn selectors_analysed<'a>(p: Program<'a>, list: Seq<&'a Expression>, namespace: usize, arena: PathArena, last: PathArena, r: Option<SelectorAnalysis>) -> bool {
    exists|k: int| #[trigger] first_guarded(list, k) && expressions_analysed(p, list, k, namespace, arena, last, r)
}

/// Analyses expressions, one after the other, for the nodes of the module that they read. From the first on
/// that has decisions or calls they are evaluated. There is no answer where some number does not fit.
pub fn analyze_instance_expressions<'a>(p: &Program<'a>, list: &Vec<&'a Expression>, namespace: usize, arena: PathArena) -> (r: (Option<SelectorAnalysis>, PathArena))
    requires
        p.wf(),
        arena.wf(),
    ensures
        r.1.wf(),
        arena::grows(arena@, r.1@),
        selectors_analysed(*p, list@, namespace, arena, r.1, r.0),
        r.0 matches Some(found) ==> reads_hold(found.reads@, r.1@),
{
    let ghost first_arena = arena;
    let mut plain: Vec<RegionSource> = Vec::new();
    let mut k: usize = 0;
    let mut guarded = false;
    while k < list.len() && !guarded
        invariant
            k <= list@.len(),
            p.wf(),
            forall|i: int| 0 <= i < k ==> !occurrences::is_guarded(*#[trigger] list@[i]),
            guarded ==> k < list@.len() && occurrences::is_guarded(*list@[k as int]),
            forall|source: RegionSource| #[trigger] plain@.contains(source) <==> plain_read(*p.partition, list@, k as int, source),
        decreases list@.len() - k + if guarded { 0int } else { 1int },
    {
        let ghost before = plain@;
        match analyze_instance_actual(p.partition, list[k]) {
            None => {
                guarded = true;
            },
            Some(more) => {
                extend_reads(&mut plain, &more);
                proof {
                    let keys = choose|keys: Seq<NodeKey>| #[trigger]
                        order::strictly_sorted(keys) && actuals::listed(keys) == actuals::unguarded_reads(*p.partition, *list@[k as int]) && more@.len() == keys.len()
                            && forall|i: int|
                            0 <= i < keys.len() ==> (#[trigger] more@[i]) == (RegionSource { key: keys[i], offset: None, condition: PathCondition { node: 0 } });
                    assert forall|source: RegionSource| #[trigger] plain@.contains(source) <==> plain_read(*p.partition, list@, k + 1, source) by {
                        lemma_contains_sum(before, more@, source);
                        let here = actuals::unguarded_reads(*p.partition, *list@[k as int]);
                        assert(more@.contains(source) <==> source == requests::whole_source(source.key) && here.contains(source.key)) by {
                            if more@.contains(source) {
                                let i = choose|i: int| 0 <= i < more@.len() && more@[i] == source;
                                assert(more@[i].key == keys[i]);
                                assert(actuals::listed(keys).contains(keys[i]));
                            }
                            if source == requests::whole_source(source.key) && here.contains(source.key) {
                                assert(actuals::listed(keys).contains(source.key));
                                let i = choose|i: int| 0 <= i < keys.len() && keys[i] == source.key;
                                assert(more@[i] == source);
                            }
                        }
                        if plain_read(*p.partition, list@, k as int, source) {
                            let i = choose|i: int| 0 <= i < k && actuals::unguarded_reads(*p.partition, *#[trigger] list@[i]).contains(source.key);
                            assert(actuals::unguarded_reads(*p.partition, *list@[i]).contains(source.key));
                        }
                        if plain_read(*p.partition, list@, k + 1, source) {
                            let i = choose|i: int| 0 <= i < k + 1 && actuals::unguarded_reads(*p.partition, *#[trigger] list@[i]).contains(source.key);
                            if i < k {
                                assert(plain_read(*p.partition, list@, k as int, source));
                            }
                        }
                    }
                }
                k = k + 1;
            },
        }
    }
    assert(first_guarded(list@, k as int));
    let ghost all_plain = plain@;
    if k == list.len() {
        let reads = sort_dedup(&plain);
        let r = SelectorAnalysis { reads, dependencies: Vec::new(), complete: true };
        proof {
            assert forall|source: RegionSource| #[trigger] r.reads@.contains(source) <==> plain_read(*p.partition, list@, k as int, source) by {
                assert(plain@.contains(source) <==> plain_read(*p.partition, list@, k as int, source));
            }
            assert forall|i: int| 0 <= i < r.reads@.len() implies (#[trigger] r.reads@[i]).condition.node < arena@.len() by {
                assert(r.reads@.contains(r.reads@[i]));
                assert(plain_read(*p.partition, list@, k as int, r.reads@[i]));
            }
            assert(expressions_analysed(*p, list@, k as int, namespace, arena, arena, Some(r)));
        }
        return (Some(r), arena);
    }
    let mut m = begin(p, namespace, arena);
    let ghost start = m;
    let mut found: Vec<RegionSource> = Vec::new();
    let mut i: usize = k;
    proof {
        machine::lemma_kept_self(start);
    }
    while i < list.len()
        invariant
            k <= i <= list@.len(),
            k < list@.len(),
            p.wf(),
            m.ready(*p),
            start.kept(m),
            first_arena == arena,
            start.arena == first_arena,
            analysis::at_start(*p, namespace, first_arena, start),
            first_guarded(list@, k as int),
            expressions_read(*p, list@, k as int, i as int, start, m, found@),
            reads_hold(found@, m.arena@),
        decreases list@.len() - i,
    {
        let ghost before = found@;
        let ghost a = m;
        match m.read_expression(p, list[i]) {
            None => {
                proof {
                    machine::lemma_kept_twice(start, a, m);
                    assert(expressions_read(*p, list@, k as int, i as int, start, a, before) && expression_read(*p, *list@[i as int], a, m, None));
                    assert(evaluated_to(*p, list@, k as int, start, a, before, m.arena, None));
                    assert(way_expressions(start, a, before));
                    assert(expressions_analysed(*p, list@, k as int, namespace, first_arena, m.arena, None));
                }
                return (None, m.arena);
            },
            Some(more) => {
                extend_reads(&mut found, &more);
                proof {
                    machine::lemma_kept_twice(start, a, m);
                    let c = i + 1;
                    assert(way_reads(a, before, more@));
                    assert(expressions_read(*p, list@, k as int, c - 1, start, a, before));
                    assert(expression_read(*p, *list@[c - 1], a, m, Some(more@)));
                    assert(expressions_read(*p, list@, k as int, c, start, m, found@));
                    assert forall|x: int| 0 <= x < found@.len() implies (#[trigger] found@[x]).condition.node < m.arena@.len() by {
                        if x < before.len() {
                            assert(before[x].condition.node < a.arena@.len());
                        } else {
                            assert(more@[x - before.len()].condition.node < m.arena@.len());
                        }
                    }
                }
            },
        }
        i = i + 1;
    }
    let ghost n = m;
    let known = m.keys_are_known();
    if !m.fits || !known {
        proof {
            assert(!analysis::numbers_fit(*p, n));
            assert(evaluated_to(*p, list@, k as int, start, n, found@, m.arena, None));
            assert(way_expressions(start, n, found@));
            assert(expressions_analysed(*p, list@, k as int, namespace, first_arena, m.arena, None));
        }
        return (None, m.arena);
    }
    let complete = m.complete;
    let ghost at_end = m;
    let (effects, last) = find_effects(p, m);
    proof {
        arena::growth_is_transitive(start.arena@, n.arena@, last@);
    }
    match effects {
        None => {
            proof {
                assert(effects_stop(*p, n.written@, n.store, n.arena@, last@));
                assert(evaluated_to(*p, list@, k as int, start, n, found@, last, None));
                assert(way_expressions(start, n, found@));
                assert(expressions_analysed(*p, list@, k as int, namespace, first_arena, last, None));
            }
            (None, last)
        },
        Some(effects) => {
            let ghost read = found@;
            let mut all = found;
            extend_reads(&mut all, &plain);
            let reads = sort_dedup(&all);
            let r = SelectorAnalysis { reads, dependencies: effects, complete };
            proof {
                assert forall|source: RegionSource| #[trigger] r.reads@.contains(source) <==> plain_read(*p.partition, list@, k as int, source) || read.contains(
                    source,
                ) by {
                    lemma_contains_sum(read, all_plain, source);
                    assert(all_plain.contains(source) <==> plain_read(*p.partition, list@, k as int, source));
                    assert(r.reads@.contains(source) <==> all@.contains(source));
                }
                assert(evaluated_to(*p, list@, k as int, start, n, read, last, Some(r)));
                assert(way_expressions(start, n, read));
                assert(expressions_analysed(*p, list@, k as int, namespace, first_arena, last, Some(r)));
                assert forall|x: int| 0 <= x < r.reads@.len() implies (#[trigger] r.reads@[x]).condition.node < last@.len() by {
                    let source = r.reads@[x];
                    assert(r.reads@.contains(source));
                    if read.contains(source) {
                        let y = choose|y: int| 0 <= y < read.len() && read[y] == source;
                        assert(read[y].condition.node < n.arena@.len());
                    } else {
                        assert(plain_read(*p.partition, list@, k as int, source));
                    }
                }
            }
            (Some(r), last)
        },
    }
}

proof fn lemma_contains_sum(a: Seq<RegionSource>, b: Seq<RegionSource>, x: RegionSource)
    ensures
        (a + b).contains(x) <==> a.contains(x) || b.contains(x),
{
    if a.contains(x) {
        let i = choose|i: int| 0 <= i < a.len() && a[i] == x;
        assert((a + b)[i] == x);
    }
    if b.contains(x) {
        let i = choose|i: int| 0 <= i < b.len() && b[i] == x;
        assert((a + b)[a.len() + i] == x);
    }
    if (a + b).contains(x) {
        let i = choose|i: int| 0 <= i < (a + b).len() && (a + b)[i] == x;
        if i < a.len() {
            assert(a[i] == x);
        } else {
            assert(b[i - a.len()] == x);
        }
    }
}

/// The expressions that select what an access touches, in order.
pub open spec fn selectors_of<'a>(access: Access) -> Seq<&'a Expression> {
    Seq::new(access.index@.len(), |i: int| &access.index@[i]) + Seq::new(access.select@.len(), |i: int| &access.select@[i])
}

/// Analyses what selects where an output is written.
pub fn analyze_instance_destination<'a>(p: &Program<'a>, access: &'a Access, namespace: usize, arena: PathArena) -> (r: (Option<SelectorAnalysis>, PathArena))
    requires
        p.wf(),
        arena.wf(),
    ensures
        r.1.wf(),
        arena::grows(arena@, r.1@),
        selectors_analysed(*p, selectors_of(*access), namespace, arena, r.1, r.0),
        r.0 matches Some(found) ==> reads_hold(found.reads@, r.1@),
{
    let mut list: Vec<&'a Expression> = Vec::new();
    let mut i: usize = 0;
    while i < access.index.len()
        invariant
            i <= access.index@.len(),
            list@.len() == i,
            forall|k: int| 0 <= k < i ==> *(#[trigger] list@[k]) == access.index@[k],
        decreases access.index@.len() - i,
    {
        list.push(&access.index[i]);
        i = i + 1;
    }
    let mut j: usize = 0;
    while j < access.select.len()
        invariant
            j <= access.select@.len(),
            list@.len() == access.index@.len() + j,
            forall|k: int| 0 <= k < access.index@.len() ==> *(#[trigger] list@[k]) == access.index@[k],
            forall|k: int| access.index@.len() <= k < list@.len() ==> *(#[trigger] list@[k]) == access.select@[k - access.index@.len()],
        decreases access.select@.len() - j,
    {
        list.push(&access.select[j]);
        j = j + 1;
    }
    assert(list@ =~= selectors_of(*access));
    analyze_instance_expressions(p, &list, namespace, arena)
}

} // verus!
