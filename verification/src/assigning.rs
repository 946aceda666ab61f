//! Assignments and arguments: what is found for each node, and how it is written.
use vstd::prelude::*;
use std::collections::HashMap;
use crate::apply::FormalShape;
use crate::arena;
use crate::arena::{PathCondition, PathNode};
use crate::assign;
use crate::assign::write_assignment_destination;
use crate::flows;
use crate::flows::{FlowRef, Flows, Found, Projector};
use crate::instance;
use crate::ir::{Access, Expression};
use crate::layout;
use crate::layout::EvaluationCache;
use crate::machine;
use crate::machine::Machine;
use crate::order;
use crate::order::Ordered;
use crate::partition::NodeKey;
use crate::path::BranchId;
use crate::projection;
use crate::projection::{destination_array_selection, DestinationArraySelection};
use crate::realize;
use crate::realize::Realizer;
use crate::results;
use crate::sequence;
use crate::snapshots::{Assignment, DestinationSnapshot};
use crate::ssa;
use crate::ssa::SsaStore;
use crate::steps;
use crate::targets;
use crate::targets::{destination_targets, Target, WriteKeys};
use crate::values;
use crate::values::{number_nodes, Program};
use crate::writes;
use crate::writes::{aggregate_destination_controls, KeyWrite};

verus! {

/// The number of bits of a destination, where it is known.
pub open spec fn width_of(access: Access) -> Option<usize> {
    match access.selected {
        Some(selected) => if selected.low <= selected.high && selected.high - selected.low < usize::MAX {
            Some((selected.high - selected.low + 1) as usize)
        } else {
            None
        },
        None => None,
    }
}

/// The number of bits of a destination.
pub fn destination_width(access: &Access) -> (r: Option<usize>)
    ensures
        r == width_of(*access),
{
    match access.selected {
        Some(selected) => {
            if selected.low <= selected.high && selected.high - selected.low < usize::MAX {
                Some(selected.high - selected.low + 1)
            } else {
                None
            }
        },
        None => None,
    }
}

/// All widths are known.
pub open spec fn widths_known(list: Seq<Access>) -> bool {
    forall|i: int| 0 <= i < list.len() ==> width_of(#[trigger] list[i]) is Some
}

/// The bits of the destinations from `i` on, together.
pub open spec fn bits_from(list: Seq<Access>, i: int) -> int
    decreases list.len() - i,
{
    if i < 0 || i >= list.len() {
        0
    } else {
        bits_from(list, i + 1) + match width_of(list[i]) {
            Some(width) => width as int,
            None => 0,
        }
    }
}

/// The bits of all destinations; nothing where some width is not known or the sum does not fit.
pub enum TotalWidth {
    Unknown,
    TooLarge,
    Bits(Vec<usize>),
}

/// Where the bits of each destination start, and at the front where all end.
pub fn destination_offsets(list: &Vec<Access>) -> (r: TotalWidth)
    ensures
        match r {
            TotalWidth::Unknown => !widths_known(list@),
            TotalWidth::TooLarge => widths_known(list@) && bits_from(list@, 0) > usize::MAX,
            TotalWidth::Bits(offsets) => widths_known(list@) && bits_from(list@, 0) <= usize::MAX && offsets@.len() == list@.len() + 1 && forall|i: int|
                0 <= i <= list@.len() ==> (#[trigger] offsets@[i]) == bits_from(list@, i),
        },
{
    let mut i: usize = 0;
    while i < list.len()
        invariant
            i <= list@.len(),
            forall|k: int| 0 <= k < i ==> width_of(#[trigger] list@[k]) is Some,
        decreases list@.len() - i,
    {
        if destination_width(&list[i]).is_none() {
            assert(width_of(list@[i as int]) is None);
            return TotalWidth::Unknown;
        }
        i = i + 1;
    }
    let mut offsets: Vec<usize> = Vec::new();
    offsets.push(0);
    let mut sum: usize = 0;
    let ghost count = list@.len() as int;
    while i > 0
        invariant
            i <= list@.len(),
            count == list@.len(),
            widths_known(list@),
            sum == bits_from(list@, i as int),
            offsets@.len() == count - i + 1,
            forall|k: int| 0 <= k < offsets@.len() ==> (#[trigger] offsets@[k]) == bits_from(list@, count - k),
        decreases i,
    {
        i = i - 1;
        let width: usize = match destination_width(&list[i]) {
            Some(width) => width,
            None => 0,
        };
        match sum.checked_add(width) {
            Some(more) => {
                sum = more;
                offsets.push(sum);
            },
            None => {
                proof {
                    lemma_bits_grow(list@, i as int);
                }
                return TotalWidth::TooLarge;
            },
        }
    }
    let mut r: Vec<usize> = Vec::new();
    let mut k: usize = offsets.len();
    let ghost total = offsets@.len() as int;
    while k > 0
        invariant
            k <= offsets@.len(),
            total == offsets@.len(),
            total == count + 1,
            count == list@.len(),
            forall|k: int| 0 <= k < offsets@.len() ==> (#[trigger] offsets@[k]) == bits_from(list@, count - k),
            r@.len() == total - k,
            forall|q: int| 0 <= q < r@.len() ==> (#[trigger] r@[q]) == bits_from(list@, q),
        decreases k,
    {
        k = k - 1;
        r.push(offsets[k]);
    }
    TotalWidth::Bits(r)
}

proof fn lemma_bits_grow(list: Seq<Access>, i: int)
    requires
        0 <= i <= list.len(),
    ensures
        bits_from(list, i) <= bits_from(list, 0),
    decreases i,
{
    if i > 0 {
        lemma_bits_grow(list, i - 1);
    }
}

/// What is found for the nodes of one destination.
pub struct Planned {
    pub keys: Vec<u64>,
    pub snapshots: Vec<DestinationSnapshot>,
    /// The nodes are known by region.
    pub resolved: bool,
}

/// Marks what a destination was planned by.
pub open spec fn way_planned(w: WriteKeys, selection: DestinationArraySelection, list: Seq<Target>) -> bool {
    true
}

pub open spec fn nodes_of(list: Seq<Target>) -> Seq<NodeKey> {
    list.map_values(|t: Target| t.node)
}

/// What is assigned to the nodes of a destination, where `before` was made of the expression so far.
pub open spec fn destination_planned<'a>(p: Program<'a>, assignment: Assignment<'a>, before: flows::FlowState, after: flows::FlowState, planned: Planned) -> bool {
    let access = *assignment.destination;
    exists|w: WriteKeys, selection: DestinationArraySelection, list: Seq<Target>| #[trigger]
        way_planned(w, selection, list) && targets::are_written(*p.partition, access, p.owned_of(access.id), w) && projection::is_selection(
            access.shape,
            access.coordinates@,
            selection,
        ) && targets::lists_targets(*p.partition, w.keys@, targets::first_elements(access), selection, w.keys@.len() as int, list) && values::numbered(
            p.nodes@,
            nodes_of(list),
            planned.keys@,
        ) && planned.resolved == w.resolved && planned.snapshots@.len() == list.len() && (forall|i: int|
            0 <= i < list.len() ==> (#[trigger] planned.snapshots@[i]).node == list[i].node && planned.snapshots@[i].opaque == !w.resolved
                && planned.snapshots@[i].sources@ == (if w.resolved {
                assignment.snapshot_at(before, list, i)
            } else {
                Seq::empty()
            })) && after == (if w.resolved {
            let whole = assignment.whole(before);
            assignment.targets_state(whole.state, whole.sources, list, list.len() as int)
        } else {
            before
        })
}

/// The assignment of an expression to one of several destinations: the last takes the lowest bits.
pub open spec fn assignment_of<'a>(p: Program<'a>, cache: &'a EvaluationCache, destinations: Seq<Access>, value: &'a Expression, i: int) -> Assignment<'a> {
    Assignment {
        cache,
        partition: p.partition,
        destination: &destinations[i],
        value,
        offset: bits_from(destinations, i + 1) as usize,
        context: bits_from(destinations, 0) as usize,
    }
}

/// Marks what was made of an expression.
pub open spec fn way_flows(state: flows::FlowState) -> bool {
    true
}

/// The first destinations are planned, one after the other.
pub open spec fn all_planned<'a>(
    p: Program<'a>,
    cache: &'a EvaluationCache,
    destinations: Seq<Access>,
    value: &'a Expression,
    count: int,
    state: flows::FlowState,
    list: Seq<Planned>,
) -> bool
    decreases count,
{
    if count <= 0 {
        list.len() == 0 && state.nodes.len() == 0 && !state.partial
    } else {
        exists|before: flows::FlowState| #[trigger]
            way_flows(before) && list.len() > 0 && all_planned(p, cache, destinations, value, count - 1, before, list.drop_last()) && destination_planned(
                p,
                assignment_of(p, cache, destinations, value, count - 1),
                before,
                state,
                list.last(),
            )
    }
}

pub proof fn lemma_targets_sorted(partition: crate::partition::BitPartition, keys: Seq<NodeKey>, candidates: Option<crate::span::ArraySpan>, selection: DestinationArraySelection, count: int, list: Seq<Target>)
    requires
        0 <= count <= keys.len(),
        order::strictly_sorted(keys),
        targets::lists_targets(partition, keys, candidates, selection, count, list),
    ensures
        order::strictly_sorted(nodes_of(list)),
        forall|i: int| 0 <= i < list.len() ==> keys.take(count).contains((#[trigger] list[i]).node),
    decreases count,
{
    if count > 0 {
        let shorter = if candidates is None || targets::lists_targets(partition, keys, candidates, selection, count - 1, list.drop_last()) && list.len() > 0
            && list.last().node == keys[count - 1] {
            list.drop_last()
        } else {
            list
        };
        lemma_targets_sorted(partition, keys, candidates, selection, count - 1, shorter);
        assert forall|i: int| 0 <= i < shorter.len() implies keys.take(count).contains((#[trigger] shorter[i]).node) && shorter[i].node.lt(keys[count - 1]) by {
            let taken = keys.take(count - 1);
            assert(taken.contains(shorter[i].node));
            let q = choose|q: int| 0 <= q < taken.len() && taken[q] == shorter[i].node;
            assert(keys.take(count)[q] == shorter[i].node);
            assert(keys[q].lt(keys[count - 1]));
        }
        assert(keys.take(count)[count - 1] == keys[count - 1]);
        assert forall|i: int| 0 <= i < list.len() implies keys.take(count).contains((#[trigger] list[i]).node) by {
            if i < shorter.len() {
                assert(shorter[i] == list[i]);
            }
        }
        let nodes = nodes_of(list);
        assert forall|i: int, j: int| 0 <= i < j < nodes.len() implies (#[trigger] nodes[i]).lt(#[trigger] nodes[j]) by {
            assert(shorter[i] == list[i]);
            if j < shorter.len() {
                assert(nodes_of(shorter)[i].lt(nodes_of(shorter)[j]));
                assert(shorter[j] == list[j]);
            }
        }
    }
}

/// Plans one destination.
fn plan_destination(p: &Program, assignment: &Assignment, flows: &mut Flows) -> (r: Planned)
    requires
        p.wf(),
        assignment.partition == p.partition,
        assignment.wf(),
    ensures
        destination_planned(*p, *assignment, old(flows).state(), final(flows).state(), r),
        r.snapshots@.len() == r.keys@.len(),
        forall|i: int, j: int| 0 <= i < j < r.keys@.len() ==> (#[trigger] r.keys@[i]) != (#[trigger] r.keys@[j]),
{
    let access = assignment.destination;
    let w = p.written_by(access);
    let shape = match &access.shape {
        Some(shape) => Some(shape),
        None => None,
    };
    let selection = destination_array_selection(shape, &access.coordinates);
    let list = destination_targets(p.partition, access, &w.keys, &selection);
    let ghost before = flows.state();
    let snapshots = assignment.snapshot_assignment_destination(flows, &list, w.resolved);
    let mut nodes: Vec<NodeKey> = Vec::new();
    let mut i: usize = 0;
    while i < list.len()
        invariant
            i <= list@.len(),
            nodes@ == nodes_of(list@).take(i as int),
        decreases list@.len() - i,
    {
        nodes.push(list[i].node);
        assert(nodes_of(list@).take(i + 1) =~= nodes_of(list@).take(i as int).push(list@[i as int].node));
        i = i + 1;
    }
    proof {
        assert(nodes_of(list@).take(i as int) =~= nodes_of(list@));
        assert(projection::shape_of(shape) == access.shape);
        values::lemma_written_nodes(*p, *access, w);
        lemma_targets_sorted(*p.partition, w.keys@, targets::first_elements(*access), selection, w.keys@.len() as int, list@);
        assert forall|key: NodeKey| #[trigger] nodes@.contains(key) implies p.nodes@.contains(key) by {
            let q = choose|q: int| 0 <= q < nodes@.len() && nodes@[q] == key;
            assert(list@[q].node == key);
            assert(w.keys@.take(w.keys@.len() as int) =~= w.keys@);
            assert(w.keys@.contains(key));
        }
    }
    let keys = number_nodes(p.nodes, &nodes);
    let r = Planned { keys, snapshots, resolved: w.resolved };
    proof {
        values::lemma_numbers_differ(p.nodes@, nodes@, keys@);
        assert(way_planned(w, selection, list@));
    }
    r
}

/// Plans an assignment of an expression to destinations whose widths are known.
pub fn plan_assignment(p: &Program, cache: &EvaluationCache, destinations: &Vec<Access>, value: &Expression, offsets: &Vec<usize>, flows: &mut Flows) -> (r: Vec<Planned>)
    requires
        p.wf(),
        forall|o: usize| #[trigger] cache.variable_reads@.dom().contains(o) ==> layout::keys_ascend(cache.variable_reads@[o].versions@),
        offsets@.len() == destinations@.len() + 1,
        forall|i: int| 0 <= i <= destinations@.len() ==> (#[trigger] offsets@[i]) == bits_from(destinations@, i),
        old(flows).state().nodes.len() == 0,
        !old(flows).state().partial,
    ensures
        all_planned(*p, cache, destinations@, value, destinations@.len() as int, final(flows).state(), r@),
        r@.len() == destinations@.len(),
        forall|i: int| 0 <= i < r@.len() ==> plan_wf(#[trigger] r@[i]),
{
    let mut r: Vec<Planned> = Vec::new();
    let mut i: usize = 0;
    while i < destinations.len()
        invariant
            i <= destinations@.len(),
            p.wf(),
            forall|o: usize| #[trigger] cache.variable_reads@.dom().contains(o) ==> layout::keys_ascend(cache.variable_reads@[o].versions@),
            offsets@.len() == destinations@.len() + 1,
            forall|i: int| 0 <= i <= destinations@.len() ==> (#[trigger] offsets@[i]) == bits_from(destinations@, i),
            all_planned(*p, cache, destinations@, value, i as int, flows.state(), r@),
            r@.len() == i,
            forall|k: int| 0 <= k < i ==> plan_wf(#[trigger] r@[k]),
        decreases destinations@.len() - i,
    {
        let ghost before = flows.state();
        let ghost shorter = r@;
        let assignment = Assignment {
            cache,
            partition: p.partition,
            destination: &destinations[i],
            value,
            offset: offsets[i + 1],
            context: offsets[0],
        };
        proof {
            assert(offsets@[0] == bits_from(destinations@, 0));
            assert(offsets@[i + 1] == bits_from(destinations@, i + 1));
            assert(assignment == assignment_of(*p, cache, destinations@, value, i as int));
        }
        let planned = plan_destination(p, &assignment, flows);
        r.push(planned);
        proof {
            let c = i + 1;
            assert(way_flows(before));
            assert(r@.drop_last() =~= shorter);
            assert(all_planned(*p, cache, destinations@, value, c - 1, before, r@.drop_last()));
            assert(all_planned(*p, cache, destinations@, value, c, flows.state(), r@));
        }
        i = i + 1;
    }
    r
}

pub open spec fn plan_wf(planned: Planned) -> bool {
    &&& planned.snapshots@.len() == planned.keys@.len()
    &&& forall|i: int, j: int| 0 <= i < j < planned.keys@.len() ==> (#[trigger] planned.keys@[i]) != (#[trigger] planned.keys@[j])
}

/// What is found for one node of an argument.
pub open spec fn argument_found<'a>(projector: Projector<'a>, state: flows::FlowState, actual: Expression, shape: Option<FormalShape>, key: NodeKey) -> Found {
    match instance::key_span_of(*projector.partition, key) {
        None => projector.wide_of(state, Seq::empty(), actual),
        Some(span) => match (actual.facts.width, shape) {
            (Some(_), Some(shape)) => if span.wf() {
                projector.requested_of(state, Seq::empty(), actual, key.array, span, shape.width)
            } else {
                flows::none(state)
            },
            _ => projector.wide_of(state.missing(), Seq::empty(), actual),
        },
    }
}

/// The state after the first `count` nodes.
pub open spec fn arguments_state<'a>(projector: Projector<'a>, actual: Expression, shape: Option<FormalShape>, nodes: Seq<NodeKey>, count: int) -> flows::FlowState
    decreases count,
{
    if count <= 0 {
        flows::FlowState { nodes: Seq::empty(), partial: false }
    } else {
        argument_found(projector, arguments_state(projector, actual, shape, nodes, count - 1), actual, shape, nodes[count - 1]).state
    }
}

/// What is found for the nodes of an argument.
pub open spec fn argument_planned<'a>(projector: Projector<'a>, actual: Expression, shape: Option<FormalShape>, nodes: Seq<NodeKey>, list: Seq<Vec<FlowRef>>) -> bool {
    list.len() == nodes.len() && forall|i: int|
        0 <= i < list.len() ==> (#[trigger] list[i])@ == argument_found(
            projector,
            arguments_state(projector, actual, shape, nodes, i),
            actual,
            shape,
            nodes[i],
        ).sources
}


/// What expressions are realized with in a state.
pub open spec fn realizer_of<'a>(p: Program<'a>, cache: &'a EvaluationCache, choices: &'a HashMap<usize, BranchId>, condition: PathCondition) -> Realizer<'a> {
    Realizer { partition: p.partition, nodes: p.nodes, cache, branches: choices, base: condition }
}

/// Versions are made for what was found; nothing where something that is needed is missing.
pub open spec fn flows_realized<'a>(p: Program<'a>, a: Machine, b: Machine, flows: Flows, images: Option<Seq<Seq<usize>>>) -> bool {
    let realizer = realizer_of(p, &a.cache->0, &a.choices, a.condition);
    &&& machine::store_only(Machine { arena: b.arena, complete: a.complete && !flows.partial, fits: a.fits && images is Some, ..a }, b)
    &&& writes::continues(a.store, b.store)
    &&& b.store.current@ == a.store.current@
    &&& match images {
        Some(images) => realizer.all_realized(a.store, b.store, a.arena@, b.arena@, flows.nodes@, flows.nodes@.len() as int, images),
        None => !results::keys_known(a.store, p.nodes@) || exists|middle: SsaStore, between: Seq<PathNode>, at: int, made: Seq<Seq<usize>>| #[trigger]
            realizer.node_missing(a.store, middle, b.store, a.arena@, between, b.arena@, flows.nodes@, at, made),
    }
}

/// The versions exist.
pub open spec fn images_below(images: Seq<Vec<usize>>, limit: int) -> bool {
    forall|n: int, k: int| 0 <= n < images.len() && 0 <= k < images[n]@.len() ==> (#[trigger] images[n]@[k]) < limit
}

pub open spec fn views(images: Option<Vec<Vec<usize>>>) -> Option<Seq<Seq<usize>>> {
    match images {
        Some(images) => Some(realize::views(images@)),
        None => None,
    }
}

/// The bits of an expression are looked at for its destinations.
pub open spec fn assignment_planned<'a>(p: Program<'a>, destinations: Seq<Access>, value: Expression, a: Machine, b: Machine, list: Seq<Planned>, images: Option<Seq<Seq<usize>>>) -> bool {
    exists|flows: Flows|
        #![trigger flows.state()]
        all_planned(p, &a.cache->0, destinations, &value, destinations.len() as int, flows.state(), list) && flows_realized(p, a, b, flows, images)
}

/// An argument is looked at for its nodes.
pub open spec fn argument_looked_at<'a>(p: Program<'a>, actual: Expression, formal: values::Formal, a: Machine, b: Machine, nodes: Seq<NodeKey>, list: Seq<Vec<FlowRef>>, images: Option<Seq<Seq<usize>>>) -> bool {
    exists|flows: Flows|
        #![trigger flows.state()]
        order::strictly_sorted(nodes) && (forall|key: NodeKey| #[trigger] nodes.contains(key) <==> targets::node_of(*p.partition, formal.id, key)) && argument_planned(
            plain_projector(p, &a.cache->0),
            actual,
            formal.shape,
            nodes,
            list,
        ) && flows.state() == arguments_state(plain_projector(p, &a.cache->0), actual, formal.shape, nodes, nodes.len() as int) && flows_realized(
            p,
            a,
            b,
            flows,
            images,
        )
}

pub open spec fn plain_context<'a>() -> crate::flows::ProjectionContext<'a> {
    crate::flows::ProjectionContext { destination_index: None, destination_array: None, destination_array_offset: None }
}

pub open spec fn plain_projector<'a>(p: Program<'a>, cache: &'a EvaluationCache) -> Projector<'a> {
    Projector { cache, partition: p.partition, projection: &plain_context() }
}

/// The version that selects a destination was made.
pub open spec fn control_aggregated(a: SsaStore, b: SsaStore, controls: Seq<usize>, control: Option<usize>) -> bool {
    &&& writes::continues(a, b)
    &&& b.current@ == a.current@
    &&& control is None <==> controls.len() == 0
    &&& control matches Some(version) ==> if writes::all_same(controls) {
        version == controls[0] && b == a
    } else {
        version == a.versions@.len() && writes::is_definition(b.versions@, version as int, writes::whole_sources(controls), PathCondition { node: 0 })
    }
}

/// The values that were found are written to the nodes, under what selects them.
pub open spec fn values_assigned(access: Access, planned: Planned, images: Seq<Seq<usize>>, m: SsaStore, control: Option<usize>, a: Machine, b: Machine) -> bool {
    &&& machine::store_only(Machine { written: b.written, complete: a.complete && planned.resolved, ..a }, b)
    &&& b.written@ == a.written@ + planned.keys@
    &&& writes::continues(m, b.store)
    &&& exists|list: Seq<KeyWrite>| #[trigger] values_are(access, planned, images, control, list) && assign::all_wrote(m, b.store, list, a.condition)
    &&& forall|key: u64| !planned.keys@.contains(key) ==> #[trigger] ssa::binding_of(b.store.current@, key) == ssa::binding_of(a.store.current@, key)
}

pub open spec fn values_are(access: Access, planned: Planned, images: Seq<Seq<usize>>, control: Option<usize>, list: Seq<KeyWrite>) -> bool {
    assign::assignments(images, planned.snapshots@, planned.keys@, control, steps::is_dynamic(access), list)
}

/// What was found for the nodes of a destination is written to them; nothing is written where some
/// version is missing.
pub open spec fn destination_assigned(access: Access, planned: Planned, images: Option<Seq<Seq<usize>>>, controls: Seq<usize>, a: Machine, b: Machine) -> bool {
    match images {
        None => steps::same(a, b),
        Some(images) => exists|m: SsaStore, control: Option<usize>| #[trigger]
            control_aggregated(a.store, m, controls, control) && if assign::snapshots_exist(planned.snapshots@, m.versions@.len() as int) {
                values_assigned(access, planned, images, m, control, a, b)
            } else {
                machine::store_only(Machine { fits: false, ..a }, b) && b.store == m
            },
    }
}

impl Machine {
    /// Makes versions for what was found in the expression.
    pub fn realize_flows(&mut self, p: &Program, flows: &Flows) -> (r: Option<Vec<Vec<usize>>>)
        requires
            old(self).wf(),
            p.wf(),
            old(self).keys == p.nodes@.len(),
            old(self).cache is Some,
        ensures
            final(self).wf(),
            old(self).kept(*final(self)),
            flows_realized(*p, *old(self), *final(self), *flows, views(r)),
            r matches Some(images) ==> images_below(images@, final(self).store.versions@.len() as int),
    {
        let ghost start = *self;
        let known = self.keys_are_known();
        let ghost before = *self;
        proof {
            machine::lemma_continues_self(before.store);
        }
        let mut images: Option<Vec<Vec<usize>>> = None;
        let condition = self.condition;
        if known {
            if let Some(cache) = &self.cache {
                let realizer = Realizer { partition: p.partition, nodes: p.nodes, cache, branches: &self.choices, base: condition };
                proof {
                    assert(results::keys_known(self.store, p.nodes@));
                    assert(realizer == realizer_of(*p, &start.cache->0, &start.choices, start.condition));
                    assert(realizer.wf(self.store));
                }
                images = realizer.realize(&mut self.store, &mut self.arena, flows);
            }
        }
        if flows.partial {
            self.complete = false;
        }
        if images.is_none() {
            self.fits = false;
        }
        proof {
            machine::lemma_continues_goes_on(before.store, self.store);
            branches_held(before, *self);
            assert(self.written@.take(before.written@.len() as int) =~= before.written@);
            machine::lemma_changed(before, *self);
            machine::lemma_kept_twice(start, before, *self);
        }
        images
    }

    /// Looks at the bits of an expression for its destinations.
    pub fn plan_destinations(&mut self, p: &Program, destinations: &Vec<Access>, value: &Expression, offsets: &Vec<usize>) -> (r: (Vec<Planned>, Option<Vec<Vec<usize>>>))
        requires
            old(self).wf(),
            p.wf(),
            old(self).keys == p.nodes@.len(),
            old(self).cache is Some,
            offsets@.len() == destinations@.len() + 1,
            forall|i: int| 0 <= i <= destinations@.len() ==> (#[trigger] offsets@[i]) == bits_from(destinations@, i),
        ensures
            final(self).wf(),
            old(self).kept(*final(self)),
            assignment_planned(*p, destinations@, *value, *old(self), *final(self), r.0@, views(r.1)),
            r.0@.len() == destinations@.len(),
            forall|i: int| 0 <= i < r.0@.len() ==> plan_wf(#[trigger] r.0@[i]),
            r.1 matches Some(images) ==> images_below(images@, final(self).store.versions@.len() as int),
    {
        let ghost start = *self;
        let mut flows = Flows::new();
        let mut list: Vec<Planned> = Vec::new();
        if let Some(cache) = &self.cache {
            proof {
                assert forall|o: usize| #[trigger] cache.variable_reads@.dom().contains(o) implies layout::keys_ascend(cache.variable_reads@[o].versions@) by {
                    assert(machine::frozen_below(*cache.variable_reads@[o], start.store.versions@.len() as int));
                }
            }
            list = plan_assignment(p, cache, destinations, value, offsets, &mut flows);
        }
        let images = self.realize_flows(p, &flows);
        proof {
            assert(all_planned(*p, &start.cache->0, destinations@, value, destinations@.len() as int, flows.state(), list@));
        }
        (list, images)
    }

    /// Writes what was found for a destination whose selectors were evaluated.
    pub fn assign_destination(&mut self, p: &Program, access: &Access, planned: &Planned, images: &Option<Vec<Vec<usize>>>, controls: &Vec<usize>)
        requires
            old(self).wf(),
            p.wf(),
            plan_wf(*planned),
            old(self).cache is Some,
            images matches Some(images) ==> images_below(images@, old(self).store.versions@.len() as int),
            sequence::all_below(controls@, old(self).store.versions@.len() as int),
        ensures
            final(self).wf(),
            old(self).kept(*final(self)),
            destination_assigned(*access, *planned, views(*images), controls@, *old(self), *final(self)),
    {
        let ghost before = *self;
        proof {
            machine::lemma_kept_self(before);
        }
        let images = match images {
            Some(images) => images,
            None => {
                return;
            },
        };
        let condition = self.condition;
        let dynamic = steps::destination_is_dynamic(access);
        let control = aggregate_destination_controls(&mut self.store, controls);
        let ghost m = self.store;
        proof {
            assert(m.guards_in(self.arena@));
            assert(images_below(images@, m.versions@.len() as int)) by {
                assert forall|n: int, k: int| 0 <= n < images@.len() && 0 <= k < images@[n]@.len() implies (#[trigger] images@[n]@[k]) < m.versions@.len() by {
                    assert(images@[n]@[k] < before.store.versions@.len());
                }
            }
        }
        let mut wrote = false;
        if let Some(cache) = &self.cache {
            let realizer = Realizer { partition: p.partition, nodes: p.nodes, cache, branches: &self.choices, base: condition };
            wrote = write_assignment_destination(&mut self.store, &realizer, images, &planned.snapshots, &planned.keys, control, dynamic, condition);
        }
        proof {
            assert(control_aggregated(before.store, m, controls@, control));
            assert(self.store.guards_in(self.arena@));
        }
        let ghost done = self.store;
        assert(wrote == assign::snapshots_exist(planned.snapshots@, m.versions@.len() as int));
        if wrote {
            steps::extend_keys(&mut self.written, &planned.keys);
            if !planned.resolved {
                self.complete = false;
            }
            proof {
                writes::continues_is_transitive(before.store, m, self.store);
                steps::lemma_wrote(before, *self, planned.keys@);
                let made = realize::views(images@);
                let list = choose|list: Seq<KeyWrite>|
                    #![trigger assign::assignments(made, planned.snapshots@, planned.keys@, control, dynamic, list)]
                    assign::assignments(made, planned.snapshots@, planned.keys@, control, dynamic, list) && assign::all_wrote(m, done, list, condition);
                assert(assign::assignments(made, planned.snapshots@, planned.keys@, control, steps::is_dynamic(*access), list));
                assert forall|key: u64| !planned.keys@.contains(key) implies #[trigger] ssa::binding_of(self.store.current@, key) == ssa::binding_of(
                    before.store.current@,
                    key,
                ) by {
                    assert(ssa::binding_of(done.current@, key) == ssa::binding_of(m.current@, key));
                }
                assert(machine::store_only(Machine { written: self.written, complete: before.complete && planned.resolved, ..before }, *self));
                assert(values_are(*access, *planned, made, control, list));
                assert(values_assigned(*access, *planned, made, m, control, before, *self));
                assert(destination_assigned(*access, *planned, Some(made), controls@, before, *self));
            }
        } else {
            self.fits = false;
            proof {
                machine::lemma_continues_goes_on(before.store, self.store);
                assert(self.written@.take(before.written@.len() as int) =~= before.written@);
                machine::lemma_changed(before, *self);
                assert(machine::store_only(Machine { fits: false, ..before }, *self));
                assert(destination_assigned(*access, *planned, Some(realize::views(images@)), controls@, before, *self));
            }
        }
    }
}

proof fn branches_held(a: Machine, b: Machine)
    requires
        a.flows.held_by(a.arena),
        b.flows == a.flows,
        arena::grows(a.arena@, b.arena@),
    ensures
        b.flows.held_by(b.arena),
{
    crate::branches::lemma_held_grows(a.flows, a.arena, b.arena);
}

} // verus!
