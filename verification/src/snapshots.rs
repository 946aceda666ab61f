//! What is assigned to the nodes of a destination.
use vstd::prelude::*;
use crate::flows;
use crate::flows::{change_all, to_wide, Change, Decision, FlowRef, FlowState, Flows, Found, ProjectionContext, Projector};
use crate::ir::{Access, Expression};
use crate::layout;
use crate::layout::EvaluationCache;
use crate::partition::{BitPartition, NodeKey};
use crate::projection::DestinationArrayProjection;
use crate::relation::PositionRelation;
use crate::span::PackedSpan;
use crate::targets::Target;

verus! {

/// What is assigned to one node.
pub struct DestinationSnapshot {
    pub node: NodeKey,
    pub sources: Vec<FlowRef>,
    /// Nothing is known of the value.
    pub opaque: bool,
}

/// The bits of the expression that are assigned to a node: those of the node, seen from the lowest
/// bit written, behind those that go to other destinations.
pub open spec fn assigned_bits(span: PackedSpan, low: usize, offset: usize) -> Option<PackedSpan> {
    if span.start >= low && span.start - low + offset + span.length <= usize::MAX {
        Some(PackedSpan { start: (span.start - low + offset) as usize, length: span.length })
    } else {
        None
    }
}

/// What leads from positions of the expression to those of the destination, where one offset does.
pub open spec fn placed(array: DestinationArrayProjection, low: usize, offset: usize) -> Change {
    if isize::MIN <= low - offset <= isize::MAX {
        Change::Translate(PositionRelation { array: array.array_offset, packed: Some((low - offset) as isize) })
    } else {
        Change::Widen
    }
}

/// An assignment of an expression to a destination.
pub struct Assignment<'a> {
    pub cache: &'a EvaluationCache,
    pub partition: &'a BitPartition,
    pub destination: &'a Access,
    pub value: &'a Expression,
    /// Where the bits of the destination start in the expression.
    pub offset: usize,
    /// The width of the context of the expression.
    pub context: usize,
}

impl<'a> Assignment<'a> {
    /// The expression as it is looked at for a target.
    pub open spec fn projection_for(self, array: DestinationArrayProjection) -> ProjectionContext<'a> {
        ProjectionContext {
            destination_index: match self.destination.flattened {
                Some(index) => Some(&index),
                None => None,
            },
            destination_array: Some(array.destination),
            destination_array_offset: array.array_offset,
        }
    }

    pub open spec fn projector_for(self, array: DestinationArrayProjection) -> Projector<'a> {
        Projector { cache: self.cache, partition: self.partition, projection: &self.projection_for(array) }
    }

    pub open spec fn plain_projection(self) -> ProjectionContext<'a> {
        ProjectionContext { destination_index: None, destination_array: None, destination_array_offset: None }
    }

    pub open spec fn plain(self) -> Projector<'a> {
        Projector { cache: self.cache, partition: self.partition, projection: &self.plain_projection() }
    }

    pub open spec fn wf(self) -> bool {
        self.plain().wf()
    }

    /// The bits written, or the elements, are not known: every node depends on all of the expression.
    pub open spec fn is_wide(self) -> bool {
        self.destination.regions@.len() == 0 || self.destination.selected is None
    }

    /// All that the expression depends on.
    pub open spec fn whole(self, state: FlowState) -> Found {
        if self.is_wide() {
            self.plain().wide_of(state, Seq::empty(), *self.value)
        } else {
            flows::none(state)
        }
    }

    /// What is assigned to a target whose place is known.
    pub open spec fn target_found(self, state: FlowState, whole: Seq<FlowRef>, target: Target) -> Found {
        match (target.array, self.destination.selected, target.span) {
            (Some(array), Some(selected), Some(span)) => match assigned_bits(span, selected.low, self.offset) {
                Some(packed) => if span.wf() {
                    flows::change_found(
                        self.projector_for(array).requested_of(state, Seq::empty(), *self.value, array.source, packed, self.context),
                        placed(array, selected.low, self.offset),
                    )
                } else {
                    flows::none(state)
                },
                None => flows::none(state),
            },
            _ => Found { state, sources: whole },
        }
    }

    /// The state after the first `count` targets.
    pub open spec fn targets_state(self, state: FlowState, whole: Seq<FlowRef>, targets: Seq<Target>, count: int) -> FlowState
        decreases count,
    {
        if count <= 0 {
            state
        } else {
            self.target_found(self.targets_state(state, whole, targets, count - 1), whole, targets[count - 1]).state
        }
    }

    /// What is assigned to target number `i`.
    pub open spec fn snapshot_at(self, state: FlowState, targets: Seq<Target>, i: int) -> Seq<FlowRef> {
        let whole = self.whole(state);
        self.target_found(self.targets_state(whole.state, whole.sources, targets, i), whole.sources, targets[i]).sources
    }

    fn snapshot_target(&self, flows: &mut Flows, whole: &Vec<FlowRef>, target: Target) -> (r: Vec<FlowRef>)
        requires
            self.wf(),
        ensures
            final(flows).state() == self.target_found(old(flows).state(), whole@, target).state,
            r@ == self.target_found(old(flows).state(), whole@, target).sources,
    {
        match (target.array, self.destination.selected, target.span) {
            (Some(array), Some(selected), Some(span)) => {
                let span = match PackedSpan::new(span.start, span.length) {
                    Some(span) => span,
                    None => {
                        return Vec::new();
                    },
                };
                let packed = match span.translated(selected.low, self.offset) {
                    Some(packed) => packed,
                    None => {
                        return Vec::new();
                    },
                };
                let context = ProjectionContext {
                    destination_index: match &self.destination.flattened {
                        Some(index) => Some(index),
                        None => None,
                    },
                    destination_array: Some(array.destination),
                    destination_array_offset: array.array_offset,
                };
                let projector = Projector { cache: self.cache, partition: self.partition, projection: &context };
                assert(projector == self.projector_for(array));
                assert(projector.wf()) by {
                    assert(self.plain().wf());
                    assert forall|occurrence: usize| #[trigger] projector.cache.variable_reads@.dom().contains(occurrence) implies layout::keys_ascend(
                        projector.cache.variable_reads@[occurrence].versions@,
                    ) by {
                        assert(self.plain().cache.variable_reads@.dom().contains(occurrence));
                    }
                }
                let none: Vec<Decision> = Vec::new();
                assert(none@ =~= Seq::empty());
                let found = projector.eval_expr_requested_in(flows, &none, self.value, array.source, packed, self.context);
                let change = match array.position_offset(selected.low, self.offset) {
                    Some(base) => Change::Translate(base),
                    None => Change::Widen,
                };
                assert(change == placed(array, selected.low, self.offset));
                change_all(&found, change)
            },
            _ => copy_refs(whole),
        }
    }

    /// What is assigned to each target. Nothing is known of the values where the targets are not.
    pub fn snapshot_assignment_destination(&self, flows: &mut Flows, targets: &Vec<Target>, resolved: bool) -> (r: Vec<DestinationSnapshot>)
        requires
            self.wf(),
        ensures
            r@.len() == targets@.len(),
            forall|i: int|
                0 <= i < r@.len() ==> (#[trigger] r@[i]).node == targets@[i].node && r@[i].opaque == !resolved && r@[i].sources@ == (if resolved {
                    self.snapshot_at(old(flows).state(), targets@, i)
                } else {
                    Seq::empty()
                }),
            final(flows).state() == (if resolved {
                let whole = self.whole(old(flows).state());
                self.targets_state(whole.state, whole.sources, targets@, targets@.len() as int)
            } else {
                old(flows).state()
            }),
    {
        let ghost start = flows.state();
        let mut r: Vec<DestinationSnapshot> = Vec::new();
        let mut i: usize = 0;
        if !resolved {
            while i < targets.len()
                invariant
                    i <= targets@.len(),
                    r@.len() == i,
                    flows.state() == start,
                    forall|k: int| 0 <= k < i ==> (#[trigger] r@[k]).node == targets@[k].node && r@[k].opaque && r@[k].sources@ == Seq::<FlowRef>::empty(),
                decreases targets@.len() - i,
            {
                r.push(DestinationSnapshot { node: targets[i].node, sources: Vec::new(), opaque: true });
                i = i + 1;
            }
            return r;
        }
        let none: Vec<Decision> = Vec::new();
        assert(none@ =~= Seq::empty());
        let plain = ProjectionContext { destination_index: None, destination_array: None, destination_array_offset: None };
        let projector = Projector { cache: self.cache, partition: self.partition, projection: &plain };
        assert(projector == self.plain());
        let mut whole: Vec<FlowRef> = Vec::new();
        if self.destination.regions.len() == 0 || self.destination.selected.is_none() {
            let origins = projector.eval_expr_inner(flows, &none, self.value, true);
            whole = to_wide(&origins);
        }
        let ghost found = self.whole(start);
        assert(whole@ == found.sources && flows.state() == found.state);
        while i < targets.len()
            invariant
                i <= targets@.len(),
                self.wf(),
                found == self.whole(start),
                whole@ == found.sources,
                r@.len() == i,
                flows.state() == self.targets_state(found.state, found.sources, targets@, i as int),
                forall|k: int| 0 <= k < i ==> (#[trigger] r@[k]).node == targets@[k].node && !r@[k].opaque && r@[k].sources@ == self.snapshot_at(start, targets@, k),
            decreases targets@.len() - i,
        {
            let sources = self.snapshot_target(flows, &whole, targets[i]);
            r.push(DestinationSnapshot { node: targets[i].node, sources, opaque: false });
            i = i + 1;
        }
        r
    }
}

fn copy_refs(list: &Vec<FlowRef>) -> (r: Vec<FlowRef>)
    ensures
        r@ == list@,
{
    let mut r: Vec<FlowRef> = Vec::new();
    let mut i: usize = 0;
    while i < list.len()
        invariant
            i <= list@.len(),
            r@ == list@.take(i as int),
        decreases list@.len() - i,
    {
        r.push(list[i]);
        i = i + 1;
        assert(r@ =~= list@.take(i as int));
    }
    assert(r@ =~= list@);
    r
}

} // verus!
