//! Calls that are evaluated by the statements of the function: arguments, bodies and outputs.
use vstd::prelude::*;
use crate::apply::{CopyPlace, FormalCopy, FormalShape, FormalValue, OutputDestination};
use crate::arena;
use crate::arena::PathCondition;
use crate::assigning;
use crate::assigning::destination_width;
use crate::calls;
use crate::calls::current_region_groups;
use crate::flow;
use crate::flow::ProcedureFlow;
use crate::flows;
use crate::flows::{FlowRef, Flows, ProjectionContext, Projector};
use crate::frames;
use crate::frames::enter_call;
use crate::instance::key_span;
use crate::ir::{Access, Expression};
use crate::layout;
use crate::layout::{EvaluationCache, FormalVersionLayout, KeyVersion, RegionGroup};
use crate::machine;
use crate::machine::{Evaluated, Machine, OpenFunction};
use crate::order;
use crate::order::{sort_dedup, Ordered};
use crate::outputs::{FormalOutputCoercion, KeyedTarget};
use crate::partition::NodeKey;
use crate::projection;
use crate::projection::destination_array_selection;
use crate::realize;
use crate::realize::Realizer;
use crate::relation::SourceRef;
use crate::results;
use crate::sequence;
use crate::sequence::leave_function_body;
use crate::ssa;
use crate::ssa::{BranchState, Checkpoint, KeyBinding, SsaStore, StateRevision, Version};
use crate::steps;
use crate::targets;
use crate::targets::{destination_targets, keys_for_id, Target, WriteKeys};
use crate::values;
use crate::values::{number_nodes, Formal, Function, Program};
use crate::writes;
use crate::writes::aggregate_destination_controls;

verus! {

/// The argument of a function by the number of its variable.
pub open spec fn is_formal(function: Function, id: Option<u64>, formal: Option<Formal>) -> bool {
    match formal {
        Some(formal) => Some(formal.id) == id && function.formals@.contains(formal),
        None => forall|i: int| 0 <= i < function.formals@.len() ==> Some((#[trigger] function.formals@[i]).id) != id,
    }
}

/// Finds the argument of a function.
pub fn find_formal(function: &Function, id: Option<u64>) -> (r: Option<Formal>)
    ensures
        is_formal(*function, id, r),
{
    let wanted: u64 = match id {
        Some(wanted) => wanted,
        None => {
            return None;
        },
    };
    let mut i: usize = 0;
    while i < function.formals.len()
        invariant
            i <= function.formals@.len(),
            id == Some(wanted),
            forall|k: int| 0 <= k < i ==> (#[trigger] function.formals@[k]).id != wanted,
        decreases function.formals@.len() - i,
    {
        let formal = function.formals[i];
        if formal.id == wanted {
            assert(function.formals@[i as int] == formal);
            return Some(formal);
        }
        i = i + 1;
    }
    None
}

/// The sources of the nodes of an argument are bound, unless one of the nodes is bound already.
pub open spec fn bindings_added(before: Seq<KeyBinding>, keys: Seq<u64>, images: Seq<Seq<usize>>, list: Seq<Vec<FlowRef>>, after: Seq<KeyBinding>) -> bool {
    if exists|i: int| 0 <= i < keys.len() && #[trigger] frames::binds(before, keys[i]) {
        after == before
    } else {
        &&& after.len() == before.len() + keys.len()
        &&& after.take(before.len() as int) == before
        &&& forall|i: int|
            0 <= i < keys.len() ==> (#[trigger] after[before.len() + i]).key == keys[i] && after[before.len() + i].sources@ == realize::realized(images, list[i]@)
    }
}

/// All versions that are named for the nodes exist.
pub open spec fn all_exist(images: Option<Seq<Seq<usize>>>, list: Seq<Vec<FlowRef>>, limit: int) -> bool {
    images is Some && forall|i: int| 0 <= i < list.len() ==> realize::refs_exist((#[trigger] list[i])@, limit)
}

/// Marks what was found for an argument.
pub open spec fn way_argument(n: Machine, nodes: Seq<NodeKey>, list: Seq<Vec<FlowRef>>, images: Option<Seq<Seq<usize>>>, keys: Seq<u64>) -> bool {
    true
}

/// An argument is passed: its nodes get what the bits of the actual come from.
pub open spec fn argument_passed<'a>(p: Program<'a>, formal: Option<Formal>, actual: Expression, a: Machine, b: Machine, before: Seq<KeyBinding>, after: Seq<KeyBinding>) -> bool {
    match formal {
        None => steps::same(a, b) && after == before,
        Some(formal) => exists|n: Machine, nodes: Seq<NodeKey>, list: Seq<Vec<FlowRef>>, images: Option<Seq<Seq<usize>>>, keys: Seq<u64>| #[trigger]
            way_argument(n, nodes, list, images, keys) && assigning::argument_looked_at(p, actual, formal, a, n, nodes, list, images) && values::numbered(
                p.nodes@,
                nodes,
                keys,
            ) && if all_exist(images, list, n.store.versions@.len() as int) {
                steps::same(n, b) && bindings_added(before, keys, images->0, list, after)
            } else {
                steps::same(Machine { fits: false, ..n }, b) && after == before
            },
    }
}

/// The bindings are to different keys that have nodes, and come from versions that exist.
pub open spec fn bindings_wf(list: Seq<KeyBinding>, limit: int) -> bool {
    &&& forall|i: int, j: int| 0 <= i < j < list.len() ==> (#[trigger] list[i]).key != (#[trigger] list[j]).key
    &&& forall|i: int| 0 <= i < list.len() ==> ssa::sources_before((#[trigger] list[i]).sources@, limit)
}

pub proof fn lemma_bindings_grow(list: Seq<KeyBinding>, a: int, b: int)
    requires
        bindings_wf(list, a),
        a <= b,
    ensures
        bindings_wf(list, b),
{
    assert forall|i: int| 0 <= i < list.len() implies ssa::sources_before((#[trigger] list[i]).sources@, b) by {
        assert(ssa::sources_before(list[i].sources@, a));
    }
}

fn find_bound(list: &Vec<KeyBinding>, key: u64) -> (r: bool)
    ensures
        r == frames::binds(list@, key),
{
    let mut i: usize = 0;
    while i < list.len()
        invariant
            i <= list@.len(),
            forall|k: int| 0 <= k < i ==> (#[trigger] list@[k]).key != key,
        decreases list@.len() - i,
    {
        if list[i].key == key {
            assert(list@[i as int].key == key);
            return true;
        }
        i = i + 1;
    }
    false
}

/// What the bits of an actual come from, for each node of the argument.
fn look_at_argument(p: &Program, cache: &EvaluationCache, actual: &Expression, shape: Option<FormalShape>, nodes: &Vec<NodeKey>, flows: &mut Flows) -> (r: Vec<Vec<FlowRef>>)
    requires
        p.wf(),
        forall|o: usize| #[trigger] cache.variable_reads@.dom().contains(o) ==> layout::keys_ascend(cache.variable_reads@[o].versions@),
        old(flows).state() == (flows::FlowState { nodes: Seq::empty(), partial: false }),
    ensures
        assigning::argument_planned(assigning::plain_projector(*p, cache), *actual, shape, nodes@, r@),
        final(flows).state() == assigning::arguments_state(assigning::plain_projector(*p, cache), *actual, shape, nodes@, nodes@.len() as int),
{
    let context = ProjectionContext { destination_index: None, destination_array: None, destination_array_offset: None };
    let projector = Projector { cache, partition: p.partition, projection: &context };
    assert(projector == assigning::plain_projector(*p, cache));
    let none: Vec<flows::Decision> = Vec::new();
    assert(none@ =~= Seq::empty());
    let mut r: Vec<Vec<FlowRef>> = Vec::new();
    let mut i: usize = 0;
    while i < nodes.len()
        invariant
            i <= nodes@.len(),
            p.wf(),
            projector.wf(),
            projector == assigning::plain_projector(*p, cache),
            none@ == Seq::<flows::Decision>::empty(),
            r@.len() == i,
            flows.state() == assigning::arguments_state(projector, *actual, shape, nodes@, i as int),
            forall|k: int|
                0 <= k < i ==> (#[trigger] r@[k])@ == assigning::argument_found(
                    projector,
                    assigning::arguments_state(projector, *actual, shape, nodes@, k),
                    *actual,
                    shape,
                    nodes@[k],
                ).sources,
        decreases nodes@.len() - i,
    {
        let key = nodes[i];
        let ghost before = flows.state();
        let found = match key_span(p.partition, key) {
            None => {
                let origins = projector.eval_expr_inner(flows, &none, actual, true);
                flows::to_wide(&origins)
            },
            Some(span) => match (actual.facts.width, shape) {
                (Some(_), Some(shape)) => projector.eval_expr_requested_in(flows, &none, actual, key.array, span, shape.width),
                _ => {
                    flows.mark_partial();
                    let origins = projector.eval_expr_inner(flows, &none, actual, true);
                    flows::to_wide(&origins)
                },
            },
        };
        r.push(found);
        proof {
            let c = i + 1;
            assert(assigning::arguments_state(projector, *actual, shape, nodes@, c) == assigning::argument_found(
                projector,
                assigning::arguments_state(projector, *actual, shape, nodes@, c - 1),
                *actual,
                shape,
                nodes@[c - 1],
            ).state);
        }
        i = i + 1;
    }
    r
}

impl Machine {
    /// Passes an argument whose effects were taken back.
    pub fn pass_argument(&mut self, p: &Program, formal: Option<Formal>, actual: &Expression, list: &mut Vec<KeyBinding>)
        requires
            old(self).ready(*p),
            old(self).cache is Some,
            bindings_wf(old(list)@, old(self).store.versions@.len() as int),
        ensures
            final(self).wf(),
            old(self).kept(*final(self)),
            final(self).condition == old(self).condition,
            argument_passed(*p, formal, *actual, *old(self), *final(self), old(list)@, final(list)@),
            bindings_wf(final(list)@, final(self).store.versions@.len() as int),
    {
        let ghost start = *self;
        let ghost before = list@;
        proof {
            machine::lemma_kept_self(start);
        }
        let formal = match formal {
            Some(formal) => formal,
            None => {
                return;
            },
        };
        let nodes = keys_for_id(p.partition, formal.id);
        proof {
            assert forall|key: NodeKey| #[trigger] nodes@.contains(key) implies p.nodes@.contains(key) by {
                assert(targets::node_of(*p.partition, formal.id, key));
                assert(p.partition.is_node(key));
            }
        }
        let keys = number_nodes(p.nodes, &nodes);
        let mut flows = Flows::new();
        let mut found: Vec<Vec<FlowRef>> = Vec::new();
        if let Some(cache) = &self.cache {
            proof {
                assert forall|o: usize| #[trigger] cache.variable_reads@.dom().contains(o) implies layout::keys_ascend(cache.variable_reads@[o].versions@) by {
                    assert(machine::frozen_below(*cache.variable_reads@[o], start.store.versions@.len() as int));
                }
            }
            found = look_at_argument(p, cache, actual, formal.shape, &nodes, &mut flows);
        }
        let images = self.realize_flows(p, &flows);
        let ghost n = *self;
        proof {
            assert(assigning::argument_planned(assigning::plain_projector(*p, &start.cache->0), *actual, formal.shape, nodes@, found@));
            assert(flows.state() == assigning::arguments_state(
                assigning::plain_projector(*p, &start.cache->0),
                *actual,
                formal.shape,
                nodes@,
                nodes@.len() as int,
            ));
            assert(assigning::argument_looked_at(*p, *actual, formal, start, n, nodes@, found@, assigning::views(images)));
            assert(way_argument(n, nodes@, found@, assigning::views(images), keys@));
            values::lemma_numbers_differ(p.nodes@, nodes@, keys@);
            lemma_bindings_grow(before, start.store.versions@.len() as int, n.store.versions@.len() as int);
        }
        let limit: usize = self.store.versions.len();
        let made = match &images {
            Some(images) => self.realize_all(p, images, &found, limit),
            None => None,
        };
        match made {
            Some(sources) => {
                let mut taken = false;
                let mut i: usize = 0;
                while i < keys.len()
                    invariant
                        i <= keys@.len(),
                        taken == exists|k: int| 0 <= k < i && #[trigger] frames::binds(before, keys@[k]),
                        list@ == before,
                    decreases keys@.len() - i,
                {
                    if find_bound(list, keys[i]) {
                        assert(frames::binds(before, keys@[i as int]));
                        taken = true;
                    }
                    i = i + 1;
                }
                if !taken {
                    let ghost all = sources@;
                    let mut sources = sources;
                    let mut k: usize = keys.len();
                    let mut tail: Vec<KeyBinding> = Vec::new();
                    while k > 0
                        invariant
                            k <= keys@.len(),
                            all.len() == keys@.len(),
                            sources@ == all.take(k as int),
                            tail@.len() == keys@.len() - k,
                            forall|q: int|
                                0 <= q < tail@.len() ==> (#[trigger] tail@[q]).key == keys@[keys@.len() - 1 - q] && tail@[q].sources@ == all[keys@.len() - 1 - q]@,
                        decreases k,
                    {
                        k = k - 1;
                        let last = sources.pop().unwrap();
                        assert(sources@ =~= all.take(k as int));
                        tail.push(KeyBinding { key: keys[k], sources: last });
                    }
                    let ghost total = keys@.len() as int;
                    let ghost reversed = tail@;
                    while tail.len() > 0
                        invariant
                            tail@.len() <= total,
                            total == keys@.len(),
                            reversed.len() == total,
                            tail@ == reversed.take(tail@.len() as int),
                            list@.len() == before.len() + (total - tail@.len()),
                            list@.take(before.len() as int) == before,
                            forall|q: int|
                                0 <= q < reversed.len() ==> (#[trigger] reversed[q]).key == keys@[total - 1 - q] && reversed[q].sources@ == all[total - 1 - q]@,
                            forall|q: int|
                                0 <= q < total - tail@.len() ==> (#[trigger] list@[before.len() + q]).key == keys@[q] && list@[before.len() + q].sources@ == all[q]@,
                        decreases tail@.len(),
                    {
                        let ghost count = tail@.len() as int;
                        let ghost known = list@;
                        let next = tail.pop().unwrap();
                        proof {
                            assert(tail@ =~= reversed.take(count - 1));
                            assert(next == reversed[count - 1]);
                        }
                        list.push(next);
                        proof {
                            assert(list@.take(before.len() as int) =~= before);
                            assert forall|q: int| 0 <= q < total - tail@.len() implies (#[trigger] list@[before.len() + q]).key == keys@[q] && list@[before.len()
                                + q].sources@ == all[q]@ by {
                                if q < total - count {
                                    assert(list@[before.len() + q] == known[before.len() + q]);
                                }
                            }
                        }
                    }
                    proof {
                        lemma_bindings_joined(before, keys@, all, list@, limit as int);
                    }
                }
            },
            None => {
                self.fits = false;
                proof {
                    machine::lemma_goes_on_self(n.store);
                    assert(self.written@.take(n.written@.len() as int) =~= n.written@);
                    machine::lemma_changed(n, *self);
                    machine::lemma_kept_twice(start, n, *self);
                }
            },
        }
    }

    /// The sources of all nodes; nothing where some version does not exist.
    pub(crate) fn realize_all(&self, p: &Program, images: &Vec<Vec<usize>>, list: &Vec<Vec<FlowRef>>, limit: usize) -> (r: Option<Vec<Vec<SourceRef>>>)
        requires
            self.cache is Some,
            assigning::images_below(images@, limit as int),
        ensures
            r is Some <==> forall|i: int| 0 <= i < list@.len() ==> realize::refs_exist((#[trigger] list@[i])@, limit as int),
            r matches Some(sources) ==> sources@.len() == list@.len() && forall|i: int|
                0 <= i < sources@.len() ==> (#[trigger] sources@[i])@ == realize::realized(realize::views(images@), list@[i]@) && ssa::sources_before(
                    sources@[i]@,
                    limit as int,
                ),
    {
        let mut r: Vec<Vec<SourceRef>> = Vec::new();
        if let Some(cache) = &self.cache {
            let realizer = Realizer { partition: p.partition, nodes: p.nodes, cache, branches: &self.choices, base: self.condition };
            let mut i: usize = 0;
            while i < list.len()
                invariant
                    i <= list@.len(),
                    assigning::images_below(images@, limit as int),
                    r@.len() == i,
                    forall|k: int| 0 <= k < i ==> realize::refs_exist((#[trigger] list@[k])@, limit as int),
                    forall|k: int|
                        0 <= k < i ==> (#[trigger] r@[k])@ == realize::realized(realize::views(images@), list@[k]@) && ssa::sources_before(r@[k]@, limit as int),
                decreases list@.len() - i,
            {
                match realizer.realize_refs(images, &list[i], limit) {
                    Some(sources) => {
                        r.push(sources);
                    },
                    None => {
                        assert(!realize::refs_exist(list@[i as int]@, limit as int));
                        return None;
                    },
                }
                i = i + 1;
            }
        }
        Some(r)
    }
}

proof fn lemma_bindings_joined(before: Seq<KeyBinding>, keys: Seq<u64>, sources: Seq<Vec<SourceRef>>, after: Seq<KeyBinding>, limit: int)
    requires
        bindings_wf(before, limit),
        forall|i: int, j: int| 0 <= i < j < keys.len() ==> (#[trigger] keys[i]) != (#[trigger] keys[j]),
        !exists|i: int| 0 <= i < keys.len() && #[trigger] frames::binds(before, keys[i]),
        sources.len() == keys.len(),
        forall|i: int| 0 <= i < sources.len() ==> ssa::sources_before((#[trigger] sources[i])@, limit),
        after.len() == before.len() + keys.len(),
        after.take(before.len() as int) == before,
        forall|i: int| 0 <= i < keys.len() ==> (#[trigger] after[before.len() + i]).key == keys[i] && after[before.len() + i].sources@ == sources[i]@,
    ensures
        bindings_wf(after, limit),
{
    let count = before.len() as int;
    assert forall|i: int| 0 <= i < after.len() implies ssa::sources_before((#[trigger] after[i]).sources@, limit) by {
        if i < count {
            assert(after.take(count)[i] == after[i]);
        } else {
            assert(after[count + (i - count)].sources@ == sources[i - count]@);
        }
    }
    assert forall|i: int, j: int| 0 <= i < j < after.len() implies (#[trigger] after[i]).key != (#[trigger] after[j]).key by {
        if j < count {
            assert(after.take(count)[i] == after[i] && after.take(count)[j] == after[j]);
            assert(before[i].key != before[j].key);
        } else {
            assert(after[count + (j - count)].key == keys[j - count]);
            if i < count {
                assert(after.take(count)[i] == after[i]);
                assert(before[i] == after[i]);
                assert(!frames::binds(before, keys[j - count]));
            } else {
                assert(after[count + (i - count)].key == keys[i - count]);
                assert(keys[i - count] != keys[j - count]);
            }
        }
    }
}


/// The nodes of the variables that each call has of its own.
pub open spec fn own_nodes<'a>(p: Program<'a>, function: Function, list: Seq<NodeKey>) -> bool {
    order::strictly_sorted(list) && forall|key: NodeKey| #[trigger] list.contains(key) <==> p.partition.is_node(key) && function.locals@.contains(key.id)
}

fn find_own_nodes(p: &Program, function: &Function) -> (r: Vec<NodeKey>)
    requires
        p.wf(),
    ensures
        own_nodes(*p, *function, r@),
        forall|key: NodeKey| #[trigger] r@.contains(key) ==> p.nodes@.contains(key),
{
    let mut r: Vec<NodeKey> = Vec::new();
    let mut i: usize = 0;
    while i < p.nodes.len()
        invariant
            i <= p.nodes@.len(),
            p.wf(),
            forall|key: NodeKey| #[trigger] r@.contains(key) <==> p.nodes@.take(i as int).contains(key) && function.locals@.contains(key.id),
        decreases p.nodes@.len() - i,
    {
        let key = p.nodes[i];
        let ghost known = r@;
        let ghost taken = p.nodes@.take(i as int);
        let own = has_local(function, key.id);
        if own {
            r.push(key);
        }
        proof {
            assert(p.nodes@.take(i + 1) =~= taken.push(key));
            assert forall|other: NodeKey| #[trigger] r@.contains(other) <==> p.nodes@.take(i + 1).contains(other) && function.locals@.contains(other.id) by {
                let was = known.contains(other);
                crate::partition::lemma_contains_push(taken, key, other);
                if own {
                    crate::partition::lemma_contains_push(known, key, other);
                }
            }
        }
        i = i + 1;
    }
    assert(p.nodes@.take(i as int) =~= p.nodes@);
    let sorted = sort_dedup(&r);
    proof {
        assert forall|key: NodeKey| #[trigger] sorted@.contains(key) <==> p.partition.is_node(key) && function.locals@.contains(key.id) by {
            assert(sorted@.contains(key) <==> r@.contains(key));
            assert(p.nodes@.contains(key) <==> p.partition.is_node(key));
        }
    }
    sorted
}

fn has_local(function: &Function, id: u64) -> (r: bool)
    ensures
        r == function.locals@.contains(id),
{
    let mut i: usize = 0;
    while i < function.locals.len()
        invariant
            i <= function.locals@.len(),
            forall|k: int| 0 <= k < i ==> function.locals@[k] != id,
        decreases function.locals@.len() - i,
    {
        if function.locals[i] == id {
            return true;
        }
        i = i + 1;
    }
    false
}

/// Marks the nodes of a call.
pub open spec fn way_own(nodes: Seq<NodeKey>, keys: Seq<u64>) -> bool {
    true
}

/// The function is entered: what the call has of its own is cleared, and the arguments are bound.
pub open spec fn function_entered<'a>(p: Program<'a>, function: Function, inputs: Seq<KeyBinding>, a: Machine, b: Machine) -> bool {
    exists|nodes: Seq<NodeKey>, keys: Seq<u64>| #[trigger]
        way_own(nodes, keys) && own_nodes(p, function, nodes) && values::numbered(p.nodes@, nodes, keys) && machine::store_only(a, b) && writes::continues(
            a.store,
            b.store,
        ) && frames::entered(a.store, b.store, keys, inputs)
}

/// The body of a function is entered: its changes can be taken back, and its exits are recorded.
pub open spec fn body_opened(a: Machine, b: Machine, callee: u64, result: Option<u64>, revision: StateRevision) -> bool {
    &&& b == (Machine { store: b.store, functions: b.functions, cache: None, effects_only: false, ..a })
    &&& b.functions@ == a.functions@.push(OpenFunction { callee: Some(callee), result, revision })
    &&& revision.id == a.store.next_revision_id
    &&& b.store.recorded(revision).len() == 0
    &&& b.store.active_revisions@ == a.store.active_revisions@.push(revision.id)
    &&& ssa::scope_opened(a.store, b.store)
    &&& b.store.open_revision(revision)
    &&& b.store.next_revision_id == a.store.next_revision_id + 1
    &&& a.store.active_revisions@.len() > 0 ==> b.store.revision_events@ == a.store.revision_events@
}

/// The end of the statements may be reached.
pub open spec fn reaches_end(n: Machine, e: Evaluated) -> bool {
    flow::aggregated(n.flows.plan(e.tree)) != ProcedureFlow::Return
}

/// The body of a function is left: `n` is the state behind its statements, and what was changed at its
/// exits comes together.
pub open spec fn body_closed(a: Machine, n: Machine, b: Machine, revision: StateRevision, e: Evaluated) -> bool {
    &&& b == (Machine { store: b.store, functions: b.functions, cache: a.cache, effects_only: a.effects_only, condition: a.condition, ..n })
    &&& b.functions@ == a.functions@
    &&& exists|marked: SsaStore, closed: SsaStore, rolled: SsaStore, exits: BranchState| #[trigger]
        sequence::body_left(
            n.store,
            marked,
            closed,
            rolled,
            b.store,
            revision,
            a.store.checkpoints@.len() as int,
            reaches_end(n, e),
            exits,
        )
}

impl Machine {
    /// Enters a function whose arguments were found.
    pub fn enter_function(&mut self, p: &Program, function: &Function, inputs: &Vec<KeyBinding>)
        requires
            old(self).ready(*p),
            bindings_wf(inputs@, old(self).store.versions@.len() as int),
        ensures
            final(self).wf(),
            old(self).kept(*final(self)),
            final(self).condition == old(self).condition,
            function_entered(*p, *function, inputs@, *old(self), *final(self)),
    {
        let ghost before = *self;
        let nodes = find_own_nodes(p, function);
        let keys = number_nodes(p.nodes, &nodes);
        proof {
            values::lemma_numbers_differ(p.nodes@, nodes@, keys@);
        }
        enter_call(&mut self.store, &keys, inputs);
        proof {
            assert(self.store.guards_in(self.arena@));
            machine::lemma_stored(before, *self);
            assert(way_own(nodes@, keys@));
        }
    }

    /// Enters the body of a function.
    pub(crate) fn open_body(&mut self, callee: u64, result: Option<u64>) -> (r: (Option<EvaluationCache>, Checkpoint, StateRevision))
        requires
            old(self).wf(),
            old(self).store.next_revision_id < usize::MAX,
        ensures
            final(self).wf(),
            body_opened(*old(self), *final(self), callee, result, r.2),
            r.0 == old(self).cache,
            r.1.depth == old(self).store.checkpoints@.len(),
            final(self).store.open_checkpoint(r.1),
            final(self).store.checkpoints@ == old(self).store.checkpoints@.push(r.1.undo_start),
            final(self).store.open_revision(r.2),
            forall|d: int| 0 <= d < old(self).store.checkpoints@.len() ==> #[trigger] final(self).store.saved(d) == old(self).store.saved(d),
            old(self).store.active_revisions@.len() > 0 ==> final(self).store.revision_events@ == old(self).store.revision_events@,
            final(self).store.next_revision_id == old(self).store.next_revision_id + 1,
    {
        let ghost before = *self;
        let mut cache: Option<EvaluationCache> = None;
        std::mem::swap(&mut cache, &mut self.cache);
        self.effects_only = false;
        let checkpoint = self.store.checkpoint();
        let ghost saved = self.store;
        let revision = self.store.begin_state_revision(checkpoint);
        self.functions.push(OpenFunction { callee: Some(callee), result, revision });
        proof {
            let a = before;
            let b = *self;
            assert(b.store.guards_in(b.arena@));
            assert forall|l: int| 0 <= l < b.loops@.len() implies (#[trigger] b.loops@[l]).wf(b.store, b.arena@) by {
                assert(a.loops@[l].wf(a.store, a.arena@));
                machine::lemma_loop_wf(a.loops@[l], a.store, b.store, a.arena@, b.arena@);
            }
            assert(forall|id: usize| a.store.active_revisions@.contains(id) ==> b.store.active_revisions@.contains(id)) by {
                assert forall|id: usize| a.store.active_revisions@.contains(id) implies b.store.active_revisions@.contains(id) by {
                    let q = choose|q: int| 0 <= q < a.store.active_revisions@.len() && a.store.active_revisions@[q] == id;
                    assert(b.store.active_revisions@[q] == id);
                }
            }
            assert forall|l: int| 0 <= l < b.captures@.len() implies machine::capture_wf(#[trigger] b.captures@[l], b.store, b.arena@) by {
                assert(machine::capture_wf(a.captures@[l], a.store, a.arena@));
            }
            assert(b.store.active_revisions@[a.store.active_revisions@.len() as int] == revision.id);
            assert forall|f: int| 0 <= f < b.functions@.len() implies machine::function_wf(#[trigger] b.functions@[f], b.store) by {
                if f < a.functions@.len() {
                    assert(b.functions@[f] == a.functions@[f]);
                    assert(machine::function_wf(a.functions@[f], a.store));
                }
            }
            assert forall|d: int| 0 <= d < a.store.checkpoints@.len() implies #[trigger] b.store.saved(d) == a.store.saved(d) by {
                assert(saved.saved(d) == a.store.saved(d));
            }
            let depth = a.store.checkpoints@.len() as int;
            assert(b.store.saved(depth) == saved.saved(depth));
        }
        (cache, checkpoint, revision)
    }

    /// Leaves the body of a function.
    pub(crate) fn close_body(
        &mut self,
        cache: Option<EvaluationCache>,
        effects: bool,
        checkpoint: Checkpoint,
        revision: StateRevision,
        condition: PathCondition,
        e: &Evaluated,
        Ghost(a): Ghost<Machine>,
        Ghost(opened): Ghost<Machine>,
        Ghost(callee): Ghost<u64>,
        Ghost(result): Ghost<Option<u64>>,
    )
        requires
            a.wf(),
            old(self).wf(),
            opened.kept(*old(self)),
            body_opened(a, opened, callee, result, revision),
            cache == a.cache,
            effects == a.effects_only,
            condition == a.condition,
            checkpoint.depth == a.store.checkpoints@.len(),
            opened.store.open_checkpoint(checkpoint),
            opened.store.checkpoints@ == a.store.checkpoints@.push(checkpoint.undo_start),
            opened.store.open_revision(revision),
            forall|d: int| 0 <= d < a.store.checkpoints@.len() ==> #[trigger] opened.store.saved(d) == a.store.saved(d),
            a.store.active_revisions@.len() > 0 ==> opened.store.revision_events@ == a.store.revision_events@,
            opened.store.next_revision_id == a.store.next_revision_id + 1,
            machine::evaluated_wf(*old(self), *e),
        ensures
            final(self).wf(),
            a.kept(*final(self)),
            body_closed(a, *old(self), *final(self), revision, *e),
    {
        let ghost n = *self;
        let falls = !matches!(self.flows.aggregate(e.tree), ProcedureFlow::Return);
        proof {
            assert(n.store.checkpoints@ == opened.store.checkpoints@);
            assert(n.store.open_checkpoint(checkpoint));
            assert(n.store.open_revision(revision)) by {
                assert(opened.functions@.last().revision == revision);
                assert(machine::function_wf(n.functions@[n.functions@.len() - 1], n.store));
            }
        }
        assert(falls == reaches_end(n, *e));
        leave_function_body(&mut self.store, revision, checkpoint, falls);
        let _ = self.functions.pop();
        self.cache = cache;
        self.effects_only = effects;
        self.condition = condition;
        proof {
            let b = *self;
            assert(b.functions@ =~= a.functions@);
            assert(b.store.guards_in(b.arena@));
            assert(b.store.checkpoints@ =~= a.store.checkpoints@);
            assert(b.store.active_revisions@ =~= a.store.active_revisions@);
            assert forall|d: int| 0 <= d < a.store.checkpoints@.len() implies #[trigger] b.store.saved(d) == a.store.saved(d) by {
                assert(n.store.saved(d) == opened.store.saved(d));
            }
            assert forall|i: int| 0 <= i < a.store.versions@.len() implies #[trigger] a.store.versions@[i] == b.store.versions@[i] by {
                assert(opened.store.versions@[i] == n.store.versions@[i]);
            }
            assert(machine::goes_on(a.store, b.store));
            assert forall|l: int| 0 <= l < b.loops@.len() implies (#[trigger] b.loops@[l]).wf(b.store, b.arena@) by {
                assert(a.loops@[l].wf(a.store, a.arena@));
                assert(machine::loop_kept(opened.loops@[l], n.loops@[l]));
                assert(n.loops@[l].wf(n.store, n.arena@));
                machine::lemma_loop_wf(n.loops@[l], n.store, b.store, n.arena@, b.arena@);
            }
            assert forall|l: int| 0 <= l < a.loops@.len() implies machine::loop_kept(#[trigger] a.loops@[l], b.loops@[l]) by {
                assert(machine::loop_kept(opened.loops@[l], n.loops@[l]));
            }
            assert forall|l: int| 0 <= l < a.captures@.len() implies machine::capture_kept(#[trigger] a.captures@[l], b.captures@[l]) by {
                assert(machine::capture_kept(opened.captures@[l], n.captures@[l]));
            }
            assert forall|l: int| 0 <= l < b.captures@.len() implies machine::capture_wf(#[trigger] b.captures@[l], b.store, b.arena@) by {
                assert(machine::capture_wf(n.captures@[l], n.store, n.arena@));
                assert(machine::capture_wf(a.captures@[l], a.store, a.arena@));
                assert(machine::capture_kept(a.captures@[l], b.captures@[l]));
            }
            assert forall|f: int| 0 <= f < b.functions@.len() implies machine::function_wf(#[trigger] b.functions@[f], b.store) by {
                assert(machine::function_wf(a.functions@[f], a.store));
            }
            if let Some(cache) = a.cache {
                machine::lemma_cache_grows(cache, a.store.versions@.len() as int, b.store.versions@.len() as int);
            }
            assert forall|i: int| 0 <= i < b.known implies ((#[trigger] b.store.versions@[i]) matches Version::Entry(key) ==> key < b.keys) by {
                assert(n.store.versions@[i] == b.store.versions@[i]);
            }
            let (marked, closed, rolled, exits) = choose|marked: SsaStore, closed: SsaStore, rolled: SsaStore, exits: BranchState| #[trigger]
                sequence::body_left(n.store, marked, closed, rolled, b.store, revision, checkpoint.depth as int, falls, exits);
            assert(sequence::body_left(
                n.store,
                marked,
                closed,
                rolled,
                b.store,
                revision,
                a.store.checkpoints@.len() as int,
                reaches_end(n, *e),
                exits,
            ));
        }
    }
}


/// Marks what an output was prepared by.
pub open spec fn way_output(w: WriteKeys, selection: projection::DestinationArraySelection, list: Seq<Target>) -> bool {
    true
}

/// A destination of an output whose selectors were evaluated: they, and what decides on the call,
/// control each of its nodes.
pub open spec fn output_prepared<'a>(p: Program<'a>, access: Access, controls: Seq<usize>, a: Machine, b: Machine, r: OutputDestination) -> bool {
    exists|w: WriteKeys, selection: projection::DestinationArraySelection, list: Seq<Target>| #[trigger]
        way_output(w, selection, list) && targets::are_written(*p.partition, access, p.owned_of(access.id), w) && projection::is_selection(
            access.shape,
            access.coordinates@,
            selection,
        ) && targets::lists_targets(*p.partition, w.keys@, targets::first_elements(access), selection, w.keys@.len() as int, list) && values::numbered(
            p.nodes@,
            w.keys@,
            r.keys@,
        ) && r.targets@.len() == list.len() && (forall|i: int|
            0 <= i < list.len() ==> (#[trigger] r.targets@[i]).target == list[i] && r.targets@[i].key < p.nodes@.len() && p.nodes@[r.targets@[i].key as int]
                == list[i].node) && r.width == assigning::width_of(access) && r.selected == access.selected && r.dynamic == steps::is_dynamic(access) && r.resolved
            == w.resolved && r.dependencies@ == controls && assigning::control_aggregated(a.store, b.store, controls, r.control) && machine::store_only(
            Machine { complete: a.complete && w.resolved, ..a },
            b,
        )
}

/// The widths of the destinations from `i` on, together.
pub open spec fn widths_from(destinations: Seq<Access>, i: int) -> int
    decreases destinations.len() - i,
{
    if i < 0 || i >= destinations.len() {
        0
    } else {
        widths_from(destinations, i + 1) + match assigning::width_of(destinations[i]) {
            Some(width) => width as int,
            None => 0,
        }
    }
}

/// The positions of all bits of an output argument are known.
pub open spec fn copied_by_position(shape: Option<FormalShape>, destinations: Seq<Access>) -> bool {
    shape is Some && forall|i: int| 0 <= i < destinations.len() ==> assigning::width_of(#[trigger] destinations[i]) is Some
}

/// Where a destination lies in an output argument: the last one takes the lowest bits.
pub open spec fn place_of(shape: Option<FormalShape>, destinations: Seq<Access>, i: int) -> Option<CopyPlace> {
    if copied_by_position(shape, destinations) {
        Some(
            CopyPlace {
                offset: widths_from(destinations, i + 1) as usize,
                coercion: FormalOutputCoercion {
                    actual_width: widths_from(destinations, 0) as usize,
                    formal_width: shape->0.width,
                    formal_signed: shape->0.signed,
                },
            },
        )
    } else {
        None
    }
}

pub(crate) proof fn lemma_widths(destinations: Seq<Access>, i: int, j: int)
    requires
        0 <= i <= j <= destinations.len(),
    ensures
        widths_from(destinations, i) >= widths_from(destinations, j) >= 0,
    decreases destinations.len() - i,
{
    if i < j {
        lemma_widths(destinations, i + 1, j);
    } else if i < destinations.len() {
        lemma_widths(destinations, i + 1, j + 1);
    }
}

/// Whether all widths are known.
pub fn widths_are_known(destinations: &Vec<Access>) -> (r: bool)
    ensures
        r == forall|i: int| 0 <= i < destinations@.len() ==> assigning::width_of(#[trigger] destinations@[i]) is Some,
{
    let mut i: usize = 0;
    while i < destinations.len()
        invariant
            i <= destinations@.len(),
            forall|k: int| 0 <= k < i ==> assigning::width_of(#[trigger] destinations@[k]) is Some,
        decreases destinations@.len() - i,
    {
        if destination_width(&destinations[i]).is_none() {
            assert(assigning::width_of(destinations@[i as int]) is None);
            return false;
        }
        i = i + 1;
    }
    true
}

/// The widths of all destinations together; there is no answer where they do not fit.
pub fn total_width(destinations: &Vec<Access>) -> (r: Option<usize>)
    ensures
        match r {
            Some(total) => total == widths_from(destinations@, 0),
            None => widths_from(destinations@, 0) > usize::MAX,
        },
{
    let mut total: usize = 0;
    let mut i: usize = destinations.len();
    while i > 0
        invariant
            i <= destinations@.len(),
            total == widths_from(destinations@, i as int),
        decreases i,
    {
        i = i - 1;
        if let Some(width) = destination_width(&destinations[i]) {
            total = match total.checked_add(width) {
                Some(total) => total,
                None => {
                    proof {
                        lemma_widths(destinations@, 0, i as int);
                    }
                    return None;
                },
            };
        }
    }
    Some(total)
}

/// Marks the versions of an argument.
pub open spec fn way_formal(nodes: Seq<NodeKey>, keys: Seq<u64>, list: Seq<KeyVersion>) -> bool {
    true
}

/// The value of an argument is read.
pub open spec fn formal_read<'a>(p: Program<'a>, id: u64, a: Machine, b: Machine, value: FormalValue) -> bool {
    if !results::keys_known(a.store, p.nodes@) {
        steps::same(Machine { fits: false, ..a }, b) && value.versions@.len() == 0 && value.layout.groups@.len() == 0
    } else {
        exists|nodes: Seq<NodeKey>, keys: Seq<u64>, list: Seq<KeyVersion>| #[trigger]
            way_formal(nodes, keys, list) && order::strictly_sorted(nodes) && (forall|key: NodeKey| #[trigger]
                nodes.contains(key) <==> targets::node_of(*p.partition, id, key)) && values::numbered(p.nodes@, nodes, keys) && machine::store_only(a, b)
                && writes::continues(a.store, b.store) && b.store.current@ == a.store.current@ && calls::are_current(b.store, p.nodes@, keys, list)
                && value.versions@ == list.map_values(|v: KeyVersion| v.version) && calls::lists_versions(*p.partition, list, value.layout.groups@)
    }
}

/// The value of an argument is copied to a destination.
pub open spec fn destination_copied<'a>(p: Program<'a>, value: &FormalValue, place: Option<CopyPlace>, destination: OutputDestination, a: Machine, b: Machine) -> bool {
    let copy = FormalCopy { partition: p.partition, nodes: p.nodes, value, place };
    if !results::keys_known(a.store, p.nodes@) {
        steps::same(Machine { fits: false, ..a }, b)
    } else {
        &&& machine::store_only(Machine { arena: b.arena, fits: b.fits, written: b.written, ..a }, b)
        &&& b.written@ == a.written@ + destination.keys@
        &&& b.fits ==> a.fits && copy.written(destination, a.store, b.store, a.arena@, b.arena@, a.condition)
        &&& a.fits && !b.fits ==> copy.stops(destination, a.store, b.store, a.arena@, b.arena@, a.condition)
    }
}

/// The result of a function is read.
pub open spec fn result_read<'a>(p: Program<'a>, result: Option<u64>, a: Machine, b: Machine, groups: Seq<RegionGroup>) -> bool {
    match result {
        None => steps::same(a, b) && groups.len() == 0,
        Some(id) => if !results::keys_known(a.store, p.nodes@) {
            steps::same(Machine { fits: false, ..a }, b) && groups.len() == 0
        } else {
            exists|nodes: Seq<NodeKey>, keys: Seq<u64>| #[trigger]
                way_own(nodes, keys) && order::strictly_sorted(nodes) && (forall|key: NodeKey| #[trigger]
                    nodes.contains(key) <==> targets::node_of(*p.partition, id, key)) && values::numbered(p.nodes@, nodes, keys) && machine::store_only(a, b)
                    && writes::continues(a.store, b.store) && b.store.current@ == a.store.current@ && calls::lists_current(
                    b.store,
                    *p.partition,
                    p.nodes@,
                    keys,
                    groups,
                )
        },
    }
}

/// The keys of a variable.
fn keys_of_variable(p: &Program, id: u64) -> (r: (Vec<NodeKey>, Vec<u64>))
    requires
        p.wf(),
    ensures
        order::strictly_sorted(r.0@),
        forall|key: NodeKey| #[trigger] r.0@.contains(key) <==> targets::node_of(*p.partition, id, key),
        values::numbered(p.nodes@, r.0@, r.1@),
        calls::names_variable(p.nodes@, r.1@),
{
    let nodes = keys_for_id(p.partition, id);
    proof {
        assert forall|key: NodeKey| #[trigger] nodes@.contains(key) implies p.nodes@.contains(key) by {
            assert(targets::node_of(*p.partition, id, key));
            assert(p.partition.is_node(key));
        }
    }
    let keys = number_nodes(p.nodes, &nodes);
    proof {
        assert forall|i: int, j: int| 0 <= i < j < keys@.len() implies p.nodes@[(#[trigger] keys@[i]) as int].lt(p.nodes@[(#[trigger] keys@[j]) as int]) by {
            assert(nodes@[i].lt(nodes@[j]));
        }
        assert forall|i: int, j: int| 0 <= i < keys@.len() && 0 <= j < keys@.len() implies p.nodes@[(#[trigger] keys@[i]) as int].id == p.nodes@[(
        #[trigger] keys@[j]) as int].id by {
            assert(nodes@.contains(nodes@[i]) && nodes@.contains(nodes@[j]));
            assert(targets::node_of(*p.partition, id, nodes@[i]) && targets::node_of(*p.partition, id, nodes@[j]));
        }
    }
    (nodes, keys)
}

impl Machine {
    /// Prepares a destination of an output whose selectors were evaluated.
    pub fn prepare_output(&mut self, p: &Program, access: &Access, controls: Vec<usize>) -> (r: OutputDestination)
        requires
            old(self).ready(*p),
            sequence::all_below(controls@, old(self).store.versions@.len() as int),
        ensures
            final(self).wf(),
            old(self).kept(*final(self)),
            final(self).condition == old(self).condition,
            output_prepared(*p, *access, controls@, *old(self), *final(self), r),
            r.wf(p.nodes@, final(self).store.versions@.len() as int),
    {
        let ghost before = *self;
        let w = p.written_by(access);
        let shape = match &access.shape {
            Some(shape) => Some(shape),
            None => None,
        };
        let selection = destination_array_selection(shape, &access.coordinates);
        let list = destination_targets(p.partition, access, &w.keys, &selection);
        proof {
            assert(projection::shape_of(shape) == access.shape);
            values::lemma_written_nodes(*p, *access, w);
            assigning::lemma_targets_sorted(*p.partition, w.keys@, targets::first_elements(*access), selection, w.keys@.len() as int, list@);
        }
        let keys = number_nodes(p.nodes, &w.keys);
        let mut keyed: Vec<KeyedTarget> = Vec::new();
        let mut i: usize = 0;
        while i < list.len()
            invariant
                i <= list@.len(),
                w.keys@.take(w.keys@.len() as int) == w.keys@,
                forall|k: int| 0 <= k < list@.len() ==> w.keys@.take(w.keys@.len() as int).contains((#[trigger] list@[k]).node),
                forall|key: NodeKey| #[trigger] w.keys@.contains(key) ==> p.nodes@.contains(key),
                keyed@.len() == i,
                forall|k: int|
                    0 <= k < i ==> (#[trigger] keyed@[k]).target == list@[k] && keyed@[k].key < p.nodes@.len() && p.nodes@[keyed@[k].key as int] == list@[k].node,
            decreases list@.len() - i,
        {
            assert(w.keys@.contains(list@[i as int].node));
            let target = list[i];
            let key: u64 = values::number_of(p.nodes, target.node);
            keyed.push(KeyedTarget { target, key });
            i = i + 1;
        }
        let control = aggregate_destination_controls(&mut self.store, &controls);
        if !w.resolved {
            self.complete = false;
        }
        let r = OutputDestination {
            width: destination_width(access),
            targets: keyed,
            control,
            selected: access.selected,
            dynamic: steps::destination_is_dynamic(access),
            keys,
            resolved: w.resolved,
            dependencies: controls,
        };
        proof {
            values::lemma_numbers_differ(p.nodes@, w.keys@, keys@);
            assert(self.store.guards_in(self.arena@));
            steps::lemma_wrote(before, *self, Seq::empty());
            assert(assigning::control_aggregated(before.store, self.store, controls@, control));
            assert(way_output(w, selection, list@));
        }
        r
    }

    /// Reads the value of an argument.
    pub fn read_formal(&mut self, p: &Program, id: u64) -> (r: FormalValue)
        requires
            old(self).ready(*p),
        ensures
            final(self).wf(),
            old(self).kept(*final(self)),
            final(self).condition == old(self).condition,
            formal_read(*p, id, *old(self), *final(self), r),
            r.below(final(self).store.versions@.len() as int),
    {
        let ghost start = *self;
        let known = self.keys_are_known();
        let ghost before = *self;
        if !known {
            self.fits = false;
            proof {
                machine::lemma_goes_on_self(before.store);
                assert(self.written@.take(before.written@.len() as int) =~= before.written@);
                machine::lemma_changed(before, *self);
                machine::lemma_kept_twice(start, before, *self);
            }
            return FormalValue { versions: Vec::new(), layout: FormalVersionLayout { groups: Vec::new() } };
        }
        let (nodes, keys) = keys_of_variable(p, id);
        assert(results::keys_known(self.store, p.nodes@));
        let list = calls::current_key_versions(&mut self.store, p.nodes, &keys);
        proof {
            calls::lemma_one_variable(self.store, p.nodes@, keys@, list@);
        }
        let layout = FormalVersionLayout::new(&list, p.partition);
        let mut versions: Vec<usize> = Vec::new();
        let mut i: usize = 0;
        while i < list.len()
            invariant
                i <= list@.len(),
                versions@.len() == i,
                forall|k: int| 0 <= k < i ==> (#[trigger] versions@[k]) == list@[k].version,
            decreases list@.len() - i,
        {
            versions.push(list[i].version);
            i = i + 1;
        }
        proof {
            assert(versions@ =~= list@.map_values(|v: KeyVersion| v.version));
            assert(calls::lists_versions(*p.partition, list@, layout.groups@));
            calls::lemma_groups_below(*p.partition, list@, layout.groups@, self.store.versions@.len() as int);
            assert(self.store.guards_in(self.arena@));
            machine::lemma_stored(before, *self);
            machine::lemma_kept_twice(start, before, *self);
            assert(way_formal(nodes@, keys@, list@));
        }
        FormalValue { versions, layout }
    }

    /// Copies the value of an argument to a destination.
    pub fn copy_destination(&mut self, p: &Program, value: &FormalValue, place: Option<CopyPlace>, destination: OutputDestination)
        requires
            old(self).ready(*p),
            value.below(old(self).store.versions@.len() as int),
            destination.wf(p.nodes@, old(self).store.versions@.len() as int),
        ensures
            final(self).wf(),
            old(self).kept(*final(self)),
            final(self).condition == old(self).condition,
            destination_copied(*p, value, place, destination, *old(self), *final(self)),
    {
        let ghost start = *self;
        let known = self.keys_are_known();
        let ghost before = *self;
        if !known {
            self.fits = false;
            proof {
                machine::lemma_goes_on_self(before.store);
                assert(self.written@.take(before.written@.len() as int) =~= before.written@);
                machine::lemma_changed(before, *self);
                machine::lemma_kept_twice(start, before, *self);
            }
            return;
        }
        assert(results::keys_known(self.store, p.nodes@));
        let condition = self.condition;
        let copy = FormalCopy { partition: p.partition, nodes: p.nodes, value, place };
        let fits = copy.copy(&mut self.store, &mut self.arena, &destination, condition);
        if !fits {
            self.fits = false;
        }
        steps::extend_keys(&mut self.written, &destination.keys);
        proof {
            machine::lemma_continues_goes_on(before.store, self.store);
            crate::branches::lemma_held_grows(before.flows, before.arena, self.arena);
            steps::lemma_prefix(before.written@, self.written@, destination.keys@);
            machine::lemma_changed(before, *self);
            machine::lemma_kept_twice(start, before, *self);
        }
    }

    /// Reads the result of a function.
    pub fn read_result(&mut self, p: &Program, result: Option<u64>) -> (r: Vec<RegionGroup>)
        requires
            old(self).ready(*p),
        ensures
            final(self).wf(),
            old(self).kept(*final(self)),
            final(self).condition == old(self).condition,
            result_read(*p, result, *old(self), *final(self), r@),
            layout::groups_wf(r@),
            results::result_below(r@, final(self).store.versions@.len() as int),
    {
        let ghost start = *self;
        proof {
            machine::lemma_kept_self(start);
        }
        let id: u64 = match result {
            Some(id) => id,
            None => {
                return Vec::new();
            },
        };
        let known = self.keys_are_known();
        let ghost before = *self;
        if !known {
            self.fits = false;
            proof {
                machine::lemma_goes_on_self(before.store);
                assert(self.written@.take(before.written@.len() as int) =~= before.written@);
                machine::lemma_changed(before, *self);
                machine::lemma_kept_twice(start, before, *self);
            }
            return Vec::new();
        }
        let (nodes, keys) = keys_of_variable(p, id);
        assert(results::keys_known(self.store, p.nodes@));
        let groups = current_region_groups(&mut self.store, p.partition, p.nodes, &keys);
        proof {
            assert(self.store.guards_in(self.arena@));
            machine::lemma_stored(before, *self);
            machine::lemma_kept_twice(start, before, *self);
            assert(way_own(nodes@, keys@));
        }
        groups
    }
}

} // verus!
