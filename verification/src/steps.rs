//! The single steps of an evaluation: branches of expressions, destinations, and what is not known.
use vstd::prelude::*;
use crate::arena;
use crate::arena::PathCondition;
use crate::branches;
use crate::ir::Access;
use crate::machine;
use crate::machine::Machine;
use crate::order;
use crate::partition::NodeKey;
use crate::path;
use crate::path::BranchId;
use crate::projection;
use crate::realize;
use crate::sequence;
use crate::ssa;
use crate::ssa::{BranchState, Checkpoint, SsaStore};
use crate::state;
use crate::targets;
use crate::targets::{write_keys, WriteKeys};
use crate::values;
use crate::values::{number_nodes, Program};
use crate::writes;
use crate::writes::{bind_destination, write_destination};

verus! {

/// Nothing changed.
pub open spec fn same(a: Machine, b: Machine) -> bool {
    machine::store_only(a, b) && b.store == a.store
}

/// The branch of a conditional part of an expression: that which it had, or one of two arms with the
/// next number.
pub open spec fn choice_numbered(a: Machine, b: Machine, occurrence: usize, branch: BranchId) -> bool {
    if a.cache is Some && a.choices@.contains_key(occurrence) {
        same(a, b) && branch == a.choices@[occurrence]
    } else {
        let taken = machine::taken_number(a);
        &&& branch == (BranchId { namespace: path::BranchNamespace::Procedure(a.namespace), local: a.next_branch, arms: 2 })
        &&& machine::store_only(taken, Machine { choices: taken.choices, ..b })
        &&& b.store == a.store
        &&& b.choices@ == if a.cache is Some {
            a.choices@.insert(occurrence, branch)
        } else {
            a.choices@
        }
    }
}

/// An arm of an expression is left: its value, where it has one, is a version under its condition; its
/// changes are taken back and kept aside.
pub open spec fn arm_left(a: Machine, n: Machine, defined: SsaStore, b: Machine, reads: Option<Seq<usize>>, state: BranchState, versions: Seq<usize>) -> bool {
    &&& machine::others_same(n, b)
    &&& b.arena == n.arena
    &&& b.condition == n.condition
    &&& b.next_branch == n.next_branch
    &&& b.flows == n.flows
    &&& b.loops == n.loops
    &&& match reads {
        Some(reads) => ssa::same_state(n.store, defined) && versions == seq![n.store.versions@.len() as usize] && writes::is_definition(
            defined.versions@,
            n.store.versions@.len() as int,
            writes::whole_sources(reads),
            n.condition,
        ),
        None => defined == n.store && versions.len() == 0,
    }
    &&& ssa::scope_closed(defined, b.store)
    &&& b.store.current@ == a.store.current@
    &&& b.store.checkpoints@ == a.store.checkpoints@
    &&& state::lists_changes(state.bindings@, n.store.current@, a.store.current@)
}

/// The arms of an expression come together.
pub open spec fn arms_joined(a: Machine, b: Machine, states: Seq<BranchState>, parent: PathCondition) -> bool {
    &&& machine::others_same(a, b)
    &&& b.arena == a.arena
    &&& b.condition == parent
    &&& b.next_branch == a.next_branch
    &&& b.flows == a.flows
    &&& b.loops == a.loops
    &&& writes::continues(a.store, b.store)
    &&& branches::merges(a.store, b.store, states)
}

/// A value of which nothing is known.
pub open spec fn value_unknown(a: Machine, b: Machine, version: usize) -> bool {
    &&& machine::store_only(Machine { complete: false, ..a }, b)
    &&& version == a.store.versions@.len()
    &&& ssa::same_state(a.store, b.store)
    &&& writes::is_definition(b.store.versions@, version as int, Seq::empty(), PathCondition { node: 0 })
}

/// What selects a destination, or what is written to it, is not constant.
pub open spec fn is_dynamic(access: Access) -> bool {
    projection::last_dynamic_of(access.coordinates@, access.coordinates@.len() as int) is Some || (access.select@.len() > 0 && access.selected is None)
}

/// Marks the nodes of a destination.
pub open spec fn way_written(w: WriteKeys, keys: Seq<u64>) -> bool {
    true
}

/// One value is written to all nodes of a destination: it comes from the dependencies, or, where the
/// nodes are not known, from nothing known.
pub open spec fn destination_written<'a>(p: Program<'a>, access: Access, dependencies: Seq<usize>, a: Machine, b: Machine) -> bool {
    exists|w: WriteKeys, keys: Seq<u64>| #[trigger]
        way_written(w, keys) && targets::are_written(*p.partition, access, p.owned_of(access.id), w) && values::numbered(p.nodes@, w.keys@, keys)
            && machine::store_only(Machine { complete: a.complete && w.resolved, written: b.written, ..a }, b) && b.written@ == a.written@ + keys
            && value_bound(a.store, b.store, keys, w.resolved, w.resolved && !is_dynamic(access), dependencies, a.condition)
}

/// One value is bound to the keys, for sure or not.
pub open spec fn value_bound(before: SsaStore, after: SsaStore, keys: Seq<u64>, resolved: bool, sure: bool, dependencies: Seq<usize>, condition: PathCondition) -> bool {
    &&& writes::continues(before, after)
    &&& if resolved {
        writes::is_definition(after.versions@, before.versions@.len() as int, writes::whole_sources(dependencies), condition)
    } else {
        writes::is_definition(after.versions@, before.versions@.len() as int, Seq::empty(), PathCondition { node: 0 })
    }
    &&& forall|i: int| 0 <= i < keys.len() ==> writes::is_bound(before, after, #[trigger] keys[i], before.versions@.len() as usize, !sure)
    &&& forall|key: u64| !keys.contains(key) ==> #[trigger] ssa::binding_of(after.current@, key) == ssa::binding_of(before.current@, key)
}

/// Each key has a value of its own of which nothing is known; it may keep its old one where that is weak.
pub open spec fn keys_forgotten(before: SsaStore, after: SsaStore, keys: Seq<u64>, weak: bool) -> bool {
    &&& writes::continues(before, after)
    &&& forall|i: int| 0 <= i < keys.len() ==> forgotten(before, after, #[trigger] keys[i], weak)
    &&& forall|key: u64| !keys.contains(key) ==> #[trigger] ssa::binding_of(after.current@, key) == ssa::binding_of(before.current@, key)
}

pub open spec fn forgotten(before: SsaStore, after: SsaStore, key: u64, weak: bool) -> bool {
    exists|version: usize|
        before.versions@.len() <= version && #[trigger] writes::is_definition(after.versions@, version as int, Seq::empty(), PathCondition { node: 0 })
            && writes::is_bound(before, after, key, version, weak)
}

/// What may have been written to the nodes is not known.
pub open spec fn nodes_forgotten<'a>(p: Program<'a>, list: Seq<NodeKey>, weak: bool, a: Machine, b: Machine) -> bool {
    exists|keys: Seq<u64>| #[trigger]
        values::numbered(p.nodes@, list, keys) && machine::store_only(Machine { complete: false, written: b.written, ..a }, b) && b.written@ == a.written@ + keys
            && keys_forgotten(a.store, b.store, keys, weak)
}

/// Adds keys to a list.
pub fn extend_keys(list: &mut Vec<u64>, more: &Vec<u64>)
    ensures
        final(list)@ == old(list)@ + more@,
{
    let ghost before = list@;
    let mut i: usize = 0;
    while i < more.len()
        invariant
            i <= more@.len(),
            list@ == before + more@.take(i as int),
        decreases more@.len() - i,
    {
        list.push(more[i]);
        assert(before + more@.take(i + 1) =~= (before + more@.take(i as int)).push(more@[i as int]));
        i = i + 1;
    }
    assert(more@.take(i as int) =~= more@);
}

pub proof fn lemma_prefix(a: Seq<u64>, b: Seq<u64>, more: Seq<u64>)
    requires
        b == a + more,
    ensures
        a.len() <= b.len(),
        b.take(a.len() as int) == a,
{
    assert(b.take(a.len() as int) =~= a);
}

/// A step that continues the store, adds written keys, and may leave the analysis incomplete.
pub proof fn lemma_wrote(a: Machine, b: Machine, more: Seq<u64>)
    requires
        a.wf(),
        machine::store_only(Machine { complete: b.complete, written: b.written, ..a }, b),
        b.known == a.known,
        b.complete ==> a.complete,
        b.written@ == a.written@ + more,
        b.store.wf(),
        b.store.guards_in(b.arena@),
        writes::continues(a.store, b.store),
    ensures
        b.wf(),
        a.kept(b),
{
    machine::lemma_continues_goes_on(a.store, b.store);
    lemma_prefix(a.written@, b.written@, more);
    machine::lemma_changed(a, b);
}

impl Machine {
    /// The branch of a conditional part of an expression.
    pub fn expression_branch_id(&mut self, occurrence: usize) -> (r: BranchId)
        requires
            old(self).wf(),
        ensures
            final(self).wf(),
            old(self).kept(*final(self)),
            choice_numbered(*old(self), *final(self), occurrence, r),
            r.arms == 2,
    {
        broadcast use vstd::std_specs::hash::group_hash_axioms;

        let ghost before = *self;
        proof {
            machine::lemma_kept_self(before);
        }
        let kept = self.cache.is_some();
        if kept {
            if let Some(branch) = self.choices.get(&occurrence) {
                return *branch;
            }
        }
        let number: usize = self.take_number();
        let ghost taken = *self;
        let branch = BranchId::new(self.namespace, number, 2);
        if kept {
            self.choices.insert(occurrence, branch);
        }
        proof {
            machine::lemma_goes_on_self(taken.store);
            assert(self.written@.take(taken.written@.len() as int) =~= taken.written@);
            machine::lemma_changed(taken, *self);
            machine::lemma_kept_twice(before, taken, *self);
            assert(Machine { choices: taken.choices, ..*self } == taken);
        }
        branch
    }

    /// Enters an arm.
    pub fn open_arm(&mut self, branch: BranchId, arm: usize, parent: PathCondition) -> (r: Checkpoint)
        requires
            old(self).wf(),
            old(self).arena.holds(parent),
            arm < branch.arms,
        ensures
            final(self).wf(),
            machine::opens(*old(self), *final(self), branch, arm, parent),
            final(self).store.open_checkpoint(r),
            r.depth == old(self).store.checkpoints@.len(),
            final(self).store.checkpoints@ == old(self).store.checkpoints@.push(r.undo_start),
            forall|d: int| 0 <= d < old(self).store.checkpoints@.len() ==> #[trigger] final(self).store.saved(d) == old(self).store.saved(d),
            final(self).store.active_revisions@ == old(self).store.active_revisions@,
            final(self).store.revision_events@ == old(self).store.revision_events@,
            final(self).store.next_revision_id == old(self).store.next_revision_id,
            final(self).known == old(self).known,
    {
        let ghost before = *self;
        let chosen = self.arena.with_choice(parent, branch, arm);
        self.condition = chosen;
        let checkpoint = self.store.checkpoint();
        proof {
            ssa::store_survives_growth(before.store, before.arena@, self.arena@);
            assert(self.store.guards_in(self.arena@));
            machine::lemma_opened(before, *self);
        }
        checkpoint
    }

    /// Leaves an arm of an expression; `reads` is what its value comes from, where it has one.
    pub(crate) fn leave_expression_arm(&mut self, checkpoint: Checkpoint, reads: Option<Vec<usize>>, Ghost(m): Ghost<Machine>, Ghost(opened): Ghost<Machine>) -> (r: (
        BranchState,
        Vec<usize>,
    ))
        requires
            old(self).wf(),
            m.wf(),
            opened.kept(*old(self)),
            machine::others_same(m, opened),
            opened.loops == m.loops,
            opened.flows == m.flows,
            opened.next_branch == m.next_branch,
            arena::grows(m.arena@, opened.arena@),
            ssa::same_versions(m.store, opened.store),
            opened.store.open_checkpoint(checkpoint),
            checkpoint.depth == m.store.checkpoints@.len(),
            opened.store.checkpoints@ == m.store.checkpoints@.push(checkpoint.undo_start),
            forall|d: int| 0 <= d < m.store.checkpoints@.len() ==> #[trigger] opened.store.saved(d) == m.store.saved(d),
            opened.store.saved(checkpoint.depth as int) == m.store.current@,
            opened.store.active_revisions@ == m.store.active_revisions@,
            opened.store.revision_events@ == m.store.revision_events@,
            opened.store.next_revision_id == m.store.next_revision_id,
            reads matches Some(reads) ==> sequence::all_below(reads@, old(self).store.versions@.len() as int),
        ensures
            final(self).wf(),
            m.kept(*final(self)),
            arm_left_to(
                m,
                *old(self),
                *final(self),
                seen(reads),
                r.0,
                r.1@,
            ),
            r.0.wf(),
            forall|i: int| 0 <= i < r.0.bindings@.len() ==> (#[trigger] r.0.bindings@[i]).version < final(self).store.versions@.len(),
            sequence::all_below(r.1@, final(self).store.versions@.len() as int),
    {
        let ghost n = *self;
        let ghost given: Option<Seq<usize>> = seen(reads);
        let mut versions: Vec<usize> = Vec::new();
        let condition = self.condition;
        if let Some(reads) = &reads {
            let version: usize = self.store.definition_guarded(reads, condition);
            versions.push(version);
            proof {
                lemma_whole_definition(self.store, version as int, reads@, condition);
            }
        }
        let ghost defined = self.store;
        proof {
            if given is None {
                realize::lemma_continues_itself(n.store);
            } else {
                realize::lemma_same_state(n.store, defined);
                assert(versions@ =~= seq![n.store.versions@.len() as usize]);
            }
            machine::lemma_continues_goes_on(n.store, defined);
            machine::lemma_goes_on_twice(opened.store, n.store, defined);
            assert(defined.checkpoints@ == opened.store.checkpoints@);
        }
        let ghost made = *self;
        proof {
            assert(self.store.guards_in(self.arena@));
            machine::lemma_stored(n, made);
            machine::lemma_kept_twice(opened, n, made);
        }
        let state = self.store.capture_and_rollback(checkpoint);
        proof {
            machine::lemma_records_grow(defined, self.store);
            assert(self.store.checkpoints@ =~= m.store.checkpoints@);
            assert(machine::arm_stores(m.store, opened.store, defined, self.store));
            machine::lemma_arm_kept(m, opened, made, *self);
            assert(defined.current@ == n.store.current@);
            assert(arm_left(m, n, defined, *self, given, state, versions@));
        }
        (state, versions)
    }

    /// Joins the arms of an expression.
    pub fn join_arms(&mut self, states: Vec<BranchState>, parent: PathCondition)
        requires
            old(self).wf(),
            old(self).arena.holds(parent),
            forall|i: int| 0 <= i < states@.len() ==> (#[trigger] states@[i]).wf(),
            forall|i: int, k: int|
                0 <= i < states@.len() && 0 <= k < states@[i].bindings@.len() ==> (#[trigger] states@[i].bindings@[k]).version < old(self).store.versions@.len(),
        ensures
            final(self).wf(),
            old(self).kept(*final(self)),
            arms_joined(*old(self), *final(self), states@, parent),
    {
        let ghost before = *self;
        self.store.merge(&states);
        self.condition = parent;
        proof {
            assert(self.store.guards_in(self.arena@));
            assert(self.written@.take(before.written@.len() as int) =~= before.written@);
            machine::lemma_continues_goes_on(before.store, self.store);
            machine::lemma_changed(before, *self);
        }
    }

    /// A value of which nothing is known.
    pub fn opaque_value(&mut self) -> (r: usize)
        requires
            old(self).wf(),
        ensures
            final(self).wf(),
            old(self).kept(*final(self)),
            value_unknown(*old(self), *final(self), r),
            r < final(self).store.versions@.len(),
    {
        let ghost before = *self;
        self.complete = false;
        let nothing: Vec<usize> = Vec::new();
        let version: usize = self.store.definition(&nothing);
        proof {
            lemma_whole_definition(self.store, version as int, nothing@, PathCondition { node: 0 });
            assert(writes::whole_sources(nothing@) =~= Seq::empty());
            realize::lemma_same_state(before.store, self.store);
            assert(self.store.guards_in(self.arena@));
            lemma_wrote(before, *self, Seq::empty());
        }
        version
    }

    /// Writes one value to all nodes of a destination whose selectors were evaluated.
    pub fn write_whole(&mut self, p: &Program, access: &Access, dependencies: &Vec<usize>)
        requires
            old(self).wf(),
            p.wf(),
            sequence::all_below(dependencies@, old(self).store.versions@.len() as int),
        ensures
            final(self).wf(),
            old(self).kept(*final(self)),
            destination_written(*p, *access, dependencies@, *old(self), *final(self)),
    {
        let ghost before = *self;
        let w = p.written_by(access);
        proof {
            values::lemma_written_nodes(*p, *access, w);
        }
        let keys = number_nodes(p.nodes, &w.keys);
        proof {
            values::lemma_numbers_differ(p.nodes@, w.keys@, keys@);
        }
        let dynamic = destination_is_dynamic(access);
        let condition = self.condition;
        write_destination(&mut self.store, &keys, w.resolved, dynamic, dependencies, condition);
        extend_keys(&mut self.written, &keys);
        if !w.resolved {
            self.complete = false;
        }
        proof {
            assert(self.store.guards_in(self.arena@));
            lemma_wrote(before, *self, keys@);
            assert(way_written(w, keys@));
        }
    }

    /// Forgets what nodes held.
    pub fn opaque_kill_keys(&mut self, p: &Program, list: &Vec<NodeKey>, weak: bool)
        requires
            old(self).wf(),
            p.wf(),
            order::strictly_sorted(list@),
            forall|key: NodeKey| #[trigger] list@.contains(key) ==> p.partition.is_node(key),
        ensures
            final(self).wf(),
            old(self).kept(*final(self)),
            nodes_forgotten(*p, list@, weak, *old(self), *final(self)),
    {
        let ghost before = *self;
        let keys = number_nodes(p.nodes, list);
        proof {
            values::lemma_numbers_differ(p.nodes@, list@, keys@);
            machine::lemma_continues_self(before.store);
        }
        let nothing: Vec<usize> = Vec::new();
        let mut i: usize = 0;
        while i < keys.len()
            invariant
                i <= keys@.len(),
                nothing@.len() == 0,
                forall|x: int, y: int| 0 <= x < y < keys@.len() ==> (#[trigger] keys@[x]) != (#[trigger] keys@[y]),
                *self == (Machine { store: self.store, ..before }),
                before.store.wf(),
                before.store.guards_in(before.arena@),
                before.arena.wf(),
                self.store.wf(),
                self.store.guards_in(before.arena@),
                writes::continues(before.store, self.store),
                forall|k: int| 0 <= k < i ==> forgotten(before.store, self.store, #[trigger] keys@[k], weak),
                forall|key: u64| !keys@.take(i as int).contains(key) ==> #[trigger] ssa::binding_of(self.store.current@, key) == ssa::binding_of(before.store.current@, key),
            decreases keys@.len() - i,
        {
            let ghost known = self.store;
            let ghost taken = keys@.take(i as int);
            let version: usize = self.store.definition(&nothing);
            let ghost defined = self.store;
            proof {
                lemma_whole_definition(defined, version as int, nothing@, PathCondition { node: 0 });
                assert(writes::whole_sources(nothing@) =~= Seq::empty());
                realize::lemma_same_state(known, defined);
            }
            bind_destination(&mut self.store, keys[i], version, weak);
            proof {
                writes::continues_is_transitive(known, defined, self.store);
                writes::continues_is_transitive(before.store, known, self.store);
                let key = keys@[i as int];
                let longer = keys@.take(i + 1);
                assert(!taken.contains(key)) by {
                    if taken.contains(key) {
                        let q = choose|q: int| 0 <= q < taken.len() && taken[q] == key;
                        assert(keys@[q] != keys@[i as int]);
                    }
                }
                assert(ssa::binding_of(known.current@, key) == ssa::binding_of(before.store.current@, key));
                assert(defined.versions@[version as int] == self.store.versions@[version as int]);
                assert(writes::is_definition(self.store.versions@, version as int, Seq::empty(), PathCondition { node: 0 }));
                assert(writes::is_bound(before.store, self.store, key, version, weak));
                assert(forgotten(before.store, self.store, key, weak));
                assert forall|k: int| 0 <= k < i + 1 implies forgotten(before.store, self.store, #[trigger] keys@[k], weak) by {
                    if k < i {
                        assert(keys@[k] != keys@[i as int]);
                        assert(forgotten(before.store, known, keys@[k], weak));
                        lemma_forgotten_kept(before.store, known, self.store, keys@[k], weak);
                    }
                }
                assert forall|other: u64| !longer.contains(other) implies #[trigger] ssa::binding_of(self.store.current@, other) == ssa::binding_of(
                    before.store.current@,
                    other,
                ) by {
                    assert(longer[i as int] == key);
                    assert(!taken.contains(other)) by {
                        if taken.contains(other) {
                            let q = choose|q: int| 0 <= q < taken.len() && taken[q] == other;
                            assert(longer[q] == other);
                        }
                    }
                    assert(ssa::binding_of(known.current@, other) == ssa::binding_of(before.store.current@, other));
                }
            }
            i = i + 1;
        }
        assert(keys@.take(i as int) =~= keys@);
        self.complete = false;
        extend_keys(&mut self.written, &keys);
        proof {
            lemma_wrote(before, *self, keys@);
        }
    }
}

/// The list, where there is one.
pub open spec fn seen(reads: Option<Vec<usize>>) -> Option<Seq<usize>> {
    match reads {
        Some(reads) => Some(reads@),
        None => None,
    }
}

/// The arm is left, by way of some store.
pub open spec fn arm_left_to(a: Machine, n: Machine, b: Machine, reads: Option<Seq<usize>>, state: BranchState, versions: Seq<usize>) -> bool {
    exists|defined: SsaStore| #[trigger] arm_left(a, n, defined, b, reads, state, versions)
}

proof fn lemma_forgotten_kept(before: SsaStore, middle: SsaStore, after: SsaStore, key: u64, weak: bool)
    requires
        middle.wf(),
        after.wf(),
        ssa::versions_grow(middle.versions@, after.versions@),
        ssa::binding_of(after.current@, key) == ssa::binding_of(middle.current@, key),
        forgotten(before, middle, key, weak),
    ensures
        forgotten(before, after, key, weak),
{
    let version = choose|version: usize|
        before.versions@.len() <= version && #[trigger] writes::is_definition(middle.versions@, version as int, Seq::empty(), PathCondition { node: 0 })
            && writes::is_bound(before, middle, key, version, weak);
    assert(middle.versions@[version as int] == after.versions@[version as int]);
    assert(writes::is_definition(after.versions@, version as int, Seq::empty(), PathCondition { node: 0 }));
    if weak {
        if before.current@.contains_key(key) {
            writes::lemma_phi_kept(middle.versions@, after.versions@, set![before.current@[key], version], after.current@[key]);
        } else {
            writes::lemma_entry_kept(middle, after, key);
            writes::lemma_phi_kept(middle.versions@, after.versions@, set![after.entries@[key], version], after.current@[key]);
        }
    }
}

/// A value from all positions of versions.
pub proof fn lemma_whole_definition(store: SsaStore, version: int, sources: Seq<usize>, condition: PathCondition)
    requires
        0 <= version < store.versions@.len(),
        store.versions@[version] matches ssa::Version::Definition { sources: list, condition: guard } && guard == condition && order::strictly_sorted(list@)
            && forall|s: crate::relation::SourceRef| #[trigger]
            list@.contains(s) <==> s.relation == crate::relation::PositionRelation::anything() && sources.contains(s.version),
    ensures
        writes::is_definition(store.versions@, version, writes::whole_sources(sources), condition),
{
    let list = store.versions@[version]->sources@;
    assert forall|s: crate::relation::SourceRef| #[trigger] list.contains(s) <==> writes::whole_sources(sources).contains(s) by {
        writes::lemma_whole_sources(sources, s);
    }
}

/// Whether the nodes that a destination writes depend on values.
pub fn destination_is_dynamic(access: &Access) -> (r: bool)
    ensures
        r == is_dynamic(*access),
{
    projection::last_dynamic(&access.coordinates).is_some() || (access.select.len() > 0 && access.selected.is_none())
}

impl<'a> Program<'a> {
    /// The nodes that a destination may write.
    pub fn written_by(&self, access: &Access) -> (r: WriteKeys)
        requires
            self.wf(),
        ensures
            targets::are_written(*self.partition, *access, self.owned_of(access.id), r),
    {
        if self.is_local(access.id) {
            write_keys(self.partition, access, None)
        } else {
            write_keys(self.partition, access, Some(self.owned))
        }
    }
}

} // verus!
