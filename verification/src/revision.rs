//! Recording the exits of a function body.
use vstd::prelude::*;
use std::collections::HashMap;
use crate::arena::PathNode;
use crate::order::{sort_dedup, Ordered};
use crate::ssa;
use crate::ssa::{Binding, BranchState, Checkpoint, SsaStore, StateRevision, StateRevisionEvent};
use crate::state;

verus! {

impl Ordered for Binding {
    open spec fn lt(self, other: Self) -> bool {
        self.key < other.key || (self.key == other.key && self.version < other.version)
    }

    proof fn lt_irreflexive(a: Self) {
    }

    proof fn lt_transitive(a: Self, b: Self, c: Self) {
    }

    proof fn lt_total(a: Self, b: Self) {
    }

    fn less(self, other: Self) -> (r: bool) {
        self.key < other.key || (self.key == other.key && self.version < other.version)
    }
}

/// The binding of `key` before the events first change it.
pub open spec fn first_previous(events: Seq<StateRevisionEvent>, key: u64) -> Option<usize>
    decreases events.len(),
{
    if events.len() == 0 {
        None
    } else if ssa::changes(events.drop_last(), key) {
        first_previous(events.drop_last(), key)
    } else {
        match events.last() {
            StateRevisionEvent::Change { previous, .. } => previous,
            StateRevisionEvent::Exit(_) => None,
        }
    }
}

/// The bindings of `key` at the exits of recording `id` among the first `n` events.
pub open spec fn observed(
    events: Seq<StateRevisionEvent>,
    id: usize,
    key: u64,
    base: Option<usize>,
    n: int,
) -> Set<Option<usize>>
    decreases n,
{
    if n <= 0 {
        Set::empty()
    } else if events[n - 1] == StateRevisionEvent::Exit(id) {
        observed(events, id, key, base, n - 1).insert(
            ssa::value_after(events.take(n - 1), key, base),
        )
    } else {
        observed(events, id, key, base, n - 1)
    }
}

/// The bindings of `key` at all the exits of recording `id`.
pub open spec fn exit_bindings(events: Seq<StateRevisionEvent>, id: usize, key: u64) -> Set<
    Option<usize>,
> {
    observed(events, id, key, first_previous(events, key), events.len() as int)
}

/// The versions behind a set of bindings, where an unbound key has its live-on-entry version.
pub open spec fn exit_versions(bindings: Set<Option<usize>>, entry: usize) -> Set<usize> {
    Set::new(
        |v: usize| bindings.contains(Some(v)) || (v == entry && bindings.contains(None::<usize>)),
    )
}

/// Some exit changed `key` for good: it is not at every exit what it was before.
pub open spec fn exits_change(events: Seq<StateRevisionEvent>, id: usize, key: u64) -> bool {
    &&& ssa::changes(events, key)
    &&& exit_bindings(events, id, key) != Set::<Option<usize>>::empty()
    &&& exit_bindings(events, id, key) != set![first_previous(events, key)]
}

impl SsaStore {
    /// The recording is the innermost active one.
    pub open spec fn open_revision(self, revision: StateRevision) -> bool {
        &&& self.active_revisions@.len() > 0
        &&& self.active_revisions@.last() == revision.id
        &&& revision.event_start <= self.revision_events@.len()
    }

    /// The events since the recording began.
    pub open spec fn recorded(self, revision: StateRevision) -> Seq<StateRevisionEvent> {
        self.revision_events@.subrange(
            revision.event_start as int,
            self.revision_events@.len() as int,
        )
    }

    /// Starts recording the changes and exits of one function body.
    pub fn begin_state_revision(&mut self, checkpoint: Checkpoint) -> (r: StateRevision)
        requires
            old(self).wf(),
            old(self).open_checkpoint(checkpoint),
            old(self).next_revision_id < usize::MAX,
        ensures
            final(self).wf(),
            final(self).open_revision(r),
            r.id == old(self).next_revision_id,
            r.checkpoint_depth == checkpoint.depth,
            final(self).recorded(r).len() == 0,
            final(self).next_revision_id == old(self).next_revision_id + 1,
            final(self).active_revisions@ == old(self).active_revisions@.push(r.id),
            old(self).active_revisions@.len() > 0 ==> final(self).revision_events == old(self).revision_events,
            ssa::same_versions(*old(self), *final(self)),
            final(self).current == old(self).current,
            final(self).undo == old(self).undo,
            final(self).checkpoints == old(self).checkpoints,
            ssa::keeps_guards(*old(self), *final(self)),
    {
        if self.active_revisions.len() == 0 {
            self.revision_events.clear();
        }
        let revision = StateRevision {
            id: self.next_revision_id,
            event_start: self.revision_events.len(),
            checkpoint_depth: checkpoint.depth,
        };
        self.next_revision_id = self.next_revision_id + 1;
        self.active_revisions.push(revision.id);
        revision
    }

    /// Marks the current state as one exit of the recording.
    pub fn record_state_revision_exit(&mut self, revision: StateRevision)
        requires
            old(self).wf(),
            old(self).active_revisions@.contains(revision.id),
        ensures
            final(self).wf(),
            final(self).revision_events@ == old(self).revision_events@.push(
                StateRevisionEvent::Exit(revision.id),
            ),
            // What the events say of a changed key at this exit is its binding.
            ssa::events_follow(old(self).revision_events@, final(self).current@),
            ssa::same_versions(*old(self), *final(self)),
            final(self).current == old(self).current,
            final(self).undo == old(self).undo,
            final(self).checkpoints == old(self).checkpoints,
            final(self).active_revisions == old(self).active_revisions,
            final(self).next_revision_id == old(self).next_revision_id,
            ssa::keeps_guards(*old(self), *final(self)),
    {
        let ghost before = self.revision_events@;
        self.revision_events.push(StateRevisionEvent::Exit(revision.id));
        proof {
            let after = self.revision_events@;
            assert(after.drop_last() =~= before);
            assert(self.active_revisions@.len() > 0);
            assert forall|key: u64| #[trigger] ssa::changes(after, key) implies ssa::value_after(after, key, None) == ssa::binding_of(self.current@, key) by {
                let i = choose|i: int|
                    0 <= i < after.len() && ((#[trigger] after[i]) matches StateRevisionEvent::Change { key: changed, .. } && changed == key);
                assert(before[i] == after[i]);
                assert(ssa::changes(before, key));
            }
        }
    }
}

/// What one key has been at the exits seen so far.
struct RevisionValue {
    key: u64,
    baseline: Option<usize>,
    current: Option<usize>,
    current_since_exit: usize,
    inputs: Vec<usize>,
    needs_entry: bool,
}

impl RevisionValue {
    /// The collected bindings.
    spec fn collected(self) -> Set<Option<usize>> {
        Set::new(
            |b: Option<usize>|
                match b {
                    Some(v) => self.inputs@.contains(v),
                    None => self.needs_entry,
                },
        )
    }

    /// The collected bindings with the pending one, if an exit has seen it.
    spec fn seen(self, exits: int) -> Set<Option<usize>> {
        if self.current_since_exit < exits {
            self.collected().insert(self.current)
        } else {
            self.collected()
        }
    }

    /// The value is right for the first `n` events, of which `exits` are exits of `id`.
    spec fn right(self, events: Seq<StateRevisionEvent>, id: usize, n: int, exits: int) -> bool {
        &&& ssa::changes(events.take(n), self.key)
        &&& self.baseline == first_previous(events.take(n), self.key)
        &&& self.current == ssa::value_after(events.take(n), self.key, self.baseline)
        &&& self.current_since_exit <= exits
        &&& self.seen(exits) =~= observed(events, id, self.key, self.baseline, n)
    }

    /// Collects the pending binding if an exit has seen it.
    fn settle(&mut self, exits: usize)
        requires
            old(self).current_since_exit <= exits,
        ensures
            final(self).key == old(self).key,
            final(self).baseline == old(self).baseline,
            final(self).current == old(self).current,
            final(self).current_since_exit == exits,
            final(self).collected() =~= old(self).seen(exits as int),
            forall|i: int|
                0 <= i < final(self).inputs@.len() ==> old(self).inputs@.contains(
                    #[trigger] final(self).inputs@[i],
                ) || old(self).current == Some(final(self).inputs@[i]),
    {
        let ghost before = self.inputs@;
        if self.current_since_exit < exits {
            if let Some(version) = self.current {
                self.inputs.push(version);
                proof {
                    assert forall|v: usize| self.inputs@.contains(v) <==> before.contains(v) || v == version by {
                        crate::remap::lemma_contains_push(before, version, v);
                    }
                }
            } else {
                self.needs_entry = true;
            }
            self.current_since_exit = exits;
        }
        proof {
            assert forall|b: Option<usize>| #[trigger] self.collected().contains(b) <==> old(self).seen(
                exits as int,
            ).contains(b) by {
                assert(old(self).collected().contains(b) <==> (match b {
                    Some(v) => before.contains(v),
                    None => old(self).needs_entry,
                }));
                assert(self.collected().contains(b) <==> (match b {
                    Some(v) => self.inputs@.contains(v),
                    None => self.needs_entry,
                }));
            }
            assert forall|i: int| 0 <= i < self.inputs@.len() implies before.contains(#[trigger] self.inputs@[i]) || old(self).current == Some(self.inputs@[i]) by {
                if i < before.len() {
                    assert(before[i] == self.inputs@[i]);
                }
            }
        }
    }
}

/// A change of another key, or an exit, leaves the value of `key` alone.
proof fn lemma_event_elsewhere(events: Seq<StateRevisionEvent>, n: int, key: u64, base: Option<usize>)
    requires
        0 <= n < events.len(),
        !(events[n] matches StateRevisionEvent::Change { key: changed, .. } && changed == key),
    ensures
        ssa::changes(events.take(n + 1), key) <==> ssa::changes(events.take(n), key),
        ssa::changes(events.take(n), key) ==> first_previous(events.take(n + 1), key)
            == first_previous(events.take(n), key),
        ssa::value_after(events.take(n + 1), key, base) == ssa::value_after(
            events.take(n),
            key,
            base,
        ),
{
    let a = events.take(n);
    let b = events.take(n + 1);
    assert(b.drop_last() =~= a);
    assert(b.last() == events[n]);
    if ssa::changes(b, key) {
        let i = choose|i: int| 0 <= i < b.len() && ((#[trigger] b[i]) matches StateRevisionEvent::Change { key: changed, .. } && changed == key);
        assert(a[i] == b[i]);
    }
    if ssa::changes(a, key) {
        let i = choose|i: int| 0 <= i < a.len() && ((#[trigger] a[i]) matches StateRevisionEvent::Change { key: changed, .. } && changed == key);
        assert(b[i] == a[i]);
    }
}

/// A change of `key` itself.
proof fn lemma_event_here(events: Seq<StateRevisionEvent>, n: int, key: u64, base: Option<usize>)
    requires
        0 <= n < events.len(),
        events[n] matches StateRevisionEvent::Change { key: changed, .. } && changed == key,
    ensures
        ssa::changes(events.take(n + 1), key),
        ssa::changes(events.take(n), key) ==> first_previous(events.take(n + 1), key)
            == first_previous(events.take(n), key),
        !ssa::changes(events.take(n), key) ==> first_previous(events.take(n + 1), key)
            == events[n]->previous,
        ssa::value_after(events.take(n + 1), key, base) == events[n]->current,
{
    let a = events.take(n);
    let b = events.take(n + 1);
    assert(b.drop_last() =~= a);
    assert(b.last() == events[n]);
    assert(b[n] == events[n]);
}

/// As long as a key is unchanged, every exit sees its first binding.
proof fn lemma_unchanged_observed(
    events: Seq<StateRevisionEvent>,
    id: usize,
    key: u64,
    base: Option<usize>,
    n: int,
    exits: int,
)
    requires
        0 <= n <= events.len(),
        !ssa::changes(events.take(n), key),
        exits == exit_count(events, id, n),
    ensures
        ssa::value_after(events.take(n), key, base) == base,
        observed(events, id, key, base, n) =~= (if exits > 0 {
            set![base]
        } else {
            Set::empty()
        }),
        exits >= 0,
    decreases n,
{
    if n > 0 {
        let a = events.take(n - 1);
        let b = events.take(n);
        assert(b.drop_last() =~= a);
        assert(b.last() == events[n - 1]);
        if ssa::changes(a, key) {
            let i = choose|i: int| 0 <= i < a.len() && ((#[trigger] a[i]) matches StateRevisionEvent::Change { key: changed, .. } && changed == key);
            assert(b[i] == a[i]);
        }
        assert(!(events[n - 1] matches StateRevisionEvent::Change { key: changed, .. } && changed == key)) by {
            assert(b[n - 1] == events[n - 1]);
        }
        lemma_unchanged_observed(events, id, key, base, n - 1, exit_count(events, id, n - 1));
    }
}

/// How many of the first `n` events are exits of `id`.
spec fn exit_count(events: Seq<StateRevisionEvent>, id: usize, n: int) -> int
    decreases n,
{
    if n <= 0 {
        0
    } else if events[n - 1] == StateRevisionEvent::Exit(id) {
        exit_count(events, id, n - 1) + 1
    } else {
        exit_count(events, id, n - 1)
    }
}

proof fn lemma_exit_count(events: Seq<StateRevisionEvent>, id: usize, n: int)
    requires
        0 <= n,
    ensures
        0 <= exit_count(events, id, n) <= n,
    decreases n,
{
    if n > 0 {
        lemma_exit_count(events, id, n - 1);
    }
}

/// Every listed value is right and every changed key has exactly one.
spec fn replayed(
    values: Seq<RevisionValue>,
    index: Map<u64, usize>,
    events: Seq<StateRevisionEvent>,
    id: usize,
    n: int,
    exits: int,
    limit: int,
) -> bool {
    &&& forall|i: int|
        0 <= i < values.len() ==> {
            &&& (#[trigger] values[i]).right(events, id, n, exits)
            &&& index.contains_key(values[i].key)
            &&& index[values[i].key] == i
            &&& value_below(values[i], limit)
        }
    &&& forall|key: u64| #[trigger]
        ssa::changes(events.take(n), key) ==> index.contains_key(key)
    &&& forall|key: u64| #[trigger]
        index.contains_key(key) ==> index[key] < values.len() && values[index[key] as int].key
            == key
}

spec fn value_below(value: RevisionValue, limit: int) -> bool {
    &&& (value.baseline matches Some(v) ==> v < limit)
    &&& (value.current matches Some(v) ==> v < limit)
    &&& forall|k: int| 0 <= k < value.inputs@.len() ==> (#[trigger] value.inputs@[k]) < limit
}

/// A value is untouched by an event about something else.
proof fn lemma_right_elsewhere(
    value: RevisionValue,
    events: Seq<StateRevisionEvent>,
    id: usize,
    n: int,
    exits: int,
)
    requires
        0 <= n < events.len(),
        value.right(events, id, n, exits),
        exits == exit_count(events, id, n),
        !(events[n] matches StateRevisionEvent::Change { key: changed, .. } && changed
            == value.key),
    ensures
        value.right(events, id, n + 1, exit_count(events, id, n + 1)),
{
    lemma_event_elsewhere(events, n, value.key, value.baseline);
    if events[n] == StateRevisionEvent::Exit(id) {
        assert(exit_count(events, id, n + 1) == exits + 1);
        assert(observed(events, id, value.key, value.baseline, n + 1) == observed(
            events,
            id,
            value.key,
            value.baseline,
            n,
        ).insert(value.current));
        assert(value.seen(exits + 1) =~= value.seen(exits).insert(value.current));
    }
}

/// The values are right for all the events.
spec fn replays(
    values: Seq<RevisionValue>,
    events: Seq<StateRevisionEvent>,
    id: usize,
    exits: int,
    limit: int,
) -> bool {
    exists|index: Map<u64, usize>| #[trigger]
        replayed(values, index, events, id, events.len() as int, exits, limit)
}

/// Replays the events of a recording in one pass.
fn replay(events: &Vec<StateRevisionEvent>, start: usize, id: usize, Ghost(limit): Ghost<int>) -> (r:
    (Vec<RevisionValue>, usize))
    requires
        start <= events@.len(),
        ssa::events_below(events@, limit),
    ensures
        replays(
            r.0@,
            events@.subrange(start as int, events@.len() as int),
            id,
            r.1 as int,
            limit,
        ),
        r.1 == exit_count(
            events@.subrange(start as int, events@.len() as int),
            id,
            events@.len() - start,
        ),
{
    let ghost suffix = events@.subrange(start as int, events@.len() as int);
    let mut values: Vec<RevisionValue> = Vec::new();
    let mut index: HashMap<u64, usize> = HashMap::new();
    let mut exits: usize = 0;
    let mut at: usize = start;
    proof {
        assert forall|key: u64| !#[trigger] ssa::changes(suffix.take(0), key) by {}
    }
    while at < events.len()
        invariant
            start <= at <= events.len(),
            suffix == events@.subrange(start as int, events@.len() as int),
            ssa::events_below(events@, limit),
            exits == exit_count(suffix, id, at - start),
            replayed(values@, index@, suffix, id, at - start, exits as int, limit),
        decreases events.len() - at,
    {
        let event = events[at];
        let ghost n = at - start;
        let ghost before = values@;
        let ghost index0 = index@;
        proof {
            assert(suffix[n] == event);
            lemma_exit_count(suffix, id, n);
            lemma_exit_count(suffix, id, n + 1);
            assert(event == events@[at as int]);
        }
        match event {
            StateRevisionEvent::Exit(exit) => {
                if exit == id {
                    exits = exits + 1;
                }
                proof {
                    assert forall|i: int| 0 <= i < values@.len() implies (#[trigger] values@[i]).right(suffix, id, n + 1, exits as int) by {
                        lemma_right_elsewhere(values@[i], suffix, id, n, exit_count(suffix, id, n));
                    }
                    assert forall|key: u64| #[trigger] ssa::changes(suffix.take(n + 1), key) implies index@.contains_key(key) by {
                        lemma_event_elsewhere(suffix, n, key, None);
                    }
                }
            },
            StateRevisionEvent::Change { key, previous, current } => {
                let place: usize = match index.get(&key) {
                    Some(place) => *place,
                    None => {
                        let place: usize = values.len();
                        index.insert(key, place);
                        values.push(
                            RevisionValue {
                                key,
                                baseline: previous,
                                current: previous,
                                current_since_exit: 0,
                                inputs: Vec::new(),
                                needs_entry: false,
                            },
                        );
                        proof {
                            lemma_unchanged_observed(suffix, id, key, previous, n, exits as int);
                        }
                        place
                    },
                };
                let mut value = RevisionValue {
                    key,
                    baseline: None,
                    current: None,
                    current_since_exit: 0,
                    inputs: Vec::new(),
                    needs_entry: false,
                };
                let ghost held = values@[place as int];
                proof {
                    assert(held.key == key);
                    assert(value_below(held, limit));
                    lemma_event_here(suffix, n, key, held.baseline);
                }
                std::mem::swap(&mut value, &mut values[place]);
                value.settle(exits);
                value.current = current;
                let ghost settled = value;
                std::mem::swap(&mut value, &mut values[place]);
                proof {
                    let after = values@;
                    assert(after[place as int] == settled);
                    assert(settled.seen(exits as int) =~= settled.collected());
                    assert(settled.collected() =~= held.seen(exits as int));
                    assert(held.seen(exits as int) =~= observed(suffix, id, key, held.baseline, n));
                    assert(settled.right(suffix, id, n + 1, exits as int));
                    assert forall|k: int| 0 <= k < settled.inputs@.len() implies (#[trigger] settled.inputs@[k]) < limit by {
                        if held.inputs@.contains(settled.inputs@[k]) {
                            let m = choose|m: int| 0 <= m < held.inputs@.len() && held.inputs@[m] == settled.inputs@[k];
                            assert(held.inputs@[m] < limit);
                        }
                    }
                    assert(value_below(settled, limit));
                    assert forall|i: int| 0 <= i < after.len() implies {
                        &&& (#[trigger] after[i]).right(suffix, id, n + 1, exits as int)
                        &&& index@.contains_key(after[i].key)
                        &&& index@[after[i].key] == i
                        &&& value_below(after[i], limit)
                    } by {
                        if i != place {
                            assert(after[i] == before[i]);
                            assert(index0.contains_key(before[i].key));
                            assert(index0[before[i].key] == i);
                            assert(before[i].key != key);
                            lemma_right_elsewhere(before[i], suffix, id, n, exits as int);
                        }
                    }
                    assert forall|k: u64| #[trigger] ssa::changes(suffix.take(n + 1), k) implies index@.contains_key(k) by {
                        if k != key {
                            lemma_event_elsewhere(suffix, n, k, None);
                        }
                    }
                    assert forall|k: u64| #[trigger] index@.contains_key(k) implies index@[k] < after.len() && after[index@[k] as int].key == k by {
                        if k != key {
                            assert(index0.contains_key(k));
                            assert(index0[k] < before.len() && before[index0[k] as int].key == k);
                        }
                    }
                }
            },
        }
        at = at + 1;
    }
    assert(replayed(values@, index@, suffix, id, suffix.len() as int, exits as int, limit));
    (values, exits)
}

impl SsaStore {
    /// Closes a recording that must have seen an exit.
    pub fn finish_state_revision(&mut self, revision: StateRevision) -> (r: BranchState)
        requires
            old(self).wf(),
            old(self).open_revision(revision),
            old(self).recorded(revision).contains(StateRevisionEvent::Exit(revision.id)),
        ensures
            final(self).finishes(*old(self), revision, r),
    {
        self.finish_state_revision_inner(revision)
    }

    /// Closes a recording that may have seen no exit.
    pub fn finish_optional_state_revision(&mut self, revision: StateRevision) -> (r: BranchState)
        requires
            old(self).wf(),
            old(self).open_revision(revision),
        ensures
            final(self).finishes(*old(self), revision, r),
    {
        self.finish_state_revision_inner(revision)
    }

    /// `self` follows `before` once `revision` is closed with the joined exits `r`: a key is
    /// listed when some exit changed it, as one of the versions that it has at the exits.
    pub open spec fn finishes(self, before: SsaStore, revision: StateRevision, r: BranchState) -> bool {
        let events = before.recorded(revision);
        &&& self.wf()
        &&& r.wf()
        &&& ssa::versions_grow(before.versions@, self.versions@)
        &&& self.current@ == before.current@
        &&& self.undo@ == before.undo@
        &&& self.checkpoints@ == before.checkpoints@
        &&& self.active_revisions@ == before.active_revisions@.drop_last()
        &&& self.active_revisions@.len() > 0 ==> self.revision_events@ == before.revision_events@
        &&& self.next_revision_id == before.next_revision_id
        &&& self.graphs == before.graphs
        &&& self.imports == before.imports
        &&& ssa::keeps_guards(before, self)
        &&& forall|key: u64| #[trigger]
            ssa::binds(r.bindings@, key) <==> exits_change(events, revision.id, key)
        &&& forall|key: u64, version: usize| #[trigger]
            ssa::bound(r.bindings@, key, version) ==> {
                &&& (exit_bindings(events, revision.id, key).contains(None::<usize>)
                    ==> self.entries@.contains_key(key))
                &&& ssa::is_phi(
                    self.versions@,
                    exit_versions(exit_bindings(events, revision.id, key), self.entries@[key]),
                    version,
                )
            }
    }

    fn finish_state_revision_inner(&mut self, revision: StateRevision) -> (r: BranchState)
        requires
            old(self).wf(),
            old(self).open_revision(revision),
        ensures
            final(self).finishes(*old(self), revision, r),
    {
        let ghost store0 = *self;
        let ghost events = self.recorded(revision);
        let ghost id = revision.id;
        let ghost limit = self.versions@.len() as int;
        let (values, exits) = replay(
            &self.revision_events,
            revision.event_start,
            revision.id,
            Ghost(limit),
        );
        let ghost n = events.len() as int;
        let ghost index = choose|index: Map<u64, usize>|
            #[trigger] replayed(values@, index, events, id, n, exits as int, limit);
        proof {
            assert(events.take(n) =~= events);
        }
        let ghost all = values@;
        let mut values = values;
        let mut bindings: Vec<Binding> = Vec::new();
        while values.len() > 0
            invariant
                replayed(all, index, events, id, n, exits as int, limit),
                events.take(n) == events,
                n == events.len(),
                limit == store0.versions@.len(),
                store0.wf(),
                values@.len() <= all.len(),
                values@ == all.take(values@.len() as int),
                self.wf(),
                ssa::same_state(store0, *self),
                ssa::keeps_guards(store0, *self),
                forall|key: u64| #[trigger]
                    ssa::binds(bindings@, key) <==> exists|i: int|
                        values@.len() <= i < all.len() && (#[trigger] all[i]).key == key
                            && exits_change(events, id, key),
                forall|i: int, j: int|
                    0 <= i < j < bindings@.len() ==> (#[trigger] bindings@[i]).key != (
                    #[trigger] bindings@[j]).key,
                forall|k: int|
                    0 <= k < bindings@.len() ==> {
                        let key = (#[trigger] bindings@[k]).key;
                        &&& (exit_bindings(events, id, key).contains(None::<usize>)
                            ==> self.entries@.contains_key(key))
                        &&& ssa::is_phi(
                            self.versions@,
                            exit_versions(exit_bindings(events, id, key), self.entries@[key]),
                            bindings@[k].version,
                        )
                    },
            decreases values@.len(),
        {
            let ghost place = values@.len() - 1;
            let ghost before_store = *self;
            let ghost listed = bindings@;
            let mut value = match values.pop() {
                Some(value) => value,
                None => {
                    return BranchState { bindings: Vec::new() };
                },
            };
            let key: u64 = value.key;
            proof {
                assert(values@ =~= all.take(values@.len() as int));
                assert(all[place] == value);
                assert(value.right(events, id, n, exits as int));
                assert(value_below(value, limit));
            }
            let ghost held = value;
            value.settle(exits);
            let ghost seen = exit_bindings(events, id, key);
            proof {
                assert(value.collected() =~= seen);
                assert forall|k: int| 0 <= k < value.inputs@.len() implies (#[trigger] value.inputs@[k]) < limit by {
                    if held.inputs@.contains(value.inputs@[k]) {
                        let m = choose|m: int| 0 <= m < held.inputs@.len() && held.inputs@[m] == value.inputs@[k];
                        assert(held.inputs@[m] < limit);
                    }
                }
            }
            let same = match value.baseline {
                Some(baseline) => !value.needs_entry && all_equal(&value.inputs, baseline),
                None => value.needs_entry && value.inputs.len() == 0,
            };
            let empty = !value.needs_entry && value.inputs.len() == 0;
            proof {
                lemma_only_baseline(value.inputs@, value.needs_entry, seen, value.baseline);
                assert(ssa::changes(events, key));
                assert((!same && !empty) == exits_change(events, id, key));
            }
            if !same && !empty {
                let ghost inputs0 = value.inputs@;
                if value.needs_entry {
                    let entry = self.entry(key);
                    value.inputs.push(entry);
                }
                let ghost mid = *self;
                proof {
                    assert forall|k: int| 0 <= k < value.inputs@.len() implies (#[trigger] value.inputs@[k]) < self.versions@.len() by {
                        if k < inputs0.len() {
                            assert(inputs0[k] == value.inputs@[k]);
                            assert(inputs0[k] < limit);
                        }
                    }
                    let wanted = exit_versions(seen, mid.entries@[key]);
                    assert(value.inputs@.to_set() =~= wanted) by {
                        assert forall|x: usize| #[trigger] value.inputs@.to_set().contains(x) <==> wanted.contains(x) by {
                            assert(seen.contains(Some(x)) <==> inputs0.contains(x));
                            assert(seen.contains(None::<usize>) <==> value.needs_entry);
                            if value.needs_entry {
                                crate::remap::lemma_contains_push(inputs0, mid.entries@[key], x);
                            }
                        }
                    }
                }
                let version = self.phi(&value.inputs);
                let added = Binding { key, version };
                bindings.push(added);
                proof {
                    assert forall|nodes: Seq<PathNode>| #[trigger] store0.guards_in(nodes) implies self.guards_in(nodes) by {
                        assert(before_store.guards_in(nodes));
                        assert(mid.guards_in(nodes));
                    }
                    lemma_same_state_trans(store0, before_store, mid);
                    lemma_same_state_trans(store0, mid, *self);
                    assert forall|k: int| 0 <= k < bindings@.len() implies {
                        let key2 = (#[trigger] bindings@[k]).key;
                        &&& (exit_bindings(events, id, key2).contains(None::<usize>) ==> self.entries@.contains_key(key2))
                        &&& ssa::is_phi(
                            self.versions@,
                            exit_versions(exit_bindings(events, id, key2), self.entries@[key2]),
                            bindings@[k].version,
                        )
                    } by {
                        if k < listed.len() {
                            let key2 = listed[k].key;
                            assert(bindings@[k] == listed[k]);
                            let b = exit_bindings(events, id, key2);
                            assert(exit_versions(b, before_store.entries@[key2]) =~= exit_versions(b, self.entries@[key2]));
                            state::lemma_is_phi_grows(before_store.versions@, self.versions@, exit_versions(b, self.entries@[key2]), listed[k].version);
                        }
                    }
                    assert forall|i: int, j: int| 0 <= i < j < bindings@.len() implies (#[trigger] bindings@[i]).key != (#[trigger] bindings@[j]).key by {
                        if j == listed.len() {
                            assert(ssa::binds(listed, listed[i].key));
                            let m = choose|m: int| place < m < all.len() && (#[trigger] all[m]).key == listed[i].key;
                            assert(index[all[m].key] == m);
                            assert(index[all[place].key] == place);
                        }
                    }
                }
            }
            proof {
                assert forall|k: u64| #[trigger] ssa::binds(bindings@, k) <==> exists|i: int|
                    values@.len() <= i < all.len() && (#[trigger] all[i]).key == k && exits_change(events, id, k) by {
                    if ssa::binds(bindings@, k) {
                        let m = choose|m: int| 0 <= m < bindings@.len() && (#[trigger] bindings@[m]).key == k;
                        if m < listed.len() {
                            assert(listed[m].key == k);
                            assert(ssa::binds(listed, k));
                        } else {
                            assert(all[place].key == k);
                        }
                    }
                    if exists|i: int| values@.len() <= i < all.len() && (#[trigger] all[i]).key == k && exits_change(events, id, k) {
                        let i = choose|i: int| values@.len() <= i < all.len() && (#[trigger] all[i]).key == k && exits_change(events, id, k);
                        if i > place {
                            assert(ssa::binds(listed, k));
                            let m = choose|m: int| 0 <= m < listed.len() && (#[trigger] listed[m]).key == k;
                            assert(bindings@[m].key == k);
                        } else {
                            assert(bindings@[listed.len() as int].key == k);
                        }
                    }
                }
            }
        }
        let sorted = sort_dedup(&bindings);
        proof {
            assert forall|i: int, j: int| 0 <= i < j < sorted@.len() implies (#[trigger] sorted@[i]).key < (#[trigger] sorted@[j]).key by {
                assert(sorted@[i].lt(sorted@[j]));
                assert(sorted@.contains(sorted@[i]) && sorted@.contains(sorted@[j]));
                assert(bindings@.contains(sorted@[i]) && bindings@.contains(sorted@[j]));
                let a = choose|a: int| 0 <= a < bindings@.len() && bindings@[a] == sorted@[i];
                let b = choose|b: int| 0 <= b < bindings@.len() && bindings@[b] == sorted@[j];
                assert(a != b);
                if a < b {
                    assert(bindings@[a].key != bindings@[b].key);
                } else {
                    assert(bindings@[b].key != bindings@[a].key);
                }
            }
            assert forall|key: u64| #[trigger] ssa::binds(sorted@, key) <==> exits_change(events, id, key) by {
                if ssa::binds(sorted@, key) {
                    let m = choose|m: int| 0 <= m < sorted@.len() && (#[trigger] sorted@[m]).key == key;
                    assert(sorted@.contains(sorted@[m]));
                    assert(bindings@.contains(sorted@[m]));
                    let k = choose|k: int| 0 <= k < bindings@.len() && bindings@[k] == sorted@[m];
                    assert(bindings@[k].key == key);
                    assert(ssa::binds(bindings@, key));
                }
                if exits_change(events, id, key) {
                    assert(index.contains_key(key));
                    assert(all[index[key] as int].key == key);
                    assert(ssa::binds(bindings@, key));
                    let k = choose|k: int| 0 <= k < bindings@.len() && (#[trigger] bindings@[k]).key == key;
                    assert(bindings@.contains(bindings@[k]));
                    assert(sorted@.contains(bindings@[k]));
                    let m = choose|m: int| 0 <= m < sorted@.len() && sorted@[m] == bindings@[k];
                    assert(sorted@[m].key == key);
                }
            }
            assert forall|key: u64, version: usize| #[trigger] ssa::bound(sorted@, key, version) implies {
                &&& (exit_bindings(events, id, key).contains(None::<usize>) ==> self.entries@.contains_key(key))
                &&& ssa::is_phi(
                    self.versions@,
                    exit_versions(exit_bindings(events, id, key), self.entries@[key]),
                    version,
                )
            } by {
                let b = Binding { key, version };
                assert(sorted@.contains(b));
                assert(bindings@.contains(b));
                let k = choose|k: int| 0 <= k < bindings@.len() && bindings@[k] == b;
                assert(bindings@[k].key == key);
            }
        }
        let ghost last = *self;
        self.active_revisions.pop();
        if self.active_revisions.len() == 0 {
            self.revision_events.clear();
        }
        proof {
            assert(self.active_revisions@ =~= store0.active_revisions@.drop_last());
            assert forall|nodes: Seq<PathNode>| #[trigger] store0.guards_in(nodes) implies self.guards_in(nodes) by {
                assert(last.guards_in(nodes));
            }
        }
        BranchState { bindings: sorted }
    }
}

fn all_equal(inputs: &Vec<usize>, value: usize) -> (r: bool)
    ensures
        r == (inputs@.len() > 0 && forall|i: int| 0 <= i < inputs@.len() ==> inputs@[i] == value),
{
    if inputs.len() == 0 {
        return false;
    }
    let mut i: usize = 0;
    while i < inputs.len()
        invariant
            i <= inputs.len(),
            forall|k: int| 0 <= k < i ==> inputs@[k] == value,
        decreases inputs.len() - i,
    {
        if inputs[i] != value {
            return false;
        }
        i = i + 1;
    }
    true
}

/// When a collected set of bindings holds the first binding and nothing else.
proof fn lemma_only_baseline(
    inputs: Seq<usize>,
    needs_entry: bool,
    seen: Set<Option<usize>>,
    baseline: Option<usize>,
)
    requires
        forall|b: Option<usize>| #[trigger] seen.contains(b) <==> (match b {
            Some(v) => inputs.contains(v),
            None => needs_entry,
        }),
    ensures
        (seen == set![baseline]) <==> (match baseline {
            Some(v) => !needs_entry && inputs.len() > 0 && forall|i: int|
                0 <= i < inputs.len() ==> inputs[i] == v,
            None => needs_entry && inputs.len() == 0,
        }),
        (seen == Set::<Option<usize>>::empty()) <==> (!needs_entry && inputs.len() == 0),
{
    if inputs.len() > 0 {
        assert(inputs.contains(inputs[0]));
        assert(seen.contains(Some(inputs[0])));
    }
    if seen == set![baseline] {
        assert(seen.contains(baseline));
        assert forall|i: int| 0 <= i < inputs.len() implies Some(inputs[i]) == baseline by {
            assert(inputs.contains(inputs[i]));
            assert(seen.contains(Some(inputs[i])));
        }
        if needs_entry {
            assert(seen.contains(None::<usize>));
        }
        if let Some(v) = baseline {
            assert(inputs.contains(v));
        }
    }
    match baseline {
        Some(v) => {
            if !needs_entry && inputs.len() > 0 && forall|i: int| 0 <= i < inputs.len() ==> inputs[i] == v {
                assert forall|b: Option<usize>| seen.contains(b) <==> set![baseline].contains(b) by {
                    if let Some(x) = b {
                        if inputs.contains(x) {
                            let i = choose|i: int| 0 <= i < inputs.len() && inputs[i] == x;
                        }
                    }
                    assert(inputs[0] == v);
                }
                assert(seen =~= set![baseline]);
            }
        },
        None => {
            if needs_entry && inputs.len() == 0 {
                assert(seen =~= set![baseline]);
            }
        },
    }
    if !needs_entry && inputs.len() == 0 {
        assert(seen =~= Set::<Option<usize>>::empty());
    }
    if seen == Set::<Option<usize>>::empty() && needs_entry {
        assert(seen.contains(None::<usize>));
    }
}

pub(crate) proof fn lemma_same_state_trans(a: SsaStore, b: SsaStore, c: SsaStore)
    requires
        ssa::same_state(a, b),
        ssa::same_state(b, c),
    ensures
        ssa::same_state(a, c),
{
    assert forall|i: int| 0 <= i < a.versions@.len() implies #[trigger] a.versions@[i] == c.versions@[i] by {
        assert(a.versions@[i] == b.versions@[i]);
        assert(b.versions@[i] == c.versions@[i]);
    }
}


/// The events since a recording with number `id` began, from the bindings `base`: at each of its exits
/// the bindings were those of `exits`, and now they are those of `now`.
pub open spec fn history(
    events: Seq<StateRevisionEvent>,
    id: usize,
    base: Map<u64, usize>,
    exits: Seq<Map<u64, usize>>,
    now: Map<u64, usize>,
) -> bool {
    &&& forall|key: u64| #[trigger] ssa::binding_of(now, key) == ssa::value_after(events, key, ssa::binding_of(base, key))
    &&& forall|i: int| 0 <= i < events.len() ==> #[trigger] event_right(events, i, base)
    &&& exits_follow(events, id, base, exits)
}

/// An exit, or a change from what the events before it left.
pub open spec fn event_right(events: Seq<StateRevisionEvent>, i: int, base: Map<u64, usize>) -> bool {
    events[i] is Exit || ssa::change_right(events, i, base)
}

/// The bindings at the exits are what the events before them left.
pub open spec fn exits_follow(events: Seq<StateRevisionEvent>, id: usize, base: Map<u64, usize>, exits: Seq<Map<u64, usize>>) -> bool
    decreases events.len(),
{
    if events.len() == 0 {
        exits.len() == 0
    } else if events.last() == StateRevisionEvent::Exit(id) {
        exits.len() > 0 && exits_follow(events.drop_last(), id, base, exits.drop_last()) && forall|key: u64| #[trigger]
            ssa::binding_of(exits.last(), key) == ssa::value_after(events.drop_last(), key, ssa::binding_of(base, key))
    } else {
        exits_follow(events.drop_last(), id, base, exits)
    }
}

/// The bindings of a key at the exits.
pub open spec fn bindings_at(exits: Seq<Map<u64, usize>>, key: u64) -> Set<Option<usize>> {
    exits.map_values(|bindings: Map<u64, usize>| ssa::binding_of(bindings, key)).to_set()
}

/// A recording begins with the bindings as they are, and without exits.
pub proof fn recordings_begin_without_exits(id: usize, base: Map<u64, usize>)
    ensures
        history(Seq::empty(), id, base, Seq::empty(), base),
{
}

/// Whatever notes exactly the changes of bindings goes on with the recording: the exits stay those that
/// they were.
pub proof fn changes_go_on_with_a_recording(
    before: SsaStore,
    after: SsaStore,
    revision: StateRevision,
    base: Map<u64, usize>,
    exits: Seq<Map<u64, usize>>,
)
    requires
        ssa::records(before, after),
        before.active_revisions@.len() > 0,
        revision.event_start <= before.revision_events@.len(),
        history(before.recorded(revision), revision.id, base, exits, before.current@),
    ensures
        revision.event_start <= after.revision_events@.len(),
        history(after.recorded(revision), revision.id, base, exits, after.current@),
{
    let first = before.recorded(revision);
    if after.revision_events@ == before.revision_events@ && after.current@ == before.current@ {
        assert(after.recorded(revision) =~= first);
    } else {
        let start = before.revision_events@.len() as int;
        let added = after.revision_events@.skip(start);
        let all = after.recorded(revision);
        assert(all =~= first + added) by {
            assert forall|i: int| 0 <= i < first.len() implies all[i] == first[i] by {
                assert(after.revision_events@.take(start)[revision.event_start + i] == before.revision_events@[revision.event_start + i]);
            }
        }
        lemma_history_longer(first, added, revision.id, base, exits, before.current@, after.current@);
    }
}

proof fn lemma_history_longer(
    first: Seq<StateRevisionEvent>,
    added: Seq<StateRevisionEvent>,
    id: usize,
    base: Map<u64, usize>,
    exits: Seq<Map<u64, usize>>,
    before: Map<u64, usize>,
    after: Map<u64, usize>,
)
    requires
        history(first, id, base, exits, before),
        ssa::led(added, before, after),
    ensures
        history(first + added, id, base, exits, after),
{
    let all = first + added;
    assert forall|key: u64| #[trigger] ssa::binding_of(after, key) == ssa::value_after(all, key, ssa::binding_of(base, key)) by {
        ssa::lemma_value_after_both(first, added, key, ssa::binding_of(base, key));
        assert(ssa::binding_of(before, key) == ssa::value_after(first, key, ssa::binding_of(base, key)));
    }
    assert forall|i: int| 0 <= i < all.len() implies #[trigger] event_right(all, i, base) by {
        if i < first.len() {
            assert(event_right(first, i, base));
            assert(all.take(i) =~= first.take(i));
        } else {
            let j = i - first.len();
            assert(ssa::change_right(added, j, before));
            assert(all.take(i) =~= first + added.take(j));
            let key = added[j]->key;
            ssa::lemma_value_after_both(first, added.take(j), key, ssa::binding_of(base, key));
            assert(ssa::binding_of(before, key) == ssa::value_after(first, key, ssa::binding_of(base, key)));
        }
    }
    lemma_exits_longer(first, added, id, base, exits, before);
}

proof fn lemma_exits_longer(
    first: Seq<StateRevisionEvent>,
    added: Seq<StateRevisionEvent>,
    id: usize,
    base: Map<u64, usize>,
    exits: Seq<Map<u64, usize>>,
    before: Map<u64, usize>,
)
    requires
        exits_follow(first, id, base, exits),
        forall|i: int| 0 <= i < added.len() ==> #[trigger] ssa::change_right(added, i, before),
    ensures
        exits_follow(first + added, id, base, exits),
    decreases added.len(),
{
    if added.len() == 0 {
        assert(first + added =~= first);
    } else {
        assert forall|i: int| 0 <= i < added.drop_last().len() implies #[trigger] ssa::change_right(added.drop_last(), i, before) by {
            assert(ssa::change_right(added, i, before));
            assert(added.drop_last().take(i) =~= added.take(i));
        }
        lemma_exits_longer(first, added.drop_last(), id, base, exits, before);
        assert((first + added).drop_last() =~= first + added.drop_last());
        assert(ssa::change_right(added, added.len() - 1, before));
    }
}

/// An exit of a recording is one more state; the exit of another recording is none.
pub proof fn exits_are_noted(events: Seq<StateRevisionEvent>, id: usize, other: usize, base: Map<u64, usize>, exits: Seq<Map<u64, usize>>, now: Map<u64, usize>)
    requires
        history(events, id, base, exits, now),
    ensures
        history(
            events.push(StateRevisionEvent::Exit(other)),
            id,
            base,
            if other == id {
                exits.push(now)
            } else {
                exits
            },
            now,
        ),
{
    let longer = events.push(StateRevisionEvent::Exit(other));
    assert(longer.drop_last() =~= events);
    assert(exits.push(now).drop_last() =~= exits);
    assert forall|i: int| 0 <= i < longer.len() implies #[trigger] event_right(longer, i, base) by {
        if i < events.len() {
            assert(event_right(events, i, base));
            assert(longer.take(i) =~= events.take(i));
        }
    }
}

proof fn lemma_first_previous(events: Seq<StateRevisionEvent>, base: Map<u64, usize>, key: u64)
    requires
        forall|i: int| 0 <= i < events.len() ==> #[trigger] event_right(events, i, base),
    ensures
        ssa::changes(events, key) ==> first_previous(events, key) == ssa::binding_of(base, key),
        !ssa::changes(events, key) ==> ssa::value_after(events, key, ssa::binding_of(base, key)) == ssa::binding_of(base, key),
    decreases events.len(),
{
    if events.len() > 0 {
        let before = events.drop_last();
        assert forall|i: int| 0 <= i < before.len() implies #[trigger] event_right(before, i, base) by {
            assert(event_right(events, i, base));
            assert(before.take(i) =~= events.take(i));
        }
        lemma_first_previous(before, base, key);
        assert(event_right(events, events.len() - 1, base));
        assert(events.take(events.len() - 1) =~= before);
        if ssa::changes(before, key) {
            let i = choose|i: int|
                0 <= i < before.len() && ((#[trigger] before[i]) matches StateRevisionEvent::Change { key: changed, .. } && changed == key);
            assert(events[i] == before[i]);
        }
        if ssa::changes(events, key) && !ssa::changes(before, key) {
            let i = choose|i: int|
                0 <= i < events.len() && ((#[trigger] events[i]) matches StateRevisionEvent::Change { key: changed, .. } && changed == key);
            if i < before.len() {
                assert(before[i] == events[i]);
            }
        }
        if !ssa::changes(events, key) {
            assert(!(events[events.len() - 1] matches StateRevisionEvent::Change { key: changed, .. } && changed == key));
        }
    }
}

proof fn lemma_observed(events: Seq<StateRevisionEvent>, id: usize, base: Map<u64, usize>, exits: Seq<Map<u64, usize>>, key: u64, n: int)
    requires
        0 <= n <= events.len(),
        exits_follow(events.take(n), id, base, exits),
    ensures
        observed(events, id, key, ssa::binding_of(base, key), n) == bindings_at(exits, key),
    decreases n,
{
    let seen = exits.map_values(|bindings: Map<u64, usize>| ssa::binding_of(bindings, key));
    if n == 0 {
        assert(bindings_at(exits, key) =~= Set::empty());
    } else {
        assert(events.take(n).drop_last() =~= events.take(n - 1));
        if events[n - 1] == StateRevisionEvent::Exit(id) {
            lemma_observed(events, id, base, exits.drop_last(), key, n - 1);
            let fewer = exits.drop_last().map_values(|bindings: Map<u64, usize>| ssa::binding_of(bindings, key));
            let last = ssa::binding_of(exits.last(), key);
            assert(seen =~= fewer.push(last));
            assert forall|b: Option<usize>| #[trigger] bindings_at(exits, key).contains(b) <==> bindings_at(exits.drop_last(), key).insert(last).contains(b) by {
                crate::remap::lemma_contains_push(fewer, last, b);
                assert(seen.to_set().contains(b) <==> seen.contains(b));
                assert(fewer.to_set().contains(b) <==> fewer.contains(b));
            }
            assert(bindings_at(exits, key) =~= bindings_at(exits.drop_last(), key).insert(last));
        } else {
            lemma_observed(events, id, base, exits, key, n - 1);
        }
    }
}

/// The joined exits of a recording are those of the bindings at its exits: a key is listed where one of
/// them is not what it was when the recording began, and its versions are those that it had at them.
pub proof fn joined_exits_are_the_bindings_at_the_exits(
    events: Seq<StateRevisionEvent>,
    id: usize,
    base: Map<u64, usize>,
    exits: Seq<Map<u64, usize>>,
    now: Map<u64, usize>,
    key: u64,
)
    requires
        history(events, id, base, exits, now),
    ensures
        exits_change(events, id, key) <==> exists|i: int| 0 <= i < exits.len() && ssa::binding_of(#[trigger] exits[i], key) != ssa::binding_of(base, key),
        exits_change(events, id, key) ==> exit_bindings(events, id, key) == bindings_at(exits, key),
{
    let b = ssa::binding_of(base, key);
    let seen = exits.map_values(|bindings: Map<u64, usize>| ssa::binding_of(bindings, key));
    lemma_first_previous(events, base, key);
    assert(events.take(events.len() as int) =~= events);
    lemma_observed(events, id, base, exits, key, events.len() as int);
    assert forall|x: Option<usize>| #[trigger] bindings_at(exits, key).contains(x) <==> exists|i: int| 0 <= i < exits.len() && ssa::binding_of(#[trigger] exits[i], key) == x by {
        if seen.contains(x) {
            let i = choose|i: int| 0 <= i < seen.len() && seen[i] == x;
            assert(ssa::binding_of(exits[i], key) == x);
        }
        if exists|i: int| 0 <= i < exits.len() && ssa::binding_of(#[trigger] exits[i], key) == x {
            let i = choose|i: int| 0 <= i < exits.len() && ssa::binding_of(#[trigger] exits[i], key) == x;
            assert(seen[i] == x);
        }
        assert(seen.to_set().contains(x) <==> seen.contains(x));
    }
    if exists|i: int| 0 <= i < exits.len() && ssa::binding_of(#[trigger] exits[i], key) != b {
        let i = choose|i: int| 0 <= i < exits.len() && ssa::binding_of(#[trigger] exits[i], key) != b;
        assert(bindings_at(exits, key).contains(ssa::binding_of(exits[i], key)));
        if !ssa::changes(events, key) {
            lemma_unchanged_exit(events, id, base, exits, key, i);
        }
        assert(bindings_at(exits, key) != set![b]);
        assert(bindings_at(exits, key) != Set::<Option<usize>>::empty());
    }
    if exits_change(events, id, key) {
        assert(bindings_at(exits, key) != set![b] && bindings_at(exits, key) != Set::<Option<usize>>::empty());
        if forall|i: int| 0 <= i < exits.len() ==> ssa::binding_of(#[trigger] exits[i], key) == b {
            if exits.len() == 0 {
                assert(bindings_at(exits, key) =~= Set::empty());
            } else {
                assert(ssa::binding_of(exits[0], key) == b);
                assert(bindings_at(exits, key) =~= set![b]);
            }
        }
    }
}

proof fn lemma_unchanged_exit(events: Seq<StateRevisionEvent>, id: usize, base: Map<u64, usize>, exits: Seq<Map<u64, usize>>, key: u64, i: int)
    requires
        exits_follow(events, id, base, exits),
        !ssa::changes(events, key),
        0 <= i < exits.len(),
    ensures
        ssa::binding_of(exits[i], key) == ssa::binding_of(base, key),
    decreases events.len(),
{
    let before = events.drop_last();
    assert(!ssa::changes(before, key)) by {
        if ssa::changes(before, key) {
            let k = choose|k: int|
                0 <= k < before.len() && ((#[trigger] before[k]) matches StateRevisionEvent::Change { key: changed, .. } && changed == key);
            assert(events[k] == before[k]);
        }
    }
    if events.last() == StateRevisionEvent::Exit(id) {
        if i == exits.len() - 1 {
            lemma_unchanged_value(before, key, ssa::binding_of(base, key));
        } else {
            lemma_unchanged_exit(before, id, base, exits.drop_last(), key, i);
        }
    } else {
        lemma_unchanged_exit(before, id, base, exits, key, i);
    }
}

proof fn lemma_unchanged_value(events: Seq<StateRevisionEvent>, key: u64, base: Option<usize>)
    requires
        !ssa::changes(events, key),
    ensures
        ssa::value_after(events, key, base) == base,
    decreases events.len(),
{
    if events.len() > 0 {
        let before = events.drop_last();
        assert(!ssa::changes(before, key)) by {
            if ssa::changes(before, key) {
                let k = choose|k: int|
                    0 <= k < before.len() && ((#[trigger] before[k]) matches StateRevisionEvent::Change { key: changed, .. } && changed == key);
                assert(events[k] == before[k]);
            }
        }
        lemma_unchanged_value(before, key, base);
        assert(!(events[events.len() - 1] matches StateRevisionEvent::Change { key: changed, .. } && changed == key));
    }
}

} // verus!
