//! Rolling back, merging and recording branch states.
use vstd::prelude::*;
use crate::arena::PathNode;
use crate::order;
use crate::order::{sort_dedup, Ordered};
use crate::ssa;
use crate::ssa::{Binding, BranchState, Checkpoint, SsaStore, Undo, Version};

verus! {

/// The branch state lists exactly the bindings of `current` that `base` does not have.
pub open spec fn lists_changes(
    bindings: Seq<Binding>,
    current: Map<u64, usize>,
    base: Map<u64, usize>,
) -> bool {
    forall|key: u64, version: usize| #[trigger]
        ssa::bound(bindings, key, version) <==> ssa::binding_of(current, key) == Some(version)
            && ssa::binding_of(base, key) != Some(version)
}

/// A key whose binding differs from the saved one was bound since.
proof fn lemma_touched(current: Map<u64, usize>, undo: Seq<Undo>, from: int, key: u64)
    requires
        0 <= from <= undo.len(),
        forall|i: int| from <= i < undo.len() ==> (#[trigger] undo[i]).key != key,
    ensures
        ssa::binding_of(ssa::undone(current, undo, from), key) == ssa::binding_of(current, key),
    decreases undo.len(),
{
    if undo.len() > from {
        let last = undo.last();
        assert(undo[undo.len() - 1].key != key);
        let before = match last.previous {
            Some(version) => current.insert(last.key, version),
            None => current.remove(last.key),
        };
        assert forall|i: int| from <= i < undo.drop_last().len() implies (#[trigger] undo.drop_last()[i]).key != key by {
            assert(undo[i].key != key);
        }
        lemma_touched(before, undo.drop_last(), from, key);
    }
}

/// The keys of the undo entries from `start` on, ascending and each once.
fn touched_keys(undo: &Vec<Undo>, start: usize) -> (r: Vec<u64>)
    requires
        start <= undo@.len(),
    ensures
        order::strictly_sorted(r@),
        forall|k: u64| #[trigger]
            r@.contains(k) <==> exists|i: int|
                start <= i < undo@.len() && (#[trigger] undo@[i]).key == k,
{
    let mut keys: Vec<u64> = Vec::new();
    let mut i: usize = start;
    while i < undo.len()
        invariant
            start <= i <= undo.len(),
            keys@.len() == i - start,
            forall|k: int| 0 <= k < keys@.len() ==> #[trigger] keys@[k] == undo@[k + start].key,
        decreases undo.len() - i,
    {
        keys.push(undo[i].key);
        i = i + 1;
    }
    let r = sort_dedup(&keys);
    proof {
        assert forall|k: u64| #[trigger] r@.contains(k) <==> exists|i: int|
            start <= i < undo@.len() && (#[trigger] undo@[i]).key == k by {
            assert(r@.contains(k) <==> keys@.contains(k));
            if keys@.contains(k) {
                let m = choose|m: int| 0 <= m < keys@.len() && keys@[m] == k;
                assert(undo@[m + start].key == k);
            }
            if exists|i: int| start <= i < undo@.len() && (#[trigger] undo@[i]).key == k {
                let m = choose|i: int| start <= i < undo@.len() && (#[trigger] undo@[i]).key == k;
                assert(keys@[m - start] == k);
            }
        }
    }
    r
}

impl SsaStore {
    /// The current bindings of `keys`, in order.
    fn bindings_of(&self, keys: &Vec<u64>) -> (r: Vec<Binding>)
        requires
            order::strictly_sorted(keys@),
        ensures
            ssa::states_sorted(r@),
            forall|key: u64, version: usize| #[trigger]
                ssa::bound(r@, key, version) <==> keys@.contains(key) && ssa::binding_of(
                    self.current@,
                    key,
                ) == Some(version),
    {
        let mut r: Vec<Binding> = Vec::new();
        let mut i: usize = 0;
        while i < keys.len()
            invariant
                i <= keys.len(),
                order::strictly_sorted(keys@),
                ssa::states_sorted(r@),
                forall|k: int| 0 <= k < r@.len() ==> keys@.take(i as int).contains((#[trigger] r@[k]).key),
                forall|key: u64, version: usize| #[trigger]
                    ssa::bound(r@, key, version) <==> keys@.take(i as int).contains(key)
                        && ssa::binding_of(self.current@, key) == Some(version),
            decreases keys.len() - i,
        {
            let key: u64 = keys[i];
            let ghost before = r@;
            let ghost taken = keys@.take(i as int);
            let ghost next = keys@.take(i as int + 1);
            proof {
                assert(next =~= taken.push(key));
                assert forall|k: u64| next.contains(k) <==> taken.contains(k) || k == key by {
                    crate::remap::lemma_contains_push(taken, key, k);
                }
                assert forall|k: u64| #[trigger] taken.contains(k) implies k < key by {
                    let m = choose|m: int| 0 <= m < taken.len() && taken[m] == k;
                    assert(keys@[m].lt(keys@[i as int]));
                }
            }
            if let Some(version) = self.current.get(&key) {
                let added = Binding { key, version: *version };
                r.push(added);
                proof {
                    assert forall|a: int, b: int| 0 <= a < b < r@.len() implies (#[trigger] r@[a]).key < (#[trigger] r@[b]).key by {
                        if b == before.len() {
                            assert(taken.contains(before[a].key));
                        }
                    }
                    assert forall|k: u64, v: usize| #[trigger] ssa::bound(r@, k, v) <==> next.contains(k) && ssa::binding_of(self.current@, k) == Some(v) by {
                        crate::remap::lemma_contains_push(before, added, Binding { key: k, version: v });
                        assert(ssa::bound(before, k, v) <==> taken.contains(k) && ssa::binding_of(self.current@, k) == Some(v));
                    }
                }
            } else {
                proof {
                    assert forall|k: u64, v: usize| #[trigger] ssa::bound(r@, k, v) <==> next.contains(k) && ssa::binding_of(self.current@, k) == Some(v) by {
                        assert(ssa::bound(before, k, v) <==> taken.contains(k) && ssa::binding_of(self.current@, k) == Some(v));
                    }
                }
            }
            proof {
                assert forall|k: int| 0 <= k < r@.len() implies next.contains((#[trigger] r@[k]).key) by {
                    if k < before.len() {
                        assert(taken.contains(before[k].key));
                    }
                }
            }
            i = i + 1;
        }
        assert(keys@.take(i as int) =~= keys@);
        r
    }

    /// Closes the innermost checkpoint: the bindings are again what they were, and what had
    /// changed is returned.
    pub fn capture_and_rollback(&mut self, checkpoint: Checkpoint) -> (r: BranchState)
        requires
            old(self).wf(),
            old(self).open_checkpoint(checkpoint),
            checkpoint.depth + 1 == old(self).checkpoints@.len(),
        ensures
            final(self).wf(),
            r.wf(),
            ssa::same_versions(*old(self), *final(self)),
            final(self).current@ == old(self).saved(checkpoint.depth as int),
            lists_changes(
                r.bindings@,
                old(self).current@,
                old(self).saved(checkpoint.depth as int),
            ),
            final(self).checkpoints@ == old(self).checkpoints@.drop_last(),
            forall|depth: int|
                0 <= depth < final(self).checkpoints@.len() ==> #[trigger] final(self).saved(depth)
                    == old(self).saved(depth),
            final(self).active_revisions == old(self).active_revisions,
            final(self).next_revision_id == old(self).next_revision_id,
            ssa::records(*old(self), *final(self)),
            ssa::keeps_guards(*old(self), *final(self)),
            forall|i: int|
                0 <= i < r.bindings@.len() ==> (#[trigger] r.bindings@[i]).version < final(self).versions@.len(),
    {
        let ghost start = checkpoint.undo_start as int;
        let ghost base = self.saved(checkpoint.depth as int);
        let keys = touched_keys(&self.undo, checkpoint.undo_start);
        let captured = self.bindings_of(&keys);
        let ghost current0 = self.current@;
        let ghost undo0 = self.undo@;
        self.checkpoints.pop();
        proof {
            assert(self.checkpoints@ =~= old(self).checkpoints@.drop_last());
            assert(self.undo@.take(undo0.len() as int) =~= undo0);
        }
        while self.undo.len() > checkpoint.undo_start
            invariant
                old(self).wf(),
                start == checkpoint.undo_start,
                start <= self.undo@.len(),
                self.versions == old(self).versions,
                self.entries == old(self).entries,
                self.graphs == old(self).graphs,
                self.imports == old(self).imports,
                self.checkpoints@ == old(self).checkpoints@.drop_last(),
                old(self).open_checkpoint(checkpoint),
                checkpoint.depth + 1 == old(self).checkpoints@.len(),
                self.active_revisions == old(self).active_revisions,
                self.next_revision_id == old(self).next_revision_id,
                ssa::records(*old(self), *self),
                undo0 == old(self).undo@,
                current0 == old(self).current@,
                self.undo@.len() <= undo0.len(),
                self.undo@ == undo0.take(self.undo@.len() as int),
                forall|from: int|
                    0 <= from <= start ==> #[trigger] ssa::undone(self.current@, self.undo@, from)
                        == ssa::undone(current0, undo0, from),
                forall|k: u64| #[trigger]
                    self.current@.contains_key(k) ==> self.current@[k] < self.versions@.len(),
                self.active_revisions@.len() > 0 ==> ssa::events_follow(
                    self.revision_events@,
                    self.current@,
                ) && ssa::events_below(self.revision_events@, self.versions@.len() as int),
            decreases self.undo@.len(),
        {
            let ghost undo1 = self.undo@;
            let ghost current1 = self.current@;
            let ghost store1 = *self;
            let undo = match self.undo.pop() {
                Some(undo) => undo,
                None => Undo { key: 0, previous: None },
            };
            proof {
                assert(undo == undo1.last());
                assert(undo0[undo1.len() - 1] == undo);
                assert(self.undo@ =~= undo1.drop_last());
                assert(self.undo@ =~= undo0.take(self.undo@.len() as int));
            }
            let current: Option<usize> = match self.current.get(&undo.key) {
                Some(version) => Some(*version),
                None => None,
            };
            if let Some(previous) = undo.previous {
                self.current.insert(undo.key, previous);
            } else {
                self.current.remove(&undo.key);
            }
            let ghost current2 = self.current@;
            proof {
                assert forall|from: int| 0 <= from <= start implies #[trigger] ssa::undone(self.current@, self.undo@, from)
                    == ssa::undone(current0, undo0, from) by {
                    assert(ssa::undone(current1, undo1, from) == ssa::undone(current0, undo0, from));
                    if let Some(previous) = undo.previous {
                        assert(current2 =~= current1.insert(undo.key, previous));
                    } else {
                        assert(current2 =~= current1.remove(undo.key));
                    }
                }
                assert(current == ssa::binding_of(current1, undo.key));
                assert(undo.previous == ssa::binding_of(current2, undo.key));
                assert forall|k: u64| k != undo.key implies #[trigger] ssa::binding_of(current2, k) == ssa::binding_of(current1, k) by {}
                if self.active_revisions@.len() > 0 {
                    ssa::lemma_events_push(self.revision_events@, current1, current2, undo.key);
                }
            }
            self.record_revision_change(undo.key, current, undo.previous);
            proof {
                assert forall|k: u64| k != undo.key implies #[trigger] ssa::binding_of(self.current@, k) == ssa::binding_of(store1.current@, k) by {}
                ssa::lemma_change_noted(store1, *self, undo.key);
                ssa::records_is_transitive(*old(self), store1, *self);
            }
        }
        proof {
            assert(ssa::undone(self.current@, self.undo@, start) == self.current@);
            assert(self.current@ == base);
            assert forall|depth: int| 0 <= depth < self.checkpoints@.len() implies #[trigger] self.saved(depth) == old(self).saved(depth) by {
                assert(old(self).checkpoints@[depth] <= old(self).checkpoints@[checkpoint.depth as int]);
            }
            assert forall|i: int| 0 <= i < self.undo@.len() implies ((#[trigger] self.undo@[i]).previous matches Some(v) ==> v < self.versions@.len()) by {
                assert(undo0[i] == self.undo@[i]);
            }
            assert forall|i: int| 0 <= i < self.checkpoints@.len() implies (#[trigger] self.checkpoints@[i]) <= self.undo@.len() by {
                assert(old(self).checkpoints@[i] <= old(self).checkpoints@[checkpoint.depth as int]);
            }
            assert forall|i: int, j: int| 0 <= i <= j < self.checkpoints@.len() implies #[trigger] self.checkpoints@[i] <= #[trigger] self.checkpoints@[j] by {
                assert(old(self).checkpoints@[i] <= old(self).checkpoints@[j]);
            }
        }
        let mut bindings: Vec<Binding> = Vec::new();
        let mut i: usize = 0;
        while i < captured.len()
            invariant
                i <= captured.len(),
                ssa::states_sorted(captured@),
                ssa::states_sorted(bindings@),
                forall|k: int| 0 <= k < bindings@.len() ==> captured@.take(i as int).contains(#[trigger] bindings@[k]),
                forall|b: Binding| #[trigger]
                    bindings@.contains(b) <==> captured@.take(i as int).contains(b)
                        && ssa::binding_of(self.current@, b.key) != Some(b.version),
            decreases captured.len() - i,
        {
            let binding = captured[i];
            let ghost before = bindings@;
            let ghost taken = captured@.take(i as int);
            let ghost next = captured@.take(i as int + 1);
            proof {
                assert(next =~= taken.push(binding));
                assert forall|b: Binding| #[trigger] taken.contains(b) implies b.key < binding.key by {
                    let m = choose|m: int| 0 <= m < taken.len() && taken[m] == b;
                    assert(captured@[m].key < captured@[i as int].key);
                }
            }
            let restored: Option<usize> = match self.current.get(&binding.key) {
                Some(version) => Some(*version),
                None => None,
            };
            if restored != Some(binding.version) {
                bindings.push(binding);
                proof {
                    assert forall|a: int, b: int| 0 <= a < b < bindings@.len() implies (#[trigger] bindings@[a]).key < (#[trigger] bindings@[b]).key by {
                        if b == before.len() {
                            assert(taken.contains(before[a]));
                        }
                    }
                }
            }
            proof {
                assert forall|b: Binding| #[trigger] bindings@.contains(b) <==> next.contains(b) && ssa::binding_of(self.current@, b.key) != Some(b.version) by {
                    crate::remap::lemma_contains_push(taken, binding, b);
                    crate::remap::lemma_contains_push(before, binding, b);
                    assert(before.contains(b) <==> taken.contains(b) && ssa::binding_of(self.current@, b.key) != Some(b.version));
                }
                assert forall|k: int| 0 <= k < bindings@.len() implies next.contains(#[trigger] bindings@[k]) by {
                    assert(bindings@.contains(bindings@[k]));
                }
            }
            i = i + 1;
        }
        proof {
            assert(captured@.take(i as int) =~= captured@);
            assert forall|key: u64, version: usize| #[trigger] ssa::bound(bindings@, key, version) <==> ssa::binding_of(current0, key) == Some(version)
                && ssa::binding_of(base, key) != Some(version) by {
                let b = Binding { key, version };
                assert(bindings@.contains(b) <==> captured@.contains(b) && ssa::binding_of(base, key) != Some(version));
                assert(ssa::bound(captured@, key, version) <==> keys@.contains(key) && ssa::binding_of(current0, key) == Some(version));
                if ssa::binding_of(current0, key) == Some(version) && ssa::binding_of(base, key) != Some(version) {
                    if !keys@.contains(key) {
                        assert forall|m: int| start <= m < undo0.len() implies (#[trigger] undo0[m]).key != key by {}
                        lemma_touched(current0, undo0, start, key);
                    }
                }
            }
            assert forall|k: int| 0 <= k < bindings@.len() implies (#[trigger] bindings@[k]).version < self.versions@.len() by {
                assert(bindings@.contains(bindings@[k]));
                assert(ssa::bound(bindings@, bindings@[k].key, bindings@[k].version));
                assert(current0.contains_key(bindings@[k].key));
            }
        }
        BranchState { bindings }
    }

    /// What has been bound since an open checkpoint, without closing it.
    pub fn snapshot_since(&self, checkpoint: Checkpoint) -> (r: BranchState)
        requires
            self.wf(),
            self.open_checkpoint(checkpoint),
        ensures
            r.wf(),
            forall|key: u64, version: usize| #[trigger]
                ssa::bound(r.bindings@, key, version) <==> ssa::binding_of(self.current@, key)
                    == Some(version) && exists|i: int|
                    checkpoint.undo_start <= i < self.undo@.len() && (#[trigger] self.undo@[i]).key
                        == key,
            forall|key: u64|
                !ssa::binds(r.bindings@, key) && self.current@.contains_key(key)
                    ==> #[trigger] ssa::binding_of(self.saved(checkpoint.depth as int), key)
                    == ssa::binding_of(self.current@, key),
    {
        let keys = touched_keys(&self.undo, checkpoint.undo_start);
        let bindings = self.bindings_of(&keys);
        proof {
            assert forall|key: u64| !ssa::binds(bindings@, key) && self.current@.contains_key(key) implies #[trigger] ssa::binding_of(
                self.saved(checkpoint.depth as int),
                key,
            ) == ssa::binding_of(self.current@, key) by {
                if keys@.contains(key) {
                    assert(ssa::bound(bindings@, key, self.current@[key]));
                    let m = choose|m: int| 0 <= m < bindings@.len() && bindings@[m] == (Binding { key, version: self.current@[key] });
                    assert(bindings@[m].key == key);
                }
                assert forall|m: int| checkpoint.undo_start <= m < self.undo@.len() implies (#[trigger] self.undo@[m]).key != key by {}
                lemma_touched(self.current@, self.undo@, checkpoint.undo_start as int, key);
            }
        }
        BranchState { bindings }
    }
}

/// One binding of one of the states to merge.
#[derive(Clone, Copy, Debug, PartialEq, Eq, Hash, Structural)]
struct MergeItem {
    key: u64,
    state: usize,
    version: usize,
}

impl Ordered for MergeItem {
    closed spec fn lt(self, other: Self) -> bool {
        if self.key != other.key {
            self.key < other.key
        } else if self.state != other.state {
            self.state < other.state
        } else {
            self.version < other.version
        }
    }

    proof fn lt_irreflexive(a: Self) {
    }

    proof fn lt_transitive(a: Self, b: Self, c: Self) {
    }

    proof fn lt_total(a: Self, b: Self) {
    }

    fn less(self, other: Self) -> (r: bool) {
        if self.key != other.key {
            self.key < other.key
        } else if self.state != other.state {
            self.state < other.state
        } else {
            self.version < other.version
        }
    }
}

/// Some state changes `key`.
pub open spec fn some_binds(states: Seq<BranchState>, key: u64) -> bool {
    exists|i: int| 0 <= i < states.len() && ssa::binds((#[trigger] states[i]).bindings@, key)
}

/// Every state changes `key`.
pub open spec fn all_bind(states: Seq<BranchState>, key: u64) -> bool {
    forall|i: int| 0 <= i < states.len() ==> ssa::binds((#[trigger] states[i]).bindings@, key)
}

/// The versions that the states give `key`.
pub open spec fn state_versions(states: Seq<BranchState>, key: u64) -> Set<usize> {
    Set::new(
        |v: usize|
            exists|i: int|
                0 <= i < states.len() && ssa::bound((#[trigger] states[i]).bindings@, key, v),
    )
}

/// The versions that `key` may have after a merge: those of the states, and the one that it has
/// without them where some state leaves it alone.
pub open spec fn merge_inputs(
    states: Seq<BranchState>,
    current: Map<u64, usize>,
    entries: Map<u64, usize>,
    key: u64,
) -> Set<usize> {
    if all_bind(states, key) {
        state_versions(states, key)
    } else if current.contains_key(key) {
        state_versions(states, key).insert(current[key])
    } else {
        state_versions(states, key).insert(entries[key])
    }
}

/// `key` is bound as a merge of `states` over `current` asks.
pub open spec fn merged_key(
    states: Seq<BranchState>,
    current: Map<u64, usize>,
    store: SsaStore,
    key: u64,
) -> bool {
    &&& store.current@.contains_key(key)
    &&& !current.contains_key(key) ==> store.entries@.contains_key(key)
    &&& ssa::is_phi(
        store.versions@,
        merge_inputs(states, current, store.entries@, key),
        store.current@[key],
    )
}

/// The items list exactly the bindings of the states.
spec fn lists_states(items: Seq<MergeItem>, states: Seq<BranchState>) -> bool {
    forall|item: MergeItem| #[trigger]
        items.contains(item) <==> item.state < states.len() && ssa::bound(
            states[item.state as int].bindings@,
            item.key,
            item.version,
        )
}

fn flatten_states(states: &Vec<BranchState>) -> (r: Vec<MergeItem>)
    ensures
        order::strictly_sorted(r@),
        lists_states(r@, states@),
{
    let mut items: Vec<MergeItem> = Vec::new();
    let mut i: usize = 0;
    while i < states.len()
        invariant
            i <= states.len(),
            forall|item: MergeItem| #[trigger]
                items@.contains(item) <==> item.state < i && ssa::bound(
                    states@[item.state as int].bindings@,
                    item.key,
                    item.version,
                ),
        decreases states.len() - i,
    {
        let bindings = &states[i].bindings;
        let ghost outer = items@;
        let mut k: usize = 0;
        while k < bindings.len()
            invariant
                k <= bindings.len(),
                i < states.len(),
                *bindings == states@[i as int].bindings,
                forall|item: MergeItem| #[trigger]
                    outer.contains(item) <==> item.state < i && ssa::bound(
                        states@[item.state as int].bindings@,
                        item.key,
                        item.version,
                    ),
                forall|item: MergeItem| #[trigger]
                    items@.contains(item) <==> outer.contains(item) || (item.state == i
                        && bindings@.take(k as int).contains(
                        Binding { key: item.key, version: item.version },
                    )),
            decreases bindings.len() - k,
        {
            let ghost before = items@;
            let binding = bindings[k];
            let added = MergeItem { key: binding.key, state: i, version: binding.version };
            items.push(added);
            proof {
                let taken = bindings@.take(k as int);
                assert(bindings@.take(k as int + 1) =~= taken.push(binding));
                assert forall|item: MergeItem| #[trigger] items@.contains(item) <==> outer.contains(item) || (item.state == i
                    && bindings@.take(k as int + 1).contains(Binding { key: item.key, version: item.version })) by {
                    crate::remap::lemma_contains_push(before, added, item);
                    crate::remap::lemma_contains_push(taken, binding, Binding { key: item.key, version: item.version });
                }
            }
            k = k + 1;
        }
        proof {
            assert(bindings@.take(k as int) =~= bindings@);
        }
        i = i + 1;
    }
    let r = sort_dedup(&items);
    proof {
        assert forall|item: MergeItem| #[trigger] r@.contains(item) <==> item.state < states.len() && ssa::bound(
            states@[item.state as int].bindings@,
            item.key,
            item.version,
        ) by {
            assert(r@.contains(item) <==> items@.contains(item));
        }
    }
    r
}

/// Adding versions does not change what a merge of versions is.
pub proof fn lemma_is_phi_grows(a: Seq<Version>, b: Seq<Version>, inputs: Set<usize>, version: usize)
    requires
        ssa::is_phi(a, inputs, version),
        ssa::versions_grow(a, b),
    ensures
        ssa::is_phi(b, inputs, version),
{
    assert(a[version as int] == b[version as int]);
}

/// The group of items with one key tells which versions it has and whether every state has one.
proof fn lemma_group(
    items: Seq<MergeItem>,
    states: Seq<BranchState>,
    low: int,
    high: int,
    key: u64,
    complete: bool,
)
    requires
        order::strictly_sorted(items),
        lists_states(items, states),
        states.len() <= usize::MAX,
        0 <= low < high <= items.len(),
        forall|i: int| low <= i < high ==> (#[trigger] items[i]).key == key,
        forall|i: int| 0 <= i < low ==> (#[trigger] items[i]).key < key,
        forall|i: int| high <= i < items.len() ==> (#[trigger] items[i]).key > key,
        forall|i: int| 0 <= i < states.len() ==> (#[trigger] states[i]).wf(),
        complete == (high - low == states.len() && forall|i: int|
            low <= i < high ==> (#[trigger] items[i]).state == i - low),
    ensures
        complete == all_bind(states, key),
        some_binds(states, key),
        forall|v: usize| #[trigger]
            state_versions(states, key).contains(v) <==> exists|i: int|
                low <= i < high && (#[trigger] items[i]).version == v,
{
    assert forall|i: int| low <= i < high implies (#[trigger] items[i]).state < states.len() && ssa::bound(
        states[items[i].state as int].bindings@,
        key,
        items[i].version,
    ) && ssa::binds(states[items[i].state as int].bindings@, key) by {
        assert(items.contains(items[i]));
        let bindings = states[items[i].state as int].bindings@;
        let m = choose|m: int| 0 <= m < bindings.len() && bindings[m] == (Binding { key, version: items[i].version });
        assert(bindings[m].key == key);
    }
    assert(items[low].state < states.len());
    assert forall|s: int| 0 <= s < states.len() && ssa::binds((#[trigger] states[s]).bindings@, key) implies exists|i: int|
        low <= i < high && (#[trigger] items[i]).state == s by {
        let bindings = states[s].bindings@;
        let m = choose|m: int| 0 <= m < bindings.len() && (#[trigger] bindings[m]).key == key;
        let item = MergeItem { key, state: s as usize, version: bindings[m].version };
        assert(bindings[m] == Binding { key, version: bindings[m].version });
        lemma_state_index(items, states, s, key, bindings[m].version);
        let i = choose|i: int| 0 <= i < items.len() && items[i] == item;
        assert(low <= i < high);
        assert(items[i].state == s);
    }
    assert forall|v: usize| #[trigger] state_versions(states, key).contains(v) <==> exists|i: int|
        low <= i < high && (#[trigger] items[i]).version == v by {
        if state_versions(states, key).contains(v) {
            let s = choose|s: int| 0 <= s < states.len() && ssa::bound((#[trigger] states[s]).bindings@, key, v);
            lemma_state_index(items, states, s, key, v);
            let item = MergeItem { key, state: s as usize, version: v };
            let i = choose|i: int| 0 <= i < items.len() && items[i] == item;
            assert(low <= i < high);
            assert(items[i].version == v);
        }
        if exists|i: int| low <= i < high && (#[trigger] items[i]).version == v {
            let i = choose|i: int| low <= i < high && (#[trigger] items[i]).version == v;
            assert(ssa::bound(states[items[i].state as int].bindings@, key, v));
        }
    }
    if complete {
        assert forall|s: int| 0 <= s < states.len() implies ssa::binds((#[trigger] states[s]).bindings@, key) by {
            assert(items[low + s].state == s);
        }
    }
    if all_bind(states, key) {
        let group = Seq::new((high - low) as nat, |k: int| items[low + k].state);
        let full = Seq::new(states.len(), |k: int| k as usize);
        assert forall|a: int, b: int| 0 <= a < b < group.len() implies (#[trigger] group[a]).lt(#[trigger] group[b]) by {
            let x = items[low + a];
            let y = items[low + b];
            assert(x.lt(y));
            if x.state == y.state {
                let bindings = states[x.state as int].bindings@;
                assert(states[x.state as int].wf());
                let p = choose|p: int| 0 <= p < bindings.len() && bindings[p] == (Binding { key, version: x.version });
                let q = choose|q: int| 0 <= q < bindings.len() && bindings[q] == (Binding { key, version: y.version });
                if p < q {
                    assert(bindings[p].key < bindings[q].key);
                } else if q < p {
                    assert(bindings[q].key < bindings[p].key);
                }
            }
        }
        assert forall|a: int, b: int| 0 <= a < b < full.len() implies (#[trigger] full[a]).lt(#[trigger] full[b]) by {}
        assert forall|x: usize| #[trigger] group.contains(x) <==> full.contains(x) by {
            if group.contains(x) {
                let k = choose|k: int| 0 <= k < group.len() && group[k] == x;
                assert(items[low + k].state < states.len());
                assert(full[x as int] == x);
            }
            if full.contains(x) {
                let k = choose|k: int| 0 <= k < full.len() && full[k] == x;
                assert(ssa::binds(states[k].bindings@, key));
                let i = choose|i: int| low <= i < high && (#[trigger] items[i]).state == k;
                assert(group[i - low] == x);
            }
        }
        order::sorted_list_is_canonical(group, full);
        assert forall|i: int| low <= i < high implies (#[trigger] items[i]).state == i - low by {
            assert(group[i - low] == full[i - low]);
        }
    }
}

proof fn lemma_state_index(items: Seq<MergeItem>, states: Seq<BranchState>, s: int, key: u64, v: usize)
    requires
        lists_states(items, states),
        states.len() <= usize::MAX,
        0 <= s < states.len(),
        ssa::bound(states[s].bindings@, key, v),
    ensures
        items.contains(MergeItem { key, state: s as usize, version: v }),
{
    let item = MergeItem { key, state: s as usize, version: v };
    assert(items.contains(item));
}

impl SsaStore {
    /// Joins alternative states: a key that some state changes becomes one of the versions that
    /// it may have.
    pub fn merge(&mut self, states: &Vec<BranchState>)
        requires
            old(self).wf(),
            forall|i: int| 0 <= i < states@.len() ==> (#[trigger] states@[i]).wf(),
            forall|i: int, k: int|
                0 <= i < states@.len() && 0 <= k < states@[i].bindings@.len() ==> (
                #[trigger] states@[i].bindings@[k]).version < old(self).versions@.len(),
        ensures
            final(self).wf(),
            ssa::versions_grow(old(self).versions@, final(self).versions@),
            forall|key: u64|
                some_binds(states@, key) ==> #[trigger] merged_key(
                    states@,
                    old(self).current@,
                    *final(self),
                    key,
                ),
            forall|key: u64|
                !some_binds(states@, key) ==> #[trigger] ssa::binding_of(final(self).current@, key)
                    == ssa::binding_of(old(self).current@, key),
            final(self).checkpoints@ == old(self).checkpoints@,
            forall|depth: int|
                0 <= depth < old(self).checkpoints@.len() ==> #[trigger] final(self).saved(depth)
                    == old(self).saved(depth),
            final(self).graphs == old(self).graphs,
            final(self).imports == old(self).imports,
            ssa::records(*old(self), *final(self)),
            ssa::keeps_guards(*old(self), *final(self)),
    {
        let items = flatten_states(states);
        let count: usize = states.len();
        let ghost current0 = self.current@;
        let ghost store0 = *self;
        let mut low: usize = 0;
        proof {
            assert forall|i: int| 0 <= i < items@.len() implies (#[trigger] items@[i]).version < self.versions@.len() by {
                assert(items@.contains(items@[i]));
                let bindings = states@[items@[i].state as int].bindings@;
                let m = choose|m: int| 0 <= m < bindings.len() && bindings[m] == (Binding { key: items@[i].key, version: items@[i].version });
                assert(states@[items@[i].state as int].bindings@[m].version < self.versions@.len());
            }
        }
        while low < items.len()
            invariant
                low <= items.len(),
                count == states@.len(),
                order::strictly_sorted(items@),
                lists_states(items@, states@),
                forall|i: int| 0 <= i < states@.len() ==> (#[trigger] states@[i]).wf(),
                forall|i: int|
                    0 <= i < items@.len() ==> (#[trigger] items@[i]).version < store0.versions@.len(),
                low < items.len() ==> forall|i: int|
                    0 <= i < low ==> (#[trigger] items@[i]).key < items@[low as int].key,
                self.wf(),
                store0 == *old(self),
                current0 == store0.current@,
                ssa::versions_grow(store0.versions@, self.versions@),
                forall|i: int|
                    0 <= i < low ==> merged_key(
                        states@,
                        current0,
                        *self,
                        (#[trigger] items@[i]).key,
                    ),
                forall|key: u64|
                    (forall|i: int| 0 <= i < low ==> (#[trigger] items@[i]).key != key)
                        ==> #[trigger] ssa::binding_of(self.current@, key) == ssa::binding_of(
                        current0,
                        key,
                    ),
                self.checkpoints@ == store0.checkpoints@,
                forall|depth: int|
                    0 <= depth < store0.checkpoints@.len() ==> #[trigger] self.saved(depth)
                        == store0.saved(depth),
                self.graphs == store0.graphs,
                self.imports == store0.imports,
                ssa::records(store0, *self),
                ssa::keeps_guards(store0, *self),
            decreases items.len() - low,
        {
            let key: u64 = items[low].key;
            let mut inputs: Vec<usize> = Vec::new();
            let mut high: usize = low;
            let mut complete = true;
            while high < items.len() && items[high].key == key
                invariant
                    low <= high <= items.len(),
                    low < items.len(),
                    key == items@[low as int].key,
                    order::strictly_sorted(items@),
                    inputs@.len() == high - low,
                    forall|i: int| low <= i < high ==> (#[trigger] items@[i]).key == key,
                    forall|i: int| 0 <= i < inputs@.len() ==> #[trigger] inputs@[i] == items@[low + i].version,
                    forall|i: int|
                        0 <= i < items@.len() ==> (#[trigger] items@[i]).version < store0.versions@.len(),
                    ssa::versions_grow(store0.versions@, self.versions@),
                    complete == forall|i: int| low <= i < high ==> (#[trigger] items@[i]).state == i - low,
                decreases items.len() - high,
            {
                if items[high].state != high - low {
                    complete = false;
                }
                inputs.push(items[high].version);
                high = high + 1;
            }
            if high - low != count {
                complete = false;
            }
            proof {
                assert(high > low);
                assert forall|i: int| high <= i < items@.len() implies (#[trigger] items@[i]).key > key by {
                    assert(items@[high as int].key != key);
                    assert(items@[low as int].lt(items@[high as int]));
                    if i > high {
                        assert(items@[high as int].lt(items@[i]));
                    }
                }
                assert forall|i: int| 0 <= i < low implies (#[trigger] items@[i]).key < key by {}
                lemma_group(items@, states@, low as int, high as int, key, complete);
            }
            let ghost before = *self;
            let fallback: usize = match self.current.get(&key) {
                Some(version) => *version,
                None => self.entry(key),
            };
            let ghost mid = *self;
            let ghost versions = state_versions(states@, key);
            proof {
                assert forall|x: usize| inputs@.contains(x) <==> versions.contains(x) by {
                    if inputs@.contains(x) {
                        let k = choose|k: int| 0 <= k < inputs@.len() && inputs@[k] == x;
                        assert(items@[low + k].version == x);
                    }
                    if versions.contains(x) {
                        let i = choose|i: int| low <= i < high && (#[trigger] items@[i]).version == x;
                        assert(inputs@[i - low] == x);
                    }
                }
                assert(ssa::binding_of(before.current@, key) == ssa::binding_of(current0, key)) by {
                    assert forall|i: int| 0 <= i < low implies (#[trigger] items@[i]).key != key by {}
                }
                assert forall|i: int| 0 <= i < inputs@.len() implies (#[trigger] inputs@[i]) < self.versions@.len() by {
                    assert(items@[low + i].version < store0.versions@.len());
                }
            }
            let ghost listed = inputs@;
            if !complete {
                inputs.push(fallback);
            }
            proof {
                let wanted = merge_inputs(states@, current0, mid.entries@, key);
                assert(inputs@.to_set() =~= wanted) by {
                    assert forall|x: usize| #[trigger] inputs@.to_set().contains(x) <==> wanted.contains(x) by {
                        assert(listed.contains(x) <==> versions.contains(x));
                        if !complete {
                            crate::remap::lemma_contains_push(listed, fallback, x);
                        }
                        assert(inputs@.to_set().contains(x) <==> inputs@.contains(x));
                    }
                }
            }
            let version = self.phi(&inputs);
            let ghost joined = *self;
            self.bind(key, version);
            proof {
                ssa::records_is_transitive(store0, before, joined);
                ssa::records_is_transitive(store0, joined, *self);
                assert(ssa::is_phi(self.versions@, merge_inputs(states@, current0, mid.entries@, key), version));
                assert(merged_key(states@, current0, *self, key));
                assert forall|i: int| 0 <= i < high implies merged_key(states@, current0, *self, (#[trigger] items@[i]).key) by {
                    let k = items@[i].key;
                    if i < low {
                        assert(merged_key(states@, current0, before, k));
                        assert(k < key);
                        assert(merge_inputs(states@, current0, before.entries@, k) == merge_inputs(states@, current0, self.entries@, k));
                        lemma_is_phi_grows(before.versions@, self.versions@, merge_inputs(states@, current0, before.entries@, k), before.current@[k]);
                    }
                }
                assert forall|k: u64| (forall|i: int| 0 <= i < high ==> (#[trigger] items@[i]).key != k) implies #[trigger] ssa::binding_of(self.current@, k)
                    == ssa::binding_of(current0, k) by {
                    assert(items@[low as int].key != k);
                    assert(ssa::binding_of(before.current@, k) == ssa::binding_of(current0, k));
                }
                assert forall|depth: int| 0 <= depth < store0.checkpoints@.len() implies #[trigger] self.saved(depth) == store0.saved(depth) by {
                    assert(before.saved(depth) == store0.saved(depth));
                    assert(joined.saved(depth) == before.saved(depth));
                }
                assert forall|nodes: Seq<PathNode>| #[trigger] store0.guards_in(nodes) implies self.guards_in(nodes) by {
                    assert(before.guards_in(nodes));
                    assert(mid.guards_in(nodes));
                    assert(joined.guards_in(nodes));
                }
            }
            low = high;
        }
        proof {
            assert forall|key: u64| some_binds(states@, key) implies #[trigger] merged_key(states@, current0, *self, key) by {
                lemma_some_item(items@, states@, key);
                let i = choose|i: int| 0 <= i < items@.len() && (#[trigger] items@[i]).key == key;
                assert(merged_key(states@, current0, *self, items@[i].key));
            }
            assert forall|key: u64| !some_binds(states@, key) implies #[trigger] ssa::binding_of(self.current@, key) == ssa::binding_of(current0, key) by {
                assert forall|i: int| 0 <= i < items@.len() implies (#[trigger] items@[i]).key != key by {
                    assert(items@.contains(items@[i]));
                    if items@[i].key == key {
                        let bindings = states@[items@[i].state as int].bindings@;
                        let m = choose|m: int| 0 <= m < bindings.len() && bindings[m] == (Binding { key, version: items@[i].version });
                        assert(bindings[m].key == key);
                        assert(ssa::binds(states@[items@[i].state as int].bindings@, key));
                    }
                }
            }
        }
    }
}

proof fn lemma_some_item(items: Seq<MergeItem>, states: Seq<BranchState>, key: u64)
    requires
        lists_states(items, states),
        states.len() <= usize::MAX,
        some_binds(states, key),
    ensures
        exists|i: int| 0 <= i < items.len() && (#[trigger] items[i]).key == key,
{
    let s = choose|s: int| 0 <= s < states.len() && ssa::binds((#[trigger] states[s]).bindings@, key);
    let bindings = states[s].bindings@;
    let m = choose|m: int| 0 <= m < bindings.len() && (#[trigger] bindings[m]).key == key;
    assert(bindings[m] == Binding { key, version: bindings[m].version });
    lemma_state_index(items, states, s, key, bindings[m].version);
    let i = choose|i: int| 0 <= i < items.len() && items[i] == (MergeItem { key, state: s as usize, version: bindings[m].version });
    assert(items[i].key == key);
}

} // verus!
