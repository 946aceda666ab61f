//! Applying a loop body any number of times.
use vstd::prelude::*;
use crate::arena::PathNode;
use crate::order;
use crate::order::Ordered;
use crate::remap;
use crate::revision;
use crate::ssa;
use crate::ssa::{Binding, BranchState, Checkpoint, SsaStore};
use crate::transfer;
use crate::transfer::{reachable_versions, Successors};

verus! {

/// What a key had before the loop and on which versions it may depend after iterations.
pub struct TransferEntry {
    pub key: u64,
    pub entry: usize,
    pub reached: Vec<usize>,
}

/// The closure of one abstract iteration.
pub struct RepeatedTransfer {
    /// One entry for every key that an iteration writes; the keys ascend.
    pub entries: Vec<TransferEntry>,
    pub version_start: usize,
}

/// One iteration can make what was `from` depend on `to`.
pub open spec fn iterates(
    store: SsaStore,
    bindings: Seq<Binding>,
    entries: Seq<TransferEntry>,
    start: int,
    from: usize,
    to: usize,
) -> bool {
    exists|i: int|
        0 <= i < entries.len() && (#[trigger] entries[i]).entry == from && transfer::iteration_input(
            store,
            start,
            bindings[i].version as int,
            to,
        )
}

/// `n + 1` iterations can make what was `from` depend on `to`.
pub open spec fn iterates_in(
    store: SsaStore,
    bindings: Seq<Binding>,
    entries: Seq<TransferEntry>,
    start: int,
    from: usize,
    to: usize,
    n: nat,
) -> bool
    decreases n,
{
    if n == 0 {
        iterates(store, bindings, entries, start, from, to)
    } else {
        exists|middle: usize| #[trigger]
            iterates(store, bindings, entries, start, middle, to) && iterates_in(
                store,
                bindings,
                entries,
                start,
                from,
                middle,
                (n - 1) as nat,
            )
    }
}

/// Entry `i` of the transfer starts from what its key has and reaches everything that one or
/// more iterations lead to.
pub open spec fn entry_closes(
    store: SsaStore,
    bindings: Seq<Binding>,
    transfer: RepeatedTransfer,
    i: int,
) -> bool {
    let e = transfer.entries@[i];
    &&& e.key == bindings[i].key
    &&& e.entry < store.versions@.len()
    &&& e.entry == (if store.current@.contains_key(e.key) {
        store.current@[e.key]
    } else {
        store.entries@[e.key]
    })
    &&& !store.current@.contains_key(e.key) ==> store.entries@.contains_key(e.key)
    &&& order::strictly_sorted(e.reached@)
    &&& forall|x: usize| #[trigger]
        e.reached@.contains(x) <==> exists|n: nat| #[trigger]
            iterates_in(
                store,
                bindings,
                transfer.entries@,
                transfer.version_start as int,
                e.entry,
                x,
                n,
            )
}

/// The transfer closes one iteration with the given outputs.
pub open spec fn closes(
    store: SsaStore,
    bindings: Seq<Binding>,
    transfer: RepeatedTransfer,
) -> bool {
    &&& transfer.entries@.len() == bindings.len()
    &&& forall|i: int|
        0 <= i < bindings.len() ==> #[trigger] entry_closes(store, bindings, transfer, i)
}

/// The transfer names versions of the store only.
pub open spec fn transfer_below(transfer: RepeatedTransfer, limit: int) -> bool {
    &&& forall|i: int|
        0 <= i < transfer.entries@.len() ==> (#[trigger] transfer.entries@[i]).entry < limit
    &&& forall|i: int, k: int|
        0 <= i < transfer.entries@.len() && 0 <= k < transfer.entries@[i].reached@.len() ==> (
        #[trigger] transfer.entries@[i].reached@[k]) < limit
    &&& forall|i: int, j: int|
        0 <= i < j < transfer.entries@.len() ==> (#[trigger] transfer.entries@[i]).key < (
        #[trigger] transfer.entries@[j]).key
}

/// What a version depends on does not change when versions are added.
pub proof fn lemma_inputs_survive(a: SsaStore, b: SsaStore, start: int, version: int, input: usize)
    requires
        a.wf(),
        0 <= version < a.versions@.len(),
        ssa::versions_grow(a.versions@, b.versions@),
        a.graphs == b.graphs,
        a.imports == b.imports,
    ensures
        transfer::iteration_input(a, start, version, input) == transfer::iteration_input(
            b,
            start,
            version,
            input,
        ),
    decreases version,
{
    assert(a.versions@[version] == b.versions@[version]);
    if !transfer::is_input(a, start, version) {
        assert forall|u: usize| #[trigger] transfer::feeds(a, version, u) && u < version implies transfer::iteration_input(
            a,
            start,
            u as int,
            input,
        ) == transfer::iteration_input(b, start, u as int, input) by {
            lemma_inputs_survive(a, b, start, u as int, input);
        }
        assert forall|u: usize| transfer::feeds(a, version, u) == #[trigger] transfer::feeds(b, version, u) by {}
        if transfer::iteration_input(a, start, version, input) {
            let u = choose|u: usize| #[trigger]
                transfer::feeds(a, version, u) && u < version && transfer::iteration_input(a, start, u as int, input);
            assert(transfer::feeds(b, version, u));
        }
        if transfer::iteration_input(b, start, version, input) {
            let u = choose|u: usize| #[trigger]
                transfer::feeds(b, version, u) && u < version && transfer::iteration_input(b, start, u as int, input);
            assert(transfer::feeds(a, version, u));
        }
    }
}

impl SsaStore {
    /// Closes the may-dependencies of one abstract iteration, without enumerating iterations.
    pub fn prepare_repeated_transfer(
        &mut self,
        single_iteration: &BranchState,
        checkpoint: Checkpoint,
    ) -> (r: RepeatedTransfer)
        requires
            old(self).wf(),
            single_iteration.wf(),
            forall|i: int|
                0 <= i < single_iteration.bindings@.len() ==> (
                #[trigger] single_iteration.bindings@[i]).version < old(self).versions@.len(),
        ensures
            final(self).wf(),
            ssa::same_state(*old(self), *final(self)),
            ssa::keeps_guards(*old(self), *final(self)),
            r.version_start == checkpoint.version_start,
            closes(*final(self), single_iteration.bindings@, r),
            transfer_below(r, final(self).versions@.len() as int),
    {
        let ghost bindings = single_iteration.bindings@;
        let ghost store0 = *self;
        let mut versions: Vec<usize> = Vec::new();
        let mut i: usize = 0;
        while i < single_iteration.bindings.len()
            invariant
                i <= single_iteration.bindings.len(),
                bindings == single_iteration.bindings@,
                store0 == *old(self),
                self.wf(),
                ssa::same_state(store0, *self),
                ssa::keeps_guards(store0, *self),
                versions@.len() == i,
                forall|k: int|
                    0 <= k < i ==> {
                        let key = bindings[k].key;
                        &&& (#[trigger] versions@[k]) < self.versions@.len()
                        &&& versions@[k] == (if self.current@.contains_key(key) {
                            self.current@[key]
                        } else {
                            self.entries@[key]
                        })
                        &&& !self.current@.contains_key(key) ==> self.entries@.contains_key(key)
                    },
            decreases single_iteration.bindings.len() - i,
        {
            let ghost before = *self;
            let version = self.read(single_iteration.bindings[i].key);
            proof {
                revision::lemma_same_state_trans(store0, before, *self);
                assert forall|nodes: Seq<PathNode>| #[trigger] store0.guards_in(nodes) implies self.guards_in(nodes) by {
                    assert(before.guards_in(nodes));
                }
            }
            versions.push(version);
            i = i + 1;
        }
        let limit: usize = self.versions.len();
        let start: usize = checkpoint.version_start;
        let mut successors: Vec<Successors> = Vec::new();
        let mut j: usize = 0;
        while j < single_iteration.bindings.len()
            invariant
                j <= single_iteration.bindings.len(),
                bindings == single_iteration.bindings@,
                self.wf(),
                limit == self.versions@.len(),
                versions@.len() == bindings.len(),
                ssa::versions_grow(store0.versions@, self.versions@),
                forall|k: int| 0 <= k < bindings.len() ==> (#[trigger] bindings[k]).version < store0.versions@.len(),
                successors@.len() == j,
                forall|k: int|
                    0 <= k < j ==> {
                        &&& (#[trigger] successors@[k]).version == versions@[k]
                        &&& forall|x: usize| #[trigger]
                            successors@[k].next@.contains(x) <==> transfer::iteration_input(
                                *self,
                                start as int,
                                bindings[k].version as int,
                                x,
                            )
                    },
                forall|k: int, m: int|
                    0 <= k < j && 0 <= m < successors@[k].next@.len() ==> (
                    #[trigger] successors@[k].next@[m]) < limit,
            decreases single_iteration.bindings.len() - j,
        {
            assert(bindings[j as int].version < store0.versions@.len());
            let next = self.iteration_input_versions(single_iteration.bindings[j].version, start);
            let ghost before = successors@;
            proof {
                assert forall|m: int| 0 <= m < next@.len() implies (#[trigger] next@[m]) < limit by {
                    assert(next@[m] <= bindings[j as int].version);
                }
            }
            successors.push(Successors { version: versions[j], next });
            proof {
                assert forall|k: int, m: int| 0 <= k < j + 1 && 0 <= m < successors@[k].next@.len() implies (#[trigger] successors@[k].next@[m]) < limit by {
                    if k < j {
                        assert(before[k].next@[m] < limit);
                    }
                }
            }
            j = j + 1;
        }
        let mut entries: Vec<TransferEntry> = Vec::new();
        let mut k: usize = 0;
        while k < single_iteration.bindings.len()
            invariant
                k <= single_iteration.bindings.len(),
                bindings == single_iteration.bindings@,
                limit == self.versions@.len(),
                versions@.len() == bindings.len(),
                successors@.len() == bindings.len(),
                forall|k: int| 0 <= k < bindings.len() ==> (#[trigger] successors@[k]).version == versions@[k],
                forall|k: int, m: int|
                    0 <= k < successors@.len() && 0 <= m < successors@[k].next@.len() ==> (
                    #[trigger] successors@[k].next@[m]) < limit,
                entries@.len() == k,
                forall|m: int|
                    0 <= m < k ==> {
                        &&& (#[trigger] entries@[m]).key == bindings[m].key
                        &&& entries@[m].entry == versions@[m]
                        &&& order::strictly_sorted(entries@[m].reached@)
                        &&& closure_of(successors@, versions@[m], entries@[m].reached@)
                    },
                forall|m: int, n: int|
                    0 <= m < k && 0 <= n < entries@[m].reached@.len() ==> (
                    #[trigger] entries@[m].reached@[n]) < limit,
            decreases single_iteration.bindings.len() - k,
        {
            let direct = collect_direct(&successors, versions[k], limit);
            let reached = reachable_versions(&direct, &successors, limit);
            let ghost before = entries@;
            entries.push(
                TransferEntry {
                    key: single_iteration.bindings[k].key,
                    entry: versions[k],
                    reached,
                },
            );
            proof {
                assert(direct_of(successors@, versions@[k as int], direct@));
                assert(leads_exactly(successors@, direct@, entries@[k as int].reached@));
                assert(closure_of(successors@, versions@[k as int], entries@[k as int].reached@));
                assert forall|m: int, n: int| 0 <= m < k + 1 && 0 <= n < entries@[m].reached@.len() implies (#[trigger] entries@[m].reached@[n]) < limit by {
                    if m < k {
                        assert(before[m].reached@[n] < limit);
                    }
                }
                assert forall|m: int| 0 <= m < k + 1 implies {
                    &&& (#[trigger] entries@[m]).key == bindings[m].key
                    &&& entries@[m].entry == versions@[m]
                    &&& order::strictly_sorted(entries@[m].reached@)
                    &&& closure_of(successors@, versions@[m], entries@[m].reached@)
                } by {
                    if m < k {
                        assert(entries@[m] == before[m]);
                    }
                }
            }
            k = k + 1;
        }
        let r = RepeatedTransfer { entries, version_start: start };
        proof {
            assert forall|m: int| 0 <= m < r.entries@.len() implies ({
                &&& (#[trigger] r.entries@[m]).key == bindings[m].key
                &&& r.entries@[m].entry == versions@[m]
            }) by {}
            assert forall|m: int| 0 <= m < bindings.len() implies #[trigger] entry_closes(*self, bindings, r, m) by {
                assert(versions@[m] < self.versions@.len());
                assert(r.entries@[m].key == bindings[m].key);
                assert forall|x: usize| #[trigger] r.entries@[m].reached@.contains(x) <==> exists|n: nat| #[trigger]
                    iterates_in(*self, bindings, r.entries@, r.version_start as int, r.entries@[m].entry, x, n) by {
                    assert(closure_of(successors@, versions@[m], r.entries@[m].reached@));
                    let direct = choose|direct: Seq<usize>|
                        #[trigger] direct_of(successors@, versions@[m], direct) && leads_exactly(successors@, direct, r.entries@[m].reached@);
                    assert(r.entries@[m].entry == versions@[m]);
                    lemma_leads_is_iterates(*self, bindings, r.entries@, r.version_start as int, successors@, r.entries@[m].entry, direct, x);
                    assert(r.entries@[m].reached@.contains(x) <==> transfer::leads_on(successors@, direct, x));
                }
            }
            assert forall|m: int| 0 <= m < r.entries@.len() implies (#[trigger] r.entries@[m]).entry < self.versions@.len() by {
                assert(versions@[m] < self.versions@.len());
            }
            assert forall|a: int, b: int| 0 <= a < b < r.entries@.len() implies (#[trigger] r.entries@[a]).key < (#[trigger] r.entries@[b]).key by {
                assert(bindings[a].key < bindings[b].key);
            }
        }
        r
    }
}

/// The list holds what one iteration makes of `version`.
spec fn direct_of(successors: Seq<Successors>, version: usize, direct: Seq<usize>) -> bool {
    forall|x: usize| #[trigger] direct.contains(x) <==> transfer::leads(successors, version, x)
}

/// The list holds what follows from `direct` by repetition.
spec fn leads_exactly(successors: Seq<Successors>, direct: Seq<usize>, reached: Seq<usize>) -> bool {
    forall|x: usize| #[trigger]
        reached.contains(x) <==> transfer::leads_on(successors, direct, x)
}

/// The list holds what repetition makes of `version`.
spec fn closure_of(successors: Seq<Successors>, version: usize, reached: Seq<usize>) -> bool {
    exists|direct: Seq<usize>| #[trigger]
        direct_of(successors, version, direct) && leads_exactly(successors, direct, reached)
}

fn collect_direct(successors: &Vec<Successors>, version: usize, limit: usize) -> (r: Vec<usize>)
    requires
        forall|k: int, m: int|
            0 <= k < successors@.len() && 0 <= m < successors@[k].next@.len() ==> (
            #[trigger] successors@[k].next@[m]) < limit,
    ensures
        direct_of(successors@, version, r@),
        forall|i: int| 0 <= i < r@.len() ==> (#[trigger] r@[i]) < limit,
{
    let mut r: Vec<usize> = Vec::new();
    let mut i: usize = 0;
    while i < successors.len()
        invariant
            i <= successors.len(),
            forall|k: int, m: int|
                0 <= k < successors@.len() && 0 <= m < successors@[k].next@.len() ==> (
                #[trigger] successors@[k].next@[m]) < limit,
            forall|k: int| 0 <= k < r@.len() ==> (#[trigger] r@[k]) < limit,
            forall|x: usize| #[trigger]
                r@.contains(x) <==> exists|k: int|
                    0 <= k < i && (#[trigger] successors@[k]).version == version
                        && successors@[k].next@.contains(x),
        decreases successors.len() - i,
    {
        let ghost outer = r@;
        if successors[i].version == version {
            let row = &successors[i].next;
            let mut k: usize = 0;
            while k < row.len()
                invariant
                    k <= row.len(),
                    i < successors@.len(),
                    *row == successors@[i as int].next,
                    forall|k: int, m: int|
                        0 <= k < successors@.len() && 0 <= m < successors@[k].next@.len() ==> (
                        #[trigger] successors@[k].next@[m]) < limit,
                    forall|m: int| 0 <= m < r@.len() ==> (#[trigger] r@[m]) < limit,
                    forall|x: usize| #[trigger]
                        r@.contains(x) <==> outer.contains(x) || row@.take(k as int).contains(x),
                decreases row.len() - k,
            {
                let ghost before = r@;
                let x: usize = row[k];
                assert(successors@[i as int].next@[k as int] < limit);
                r.push(x);
                proof {
                    assert(row@.take(k as int + 1) =~= row@.take(k as int).push(x));
                    assert forall|y: usize| #[trigger] r@.contains(y) <==> outer.contains(y) || row@.take(k as int + 1).contains(y) by {
                        remap::lemma_contains_push(before, x, y);
                        remap::lemma_contains_push(row@.take(k as int), x, y);
                    }
                }
                k = k + 1;
            }
            assert(row@.take(k as int) =~= row@);
        }
        proof {
            assert forall|x: usize| #[trigger] r@.contains(x) <==> exists|k: int|
                0 <= k < i + 1 && (#[trigger] successors@[k]).version == version && successors@[k].next@.contains(x) by {
                if r@.contains(x) && !outer.contains(x) {
                    assert(successors@[i as int].next@.contains(x));
                }
            }
        }
        i = i + 1;
    }
    r
}

/// The closure over the successor lists is the closure over iterations.
proof fn lemma_leads_is_iterates(
    store: SsaStore,
    bindings: Seq<Binding>,
    entries: Seq<TransferEntry>,
    start: int,
    successors: Seq<Successors>,
    from: usize,
    direct: Seq<usize>,
    to: usize,
)
    requires
        entries.len() == bindings.len(),
        successors.len() == bindings.len(),
        forall|i: int| 0 <= i < entries.len() ==> (#[trigger] successors[i]).version == entries[i].entry,
        forall|i: int|
            0 <= i < entries.len() ==> forall|x: usize| #[trigger]
                (#[trigger] successors[i]).next@.contains(x) <==> transfer::iteration_input(
                    store,
                    start,
                    bindings[i].version as int,
                    x,
                ),
        direct_of(successors, from, direct),
    ensures
        transfer::leads_on(successors, direct, to) <==> exists|n: nat| #[trigger]
            iterates_in(store, bindings, entries, start, from, to, n),
{
    assert forall|a: usize, b: usize| #[trigger] transfer::leads(successors, a, b) <==> iterates(store, bindings, entries, start, a, b) by {
        if transfer::leads(successors, a, b) {
            let i = choose|i: int| 0 <= i < successors.len() && (#[trigger] successors[i]).version == a && successors[i].next@.contains(b);
            assert(entries[i].entry == a);
        }
        if iterates(store, bindings, entries, start, a, b) {
            let i = choose|i: int| 0 <= i < entries.len() && (#[trigger] entries[i]).entry == a && transfer::iteration_input(store, start, bindings[i].version as int, b);
            assert(successors[i].version == a);
            assert(successors[i].next@.contains(b));
        }
    }
    assert forall|n: nat| #[trigger] transfer::leads_in(successors, direct, to, n) implies iterates_in(store, bindings, entries, start, from, to, n) by {
        lemma_leads_in_iterates(store, bindings, entries, start, successors, from, direct, to, n);
    }
    assert forall|n: nat| #[trigger] iterates_in(store, bindings, entries, start, from, to, n) implies transfer::leads_in(successors, direct, to, n) by {
        lemma_leads_in_iterates(store, bindings, entries, start, successors, from, direct, to, n);
    }
    if transfer::leads_on(successors, direct, to) {
        let n = choose|n: nat| #[trigger] transfer::leads_in(successors, direct, to, n);
        assert(iterates_in(store, bindings, entries, start, from, to, n));
    }
    if exists|n: nat| #[trigger] iterates_in(store, bindings, entries, start, from, to, n) {
        let n = choose|n: nat| #[trigger] iterates_in(store, bindings, entries, start, from, to, n);
        assert(transfer::leads_in(successors, direct, to, n));
    }
}

proof fn lemma_leads_in_iterates(
    store: SsaStore,
    bindings: Seq<Binding>,
    entries: Seq<TransferEntry>,
    start: int,
    successors: Seq<Successors>,
    from: usize,
    direct: Seq<usize>,
    to: usize,
    n: nat,
)
    requires
        forall|a: usize, b: usize|
            #![trigger transfer::leads(successors, a, b)]
            #![trigger iterates(store, bindings, entries, start, a, b)]
            transfer::leads(successors, a, b) <==> iterates(
                store,
                bindings,
                entries,
                start,
                a,
                b,
            ),
        direct_of(successors, from, direct),
    ensures
        transfer::leads_in(successors, direct, to, n) <==> iterates_in(
            store,
            bindings,
            entries,
            start,
            from,
            to,
            n,
        ),
    decreases n,
{
    if n > 0 {
        if transfer::leads_in(successors, direct, to, n) {
            let m = choose|m: usize| #[trigger] transfer::leads(successors, m, to) && transfer::leads_in(successors, direct, m, (n - 1) as nat);
            lemma_leads_in_iterates(store, bindings, entries, start, successors, from, direct, m, (n - 1) as nat);
            assert(iterates(store, bindings, entries, start, m, to));
        }
        if iterates_in(store, bindings, entries, start, from, to, n) {
            let m = choose|m: usize| #[trigger] iterates(store, bindings, entries, start, m, to) && iterates_in(store, bindings, entries, start, from, m, (n - 1) as nat);
            lemma_leads_in_iterates(store, bindings, entries, start, successors, from, direct, m, (n - 1) as nat);
            assert(transfer::leads(successors, m, to));
        }
    } else {
        assert(direct.contains(to) <==> transfer::leads(successors, from, to));
    }
}

} // verus!
