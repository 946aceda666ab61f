//! The effect of assignments on the versions of a procedure.
use vstd::prelude::*;
use crate::arena::{PathCondition, PathNode};
use crate::order;
use crate::order::sort_dedup;
use crate::relation::{PositionRelation, SourceRef};
use crate::ssa;
use crate::ssa::{SsaStore, Version};

verus! {

/// What is written to one key.
pub struct KeyWrite {
    pub key: u64,
    pub sources: Vec<SourceRef>,
    /// The key may keep its value.
    pub dynamic: bool,
    /// Nothing is known of the value.
    pub opaque: bool,
}

/// The version is a value computed, under the condition, from the sources.
pub open spec fn is_definition(versions: Seq<Version>, version: int, sources: Seq<SourceRef>, condition: PathCondition) -> bool {
    &&& 0 <= version < versions.len()
    &&& versions[version] matches Version::Definition { sources: list, condition: guard } && guard == condition
        && order::strictly_sorted(list@) && order::same_elements(list@, sources)
}

/// The key has the version; where it may keep its value, one of both.
pub open spec fn is_bound(before: SsaStore, after: SsaStore, key: u64, version: usize, weak: bool) -> bool {
    &&& after.current@.contains_key(key)
    &&& if !weak {
        after.current@[key] == version
    } else if before.current@.contains_key(key) {
        ssa::is_phi(after.versions@, set![before.current@[key], version], after.current@[key])
    } else {
        after.entries@.contains_key(key) && ssa::is_phi(after.versions@, set![after.entries@[key], version], after.current@[key])
    }
}

/// The key was written.
pub open spec fn wrote(before: SsaStore, after: SsaStore, write: KeyWrite, condition: PathCondition) -> bool {
    exists|version: usize|
        before.versions@.len() <= version && #[trigger] is_value(after.versions@, version, write, condition) && is_bound(
            before,
            after,
            write.key,
            version,
            write.dynamic || write.opaque,
        )
}

pub open spec fn is_value(versions: Seq<Version>, version: usize, write: KeyWrite, condition: PathCondition) -> bool {
    if write.opaque {
        is_definition(versions, version as int, Seq::empty(), PathCondition { node: 0 })
    } else {
        is_definition(versions, version as int, write.sources@, condition)
    }
}

/// No key is written twice.
pub open spec fn keys_differ(writes: Seq<KeyWrite>) -> bool {
    forall|i: int, j: int| 0 <= i < j < writes.len() ==> (#[trigger] writes[i]).key != (#[trigger] writes[j]).key
}

pub open spec fn writes_key(writes: Seq<KeyWrite>, key: u64) -> bool {
    exists|i: int| 0 <= i < writes.len() && (#[trigger] writes[i]).key == key
}

/// The values come from versions that exist.
pub open spec fn writes_before(writes: Seq<KeyWrite>, limit: int) -> bool {
    forall|i: int| 0 <= i < writes.len() ==> ssa::sources_before((#[trigger] writes[i]).sources@, limit)
}

/// The one store goes on where the other is.
pub open spec fn continues(before: SsaStore, after: SsaStore) -> bool {
    &&& ssa::versions_grow(before.versions@, after.versions@)
    &&& after.graphs == before.graphs
    &&& after.imports == before.imports
    &&& after.checkpoints@ == before.checkpoints@
    &&& forall|depth: int|
        0 <= depth < before.checkpoints@.len() ==> #[trigger] after.saved(depth) == before.saved(depth)
    &&& ssa::records(before, after)
}

/// A store that continues twice continues.
pub proof fn continues_is_transitive(a: SsaStore, b: SsaStore, c: SsaStore)
    requires
        continues(a, b),
        continues(b, c),
    ensures
        continues(a, c),
{
    ssa::records_is_transitive(a, b, c);
    assert forall|i: int| 0 <= i < a.versions@.len() implies #[trigger] a.versions@[i] == c.versions@[i] by {
        assert(a.versions@[i] == b.versions@[i]);
    }
    assert forall|depth: int| 0 <= depth < a.checkpoints@.len() implies #[trigger] c.saved(depth) == a.saved(depth) by {
        assert(b.saved(depth) == a.saved(depth));
    }
}

/// A merge of versions stays one as versions are added.
pub proof fn lemma_phi_kept(a: Seq<Version>, b: Seq<Version>, inputs: Set<usize>, version: usize)
    requires
        ssa::versions_grow(a, b),
        ssa::is_phi(a, inputs, version),
    ensures
        ssa::is_phi(b, inputs, version),
{
    assert(a[version as int] == b[version as int]);
}

/// An entry keeps its number.
pub proof fn lemma_entry_kept(a: SsaStore, b: SsaStore, key: u64)
    requires
        a.wf(),
        b.wf(),
        ssa::versions_grow(a.versions@, b.versions@),
        a.entries@.contains_key(key),
    ensures
        b.entries@.contains_key(key),
        b.entries@[key] == a.entries@[key],
{
    let v = a.entries@[key] as int;
    assert(a.versions@[v] == b.versions@[v]);
    assert(b.versions@[v] == Version::Entry(key));
}

proof fn lemma_wrote_kept(before: SsaStore, middle: SsaStore, after: SsaStore, write: KeyWrite, condition: PathCondition)
    requires
        middle.wf(),
        after.wf(),
        ssa::versions_grow(middle.versions@, after.versions@),
        after.current@.contains_key(write.key),
        after.current@[write.key] == middle.current@[write.key],
        wrote(before, middle, write, condition),
    ensures
        wrote(before, after, write, condition),
{
    let version = choose|version: usize|
        before.versions@.len() <= version && #[trigger] is_value(middle.versions@, version, write, condition) && is_bound(
            before,
            middle,
            write.key,
            version,
            write.dynamic || write.opaque,
        );
    assert(middle.versions@[version as int] == after.versions@[version as int]);
    assert(is_value(after.versions@, version, write, condition));
    if write.dynamic || write.opaque {
        if before.current@.contains_key(write.key) {
            lemma_phi_kept(middle.versions@, after.versions@, set![before.current@[write.key], version], after.current@[write.key]);
        } else {
            lemma_entry_kept(middle, after, write.key);
            lemma_phi_kept(middle.versions@, after.versions@, set![after.entries@[write.key], version], after.current@[write.key]);
        }
    }
}

/// Gives a key a version; where it may keep its value, one of both.
pub fn bind_destination(store: &mut SsaStore, key: u64, version: usize, weak: bool)
    requires
        old(store).wf(),
        version < old(store).versions@.len(),
    ensures
        final(store).wf(),
        continues(*old(store), *final(store)),
        is_bound(*old(store), *final(store), key, version, weak),
        forall|k: u64| k != key && #[trigger] final(store).entries@.contains_key(k) ==> old(store).entries@.contains_key(k),
        forall|k: u64| k != key ==> #[trigger] ssa::binding_of(final(store).current@, k) == ssa::binding_of(old(store).current@, k),
        ssa::keeps_guards(*old(store), *final(store)),
{
    let ghost before = *store;
    if weak {
        store.weak_bind(key, version);
        proof {
            assert forall|k: u64| k != key implies #[trigger] ssa::binding_of(store.current@, k) == ssa::binding_of(before.current@, k) by {
                assert(store.current@.dom().contains(k) <==> before.current@.dom().contains(k));
            }
        }
    } else {
        store.bind(key, version);
    }
}

/// The version that selects where values go: one that stands for all controls.
pub fn aggregate_destination_controls(store: &mut SsaStore, controls: &Vec<usize>) -> (r: Option<usize>)
    requires
        old(store).wf(),
        forall|i: int| 0 <= i < controls@.len() ==> (#[trigger] controls@[i]) < old(store).versions@.len(),
    ensures
        final(store).wf(),
        continues(*old(store), *final(store)),
        final(store).current@ == old(store).current@,
        r is None <==> controls@.len() == 0,
        r matches Some(version) ==> version < final(store).versions@.len() && if all_same(controls@) {
            version == controls@[0] && *final(store) == *old(store)
        } else {
            version == old(store).versions@.len() && is_definition(final(store).versions@, version as int, whole_sources(controls@), PathCondition { node: 0 })
        },
        forall|nodes: Seq<PathNode>| #[trigger] old(store).guards_in(nodes) && nodes.len() > 0 ==> final(store).guards_in(nodes),
{
    let ghost before = *store;
    let list = sort_dedup(controls);
    if list.len() == 0 {
        proof {
            if controls@.len() > 0 {
                assert(controls@.contains(controls@[0]));
                assert(list@.contains(controls@[0]));
            }
        }
        return None;
    }
    proof {
        assert(list@.contains(list@[0]));
        assert(controls@.contains(list@[0]));
    }
    if list.len() == 1 {
        proof {
            assert forall|i: int| 0 <= i < controls@.len() implies (#[trigger] controls@[i]) == list@[0] by {
                assert(controls@.contains(controls@[i]));
                assert(list@.contains(controls@[i]));
            }
            assert(controls@[0] == list@[0]);
            assert(controls@[0] < store.versions@.len());
        }
        return Some(list[0]);
    }
    proof {
        assert(list@.contains(list@[0]) && list@.contains(list@[1]));
        assert(controls@.contains(list@[0]) && controls@.contains(list@[1]));
        assert(list@[0] < list@[1]) by {
            assert(order::strictly_sorted(list@));
        }
        if all_same(controls@) {
            let a = choose|a: int| 0 <= a < controls@.len() && controls@[a] == list@[0];
            let b = choose|b: int| 0 <= b < controls@.len() && controls@[b] == list@[1];
            assert(controls@[a] == controls@[0] && controls@[b] == controls@[0]);
        }
    }
    let version: usize = store.definition(controls);
    proof {
        let sources = whole_sources(controls@);
        let found = store.versions@[version as int]->sources@;
        assert forall|s: SourceRef| #[trigger] found.contains(s) <==> sources.contains(s) by {
            lemma_whole_sources(controls@, s);
        }
        assert(order::same_elements(found, sources));
    }
    Some(version)
}

/// The list holds one value only.
pub open spec fn all_same(list: Seq<usize>) -> bool {
    forall|i: int| 0 <= i < list.len() ==> (#[trigger] list[i]) == list[0]
}

/// All positions of the versions.
pub open spec fn whole_sources(versions: Seq<usize>) -> Seq<SourceRef> {
    versions.map_values(|v: usize| SourceRef { version: v, relation: PositionRelation::anything() })
}

/// The sources of versions as a whole.
pub proof fn lemma_whole_sources(versions: Seq<usize>, s: SourceRef)
    ensures
        whole_sources(versions).contains(s) <==> s.relation == PositionRelation::anything() && versions.contains(s.version),
{
    let all = whole_sources(versions);
    if all.contains(s) {
        let i = choose|i: int| 0 <= i < all.len() && all[i] == s;
        assert(versions[i] == s.version);
    }
    if s.relation == PositionRelation::anything() && versions.contains(s.version) {
        let i = choose|i: int| 0 <= i < versions.len() && versions[i] == s.version;
        assert(all[i] == s);
    }
}

/// Writes keys that differ.
pub fn write_all(store: &mut SsaStore, writes: &Vec<KeyWrite>, condition: PathCondition)
    requires
        old(store).wf(),
        keys_differ(writes@),
        writes_before(writes@, old(store).versions@.len() as int),
    ensures
        final(store).wf(),
        continues(*old(store), *final(store)),
        forall|i: int| 0 <= i < writes@.len() ==> wrote(*old(store), *final(store), #[trigger] writes@[i], condition),
        forall|key: u64| !writes_key(writes@, key) ==> #[trigger] ssa::binding_of(final(store).current@, key) == ssa::binding_of(old(store).current@, key),
        forall|nodes: Seq<PathNode>| #[trigger] old(store).guards_in(nodes) && condition.node < nodes.len() ==> final(store).guards_in(nodes),
        forall|key: u64| !writes_key(writes@, key) && #[trigger] final(store).entries@.contains_key(key) ==> old(store).entries@.contains_key(key),
{
    let ghost before = *store;
    let mut i: usize = 0;
    while i < writes.len()
        invariant
            i <= writes@.len(),
            store.wf(),
            before.wf(),
            keys_differ(writes@),
            writes_before(writes@, before.versions@.len() as int),
            continues(before, *store),
            forall|k: int| 0 <= k < i ==> wrote(before, *store, #[trigger] writes@[k], condition),
            forall|key: u64| !writes_key(writes@.take(i as int), key) ==> #[trigger] ssa::binding_of(store.current@, key) == ssa::binding_of(before.current@, key),
            forall|nodes: Seq<PathNode>| #[trigger] before.guards_in(nodes) && condition.node < nodes.len() ==> store.guards_in(nodes),
            forall|key: u64| !writes_key(writes@, key) && #[trigger] store.entries@.contains_key(key) ==> before.entries@.contains_key(key),
        decreases writes@.len() - i,
    {
        let ghost known = *store;
        let write = &writes[i];
        let ghost taken = writes@.take(i as int);
        proof {
            assert(ssa::sources_before(writes@[i as int].sources@, before.versions@.len() as int));
            assert(ssa::sources_before(write.sources@, store.versions@.len() as int));
        }
        let version: usize = if write.opaque {
            let nothing: Vec<SourceRef> = Vec::new();
            store.related_definition(&nothing)
        } else {
            store.related_definition_guarded(&write.sources, condition)
        };
        let ghost middle = *store;
        bind_destination(store, write.key, version, write.dynamic || write.opaque);
        proof {
            assert(writes_key(writes@, writes@[i as int].key));
            lemma_defined(known, middle, *store, *write, version, condition);
            continues_is_transitive(known, middle, *store);
            continues_is_transitive(before, known, *store);
            assert(!writes_key(taken, write.key)) by {
                if writes_key(taken, write.key) {
                    let k = choose|k: int| 0 <= k < taken.len() && (#[trigger] taken[k]).key == write.key;
                    assert(writes@[k].key != writes@[i as int].key);
                }
            }
            assert(ssa::binding_of(known.current@, write.key) == ssa::binding_of(before.current@, write.key));
            assert(wrote(before, *store, *write, condition)) by {
                assert(is_value(store.versions@, version, *write, condition));
                assert(is_bound(before, *store, write.key, version, write.dynamic || write.opaque));
            }
            assert forall|k: int| 0 <= k < i + 1 implies wrote(before, *store, #[trigger] writes@[k], condition) by {
                if k < i {
                    assert(writes@[k].key != writes@[i as int].key);
                    assert(wrote(before, known, writes@[k], condition));
                    assert(ssa::binding_of(store.current@, writes@[k].key) == ssa::binding_of(known.current@, writes@[k].key));
                    lemma_wrote_kept(before, known, *store, writes@[k], condition);
                }
            }
            let longer = writes@.take(i + 1);
            assert forall|key: u64| !writes_key(longer, key) implies #[trigger] ssa::binding_of(store.current@, key) == ssa::binding_of(before.current@, key) by {
                assert(longer[i as int].key == write.key);
                assert(!writes_key(taken, key)) by {
                    if writes_key(taken, key) {
                        let k = choose|k: int| 0 <= k < taken.len() && (#[trigger] taken[k]).key == key;
                        assert(longer[k].key == key);
                    }
                }
                assert(ssa::binding_of(known.current@, key) == ssa::binding_of(before.current@, key));
            }
        }
        i = i + 1;
    }
    assert(writes@.take(i as int) =~= writes@);
}

proof fn lemma_defined(known: SsaStore, middle: SsaStore, after: SsaStore, write: KeyWrite, version: usize, condition: PathCondition)
    requires
        known.wf(),
        ssa::same_state(known, middle),
        is_value(middle.versions@, version, write, condition),
        continues(middle, after),
    ensures
        continues(known, middle),
        is_value(after.versions@, version, write, condition),
{
    assert(middle.versions@[version as int] == after.versions@[version as int]);
    assert forall|depth: int| 0 <= depth < known.checkpoints@.len() implies #[trigger] middle.saved(depth) == known.saved(depth) by {}
}

/// Writes one value to all keys of a destination: nothing is known of it where the keys are not.
pub fn write_destination(
    store: &mut SsaStore,
    keys: &Vec<u64>,
    resolved: bool,
    dynamic: bool,
    dependencies: &Vec<usize>,
    condition: PathCondition,
)
    requires
        old(store).wf(),
        forall|i: int, j: int| 0 <= i < j < keys@.len() ==> (#[trigger] keys@[i]) != (#[trigger] keys@[j]),
        forall|i: int| 0 <= i < dependencies@.len() ==> (#[trigger] dependencies@[i]) < old(store).versions@.len(),
    ensures
        final(store).wf(),
        continues(*old(store), *final(store)),
        if resolved {
            is_definition(final(store).versions@, old(store).versions@.len() as int, whole_sources(dependencies@), condition)
        } else {
            is_definition(final(store).versions@, old(store).versions@.len() as int, Seq::empty(), PathCondition { node: 0 })
        },
        forall|i: int|
            0 <= i < keys@.len() ==> is_bound(*old(store), *final(store), #[trigger] keys@[i], old(store).versions@.len() as usize, !resolved || dynamic),
        forall|key: u64| !keys@.contains(key) ==> #[trigger] ssa::binding_of(final(store).current@, key) == ssa::binding_of(old(store).current@, key),
        forall|nodes: Seq<PathNode>| #[trigger] old(store).guards_in(nodes) && condition.node < nodes.len() ==> final(store).guards_in(nodes),
        forall|key: u64| !keys@.contains(key) && #[trigger] final(store).entries@.contains_key(key) ==> old(store).entries@.contains_key(key),
{
    let ghost before = *store;
    let nothing: Vec<usize> = Vec::new();
    let version: usize = if resolved {
        store.definition_guarded(dependencies, condition)
    } else {
        store.definition(&nothing)
    };
    let ghost defined = *store;
    proof {
        let found = store.versions@[version as int]->sources@;
        let sources = if resolved { whole_sources(dependencies@) } else { Seq::empty() };
        assert forall|s: SourceRef| #[trigger] found.contains(s) <==> sources.contains(s) by {
            lemma_whole_sources(dependencies@, s);
        }
        assert(order::same_elements(found, sources));
        assert forall|depth: int| 0 <= depth < before.checkpoints@.len() implies #[trigger] defined.saved(depth) == before.saved(depth) by {}
        assert(continues(before, defined));
    }
    let mut i: usize = 0;
    while i < keys.len()
        invariant
            i <= keys@.len(),
            version == before.versions@.len(),
            version < defined.versions@.len(),
            store.wf(),
            continues(before, defined),
            continues(defined, *store),
            defined.current@ == before.current@,
            forall|i: int, j: int| 0 <= i < j < keys@.len() ==> (#[trigger] keys@[i]) != (#[trigger] keys@[j]),
            forall|k: int| 0 <= k < i ==> is_bound(before, *store, #[trigger] keys@[k], version, !resolved || dynamic),
            forall|key: u64| !keys@.take(i as int).contains(key) ==> #[trigger] ssa::binding_of(store.current@, key) == ssa::binding_of(before.current@, key),
            forall|nodes: Seq<PathNode>| #[trigger] before.guards_in(nodes) && condition.node < nodes.len() ==> store.guards_in(nodes),
            forall|key: u64| !keys@.contains(key) && #[trigger] store.entries@.contains_key(key) ==> before.entries@.contains_key(key),
        decreases keys@.len() - i,
    {
        let ghost known = *store;
        let ghost taken = keys@.take(i as int);
        bind_destination(store, keys[i], version, !resolved || dynamic);
        proof {
            assert(keys@.contains(keys@[i as int]));
            continues_is_transitive(defined, known, *store);
            assert(!taken.contains(keys@[i as int]));
            assert(ssa::binding_of(known.current@, keys@[i as int]) == ssa::binding_of(before.current@, keys@[i as int]));
            assert forall|k: int| 0 <= k < i + 1 implies is_bound(before, *store, #[trigger] keys@[k], version, !resolved || dynamic) by {
                if k < i {
                    assert(keys@[k] != keys@[i as int]);
                    assert(is_bound(before, known, keys@[k], version, !resolved || dynamic));
                    assert(ssa::binding_of(store.current@, keys@[k]) == ssa::binding_of(known.current@, keys@[k]));
                    lemma_bound_kept(before, known, *store, keys@[k], version, !resolved || dynamic);
                }
            }
            let longer = keys@.take(i + 1);
            assert forall|key: u64| !longer.contains(key) implies #[trigger] ssa::binding_of(store.current@, key) == ssa::binding_of(before.current@, key) by {
                assert(longer[i as int] == keys@[i as int]);
                assert(!taken.contains(key)) by {
                    if taken.contains(key) {
                        let k = choose|k: int| 0 <= k < taken.len() && taken[k] == key;
                        assert(longer[k] == key);
                    }
                }
                assert(ssa::binding_of(known.current@, key) == ssa::binding_of(before.current@, key));
            }
        }
        i = i + 1;
    }
    proof {
        assert(keys@.take(i as int) =~= keys@);
        continues_is_transitive(before, defined, *store);
        assert(defined.versions@[version as int] == store.versions@[version as int]);
    }
}

proof fn lemma_bound_kept(before: SsaStore, middle: SsaStore, after: SsaStore, key: u64, version: usize, weak: bool)
    requires
        middle.wf(),
        after.wf(),
        ssa::versions_grow(middle.versions@, after.versions@),
        is_bound(before, middle, key, version, weak),
        ssa::binding_of(after.current@, key) == ssa::binding_of(middle.current@, key),
    ensures
        is_bound(before, after, key, version, weak),
{
    if weak {
        if before.current@.contains_key(key) {
            lemma_phi_kept(middle.versions@, after.versions@, set![before.current@[key], version], after.current@[key]);
        } else {
            lemma_entry_kept(middle, after, key);
            lemma_phi_kept(middle.versions@, after.versions@, set![after.entries@[key], version], after.current@[key]);
        }
    }
}

} // verus!
