//! The writes of assignments and of summarised functions.
use vstd::prelude::*;
use std::collections::HashMap;
use crate::arena::{PathCondition, PathNode};
use crate::imports;
use crate::outputs;
use crate::outputs::push_related;
use crate::partition::NodeKey;
use crate::realize;
use crate::realize::Realizer;
use crate::relation::{PositionRelation, SourceRef};
use crate::results;
use crate::snapshots::DestinationSnapshot;
use crate::ssa;
use crate::ssa::{KeyBinding, SsaStore, Version};
use crate::writes;
use crate::writes::{write_all, KeyWrite};

verus! {

/// What selects a destination, as a source.
pub open spec fn control_sources(control: Option<usize>) -> Seq<SourceRef> {
    match control {
        Some(control) => writes::whole_sources(seq![control]),
        None => Seq::empty(),
    }
}

/// What an assignment writes to one node: what was found for it, and what selects the destination.
pub open spec fn is_assignment(images: Seq<Seq<usize>>, snapshot: DestinationSnapshot, key: u64, control: Option<usize>, dynamic: bool, write: KeyWrite) -> bool {
    &&& write.key == key
    &&& write.opaque == snapshot.opaque
    &&& write.dynamic == dynamic
    &&& write.sources@ == (if snapshot.opaque {
        Seq::empty()
    } else {
        realize::realized(images, snapshot.sources@) + control_sources(control)
    })
}

/// All versions exist that what was found for the nodes names.
pub open spec fn snapshots_exist(snapshots: Seq<DestinationSnapshot>, limit: int) -> bool {
    forall|i: int| 0 <= i < snapshots.len() && !(#[trigger] snapshots[i]).opaque ==> realize::refs_exist(snapshots[i].sources@, limit)
}

/// Writes what was found for the nodes of a destination. The answer is whether all versions that it
/// comes from exist; where one does not, nothing is written.
pub fn write_assignment_destination(
    store: &mut SsaStore,
    realizer: &Realizer,
    images: &Vec<Vec<usize>>,
    snapshots: &Vec<DestinationSnapshot>,
    keys: &Vec<u64>,
    control: Option<usize>,
    dynamic: bool,
    condition: PathCondition,
) -> (r: bool)
    requires
        old(store).wf(),
        snapshots@.len() == keys@.len(),
        forall|i: int, j: int| 0 <= i < j < keys@.len() ==> (#[trigger] keys@[i]) != (#[trigger] keys@[j]),
        forall|n: int, k: int| 0 <= n < images@.len() && 0 <= k < images@[n]@.len() ==> (#[trigger] images@[n]@[k]) < old(store).versions@.len(),
        control matches Some(control) ==> control < old(store).versions@.len(),
    ensures
        final(store).wf(),
        r == snapshots_exist(snapshots@, old(store).versions@.len() as int),
        !r ==> *final(store) == *old(store),
        r ==> writes::continues(*old(store), *final(store)) && exists|list: Seq<KeyWrite>|
            #![trigger assignments(realize::views(images@), snapshots@, keys@, control, dynamic, list)]
            assignments(realize::views(images@), snapshots@, keys@, control, dynamic, list) && all_wrote(*old(store), *final(store), list, condition),
        forall|key: u64| !keys@.contains(key) ==> #[trigger] ssa::binding_of(final(store).current@, key) == ssa::binding_of(old(store).current@, key),
        forall|nodes: Seq<PathNode>| #[trigger] old(store).guards_in(nodes) && condition.node < nodes.len() ==> final(store).guards_in(nodes),
{
    let limit: usize = store.versions.len();
    let mut list: Vec<KeyWrite> = Vec::new();
    let mut i: usize = 0;
    while i < snapshots.len()
        invariant
            i <= snapshots@.len(),
            snapshots@.len() == keys@.len(),
            *store == *old(store),
            store.wf(),
            limit == store.versions@.len(),
            forall|n: int, k: int| 0 <= n < images@.len() && 0 <= k < images@[n]@.len() ==> (#[trigger] images@[n]@[k]) < limit,
            control matches Some(control) ==> control < limit,
            list@.len() == i,
            forall|k: int| 0 <= k < i && !(#[trigger] snapshots@[k]).opaque ==> realize::refs_exist(snapshots@[k].sources@, limit as int),
            forall|k: int| 0 <= k < i ==> is_assignment(realize::views(images@), snapshots@[k], keys@[k], control, dynamic, #[trigger] list@[k]) && ssa::sources_before(list@[k].sources@, limit as int),
        decreases snapshots@.len() - i,
    {
        let snapshot = &snapshots[i];
        let mut sources: Vec<SourceRef> = Vec::new();
        if !snapshot.opaque {
            sources = match realizer.realize_refs(images, &snapshot.sources, limit) {
                Some(sources) => sources,
                None => {
                    assert(!snapshots@[i as int].opaque);
                    return false;
                },
            };
            let ghost found = sources@;
            if let Some(control) = control {
                sources.push(SourceRef { version: control, relation: PositionRelation::whole() });
            }
            proof {
                assert(sources@ =~= found + control_sources(control));
                assert forall|k: int| 0 <= k < sources@.len() implies (#[trigger] sources@[k]).version < limit by {
                    if k < found.len() {
                        assert(found[k].version < limit);
                    }
                }
            }
        }
        list.push(KeyWrite { key: keys[i], sources, dynamic, opaque: snapshot.opaque });
        i = i + 1;
    }
    proof {
        assert forall|a: int, b: int| 0 <= a < b < list@.len() implies (#[trigger] list@[a]).key != (#[trigger] list@[b]).key by {
            assert(keys@[a] != keys@[b]);
        }
    }
    write_all(store, &list, condition);
    proof {
        assert(assignments(realize::views(images@), snapshots@, keys@, control, dynamic, list@));
        assert(all_wrote(*old(store), *store, list@, condition));
        assert forall|key: u64| !keys@.contains(key) implies #[trigger] ssa::binding_of(store.current@, key) == ssa::binding_of(old(store).current@, key) by {
            assert(!writes::writes_key(list@, key)) by {
                if writes::writes_key(list@, key) {
                    let k = choose|k: int| 0 <= k < list@.len() && (#[trigger] list@[k]).key == key;
                    assert(keys@[k] == key);
                }
            }
        }
    }
    true
}

/// The writes are those of an assignment.
pub open spec fn assignments(images: Seq<Seq<usize>>, snapshots: Seq<DestinationSnapshot>, keys: Seq<u64>, control: Option<usize>, dynamic: bool, list: Seq<KeyWrite>) -> bool {
    list.len() == snapshots.len() && forall|i: int|
        0 <= i < list.len() ==> is_assignment(images, snapshots[i], keys[i], control, dynamic, #[trigger] list[i])
}

/// All writes are made.
pub open spec fn all_wrote(before: SsaStore, after: SsaStore, list: Seq<KeyWrite>, condition: PathCondition) -> bool {
    forall|i: int| 0 <= i < list.len() ==> writes::wrote(before, after, #[trigger] list[i], condition)
}

/// A key of a summary. Its value comes from a variable of the module or from an argument.
#[derive(Clone, Copy, Debug, PartialEq, Eq)]
pub struct SummaryKey {
    pub key: u64,
    /// The key of the module's variable.
    pub outer: Option<u64>,
}

/// What a key of a summary is bound to: the current value of a variable of the module, or what was
/// found for the argument.
pub open spec fn binds_key(store: SsaStore, actuals: Map<u64, Vec<SourceRef>>, key: SummaryKey, sources: Seq<SourceRef>) -> bool {
    match key.outer {
        Some(outer) => sources.len() == 1 && sources[0].relation == PositionRelation::identity() && results::is_current(store, outer, sources[0].version),
        None => sources == (if actuals.contains_key(key.key) {
            actuals[key.key]@
        } else {
            Seq::empty()
        }),
    }
}

/// The variables of the module that a summary reads have nodes.
pub open spec fn outer_known(keys: Seq<SummaryKey>, nodes: Seq<NodeKey>) -> bool {
    forall|i: int| 0 <= i < keys.len() ==> ((#[trigger] keys[i]).outer matches Some(outer) ==> outer < nodes.len())
}

/// What the keys of a summary are bound to.
pub fn map_summary_node_sources(store: &mut SsaStore, keys: &Vec<SummaryKey>, actuals: &HashMap<u64, Vec<SourceRef>>) -> (r: Vec<KeyBinding>)
    requires
        old(store).wf(),
        forall|key: u64| #[trigger] actuals@.contains_key(key) ==> ssa::sources_before(actuals@[key]@, old(store).versions@.len() as int),
    ensures
        final(store).wf(),
        writes::continues(*old(store), *final(store)),
        final(store).current@ == old(store).current@,
        r@.len() == keys@.len(),
        forall|i: int|
            0 <= i < r@.len() ==> (#[trigger] r@[i]).key == keys@[i].key && binds_key(*final(store), actuals@, keys@[i], r@[i].sources@) && ssa::sources_before(
                r@[i].sources@,
                final(store).versions@.len() as int,
            ),
        ssa::keeps_guards(*old(store), *final(store)),
        forall|nodes: Seq<NodeKey>| #[trigger] results::keys_known(*old(store), nodes) && outer_known(keys@, nodes) ==> results::keys_known(*final(store), nodes),
{
    broadcast use vstd::std_specs::hash::group_hash_axioms;

    let ghost before = *store;
    proof {
        assert(writes::continues(before, *store)) by {
            assert forall|depth: int| 0 <= depth < before.checkpoints@.len() implies #[trigger] store.saved(depth) == before.saved(depth) by {}
        }
    }
    let mut r: Vec<KeyBinding> = Vec::new();
    let mut i: usize = 0;
    while i < keys.len()
        invariant
            i <= keys@.len(),
            store.wf(),
            writes::continues(before, *store),
            store.current@ == before.current@,
            ssa::keeps_guards(before, *store),
            forall|nodes: Seq<NodeKey>| #[trigger] results::keys_known(before, nodes) && outer_known(keys@, nodes) ==> results::keys_known(*store, nodes),
            forall|key: u64| #[trigger] actuals@.contains_key(key) ==> ssa::sources_before(actuals@[key]@, before.versions@.len() as int),
            r@.len() == i,
            forall|k: int|
                0 <= k < r@.len() ==> (#[trigger] r@[k]).key == keys@[k].key && binds_key(*store, actuals@, keys@[k], r@[k].sources@) && ssa::sources_before(
                    r@[k].sources@,
                    store.versions@.len() as int,
                ),
        decreases keys@.len() - i,
    {
        let key = keys[i];
        let ghost known = *store;
        let mut sources: Vec<SourceRef> = Vec::new();
        match key.outer {
            Some(outer) => {
                let version: usize = store.read(outer);
                sources.push(SourceRef { version, relation: PositionRelation::default() });
                proof {
                    realize::lemma_same_state(known, *store);
                    writes::continues_is_transitive(before, known, *store);
                    assert(results::is_current(*store, outer, version));
                    assert forall|nodes: Seq<NodeKey>| #[trigger] results::keys_known(before, nodes) && outer_known(keys@, nodes) implies results::keys_known(
                        *store,
                        nodes,
                    ) by {
                        assert(results::keys_known(known, nodes));
                        assert(keys@[i as int].outer == Some(outer));
                        if !known.current@.contains_key(outer) {
                            outputs::lemma_keys_known(known, *store, nodes, outer);
                        }
                    }
                }
            },
            None => {
                if let Some(found) = actuals.get(&key.key) {
                    sources = copy_sources(found);
                    assert(ssa::sources_before(actuals@[key.key]@, before.versions@.len() as int));
                }
            },
        }
        let ghost shorter = r@;
        r.push(KeyBinding { key: key.key, sources });
        proof {
            assert forall|k: int| 0 <= k < r@.len() implies (#[trigger] r@[k]).key == keys@[k].key && binds_key(*store, actuals@, keys@[k], r@[k].sources@) && ssa::sources_before(
                r@[k].sources@,
                store.versions@.len() as int,
            ) by {
                if k < i {
                    assert(r@[k] == shorter[k]);
                    if let Some(outer) = keys@[k].outer {
                        if !known.current@.contains_key(outer) {
                            writes::lemma_entry_kept(known, *store, outer);
                        }
                    }
                }
            }
        }
        i = i + 1;
    }
    r
}

/// A copy of a list of sources.
pub fn copy_sources(list: &Vec<SourceRef>) -> (r: Vec<SourceRef>)
    ensures
        r@ == list@,
{
    let mut r: Vec<SourceRef> = Vec::new();
    let mut i: usize = 0;
    while i < list.len()
        invariant
            i <= list@.len(),
            r@ == list@.take(i as int),
        decreases list@.len() - i,
    {
        r.push(list[i]);
        i = i + 1;
        assert(r@ =~= list@.take(i as int));
    }
    assert(r@ =~= list@);
    r
}

/// A key that a summarised function writes, with the root of the value.
#[derive(Clone, Copy, Debug, PartialEq, Eq)]
pub struct SummaryWrite {
    pub key: u64,
    pub root: Option<usize>,
}

/// The version stands for a root of an import.
pub open spec fn is_imported(versions: Seq<Version>, version: usize, import: usize, root: Option<usize>) -> bool {
    version < versions.len() && versions[version as int] == (Version::Imported { import, root })
}

/// The value is a root of an import, together with what decides on the call.
pub open spec fn is_summary_value(versions: Seq<Version>, import: usize, root: Option<usize>, controls: Seq<usize>, sources: Seq<SourceRef>) -> bool {
    sources.len() > 0 && sources[0].relation == PositionRelation::identity() && is_imported(versions, sources[0].version, import, root) && sources.skip(1)
        == writes::whole_sources(controls)
}

/// The writes of a summarised function.
pub open spec fn summary_writes(versions: Seq<Version>, import: usize, given: Seq<SummaryWrite>, controls: Seq<usize>, list: Seq<KeyWrite>) -> bool {
    list.len() == given.len() && forall|i: int|
        0 <= i < list.len() ==> (#[trigger] list[i]).key == given[i].key && !list[i].dynamic && !list[i].opaque && is_summary_value(
            versions,
            import,
            given[i].root,
            controls,
            list[i].sources@,
        )
}

/// Writes what a summarised function writes.
pub fn write_summary(store: &mut SsaStore, import: usize, given: &Vec<SummaryWrite>, controls: &Vec<usize>, condition: PathCondition)
    requires
        old(store).wf(),
        import < old(store).imports@.len(),
        imports::bindings_before(old(store).imports@[import as int].bindings@, old(store).versions@.len() as int),
        forall|i: int, j: int| 0 <= i < j < given@.len() ==> (#[trigger] given@[i]).key != (#[trigger] given@[j]).key,
        forall|i: int|
            0 <= i < given@.len() ==> ((#[trigger] given@[i]).root matches Some(root) ==> root < old(store).graphs@[old(store).imports@[import as int].graph as int].nodes@.len()),
        forall|i: int| 0 <= i < controls@.len() ==> (#[trigger] controls@[i]) < old(store).versions@.len(),
    ensures
        final(store).wf(),
        writes::continues(*old(store), *final(store)),
        exists|list: Seq<KeyWrite>|
            #![trigger summary_writes(final(store).versions@, import, given@, controls@, list)]
            summary_writes(final(store).versions@, import, given@, controls@, list) && all_wrote(*old(store), *final(store), list, condition),
        forall|key: u64| !gives_key(given@, key) ==> #[trigger] ssa::binding_of(final(store).current@, key) == ssa::binding_of(old(store).current@, key),
        forall|nodes: Seq<PathNode>| #[trigger] old(store).guards_in(nodes) && condition.node < nodes.len() ==> final(store).guards_in(nodes),
        forall|key: u64| !gives_key(given@, key) && #[trigger] final(store).entries@.contains_key(key) ==> old(store).entries@.contains_key(key),
{
    let ghost before = *store;
    proof {
        assert(writes::continues(before, *store)) by {
            assert forall|depth: int| 0 <= depth < before.checkpoints@.len() implies #[trigger] store.saved(depth) == before.saved(depth) by {}
        }
    }
    let mut list: Vec<KeyWrite> = Vec::new();
    let mut i: usize = 0;
    while i < given.len()
        invariant
            i <= given@.len(),
            store.wf(),
            before == *old(store),
            writes::continues(before, *store),
            store.current@ == before.current@,
            store.entries@ == before.entries@,
            ssa::keeps_guards(before, *store),
            import < before.imports@.len(),
            imports::bindings_before(before.imports@[import as int].bindings@, before.versions@.len() as int),
            forall|i: int|
                0 <= i < given@.len() ==> ((#[trigger] given@[i]).root matches Some(root) ==> root < before.graphs@[before.imports@[import as int].graph as int].nodes@.len()),
            forall|i: int| 0 <= i < controls@.len() ==> (#[trigger] controls@[i]) < before.versions@.len(),
            list@.len() == i,
            summary_writes(store.versions@, import, given@.take(i as int), controls@, list@),
            writes::writes_before(list@, store.versions@.len() as int),
        decreases given@.len() - i,
    {
        let write = given[i];
        let ghost known = *store;
        proof {
            assert(given@[i as int] == write);
            assert((Version::Imported { import, root: write.root }).wf(store.versions@.len() as int, store.graphs@, store.imports@)) by {
                assert forall|b: int| 0 <= b < store.imports@[import as int].bindings@.len() implies ssa::sources_before(
                    (#[trigger] store.imports@[import as int].bindings@[b]).sources@,
                    store.versions@.len() as int,
                ) by {
                    assert(ssa::sources_before(before.imports@[import as int].bindings@[b].sources@, before.versions@.len() as int));
                }
            }
        }
        let version: usize = store.imported_shared(import, write.root);
        let mut sources: Vec<SourceRef> = Vec::new();
        sources.push(SourceRef { version, relation: PositionRelation::default() });
        push_related(&mut sources, controls, PositionRelation::whole());
        let ghost shorter = list@;
        list.push(KeyWrite { key: write.key, sources, dynamic: false, opaque: false });
        proof {
            realize::lemma_same_state(known, *store);
            writes::continues_is_transitive(before, known, *store);
            assert(sources@.skip(1) =~= writes::whole_sources(controls@));
            assert(is_summary_value(store.versions@, import, write.root, controls@, sources@));
            let taken = given@.take(i as int);
            let longer = given@.take(i + 1);
            assert forall|k: int| 0 <= k < list@.len() implies (#[trigger] list@[k]).key == longer[k].key && !list@[k].dynamic && !list@[k].opaque && is_summary_value(
                store.versions@,
                import,
                longer[k].root,
                controls@,
                list@[k].sources@,
            ) by {
                if k < i {
                    assert(list@[k] == shorter[k] && longer[k] == taken[k]);
                    assert(is_summary_value(known.versions@, import, taken[k].root, controls@, shorter[k].sources@));
                    let v = shorter[k].sources@[0].version;
                    assert(known.versions@[v as int] == store.versions@[v as int]);
                }
            }
            assert forall|k: int| 0 <= k < list@.len() implies ssa::sources_before((#[trigger] list@[k]).sources@, store.versions@.len() as int) by {
                if k < i {
                    assert(ssa::sources_before(shorter[k].sources@, known.versions@.len() as int));
                } else {
                    assert forall|j: int| 0 <= j < sources@.len() implies (#[trigger] sources@[j]).version < store.versions@.len() by {
                        if j > 0 {
                            assert(sources@[j] == sources@.skip(1)[j - 1]);
                            assert(controls@[j - 1] < before.versions@.len());
                        }
                    }
                }
            }
        }
        i = i + 1;
    }
    let ghost ready = *store;
    proof {
        assert(given@.take(i as int) =~= given@);
        assert forall|a: int, b: int| 0 <= a < b < list@.len() implies (#[trigger] list@[a]).key != (#[trigger] list@[b]).key by {
            assert(given@[a].key != given@[b].key);
        }
    }
    write_all(store, &list, condition);
    proof {
        writes::continues_is_transitive(before, ready, *store);
        assert forall|k: int| 0 <= k < list@.len() implies is_summary_value(store.versions@, import, given@[k].root, controls@, (#[trigger] list@[k]).sources@) by {
            let v = list@[k].sources@[0].version;
            assert(ready.versions@[v as int] == store.versions@[v as int]);
        }
        assert(summary_writes(store.versions@, import, given@, controls@, list@));
        assert forall|k: int| 0 <= k < list@.len() implies writes::wrote(before, *store, #[trigger] list@[k], condition) by {
            lemma_wrote_from(before, ready, *store, list@[k], condition);
        }
        assert forall|key: u64| writes::writes_key(list@, key) implies gives_key(given@, key) by {
            let k = choose|k: int| 0 <= k < list@.len() && (#[trigger] list@[k]).key == key;
            assert(given@[k].key == key);
        }
        assert forall|key: u64| !gives_key(given@, key) implies #[trigger] ssa::binding_of(store.current@, key) == ssa::binding_of(before.current@, key) by {
            assert(!writes::writes_key(list@, key)) by {
                if writes::writes_key(list@, key) {
                    let k = choose|k: int| 0 <= k < list@.len() && (#[trigger] list@[k]).key == key;
                    assert(given@[k].key == key);
                }
            }
        }
    }
}

pub open spec fn gives_key(given: Seq<SummaryWrite>, key: u64) -> bool {
    exists|i: int| 0 <= i < given.len() && (#[trigger] given[i]).key == key
}

proof fn lemma_wrote_from(before: SsaStore, ready: SsaStore, after: SsaStore, write: KeyWrite, condition: PathCondition)
    requires
        ssa::versions_grow(before.versions@, ready.versions@),
        ready.current@ == before.current@,
        writes::wrote(ready, after, write, condition),
    ensures
        writes::wrote(before, after, write, condition),
{
    let version = choose|version: usize|
        ready.versions@.len() <= version && #[trigger] writes::is_value(after.versions@, version, write, condition) && writes::is_bound(
            ready,
            after,
            write.key,
            version,
            write.dynamic || write.opaque,
        );
    assert(writes::is_value(after.versions@, version, write, condition));
    assert(writes::is_bound(before, after, write.key, version, write.dynamic || write.opaque));
}

} // verus!
