//! Calls of functions: arguments go in, outputs and results come out.
use vstd::prelude::*;
use std::collections::HashMap;
use crate::apply::{Copied, FormalShape, OutputCopy, OutputDestination};
use crate::arena;
use crate::arena::{PathArena, PathCondition, PathNode};
use crate::assign;
use crate::assign::{map_summary_node_sources, write_summary, SummaryKey, SummaryWrite};
use crate::imports;
use crate::layout;
use crate::layout::{FormalVersionLayout, KeyVersion, RegionGroup, RegionVersion};
use crate::order::Ordered;
use crate::partition::{BitPartition, NodeKey};
use crate::path::BranchId;
use crate::realize;
use crate::relation::{PositionRelation, SourceRef};
use crate::results;
use crate::span::{ArraySpan, PackedSpan};
use crate::ssa;
use crate::ssa::{Import, SsaStore, Version};
use crate::writes;

verus! {

/// The keys name nodes of one variable, in ascending order.
pub open spec fn names_variable(nodes: Seq<NodeKey>, keys: Seq<u64>) -> bool {
    &&& forall|i: int| 0 <= i < keys.len() ==> (#[trigger] keys[i]) < nodes.len()
    &&& forall|i: int, j: int| 0 <= i < j < keys.len() ==> nodes[(#[trigger] keys[i]) as int].lt(nodes[(#[trigger] keys[j]) as int])
    &&& forall|i: int, j: int| 0 <= i < keys.len() && 0 <= j < keys.len() ==> nodes[(#[trigger] keys[i]) as int].id == nodes[(#[trigger] keys[j]) as int].id
}

/// The versions are the current ones of the keys.
pub open spec fn are_current(store: SsaStore, nodes: Seq<NodeKey>, keys: Seq<u64>, list: Seq<KeyVersion>) -> bool {
    list.len() == keys.len() && forall|i: int|
        0 <= i < list.len() ==> (#[trigger] list[i]).key == nodes[keys[i] as int] && results::is_current(store, keys[i], list[i].version)
}

/// The current versions of the nodes of a variable.
pub fn current_key_versions(store: &mut SsaStore, nodes: &Vec<NodeKey>, keys: &Vec<u64>) -> (r: Vec<KeyVersion>)
    requires
        old(store).wf(),
        names_variable(nodes@, keys@),
        results::keys_known(*old(store), nodes@),
    ensures
        final(store).wf(),
        writes::continues(*old(store), *final(store)),
        final(store).current@ == old(store).current@,
        results::keys_known(*final(store), nodes@),
        ssa::keeps_guards(*old(store), *final(store)),
        are_current(*final(store), nodes@, keys@, r@),
        forall|i: int| 0 <= i < r@.len() ==> (#[trigger] r@[i]).version < final(store).versions@.len(),
        layout::keys_ascend(r@),
{
    let ghost before = *store;
    proof {
        assert(writes::continues(before, *store)) by {
            assert forall|depth: int| 0 <= depth < before.checkpoints@.len() implies #[trigger] store.saved(depth) == before.saved(depth) by {}
        }
    }
    let mut r: Vec<KeyVersion> = Vec::new();
    let mut i: usize = 0;
    while i < keys.len()
        invariant
            i <= keys@.len(),
            names_variable(nodes@, keys@),
            store.wf(),
            writes::continues(before, *store),
            store.current@ == before.current@,
            results::keys_known(*store, nodes@),
            ssa::keeps_guards(before, *store),
            are_current(*store, nodes@, keys@.take(i as int), r@),
            forall|k: int| 0 <= k < r@.len() ==> (#[trigger] r@[k]).version < store.versions@.len(),
        decreases keys@.len() - i,
    {
        let key: u64 = keys[i];
        let ghost known = *store;
        let version: usize = store.read(key);
        assert(key < nodes@.len() && nodes@.len() == nodes.len());
        let ghost shorter = r@;
        r.push(KeyVersion { key: nodes[key as usize], version });
        proof {
            realize::lemma_same_state(known, *store);
            writes::continues_is_transitive(before, known, *store);
            if known.current@.contains_key(key) {
            } else {
                crate::outputs::lemma_keys_known(known, *store, nodes@, key);
            }
            assert(results::is_current(*store, key, version));
            let taken = keys@.take(i as int);
            let longer = keys@.take(i + 1);
            assert forall|k: int| 0 <= k < r@.len() implies (#[trigger] r@[k]).key == nodes@[longer[k] as int] && results::is_current(*store, longer[k], r@[k].version) by {
                if k < i {
                    assert(r@[k] == shorter[k] && taken[k] == longer[k]);
                    if !known.current@.contains_key(taken[k]) {
                        writes::lemma_entry_kept(known, *store, taken[k]);
                    }
                }
            }
        }
        i = i + 1;
    }
    proof {
        assert(keys@.take(i as int) =~= keys@);
        assert forall|a: int, b: int| 0 <= a < b < r@.len() implies (#[trigger] r@[a]).key.lt((#[trigger] r@[b]).key) by {
            assert(nodes@[keys@[a] as int].lt(nodes@[keys@[b] as int]));
        }
    }
    r
}

/// The groups list the current versions of the nodes of a variable by their regions.
pub open spec fn lists_current(store: SsaStore, partition: BitPartition, nodes: Seq<NodeKey>, keys: Seq<u64>, groups: Seq<RegionGroup>) -> bool {
    exists|list: Seq<KeyVersion>| #[trigger] are_current(store, nodes, keys, list) && lists_versions(partition, list, groups)
}

pub open spec fn lists_versions(partition: BitPartition, list: Seq<KeyVersion>, groups: Seq<RegionGroup>) -> bool {
    forall|array: ArraySpan, packed: PackedSpan, version: usize| #[trigger]
        layout::lists_version(groups, array, packed, version) <==> layout::names_version(
            partition.regions@,
            list,
            list.len() as int,
            array,
            packed,
            version,
        )
}

pub(crate) proof fn lemma_groups_below(partition: BitPartition, list: Seq<KeyVersion>, groups: Seq<RegionGroup>, limit: int)
    requires
        layout::groups_wf(groups),
        lists_versions(partition, list, groups),
        forall|i: int| 0 <= i < list.len() ==> (#[trigger] list[i]).version < limit,
    ensures
        results::result_below(groups, limit),
{
    assert forall|g: int, k: int| 0 <= g < groups.len() && 0 <= k < groups[g].regions@.len() implies (#[trigger] groups[g].regions@[k]).version < limit
        && groups[g].regions@[k].packed.wf() by {
        let region = groups[g].regions@[k];
        assert(layout::lists_version(groups, groups[g].array, region.packed, region.version));
        assert(layout::names_version(partition.regions@, list, list.len() as int, groups[g].array, region.packed, region.version));
    }
}

/// The current versions of a variable by their regions.
pub fn current_region_groups(store: &mut SsaStore, partition: &BitPartition, nodes: &Vec<NodeKey>, keys: &Vec<u64>) -> (r: Vec<RegionGroup>)
    requires
        old(store).wf(),
        partition.wf(),
        names_variable(nodes@, keys@),
        results::keys_known(*old(store), nodes@),
    ensures
        final(store).wf(),
        writes::continues(*old(store), *final(store)),
        final(store).current@ == old(store).current@,
        results::keys_known(*final(store), nodes@),
        ssa::keeps_guards(*old(store), *final(store)),
        layout::groups_wf(r@),
        lists_current(*final(store), *partition, nodes@, keys@, r@),
        results::result_below(r@, final(store).versions@.len() as int),
{
    let list = current_key_versions(store, nodes, keys);
    proof {
        lemma_one_variable(*store, nodes@, keys@, list@);
    }
    let layout = FormalVersionLayout::new(&list, partition);
    proof {
        assert(lists_versions(*partition, list@, layout.groups@));
        lemma_groups_below(*partition, list@, layout.groups@, store.versions@.len() as int);
    }
    layout.groups
}

pub(crate) proof fn lemma_one_variable(store: SsaStore, nodes: Seq<NodeKey>, keys: Seq<u64>, list: Seq<KeyVersion>)
    requires
        names_variable(nodes, keys),
        are_current(store, nodes, keys, list),
    ensures
        forall|i: int, j: int| 0 <= i < list.len() && 0 <= j < list.len() ==> (#[trigger] list[i]).key.id == (#[trigger] list[j]).key.id,
{
    assert forall|i: int, j: int| 0 <= i < list.len() && 0 <= j < list.len() implies (#[trigger] list[i]).key.id == (#[trigger] list[j]).key.id by {
        assert(nodes[keys[i] as int].id == nodes[keys[j] as int].id);
    }
}

/// An output argument of a call.
pub struct OutputArgument {
    /// The keys of the argument's nodes.
    pub keys: Vec<u64>,
    pub formal: Option<FormalShape>,
    pub destinations: Vec<OutputDestination>,
}

impl OutputArgument {
    pub open spec fn wf(self, nodes: Seq<NodeKey>, limit: int) -> bool {
        &&& names_variable(nodes, self.keys@)
        &&& forall|i: int| 0 <= i < self.destinations@.len() ==> (#[trigger] self.destinations@[i]).wf(nodes, limit)
    }

    /// The versions of the argument at `middle` are copied.
    pub open spec fn copies<'a>(self, partition: BitPartition, nodes: Seq<NodeKey>, middle: SsaStore, list: Seq<KeyVersion>, copy: OutputCopy<'a>) -> bool {
        &&& are_current(middle, nodes, self.keys@, list)
        &&& *copy.partition == partition
        &&& copy.nodes@ == nodes
        &&& copy.versions@ == list.map_values(|v: KeyVersion| v.version)
        &&& lists_versions(partition, list, copy.layout.groups@)
        &&& copy.formal == self.formal
        &&& copy.destinations@ == self.destinations@
    }

    /// The argument is read and copied.
    pub open spec fn copied(
        self,
        partition: BitPartition,
        nodes: Seq<NodeKey>,
        before: SsaStore,
        after: SsaStore,
        paths: Seq<PathNode>,
        more: Seq<PathNode>,
        condition: PathCondition,
    ) -> bool {
        exists|middle: SsaStore, list: Seq<KeyVersion>, copy: OutputCopy|
            writes::continues(before, middle) && middle.current@ == before.current@ && #[trigger] self.copies(partition, nodes, middle, list, copy)
                && copy.all_written(middle, after, paths, more, self.destinations@.len() as int, condition)
    }

    /// The argument is read, and cannot be copied.
    pub open spec fn copy_stops(
        self,
        partition: BitPartition,
        nodes: Seq<NodeKey>,
        before: SsaStore,
        after: SsaStore,
        paths: Seq<PathNode>,
        more: Seq<PathNode>,
        condition: PathCondition,
    ) -> bool {
        exists|middle: SsaStore, list: Seq<KeyVersion>, copy: OutputCopy|
            writes::continues(before, middle) && middle.current@ == before.current@ && #[trigger] self.copies(partition, nodes, middle, list, copy)
                && copy.copy_stops(middle, after, paths, more, condition)
    }

    /// Some width is not known.
    pub open spec fn partial(self) -> bool {
        self.formal is None || exists|i: int| 0 <= i < self.destinations@.len() && (#[trigger] self.destinations@[i]).width is None
    }

    /// Copies the current value of the argument to its destinations.
    pub fn copy_argument(&self, store: &mut SsaStore, arena: &mut PathArena, partition: &BitPartition, nodes: &Vec<NodeKey>, condition: PathCondition) -> (r: Copied)
        requires
            self.wf(nodes@, old(store).versions@.len() as int),
            partition.wf(),
            results::tied(*old(store), *old(arena)),
            results::keys_known(*old(store), nodes@),
            old(arena).holds(condition),
        ensures
            results::tied(*final(store), *final(arena)),
            results::keys_known(*final(store), nodes@),
            arena::grows(old(arena)@, final(arena)@),
            writes::continues(*old(store), *final(store)),
            r.partial == self.partial(),
            r.partial ==> r.fits,
            r.fits ==> self.copied(*partition, nodes@, *old(store), *final(store), old(arena)@, final(arena)@, condition),
            !r.fits ==> self.copy_stops(*partition, nodes@, *old(store), *final(store), old(arena)@, final(arena)@, condition),
    {
        let ghost before = *store;
        let list = current_key_versions(store, nodes, &self.keys);
        proof {
            lemma_one_variable(*store, nodes@, self.keys@, list@);
        }
        let layout = FormalVersionLayout::new(&list, partition);
        let mut versions: Vec<usize> = Vec::new();
        let mut i: usize = 0;
        while i < list.len()
            invariant
                i <= list@.len(),
                versions@.len() == i,
                forall|k: int| 0 <= k < i ==> (#[trigger] versions@[k]) == list@[k].version,
            decreases list@.len() - i,
        {
            versions.push(list[i].version);
            i = i + 1;
        }
        let copy = OutputCopy { partition, nodes, versions: &versions, layout: &layout, formal: self.formal, destinations: &self.destinations };
        let ghost middle = *store;
        let ghost paths = arena@;
        proof {
            assert(versions@ =~= list@.map_values(|v: KeyVersion| v.version));
            assert(lists_versions(*partition, list@, layout.groups@));
            lemma_groups_below(*partition, list@, layout.groups@, store.versions@.len() as int);
            assert forall|k: int| 0 <= k < self.destinations@.len() implies (#[trigger] self.destinations@[k]).wf(nodes@, store.versions@.len() as int) by {
                let destination = self.destinations@[k];
                assert(destination.wf(nodes@, before.versions@.len() as int));
            }
            assert(copy.wf(*store));
            assert(self.copies(*partition, nodes@, middle, list@, copy));
            assert(store.guards_in(arena@));
        }
        let r = copy.copy_out(store, arena, condition);
        proof {
            writes::continues_is_transitive(before, middle, *store);
            if r.fits {
                assert(copy.all_written(middle, *store, paths, arena@, self.destinations@.len() as int, condition));
                assert(self.copies(*partition, nodes@, middle, list@, copy));
            }
        }
        r
    }
}

/// The first `count` arguments are copied, one after the other.
pub open spec fn arguments_copied(
    partition: BitPartition,
    nodes: Seq<NodeKey>,
    outputs: Seq<OutputArgument>,
    before: SsaStore,
    after: SsaStore,
    paths: Seq<PathNode>,
    more: Seq<PathNode>,
    count: int,
    condition: PathCondition,
) -> bool
    decreases count,
{
    if count <= 0 {
        after == before && more == paths
    } else {
        exists|middle: SsaStore, between: Seq<PathNode>|
            arguments_copied(partition, nodes, outputs, before, middle, paths, between, count - 1, condition) && #[trigger] outputs[count - 1].copied(
                partition,
                nodes,
                middle,
                after,
                between,
                more,
                condition,
            )
    }
}

/// Some argument has a destination of unknown width.
pub open spec fn any_partial(outputs: Seq<OutputArgument>) -> bool {
    exists|i: int| 0 <= i < outputs.len() && (#[trigger] outputs[i]).partial()
}

/// The arguments before `at` are copied, and the one at `at` cannot be; `partial` says that one before
/// it has a destination of unknown width.
pub open spec fn argument_missing(
    partition: BitPartition,
    nodes: Seq<NodeKey>,
    outputs: Seq<OutputArgument>,
    before: SsaStore,
    middle: SsaStore,
    after: SsaStore,
    paths: Seq<PathNode>,
    between: Seq<PathNode>,
    more: Seq<PathNode>,
    at: int,
    condition: PathCondition,
    partial: bool,
) -> bool {
    &&& 0 <= at < outputs.len()
    &&& arguments_copied(partition, nodes, outputs, before, middle, paths, between, at, condition)
    &&& outputs[at].copy_stops(partition, nodes, middle, after, between, more, condition)
    &&& partial == any_partial(outputs.take(at))
}

/// One of the arguments cannot be copied; those before it are copied.
pub open spec fn arguments_stop(
    partition: BitPartition,
    nodes: Seq<NodeKey>,
    outputs: Seq<OutputArgument>,
    before: SsaStore,
    after: SsaStore,
    paths: Seq<PathNode>,
    more: Seq<PathNode>,
    condition: PathCondition,
    partial: bool,
) -> bool {
    exists|middle: SsaStore, between: Seq<PathNode>, at: int| #[trigger]
        argument_missing(partition, nodes, outputs, before, middle, after, paths, between, more, at, condition, partial)
}

/// Copies all output arguments of a call. Where an offset does not fit, the rest is not copied.
pub fn copy_arguments(store: &mut SsaStore, arena: &mut PathArena, partition: &BitPartition, nodes: &Vec<NodeKey>, outputs: &Vec<OutputArgument>, condition: PathCondition) -> (r: Copied)
    requires
        forall|i: int| 0 <= i < outputs@.len() ==> (#[trigger] outputs@[i]).wf(nodes@, old(store).versions@.len() as int),
        partition.wf(),
        results::tied(*old(store), *old(arena)),
        results::keys_known(*old(store), nodes@),
        old(arena).holds(condition),
    ensures
        results::tied(*final(store), *final(arena)),
        results::keys_known(*final(store), nodes@),
        arena::grows(old(arena)@, final(arena)@),
        writes::continues(*old(store), *final(store)),
        r.fits ==> r.partial == any_partial(outputs@) && arguments_copied(
            *partition,
            nodes@,
            outputs@,
            *old(store),
            *final(store),
            old(arena)@,
            final(arena)@,
            outputs@.len() as int,
            condition,
        ),
        !r.fits ==> arguments_stop(
            *partition,
            nodes@,
            outputs@,
            *old(store),
            *final(store),
            old(arena)@,
            final(arena)@,
            condition,
            r.partial,
        ),
{
    let ghost before = *store;
    let ghost paths = arena@;
    proof {
        assert(writes::continues(before, *store)) by {
            assert forall|depth: int| 0 <= depth < before.checkpoints@.len() implies #[trigger] store.saved(depth) == before.saved(depth) by {}
        }
    }
    let mut partial = false;
    let mut i: usize = 0;
    while i < outputs.len()
        invariant
            i <= outputs@.len(),
            before == *old(store),
            paths == old(arena)@,
            paths.len() > condition.node,
            forall|k: int| 0 <= k < outputs@.len() ==> (#[trigger] outputs@[k]).wf(nodes@, before.versions@.len() as int),
            partition.wf(),
            results::tied(*store, *arena),
            results::keys_known(*store, nodes@),
            arena::grows(paths, arena@),
            writes::continues(before, *store),
            partial == exists|k: int| 0 <= k < i && (#[trigger] outputs@[k]).partial(),
            arguments_copied(*partition, nodes@, outputs@, before, *store, paths, arena@, i as int, condition),
        decreases outputs@.len() - i,
    {
        let ghost known = *store;
        let ghost between = arena@;
        proof {
            let output = outputs@[i as int];
            assert(output.wf(nodes@, before.versions@.len() as int));
            assert forall|k: int| 0 <= k < output.destinations@.len() implies (#[trigger] output.destinations@[k]).wf(nodes@, store.versions@.len() as int) by {
                assert(output.destinations@[k].wf(nodes@, before.versions@.len() as int));
            }
        }
        let copied = outputs[i].copy_argument(store, arena, partition, nodes, condition);
        proof {
            arena::growth_is_transitive(paths, between, arena@);
            writes::continues_is_transitive(before, known, *store);
        }
        if copied.partial {
            partial = true;
        }
        if !copied.fits {
            proof {
                lemma_some_partial(outputs@, i as int);
                assert(argument_missing(*partition, nodes@, outputs@, before, known, *store, paths, between, arena@, i as int, condition, partial));
            }
            return Copied { partial, fits: false };
        }
        proof {
            let n = i + 1;
            assert(outputs@[n - 1].copied(*partition, nodes@, known, *store, between, arena@, condition));
            assert(arguments_copied(*partition, nodes@, outputs@, before, *store, paths, arena@, n, condition));
        }
        i = i + 1;
    }
    Copied { partial, fits: true }
}

proof fn lemma_some_partial(outputs: Seq<OutputArgument>, count: int)
    requires
        0 <= count <= outputs.len(),
    ensures
        any_partial(outputs.take(count)) == exists|k: int| 0 <= k < count && (#[trigger] outputs[k]).partial(),
{
    let first = outputs.take(count);
    if any_partial(first) {
        let k = choose|k: int| 0 <= k < first.len() && (#[trigger] first[k]).partial();
        assert(outputs[k].partial());
    }
    if exists|k: int| 0 <= k < count && (#[trigger] outputs[k]).partial() {
        let k = choose|k: int| 0 <= k < count && (#[trigger] outputs[k]).partial();
        assert(first[k].partial());
    }
}


/// A part of the result of a summarised function.
#[derive(Clone, Copy, Debug, PartialEq, Eq)]
pub struct ResultRegion {
    pub packed: PackedSpan,
    pub root: Option<usize>,
}

/// The parts of the result in some elements.
pub struct ResultGroup {
    pub array: ArraySpan,
    pub regions: Vec<ResultRegion>,
}

/// The version is a root of an import, under the condition of the call.
pub open spec fn is_result(versions: Seq<Version>, import: usize, root: Option<usize>, condition: Option<PathCondition>, version: usize) -> bool {
    match condition {
        None => assign::is_imported(versions, version, import, root),
        Some(condition) => exists|imported: usize| #[trigger]
            assign::is_imported(versions, imported, import, root) && writes::is_definition(
                versions,
                version as int,
                seq![SourceRef { version: imported, relation: PositionRelation::identity() }],
                condition,
            ),
    }
}

/// The regions of a group are those of the summary.
pub open spec fn are_results(versions: Seq<Version>, import: usize, condition: Option<PathCondition>, given: Seq<ResultRegion>, list: Seq<RegionVersion>) -> bool {
    list.len() == given.len() && forall|i: int|
        0 <= i < list.len() ==> (#[trigger] list[i]).packed == given[i].packed && is_result(versions, import, given[i].root, condition, list[i].version)
}

/// The groups are those of the summary.
pub open spec fn result_groups(versions: Seq<Version>, import: usize, condition: Option<PathCondition>, given: Seq<ResultGroup>, groups: Seq<RegionGroup>) -> bool {
    groups.len() == given.len() && forall|i: int|
        0 <= i < groups.len() ==> (#[trigger] groups[i]).array == given[i].array && are_results(
            versions,
            import,
            condition,
            given[i].regions@,
            groups[i].regions@,
        )
}

/// The roots that the result of a summary names are nodes of its graph.
pub open spec fn roots_known(store: SsaStore, import: usize, given: Seq<ResultGroup>) -> bool {
    forall|g: int, k: int|
        0 <= g < given.len() && 0 <= k < given[g].regions@.len() ==> ((#[trigger] given[g].regions@[k]).root matches Some(root) ==> root
            < store.graphs@[store.imports@[import as int].graph as int].nodes@.len())
}

/// The import can be used by versions.
pub open spec fn import_ready(store: SsaStore, import: usize) -> bool {
    import < store.imports@.len() && imports::bindings_before(store.imports@[import as int].bindings@, store.versions@.len() as int)
}

proof fn lemma_ready_kept(before: SsaStore, after: SsaStore, import: usize)
    requires
        import_ready(before, import),
        after.imports == before.imports,
        before.versions@.len() <= after.versions@.len(),
    ensures
        import_ready(after, import),
{
    let bindings = before.imports@[import as int].bindings@;
    assert forall|b: int| 0 <= b < bindings.len() implies ssa::sources_before((#[trigger] bindings[b]).sources@, after.versions@.len() as int) by {
        assert(ssa::sources_before(bindings[b].sources@, before.versions@.len() as int));
    }
}

proof fn lemma_result_kept(a: Seq<Version>, b: Seq<Version>, import: usize, root: Option<usize>, condition: Option<PathCondition>, version: usize)
    requires
        ssa::versions_grow(a, b),
        is_result(a, import, root, condition, version),
    ensures
        is_result(b, import, root, condition, version),
{
    match condition {
        None => {
            assert(a[version as int] == b[version as int]);
        },
        Some(condition) => {
            let imported = choose|imported: usize| #[trigger]
                assign::is_imported(a, imported, import, root) && writes::is_definition(
                    a,
                    version as int,
                    seq![SourceRef { version: imported, relation: PositionRelation::identity() }],
                    condition,
                );
            assert(a[version as int] == b[version as int]);
            assert(a[imported as int] == b[imported as int]);
            assert(assign::is_imported(b, imported, import, root));
        },
    }
}

/// A root of an import, under the condition of the call.
fn import_result(store: &mut SsaStore, import: usize, root: Option<usize>, condition: Option<PathCondition>) -> (r: usize)
    requires
        old(store).wf(),
        import_ready(*old(store), import),
        root matches Some(root) ==> root < old(store).graphs@[old(store).imports@[import as int].graph as int].nodes@.len(),
    ensures
        final(store).wf(),
        writes::continues(*old(store), *final(store)),
        final(store).current@ == old(store).current@,
        final(store).entries@ == old(store).entries@,
        is_result(final(store).versions@, import, root, condition, r),
        forall|nodes: Seq<PathNode>| #[trigger]
            old(store).guards_in(nodes) && (condition matches Some(condition) ==> condition.node < nodes.len()) ==> final(store).guards_in(nodes),
{
    let ghost before = *store;
    assert((Version::Imported { import, root }).wf(store.versions@.len() as int, store.graphs@, store.imports@));
    let imported: usize = store.imported_shared(import, root);
    let ghost middle = *store;
    proof {
        realize::lemma_same_state(before, middle);
    }
    match condition {
        None => imported,
        Some(condition) => {
            let mut sources: Vec<SourceRef> = Vec::new();
            sources.push(SourceRef { version: imported, relation: PositionRelation::default() });
            let version: usize = store.related_definition_guarded(&sources, condition);
            proof {
                realize::lemma_same_state(middle, *store);
                writes::continues_is_transitive(before, middle, *store);
                assert(sources@ =~= seq![SourceRef { version: imported, relation: PositionRelation::identity() }]);
                assert(middle.versions@[imported as int] == store.versions@[imported as int]);
                assert(assign::is_imported(store.versions@, imported, import, root));
                assert(writes::is_definition(store.versions@, version as int, sources@, condition));
            }
            version
        },
    }
}

fn import_regions(store: &mut SsaStore, import: usize, given: &Vec<ResultRegion>, condition: Option<PathCondition>) -> (r: Vec<RegionVersion>)
    requires
        old(store).wf(),
        import_ready(*old(store), import),
        forall|k: int|
            0 <= k < given@.len() ==> ((#[trigger] given@[k]).root matches Some(root) ==> root < old(store).graphs@[old(store).imports@[import as int].graph as int].nodes@.len()),
    ensures
        final(store).wf(),
        writes::continues(*old(store), *final(store)),
        final(store).current@ == old(store).current@,
        final(store).entries@ == old(store).entries@,
        are_results(final(store).versions@, import, condition, given@, r@),
        forall|nodes: Seq<PathNode>| #[trigger]
            old(store).guards_in(nodes) && (condition matches Some(condition) ==> condition.node < nodes.len()) ==> final(store).guards_in(nodes),
{
    let ghost before = *store;
    proof {
        assert(writes::continues(before, *store)) by {
            assert forall|depth: int| 0 <= depth < before.checkpoints@.len() implies #[trigger] store.saved(depth) == before.saved(depth) by {}
        }
    }
    let mut r: Vec<RegionVersion> = Vec::new();
    let mut i: usize = 0;
    while i < given.len()
        invariant
            i <= given@.len(),
            store.wf(),
            import_ready(before, import),
            forall|k: int|
                0 <= k < given@.len() ==> ((#[trigger] given@[k]).root matches Some(root) ==> root < before.graphs@[before.imports@[import as int].graph as int].nodes@.len()),
            writes::continues(before, *store),
            store.current@ == before.current@,
            store.entries@ == before.entries@,
            are_results(store.versions@, import, condition, given@.take(i as int), r@),
            forall|nodes: Seq<PathNode>| #[trigger]
                before.guards_in(nodes) && (condition matches Some(condition) ==> condition.node < nodes.len()) ==> store.guards_in(nodes),
        decreases given@.len() - i,
    {
        let region = given[i];
        let ghost known = *store;
        proof {
            assert(given@[i as int] == region);
            lemma_ready_kept(before, *store, import);
        }
        let version: usize = import_result(store, import, region.root, condition);
        let ghost shorter = r@;
        r.push(RegionVersion { packed: region.packed, version });
        proof {
            writes::continues_is_transitive(before, known, *store);
            let taken = given@.take(i as int);
            let longer = given@.take(i + 1);
            assert forall|k: int| 0 <= k < r@.len() implies (#[trigger] r@[k]).packed == longer[k].packed && is_result(
                store.versions@,
                import,
                longer[k].root,
                condition,
                r@[k].version,
            ) by {
                if k < i {
                    assert(r@[k] == shorter[k] && taken[k] == longer[k]);
                    lemma_result_kept(known.versions@, store.versions@, import, taken[k].root, condition, shorter[k].version);
                }
            }
        }
        i = i + 1;
    }
    assert(given@.take(i as int) =~= given@);
    r
}

/// The result of a summarised function.
pub fn import_results(store: &mut SsaStore, import: usize, given: &Vec<ResultGroup>, condition: Option<PathCondition>) -> (r: Vec<RegionGroup>)
    requires
        old(store).wf(),
        import_ready(*old(store), import),
        roots_known(*old(store), import, given@),
    ensures
        final(store).wf(),
        writes::continues(*old(store), *final(store)),
        final(store).current@ == old(store).current@,
        final(store).entries@ == old(store).entries@,
        result_groups(final(store).versions@, import, condition, given@, r@),
        forall|nodes: Seq<PathNode>| #[trigger]
            old(store).guards_in(nodes) && (condition matches Some(condition) ==> condition.node < nodes.len()) ==> final(store).guards_in(nodes),
{
    let ghost before = *store;
    proof {
        assert(writes::continues(before, *store)) by {
            assert forall|depth: int| 0 <= depth < before.checkpoints@.len() implies #[trigger] store.saved(depth) == before.saved(depth) by {}
        }
    }
    let mut r: Vec<RegionGroup> = Vec::new();
    let mut i: usize = 0;
    while i < given.len()
        invariant
            i <= given@.len(),
            store.wf(),
            import_ready(before, import),
            roots_known(before, import, given@),
            writes::continues(before, *store),
            store.current@ == before.current@,
            store.entries@ == before.entries@,
            result_groups(store.versions@, import, condition, given@.take(i as int), r@),
            forall|nodes: Seq<PathNode>| #[trigger]
                before.guards_in(nodes) && (condition matches Some(condition) ==> condition.node < nodes.len()) ==> store.guards_in(nodes),
        decreases given@.len() - i,
    {
        let group = &given[i];
        let ghost known = *store;
        proof {
            lemma_ready_kept(before, *store, import);
            assert forall|k: int| 0 <= k < group.regions@.len() implies ((#[trigger] group.regions@[k]).root matches Some(root) ==> root
                < store.graphs@[store.imports@[import as int].graph as int].nodes@.len()) by {
                assert(given@[i as int].regions@[k].root == group.regions@[k].root);
            }
        }
        let regions = import_regions(store, import, &group.regions, condition);
        let ghost shorter = r@;
        r.push(RegionGroup { array: group.array, regions });
        proof {
            writes::continues_is_transitive(before, known, *store);
            let taken = given@.take(i as int);
            let longer = given@.take(i + 1);
            assert forall|k: int| 0 <= k < r@.len() implies (#[trigger] r@[k]).array == longer[k].array && are_results(
                store.versions@,
                import,
                condition,
                longer[k].regions@,
                r@[k].regions@,
            ) by {
                if k < i {
                    assert(r@[k] == shorter[k] && taken[k] == longer[k]);
                    let list = shorter[k].regions@;
                    assert(are_results(known.versions@, import, condition, taken[k].regions@, list));
                    assert forall|m: int| 0 <= m < list.len() implies (#[trigger] list[m]).packed == taken[k].regions@[m].packed && is_result(
                        store.versions@,
                        import,
                        taken[k].regions@[m].root,
                        condition,
                        list[m].version,
                    ) by {
                        lemma_result_kept(known.versions@, store.versions@, import, taken[k].regions@[m].root, condition, list[m].version);
                    }
                }
            }
        }
        i = i + 1;
    }
    assert(given@.take(i as int) =~= given@);
    r
}

/// What a function does, as its callers see it.
pub struct FunctionSummary {
    /// The number of the graph of the function.
    pub graph: usize,
    /// The keys that the graph reads from outside, in ascending order.
    pub keys: Vec<SummaryKey>,
    pub writes: Vec<SummaryWrite>,
    pub result: Vec<ResultGroup>,
    /// The function was analysed completely.
    pub complete: bool,
}

impl FunctionSummary {
    pub open spec fn wf(self, store: SsaStore, nodes: Seq<NodeKey>) -> bool {
        &&& self.graph < store.graphs@.len()
        &&& forall|i: int, j: int| 0 <= i < j < self.keys@.len() ==> (#[trigger] self.keys@[i]).key < (#[trigger] self.keys@[j]).key
        &&& forall|i: int| 0 <= i < self.keys@.len() ==> ((#[trigger] self.keys@[i]).outer matches Some(outer) ==> outer < nodes.len())
        &&& forall|i: int, j: int| 0 <= i < j < self.writes@.len() ==> (#[trigger] self.writes@[i]).key != (#[trigger] self.writes@[j]).key
        &&& forall|i: int| 0 <= i < self.writes@.len() ==> (#[trigger] self.writes@[i]).key < nodes.len()
        &&& forall|i: int| 0 <= i < self.writes@.len() ==> ((#[trigger] self.writes@[i]).root matches Some(root) ==> root < store.graphs@[self.graph as int].nodes@.len())
        &&& forall|g: int, k: int|
            0 <= g < self.result@.len() && 0 <= k < self.result@[g].regions@.len() ==> ((#[trigger] self.result@[g].regions@[k]).root matches Some(root) ==> root
                < store.graphs@[self.graph as int].nodes@.len())
    }
}


/// The condition of the result: none where the call is made on every path.
pub open spec fn call_guard(paths: Seq<PathNode>, condition: PathCondition) -> Option<PathCondition> {
    if arena::path_of(paths, condition.node as int).len() == 0 {
        None
    } else {
        Some(condition)
    }
}

/// What came of a call.
pub struct Applied {
    pub groups: Vec<RegionGroup>,
    /// The analysis of the call is not complete.
    pub partial: bool,
    /// All offsets on the way fit.
    pub fits: bool,
}

/// A call of a summarised function.
pub struct SummaryCall<'a> {
    pub partition: &'a BitPartition,
    pub nodes: &'a Vec<NodeKey>,
    pub summary: &'a FunctionSummary,
    /// What was found for the nodes of the arguments.
    pub actuals: &'a HashMap<u64, Vec<SourceRef>>,
    /// What decides on the call.
    pub controls: &'a Vec<usize>,
    pub outputs: &'a Vec<OutputArgument>,
    pub condition: PathCondition,
}

impl<'a> SummaryCall<'a> {
    pub open spec fn wf(self, store: SsaStore) -> bool {
        &&& self.partition.wf()
        &&& self.summary.wf(store, self.nodes@)
        &&& results::keys_known(store, self.nodes@)
        &&& forall|key: u64| #[trigger] self.actuals@.contains_key(key) ==> ssa::sources_before(self.actuals@[key]@, store.versions@.len() as int)
        &&& forall|i: int| 0 <= i < self.controls@.len() ==> (#[trigger] self.controls@[i]) < store.versions@.len()
        &&& forall|i: int| 0 <= i < self.outputs@.len() ==> (#[trigger] self.outputs@[i]).wf(self.nodes@, store.versions@.len() as int)
    }

    /// The keys of the summary are bound, and its graph is imported.
    pub open spec fn linked(self, before: SsaStore, bound: SsaStore, linked: SsaStore, mapping: Seq<(BranchId, BranchId)>) -> bool {
        &&& writes::continues(before, bound)
        &&& bound.current@ == before.current@
        &&& linked.graphs == bound.graphs
        &&& imports::keeps_all_but_imports(bound, linked)
        &&& linked.imports@.len() == bound.imports@.len() + 1
        &&& linked.imports@.drop_last() == bound.imports@
        &&& linked.imports@.last().graph == self.summary.graph
        &&& linked.imports@.last().mapping@ == mapping
        &&& linked.imports@.last().bindings@.len() == self.summary.keys@.len()
        &&& forall|i: int|
            0 <= i < self.summary.keys@.len() ==> (#[trigger] linked.imports@.last().bindings@[i]).key == self.summary.keys@[i].key && assign::binds_key(
                bound,
                self.actuals@,
                self.summary.keys@[i],
                linked.imports@.last().bindings@[i].sources@,
            )
    }

    /// What the function writes is written.
    pub open spec fn wrote(self, linked: SsaStore, wrote: SsaStore) -> bool {
        let import = (linked.imports@.len() - 1) as usize;
        &&& writes::continues(linked, wrote)
        &&& exists|list: Seq<writes::KeyWrite>|
            #![trigger assign::summary_writes(wrote.versions@, import, self.summary.writes@, self.controls@, list)]
            assign::summary_writes(wrote.versions@, import, self.summary.writes@, self.controls@, list) && assign::all_wrote(linked, wrote, list, self.condition)
        &&& forall|key: u64|
            !assign::gives_key(self.summary.writes@, key) ==> #[trigger] ssa::binding_of(wrote.current@, key) == ssa::binding_of(linked.current@, key)
    }

    /// The call: the graph is imported with its keys bound, what the function writes is written, the
    /// output arguments are copied, and the result is imported.
    pub open spec fn steps(
        self,
        before: SsaStore,
        bound: SsaStore,
        linked: SsaStore,
        wrote: SsaStore,
        copied: SsaStore,
        after: SsaStore,
        paths: Seq<PathNode>,
        more: Seq<PathNode>,
        mapping: Seq<(BranchId, BranchId)>,
        groups: Seq<RegionGroup>,
    ) -> bool {
        &&& self.linked(before, bound, linked, mapping)
        &&& self.wrote(linked, wrote)
        &&& arguments_copied(*self.partition, self.nodes@, self.outputs@, wrote, copied, paths, more, self.outputs@.len() as int, self.condition)
        &&& writes::continues(copied, after)
        &&& after.current@ == copied.current@
        &&& result_groups(after.versions@, (linked.imports@.len() - 1) as usize, call_guard(paths, self.condition), self.summary.result@, groups)
    }

    /// The call changes the store in the steps of a call.
    pub open spec fn applied(
        self,
        before: SsaStore,
        after: SsaStore,
        paths: Seq<PathNode>,
        more: Seq<PathNode>,
        mapping: Seq<(BranchId, BranchId)>,
        groups: Seq<RegionGroup>,
    ) -> bool {
        exists|bound: SsaStore, linked: SsaStore, wrote: SsaStore, copied: SsaStore| #[trigger]
            self.steps(before, bound, linked, wrote, copied, after, paths, more, mapping, groups)
    }

    /// The call as far as it goes where an output argument cannot be copied.
    pub open spec fn steps_stop(
        self,
        before: SsaStore,
        bound: SsaStore,
        linked: SsaStore,
        wrote: SsaStore,
        after: SsaStore,
        paths: Seq<PathNode>,
        more: Seq<PathNode>,
        mapping: Seq<(BranchId, BranchId)>,
        partial: bool,
    ) -> bool {
        &&& self.linked(before, bound, linked, mapping)
        &&& self.wrote(linked, wrote)
        &&& arguments_stop(*self.partition, self.nodes@, self.outputs@, wrote, after, paths, more, self.condition, partial)
    }

    /// An output argument of the call cannot be copied.
    pub open spec fn stops(
        self,
        before: SsaStore,
        after: SsaStore,
        paths: Seq<PathNode>,
        more: Seq<PathNode>,
        mapping: Seq<(BranchId, BranchId)>,
        partial: bool,
    ) -> bool {
        exists|bound: SsaStore, linked: SsaStore, wrote: SsaStore, some: bool| #[trigger]
            self.steps_stop(before, bound, linked, wrote, after, paths, more, mapping, some) && partial == (some || !self.summary.complete)
    }

    /// Applies the summary of a function at a call. The branches of its graph are renamed. Where an
    /// offset does not fit, the rest of the output arguments is not copied and there is no result.
    pub fn apply_function_summary(&self, store: &mut SsaStore, arena: &mut PathArena, mapping: Vec<(BranchId, BranchId)>) -> (r: Applied)
        requires
            self.wf(*old(store)),
            results::tied(*old(store), *old(arena)),
            old(arena).holds(self.condition),
            forall|i: int, j: int| 0 <= i < j < mapping@.len() ==> (#[trigger] mapping@[i]).0.lt((#[trigger] mapping@[j]).0),
            ssa::renames_graph(mapping@, old(store).graphs@[self.summary.graph as int], old(arena)@),
        ensures
            results::tied(*final(store), *final(arena)),
            results::keys_known(*final(store), self.nodes@),
            arena::grows(old(arena)@, final(arena)@),
            ssa::versions_grow(old(store).versions@, final(store).versions@),
            r.fits ==> r.partial == (!self.summary.complete || any_partial(self.outputs@)) && self.applied(
                *old(store),
                *final(store),
                old(arena)@,
                final(arena)@,
                mapping@,
                r.groups@,
            ),
            !r.fits ==> r.groups@.len() == 0 && self.stops(
                *old(store),
                *final(store),
                old(arena)@,
                final(arena)@,
                mapping@,
                r.partial,
            ),
    {
        let ghost before = *store;
        let ghost paths = arena@;
        let guard: Option<PathCondition> = if arena.is_unconditional(self.condition) {
            None
        } else {
            Some(self.condition)
        };
        assert(guard == call_guard(paths, self.condition));
        let bindings = map_summary_node_sources(store, &self.summary.keys, self.actuals);
        let ghost bound = *store;
        let ghost given = mapping@;
        let import = Import { graph: self.summary.graph, bindings, mapping };
        proof {
            assert(assign::outer_known(self.summary.keys@, self.nodes@));
            assert(results::keys_known(bound, self.nodes@));
            assert(ssa::bindings_sorted(import.bindings@)) by {
                assert forall|i: int, j: int| 0 <= i < j < import.bindings@.len() implies (#[trigger] import.bindings@[i]).key < (#[trigger] import.bindings@[j]).key by {
                    assert(self.summary.keys@[i].key < self.summary.keys@[j].key);
                }
            }
            assert(store.guards_in(arena@));
        }
        let number: usize = store.add_import(import);
        let ghost linked = *store;
        proof {
            assert(linked.imports@.drop_last() =~= bound.imports@);
            assert(self.linked(before, bound, linked, given));
            assert(import_ready(linked, number)) by {
                assert forall|b: int| 0 <= b < import.bindings@.len() implies ssa::sources_before((#[trigger] import.bindings@[b]).sources@, linked.versions@.len() as int) by {
                    assert(bindings@[b] == import.bindings@[b]);
                }
            }
            assert forall|i: int| 0 <= i < self.summary.writes@.len() implies ((#[trigger] self.summary.writes@[i]).root matches Some(root) ==> root
                < linked.graphs@[linked.imports@[number as int].graph as int].nodes@.len()) by {}
        }
        write_summary(store, number, &self.summary.writes, self.controls, self.condition);
        let ghost wrote = *store;
        proof {
            assert(number == (linked.imports@.len() - 1) as usize);
            let list = choose|list: Seq<writes::KeyWrite>|
                #![trigger assign::summary_writes(wrote.versions@, number, self.summary.writes@, self.controls@, list)]
                assign::summary_writes(wrote.versions@, number, self.summary.writes@, self.controls@, list) && assign::all_wrote(linked, wrote, list, self.condition);
            assert(assign::summary_writes(wrote.versions@, (linked.imports@.len() - 1) as usize, self.summary.writes@, self.controls@, list));
            assert(self.wrote(linked, wrote));
            assert(results::keys_known(wrote, self.nodes@)) by {
                lemma_writes_known(linked, wrote, self.nodes@, self.summary.writes@);
            }
            assert forall|i: int| 0 <= i < self.outputs@.len() implies (#[trigger] self.outputs@[i]).wf(self.nodes@, wrote.versions@.len() as int) by {
                let output = self.outputs@[i];
                assert(output.wf(self.nodes@, before.versions@.len() as int));
                assert forall|k: int| 0 <= k < output.destinations@.len() implies (#[trigger] output.destinations@[k]).wf(self.nodes@, wrote.versions@.len() as int) by {
                    assert(output.destinations@[k].wf(self.nodes@, before.versions@.len() as int));
                }
            }
            assert(results::tied(wrote, *arena));
        }
        let copied = copy_arguments(store, arena, self.partition, self.nodes, self.outputs, self.condition);
        let ghost after = *store;
        proof {
            assert forall|i: int| 0 <= i < before.versions@.len() implies #[trigger] before.versions@[i] == after.versions@[i] by {
                assert(before.versions@[i] == bound.versions@[i]);
                assert(linked.versions@[i] == wrote.versions@[i]);
            }
        }
        if !copied.fits {
            assert(self.steps_stop(before, bound, linked, wrote, after, paths, arena@, given, copied.partial));
            return Applied { groups: Vec::new(), partial: copied.partial || !self.summary.complete, fits: false };
        }
        proof {
            lemma_ready_kept(linked, after, number);
            assert forall|g: int, k: int| 0 <= g < self.summary.result@.len() && 0 <= k < self.summary.result@[g].regions@.len() implies ((
            #[trigger] self.summary.result@[g].regions@[k]).root matches Some(root) ==> root < after.graphs@[after.imports@[number as int].graph as int].nodes@.len()) by {
                let root = self.summary.result@[g].regions@[k].root;
                assert(root matches Some(root) ==> root < before.graphs@[self.summary.graph as int].nodes@.len());
            }
        }
        let groups = import_results(store, number, &self.summary.result, guard);
        proof {
            realize::lemma_no_new_keys(after, *store, self.nodes@);
            assert(self.steps(before, bound, linked, wrote, after, *store, paths, arena@, given, groups@));
            assert forall|i: int| 0 <= i < before.versions@.len() implies #[trigger] before.versions@[i] == store.versions@[i] by {
                assert(before.versions@[i] == after.versions@[i]);
            }
        }
        Applied { groups, partial: copied.partial || !self.summary.complete, fits: true }
    }
}

proof fn lemma_writes_known(before: SsaStore, after: SsaStore, nodes: Seq<NodeKey>, given: Seq<SummaryWrite>)
    requires
        before.wf(),
        after.wf(),
        results::keys_known(before, nodes),
        forall|i: int| 0 <= i < given.len() ==> (#[trigger] given[i]).key < nodes.len(),
        forall|k: u64| !assign::gives_key(given, k) && #[trigger] after.entries@.contains_key(k) ==> before.entries@.contains_key(k),
    ensures
        results::keys_known(after, nodes),
{
    assert forall|i: int| 0 <= i < after.versions@.len() implies ((#[trigger] after.versions@[i]) matches Version::Entry(k) ==> k < nodes.len()) by {
        if let Version::Entry(k) = after.versions@[i] {
            assert(after.entries@.contains_key(k));
            if !assign::gives_key(given, k) {
                assert(before.entries@.contains_key(k));
                assert(before.versions@[before.entries@[k] as int] == Version::Entry(k));
            }
        }
    }
}

} // verus!
