//! Applying a prepared transfer and lifting early exits through it.
use vstd::prelude::*;
use std::collections::HashMap;
use crate::arena::{PathCondition, PathNode};
use crate::order::Ordered;
use crate::relation::{PositionRelation, SourceRef};
use crate::repeated;
use crate::repeated::{RepeatedTransfer, TransferEntry};
use crate::ssa;
use crate::ssa::{Binding, BranchState, Import, KeyBinding, SsaStore, Version};
use crate::state;
use crate::summary::copy_mapping;
use crate::transfer;

verus! {

/// `version` is computed, always, from all positions of exactly `reached`.
pub open spec fn defined_from(versions: Seq<Version>, version: usize, reached: Seq<usize>) -> bool {
    &&& version < versions.len()
    &&& versions[version as int] matches Version::Definition { sources, condition }
        && condition.node == 0 && forall|s: SourceRef| #[trigger]
        sources@.contains(s) <==> s.relation == PositionRelation::anything() && reached.contains(
            s.version,
        )
}

/// `version` is what a key has after the transfer: a value computed from what it reaches, or,
/// if the loop may be skipped, possibly what it had before.
pub open spec fn transferred(
    versions: Seq<Version>,
    entry: TransferEntry,
    may_skip: bool,
    version: usize,
) -> bool {
    if may_skip {
        exists|positive: usize| #[trigger]
            defined_from(versions, positive, entry.reached@) && ssa::is_phi(
                versions,
                set![entry.entry, positive],
                version,
            )
    } else {
        defined_from(versions, version, entry.reached@)
    }
}

proof fn lemma_transferred_grows(a: Seq<Version>, b: Seq<Version>, entry: TransferEntry, may_skip: bool, version: usize)
    requires
        ssa::versions_grow(a, b),
        transferred(a, entry, may_skip, version),
    ensures
        transferred(b, entry, may_skip, version),
{
    if may_skip {
        let positive = choose|positive: usize| #[trigger]
            defined_from(a, positive, entry.reached@) && ssa::is_phi(a, set![entry.entry, positive], version);
        assert(a[positive as int] == b[positive as int]);
        state::lemma_is_phi_grows(a, b, set![entry.entry, positive], version);
        assert(defined_from(b, positive, entry.reached@));
    } else {
        assert(a[version as int] == b[version as int]);
    }
}

/// The two versions as a set.
proof fn lemma_pair_set(inputs: Seq<usize>, a: usize, b: usize)
    requires
        inputs == seq![a, b],
    ensures
        inputs.to_set() == set![a, b],
{
    assert forall|x: usize| #[trigger] inputs.to_set().contains(x) <==> set![a, b].contains(x) by {
        assert(inputs[0] == a && inputs[1] == b);
        if inputs.contains(x) {
            let i = choose|i: int| 0 <= i < inputs.len() && inputs[i] == x;
        }
        if x == a {
            assert(inputs.contains(inputs[0]));
        }
        if x == b {
            assert(inputs.contains(inputs[1]));
        }
    }
    assert(inputs.to_set() =~= set![a, b]);
}

impl SsaStore {
    /// One of two versions, depending on the path.
    fn phi_pair(&mut self, a: usize, b: usize) -> (r: usize)
        requires
            old(self).wf(),
            a < old(self).versions@.len(),
            b < old(self).versions@.len(),
        ensures
            final(self).wf(),
            ssa::is_phi(final(self).versions@, set![a, b], r),
            final(self).entries@ == old(self).entries@,
            ssa::same_state(*old(self), *final(self)),
            ssa::keeps_guards(*old(self), *final(self)),
    {
        let mut inputs: Vec<usize> = Vec::new();
        inputs.push(a);
        inputs.push(b);
        proof {
            assert(inputs@ =~= seq![a, b]);
            lemma_pair_set(inputs@, a, b);
        }
        self.phi(&inputs)
    }

    /// Gives every written key its value after one or more iterations, or any number if the loop
    /// may be skipped.
    pub fn apply_repeated_transfer(&mut self, transfer: &RepeatedTransfer, may_skip: bool)
        requires
            old(self).wf(),
            repeated::transfer_below(*transfer, old(self).versions@.len() as int),
        ensures
            final(self).wf(),
            ssa::versions_grow(old(self).versions@, final(self).versions@),
            forall|i: int|
                0 <= i < transfer.entries@.len() ==> {
                    let e = #[trigger] transfer.entries@[i];
                    &&& final(self).current@.contains_key(e.key)
                    &&& transferred(
                        final(self).versions@,
                        e,
                        may_skip,
                        final(self).current@[e.key],
                    )
                },
            forall|key: u64|
                (forall|i: int|
                    0 <= i < transfer.entries@.len() ==> (#[trigger] transfer.entries@[i]).key
                        != key) ==> #[trigger] ssa::binding_of(final(self).current@, key)
                    == ssa::binding_of(old(self).current@, key),
            final(self).entries@ == old(self).entries@,
            final(self).checkpoints@ == old(self).checkpoints@,
            forall|depth: int|
                0 <= depth < old(self).checkpoints@.len() ==> #[trigger] final(self).saved(depth)
                    == old(self).saved(depth),
            final(self).graphs == old(self).graphs,
            final(self).imports == old(self).imports,
            ssa::records(*old(self), *final(self)),
            forall|nodes: Seq<PathNode>| #[trigger]
                old(self).guards_in(nodes) && nodes.len() > 0 ==> final(self).guards_in(nodes),
    {
        let ghost store0 = *self;
        let mut i: usize = 0;
        while i < transfer.entries.len()
            invariant
                i <= transfer.entries.len(),
                store0 == *old(self),
                self.wf(),
                repeated::transfer_below(*transfer, store0.versions@.len() as int),
                ssa::versions_grow(store0.versions@, self.versions@),
                forall|k: int|
                    0 <= k < i ==> {
                        let e = #[trigger] transfer.entries@[k];
                        &&& self.current@.contains_key(e.key)
                        &&& transferred(self.versions@, e, may_skip, self.current@[e.key])
                    },
                forall|key: u64|
                    (forall|k: int| 0 <= k < i ==> (#[trigger] transfer.entries@[k]).key != key)
                        ==> #[trigger] ssa::binding_of(self.current@, key) == ssa::binding_of(
                        store0.current@,
                        key,
                    ),
                self.entries@ == store0.entries@,
                self.checkpoints@ == store0.checkpoints@,
                forall|depth: int|
                    0 <= depth < store0.checkpoints@.len() ==> #[trigger] self.saved(depth)
                        == store0.saved(depth),
                self.graphs == store0.graphs,
                self.imports == store0.imports,
                ssa::records(store0, *self),
                forall|nodes: Seq<PathNode>| #[trigger]
                    store0.guards_in(nodes) && nodes.len() > 0 ==> self.guards_in(nodes),
            decreases transfer.entries.len() - i,
        {
            let ghost before = *self;
            let ghost entry = transfer.entries@[i as int];
            let key: u64 = transfer.entries[i].key;
            let held: usize = transfer.entries[i].entry;
            proof {
                assert(entry.entry < store0.versions@.len());
                assert forall|k: int| 0 <= k < entry.reached@.len() implies (#[trigger] entry.reached@[k]) < self.versions@.len() by {
                    assert(transfer.entries@[i as int].reached@[k] < store0.versions@.len());
                }
            }
            let positive = self.definition(&transfer.entries[i].reached);
            let ghost defined = *self;
            let output = if may_skip {
                self.phi_pair(held, positive)
            } else {
                positive
            };
            let ghost joined = *self;
            self.bind(key, output);
            proof {
                ssa::records_is_transitive(store0, before, joined);
                ssa::records_is_transitive(store0, joined, *self);
                assert(self.versions@[positive as int] == defined.versions@[positive as int]);
                assert(defined_from(self.versions@, positive, entry.reached@));
                assert(transferred(self.versions@, entry, may_skip, output));
                assert forall|k: int| 0 <= k < i + 1 implies {
                    let e = #[trigger] transfer.entries@[k];
                    &&& self.current@.contains_key(e.key)
                    &&& transferred(self.versions@, e, may_skip, self.current@[e.key])
                } by {
                    if k < i {
                        let e = transfer.entries@[k];
                        assert(e.key < entry.key);
                        lemma_transferred_grows(before.versions@, self.versions@, e, may_skip, before.current@[e.key]);
                    }
                }
                assert forall|k: u64| (forall|m: int| 0 <= m < i + 1 ==> (#[trigger] transfer.entries@[m]).key != k) implies #[trigger] ssa::binding_of(self.current@, k)
                    == ssa::binding_of(store0.current@, k) by {
                    assert(transfer.entries@[i as int].key != k);
                    assert(ssa::binding_of(before.current@, k) == ssa::binding_of(store0.current@, k));
                }
                assert forall|nodes: Seq<PathNode>| #[trigger] store0.guards_in(nodes) && nodes.len() > 0 implies self.guards_in(nodes) by {
                    assert(before.guards_in(nodes));
                    assert(defined.guards_in(nodes));
                    assert(joined.guards_in(nodes));
                }
                assert forall|depth: int| 0 <= depth < store0.checkpoints@.len() implies #[trigger] self.saved(depth) == store0.saved(depth) by {
                    assert(before.saved(depth) == store0.saved(depth));
                    assert(joined.saved(depth) == before.saved(depth));
                }
            }
            i = i + 1;
        }
    }
}

/// What `version` becomes when iteration inputs are replaced.
pub open spec fn replaced(substitutions: Map<usize, usize>, version: usize) -> usize {
    if substitutions.contains_key(version) {
        substitutions[version]
    } else {
        version
    }
}

/// The list has the mapped sources of `sources`.
pub open spec fn maps_sources(
    sources: Seq<SourceRef>,
    mapped: Map<usize, usize>,
    list: Seq<SourceRef>,
) -> bool {
    &&& forall|i: int| 0 <= i < sources.len() ==> mapped.contains_key((#[trigger] sources[i]).version)
    &&& forall|t: SourceRef| #[trigger]
        list.contains(t) <==> exists|i: int|
            0 <= i < sources.len() && t == (SourceRef {
                version: mapped[(#[trigger] sources[i]).version],
                relation: sources[i].relation,
            })
}

/// The two bindings have the same key, and the second has the mapped sources of the first.
pub open spec fn maps_binding(a: KeyBinding, mapped: Map<usize, usize>, b: KeyBinding) -> bool {
    a.key == b.key && maps_sources(a.sources@, mapped, b.sources@)
}

/// `image` is `version` over the mapped sources.
pub open spec fn is_image(
    store: SsaStore,
    substitutions: Map<usize, usize>,
    start: int,
    mapped: Map<usize, usize>,
    version: usize,
    image: usize,
) -> bool {
    if transfer::is_input(store, start, version as int) {
        image == replaced(substitutions, version)
    } else {
        match store.versions@[version as int] {
            Version::Entry(_) => false,
            Version::Definition { sources, condition } => {
                store.versions@[image as int] matches Version::Definition {
                    sources: list,
                    condition: guard,
                } && guard == condition && maps_sources(sources@, mapped, list@)
            },
            Version::Phi(inputs) => {
                &&& forall|i: int| 0 <= i < inputs@.len() ==> mapped.contains_key(#[trigger] inputs@[i])
                &&& ssa::is_phi(
                    store.versions@,
                    Set::new(
                        |x: usize|
                            exists|i: int|
                                0 <= i < inputs@.len() && x == mapped[#[trigger] inputs@[i]],
                    ),
                    image,
                )
            },
            Version::Projected { source, domain } => mapped.contains_key(source)
                && store.versions@[image as int] == (Version::Projected {
                source: mapped[source],
                domain,
            }),
            Version::Repeated { source, initial, step, domain } => mapped.contains_key(source)
                && store.versions@[image as int] == (Version::Repeated {
                source: mapped[source],
                initial,
                step,
                domain,
            }),
            Version::Imported { import, root } => {
                store.versions@[image as int] matches Version::Imported { import: other, root: same }
                    && same == root && other < store.imports@.len() && {
                    let a = store.imports@[import as int];
                    let b = store.imports@[other as int];
                    &&& a.graph == b.graph
                    &&& a.mapping@ == b.mapping@
                    &&& a.bindings@.len() == b.bindings@.len()
                    &&& forall|k: int|
                        0 <= k < a.bindings@.len() ==> maps_binding(
                            #[trigger] a.bindings@[k],
                            mapped,
                            b.bindings@[k],
                        )
                }
            },
        }
    }
}

/// Every mapped version has its image.
pub open spec fn images_right(
    store: SsaStore,
    substitutions: Map<usize, usize>,
    start: int,
    mapped: Map<usize, usize>,
) -> bool {
    forall|v: usize| #[trigger]
        mapped.contains_key(v) ==> v < store.versions@.len() && mapped[v] < store.versions@.len()
            && is_image(store, substitutions, start, mapped, v, mapped[v])
}

/// Versions, graphs and imports only grew; bindings are as they were.
pub open spec fn extends(a: SsaStore, b: SsaStore) -> bool {
    &&& ssa::versions_grow(a.versions@, b.versions@)
    &&& a.imports@.len() <= b.imports@.len()
    &&& forall|i: int| 0 <= i < a.imports@.len() ==> #[trigger] a.imports@[i] == b.imports@[i]
    &&& a.graphs == b.graphs
    &&& a.current@ == b.current@
    &&& a.entries@ == b.entries@
    &&& a.undo@ == b.undo@
    &&& a.checkpoints@ == b.checkpoints@
    &&& a.active_revisions@ == b.active_revisions@
    &&& a.revision_events@ == b.revision_events@
    &&& a.next_revision_id == b.next_revision_id
}

proof fn lemma_extends_trans(a: SsaStore, b: SsaStore, c: SsaStore)
    requires
        extends(a, b),
        extends(b, c),
    ensures
        extends(a, c),
{
    assert forall|i: int| 0 <= i < a.versions@.len() implies #[trigger] a.versions@[i] == c.versions@[i] by {
        assert(a.versions@[i] == b.versions@[i]);
    }
    assert forall|i: int| 0 <= i < a.imports@.len() implies #[trigger] a.imports@[i] == c.imports@[i] by {
        assert(a.imports@[i] == b.imports@[i]);
    }
}

/// Images stay images when the store and the mapping grow.
proof fn lemma_images_grow(
    a: SsaStore,
    b: SsaStore,
    substitutions: Map<usize, usize>,
    start: int,
    mapped: Map<usize, usize>,
    more: Map<usize, usize>,
    v: usize,
)
    requires
        a.wf(),
        extends(a, b),
        images_right(a, substitutions, start, mapped),
        forall|k: usize| #[trigger] mapped.contains_key(k) ==> more.contains_key(k) && more[k] == mapped[k],
        mapped.contains_key(v),
    ensures
        is_image(b, substitutions, start, more, v, mapped[v]),
{
    let image = mapped[v];
    assert(a.versions@[v as int] == b.versions@[v as int]);
    assert(a.versions@[image as int] == b.versions@[image as int]);
    assert(a.versions@[v as int].wf(v as int, a.graphs@, a.imports@));
    if !transfer::is_input(a, start, v as int) {
        match a.versions@[v as int] {
            Version::Definition { sources, condition } => {
                if let Version::Definition { sources: list, .. } = a.versions@[image as int] {
                    lemma_maps_grow(sources@, mapped, more, list@);
                }
            },
            Version::Phi(inputs) => {
                let before = Set::new(|x: usize| exists|i: int| 0 <= i < inputs@.len() && x == mapped[#[trigger] inputs@[i]]);
                let after = Set::new(|x: usize| exists|i: int| 0 <= i < inputs@.len() && x == more[#[trigger] inputs@[i]]);
                assert(before =~= after) by {
                    assert forall|x: usize| before.contains(x) <==> after.contains(x) by {
                        if before.contains(x) {
                            let i = choose|i: int| 0 <= i < inputs@.len() && x == mapped[#[trigger] inputs@[i]];
                            assert(mapped.contains_key(inputs@[i]));
                            assert(x == more[inputs@[i]]);
                        }
                        if after.contains(x) {
                            let i = choose|i: int| 0 <= i < inputs@.len() && x == more[#[trigger] inputs@[i]];
                            assert(mapped.contains_key(inputs@[i]));
                            assert(x == mapped[inputs@[i]]);
                        }
                    }
                }
                state::lemma_is_phi_grows(a.versions@, b.versions@, before, image);
            },
            Version::Imported { import, root } => {
                if let Version::Imported { import: other, .. } = a.versions@[image as int] {
                    assert(a.imports@[import as int] == b.imports@[import as int]);
                    assert(a.imports@[other as int] == b.imports@[other as int]);
                    let x = a.imports@[import as int];
                    let y = a.imports@[other as int];
                    assert forall|k: int| 0 <= k < x.bindings@.len() implies maps_binding(#[trigger] x.bindings@[k], more, y.bindings@[k]) by {
                        assert(maps_binding(x.bindings@[k], mapped, y.bindings@[k]));
                        lemma_maps_grow(x.bindings@[k].sources@, mapped, more, y.bindings@[k].sources@);
                    }
                }
            },
            _ => {},
        }
    }
}

proof fn lemma_maps_grow(sources: Seq<SourceRef>, mapped: Map<usize, usize>, more: Map<usize, usize>, list: Seq<SourceRef>)
    requires
        maps_sources(sources, mapped, list),
        forall|k: usize| #[trigger] mapped.contains_key(k) ==> more.contains_key(k) && more[k] == mapped[k],
    ensures
        maps_sources(sources, more, list),
{
    assert forall|t: SourceRef| #[trigger] list.contains(t) <==> exists|i: int|
        0 <= i < sources.len() && t == (SourceRef { version: more[(#[trigger] sources[i]).version], relation: sources[i].relation }) by {
        if list.contains(t) {
            let i = choose|i: int| 0 <= i < sources.len() && t == (SourceRef { version: mapped[(#[trigger] sources[i]).version], relation: sources[i].relation });
            assert(mapped.contains_key(sources[i].version));
            assert(t == SourceRef { version: more[sources[i].version], relation: sources[i].relation });
        }
        if exists|i: int| 0 <= i < sources.len() && t == (SourceRef { version: more[(#[trigger] sources[i]).version], relation: sources[i].relation }) {
            let i = choose|i: int| 0 <= i < sources.len() && t == (SourceRef { version: more[(#[trigger] sources[i]).version], relation: sources[i].relation });
            assert(mapped.contains_key(sources[i].version));
            assert(t == SourceRef { version: mapped[sources[i].version], relation: sources[i].relation });
        }
    }
}

/// Everything that `version` refers to is mapped.
spec fn sources_mapped(store: SsaStore, version: usize, mapped: Map<usize, usize>) -> bool {
    match store.versions@[version as int] {
        Version::Entry(_) => true,
        Version::Definition { sources, .. } => all_mapped(sources@, mapped),
        Version::Phi(inputs) => forall|i: int|
            0 <= i < inputs@.len() ==> mapped.contains_key(#[trigger] inputs@[i]),
        Version::Projected { source, .. } => mapped.contains_key(source),
        Version::Repeated { source, .. } => mapped.contains_key(source),
        Version::Imported { import, .. } => forall|b: int|
            0 <= b < store.imports@[import as int].bindings@.len() ==> all_mapped(
                (#[trigger] store.imports@[import as int].bindings@[b]).sources@,
                mapped,
            ),
    }
}

spec fn all_mapped(sources: Seq<SourceRef>, mapped: Map<usize, usize>) -> bool {
    forall|i: int| 0 <= i < sources.len() ==> mapped.contains_key((#[trigger] sources[i]).version)
}

fn unmapped_source(sources: &Vec<SourceRef>, mapped: &HashMap<usize, usize>, Ghost(limit): Ghost<int>) -> (r:
    Option<usize>)
    requires
        ssa::sources_before(sources@, limit),
    ensures
        r matches Some(u) ==> u < limit && !mapped@.contains_key(u),
        r is None ==> all_mapped(sources@, mapped@),
{
    let mut i: usize = 0;
    while i < sources.len()
        invariant
            i <= sources.len(),
            ssa::sources_before(sources@, limit),
            forall|k: int| 0 <= k < i ==> mapped@.contains_key((#[trigger] sources@[k]).version),
        decreases sources.len() - i,
    {
        let u: usize = sources[i].version;
        assert(sources@[i as int].version < limit);
        if !mapped.contains_key(&u) {
            return Some(u);
        }
        i = i + 1;
    }
    None
}

/// The sources with their versions mapped.
fn map_sources(sources: &Vec<SourceRef>, mapped: &HashMap<usize, usize>, Ghost(limit): Ghost<int>) -> (r:
    Vec<SourceRef>)
    requires
        all_mapped(sources@, mapped@),
        forall|k: usize| #[trigger] mapped@.contains_key(k) ==> mapped@[k] < limit,
    ensures
        maps_sources(sources@, mapped@, r@),
        ssa::sources_before(r@, limit),
{
    let mut r: Vec<SourceRef> = Vec::new();
    let mut i: usize = 0;
    while i < sources.len()
        invariant
            i <= sources.len(),
            all_mapped(sources@, mapped@),
            forall|k: usize| #[trigger] mapped@.contains_key(k) ==> mapped@[k] < limit,
            r@.len() == i,
            forall|k: int|
                0 <= k < i ==> #[trigger] r@[k] == (SourceRef {
                    version: mapped@[sources@[k].version],
                    relation: sources@[k].relation,
                }),
            ssa::sources_before(r@, limit),
        decreases sources.len() - i,
    {
        let source = sources[i];
        assert(mapped@.contains_key(sources@[i as int].version));
        if let Some(version) = mapped.get(&source.version) {
            r.push(SourceRef { version: *version, relation: source.relation });
        }
        i = i + 1;
    }
    proof {
        assert forall|t: SourceRef| #[trigger] r@.contains(t) <==> exists|i: int|
            0 <= i < sources@.len() && t == (SourceRef { version: mapped@[(#[trigger] sources@[i]).version], relation: sources@[i].relation }) by {
            if r@.contains(t) {
                let k = choose|k: int| 0 <= k < r@.len() && r@[k] == t;
                assert(t == SourceRef { version: mapped@[sources@[k].version], relation: sources@[k].relation });
            }
            if exists|i: int| 0 <= i < sources@.len() && t == (SourceRef { version: mapped@[(#[trigger] sources@[i]).version], relation: sources@[i].relation }) {
                let k = choose|i: int| 0 <= i < sources@.len() && t == (SourceRef { version: mapped@[(#[trigger] sources@[i]).version], relation: sources@[i].relation });
                assert(r@[k] == t);
            }
        }
    }
    r
}

/// How many of the first `n` versions are not mapped.
spec fn unmapped(mapped: Map<usize, usize>, n: int) -> int
    decreases n,
{
    if n <= 0 {
        0
    } else {
        unmapped(mapped, n - 1) + (if mapped.contains_key((n - 1) as usize) {
            0int
        } else {
            1int
        })
    }
}

proof fn lemma_unmapped(mapped: Map<usize, usize>, n: int, key: usize, value: usize)
    requires
        0 <= n <= usize::MAX,
        !mapped.contains_key(key),
    ensures
        unmapped(mapped.insert(key, value), n) == unmapped(mapped, n) - (if key < n {
            1int
        } else {
            0int
        }),
        unmapped(mapped, n) >= 0,
        unmapped(mapped.insert(key, value), n) >= 0,
    decreases n,
{
    if n > 0 {
        lemma_unmapped(mapped, n - 1, key, value);
    }
}

/// The pieces of a version over mapped sources.
enum Plan {
    Entry,
    Definition(Vec<SourceRef>, PathCondition),
    Phi(Vec<usize>),
    Other(Version),
    Imported(Import, Option<usize>),
}

impl SsaStore {
    /// The first thing that `version` refers to without being mapped.
    fn first_unmapped(&self, version: usize, mapped: &HashMap<usize, usize>) -> (r: Option<usize>)
        requires
            self.wf(),
            version < self.versions@.len(),
        ensures
            r matches Some(u) ==> u < version && !mapped@.contains_key(u),
            r is None ==> sources_mapped(*self, version, mapped@),
    {
        assert(self.versions@[version as int].wf(version as int, self.graphs@, self.imports@));
        match &self.versions[version] {
            Version::Entry(_) => None,
            Version::Definition { sources, .. } => unmapped_source(sources, mapped, Ghost(version as int)),
            Version::Phi(inputs) => {
                let mut i: usize = 0;
                while i < inputs.len()
                    invariant
                        i <= inputs.len(),
                        forall|k: int| 0 <= k < inputs@.len() ==> (#[trigger] inputs@[k]) < version,
                        forall|k: int| 0 <= k < i ==> mapped@.contains_key(#[trigger] inputs@[k]),
                    decreases inputs.len() - i,
                {
                    let input: usize = inputs[i];
                    assert(inputs@[i as int] < version);
                    if !mapped.contains_key(&input) {
                        return Some(input);
                    }
                    i = i + 1;
                }
                None
            },
            Version::Projected { source, .. } => {
                if mapped.contains_key(source) {
                    None
                } else {
                    Some(*source)
                }
            },
            Version::Repeated { source, .. } => {
                if mapped.contains_key(source) {
                    None
                } else {
                    Some(*source)
                }
            },
            Version::Imported { import, .. } => {
                let bindings = &self.imports[*import].bindings;
                let mut b: usize = 0;
                while b < bindings.len()
                    invariant
                        b <= bindings.len(),
                        forall|k: int|
                            0 <= k < bindings@.len() ==> ssa::sources_before(
                                (#[trigger] bindings@[k]).sources@,
                                version as int,
                            ),
                        forall|k: int| 0 <= k < b ==> all_mapped((#[trigger] bindings@[k]).sources@, mapped@),
                    decreases bindings.len() - b,
                {
                    assert(ssa::sources_before(bindings@[b as int].sources@, version as int));
                    if let Some(u) = unmapped_source(&bindings[b].sources, mapped, Ghost(version as int)) {
                        return Some(u);
                    }
                    b = b + 1;
                }
                None
            },
        }
    }

    fn plan(&self, version: usize, mapped: &HashMap<usize, usize>) -> (r: Plan)
        requires
            self.wf(),
            version < self.versions@.len(),
            sources_mapped(*self, version, mapped@),
            forall|k: usize| #[trigger] mapped@.contains_key(k) ==> mapped@[k] < self.versions@.len(),
        ensures
            match self.versions@[version as int] {
                Version::Entry(_) => r is Entry,
                Version::Definition { sources, condition } => r matches Plan::Definition(list, guard)
                    && guard == condition && maps_sources(sources@, mapped@, list@)
                    && ssa::sources_before(list@, self.versions@.len() as int),
                Version::Phi(inputs) => r matches Plan::Phi(list) && list@.len() == inputs@.len()
                    && forall|i: int| 0 <= i < inputs@.len() ==> #[trigger] list@[i] == mapped@[inputs@[i]],
                Version::Projected { source, domain } => r == Plan::Other(
                    Version::Projected { source: mapped@[source], domain },
                ),
                Version::Repeated { source, initial, step, domain } => r == Plan::Other(
                    Version::Repeated { source: mapped@[source], initial, step, domain },
                ),
                Version::Imported { import, root } => r matches Plan::Imported(b, same) && same == root && {
                    let a = self.imports@[import as int];
                    &&& a.graph == b.graph
                    &&& a.mapping@ == b.mapping@
                    &&& a.bindings@.len() == b.bindings@.len()
                    &&& forall|k: int|
                        0 <= k < a.bindings@.len() ==> maps_binding(
                            #[trigger] a.bindings@[k],
                            mapped@,
                            b.bindings@[k],
                        )
                    &&& forall|k: int|
                        0 <= k < b.bindings@.len() ==> ssa::sources_before(
                            (#[trigger] b.bindings@[k]).sources@,
                            self.versions@.len() as int,
                        )
                },
            },
    {
        let ghost limit = self.versions@.len() as int;
        assert(self.versions@[version as int].wf(version as int, self.graphs@, self.imports@));
        match &self.versions[version] {
            Version::Entry(_) => Plan::Entry,
            Version::Definition { sources, condition } => Plan::Definition(
                map_sources(sources, mapped, Ghost(limit)),
                *condition,
            ),
            Version::Phi(inputs) => {
                let mut list: Vec<usize> = Vec::new();
                let mut i: usize = 0;
                while i < inputs.len()
                    invariant
                        i <= inputs.len(),
                        list@.len() == i,
                        forall|k: int| 0 <= k < inputs@.len() ==> mapped@.contains_key(#[trigger] inputs@[k]),
                        forall|k: int| 0 <= k < i ==> #[trigger] list@[k] == mapped@[inputs@[k]],
                    decreases inputs.len() - i,
                {
                    assert(mapped@.contains_key(inputs@[i as int]));
                    if let Some(version) = mapped.get(&inputs[i]) {
                        list.push(*version);
                    }
                    i = i + 1;
                }
                Plan::Phi(list)
            },
            Version::Projected { source, domain } => match mapped.get(source) {
                Some(version) => Plan::Other(
                    Version::Projected { source: *version, domain: *domain },
                ),
                None => Plan::Entry,
            },
            Version::Repeated { source, initial, step, domain } => match mapped.get(source) {
                Some(version) => Plan::Other(
                    Version::Repeated {
                        source: *version,
                        initial: *initial,
                        step: *step,
                        domain: *domain,
                    },
                ),
                None => Plan::Entry,
            },
            Version::Imported { import, root } => {
                let held = &self.imports[*import];
                let mut bindings: Vec<KeyBinding> = Vec::new();
                let mut b: usize = 0;
                while b < held.bindings.len()
                    invariant
                        b <= held.bindings.len(),
                        forall|k: usize| #[trigger] mapped@.contains_key(k) ==> mapped@[k] < limit,
                        forall|k: int|
                            0 <= k < held.bindings@.len() ==> all_mapped(
                                (#[trigger] held.bindings@[k]).sources@,
                                mapped@,
                            ),
                        bindings@.len() == b,
                        forall|k: int|
                            0 <= k < b ==> maps_binding(
                                #[trigger] held.bindings@[k],
                                mapped@,
                                bindings@[k],
                            ),
                        forall|k: int|
                            0 <= k < b ==> ssa::sources_before((#[trigger] bindings@[k]).sources@, limit),
                    decreases held.bindings.len() - b,
                {
                    let ghost before = bindings@;
                    assert(all_mapped(held.bindings@[b as int].sources@, mapped@));
                    let sources = map_sources(&held.bindings[b].sources, mapped, Ghost(limit));
                    bindings.push(KeyBinding { key: held.bindings[b].key, sources });
                    proof {
                        assert forall|k: int| 0 <= k < b + 1 implies maps_binding(#[trigger] held.bindings@[k], mapped@, bindings@[k]) by {
                            if k < b {
                                assert(bindings@[k] == before[k]);
                            }
                        }
                        assert forall|k: int| 0 <= k < b + 1 implies ssa::sources_before((#[trigger] bindings@[k]).sources@, limit) by {
                            if k < b {
                                assert(bindings@[k] == before[k]);
                            }
                        }
                    }
                    b = b + 1;
                }
                Plan::Imported(
                    Import { graph: held.graph, bindings, mapping: copy_mapping(&held.mapping) },
                    *root,
                )
            },
        }
    }

    /// Adds the image of a version whose sources are all mapped.
    fn build_image(
        &mut self,
        version: usize,
        mapped: &HashMap<usize, usize>,
        Ghost(substitutions): Ghost<Map<usize, usize>>,
        Ghost(start): Ghost<int>,
    ) -> (r: usize)
        requires
            old(self).wf(),
            version < old(self).versions@.len(),
            sources_mapped(*old(self), version, mapped@),
            !transfer::is_input(*old(self), start, version as int),
            forall|k: usize| #[trigger]
                mapped@.contains_key(k) ==> mapped@[k] < old(self).versions@.len(),
        ensures
            final(self).wf(),
            extends(*old(self), *final(self)),
            r < final(self).versions@.len(),
            is_image(*final(self), substitutions, start, mapped@, version, r),
            ssa::keeps_guards(*old(self), *final(self)),
    {
        let ghost store0 = *self;
        proof {
            assert(store0.versions@[version as int].wf(version as int, store0.graphs@, store0.imports@));
        }
        let plan = self.plan(version, mapped);
        match plan {
            Plan::Entry => version,
            Plan::Definition(list, condition) => {
                let r = self.related_definition_guarded(&list, condition);
                proof {
                    assert(store0.versions@[version as int].wf(version as int, store0.graphs@, store0.imports@));
                    assert(self.versions@[version as int] == store0.versions@[version as int]);
                    if let Version::Definition { sources, .. } = store0.versions@[version as int] {
                        if let Version::Definition { sources: kept, .. } = self.versions@[r as int] {
                            assert forall|t: SourceRef| #[trigger] kept@.contains(t) <==> exists|i: int|
                                0 <= i < sources@.len() && t == (SourceRef { version: mapped@[(#[trigger] sources@[i]).version], relation: sources@[i].relation }) by {
                                assert(kept@.contains(t) <==> list@.contains(t));
                            }
                        }
                    }
                    assert forall|nodes: Seq<PathNode>| #[trigger] store0.guards_in(nodes) implies self.guards_in(nodes) by {
                        assert(store0.versions@[version as int].guarded_in(nodes));
                    }
                }
                r
            },
            Plan::Phi(list) => {
                proof {
                    if let Version::Phi(inputs) = store0.versions@[version as int] {
                        assert forall|i: int| 0 <= i < list@.len() implies (#[trigger] list@[i]) < self.versions@.len() by {
                            assert(mapped@.contains_key(inputs@[i]));
                        }
                    }
                }
                let r = self.phi(&list);
                proof {
                    assert(self.versions@[version as int] == store0.versions@[version as int]);
                    if let Version::Phi(inputs) = store0.versions@[version as int] {
                        let wanted = Set::new(|x: usize| exists|i: int| 0 <= i < inputs@.len() && x == mapped@[#[trigger] inputs@[i]]);
                        assert(list@.to_set() =~= wanted) by {
                            assert forall|x: usize| #[trigger] list@.to_set().contains(x) <==> wanted.contains(x) by {
                                if list@.contains(x) {
                                    let i = choose|i: int| 0 <= i < list@.len() && list@[i] == x;
                                    assert(x == mapped@[inputs@[i]]);
                                }
                                if wanted.contains(x) {
                                    let i = choose|i: int| 0 <= i < inputs@.len() && x == mapped@[#[trigger] inputs@[i]];
                                    assert(list@[i] == x);
                                }
                            }
                        }
                    }
                }
                r
            },
            Plan::Other(other) => {
                let r = self.push_version(other);
                proof {
                    assert(self.versions@[version as int] == store0.versions@[version as int]);
                }
                r
            },
            Plan::Imported(import, root) => {
                proof {
                    if let Version::Imported { import: held, .. } = store0.versions@[version as int] {
                        let a = store0.imports@[held as int];
                        assert(a.wf(store0.graphs@));
                        assert forall|i: int, j: int| 0 <= i < j < import.bindings@.len() implies (#[trigger] import.bindings@[i]).key < (#[trigger] import.bindings@[j]).key by {
                            assert(maps_binding(a.bindings@[i], mapped@, import.bindings@[i]));
                            assert(maps_binding(a.bindings@[j], mapped@, import.bindings@[j]));
                            assert(a.bindings@[i].key < a.bindings@[j].key);
                        }
                    }
                    assert(import.wf(self.graphs@));
                }
                let r = self.imported(import, root);
                proof {
                    assert(self.versions@[version as int] == store0.versions@[version as int]);
                    lemma_import_fits(store0.imports@, self.imports);
                    if let Version::Imported { import: held, .. } = store0.versions@[version as int] {
                        assert(self.imports@[held as int] == store0.imports@[held as int]);
                        assert forall|nodes: Seq<PathNode>| #[trigger] store0.guards_in(nodes) implies self.guards_in(nodes) by {
                            assert(ssa::renames_graph(store0.imports@[held as int].mapping@, store0.graphs@[store0.imports@[held as int].graph as int], nodes));
                        }
                    }
                }
                r
            },
        }
    }
}

proof fn lemma_import_fits(before: Seq<Import>, after: Vec<Import>)
    requires
        after@.len() == before.len() + 1,
    ensures
        before.len() <= usize::MAX,
{
    assert(after@.len() == after.len());
}

/// Every version of the stack is smaller than the one below it and is not mapped.
spec fn descending(stack: Seq<usize>, mapped: Map<usize, usize>, limit: int) -> bool {
    &&& forall|i: int, j: int| 0 <= i < j < stack.len() ==> (#[trigger] stack[i]) > (#[trigger] stack[j])
    &&& forall|i: int| 0 <= i < stack.len() ==> !mapped.contains_key(#[trigger] stack[i]) && stack[i] < limit
}

/// The second mapping has what the first has.
pub open spec fn mapping_grows(a: Map<usize, usize>, b: Map<usize, usize>) -> bool {
    forall|k: usize| #[trigger] a.contains_key(k) ==> b.contains_key(k) && b[k] == a[k]
}

proof fn lemma_images_insert(
    a: SsaStore,
    b: SsaStore,
    substitutions: Map<usize, usize>,
    start: int,
    mapped: Map<usize, usize>,
    version: usize,
    image: usize,
)
    requires
        a.wf(),
        extends(a, b),
        images_right(a, substitutions, start, mapped),
        !mapped.contains_key(version),
        version < b.versions@.len(),
        image < b.versions@.len(),
        b.wf(),
        is_image(b, substitutions, start, mapped, version, image),
    ensures
        images_right(b, substitutions, start, mapped.insert(version, image)),
        mapping_grows(mapped, mapped.insert(version, image)),
{
    let more = mapped.insert(version, image);
    assert forall|v: usize| #[trigger] more.contains_key(v) implies v < b.versions@.len() && more[v] < b.versions@.len()
        && is_image(b, substitutions, start, more, v, more[v]) by {
        if v != version {
            assert(mapped.contains_key(v));
            lemma_images_grow(a, b, substitutions, start, mapped, more, v);
        } else {
            lemma_image_grows(b, substitutions, start, mapped, more, version, image);
        }
    }
}

proof fn lemma_image_grows(
    store: SsaStore,
    substitutions: Map<usize, usize>,
    start: int,
    mapped: Map<usize, usize>,
    more: Map<usize, usize>,
    version: usize,
    image: usize,
)
    requires
        is_image(store, substitutions, start, mapped, version, image),
        mapping_grows(mapped, more),
    ensures
        is_image(store, substitutions, start, more, version, image),
{
    if !transfer::is_input(store, start, version as int) {
        match store.versions@[version as int] {
            Version::Definition { sources, .. } => {
                if let Version::Definition { sources: list, .. } = store.versions@[image as int] {
                    lemma_maps_grow(sources@, mapped, more, list@);
                }
            },
            Version::Phi(inputs) => {
                let before = Set::new(|x: usize| exists|i: int| 0 <= i < inputs@.len() && x == mapped[#[trigger] inputs@[i]]);
                let after = Set::new(|x: usize| exists|i: int| 0 <= i < inputs@.len() && x == more[#[trigger] inputs@[i]]);
                assert forall|x: usize| before.contains(x) <==> after.contains(x) by {
                    if before.contains(x) {
                        let i = choose|i: int| 0 <= i < inputs@.len() && x == mapped[#[trigger] inputs@[i]];
                        assert(mapped.contains_key(inputs@[i]));
                        assert(x == more[inputs@[i]]);
                    }
                    if after.contains(x) {
                        let i = choose|i: int| 0 <= i < inputs@.len() && x == more[#[trigger] inputs@[i]];
                        assert(mapped.contains_key(inputs@[i]));
                        assert(x == mapped[inputs@[i]]);
                    }
                }
                assert(before =~= after);
            },
            Version::Imported { import, root } => {
                if let Version::Imported { import: other, .. } = store.versions@[image as int] {
                    let x = store.imports@[import as int];
                    let y = store.imports@[other as int];
                    assert forall|k: int| 0 <= k < x.bindings@.len() implies maps_binding(#[trigger] x.bindings@[k], more, y.bindings@[k]) by {
                        assert(maps_binding(x.bindings@[k], mapped, y.bindings@[k]));
                        lemma_maps_grow(x.bindings@[k].sources@, mapped, more, y.bindings@[k].sources@);
                    }
                }
            },
            _ => {},
        }
    }
}

impl SsaStore {
    /// A version like `root` in which iteration inputs are replaced by their substitutes.
    ///
    /// `mapped` remembers the versions already rebuilt, so that shared parts stay shared.
    pub fn substitute_iteration_inputs(
        &mut self,
        root: usize,
        substitutions: &HashMap<usize, usize>,
        version_start: usize,
        mapped: &mut HashMap<usize, usize>,
    ) -> (r: usize)
        requires
            old(self).wf(),
            root < old(self).versions@.len(),
            forall|k: usize| #[trigger]
                substitutions@.contains_key(k) ==> substitutions@[k] < old(self).versions@.len(),
            images_right(*old(self), substitutions@, version_start as int, old(mapped)@),
        ensures
            final(self).wf(),
            extends(*old(self), *final(self)),
            ssa::keeps_guards(*old(self), *final(self)),
            images_right(*final(self), substitutions@, version_start as int, final(mapped)@),
            mapping_grows(old(mapped)@, final(mapped)@),
            final(mapped)@.contains_key(root),
            r == final(mapped)@[root],
            r < final(self).versions@.len(),
    {
        let ghost store0 = *self;
        let ghost mapped0 = mapped@;
        let ghost limit = root as int + 1;
        let count: usize = self.versions.len();
        let mut stack: Vec<usize> = Vec::new();
        assert(limit <= count);
        if !mapped.contains_key(&root) {
            stack.push(root);
        }
        while stack.len() > 0
            invariant
                store0 == *old(self),
                mapped0 == old(mapped)@,
                limit == root as int + 1,
                limit <= usize::MAX,
                root < store0.versions@.len(),
                self.wf(),
                extends(store0, *self),
                ssa::keeps_guards(store0, *self),
                forall|k: usize| #[trigger]
                    substitutions@.contains_key(k) ==> substitutions@[k] < store0.versions@.len(),
                images_right(*self, substitutions@, version_start as int, mapped@),
                mapping_grows(mapped0, mapped@),
                descending(stack@, mapped@, limit),
                stack@.len() == 0 ==> mapped@.contains_key(root),
                stack@.len() > 0 ==> stack@[0] == root,
            decreases
                    unmapped(mapped@, limit),
                    (if stack@.len() > 0 {
                        stack@.last() as int + 1
                    } else {
                        0int
                    }),
        {
            let last: usize = stack.len() - 1;
            let version: usize = stack[last];
            let ghost before = *self;
            let ghost mapped1 = mapped@;
            let ghost stack1 = stack@;
            proof {
                lemma_unmapped(mapped1, limit, version, 0);
            }
            let input: bool = version < version_start || matches!(self.versions[version], Version::Entry(_));
            let mut image: usize = version;
            if input {
                if let Some(other) = substitutions.get(&version) {
                    image = *other;
                }
            } else {
                if let Some(u) = self.first_unmapped(version, mapped) {
                    stack.push(u);
                    continue;
                }
                image = self.build_image(version, mapped, Ghost(substitutions@), Ghost(version_start as int));
            }
            proof {
                if input {
                    assert forall|i: int| 0 <= i < before.versions@.len() implies #[trigger] before.versions@[i] == self.versions@[i] by {}
                    assert(extends(before, *self));
                }
                lemma_images_insert(before, *self, substitutions@, version_start as int, mapped1, version, image);
                lemma_extends_trans(store0, before, *self);
                lemma_unmapped(mapped1, limit, version, image);
            }
            mapped.insert(version, image);
            stack.pop();
            proof {
                assert(mapped@ == mapped1.insert(version, image));
                assert(stack@ == stack1.drop_last());
                assert forall|i: int| 0 <= i < stack@.len() implies !mapped@.contains_key(#[trigger] stack@[i]) && stack@[i] < limit by {
                    assert(stack1[i] > stack1[last as int]);
                }
                assert(unmapped(mapped@, limit) < unmapped(mapped1, limit));
                if stack@.len() == 0 {
                    assert(stack1[0] == root);
                }
            }
        }
        match mapped.get(&root) {
            Some(image) => *image,
            None => root,
        }
    }
}

/// The bindings with which a loop body was left early, and when it was left there.
pub struct ExitState {
    pub state: BranchState,
    pub condition: PathCondition,
}

/// `guarded` is the value of `version` at the same positions, under `condition`.
pub open spec fn guards_version(
    versions: Seq<Version>,
    guarded: usize,
    version: usize,
    condition: PathCondition,
) -> bool {
    &&& guarded < versions.len()
    &&& versions[guarded as int] matches Version::Definition { sources, condition: guard } && guard
        == condition && forall|s: SourceRef| #[trigger]
        sources@.contains(s) <==> s == (SourceRef { version, relation: PositionRelation::identity() })
}

/// What a key has at an exit that does not assign it: its value from an earlier iteration, under
/// the condition of the exit, or what it had before the loop.
pub open spec fn carried(
    versions: Seq<Version>,
    entry: TransferEntry,
    condition: PathCondition,
    version: usize,
) -> bool {
    exists|positive: usize, guarded: usize|
        #![trigger defined_from(versions, positive, entry.reached@), guards_version(versions, guarded, positive, condition)]
        defined_from(versions, positive, entry.reached@) && guards_version(
            versions,
            guarded,
            positive,
            condition,
        ) && ssa::is_phi(versions, set![entry.entry, guarded], version)
}

proof fn lemma_carried_grows(a: Seq<Version>, b: Seq<Version>, entry: TransferEntry, condition: PathCondition, version: usize)
    requires
        ssa::versions_grow(a, b),
        carried(a, entry, condition, version),
    ensures
        carried(b, entry, condition, version),
{
    let (positive, guarded) = choose|positive: usize, guarded: usize|
        #![trigger defined_from(a, positive, entry.reached@), guards_version(a, guarded, positive, condition)]
        defined_from(a, positive, entry.reached@) && guards_version(a, guarded, positive, condition)
            && ssa::is_phi(a, set![entry.entry, guarded], version);
    assert(a[positive as int] == b[positive as int]);
    assert(a[guarded as int] == b[guarded as int]);
    assert(defined_from(b, positive, entry.reached@));
    assert(guards_version(b, guarded, positive, condition));
    state::lemma_is_phi_grows(a, b, set![entry.entry, guarded], version);
}

/// Some entry of the transfer is for `key`.
pub open spec fn transfers(entries: Seq<TransferEntry>, key: u64) -> bool {
    exists|i: int| 0 <= i < entries.len() && (#[trigger] entries[i]).key == key
}

/// `version` is what `key` has after lifting an exit: the image of what the exit assigns, or
/// what an unassigned key carries.
pub open spec fn lifted(
    versions: Seq<Version>,
    mapped: Map<usize, usize>,
    entries: Seq<TransferEntry>,
    exit: ExitState,
    key: u64,
    version: usize,
) -> bool {
    ||| exists|v: usize| #[trigger]
        ssa::bound(exit.state.bindings@, key, v) && mapped.contains_key(v) && version == mapped[v]
    ||| !ssa::binds(exit.state.bindings@, key) && exists|i: int|
        0 <= i < entries.len() && (#[trigger] entries[i]).key == key && carried(
            versions,
            entries[i],
            exit.condition,
            version,
        )
}

proof fn lemma_lifted_grows(
    a: Seq<Version>,
    b: Seq<Version>,
    mapped: Map<usize, usize>,
    more: Map<usize, usize>,
    entries: Seq<TransferEntry>,
    exit: ExitState,
    key: u64,
    version: usize,
)
    requires
        ssa::versions_grow(a, b),
        mapping_grows(mapped, more),
        lifted(a, mapped, entries, exit, key, version),
    ensures
        lifted(b, more, entries, exit, key, version),
{
    if exists|v: usize| #[trigger] ssa::bound(exit.state.bindings@, key, v) && mapped.contains_key(v) && version == mapped[v] {
        let v = choose|v: usize| #[trigger] ssa::bound(exit.state.bindings@, key, v) && mapped.contains_key(v) && version == mapped[v];
        assert(ssa::bound(exit.state.bindings@, key, v) && more.contains_key(v) && version == more[v]);
    } else {
        let i = choose|i: int|
            0 <= i < entries.len() && (#[trigger] entries[i]).key == key && carried(a, entries[i], exit.condition, version);
        lemma_carried_grows(a, b, entries[i], exit.condition, version);
        assert(entries[i].key == key);
    }
}

/// The second exit is the first one lifted: it has the same condition, and binds what the first
/// binds and what the transfer writes.
pub open spec fn exit_lifted(
    versions: Seq<Version>,
    mapped: Map<usize, usize>,
    entries: Seq<TransferEntry>,
    before: ExitState,
    after: ExitState,
) -> bool {
    &&& after.condition == before.condition
    &&& after.state.wf()
    &&& forall|i: int|
        0 <= i < after.state.bindings@.len() ==> {
            let b = #[trigger] after.state.bindings@[i];
            lifted(versions, mapped, entries, before, b.key, b.version)
        }
    &&& forall|key: u64|
        ssa::binds(before.state.bindings@, key) || transfers(entries, key) ==> #[trigger] ssa::binds(
            after.state.bindings@,
            key,
        )
}

proof fn lemma_exit_grows(
    a: Seq<Version>,
    b: Seq<Version>,
    mapped: Map<usize, usize>,
    more: Map<usize, usize>,
    entries: Seq<TransferEntry>,
    before: ExitState,
    after: ExitState,
)
    requires
        ssa::versions_grow(a, b),
        mapping_grows(mapped, more),
        exit_lifted(a, mapped, entries, before, after),
    ensures
        exit_lifted(b, more, entries, before, after),
{
    assert forall|i: int| 0 <= i < after.state.bindings@.len() implies {
        let x = #[trigger] after.state.bindings@[i];
        lifted(b, more, entries, before, x.key, x.version)
    } by {
        let x = after.state.bindings@[i];
        lemma_lifted_grows(a, b, mapped, more, entries, before, x.key, x.version);
    }
}

/// The substitutes: an entry version stands for itself or for a value of an earlier iteration.
pub open spec fn substitutes(
    versions: Seq<Version>,
    entries: Seq<TransferEntry>,
    count: int,
    substitutions: Map<usize, usize>,
) -> bool {
    &&& forall|i: int|
        0 <= i < count ==> substitutions.contains_key((#[trigger] entries[i]).entry)
    &&& forall|v: usize| #[trigger]
        substitutions.contains_key(v) ==> exists|i: int|
            0 <= i < count && (#[trigger] entries[i]).entry == v && transferred(
                versions,
                entries[i],
                true,
                substitutions[v],
            )
}

proof fn lemma_substitutes_grow(a: Seq<Version>, b: Seq<Version>, entries: Seq<TransferEntry>, count: int, substitutions: Map<usize, usize>)
    requires
        ssa::versions_grow(a, b),
        substitutes(a, entries, count, substitutions),
    ensures
        substitutes(b, entries, count, substitutions),
{
    assert forall|v: usize| #[trigger] substitutions.contains_key(v) implies exists|i: int|
        0 <= i < count && (#[trigger] entries[i]).entry == v && transferred(b, entries[i], true, substitutions[v]) by {
        let i = choose|i: int| 0 <= i < count && (#[trigger] entries[i]).entry == v && transferred(a, entries[i], true, substitutions[v]);
        lemma_transferred_grows(a, b, entries[i], true, substitutions[v]);
        assert(entries[i].entry == v);
    }
}

/// The store keeps its guards in every arena that is not empty.
pub open spec fn keeps_guards_in(a: SsaStore, b: SsaStore, condition: PathCondition) -> bool {
    forall|nodes: Seq<PathNode>| #[trigger]
        a.guards_in(nodes) && nodes.len() > 0 && condition.node < nodes.len() ==> b.guards_in(nodes)
}

proof fn lemma_same_state_extends(a: SsaStore, b: SsaStore)
    requires
        ssa::same_state(a, b),
        a.entries@ == b.entries@,
    ensures
        extends(a, b),
{
}

impl SsaStore {
    /// What every entry version is replaced by in an exit.
    fn exit_substitutions(&mut self, transfer: &RepeatedTransfer) -> (r: HashMap<usize, usize>)
        requires
            old(self).wf(),
            repeated::transfer_below(*transfer, old(self).versions@.len() as int),
        ensures
            final(self).wf(),
            extends(*old(self), *final(self)),
            keeps_guards_in(*old(self), *final(self), PathCondition { node: 0 }),
            substitutes(
                final(self).versions@,
                transfer.entries@,
                transfer.entries@.len() as int,
                r@,
            ),
            forall|k: usize| #[trigger] r@.contains_key(k) ==> r@[k] < final(self).versions@.len(),
    {
        let ghost store0 = *self;
        let mut r: HashMap<usize, usize> = HashMap::new();
        let mut i: usize = 0;
        while i < transfer.entries.len()
            invariant
                i <= transfer.entries.len(),
                store0 == *old(self),
                self.wf(),
                extends(store0, *self),
                keeps_guards_in(store0, *self, PathCondition { node: 0 }),
                repeated::transfer_below(*transfer, store0.versions@.len() as int),
                substitutes(self.versions@, transfer.entries@, i as int, r@),
                forall|k: usize| #[trigger] r@.contains_key(k) ==> r@[k] < self.versions@.len(),
            decreases transfer.entries.len() - i,
        {
            let ghost before = *self;
            let ghost r0 = r@;
            let ghost entry = transfer.entries@[i as int];
            let held: usize = transfer.entries[i].entry;
            proof {
                assert(entry.entry < store0.versions@.len());
                assert forall|k: int| 0 <= k < entry.reached@.len() implies (#[trigger] entry.reached@[k]) < self.versions@.len() by {
                    assert(transfer.entries@[i as int].reached@[k] < store0.versions@.len());
                }
            }
            let positive = self.definition(&transfer.entries[i].reached);
            let ghost defined = *self;
            let output = self.phi_pair(held, positive);
            r.insert(held, output);
            proof {
                lemma_same_state_extends(before, defined);
                lemma_same_state_extends(defined, *self);
                lemma_extends_trans(before, defined, *self);
                lemma_extends_trans(store0, before, *self);
                assert(self.versions@[positive as int] == defined.versions@[positive as int]);
                assert(defined_from(self.versions@, positive, entry.reached@));
                assert(transferred(self.versions@, entry, true, output));
                lemma_substitutes_grow(before.versions@, self.versions@, transfer.entries@, i as int, r0);
                assert forall|v: usize| #[trigger] r@.contains_key(v) implies exists|k: int|
                    0 <= k < i + 1 && (#[trigger] transfer.entries@[k]).entry == v && transferred(self.versions@, transfer.entries@[k], true, r@[v]) by {
                    if v == held {
                        assert(transfer.entries@[i as int].entry == v);
                    } else {
                        assert(r0.contains_key(v));
                        let k = choose|k: int| 0 <= k < i && (#[trigger] transfer.entries@[k]).entry == v && transferred(self.versions@, transfer.entries@[k], true, r0[v]);
                        assert(transfer.entries@[k].entry == v);
                    }
                }
                assert forall|nodes: Seq<PathNode>| #[trigger] store0.guards_in(nodes) && nodes.len() > 0 && 0 < nodes.len() implies self.guards_in(nodes) by {
                    assert(before.guards_in(nodes));
                    assert(defined.guards_in(nodes));
                }
            }
            i = i + 1;
        }
        r
    }

    /// What a key that an exit does not assign has there.
    fn carry(&mut self, entry: &TransferEntry, condition: PathCondition) -> (r: usize)
        requires
            old(self).wf(),
            entry.entry < old(self).versions@.len(),
            forall|k: int|
                0 <= k < entry.reached@.len() ==> (#[trigger] entry.reached@[k]) < old(self).versions@.len(),
        ensures
            final(self).wf(),
            extends(*old(self), *final(self)),
            keeps_guards_in(*old(self), *final(self), condition),
            carried(final(self).versions@, *entry, condition, r),
            r < final(self).versions@.len(),
    {
        let ghost store0 = *self;
        let positive = self.definition(&entry.reached);
        let ghost store1 = *self;
        let mut sources: Vec<SourceRef> = Vec::new();
        sources.push(
            SourceRef {
                version: positive,
                relation: PositionRelation { array: Some(0), packed: Some(0) },
            },
        );
        let guarded = self.related_definition_guarded(&sources, condition);
        let ghost store2 = *self;
        let r = self.phi_pair(entry.entry, guarded);
        proof {
            lemma_same_state_extends(store0, store1);
            lemma_same_state_extends(store1, store2);
            lemma_same_state_extends(store2, *self);
            lemma_extends_trans(store0, store1, store2);
            lemma_extends_trans(store0, store2, *self);
            assert(self.versions@[positive as int] == store1.versions@[positive as int]) by {
                assert(store2.versions@[positive as int] == store1.versions@[positive as int]);
            }
            assert(self.versions@[guarded as int] == store2.versions@[guarded as int]);
            assert(defined_from(self.versions@, positive, entry.reached@));
            if let Version::Definition { sources: kept, .. } = self.versions@[guarded as int] {
                let only = SourceRef { version: positive, relation: PositionRelation::identity() };
                assert(sources@[0] == only);
                assert forall|s: SourceRef| #[trigger] kept@.contains(s) <==> s == only by {
                    assert(kept@.contains(s) <==> sources@.contains(s));
                    if s == only {
                        assert(sources@.contains(sources@[0]));
                    }
                }
            }
            assert(guards_version(self.versions@, guarded, positive, condition));
            assert forall|nodes: Seq<PathNode>| #[trigger] store0.guards_in(nodes) && nodes.len() > 0 && condition.node < nodes.len() implies self.guards_in(nodes) by {
                assert(store1.guards_in(nodes));
                assert(store2.guards_in(nodes));
            }
        }
        r
    }

    /// The bindings of one exit after lifting.
    fn lift_exit(
        &mut self,
        transfer: &RepeatedTransfer,
        substitutions: &HashMap<usize, usize>,
        mapped: &mut HashMap<usize, usize>,
        exit: &ExitState,
    ) -> (r: ExitState)
        requires
            old(self).wf(),
            repeated::transfer_below(*transfer, old(self).versions@.len() as int),
            exit.state.wf(),
            forall|i: int|
                0 <= i < exit.state.bindings@.len() ==> (
                #[trigger] exit.state.bindings@[i]).version < old(self).versions@.len(),
            forall|k: usize| #[trigger]
                substitutions@.contains_key(k) ==> substitutions@[k] < old(self).versions@.len(),
            images_right(*old(self), substitutions@, transfer.version_start as int, old(mapped)@),
        ensures
            final(self).wf(),
            extends(*old(self), *final(self)),
            keeps_guards_in(*old(self), *final(self), exit.condition),
            images_right(
                *final(self),
                substitutions@,
                transfer.version_start as int,
                final(mapped)@,
            ),
            mapping_grows(old(mapped)@, final(mapped)@),
            exit_lifted(final(self).versions@, final(mapped)@, transfer.entries@, *exit, r),
            forall|i: int|
                0 <= i < r.state.bindings@.len() ==> (#[trigger] r.state.bindings@[i]).version
                    < final(self).versions@.len(),
    {
        let ghost store0 = *self;
        let ghost mapped0 = mapped@;
        let ghost entries = transfer.entries@;
        let ghost given = exit.state.bindings@;
        let mut out: Vec<Binding> = Vec::new();
        let mut i: usize = 0;
        let mut j: usize = 0;
        while i < exit.state.bindings.len() || j < transfer.entries.len()
            invariant
                i <= given.len(),
                j <= entries.len(),
                given == exit.state.bindings@,
                entries == transfer.entries@,
                store0 == *old(self),
                mapped0 == old(mapped)@,
                self.wf(),
                extends(store0, *self),
                keeps_guards_in(store0, *self, exit.condition),
                repeated::transfer_below(*transfer, store0.versions@.len() as int),
                ssa::states_sorted(given),
                forall|k: int|
                    0 <= k < given.len() ==> (#[trigger] given[k]).version < store0.versions@.len(),
                forall|k: usize| #[trigger]
                    substitutions@.contains_key(k) ==> substitutions@[k] < store0.versions@.len(),
                images_right(*self, substitutions@, transfer.version_start as int, mapped@),
                mapping_grows(mapped0, mapped@),
                ssa::states_sorted(out@),
                forall|k: int|
                    0 <= k < out@.len() ==> {
                        let b = #[trigger] out@[k];
                        &&& lifted(self.versions@, mapped@, entries, *exit, b.key, b.version)
                        &&& b.version < self.versions@.len()
                        &&& forall|m: int| i <= m < given.len() ==> b.key < (#[trigger] given[m]).key
                        &&& forall|m: int|
                            j <= m < entries.len() ==> b.key < (#[trigger] entries[m]).key
                    },
                forall|k: int| 0 <= k < i ==> ssa::binds(out@, (#[trigger] given[k]).key),
                forall|k: int| 0 <= k < j ==> ssa::binds(out@, (#[trigger] entries[k]).key),
                forall|k: int, m: int|
                    0 <= k < i && j <= m < entries.len() ==> (#[trigger] given[k]).key < (
                    #[trigger] entries[m]).key,
                forall|k: int, m: int|
                    0 <= k < j && i <= m < given.len() ==> (#[trigger] entries[k]).key < (
                    #[trigger] given[m]).key,
            decreases given.len() - i + entries.len() - j,
        {
            let ghost before = *self;
            let ghost mapped1 = mapped@;
            let ghost out1 = out@;
            let from_exit: bool = i < exit.state.bindings.len() && (j >= transfer.entries.len()
                || exit.state.bindings[i].key <= transfer.entries[j].key);
            let ghost (i1, j1) = (i as int, j as int);
            let key: u64;
            let version: usize;
            if from_exit {
                key = exit.state.bindings[i].key;
                let held: usize = exit.state.bindings[i].version;
                assert(given[i as int].version < store0.versions@.len());
                version =
                self.substitute_iteration_inputs(held, substitutions, transfer.version_start, mapped);
                proof {
                    assert(given.contains(given[i as int]));
                    assert(ssa::bound(exit.state.bindings@, key, held));
                    assert(lifted(self.versions@, mapped@, entries, *exit, key, version));
                    assert forall|nodes: Seq<PathNode>| #[trigger] store0.guards_in(nodes) && nodes.len() > 0 && exit.condition.node < nodes.len() implies self.guards_in(nodes) by {
                        assert(before.guards_in(nodes));
                    }
                }
                if j < transfer.entries.len() && transfer.entries[j].key == key {
                    j = j + 1;
                }
                i = i + 1;
            } else {
                key = transfer.entries[j].key;
                proof {
                    assert(entries[j as int].entry < store0.versions@.len());
                    assert forall|k: int| 0 <= k < entries[j as int].reached@.len() implies (#[trigger] entries[j as int].reached@[k]) < self.versions@.len() by {
                        assert(transfer.entries@[j as int].reached@[k] < store0.versions@.len());
                    }
                }
                version = self.carry(&transfer.entries[j], exit.condition);
                proof {
                    assert forall|v: usize| #[trigger] mapped@.contains_key(v) implies v < self.versions@.len() && mapped@[v] < self.versions@.len()
                        && is_image(*self, substitutions@, transfer.version_start as int, mapped@, v, mapped@[v]) by {
                        lemma_images_grow(before, *self, substitutions@, transfer.version_start as int, mapped@, mapped@, v);
                    }
                    if ssa::binds(given, key) {
                        let k = choose|k: int| 0 <= k < given.len() && (#[trigger] given[k]).key == key;
                        if k < i {
                            assert(given[k].key < entries[j as int].key);
                        } else {
                            assert(i < given.len());
                            assert(given[i as int].key <= given[k].key);
                        }
                    }
                    assert(entries[j as int].key == key);
                    assert(lifted(self.versions@, mapped@, entries, *exit, key, version));
                    assert forall|nodes: Seq<PathNode>| #[trigger] store0.guards_in(nodes) && nodes.len() > 0 && exit.condition.node < nodes.len() implies self.guards_in(nodes) by {
                        assert(before.guards_in(nodes));
                    }
                }
                j = j + 1;
            }
            out.push(Binding { key, version });
            proof {
                lemma_extends_trans(store0, before, *self);
                assert forall|k: int| 0 <= k < out@.len() implies ({
                    let b = #[trigger] out@[k];
                    &&& lifted(self.versions@, mapped@, entries, *exit, b.key, b.version)
                    &&& b.version < self.versions@.len()
                    &&& forall|m: int| i <= m < given.len() ==> b.key < (#[trigger] given[m]).key
                    &&& forall|m: int| j <= m < entries.len() ==> b.key < (#[trigger] entries[m]).key
                }) by {
                    if k < out1.len() {
                        assert(out@[k] == out1[k]);
                        let b = out1[k];
                        lemma_lifted_grows(before.versions@, self.versions@, mapped1, mapped@, entries, *exit, b.key, b.version);
                    } else {
                        if from_exit {
                            assert(given[i1].key == key);
                            if j1 < entries.len() {
                                assert(entries[j1].key >= key);
                            }
                        } else {
                            assert(entries[j1].key == key);
                            if i1 < given.len() {
                                assert(given[i1].key > key);
                            }
                        }
                    }
                }
                assert forall|k: u64| #[trigger] ssa::binds(out1, k) implies ssa::binds(out@, k) by {
                    let x = choose|x: int| 0 <= x < out1.len() && (#[trigger] out1[x]).key == k;
                    assert(out@[x].key == k);
                }
                assert(ssa::binds(out@, key)) by {
                    assert(out@[out1.len() as int].key == key);
                }
                assert forall|k: int| 0 <= k < i implies ssa::binds(out@, (#[trigger] given[k]).key) by {
                    if k < i1 {
                        assert(ssa::binds(out1, given[k].key));
                    }
                }
                assert forall|k: int| 0 <= k < j implies ssa::binds(out@, (#[trigger] entries[k]).key) by {
                    if k < j1 {
                        assert(ssa::binds(out1, entries[k].key));
                    }
                }
            }
        }
        let r = ExitState { state: BranchState { bindings: out }, condition: exit.condition };
        proof {
            assert forall|key: u64| ssa::binds(given, key) || transfers(entries, key) implies #[trigger] ssa::binds(r.state.bindings@, key) by {
                if ssa::binds(given, key) {
                    let k = choose|k: int| 0 <= k < given.len() && (#[trigger] given[k]).key == key;
                    assert(ssa::binds(out@, given[k].key));
                } else {
                    let k = choose|k: int| 0 <= k < entries.len() && (#[trigger] entries[k]).key == key;
                    assert(ssa::binds(out@, entries[k].key));
                }
            }
        }
        r
    }

    /// Makes early exits of one iteration exits of the whole loop.
    ///
    /// An exit can be taken after any number of complete iterations, so the values with which an
    /// iteration starts are replaced by what earlier iterations may have left there.
    pub fn lift_repeated_exit_states(
        &mut self,
        transfer: &RepeatedTransfer,
        exits: &mut Vec<ExitState>,
    )
        requires
            old(self).wf(),
            repeated::transfer_below(*transfer, old(self).versions@.len() as int),
            forall|e: int|
                0 <= e < old(exits)@.len() ==> exit_below(
                    #[trigger] old(exits)@[e],
                    old(self).versions@.len() as int,
                ),
        ensures
            final(self).wf(),
            extends(*old(self), *final(self)),
            final(exits)@.len() == old(exits)@.len(),
            old(exits)@.len() == 0 ==> *final(self) == *old(self),
            old(exits)@.len() > 0 ==> exists|
                substitutions: Map<usize, usize>,
                mapped: Map<usize, usize>,
            | #[trigger]
                lifts_all(
                    *final(self),
                    *transfer,
                    old(exits)@,
                    final(exits)@,
                    substitutions,
                    mapped,
                ),
            forall|e: int|
                0 <= e < final(exits)@.len() ==> exit_below(
                    #[trigger] final(exits)@[e],
                    final(self).versions@.len() as int,
                ),
            forall|nodes: Seq<PathNode>| #[trigger]
                old(self).guards_in(nodes) && nodes.len() > 0 && (forall|e: int|
                    0 <= e < old(exits)@.len() ==> (#[trigger] old(exits)@[e]).condition.node
                        < nodes.len()) ==> final(self).guards_in(nodes),
    {
        if exits.len() == 0 {
            return;
        }
        let ghost store0 = *self;
        let ghost given = exits@;
        let substitutions = self.exit_substitutions(transfer);
        let ghost store1 = *self;
        let mut mapped: HashMap<usize, usize> = HashMap::new();
        let mut lifted_exits: Vec<ExitState> = Vec::new();
        let mut e: usize = 0;
        while e < exits.len()
            invariant
                e <= exits.len(),
                exits@ == given,
                lifted_exits@.len() == e,
                self.wf(),
                extends(store0, *self),
                extends(store1, *self),
                store1.wf(),
                repeated::transfer_below(*transfer, store0.versions@.len() as int),
                forall|k: int|
                    0 <= k < given.len() ==> exit_below(
                        #[trigger] given[k],
                        store0.versions@.len() as int,
                    ),
                forall|k: usize| #[trigger]
                    substitutions@.contains_key(k) ==> substitutions@[k] < store1.versions@.len(),
                images_right(*self, substitutions@, transfer.version_start as int, mapped@),
                substitutes(
                    self.versions@,
                    transfer.entries@,
                    transfer.entries@.len() as int,
                    substitutions@,
                ),
                forall|k: int|
                    0 <= k < e ==> exit_lifted(
                        self.versions@,
                        mapped@,
                        transfer.entries@,
                        given[k],
                        #[trigger] lifted_exits@[k],
                    ),
                forall|k: int|
                    0 <= k < e ==> exit_below(
                        #[trigger] lifted_exits@[k],
                        self.versions@.len() as int,
                    ),
                forall|nodes: Seq<PathNode>| #[trigger]
                    store0.guards_in(nodes) && nodes.len() > 0 && (forall|k: int|
                        0 <= k < given.len() ==> (#[trigger] given[k]).condition.node
                            < nodes.len()) ==> self.guards_in(nodes),
            decreases exits.len() - e,
        {
            let ghost before = *self;
            let ghost mapped1 = mapped@;
            let ghost exits1 = lifted_exits@;
            assert(exit_below(given[e as int], store0.versions@.len() as int));
            let one = self.lift_exit(transfer, &substitutions, &mut mapped, &exits[e]);
            lifted_exits.push(one);
            proof {
                lemma_extends_trans(store0, before, *self);
                lemma_extends_trans(store1, before, *self);
                lemma_substitutes_grow(before.versions@, self.versions@, transfer.entries@, transfer.entries@.len() as int, substitutions@);
                assert forall|k: int| 0 <= k < e + 1 implies exit_lifted(self.versions@, mapped@, transfer.entries@, given[k], #[trigger] lifted_exits@[k])
                    && exit_below(lifted_exits@[k], self.versions@.len() as int) by {
                    if k < e {
                        assert(lifted_exits@[k] == exits1[k]);
                        lemma_exit_grows(before.versions@, self.versions@, mapped1, mapped@, transfer.entries@, given[k], exits1[k]);
                    }
                }
                assert forall|nodes: Seq<PathNode>| #[trigger] store0.guards_in(nodes) && nodes.len() > 0 && (forall|k: int|
                    0 <= k < given.len() ==> (#[trigger] given[k]).condition.node < nodes.len()) implies self.guards_in(nodes) by {
                    assert(before.guards_in(nodes));
                    assert(given[e as int].condition.node < nodes.len());
                }
            }
            e = e + 1;
        }
        proof {
            assert(lifts_all(*self, *transfer, given, lifted_exits@, substitutions@, mapped@));
        }
        *exits = lifted_exits;
    }
}

/// The bindings ascend and name versions of the store.
pub open spec fn exit_below(exit: ExitState, limit: int) -> bool {
    &&& exit.state.wf()
    &&& forall|i: int|
        0 <= i < exit.state.bindings@.len() ==> (#[trigger] exit.state.bindings@[i]).version
            < limit
}

/// Every exit is lifted, over the same substitutes and the same images.
pub open spec fn lifts_all(
    store: SsaStore,
    transfer: RepeatedTransfer,
    before: Seq<ExitState>,
    after: Seq<ExitState>,
    substitutions: Map<usize, usize>,
    mapped: Map<usize, usize>,
) -> bool {
    &&& substitutes(
        store.versions@,
        transfer.entries@,
        transfer.entries@.len() as int,
        substitutions,
    )
    &&& images_right(store, substitutions, transfer.version_start as int, mapped)
    &&& after.len() == before.len()
    &&& forall|k: int|
        0 <= k < before.len() ==> exit_lifted(
            store.versions@,
            mapped,
            transfer.entries@,
            before[k],
            #[trigger] after[k],
        )
}

} // verus!
