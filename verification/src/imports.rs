//! Imported graphs and the shape of versions.
use vstd::prelude::*;
use std::collections::HashMap;
use crate::arena::PathNode;
use crate::dag::DependencyDag;
use crate::order::Ordered;
use crate::remap::BranchRemapper;
use crate::ssa;
use crate::ssa::{Import, KeyBinding, SsaStore, Version};
use crate::summary::copy_mapping;

verus! {

/// Only graphs and imports were added.
pub open spec fn keeps_all_but_imports(a: SsaStore, b: SsaStore) -> bool {
    &&& a.versions == b.versions
    &&& a.entries == b.entries
    &&& a.current == b.current
    &&& a.undo == b.undo
    &&& a.checkpoints == b.checkpoints
    &&& a.revision_events == b.revision_events
    &&& a.active_revisions == b.active_revisions
    &&& a.next_revision_id == b.next_revision_id
}

/// The list of bindings names versions of the store only.
pub open spec fn bindings_before(bindings: Seq<KeyBinding>, limit: int) -> bool {
    forall|b: int|
        0 <= b < bindings.len() ==> ssa::sources_before((#[trigger] bindings[b]).sources@, limit)
}

impl SsaStore {
    /// Makes a graph available to imports.
    pub fn add_graph(&mut self, graph: DependencyDag) -> (r: usize)
        requires
            old(self).wf(),
            graph.wf(),
            graph.forward(),
        ensures
            final(self).wf(),
            r == old(self).graphs@.len(),
            final(self).graphs@ == old(self).graphs@.push(graph),
            final(self).imports == old(self).imports,
            keeps_all_but_imports(*old(self), *final(self)),
            forall|nodes: Seq<PathNode>| #[trigger]
                old(self).guards_in(nodes) && graph.guarded_in(nodes) ==> final(self).guards_in(
                    nodes,
                ),
    {
        let r: usize = self.graphs.len();
        self.graphs.push(graph);
        proof {
            assert forall|i: int| 0 <= i < self.versions@.len() implies (#[trigger] self.versions@[i]).wf(i, self.graphs@, self.imports@) by {
                assert(old(self).versions@[i].wf(i, old(self).graphs@, self.imports@));
                if let Version::Imported { import, .. } = self.versions@[i] {
                    assert(old(self).imports@[import as int].wf(old(self).graphs@));
                }
            }
            assert forall|i: int| 0 <= i < self.imports@.len() implies (#[trigger] self.imports@[i]).wf(self.graphs@) by {
                assert(old(self).imports@[i].wf(old(self).graphs@));
            }
            assert forall|g: int| 0 <= g < self.graphs@.len() implies (#[trigger] self.graphs@[g]).wf() && self.graphs@[g].forward() by {
                if g < old(self).graphs@.len() {
                    assert(old(self).graphs@[g].wf());
                }
            }
            assert forall|nodes: Seq<PathNode>| #[trigger] old(self).guards_in(nodes) && graph.guarded_in(nodes) implies self.guards_in(nodes) by {
                assert forall|g: int| 0 <= g < self.graphs@.len() implies (#[trigger] self.graphs@[g]).guarded_in(nodes) by {
                    if g < old(self).graphs@.len() {
                        assert(old(self).graphs@[g].guarded_in(nodes));
                    }
                }
                assert forall|i: int| 0 <= i < self.imports@.len() implies ssa::renames_graph((#[trigger] self.imports@[i]).mapping@, self.graphs@[self.imports@[i].graph as int], nodes) by {
                    assert(old(self).imports@[i].wf(old(self).graphs@));
                    assert(ssa::renames_graph(old(self).imports@[i].mapping@, old(self).graphs@[self.imports@[i].graph as int], nodes));
                }
            }
        }
        r
    }

    /// Binds the external keys of a graph and renames its branches, to be shared by roots.
    pub fn add_import(&mut self, import: Import) -> (r: usize)
        requires
            old(self).wf(),
            import.wf(old(self).graphs@),
        ensures
            final(self).wf(),
            r == old(self).imports@.len(),
            final(self).imports@ == old(self).imports@.push(import),
            final(self).graphs == old(self).graphs,
            keeps_all_but_imports(*old(self), *final(self)),
            forall|nodes: Seq<PathNode>| #[trigger]
                old(self).guards_in(nodes) && ssa::renames_graph(
                    import.mapping@,
                    old(self).graphs@[import.graph as int],
                    nodes,
                ) ==> final(self).guards_in(nodes),
    {
        let r: usize = self.imports.len();
        self.imports.push(import);
        proof {
            assert forall|i: int| 0 <= i < self.versions@.len() implies (#[trigger] self.versions@[i]).wf(i, self.graphs@, self.imports@) by {
                assert(old(self).versions@[i].wf(i, self.graphs@, old(self).imports@));
            }
            assert forall|i: int| 0 <= i < self.imports@.len() implies (#[trigger] self.imports@[i]).wf(self.graphs@) by {
                if i < old(self).imports@.len() {
                    assert(old(self).imports@[i].wf(self.graphs@));
                }
            }
            assert forall|nodes: Seq<PathNode>| #[trigger] old(self).guards_in(nodes) && ssa::renames_graph(import.mapping@, old(self).graphs@[import.graph as int], nodes) implies self.guards_in(nodes) by {
                assert forall|i: int| 0 <= i < self.imports@.len() implies ssa::renames_graph((#[trigger] self.imports@[i]).mapping@, self.graphs@[self.imports@[i].graph as int], nodes) by {
                    if i < old(self).imports@.len() {
                        assert(ssa::renames_graph(old(self).imports@[i].mapping@, self.graphs@[old(self).imports@[i].graph as int], nodes));
                    }
                }
            }
        }
        r
    }

    /// A version that stands for a root of a shared import.
    pub fn imported_shared(&mut self, import: usize, root: Option<usize>) -> (r: usize)
        requires
            old(self).wf(),
            (Version::Imported { import, root }).wf(
                old(self).versions@.len() as int,
                old(self).graphs@,
                old(self).imports@,
            ),
        ensures
            final(self).wf(),
            r == old(self).versions@.len(),
            final(self).versions@ == old(self).versions@.push(Version::Imported { import, root }),
            final(self).entries@ == old(self).entries@,
            ssa::same_state(*old(self), *final(self)),
            ssa::keeps_guards(*old(self), *final(self)),
    {
        self.push_version(Version::Imported { import, root })
    }

    /// A version that stands for a root of a graph imported for it alone.
    pub fn imported(&mut self, import: Import, root: Option<usize>) -> (r: usize)
        requires
            old(self).wf(),
            import.wf(old(self).graphs@),
            bindings_before(import.bindings@, old(self).versions@.len() as int),
            root matches Some(n) ==> n < old(self).graphs@[import.graph as int].nodes@.len(),
        ensures
            final(self).wf(),
            r == old(self).versions@.len(),
            final(self).imports@ == old(self).imports@.push(import),
            final(self).graphs == old(self).graphs,
            final(self).versions@ == old(self).versions@.push(
                Version::Imported { import: old(self).imports@.len() as usize, root },
            ),
            final(self).entries@ == old(self).entries@,
            final(self).current@ == old(self).current@,
            final(self).undo@ == old(self).undo@,
            final(self).checkpoints@ == old(self).checkpoints@,
            final(self).active_revisions@ == old(self).active_revisions@,
            final(self).revision_events@ == old(self).revision_events@,
            final(self).next_revision_id == old(self).next_revision_id,
            forall|nodes: Seq<PathNode>| #[trigger]
                old(self).guards_in(nodes) && ssa::renames_graph(
                    import.mapping@,
                    old(self).graphs@[import.graph as int],
                    nodes,
                ) ==> final(self).guards_in(nodes),
    {
        let ghost before = *self;
        let id = self.add_import(import);
        let ghost mid = *self;
        let r = self.imported_shared(id, root);
        proof {
            assert forall|nodes: Seq<PathNode>| #[trigger] before.guards_in(nodes) && ssa::renames_graph(import.mapping@, before.graphs@[import.graph as int], nodes) implies self.guards_in(nodes) by {
                assert(mid.guards_in(nodes));
            }
        }
        r
    }

    /// A renaming of branches for the graph of an import.
    pub fn branch_remapper(&self, import: usize) -> (r: BranchRemapper)
        requires
            self.wf(),
            import < self.imports@.len(),
        ensures
            r.mapping@ == self.imports@[import as int].mapping@,
            r.sorted(),
            r.cache@ == Map::<usize, usize>::empty(),
    {
        assert(self.imports@[import as int].wf(self.graphs@));
        BranchRemapper::new(copy_mapping(&self.imports[import].mapping))
    }
}

/// A version depends on the structure of some graph or projection.
pub open spec fn structural(versions: Seq<Version>, version: int) -> bool
    decreases version,
{
    if !(0 <= version < versions.len()) {
        false
    } else {
        match versions[version] {
            Version::Entry(_) => false,
            Version::Definition { sources, .. } => exists|i: int|
                0 <= i < sources@.len() && (#[trigger] sources@[i]).version < version && structural(
                    versions,
                    sources@[i].version as int,
                ),
            Version::Phi(inputs) => exists|i: int|
                0 <= i < inputs@.len() && (#[trigger] inputs@[i]) < version && structural(
                    versions,
                    inputs@[i] as int,
                ),
            _ => true,
        }
    }
}

/// How many of the first `n` versions have no cached answer.
spec fn uncached(cache: Map<usize, bool>, n: int) -> int
    decreases n,
{
    if n <= 0 {
        0
    } else {
        uncached(cache, n - 1) + (if cache.contains_key((n - 1) as usize) {
            0int
        } else {
            1int
        })
    }
}

proof fn lemma_uncached(cache: Map<usize, bool>, n: int, key: usize, value: bool)
    requires
        0 <= n <= usize::MAX,
        !cache.contains_key(key),
    ensures
        uncached(cache.insert(key, value), n) == uncached(cache, n) - (if key < n {
            1int
        } else {
            0int
        }),
        uncached(cache, n) >= 0,
        uncached(cache.insert(key, value), n) >= 0,
    decreases n,
{
    if n > 0 {
        lemma_uncached(cache, n - 1, key, value);
    }
}

/// The cached answers are right.
pub open spec fn cache_right(versions: Seq<Version>, cache: Map<usize, bool>) -> bool {
    forall|k: usize| #[trigger]
        cache.contains_key(k) ==> k < versions.len() && cache[k] == structural(versions, k as int)
}

impl SsaStore {
    /// The first source of a version that has no cached answer.
    fn first_uncached(&self, version: usize, cache: &HashMap<usize, bool>) -> (r: Option<usize>)
        requires
            self.wf(),
            version < self.versions@.len(),
            cache_right(self.versions@, cache@),
        ensures
            r matches Some(s) ==> s < version && !cache@.contains_key(s),
            r is None ==> match self.versions@[version as int] {
                Version::Definition { sources, .. } => forall|i: int|
                    0 <= i < sources@.len() ==> cache@.contains_key(
                        (#[trigger] sources@[i]).version,
                    ),
                Version::Phi(inputs) => forall|i: int|
                    0 <= i < inputs@.len() ==> cache@.contains_key(#[trigger] inputs@[i]),
                _ => true,
            },
    {
        assert(self.versions@[version as int].wf(version as int, self.graphs@, self.imports@));
        match &self.versions[version] {
            Version::Definition { sources, .. } => {
                let mut i: usize = 0;
                while i < sources.len()
                    invariant
                        i <= sources.len(),
                        ssa::sources_before(sources@, version as int),
                        forall|k: int|
                            0 <= k < i ==> cache@.contains_key((#[trigger] sources@[k]).version),
                    decreases sources.len() - i,
                {
                    let source: usize = sources[i].version;
                    assert(sources@[i as int].version < version);
                    if !cache.contains_key(&source) {
                        return Some(source);
                    }
                    i = i + 1;
                }
                None
            },
            Version::Phi(inputs) => {
                let mut i: usize = 0;
                while i < inputs.len()
                    invariant
                        i <= inputs.len(),
                        forall|k: int| 0 <= k < inputs@.len() ==> (#[trigger] inputs@[k]) < version,
                        forall|k: int| 0 <= k < i ==> cache@.contains_key(#[trigger] inputs@[k]),
                    decreases inputs.len() - i,
                {
                    let input: usize = inputs[i];
                    assert(inputs@[i as int] < version);
                    if !cache.contains_key(&input) {
                        return Some(input);
                    }
                    i = i + 1;
                }
                None
            },
            _ => None,
        }
    }

    /// The answer for a version whose sources are all cached.
    fn answer(&self, version: usize, cache: &HashMap<usize, bool>) -> (r: bool)
        requires
            self.wf(),
            version < self.versions@.len(),
            cache_right(self.versions@, cache@),
            match self.versions@[version as int] {
                Version::Definition { sources, .. } => forall|i: int|
                    0 <= i < sources@.len() ==> cache@.contains_key(
                        (#[trigger] sources@[i]).version,
                    ),
                Version::Phi(inputs) => forall|i: int|
                    0 <= i < inputs@.len() ==> cache@.contains_key(#[trigger] inputs@[i]),
                _ => true,
            },
        ensures
            r == structural(self.versions@, version as int),
    {
        assert(self.versions@[version as int].wf(version as int, self.graphs@, self.imports@));
        match &self.versions[version] {
            Version::Entry(_) => false,
            Version::Definition { sources, .. } => {
                let mut i: usize = 0;
                while i < sources.len()
                    invariant
                        i <= sources.len(),
                        version < self.versions@.len(),
                        self.versions@[version as int] matches Version::Definition { sources: list, .. } && list == *sources,
                        ssa::sources_before(sources@, version as int),
                        cache_right(self.versions@, cache@),
                        forall|k: int|
                            0 <= k < sources@.len() ==> cache@.contains_key(
                                (#[trigger] sources@[k]).version,
                            ),
                        forall|k: int|
                            0 <= k < i ==> !structural(
                                self.versions@,
                                (#[trigger] sources@[k]).version as int,
                            ),
                    decreases sources.len() - i,
                {
                    let source: usize = sources[i].version;
                    assert(sources@[i as int].version < version);
                    if let Some(found) = cache.get(&source) {
                        if *found {
                            return true;
                        }
                    }
                    i = i + 1;
                }
                false
            },
            Version::Phi(inputs) => {
                let mut i: usize = 0;
                while i < inputs.len()
                    invariant
                        i <= inputs.len(),
                        version < self.versions@.len(),
                        self.versions@[version as int] matches Version::Phi(list) && list == *inputs,
                        forall|k: int| 0 <= k < inputs@.len() ==> (#[trigger] inputs@[k]) < version,
                        cache_right(self.versions@, cache@),
                        forall|k: int| 0 <= k < inputs@.len() ==> cache@.contains_key(#[trigger] inputs@[k]),
                        forall|k: int|
                            0 <= k < i ==> !structural(self.versions@, (#[trigger] inputs@[k]) as int),
                    decreases inputs.len() - i,
                {
                    let input: usize = inputs[i];
                    assert(inputs@[i as int] < version);
                    if let Some(found) = cache.get(&input) {
                        if *found {
                            return true;
                        }
                    }
                    i = i + 1;
                }
                false
            },
            _ => true,
        }
    }

    /// Whether `version` depends on an imported graph, a projection or a regular transfer. Each
    /// version is answered once and remembered.
    pub fn has_structural_dependency_cached(
        &self,
        version: usize,
        cache: &mut HashMap<usize, bool>,
    ) -> (r: bool)
        requires
            self.wf(),
            version < self.versions@.len(),
            cache_right(self.versions@, old(cache)@),
        ensures
            r == structural(self.versions@, version as int),
            cache_right(self.versions@, final(cache)@),
            final(cache)@.contains_key(version),
            forall|k: usize| #[trigger]
                old(cache)@.contains_key(k) ==> final(cache)@.contains_key(k),
            old(cache)@.contains_key(version) ==> final(cache)@ == old(cache)@,
            forall|k: usize| #[trigger] final(cache)@.contains_key(k) ==> old(cache)@.contains_key(k) || k <= version,
    {
        if let Some(found) = cache.get(&version) {
            return *found;
        }
        let count: usize = self.versions.len();
        let mut stack: Vec<usize> = Vec::new();
        stack.push(version);
        while stack.len() > 0
            invariant
                self.wf(),
                count == self.versions@.len(),
                version < self.versions@.len(),
                cache_right(self.versions@, cache@),
                forall|k: usize| #[trigger] old(cache)@.contains_key(k) ==> cache@.contains_key(k),
                forall|k: usize| #[trigger] cache@.contains_key(k) ==> old(cache)@.contains_key(k) || k <= version,
                stack@.len() > 0 ==> stack@[0] == version,
                stack@.len() == 0 ==> cache@.contains_key(version),
                forall|i: int| 0 <= i < stack@.len() ==> !cache@.contains_key(#[trigger] stack@[i]) && stack@[i] <= version,
                forall|i: int, j: int| 0 <= i < j < stack@.len() ==> #[trigger] stack@[i] > #[trigger] stack@[j],
            decreases uncached(cache@, count as int), (if stack@.len() > 0 { stack@.last() as int } else { 0int }),
        {
            let top: usize = stack[stack.len() - 1];
            let ghost stack0 = stack@;
            let ghost cache0 = cache@;
            match self.first_uncached(top, cache) {
                Some(source) => {
                    stack.push(source);
                    proof {
                        lemma_uncached(cache@, count as int, source, true);
                        assert forall|i: int, j: int| 0 <= i < j < stack@.len() implies #[trigger] stack@[i] > #[trigger] stack@[j] by {
                            if j == stack0.len() && i < stack0.len() - 1 {
                                assert(stack0[i] > stack0[stack0.len() - 1]);
                            }
                        }
                    }
                },
                None => {
                    let found = self.answer(top, cache);
                    cache.insert(top, found);
                    stack.pop();
                    proof {
                        lemma_uncached(cache0, count as int, top, found);
                        assert forall|i: int| 0 <= i < stack@.len() implies !cache@.contains_key(#[trigger] stack@[i]) && stack@[i] <= version by {
                            assert(stack0[i] > stack0[stack0.len() - 1]);
                        }
                    }
                },
            }
        }
        match cache.get(&version) {
            Some(found) => *found,
            None => false,
        }
    }

    /// Whether `version` depends on an imported graph, a projection or a regular transfer.
    pub fn has_structural_dependency(&self, version: usize) -> (r: bool)
        requires
            self.wf(),
            version < self.versions@.len(),
        ensures
            r == structural(self.versions@, version as int),
    {
        let mut cache: HashMap<usize, bool> = HashMap::new();
        self.has_structural_dependency_cached(version, &mut cache)
    }
}

} // verus!
