//! Turning versions into a dependency graph.
use vstd::prelude::*;
use std::collections::{HashMap, HashSet};
use crate::arena;
use crate::arena::{PathArena, PathCondition, PathNode};
use crate::dag;
use crate::dag::{DagEdge, DagNode, DependencyDag};
use crate::splice;
use crate::splice::{Arrival, inline_dependency_dag_cached, DagBuilder, NodeBinding, NodeRef};
use crate::path::{BranchId, Choice};
use crate::relation::{PositionDomain, PositionRelation, SourceRef};
use crate::remap;
use crate::remap::BranchRemapper;
use crate::ssa;
use crate::ssa::{SsaStore, Version};

verus! {

/// Something that may become a node: a version, with or without the entry value that it may
/// retain, or a node of an imported graph.
#[derive(Clone, Copy, Debug, PartialEq, Eq, Hash, Structural)]
pub enum Place {
    Version { version: usize, entry: bool },
    Child { import: usize, node: usize },
}

/// The graph of an import.
pub open spec fn import_graph(store: SsaStore, import: int) -> DependencyDag {
    store.graphs@[store.imports@[import].graph as int]
}

/// A value read for `key` at `import`.
pub open spec fn reads_key(store: SsaStore, import: int, key: u64, source: SourceRef) -> bool {
    exists|b: int|
        0 <= b < store.imports@[import].bindings@.len() && (
        #[trigger] store.imports@[import].bindings@[b]).key == key
            && store.imports@[import].bindings@[b].sources@.contains(source)
}

/// The first place depends directly on the second.
pub open spec fn needs(store: SsaStore, a: Place, b: Place) -> bool {
    match a {
        Place::Version { version, entry } => match store.versions@[version as int] {
            Version::Entry(_) => false,
            Version::Definition { sources, .. } => exists|i: int|
                0 <= i < sources@.len() && b == (Place::Version {
                    version: (#[trigger] sources@[i]).version,
                    entry: true,
                }),
            Version::Phi(inputs) => exists|i: int|
                0 <= i < inputs@.len() && b == (Place::Version {
                    version: #[trigger] inputs@[i],
                    entry,
                }),
            Version::Imported { import, root } => root matches Some(node) && b == (Place::Child {
                import,
                node,
            }),
            Version::Projected { source, .. } => b == (Place::Version { version: source, entry: true }),
            Version::Repeated { source, .. } => b == (Place::Version { version: source, entry: true }),
        },
        Place::Child { import, node } => {
            let graph = import_graph(store, import as int);
            ||| exists|e: int|
                0 <= e < graph.edges@.len() && (#[trigger] graph.edges@[e]).destination == node && b
                    == (Place::Child { import, node: graph.edges@[e].source })
            ||| exists|key: u64, s: SourceRef|
                graph.nodes@[node as int] == DagNode::External(key) && #[trigger] reads_key(
                    store,
                    import as int,
                    key,
                    s,
                ) && b == (Place::Version { version: s.version, entry: true })
        },
    }
}

/// The set has the roots and what its places depend on.
pub open spec fn closed(store: SsaStore, roots: Seq<usize>, set: Set<Place>) -> bool {
    &&& forall|i: int|
        0 <= i < roots.len() ==> set.contains(
            Place::Version { version: #[trigger] roots[i], entry: false },
        )
    &&& forall|a: Place, b: Place| #[trigger]
        needs(store, a, b) && set.contains(a) ==> set.contains(b)
}

/// Which places are needed.
struct Needed {
    plain: Vec<bool>,
    read: Vec<bool>,
    children: Vec<Vec<bool>>,
}

impl Needed {
    spec fn set(self) -> Set<Place> {
        Set::new(
            |p: Place|
                match p {
                    Place::Version { version, entry } => if entry {
                        version < self.read@.len() && self.read@[version as int]
                    } else {
                        version < self.plain@.len() && self.plain@[version as int]
                    },
                    Place::Child { import, node } => import < self.children@.len() && node
                        < self.children@[import as int]@.len()
                        && self.children@[import as int]@[node as int],
                },
        )
    }

    spec fn fits(self, store: SsaStore) -> bool {
        &&& self.plain@.len() == store.versions@.len()
        &&& self.read@.len() == store.versions@.len()
        &&& self.children@.len() == store.imports@.len()
        &&& forall|i: int|
            0 <= i < self.children@.len() ==> (#[trigger] self.children@[i])@.len() == import_graph(
                store,
                i,
            ).nodes@.len()
    }

    /// Nothing is needed that could be left out.
    spec fn least(self, store: SsaStore, roots: Seq<usize>) -> bool {
        forall|set: Set<Place>, p: Place|
            #![trigger closed(store, roots, set), self.set().contains(p)]
            closed(store, roots, set) && self.set().contains(p) ==> set.contains(p)
    }

    /// Everything that `p` depends on is needed.
    spec fn settled(self, store: SsaStore, p: Place) -> bool {
        forall|b: Place| #[trigger] needs(store, p, b) ==> self.set().contains(b)
    }

    /// The versions from `from` on, and all children, are settled.
    spec fn settled_from(self, store: SsaStore, from: int) -> bool {
        forall|p: Place| #[trigger]
            self.set().contains(p) && (p matches Place::Version { version, .. } ==> version >= from)
                ==> self.settled(store, p)
    }

    /// One more place is needed.
    fn mark(&mut self, place: Place, Ghost(store): Ghost<SsaStore>, Ghost(roots): Ghost<Seq<usize>>, Ghost(by): Ghost<Place>)
        requires
            old(self).fits(store),
            old(self).least(store, roots),
            old(self).set().contains(by),
            needs(store, by, place),
            place matches Place::Version { version, .. } ==> version < store.versions@.len(),
            place matches Place::Child { import, node } ==> import < store.imports@.len() && node
                < import_graph(store, import as int).nodes@.len(),
        ensures
            final(self).fits(store),
            final(self).least(store, roots),
            final(self).set() == old(self).set().insert(place),
    {
        let ghost before = *self;
        match place {
            Place::Version { version, entry } => {
                if entry {
                    self.read.set(version, true);
                } else {
                    self.plain.set(version, true);
                }
            },
            Place::Child { import, node } => {
                self.children[import].set(node, true);
            },
        }
        proof {
            assert forall|p: Place| self.set().contains(p) <==> before.set().insert(place).contains(p) by {
                match p {
                    Place::Child { import, node } => {
                        if import < before.children@.len() {
                            if !(place matches Place::Child { import: i, .. } && i == import) {
                                assert(self.children@[import as int] == before.children@[import as int]);
                            }
                        }
                    },
                    Place::Version { .. } => {},
                }
            }
            assert(self.set() =~= before.set().insert(place));
            assert forall|set: Set<Place>, p: Place|
                #![trigger closed(store, roots, set), self.set().contains(p)]
                closed(store, roots, set) && self.set().contains(p) implies set.contains(p) by {
                if p == place {
                    assert(before.set().contains(by));
                    assert(set.contains(by));
                } else {
                    assert(before.set().contains(p));
                }
            }
            assert forall|i: int| 0 <= i < self.children@.len() implies (#[trigger] self.children@[i])@.len() == import_graph(store, i).nodes@.len() by {
                assert(before.children@[i]@.len() == import_graph(store, i).nodes@.len());
            }
        }
    }
}

/// The second set of places has what the first has.
spec fn more_needed(a: Needed, b: Needed) -> bool {
    forall|p: Place| #[trigger] a.set().contains(p) ==> b.set().contains(p)
}

proof fn lemma_settled_grows(a: Needed, b: Needed, store: SsaStore, p: Place)
    requires
        more_needed(a, b),
        a.settled(store, p),
    ensures
        b.settled(store, p),
{
    assert forall|q: Place| #[trigger] needs(store, p, q) implies b.set().contains(q) by {
        assert(a.set().contains(q));
    }
}

/// The two sets differ only in versions below `from`.
spec fn differ_below(a: Needed, b: Needed, from: int) -> bool {
    forall|p: Place| #[trigger]
        b.set().contains(p) && !a.set().contains(p) ==> (p matches Place::Version { version, .. }
            && version < from)
}

proof fn lemma_settled_from(a: Needed, b: Needed, store: SsaStore, from: int)
    requires
        a.settled_from(store, from),
        more_needed(a, b),
        differ_below(a, b, from),
    ensures
        b.settled_from(store, from),
{
    assert forall|p: Place| #[trigger] b.set().contains(p) && (p matches Place::Version { version, .. } ==> version >= from) implies b.settled(store, p) by {
        assert(a.set().contains(p));
        lemma_settled_grows(a, b, store, p);
    }
}

impl SsaStore {
    /// Nothing is needed yet.
    fn nothing_needed(&self) -> (r: Needed)
        requires
            self.wf(),
        ensures
            r.fits(*self),
            forall|p: Place| !#[trigger] r.set().contains(p),
    {
        let mut plain: Vec<bool> = Vec::new();
        let mut read: Vec<bool> = Vec::new();
        let mut v: usize = 0;
        while v < self.versions.len()
            invariant
                v <= self.versions.len(),
                plain@.len() == v,
                read@.len() == v,
                forall|k: int| 0 <= k < v ==> !#[trigger] plain@[k],
                forall|k: int| 0 <= k < v ==> !#[trigger] read@[k],
            decreases self.versions.len() - v,
        {
            plain.push(false);
            read.push(false);
            v = v + 1;
        }
        let mut children: Vec<Vec<bool>> = Vec::new();
        let mut i: usize = 0;
        while i < self.imports.len()
            invariant
                i <= self.imports.len(),
                self.wf(),
                children@.len() == i,
                forall|k: int|
                    0 <= k < i ==> (#[trigger] children@[k])@.len() == import_graph(*self, k).nodes@.len(),
                forall|k: int, n: int|
                    0 <= k < i && 0 <= n < children@[k]@.len() ==> !#[trigger] children@[k]@[n],
            decreases self.imports.len() - i,
        {
            assert(self.imports@[i as int].wf(self.graphs@));
            let count: usize = self.graphs[self.imports[i].graph].nodes.len();
            let mut row: Vec<bool> = Vec::new();
            let mut n: usize = 0;
            while n < count
                invariant
                    n <= count,
                    row@.len() == n,
                    forall|k: int| 0 <= k < n ==> !#[trigger] row@[k],
                decreases count - n,
            {
                row.push(false);
                n = n + 1;
            }
            children.push(row);
            i = i + 1;
        }
        Needed { plain, read, children }
    }

    /// Marks what the needed nodes up to `root` of an imported graph depend on.
    fn mark_children(
        &self,
        needed: &mut Needed,
        import: usize,
        root: usize,
        Ghost(roots): Ghost<Seq<usize>>,
        Ghost(user): Ghost<int>,
        Ghost(first): Ghost<Needed>,
    )
        requires
            self.wf(),
            old(needed).fits(*self),
            old(needed).least(*self, roots),
            import < self.imports@.len(),
            root < import_graph(*self, import as int).nodes@.len(),
            old(needed).set() == first.set().insert(Place::Child { import, node: root }),
            first.settled_from(*self, user + 1),
            0 <= user < self.versions@.len(),
            self.versions@[user] matches Version::Imported { import: i, .. } && i == import,
        ensures
            final(needed).fits(*self),
            final(needed).least(*self, roots),
            more_needed(*old(needed), *final(needed)),
            forall|p: Place| #[trigger]
                final(needed).set().contains(p) && !old(needed).set().contains(p) ==> (p matches Place::Version {
                    version,
                    ..
                } ==> version < user),
            forall|p: Place| #[trigger]
                final(needed).set().contains(p) && !(p is Version) ==> final(needed).settled(*self, p),
    {
        let ghost before = *needed;
        assert(self.versions@[user].wf(user, self.graphs@, self.imports@));
        assert(self.imports@[import as int].wf(self.graphs@));
        let graph = &self.graphs[self.imports[import].graph];
        assert(graph.wf() && graph.forward());
        let count: usize = graph.nodes.len();
        assert(root < count);
        let mut next: usize = root + 1;
        proof {
            assert forall|p: Place| #[trigger] needed.set().contains(p) && !(p is Version)
                && !(p matches Place::Child { import: i, node } && i == import && node < next) implies needed.settled(*self, p) by {
                assert(first.set().contains(p));
                assert(first.settled(*self, p));
                lemma_settled_grows(first, *needed, *self, p);
            }
        }
        while next > 0
            invariant
                self.wf(),
                import < self.imports@.len(),
                *graph == import_graph(*self, import as int),
                graph.wf(),
                graph.forward(),
                self.imports@[import as int].wf(self.graphs@),
                self.versions@[user].wf(user, self.graphs@, self.imports@),
                self.versions@[user] matches Version::Imported { import: i, .. } && i == import,
                0 <= user < self.versions@.len(),
                next <= root + 1,
                root < graph.nodes@.len(),
                before == *old(needed),
                needed.fits(*self),
                needed.least(*self, roots),
                more_needed(before, *needed),
                forall|p: Place| #[trigger]
                    needed.set().contains(p) && !before.set().contains(p) ==> (p matches Place::Version {
                        version,
                        ..
                    } ==> version < user),
                forall|p: Place| #[trigger]
                    needed.set().contains(p) && !(p is Version) && !(p matches Place::Child {
                        import: i,
                        node,
                    } && i == import && node < next) ==> needed.settled(*self, p),
            decreases next,
        {
            let node: usize = next - 1;
            let ghost start = *needed;
            let ghost place = Place::Child { import, node };
            if needed.children[import][node] {
                assert(needed.set().contains(place));
                let incoming = &graph.incoming[node];
                assert(dag::leads_to(graph.edges@, node as int, graph.edges@.len() as int, graph.incoming@[node as int]@));
                let mut m: usize = 0;
                while m < incoming.len()
                    invariant
                        m <= incoming@.len(),
                        incoming == graph.incoming@[node as int],
                        *graph == import_graph(*self, import as int),
                        graph.wf(),
                        graph.forward(),
                        node < graph.nodes@.len(),
                        import < self.imports@.len(),
                        place == (Place::Child { import, node }),
                        dag::leads_to(graph.edges@, node as int, graph.edges@.len() as int, incoming@),
                        needed.fits(*self),
                        needed.least(*self, roots),
                        start.set().contains(place),
                        more_needed(start, *needed),
                        forall|p: Place| #[trigger]
                            needed.set().contains(p) && !start.set().contains(p) ==> (p matches Place::Child {
                                import: i,
                                node: n,
                            } && i == import && n < node),
                        forall|j: int|
                            0 <= j < m ==> needed.set().contains(
                                Place::Child {
                                    import,
                                    node: graph.edges@[(#[trigger] incoming@[j]) as int].source,
                                },
                            ),
                    decreases incoming@.len() - m,
                {
                    let index: usize = incoming[m];
                    let ghost step = *needed;
                    assert(graph.edges@[index as int].destination == node);
                    let source: usize = graph.edges[index].source;
                    proof {
                        assert(needs(*self, place, Place::Child { import, node: source }));
                        assert(needed.set().contains(place));
                    }
                    if !needed.children[import][source] {
                        needed.mark(Place::Child { import, node: source }, Ghost(*self), Ghost(roots), Ghost(place));
                    }
                    assert(needed.set().contains(Place::Child { import, node: source }));
                    m = m + 1;
                }
                let ghost edges_done = *needed;
                if let DagNode::External(key) = graph.nodes[node] {
                    self.mark_bound(needed, import, node, key, Ghost(roots), Ghost(user));
                }
                proof {
                    assert forall|b: Place| #[trigger] needs(*self, place, b) implies needed.set().contains(b) by {
                        if exists|e: int| 0 <= e < graph.edges@.len() && (#[trigger] graph.edges@[e]).destination == node && b
                            == (Place::Child { import, node: graph.edges@[e].source }) {
                            let e = choose|e: int| 0 <= e < graph.edges@.len() && (#[trigger] graph.edges@[e]).destination == node && b
                                == (Place::Child { import, node: graph.edges@[e].source });
                            assert(incoming@.contains(e as usize));
                            let j = choose|j: int| 0 <= j < incoming@.len() && incoming@[j] == e as usize;
                            dag::lemma_edge_index(graph.edges, e);
                            assert(edges_done.set().contains(Place::Child { import, node: graph.edges@[incoming@[j] as int].source }));
                        }
                    }
                    assert(needed.settled(*self, place));
                    assert(more_needed(start, *needed));
                    assert forall|p: Place| #[trigger] needed.set().contains(p) && !(p is Version)
                        && !(p matches Place::Child { import: i, node: n } && i == import && n < node) implies needed.settled(*self, p) by {
                        if p != place {
                            if !start.set().contains(p) {
                                if edges_done.set().contains(p) {
                                }
                            }
                            assert(start.set().contains(p));
                            assert(start.settled(*self, p));
                            lemma_settled_grows(start, *needed, *self, p);
                        }
                    }
                }
            } else {
                assert(!needed.set().contains(place));
            }
            next = next - 1;
        }
    }

    /// Marks the values that stand for the key of an imported node.
    fn mark_bound(
        &self,
        needed: &mut Needed,
        import: usize,
        node: usize,
        key: u64,
        Ghost(roots): Ghost<Seq<usize>>,
        Ghost(user): Ghost<int>,
    )
        requires
            self.wf(),
            old(needed).fits(*self),
            old(needed).least(*self, roots),
            import < self.imports@.len(),
            node < import_graph(*self, import as int).nodes@.len(),
            import_graph(*self, import as int).nodes@[node as int] == DagNode::External(key),
            old(needed).set().contains(Place::Child { import, node }),
            0 <= user < self.versions@.len(),
            self.versions@[user] matches Version::Imported { import: i, .. } && i == import,
            self.versions@[user].wf(user, self.graphs@, self.imports@),
        ensures
            final(needed).fits(*self),
            final(needed).least(*self, roots),
            more_needed(*old(needed), *final(needed)),
            forall|p: Place| #[trigger]
                final(needed).set().contains(p) && !old(needed).set().contains(p) ==> (p matches Place::Version {
                    version,
                    ..
                } && version < user),
            forall|s: SourceRef| #[trigger]
                reads_key(*self, import as int, key, s) ==> final(needed).set().contains(
                    Place::Version { version: s.version, entry: true },
                ),
    {
        let ghost start = *needed;
        let ghost place = Place::Child { import, node };
        let bindings = &self.imports[import].bindings;
        let mut b: usize = 0;
        while b < bindings.len()
            invariant
                b <= bindings@.len(),
                self.wf(),
                import < self.imports@.len(),
                bindings == self.imports@[import as int].bindings,
                node < import_graph(*self, import as int).nodes@.len(),
                import_graph(*self, import as int).nodes@[node as int] == DagNode::External(key),
                place == (Place::Child { import, node }),
                0 <= user < self.versions@.len(),
                forall|k: int| 0 <= k < bindings@.len() ==> ssa::sources_before((#[trigger] bindings@[k]).sources@, user),
                start == *old(needed),
                start.set().contains(place),
                needed.fits(*self),
                needed.least(*self, roots),
                more_needed(start, *needed),
                forall|p: Place| #[trigger]
                    needed.set().contains(p) && !start.set().contains(p) ==> (p matches Place::Version {
                        version,
                        ..
                    } && version < user),
                forall|k: int, i: int|
                    0 <= k < b && 0 <= i < bindings@[k].sources@.len() && bindings@[k].key == key
                        ==> needed.set().contains(
                        Place::Version {
                            version: (#[trigger] bindings@[k].sources@[i]).version,
                            entry: true,
                        },
                    ),
            decreases bindings@.len() - b,
        {
            if bindings[b].key == key {
                let mut i: usize = 0;
                while i < bindings[b].sources.len()
                    invariant
                        b < bindings@.len(),
                        i <= bindings@[b as int].sources@.len(),
                        bindings@[b as int].key == key,
                        self.wf(),
                        import < self.imports@.len(),
                        bindings == self.imports@[import as int].bindings,
                        node < import_graph(*self, import as int).nodes@.len(),
                        import_graph(*self, import as int).nodes@[node as int] == DagNode::External(
                            key,
                        ),
                        place == (Place::Child { import, node }),
                        0 <= user < self.versions@.len(),
                        ssa::sources_before(bindings@[b as int].sources@, user),
                        start.set().contains(place),
                        needed.fits(*self),
                        needed.least(*self, roots),
                        more_needed(start, *needed),
                        forall|p: Place| #[trigger]
                            needed.set().contains(p) && !start.set().contains(p) ==> (p matches Place::Version {
                                version,
                                ..
                            } && version < user),
                        forall|k: int, j: int|
                            0 <= k < b && 0 <= j < bindings@[k].sources@.len() && bindings@[k].key
                                == key ==> needed.set().contains(
                                Place::Version {
                                    version: (#[trigger] bindings@[k].sources@[j]).version,
                                    entry: true,
                                },
                            ),
                        forall|j: int|
                            0 <= j < i ==> needed.set().contains(
                                Place::Version {
                                    version: (#[trigger] bindings@[b as int].sources@[j]).version,
                                    entry: true,
                                },
                            ),
                    decreases bindings@[b as int].sources@.len() - i,
                {
                    let source = bindings[b].sources[i];
                    proof {
                        assert(bindings@[b as int].sources@[i as int].version < user);
                        assert(bindings@[b as int].sources@.contains(source));
                        assert(reads_key(*self, import as int, key, source));
                        assert(needs(*self, place, Place::Version { version: source.version, entry: true }));
                        assert(needed.set().contains(place));
                    }
                    needed.mark(
                        Place::Version { version: source.version, entry: true },
                        Ghost(*self),
                        Ghost(roots),
                        Ghost(place),
                    );
                    i = i + 1;
                }
            }
            b = b + 1;
        }
        proof {
            assert forall|s: SourceRef| #[trigger] reads_key(*self, import as int, key, s) implies needed.set().contains(Place::Version { version: s.version, entry: true }) by {
                let k = choose|k: int| 0 <= k < bindings@.len() && (#[trigger] bindings@[k]).key == key && bindings@[k].sources@.contains(s);
                let i = choose|i: int| 0 <= i < bindings@[k].sources@.len() && bindings@[k].sources@[i] == s;
                assert(needed.set().contains(Place::Version { version: bindings@[k].sources@[i].version, entry: true }));
            }
        }
    }
}

impl SsaStore {
    /// Marks what a needed version depends on.
    fn mark_version(&self, needed: &mut Needed, version: usize, entry: bool, Ghost(roots): Ghost<Seq<usize>>)
        requires
            self.wf(),
            old(needed).fits(*self),
            old(needed).least(*self, roots),
            version < self.versions@.len(),
            old(needed).set().contains(Place::Version { version, entry }),
            old(needed).settled_from(*self, version as int + 1),
        ensures
            final(needed).fits(*self),
            final(needed).least(*self, roots),
            more_needed(*old(needed), *final(needed)),
            final(needed).settled(*self, Place::Version { version, entry }),
            final(needed).settled_from(*self, version as int + 1),
            forall|p: Place| #[trigger]
                final(needed).set().contains(p) && !old(needed).set().contains(p) ==> (p matches Place::Version {
                    version: v,
                    ..
                } ==> v < version),
    {
        let ghost start = *needed;
        let ghost place = Place::Version { version, entry };
        assert(self.versions@[version as int].wf(version as int, self.graphs@, self.imports@));
        match &self.versions[version] {
            Version::Entry(_) => {},
            Version::Definition { sources, .. } => {
                let mut i: usize = 0;
                while i < sources.len()
                    invariant
                        i <= sources@.len(),
                        version < self.versions@.len(),
                        self.versions@[version as int] matches Version::Definition { sources: all, .. }
                            && all == *sources,
                        ssa::sources_before(sources@, version as int),
                        place == (Place::Version { version, entry }),
                        start == *old(needed),
                        start.set().contains(place),
                        needed.fits(*self),
                        needed.least(*self, roots),
                        more_needed(start, *needed),
                        differ_below(start, *needed, version as int),
                        forall|k: int|
                            0 <= k < i ==> needed.set().contains(
                                Place::Version {
                                    version: (#[trigger] sources@[k]).version,
                                    entry: true,
                                },
                            ),
                    decreases sources@.len() - i,
                {
                    let source: usize = sources[i].version;
                    proof {
                        assert(sources@[i as int].version < version);
                        assert(needs(*self, place, Place::Version { version: source, entry: true }));
                        assert(needed.set().contains(place));
                    }
                    needed.mark(Place::Version { version: source, entry: true }, Ghost(*self), Ghost(roots), Ghost(place));
                    i = i + 1;
                }
                proof {
                    lemma_settled_from(start, *needed, *self, version as int + 1);
                }
            },
            Version::Phi(inputs) => {
                let mut i: usize = 0;
                while i < inputs.len()
                    invariant
                        i <= inputs@.len(),
                        version < self.versions@.len(),
                        self.versions@[version as int] matches Version::Phi(all) && all == *inputs,
                        forall|k: int| 0 <= k < inputs@.len() ==> (#[trigger] inputs@[k]) < version,
                        place == (Place::Version { version, entry }),
                        start == *old(needed),
                        start.set().contains(place),
                        needed.fits(*self),
                        needed.least(*self, roots),
                        more_needed(start, *needed),
                        differ_below(start, *needed, version as int),
                        forall|k: int|
                            0 <= k < i ==> needed.set().contains(
                                Place::Version { version: #[trigger] inputs@[k], entry },
                            ),
                    decreases inputs@.len() - i,
                {
                    let input: usize = inputs[i];
                    proof {
                        assert(inputs@[i as int] < version);
                        assert(needs(*self, place, Place::Version { version: input, entry }));
                        assert(needed.set().contains(place));
                    }
                    needed.mark(Place::Version { version: input, entry }, Ghost(*self), Ghost(roots), Ghost(place));
                    i = i + 1;
                }
                proof {
                    lemma_settled_from(start, *needed, *self, version as int + 1);
                }
            },
            Version::Imported { import, root } => {
                if let Some(node) = root {
                    let target = Place::Child { import: *import, node: *node };
                    proof {
                        assert(needs(*self, place, target));
                    }
                    if !needed.children[*import][*node] {
                        needed.mark(target, Ghost(*self), Ghost(roots), Ghost(place));
                        let ghost marked = *needed;
                        self.mark_children(needed, *import, *node, Ghost(roots), Ghost(version as int), Ghost(start));
                        proof {
                            assert(more_needed(start, *needed)) by {
                                assert forall|p: Place| #[trigger] start.set().contains(p) implies needed.set().contains(p) by {
                                    assert(marked.set().contains(p));
                                }
                            }
                            assert forall|p: Place| #[trigger] needed.set().contains(p) && (p matches Place::Version { version: v, .. } ==> v >= version as int + 1)
                                implies needed.settled(*self, p) by {
                                if p is Version {
                                    assert(marked.set().contains(p));
                                    assert(start.set().contains(p));
                                    assert(start.settled(*self, p));
                                    lemma_settled_grows(start, *needed, *self, p);
                                }
                            }
                            assert forall|p: Place| #[trigger] needed.set().contains(p) && !start.set().contains(p) implies (p matches Place::Version { version: v, .. } ==> v < version) by {
                                if p is Version {
                                    assert(!marked.set().contains(p));
                                }
                            }
                            assert(marked.set().contains(target));
                        }
                    }
                    assert(needed.set().contains(target));
                }
            },
            Version::Projected { source, .. } => {
                proof {
                    assert(needs(*self, place, Place::Version { version: *source, entry: true }));
                }
                needed.mark(Place::Version { version: *source, entry: true }, Ghost(*self), Ghost(roots), Ghost(place));
                proof {
                    assert(differ_below(start, *needed, version as int + 1));
                    lemma_settled_from(start, *needed, *self, version as int + 1);
                }
            },
            Version::Repeated { source, .. } => {
                proof {
                    assert(needs(*self, place, Place::Version { version: *source, entry: true }));
                }
                needed.mark(Place::Version { version: *source, entry: true }, Ghost(*self), Ghost(roots), Ghost(place));
                proof {
                    assert(differ_below(start, *needed, version as int + 1));
                    lemma_settled_from(start, *needed, *self, version as int + 1);
                }
            },
        }
    }

    /// Finds the places that the roots depend on.
    fn find_needed(&self, roots: &Vec<usize>) -> (r: Needed)
        requires
            self.wf(),
            forall|i: int| 0 <= i < roots@.len() ==> (#[trigger] roots@[i]) < self.versions@.len(),
        ensures
            r.fits(*self),
            closed(*self, roots@, r.set()),
            r.least(*self, roots@),
    {
        let mut needed = self.nothing_needed();
        let mut i: usize = 0;
        while i < roots.len()
            invariant
                i <= roots@.len(),
                needed.fits(*self),
                forall|k: int| 0 <= k < roots@.len() ==> (#[trigger] roots@[k]) < self.versions@.len(),
                forall|p: Place| #[trigger]
                    needed.set().contains(p) <==> exists|k: int|
                        0 <= k < i && p == (Place::Version {
                            version: #[trigger] roots@[k],
                            entry: false,
                        }),
            decreases roots@.len() - i,
        {
            let ghost before = needed;
            let root: usize = roots[i];
            assert(roots@[i as int] < self.versions@.len());
            needed.plain.set(root, true);
            proof {
                assert forall|p: Place| #[trigger] needed.set().contains(p) <==> exists|k: int|
                    0 <= k < i + 1 && p == (Place::Version { version: #[trigger] roots@[k], entry: false }) by {
                    if needed.set().contains(p) && !before.set().contains(p) {
                        assert(p == Place::Version { version: roots@[i as int], entry: false });
                    }
                    if before.set().contains(p) {
                        let k = choose|k: int| 0 <= k < i && p == (Place::Version { version: #[trigger] roots@[k], entry: false });
                        assert(p == Place::Version { version: roots@[k], entry: false });
                        assert(needed.set().contains(p));
                    }
                }
            }
            i = i + 1;
        }
        let mut next: usize = self.versions.len();
        proof {
            assert forall|set: Set<Place>, p: Place|
                #![trigger closed(*self, roots@, set), needed.set().contains(p)]
                closed(*self, roots@, set) && needed.set().contains(p) implies set.contains(p) by {
                let k = choose|k: int| 0 <= k < i && p == (Place::Version { version: #[trigger] roots@[k], entry: false });
                assert(set.contains(Place::Version { version: roots@[k], entry: false }));
            }
            assert forall|p: Place| #[trigger] needed.set().contains(p) && (p matches Place::Version { version, .. } ==> version >= next) implies needed.settled(*self, p) by {
                let k = choose|k: int| 0 <= k < i && p == (Place::Version { version: #[trigger] roots@[k], entry: false });
            }
            assert forall|k: int| 0 <= k < roots@.len() implies needed.set().contains(Place::Version { version: #[trigger] roots@[k], entry: false }) by {}
        }
        while next > 0
            invariant
                self.wf(),
                next <= self.versions@.len(),
                needed.fits(*self),
                needed.least(*self, roots@),
                needed.settled_from(*self, next as int),
                forall|k: int|
                    0 <= k < roots@.len() ==> needed.set().contains(
                        Place::Version { version: #[trigger] roots@[k], entry: false },
                    ),
            decreases next,
        {
            let version: usize = next - 1;
            let ghost start = needed;
            if needed.plain[version] {
                self.mark_version(&mut needed, version, false, Ghost(roots@));
            }
            let ghost middle = needed;
            if needed.read[version] {
                self.mark_version(&mut needed, version, true, Ghost(roots@));
            }
            proof {
                assert forall|p: Place| #[trigger] needed.set().contains(p) && (p matches Place::Version { version: v, .. } ==> v >= version) implies needed.settled(*self, p) by {
                    if let Place::Version { version: v, entry } = p {
                        if v == version {
                            if entry {
                                if !middle.set().contains(p) {
                                    assert(!middle.read@[version as int]);
                                }
                            } else {
                                if !middle.set().contains(p) {
                                } else {
                                    if !start.set().contains(p) {
                                    }
                                    assert(middle.settled(*self, p));
                                    if middle != needed {
                                        lemma_settled_grows(middle, needed, *self, p);
                                    }
                                }
                            }
                        }
                    }
                }
                assert forall|k: int| 0 <= k < roots@.len() implies needed.set().contains(Place::Version { version: #[trigger] roots@[k], entry: false }) by {
                    assert(start.set().contains(Place::Version { version: roots@[k], entry: false }));
                    assert(middle.set().contains(Place::Version { version: roots@[k], entry: false }));
                }
            }
            next = version;
        }
        proof {
            assert forall|a: Place, b: Place| #[trigger] needs(*self, a, b) && needed.set().contains(a) implies needed.set().contains(b) by {
                assert(needed.settled(*self, a));
            }
        }
        needed
    }
}

/// The nodes of versions, without and with the entry value that they may retain.
struct Slots {
    plain: Vec<Option<usize>>,
    read: Vec<Option<usize>>,
}

impl Slots {
    spec fn at(self, version: int, entry: bool) -> Option<usize> {
        if entry {
            self.read@[version]
        } else {
            self.plain@[version]
        }
    }

    spec fn slot(self) -> spec_fn(usize, bool) -> Option<usize> {
        |version: usize, entry: bool| self.at(version as int, entry)
    }
}

/// An imported graph of which copies are shared.
struct SpliceGroup {
    import: usize,
    bindings: Vec<NodeBinding>,
    remapper: BranchRemapper,
    cache: HashMap<usize, usize>,
}

/// The node of a version depends on `source`.
spec fn version_wants(
    store: SsaStore,
    paths: Seq<PathNode>,
    slots: Slots,
    version: int,
    entry: bool,
    node: usize,
    source: usize,
    relation: PositionRelation,
    path: Seq<Choice>,
) -> bool {
    match store.versions@[version] {
        Version::Definition { sources, condition } => path == arena::path_of(
            paths,
            condition.node as int,
        ) && exists|i: int|
            0 <= i < sources@.len() && (#[trigger] sources@[i]).relation == relation && slots.at(
                sources@[i].version as int,
                true,
            ) == Some(source),
        Version::Phi(inputs) => path.len() == 0 && relation == PositionRelation::identity()
            && exists|i: int|
            0 <= i < inputs@.len() && slots.at((#[trigger] inputs@[i]) as int, entry) == Some(source),
        Version::Projected { source: from, .. } => path.len() == 0 && relation
            == PositionRelation::identity() && slots.at(from as int, true) == Some(source),
        Version::Repeated { source: from, initial, step, .. } => path.len() == 0 && ((relation
            == initial && slots.at(from as int, true) == Some(source)) || (relation == step
            && source == node)),
        _ => false,
    }
}

/// The nodes of the sources that have one, in order.
pub open spec fn source_refs(slot: spec_fn(usize, bool) -> Option<usize>, sources: Seq<SourceRef>) -> Seq<NodeRef>
    decreases sources.len(),
{
    if sources.len() == 0 {
        Seq::empty()
    } else {
        let before = source_refs(slot, sources.drop_last());
        match slot(sources.last().version, true) {
            Some(node) => before.push(NodeRef { node, relation: sources.last().relation }),
            None => before,
        }
    }
}

/// The nodes of the inputs that have one, in order.
pub open spec fn input_refs(slot: spec_fn(usize, bool) -> Option<usize>, inputs: Seq<usize>, entry: bool) -> Seq<NodeRef>
    decreases inputs.len(),
{
    if inputs.len() == 0 {
        Seq::empty()
    } else {
        let before = input_refs(slot, inputs.drop_last(), entry);
        match slot(inputs.last(), entry) {
            Some(node) => before.push(NodeRef { node, relation: PositionRelation::identity() }),
            None => before,
        }
    }
}

/// The nodes of the values that stand for a key, in order.
pub open spec fn key_refs(slot: spec_fn(usize, bool) -> Option<usize>, bindings: Seq<ssa::KeyBinding>, key: u64) -> Seq<NodeRef>
    decreases bindings.len(),
{
    if bindings.len() == 0 {
        Seq::empty()
    } else {
        let before = key_refs(slot, bindings.drop_last(), key);
        if bindings.last().key == key {
            before + source_refs(slot, bindings.last().sources@)
        } else {
            before
        }
    }
}

/// What is read of the nodes, under one path.
pub open spec fn guarded_arrivals(refs: Seq<NodeRef>, path: Seq<Choice>) -> Seq<Arrival> {
    Seq::new(refs.len(), |i: int| Arrival { source: refs[i].node, relation: refs[i].relation, path })
}

pub open spec fn slot_arrivals(slot: Option<usize>, relation: PositionRelation) -> Seq<Arrival> {
    match slot {
        Some(source) => seq![Arrival { source, relation, path: Seq::empty() }],
        None => Seq::empty(),
    }
}

/// The edges to the node of a version: one for each of its sources or inputs that has a node, in order;
/// a repetition has one more, from itself.
pub open spec fn version_arrivals(
    store: SsaStore,
    paths: Seq<PathNode>,
    slot: spec_fn(usize, bool) -> Option<usize>,
    version: int,
    entry: bool,
    node: usize,
) -> Seq<Arrival> {
    match store.versions@[version] {
        Version::Definition { sources, condition } => guarded_arrivals(source_refs(slot, sources@), arena::path_of(paths, condition.node as int)),
        Version::Phi(inputs) => guarded_arrivals(input_refs(slot, inputs@, entry), Seq::empty()),
        Version::Projected { source, .. } => slot_arrivals(slot(source, true), PositionRelation::identity()),
        Version::Repeated { source, initial, step, .. } => slot_arrivals(slot(source, true), initial).push(
            Arrival { source: node, relation: step, path: Seq::empty() },
        ),
        _ => Seq::empty(),
    }
}

proof fn lemma_sources_agree(a: spec_fn(usize, bool) -> Option<usize>, b: spec_fn(usize, bool) -> Option<usize>, sources: Seq<SourceRef>)
    requires
        forall|i: int| 0 <= i < sources.len() ==> a((#[trigger] sources[i]).version, true) == b(sources[i].version, true),
    ensures
        source_refs(a, sources) == source_refs(b, sources),
    decreases sources.len(),
{
    if sources.len() > 0 {
        let shorter = sources.drop_last();
        assert forall|i: int| 0 <= i < shorter.len() implies a((#[trigger] shorter[i]).version, true) == b(shorter[i].version, true) by {
            assert(shorter[i] == sources[i]);
        }
        lemma_sources_agree(a, b, shorter);
        assert(sources[sources.len() - 1] == sources.last());
    }
}

proof fn lemma_inputs_agree(a: spec_fn(usize, bool) -> Option<usize>, b: spec_fn(usize, bool) -> Option<usize>, inputs: Seq<usize>, entry: bool)
    requires
        forall|i: int| 0 <= i < inputs.len() ==> a(#[trigger] inputs[i], entry) == b(inputs[i], entry),
    ensures
        input_refs(a, inputs, entry) == input_refs(b, inputs, entry),
    decreases inputs.len(),
{
    if inputs.len() > 0 {
        let shorter = inputs.drop_last();
        assert forall|i: int| 0 <= i < shorter.len() implies a(#[trigger] shorter[i], entry) == b(shorter[i], entry) by {
            assert(shorter[i] == inputs[i]);
        }
        lemma_inputs_agree(a, b, shorter, entry);
        assert(inputs[inputs.len() - 1] == inputs.last());
    }
}

proof fn lemma_keys_agree(a: spec_fn(usize, bool) -> Option<usize>, b: spec_fn(usize, bool) -> Option<usize>, bindings: Seq<ssa::KeyBinding>, key: u64)
    requires
        forall|c: int, i: int|
            0 <= c < bindings.len() && bindings[c].key == key && 0 <= i < bindings[c].sources@.len() ==> a((#[trigger] bindings[c].sources@[i]).version, true) == b(
                bindings[c].sources@[i].version,
                true,
            ),
    ensures
        key_refs(a, bindings, key) == key_refs(b, bindings, key),
    decreases bindings.len(),
{
    if bindings.len() > 0 {
        let shorter = bindings.drop_last();
        assert forall|c: int, i: int| 0 <= c < shorter.len() && shorter[c].key == key && 0 <= i < shorter[c].sources@.len() implies a(
            (#[trigger] shorter[c].sources@[i]).version,
            true,
        ) == b(shorter[c].sources@[i].version, true) by {
            assert(shorter[c] == bindings[c]);
            assert(bindings[c].sources@[i] == shorter[c].sources@[i]);
        }
        lemma_keys_agree(a, b, shorter, key);
        let last = bindings.len() - 1;
        if bindings.last().key == key {
            assert forall|i: int| 0 <= i < bindings.last().sources@.len() implies a((#[trigger] bindings.last().sources@[i]).version, true) == b(
                bindings.last().sources@[i].version,
                true,
            ) by {
                assert(bindings[last].sources@[i] == bindings.last().sources@[i]);
            }
            lemma_sources_agree(a, b, bindings.last().sources@);
        }
    }
}

/// The edges to a version depend on what comes before it only.
proof fn lemma_version_arrivals_agree(
    store: SsaStore,
    p: Seq<PathNode>,
    q: Seq<PathNode>,
    a: spec_fn(usize, bool) -> Option<usize>,
    b: spec_fn(usize, bool) -> Option<usize>,
    version: int,
    entry: bool,
    node: usize,
)
    requires
        store.wf(),
        store.guards_in(p),
        arena::grows(p, q),
        0 <= version < store.versions@.len(),
        forall|v: usize, e: bool| v < version ==> #[trigger] b(v, e) == a(v, e),
    ensures
        version_arrivals(store, p, a, version, entry, node) == version_arrivals(store, q, b, version, entry, node),
{
    assert(store.versions@[version].wf(version, store.graphs@, store.imports@));
    assert(store.versions@[version].guarded_in(p));
    match store.versions@[version] {
        Version::Definition { sources, condition } => {
            arena::growth_keeps_paths(p, q, condition.node as int);
            assert forall|i: int| 0 <= i < sources@.len() implies a((#[trigger] sources@[i]).version, true) == b(sources@[i].version, true) by {
                assert(sources@[i].version < version);
            }
            lemma_sources_agree(a, b, sources@);
        },
        Version::Phi(inputs) => {
            assert forall|i: int| 0 <= i < inputs@.len() implies a(#[trigger] inputs@[i], entry) == b(inputs@[i], entry) by {
                assert(inputs@[i] < version);
            }
            lemma_inputs_agree(a, b, inputs@, entry);
        },
        _ => {},
    }
}

/// The kind of node and the domains that a version has.
spec fn version_node(version: Version) -> DagNode {
    match version {
        Version::Entry(key) => DagNode::External(key),
        Version::Repeated { .. } => DagNode::RegularTransfer,
        _ => DagNode::Internal,
    }
}

spec fn version_domains(version: Version) -> Seq<PositionDomain> {
    match version {
        Version::Projected { domain, .. } => seq![domain],
        Version::Repeated { domain, .. } => seq![domain],
        _ => Seq::empty(),
    }
}

/// The graph so far.
struct Lowering {
    builder: DagBuilder,
    slots: Slots,
    groups: Vec<SpliceGroup>,
    group_of: Vec<Option<usize>>,
}

/// The version has its node, or none if it needs none.
spec fn version_placed(
    store: SsaStore,
    paths: Seq<PathNode>,
    allowed: Set<u64>,
    low: Lowering,
    version: int,
    entry: bool,
) -> bool {
    let slot = low.slots.at(version, entry);
    match store.versions@[version] {
        Version::Imported { import, root } => match root {
            None => slot is None,
            Some(child) => low.group_of@[import as int] matches Some(g) && g < low.groups@.len()
                && low.groups@[g as int].cache@.contains_key(child) && slot == Some(
                low.groups@[g as int].cache@[child],
            ),
        },
        Version::Entry(key) if !(entry && allowed.contains(key)) => slot is None,
        _ => slot matches Some(node) && node_right(store, paths, low, version, entry, node),
    }
}

spec fn node_right(
    store: SsaStore,
    paths: Seq<PathNode>,
    low: Lowering,
    version: int,
    entry: bool,
    node: usize,
) -> bool {
    &&& node < low.builder.nodes@.len()
    &&& low.builder.nodes@[node as int] == version_node(store.versions@[version])
    &&& low.builder.domains@[node as int]@ == version_domains(store.versions@[version])
    &&& forall|source: usize, relation: PositionRelation, path: Seq<Choice>| #[trigger]
        splice::arrives(low.builder.edges@, paths, node, source, relation, path) <==> version_wants(
            store,
            paths,
            low.slots,
            version,
            entry,
            node,
            source,
            relation,
            path,
        )
    &&& splice::arrivals(low.builder.edges@, paths, node) == version_arrivals(store, paths, low.slots.slot(), version, entry, node)
}

/// An imported node with `key` is among the places.
pub open spec fn reaches_key(store: SsaStore, places: Set<Place>, import: int, key: u64) -> bool {
    exists|c: usize| #[trigger]
        places.contains(Place::Child { import: import as usize, node: c }) && import_graph(store, import).nodes@[c as int] == DagNode::External(key)
}

/// An imported node with `key` is needed.
spec fn reached_key(store: SsaStore, needed: Needed, import: int, key: u64) -> bool {
    reaches_key(store, needed.set(), import, key)
}

/// The nodes of the values that stand for the needed keys of an import, key by key.
pub open spec fn import_refs(
    store: SsaStore,
    places: Set<Place>,
    slot: spec_fn(usize, bool) -> Option<usize>,
    import: int,
    bindings: Seq<ssa::KeyBinding>,
) -> Seq<(u64, Seq<NodeRef>)>
    decreases bindings.len(),
{
    if bindings.len() == 0 {
        Seq::empty()
    } else {
        let before = import_refs(store, places, slot, import, bindings.drop_last());
        if reaches_key(store, places, import, bindings.last().key) {
            before.push((bindings.last().key, source_refs(slot, bindings.last().sources@)))
        } else {
            before
        }
    }
}

proof fn lemma_import_refs_agree(
    store: SsaStore,
    places: Set<Place>,
    a: spec_fn(usize, bool) -> Option<usize>,
    b: spec_fn(usize, bool) -> Option<usize>,
    import: int,
    bindings: Seq<ssa::KeyBinding>,
)
    requires
        forall|c: int, i: int|
            0 <= c < bindings.len() && reaches_key(store, places, import, bindings[c].key) && 0 <= i < bindings[c].sources@.len() ==> a(
                (#[trigger] bindings[c].sources@[i]).version,
                true,
            ) == b(bindings[c].sources@[i].version, true),
    ensures
        import_refs(store, places, a, import, bindings) == import_refs(store, places, b, import, bindings),
    decreases bindings.len(),
{
    if bindings.len() > 0 {
        let shorter = bindings.drop_last();
        assert forall|c: int, i: int|
            0 <= c < shorter.len() && reaches_key(store, places, import, shorter[c].key) && 0 <= i < shorter[c].sources@.len() implies a(
            (#[trigger] shorter[c].sources@[i]).version,
            true,
        ) == b(shorter[c].sources@[i].version, true) by {
            assert(shorter[c] == bindings[c]);
            assert(bindings[c].sources@[i] == shorter[c].sources@[i]);
        }
        lemma_import_refs_agree(store, places, a, b, import, shorter);
        let last = bindings.len() - 1;
        if reaches_key(store, places, import, bindings.last().key) {
            assert forall|i: int| 0 <= i < bindings.last().sources@.len() implies a((#[trigger] bindings.last().sources@[i]).version, true) == b(
                bindings.last().sources@[i].version,
                true,
            ) by {
                assert(bindings[last].sources@[i] == bindings.last().sources@[i]);
            }
            lemma_sources_agree(a, b, bindings.last().sources@);
        }
    }
}

/// The bindings as values.
spec fn binding_lists(list: Seq<NodeBinding>) -> Seq<(u64, Seq<NodeRef>)> {
    Seq::new(list.len(), |i: int| (list[i].key, list[i].sources@))
}

/// The list has the nodes of the values that stand for the needed keys of `import`.
spec fn bindings_mapped(
    store: SsaStore,
    needed: Needed,
    slots: Slots,
    import: int,
    list: Seq<NodeBinding>,
) -> bool {
    &&& forall|key: u64, x: NodeRef|
        reached_key(store, needed, import, key) ==> (#[trigger] splice::binds_node(list, key, x)
            <==> key_node(store, slots, import, key, x))
    &&& forall|key: u64| #[trigger]
        reached_key(store, needed, import, key) ==> splice::bound_refs(list, key) == key_refs(slots.slot(), store.imports@[import].bindings@, key)
    &&& binding_lists(list) == import_refs(store, needed.set(), slots.slot(), import, store.imports@[import].bindings@)
}

/// A value that stands for `key` has node `x`.
spec fn key_node(store: SsaStore, slots: Slots, import: int, key: u64, x: NodeRef) -> bool {
    exists|s: SourceRef| #[trigger]
        reads_key(store, import, key, s) && s.relation == x.relation && slots.at(
            s.version as int,
            true,
        ) == Some(x.node)
}

/// The state was lowered before number `done`.
spec fn passed(version: int, entry: bool, done: int) -> bool {
    2 * version + (if entry {
        1int
    } else {
        0int
    }) < done
}

spec fn groups_right(store: SsaStore, arena: PathArena, low: Lowering) -> bool {
    forall|g: int|
        0 <= g < low.groups@.len() ==> group_right(store, arena, low.builder, #[trigger] low.groups@[g])
}

spec fn group_right(store: SsaStore, arena: PathArena, builder: DagBuilder, group: SpliceGroup) -> bool {
    &&& group.import < store.imports@.len()
    &&& group.remapper.mapping@ == store.imports@[group.import as int].mapping@
    &&& group.remapper.wf(arena)
    &&& splice::bindings_below(group.bindings@, builder.nodes@.len() as int)
    &&& splice::inlined(
        import_graph(store, group.import as int),
        group.remapper.mapping@,
        group.bindings@,
        group.cache@,
        builder,
        arena@,
    )
}

/// The group is right for the import.
spec fn serves(store: SsaStore, needed: Needed, slots: Slots, group: SpliceGroup, import: int, done: int) -> bool {
    &&& store.imports@[group.import as int].graph == store.imports@[import].graph
    &&& store.imports@[group.import as int].mapping@ == store.imports@[import].mapping@
    &&& bindings_mapped(store, needed, slots, import, group.bindings@)
    &&& forall|key: u64, s: SourceRef| #[trigger]
        reads_key(store, import, key, s) ==> passed(s.version as int, true, done)
}

/// Some place has this node.
spec fn owned(store: SsaStore, needed: Needed, low: Lowering, n: int) -> bool {
    ||| exists|v: usize, e: bool| #[trigger]
        needed.set().contains(Place::Version { version: v, entry: e }) && low.slots.at(v as int, e)
            == Some(n as usize)
    ||| exists|i: usize, c: usize| #[trigger]
        needed.set().contains(Place::Child { import: i, node: c }) && (low.group_of@[i as int] matches Some(
            g,
        ) && g < low.groups@.len() && low.groups@[g as int].cache@.contains_key(c)
            && low.groups@[g as int].cache@[c] == n)
}

/// Every state before number `done` is lowered.
spec fn lowered_to(
    store: SsaStore,
    arena: PathArena,
    needed: Needed,
    allowed: Set<u64>,
    low: Lowering,
    done: int,
) -> bool {
    &&& low.builder.wf()
    &&& low.builder.guarded_in(arena@)
    &&& low.slots.plain@.len() == store.versions@.len()
    &&& low.slots.read@.len() == store.versions@.len()
    &&& low.group_of@.len() == store.imports@.len()
    &&& forall|v: int, e: bool|
        0 <= v < store.versions@.len() ==> ((#[trigger] low.slots.at(v, e)) matches Some(n) ==> n
            < low.builder.nodes@.len())
    &&& groups_right(store, arena, low)
    &&& forall|i: int|
        0 <= i < low.group_of@.len() ==> ((#[trigger] low.group_of@[i]) matches Some(g) ==> g
            < low.groups@.len() && serves(store, needed, low.slots, low.groups@[g as int], i, done))
    &&& forall|v: usize, e: bool| #[trigger]
        needed.set().contains(Place::Version { version: v, entry: e }) && passed(v as int, e, done)
            ==> version_placed(store, arena@, allowed, low, v as int, e)
    &&& forall|n: int| 0 <= n < low.builder.nodes@.len() ==> #[trigger] owned(store, needed, low, n)
    &&& forall|v: int, e: bool| 0 <= v < store.versions@.len() && !passed(v, e, done) ==> (#[trigger] low.slots.at(v, e)) is None
    &&& ascending(store, low.slots)
    &&& own_nodes(store, low)
    &&& groups_differ(store, low.groups@)
}

/// The two groups are copies of one graph, with branches renamed alike and keys that stand for the same nodes.
spec fn groups_alike(store: SsaStore, a: SpliceGroup, b: SpliceGroup) -> bool {
    &&& store.imports@[a.import as int].graph == store.imports@[b.import as int].graph
    &&& store.imports@[a.import as int].mapping@ == store.imports@[b.import as int].mapping@
    &&& binding_lists(a.bindings@) == binding_lists(b.bindings@)
}

/// No two groups are alike.
spec fn groups_differ(store: SsaStore, groups: Seq<SpliceGroup>) -> bool {
    forall|g: int, h: int| 0 <= g < h < groups.len() ==> !groups_alike(store, #[trigger] groups[g], #[trigger] groups[h])
}

/// No copy has the node of another copy or of a version.
spec fn own_nodes(store: SsaStore, low: Lowering) -> bool {
    &&& forall|g: int, c: usize, h: int, d: usize|
        0 <= g < low.groups@.len() && 0 <= h < low.groups@.len() && #[trigger] low.groups@[g].cache@.contains_key(c) && #[trigger] low.groups@[h].cache@.contains_key(d)
            && (g != h || c != d) ==> low.groups@[g].cache@[c] != low.groups@[h].cache@[d]
    &&& forall|v: int, e: bool, g: int, c: usize|
        0 <= v < store.versions@.len() && !(store.versions@[v] is Imported) && 0 <= g < low.groups@.len() && #[trigger] low.groups@[g].cache@.contains_key(c)
            ==> (#[trigger] low.slots.at(v, e)) != Some(low.groups@[g].cache@[c])
}

/// Copies and versions keep their own nodes when new ones get later nodes.
proof fn lemma_own_nodes(store: SsaStore, arena: PathArena, a: Lowering, b: Lowering, limit: int)
    requires
        own_nodes(store, a),
        groups_right(store, arena, a),
        limit == a.builder.nodes@.len(),
        forall|v: int, e: bool| 0 <= v < store.versions@.len() ==> ((#[trigger] a.slots.at(v, e)) matches Some(n) ==> n < limit),
        a.groups@.len() <= b.groups@.len(),
        forall|g: int, c: usize| 0 <= g < b.groups@.len() && #[trigger] b.groups@[g].cache@.contains_key(c) ==> (if g < a.groups@.len()
            && a.groups@[g].cache@.contains_key(c) {
            b.groups@[g].cache@[c] == a.groups@[g].cache@[c]
        } else {
            b.groups@[g].cache@[c] >= limit
        }),
        forall|g: int, c: usize, h: int, d: usize|
            0 <= g < b.groups@.len() && 0 <= h < b.groups@.len() && #[trigger] b.groups@[g].cache@.contains_key(c) && #[trigger] b.groups@[h].cache@.contains_key(d)
                && b.groups@[g].cache@[c] >= limit && b.groups@[h].cache@[d] >= limit && (g != h || c != d) ==> b.groups@[g].cache@[c] != b.groups@[h].cache@[d],
        forall|v: int, e: bool| 0 <= v < store.versions@.len() && !(store.versions@[v] is Imported) ==> (#[trigger] b.slots.at(v, e) == a.slots.at(v, e) || (
        b.slots.at(v, e) matches Some(n) && n >= limit && forall|g: int, c: usize|
            0 <= g < b.groups@.len() && #[trigger] b.groups@[g].cache@.contains_key(c) ==> b.groups@[g].cache@[c] < limit)),
    ensures
        own_nodes(store, b),
{
    assert forall|g: int, c: usize| 0 <= g < a.groups@.len() && #[trigger] a.groups@[g].cache@.contains_key(c) implies a.groups@[g].cache@[c] < limit by {
        assert(group_right(store, arena, a.builder, a.groups@[g]));
        assert(splice::child_placed(
            import_graph(store, a.groups@[g].import as int),
            a.groups@[g].remapper.mapping@,
            a.groups@[g].bindings@,
            a.groups@[g].cache@,
            a.builder,
            arena@,
            c,
        ));
    }
    assert forall|g: int, c: usize, h: int, d: usize|
        0 <= g < b.groups@.len() && 0 <= h < b.groups@.len() && #[trigger] b.groups@[g].cache@.contains_key(c) && #[trigger] b.groups@[h].cache@.contains_key(d)
            && (g != h || c != d) implies b.groups@[g].cache@[c] != b.groups@[h].cache@[d] by {
        let x = g < a.groups@.len() && a.groups@[g].cache@.contains_key(c);
        let y = h < a.groups@.len() && a.groups@[h].cache@.contains_key(d);
        if x && y {
            assert(a.groups@[g].cache@[c] != a.groups@[h].cache@[d]);
        }
    }
    assert forall|v: int, e: bool, g: int, c: usize|
        0 <= v < store.versions@.len() && !(store.versions@[v] is Imported) && 0 <= g < b.groups@.len() && #[trigger] b.groups@[g].cache@.contains_key(c) implies (
    #[trigger] b.slots.at(v, e)) != Some(b.groups@[g].cache@[c]) by {
        let slot = a.slots.at(v, e);
        if b.slots.at(v, e) == slot {
            if g < a.groups@.len() && a.groups@[g].cache@.contains_key(c) {
                assert(slot != Some(a.groups@[g].cache@[c]));
            }
        }
    }
}

/// The nodes of versions, save those of imports, stand in the order of the versions.
spec fn ascending(store: SsaStore, slots: Slots) -> bool {
    forall|v: int, e: bool, w: int, f: bool|
        0 <= v < store.versions@.len() && 0 <= w < store.versions@.len() && !(store.versions@[v] is Imported) && !(store.versions@[w] is Imported) && earlier(
            v,
            e,
            w,
            f,
        ) ==> ((#[trigger] slots.at(v, e)) matches Some(m) ==> ((#[trigger] slots.at(w, f)) matches Some(n) ==> m < n))
}

/// A version comes before a later one, and its value without what it has on entry before that with it.
pub open spec fn earlier(version: int, entry: bool, other: int, other_entry: bool) -> bool {
    version < other || (version == other && !entry && other_entry)
}

/// The graph has grown, and nothing that was settled has changed.
spec fn advanced(store: SsaStore, a: Lowering, b: Lowering, done: int) -> bool {
    &&& b.builder.grown(a.builder)
    &&& forall|v: int, e: bool|
        0 <= v < store.versions@.len() && passed(v, e, done) ==> #[trigger] b.slots.at(v, e)
            == a.slots.at(v, e)
    &&& a.groups@.len() <= b.groups@.len()
    &&& forall|g: int|
        0 <= g < a.groups@.len() ==> b.groups@[g].import == (#[trigger] a.groups@[g]).import
            && b.groups@[g].bindings == a.groups@[g].bindings && splice::cache_grows(
            a.groups@[g].cache@,
            b.groups@[g].cache@,
        )
    &&& forall|i: int|
        0 <= i < a.group_of@.len() ==> ((#[trigger] a.group_of@[i]) is Some ==> b.group_of@[i]
            == a.group_of@[i])
    &&& b.group_of@.len() == a.group_of@.len()
}

/// What a version wants depends on settled slots only.
proof fn lemma_wants_stable(
    store: SsaStore,
    p: Seq<PathNode>,
    q: Seq<PathNode>,
    a: Slots,
    b: Slots,
    version: int,
    entry: bool,
    node: usize,
    source: usize,
    relation: PositionRelation,
    path: Seq<Choice>,
)
    requires
        store.wf(),
        store.guards_in(p),
        arena::grows(p, q),
        0 <= version < store.versions@.len(),
        forall|v: int, e: bool| 0 <= v < version ==> #[trigger] b.at(v, e) == a.at(v, e),
    ensures
        version_wants(store, p, a, version, entry, node, source, relation, path) == version_wants(
            store,
            q,
            b,
            version,
            entry,
            node,
            source,
            relation,
            path,
        ),
{
    assert(store.versions@[version].wf(version, store.graphs@, store.imports@));
    assert(store.versions@[version].guarded_in(p));
    match store.versions@[version] {
        Version::Definition { sources, condition } => {
            arena::growth_keeps_paths(p, q, condition.node as int);
            assert forall|i: int| 0 <= i < sources@.len() implies b.at((#[trigger] sources@[i]).version as int, true) == a.at(sources@[i].version as int, true) by {
                assert(sources@[i].version < version);
            }
        },
        Version::Phi(inputs) => {
            assert forall|i: int| 0 <= i < inputs@.len() implies b.at((#[trigger] inputs@[i]) as int, entry) == a.at(inputs@[i] as int, entry) by {
                assert(inputs@[i] < version);
            }
        },
        _ => {},
    }
}

proof fn lemma_placed_stable(
    store: SsaStore,
    p: Seq<PathNode>,
    q: Seq<PathNode>,
    allowed: Set<u64>,
    a: Lowering,
    b: Lowering,
    version: int,
    entry: bool,
    done: int,
)
    requires
        store.wf(),
        store.guards_in(p),
        arena::grows(p, q),
        a.builder.guarded_in(p),
        advanced(store, a, b, done),
        a.group_of@.len() == store.imports@.len(),
        0 <= version < store.versions@.len(),
        passed(version, entry, done),
        version_placed(store, p, allowed, a, version, entry),
    ensures
        version_placed(store, q, allowed, b, version, entry),
{
    assert(b.slots.at(version, entry) == a.slots.at(version, entry));
    assert(store.versions@[version].wf(version, store.graphs@, store.imports@));
    match store.versions@[version] {
        Version::Imported { import, root } => {
            if let Some(child) = root {
                assert(a.group_of@[import as int] is Some);
                assert(b.group_of@[import as int] == a.group_of@[import as int]);
                let g = a.group_of@[import as int]->0 as int;
                assert(splice::cache_grows(a.groups@[g].cache@, b.groups@[g].cache@));
                assert(a.groups@[g].cache@.contains_key(child));
            }
        },
        _ => {
            if a.slots.at(version, entry) is Some {
                let node = a.slots.at(version, entry)->0;
                if node_right(store, p, a, version, entry, node) {
                    assert forall|v: int, e: bool| 0 <= v < version implies #[trigger] b.slots.at(v, e) == a.slots.at(v, e) by {
                        assert(passed(v, e, done));
                    }
                    assert forall|source: usize, relation: PositionRelation, path: Seq<Choice>| #[trigger] splice::arrives(b.builder.edges@, q, node, source, relation, path)
                        <==> version_wants(store, q, b.slots, version, entry, node, source, relation, path) by {
                        splice::lemma_arrives_stable(a.builder, b.builder, p, q, node, source, relation, path);
                        lemma_wants_stable(store, p, q, a.slots, b.slots, version, entry, node, source, relation, path);
                        assert(splice::arrives(a.builder.edges@, p, node, source, relation, path) <==> version_wants(store, p, a.slots, version, entry, node, source, relation, path));
                    }
                    assert(b.builder.nodes@[node as int] == a.builder.nodes@[node as int]);
                    assert(b.builder.domains@[node as int] == a.builder.domains@[node as int]);
                    splice::lemma_arrivals_stable(a.builder, b.builder, p, q, node);
                    let (one, two) = (a.slots.slot(), b.slots.slot());
                    assert forall|v: usize, e: bool| v < version implies #[trigger] two(v, e) == one(v, e) by {
                        assert(b.slots.at(v as int, e) == a.slots.at(v as int, e));
                    }
                    lemma_version_arrivals_agree(store, p, q, one, two, version, entry, node);
                }
            }
        },
    }
}

/// A group stays right for an import.
proof fn lemma_serves_stable(
    store: SsaStore,
    needed: Needed,
    a: Slots,
    b: Slots,
    group: SpliceGroup,
    other: SpliceGroup,
    import: int,
    done: int,
    later: int,
)
    requires
        store.wf(),
        serves(store, needed, a, group, import, done),
        done <= later,
        other.import == group.import,
        other.bindings@ == group.bindings@,
        0 <= import < store.imports@.len(),
        forall|v: int, e: bool| 0 <= v < store.versions@.len() && passed(v, e, done) ==> #[trigger] b.at(v, e) == a.at(v, e),
        forall|key: u64, s: SourceRef| #[trigger] reads_key(store, import, key, s) ==> s.version < store.versions@.len(),
    ensures
        serves(store, needed, b, other, import, later),
{
    assert forall|key: u64, x: NodeRef| reached_key(store, needed, import, key) implies (#[trigger] splice::binds_node(other.bindings@, key, x)
        <==> key_node(store, b, import, key, x)) by {
        assert(splice::binds_node(group.bindings@, key, x) <==> key_node(store, a, import, key, x));
        if key_node(store, a, import, key, x) {
            let s = choose|s: SourceRef| #[trigger] reads_key(store, import, key, s) && s.relation == x.relation && a.at(s.version as int, true) == Some(x.node);
            assert(b.at(s.version as int, true) == a.at(s.version as int, true));
        }
        if key_node(store, b, import, key, x) {
            let s = choose|s: SourceRef| #[trigger] reads_key(store, import, key, s) && s.relation == x.relation && b.at(s.version as int, true) == Some(x.node);
            assert(b.at(s.version as int, true) == a.at(s.version as int, true));
        }
    }
    assert forall|key: u64, s: SourceRef| #[trigger] reads_key(store, import, key, s) implies passed(s.version as int, true, later) by {
        assert(passed(s.version as int, true, done));
    }
    let bindings = store.imports@[import].bindings@;
    assert forall|key: u64| #[trigger] reached_key(store, needed, import, key) implies splice::bound_refs(other.bindings@, key) == key_refs(b.slot(), bindings, key) by {
        let (one, two) = (a.slot(), b.slot());
        assert forall|c: int, i: int| 0 <= c < bindings.len() && bindings[c].key == key && 0 <= i < bindings[c].sources@.len() implies one(
            (#[trigger] bindings[c].sources@[i]).version,
            true,
        ) == two(bindings[c].sources@[i].version, true) by {
            let s = bindings[c].sources@[i];
            assert(bindings[c].sources@.contains(s));
            assert(reads_key(store, import, key, s));
            assert(passed(s.version as int, true, done));
            assert(b.at(s.version as int, true) == a.at(s.version as int, true));
        }
        lemma_keys_agree(one, two, bindings, key);
    }
    let (one, two) = (a.slot(), b.slot());
    assert forall|c: int, i: int|
        0 <= c < bindings.len() && reaches_key(store, needed.set(), import, bindings[c].key) && 0 <= i < bindings[c].sources@.len() implies one(
        (#[trigger] bindings[c].sources@[i]).version,
        true,
    ) == two(bindings[c].sources@[i].version, true) by {
        let s = bindings[c].sources@[i];
        assert(bindings[c].sources@.contains(s));
        assert(reads_key(store, import, bindings[c].key, s));
        assert(passed(s.version as int, true, done));
        assert(b.at(s.version as int, true) == a.at(s.version as int, true));
    }
    lemma_import_refs_agree(store, needed.set(), one, two, import, bindings);
}

/// A group stays right when more is added elsewhere.
proof fn lemma_group_stable(store: SsaStore, p: PathArena, q: PathArena, a: DagBuilder, b: DagBuilder, group: SpliceGroup)
    requires
        store.wf(),
        group_right(store, p, a, group),
        arena::grows(p@, q@),
        a.guarded_in(p@),
        b.grown(a),
        store.guards_in(p@),
    ensures
        group_right(store, q, b, group),
{
    let graph = import_graph(store, group.import as int);
    assert(store.imports@[group.import as int].wf(store.graphs@));
    assert(graph.guarded_in(p@));
    assert forall|n: usize| #[trigger] group.remapper.cache@.contains_key(n) implies {
        &&& n < q@.len()
        &&& group.remapper.cache@[n] < q@.len()
        &&& arena::path_of(q@, group.remapper.cache@[n] as int) == remap::renamed_path(
            group.remapper.mapping@,
            arena::path_of(q@, n as int),
        )
    } by {
        arena::growth_keeps_paths(p@, q@, n as int);
        arena::growth_keeps_paths(p@, q@, group.remapper.cache@[n] as int);
    }
    assert forall|c: usize| #[trigger] group.cache@.contains_key(c) implies splice::child_placed(graph, group.remapper.mapping@, group.bindings@, group.cache@, b, q@, c) by {
        splice::lemma_inlined_grows(graph, group.remapper.mapping@, group.bindings@, group.cache@, group.cache@, a, b, p@, q@, c);
    }
    assert forall|k: int, i: int| 0 <= k < group.bindings@.len() && 0 <= i < group.bindings@[k].sources@.len() implies (#[trigger] group.bindings@[k].sources@[i]).node < b.nodes@.len() by {
        assert(group.bindings@[k].sources@[i].node < a.nodes@.len());
    }
}

proof fn lemma_reads_below(store: SsaStore, import: int, user: int)
    requires
        store.wf(),
        0 <= user < store.versions@.len(),
        store.versions@[user] matches Version::Imported { import: i, .. } && i == import,
    ensures
        forall|key: u64, s: SourceRef| #[trigger] reads_key(store, import, key, s) ==> s.version < user,
{
    assert(store.versions@[user].wf(user, store.graphs@, store.imports@));
    assert forall|key: u64, s: SourceRef| #[trigger] reads_key(store, import, key, s) implies s.version < user by {
        let bindings = store.imports@[import].bindings@;
        let b = choose|b: int| 0 <= b < bindings.len() && (#[trigger] bindings[b]).key == key && bindings[b].sources@.contains(s);
        let k = choose|k: int| 0 <= k < bindings[b].sources@.len() && bindings[b].sources@[k] == s;
        assert(ssa::sources_before(bindings[b].sources@, user));
        assert(bindings[b].sources@[k].version < user);
    }
}

/// Ownership stays.
proof fn lemma_owned_stable(store: SsaStore, needed: Needed, a: Lowering, b: Lowering, done: int, n: int)
    requires
        owned(store, needed, a, n),
        advanced(store, a, b, done),
        needed.fits(store),
        a.group_of@.len() == store.imports@.len(),
        forall|v: int, e: bool| 0 <= v < store.versions@.len() && a.slots.at(v, e) is Some ==> #[trigger] b.slots.at(v, e) == a.slots.at(v, e),
    ensures
        owned(store, needed, b, n),
{
    if exists|v: usize, e: bool| #[trigger] needed.set().contains(Place::Version { version: v, entry: e }) && a.slots.at(v as int, e) == Some(n as usize) {
        let (v, e) = choose|v: usize, e: bool| #[trigger] needed.set().contains(Place::Version { version: v, entry: e }) && a.slots.at(v as int, e) == Some(n as usize);
        assert(b.slots.at(v as int, e) == a.slots.at(v as int, e));
        assert(needed.set().contains(Place::Version { version: v, entry: e }));
    } else {
        let (i, c) = choose|i: usize, c: usize| #[trigger] needed.set().contains(Place::Child { import: i, node: c }) && (a.group_of@[i as int] matches Some(g)
            && g < a.groups@.len() && a.groups@[g as int].cache@.contains_key(c) && a.groups@[g as int].cache@[c] == n);
        let g = a.group_of@[i as int]->0 as int;
        assert(b.group_of@[i as int] == a.group_of@[i as int]);
        assert(splice::cache_grows(a.groups@[g].cache@, b.groups@[g].cache@));
        assert(needed.set().contains(Place::Child { import: i, node: c }));
    }
}

/// The edge of a row comes from a settled node, or repeats a regular transfer.
spec fn row_edge(store: SsaStore, paths: Seq<PathNode>, version: int, node: usize, edge: DagEdge) -> bool {
    &&& edge.destination == node
    &&& edge.source <= node
    &&& edge.source == node ==> store.versions@[version] is Repeated
    &&& edge.condition.node < paths.len()
}

proof fn lemma_row_push(
    row: Seq<DagEdge>,
    edge: DagEdge,
    paths: Seq<PathNode>,
    source: usize,
    relation: PositionRelation,
    path: Seq<Choice>,
)
    ensures
        splice::row_has(row.push(edge), paths, source, relation, path) <==> splice::row_has(row, paths, source, relation, path) || (
        edge.source == source && edge.relation == relation && arena::path_of(paths, edge.condition.node as int) == path),
{
    let more = row.push(edge);
    if splice::row_has(row, paths, source, relation, path) {
        let k = choose|k: int| 0 <= k < row.len() && {
            let edge = #[trigger] row[k];
            edge.source == source && edge.relation == relation && arena::path_of(paths, edge.condition.node as int) == path
        };
        assert(more[k] == row[k]);
    }
    if edge.source == source && edge.relation == relation && arena::path_of(paths, edge.condition.node as int) == path {
        assert(more[row.len() as int] == edge);
    }
    if splice::row_has(more, paths, source, relation, path) {
        let k = choose|k: int| 0 <= k < more.len() && {
            let edge = #[trigger] more[k];
            edge.source == source && edge.relation == relation && arena::path_of(paths, edge.condition.node as int) == path
        };
        if k < row.len() {
            assert(row[k] == more[k]);
        }
    }
}

impl SsaStore {
    /// The edges that lead to the node of a version.
    fn version_row(
        &self,
        slots: &Slots,
        version: usize,
        entry: bool,
        node: usize,
        Ghost(paths): Ghost<Seq<PathNode>>,
    ) -> (r: Vec<DagEdge>)
        requires
            self.wf(),
            self.guards_in(paths),
            paths.len() > 0,
            version < self.versions@.len(),
            slots.plain@.len() == self.versions@.len(),
            slots.read@.len() == self.versions@.len(),
            forall|v: int, e: bool|
                0 <= v < self.versions@.len() ==> ((#[trigger] slots.at(v, e)) matches Some(n) ==> n < node),
        ensures
            forall|k: int| 0 <= k < r@.len() ==> row_edge(*self, paths, version as int, node, #[trigger] r@[k]),
            forall|source: usize, relation: PositionRelation, path: Seq<Choice>| #[trigger]
                splice::row_has(r@, paths, source, relation, path) <==> version_wants(
                    *self,
                    paths,
                    *slots,
                    version as int,
                    entry,
                    node,
                    source,
                    relation,
                    path,
                ),
            splice::row_arrivals(r@, paths) == version_arrivals(*self, paths, slots.slot(), version as int, entry, node),
    {
        assert(self.versions@[version as int].wf(version as int, self.graphs@, self.imports@));
        assert(self.versions@[version as int].guarded_in(paths));
        assert(arena::path_of(paths, 0) =~= Seq::<Choice>::empty());
        let mut r: Vec<DagEdge> = Vec::new();
        let ghost at = slots.slot();
        match &self.versions[version] {
            Version::Definition { sources, condition } => {
                let ghost guard = arena::path_of(paths, condition.node as int);
                let mut i: usize = 0;
                assert(sources@.take(0) =~= Seq::empty());
                assert(splice::row_arrivals(r@, paths) =~= guarded_arrivals(source_refs(at, sources@.take(0)), guard));
                while i < sources.len()
                    invariant
                        at == slots.slot(),
                        splice::row_arrivals(r@, paths) == guarded_arrivals(source_refs(at, sources@.take(i as int)), guard),
                        i <= sources@.len(),
                        version < self.versions@.len(),
                        ssa::sources_before(sources@, version as int),
                        slots.read@.len() == self.versions@.len(),
                        condition.node < paths.len(),
                        guard == arena::path_of(paths, condition.node as int),
                        forall|v: int, e: bool|
                            0 <= v < self.versions@.len() ==> ((#[trigger] slots.at(v, e)) matches Some(n)
                                ==> n < node),
                        forall|k: int|
                            0 <= k < r@.len() ==> row_edge(*self, paths, version as int, node, #[trigger] r@[k]),
                        forall|source: usize, relation: PositionRelation, path: Seq<Choice>| #[trigger]
                            splice::row_has(r@, paths, source, relation, path) <==> path == guard
                                && exists|k: int|
                                0 <= k < i && (#[trigger] sources@[k]).relation == relation
                                    && slots.at(sources@[k].version as int, true) == Some(source),
                    decreases sources@.len() - i,
                {
                    let ghost before = r@;
                    let source = sources[i];
                    proof {
                        assert(sources@.take(i as int + 1).drop_last() =~= sources@.take(i as int));
                        assert(sources@.take(i as int + 1).last() == source);
                    }
                    assert(sources@[i as int].version < version);
                    if let Some(from) = slots.read[source.version] {
                        assert(slots.at(source.version as int, true) == Some(from));
                        let edge = DagEdge {
                            source: from,
                            destination: node,
                            relation: source.relation,
                            condition: *condition,
                        };
                        r.push(edge);
                        proof {
                            assert(splice::row_arrivals(r@, paths) =~= guarded_arrivals(source_refs(at, sources@.take(i as int + 1)), guard)) by {
                                assert(splice::row_arrivals(r@, paths) =~= splice::row_arrivals(before, paths).push(splice::arrival_of(edge, paths)));
                            }
                            assert forall|s: usize, relation: PositionRelation, path: Seq<Choice>| #[trigger] splice::row_has(r@, paths, s, relation, path) <==> path == guard
                                && exists|k: int| 0 <= k < i + 1 && (#[trigger] sources@[k]).relation == relation && slots.at(sources@[k].version as int, true) == Some(s) by {
                                lemma_row_push(before, edge, paths, s, relation, path);
                                assert(r@ =~= before.push(edge));
                                assert(splice::row_has(before, paths, s, relation, path) <==> path == guard
                                    && exists|k: int| 0 <= k < i && (#[trigger] sources@[k]).relation == relation && slots.at(sources@[k].version as int, true) == Some(s));
                                if exists|k: int| 0 <= k < i + 1 && (#[trigger] sources@[k]).relation == relation && slots.at(sources@[k].version as int, true) == Some(s) {
                                    let k = choose|k: int| 0 <= k < i + 1 && (#[trigger] sources@[k]).relation == relation && slots.at(sources@[k].version as int, true) == Some(s);
                                    if k < i {
                                        assert(sources@[k].relation == relation);
                                    }
                                }
                                if from == s && source.relation == relation {
                                    assert(sources@[i as int].relation == relation);
                                }
                            }
                        }
                    } else {
                        proof {
                            assert(slots.at(source.version as int, true) is None);
                            assert forall|s: usize, relation: PositionRelation, path: Seq<Choice>| #[trigger] splice::row_has(r@, paths, s, relation, path) <==> path == guard
                                && exists|k: int| 0 <= k < i + 1 && (#[trigger] sources@[k]).relation == relation && slots.at(sources@[k].version as int, true) == Some(s) by {
                                if exists|k: int| 0 <= k < i + 1 && (#[trigger] sources@[k]).relation == relation && slots.at(sources@[k].version as int, true) == Some(s) {
                                    let k = choose|k: int| 0 <= k < i + 1 && (#[trigger] sources@[k]).relation == relation && slots.at(sources@[k].version as int, true) == Some(s);
                                    assert(k < i);
                                }
                            }
                        }
                    }
                    i = i + 1;
                }
                assert(sources@.take(i as int) =~= sources@);
            },
            Version::Phi(inputs) => {
                let mut i: usize = 0;
                assert(inputs@.take(0) =~= Seq::empty());
                assert(splice::row_arrivals(r@, paths) =~= guarded_arrivals(input_refs(at, inputs@.take(0), entry), Seq::empty()));
                while i < inputs.len()
                    invariant
                        at == slots.slot(),
                        splice::row_arrivals(r@, paths) == guarded_arrivals(input_refs(at, inputs@.take(i as int), entry), Seq::empty()),
                        i <= inputs@.len(),
                        version < self.versions@.len(),
                        forall|k: int| 0 <= k < inputs@.len() ==> (#[trigger] inputs@[k]) < version,
                        slots.read@.len() == self.versions@.len(),
                        slots.plain@.len() == self.versions@.len(),
                        paths.len() > 0,
                        arena::path_of(paths, 0) == Seq::<Choice>::empty(),
                        forall|v: int, e: bool|
                            0 <= v < self.versions@.len() ==> ((#[trigger] slots.at(v, e)) matches Some(n)
                                ==> n < node),
                        forall|k: int|
                            0 <= k < r@.len() ==> row_edge(*self, paths, version as int, node, #[trigger] r@[k]),
                        forall|source: usize, relation: PositionRelation, path: Seq<Choice>| #[trigger]
                            splice::row_has(r@, paths, source, relation, path) <==> path.len() == 0
                                && relation == PositionRelation::identity() && exists|k: int|
                                0 <= k < i && slots.at((#[trigger] inputs@[k]) as int, entry) == Some(
                                    source,
                                ),
                    decreases inputs@.len() - i,
                {
                    let ghost before = r@;
                    let input: usize = inputs[i];
                    proof {
                        assert(inputs@.take(i as int + 1).drop_last() =~= inputs@.take(i as int));
                        assert(inputs@.take(i as int + 1).last() == input);
                    }
                    assert(inputs@[i as int] < version);
                    let slot = if entry {
                        slots.read[input]
                    } else {
                        slots.plain[input]
                    };
                    assert(slot == slots.at(input as int, entry));
                    if let Some(from) = slot {
                        let edge = DagEdge {
                            source: from,
                            destination: node,
                            relation: PositionRelation { array: Some(0), packed: Some(0) },
                            condition: PathCondition { node: 0 },
                        };
                        r.push(edge);
                        proof {
                            assert(splice::row_arrivals(r@, paths) =~= guarded_arrivals(input_refs(at, inputs@.take(i as int + 1), entry), Seq::empty())) by {
                                assert(splice::row_arrivals(r@, paths) =~= splice::row_arrivals(before, paths).push(splice::arrival_of(edge, paths)));
                            }
                            assert forall|s: usize, relation: PositionRelation, path: Seq<Choice>| #[trigger] splice::row_has(r@, paths, s, relation, path) <==> path.len() == 0
                                && relation == PositionRelation::identity() && exists|k: int| 0 <= k < i + 1 && slots.at((#[trigger] inputs@[k]) as int, entry) == Some(s) by {
                                lemma_row_push(before, edge, paths, s, relation, path);
                                assert(r@ =~= before.push(edge));
                                if path.len() == 0 {
                                    assert(path =~= Seq::<Choice>::empty());
                                }
                                assert(splice::row_has(before, paths, s, relation, path) <==> path.len() == 0
                                    && relation == PositionRelation::identity() && exists|k: int| 0 <= k < i && slots.at((#[trigger] inputs@[k]) as int, entry) == Some(s));
                                if exists|k: int| 0 <= k < i + 1 && slots.at((#[trigger] inputs@[k]) as int, entry) == Some(s) {
                                    let k = choose|k: int| 0 <= k < i + 1 && slots.at((#[trigger] inputs@[k]) as int, entry) == Some(s);
                                    if k < i {
                                        assert(slots.at(inputs@[k] as int, entry) == Some(s));
                                    }
                                }
                                if from == s {
                                    assert(slots.at(inputs@[i as int] as int, entry) == Some(s));
                                }
                            }
                        }
                    } else {
                        proof {
                            assert forall|s: usize, relation: PositionRelation, path: Seq<Choice>| #[trigger] splice::row_has(r@, paths, s, relation, path) <==> path.len() == 0
                                && relation == PositionRelation::identity() && exists|k: int| 0 <= k < i + 1 && slots.at((#[trigger] inputs@[k]) as int, entry) == Some(s) by {
                                if exists|k: int| 0 <= k < i + 1 && slots.at((#[trigger] inputs@[k]) as int, entry) == Some(s) {
                                    let k = choose|k: int| 0 <= k < i + 1 && slots.at((#[trigger] inputs@[k]) as int, entry) == Some(s);
                                    assert(k < i);
                                }
                            }
                        }
                    }
                    i = i + 1;
                }
                assert(inputs@.take(i as int) =~= inputs@);
            },
            Version::Projected { source, .. } => {
                let ghost before = r@;
                if let Some(from) = slots.read[*source] {
                    assert(slots.at(*source as int, true) == Some(from));
                    let edge = DagEdge {
                        source: from,
                        destination: node,
                        relation: PositionRelation { array: Some(0), packed: Some(0) },
                        condition: PathCondition { node: 0 },
                    };
                    r.push(edge);
                    proof {
                        assert forall|s: usize, relation: PositionRelation, path: Seq<Choice>| #[trigger] splice::row_has(r@, paths, s, relation, path)
                            <==> version_wants(*self, paths, *slots, version as int, entry, node, s, relation, path) by {
                            lemma_row_push(before, edge, paths, s, relation, path);
                            assert(r@ =~= before.push(edge));
                            if path.len() == 0 {
                                assert(path =~= Seq::<Choice>::empty());
                            }
                        }
                    }
                } else {
                    assert(slots.at(*source as int, true) is None);
                }
            },
            Version::Repeated { source, initial, step, .. } => {
                if let Some(from) = slots.read[*source] {
                    assert(slots.at(*source as int, true) == Some(from));
                    r.push(
                        DagEdge {
                            source: from,
                            destination: node,
                            relation: *initial,
                            condition: PathCondition { node: 0 },
                        },
                    );
                } else {
                    assert(slots.at(*source as int, true) is None);
                }
                let ghost before = r@;
                let edge = DagEdge {
                    source: node,
                    destination: node,
                    relation: *step,
                    condition: PathCondition { node: 0 },
                };
                r.push(edge);
                proof {
                    assert forall|s: usize, relation: PositionRelation, path: Seq<Choice>| #[trigger] splice::row_has(r@, paths, s, relation, path)
                        <==> version_wants(*self, paths, *slots, version as int, entry, node, s, relation, path) by {
                        lemma_row_push(before, edge, paths, s, relation, path);
                        assert(r@ =~= before.push(edge));
                        if path.len() == 0 {
                            assert(path =~= Seq::<Choice>::empty());
                        }
                        if before.len() > 0 {
                            lemma_row_push(Seq::empty(), before[0], paths, s, relation, path);
                            assert(before =~= Seq::<DagEdge>::empty().push(before[0]));
                        }
                    }
                }
            },
            _ => {},
        }
        proof {
            assert(splice::row_arrivals(r@, paths) =~= version_arrivals(*self, paths, at, version as int, entry, node));
        }
        r
    }

    /// Gives a version its node.
    fn place_version(
        &self,
        low: &mut Lowering,
        needed: &Needed,
        version: usize,
        entry: bool,
        Ghost(arena): Ghost<PathArena>,
        Ghost(allowed): Ghost<Set<u64>>,
    )
        requires
            self.wf(),
            self.guards_in(arena@),
            arena@.len() > 0,
            needed.fits(*self),
            version < self.versions@.len(),
            needed.set().contains(Place::Version { version, entry }),
            !(self.versions@[version as int] is Imported),
            self.versions@[version as int] matches Version::Entry(key) ==> entry && allowed.contains(key),
            lowered_to(*self, arena, *needed, allowed, *old(low), 2 * version as int + (if entry {
                1int
            } else {
                0int
            })),
            old(low).slots.at(version as int, entry) is None,
        ensures
            lowered_to(*self, arena, *needed, allowed, *final(low), 2 * version as int + (if entry {
                2int
            } else {
                1int
            })),
            forall|v: int, e: bool|
                0 <= v < self.versions@.len() && !(v == version && e == entry) ==> #[trigger] final(low).slots.at(v, e) == old(low).slots.at(v, e),
    {
        let ghost start = *low;
        let ghost done = 2 * version as int + (if entry {
            1int
        } else {
            0int
        });
        let node: usize = low.builder.nodes.len();
        let row = self.version_row(&low.slots, version, entry, node, Ghost(arena@));
        let mut domains: Vec<PositionDomain> = Vec::new();
        let kind: DagNode = match &self.versions[version] {
            Version::Entry(key) => DagNode::External(*key),
            Version::Projected { domain, .. } => {
                domains.push(*domain);
                DagNode::Internal
            },
            Version::Repeated { domain, .. } => {
                domains.push(*domain);
                DagNode::RegularTransfer
            },
            _ => DagNode::Internal,
        };
        assert(domains@ =~= version_domains(self.versions@[version as int]));
        let ghost given = domains@;
        assert forall|k: int| 0 <= k < row@.len() implies (#[trigger] row@[k]).destination == node && row@[k].source <= node && (row@[k].source == node ==> kind
            == DagNode::RegularTransfer || (dag::idle_axis(row@[k].relation.array) && dag::idle_axis(row@[k].relation.packed))) by {
            assert(row_edge(*self, arena@, version as int, node, row@[k]));
        }
        let _added = low.builder.add_node(kind, domains, &row);
        if entry {
            low.slots.read.set(version, Some(node));
        } else {
            low.slots.plain.set(version, Some(node));
        }
        proof {
            assert forall|v: int, e: bool| 0 <= v < self.versions@.len() && !(v == version && e == entry) implies #[trigger] low.slots.at(v, e) == start.slots.at(v, e) by {}
            assert(low.slots.at(version as int, entry) == Some(node));
            assert(advanced(*self, start, *low, done)) by {
                assert forall|v: int, e: bool| 0 <= v < self.versions@.len() && passed(v, e, done) implies #[trigger] low.slots.at(v, e) == start.slots.at(v, e) by {}
                assert forall|g: int| 0 <= g < start.groups@.len() implies low.groups@[g].import == (#[trigger] start.groups@[g]).import
                    && low.groups@[g].bindings == start.groups@[g].bindings && splice::cache_grows(start.groups@[g].cache@, low.groups@[g].cache@) by {}
            }
            assert forall|e: int| 0 <= e < low.builder.edges@.len() implies (#[trigger] low.builder.edges@[e]).condition.node < arena@.len() by {
                if e < start.builder.edges@.len() {
                    assert(start.builder.edges@[e].condition.node < arena@.len());
                } else {
                    assert(low.builder.edges@[e] == row@[e - start.builder.edges@.len()]);
                    assert(row_edge(*self, arena@, version as int, node, row@[e - start.builder.edges@.len()]));
                }
            }
            assert(node_right(*self, arena@, *low, version as int, entry, node)) by {
                assert forall|source: usize, relation: PositionRelation, path: Seq<Choice>| #[trigger] splice::arrives(low.builder.edges@, arena@, node, source, relation, path)
                    <==> version_wants(*self, arena@, low.slots, version as int, entry, node, source, relation, path) by {
                    assert forall|k: int| 0 <= k < row@.len() implies (#[trigger] row@[k]).destination == node by {
                        assert(row_edge(*self, arena@, version as int, node, row@[k]));
                    }
                    splice::lemma_arrives_row(start.builder, low.builder.edges@, row@, arena@, node, source, relation, path);
                    assert(splice::row_has(row@, arena@, source, relation, path) <==> version_wants(*self, arena@, start.slots, version as int, entry, node, source, relation, path));
                    lemma_wants_stable(*self, arena@, arena@, start.slots, low.slots, version as int, entry, node, source, relation, path);
                }
                assert(low.builder.domains@[node as int]@ == given);
                assert forall|e: int| 0 <= e < start.builder.edges@.len() implies (#[trigger] start.builder.edges@[e]).destination != node by {}
                assert forall|k: int| 0 <= k < row@.len() implies (#[trigger] row@[k]).destination == node by {
                    assert(row_edge(*self, arena@, version as int, node, row@[k]));
                }
                splice::lemma_arrivals_row(start.builder.edges@, row@, arena@, node);
                let (one, two) = (start.slots.slot(), low.slots.slot());
                assert forall|v: usize, e: bool| v < version implies #[trigger] two(v, e) == one(v, e) by {
                    assert(low.slots.at(v as int, e) == start.slots.at(v as int, e));
                }
                lemma_version_arrivals_agree(*self, arena@, arena@, one, two, version as int, entry, node);
            }
            lemma_advance(*self, arena, arena, *needed, allowed, start, *low, version, entry);
        }
    }
}

/// A step that only adds to what was lowered.
proof fn lemma_advance(
    store: SsaStore,
    p: PathArena,
    q: PathArena,
    needed: Needed,
    allowed: Set<u64>,
    a: Lowering,
    b: Lowering,
    version: usize,
    entry: bool,
)
    requires
        store.wf(),
        store.guards_in(p@),
        arena::grows(p@, q@),
        needed.fits(store),
        version < store.versions@.len(),
        needed.set().contains(Place::Version { version, entry }),
        lowered_to(store, p, needed, allowed, a, 2 * version as int + (if entry {
            1int
        } else {
            0int
        })),
        advanced(store, a, b, 2 * version as int + (if entry {
            1int
        } else {
            0int
        })),
        b.builder.wf(),
        b.builder.guarded_in(q@),
        b.slots.plain@.len() == store.versions@.len(),
        b.slots.read@.len() == store.versions@.len(),
        a.slots.at(version as int, entry) is None,
        forall|v: int, e: bool|
            0 <= v < store.versions@.len() && !(v == version && e == entry) ==> #[trigger] b.slots.at(v, e)
                == a.slots.at(v, e),
        b.slots.at(version as int, entry) matches Some(n) ==> n < b.builder.nodes@.len(),
        b.groups == a.groups,
        b.group_of == a.group_of,
        version_placed(store, q@, allowed, b, version as int, entry),
        b.builder.nodes@.len() <= a.builder.nodes@.len() + 1,
        b.builder.nodes@.len() == a.builder.nodes@.len() + 1 ==> b.slots.at(version as int, entry) == Some(a.builder.nodes@.len() as usize)
            && (a.builder.nodes@.len() as usize) as int == a.builder.nodes@.len(),
        store.versions@[version as int] is Imported || b.builder.nodes@.len() == a.builder.nodes@.len() + 1,
    ensures
        lowered_to(store, q, needed, allowed, b, 2 * version as int + (if entry {
            2int
        } else {
            1int
        })),
{
    let done = 2 * version as int + (if entry {
        1int
    } else {
        0int
    });
    assert forall|v: int, e: bool| 0 <= v < store.versions@.len() implies ((#[trigger] b.slots.at(v, e)) matches Some(n) ==> n < b.builder.nodes@.len()) by {
        if !(v == version && e == entry) {
            assert(b.slots.at(v, e) == a.slots.at(v, e));
        }
    }
    assert forall|g: int| 0 <= g < b.groups@.len() implies group_right(store, q, b.builder, #[trigger] b.groups@[g]) by {
        assert(group_right(store, p, a.builder, a.groups@[g]));
        lemma_group_stable(store, p, q, a.builder, b.builder, a.groups@[g]);
    }
    assert forall|i: int| 0 <= i < b.group_of@.len() implies ((#[trigger] b.group_of@[i]) matches Some(g) ==> g
        < b.groups@.len() && serves(store, needed, b.slots, b.groups@[g as int], i, done + 1)) by {
        if let Some(g) = b.group_of@[i] {
            assert(a.group_of@[i] == Some(g));
            assert(serves(store, needed, a.slots, a.groups@[g as int], i, done));
            assert forall|key: u64, s: SourceRef| #[trigger] reads_key(store, i, key, s) implies s.version < store.versions@.len() by {
                assert(passed(s.version as int, true, done));
            }
            lemma_serves_stable(store, needed, a.slots, b.slots, a.groups@[g as int], b.groups@[g as int], i, done, done + 1);
        }
    }
    assert forall|v: usize, e: bool| #[trigger] needed.set().contains(Place::Version { version: v, entry: e }) && passed(v as int, e, done + 1)
        implies version_placed(store, q@, allowed, b, v as int, e) by {
        if v == version && e == entry {
        } else {
            assert(passed(v as int, e, done));
            lemma_placed_stable(store, p@, q@, allowed, a, b, v as int, e, done);
        }
    }
    assert forall|n: int| 0 <= n < b.builder.nodes@.len() implies #[trigger] owned(store, needed, b, n) by {
        if n < a.builder.nodes@.len() {
            assert(owned(store, needed, a, n));
            lemma_owned_stable(store, needed, a, b, done, n);
        } else {
            assert(needed.set().contains(Place::Version { version, entry }));
        }
    }
    lemma_ascends(store, a.slots, b.slots, version as int, entry, a.builder.nodes@.len() as int);
    assert forall|g: int, c: usize| 0 <= g < a.groups@.len() && #[trigger] a.groups@[g].cache@.contains_key(c) implies a.groups@[g].cache@[c]
        < a.builder.nodes@.len() by {
        assert(group_right(store, p, a.builder, a.groups@[g]));
        assert(splice::child_placed(
            import_graph(store, a.groups@[g].import as int),
            a.groups@[g].remapper.mapping@,
            a.groups@[g].bindings@,
            a.groups@[g].cache@,
            a.builder,
            p@,
            c,
        ));
    }
    lemma_own_nodes(store, p, a, b, a.builder.nodes@.len() as int);
}

/// The slots stay in order where one is set to a later node.
proof fn lemma_ascends(store: SsaStore, a: Slots, b: Slots, version: int, entry: bool, limit: int)
    requires
        0 <= version < store.versions@.len(),
        ascending(store, a),
        forall|v: int, e: bool|
            0 <= v < store.versions@.len() && !(v == version && e == entry) ==> #[trigger] b.at(v, e) == a.at(v, e),
        forall|v: int, e: bool| 0 <= v < store.versions@.len() && earlier(version, entry, v, e) ==> (#[trigger] a.at(v, e)) is None,
        forall|v: int, e: bool| 0 <= v < store.versions@.len() ==> ((#[trigger] a.at(v, e)) matches Some(n) ==> n < limit),
        store.versions@[version] is Imported || (b.at(version, entry) matches Some(n) ==> n >= limit),
    ensures
        ascending(store, b),
{
    assert forall|v: int, e: bool, w: int, f: bool|
        0 <= v < store.versions@.len() && 0 <= w < store.versions@.len() && !(store.versions@[v] is Imported) && !(store.versions@[w] is Imported) && earlier(
            v,
            e,
            w,
            f,
        ) implies ((#[trigger] b.at(v, e)) matches Some(m) ==> ((#[trigger] b.at(w, f)) matches Some(n) ==> m < n)) by {
        let first = a.at(v, e);
        let second = a.at(w, f);
        if v == version && e == entry {
            assert(b.at(w, f) == second);
        } else if w == version && f == entry {
            assert(b.at(v, e) == first);
        } else {
            assert(b.at(v, e) == first);
            assert(b.at(w, f) == second);
        }
    }
}

fn same_mapping(a: &Vec<(BranchId, BranchId)>, b: &Vec<(BranchId, BranchId)>) -> (r: bool)
    ensures
        r == (a@ == b@),
{
    if a.len() != b.len() {
        return false;
    }
    let mut i: usize = 0;
    while i < a.len()
        invariant
            i <= a.len(),
            a.len() == b.len(),
            forall|k: int| 0 <= k < i ==> a@[k] == b@[k],
        decreases a.len() - i,
    {
        if a[i].0 != b[i].0 || a[i].1 != b[i].1 {
            return false;
        }
        i = i + 1;
    }
    assert(a@ =~= b@);
    true
}

/// The lists name the same keys and nodes, in the same order.
spec fn bindings_alike(a: Seq<NodeBinding>, b: Seq<NodeBinding>) -> bool {
    &&& a.len() == b.len()
    &&& forall|i: int|
        0 <= i < a.len() ==> (#[trigger] a[i]).key == b[i].key && a[i].sources@ == b[i].sources@
}

fn same_bindings(a: &Vec<NodeBinding>, b: &Vec<NodeBinding>) -> (r: bool)
    ensures
        r == bindings_alike(a@, b@),
{
    if a.len() != b.len() {
        return false;
    }
    let mut i: usize = 0;
    while i < a.len()
        invariant
            i <= a.len(),
            a.len() == b.len(),
            forall|k: int|
                0 <= k < i ==> (#[trigger] a@[k]).key == b@[k].key && a@[k].sources@ == b@[k].sources@,
        decreases a.len() - i,
    {
        if a[i].key != b[i].key || a[i].sources.len() != b[i].sources.len() {
            return false;
        }
        let mut j: usize = 0;
        while j < a[i].sources.len()
            invariant
                i < a.len(),
                a.len() == b.len(),
                a@[i as int].sources@.len() == b@[i as int].sources@.len(),
                j <= a@[i as int].sources@.len(),
                forall|k: int| 0 <= k < j ==> a@[i as int].sources@[k] == b@[i as int].sources@[k],
            decreases a@[i as int].sources@.len() - j,
        {
            if a[i].sources[j] != b[i].sources[j] {
                return false;
            }
            j = j + 1;
        }
        assert(a@[i as int].sources@ =~= b@[i as int].sources@);
        i = i + 1;
    }
    true
}

proof fn lemma_alike_lists(a: Seq<NodeBinding>, b: Seq<NodeBinding>)
    ensures
        bindings_alike(a, b) <==> binding_lists(a) == binding_lists(b),
{
    let (x, y) = (binding_lists(a), binding_lists(b));
    if bindings_alike(a, b) {
        assert(x =~= y);
    }
    if x == y {
        assert(a.len() == x.len() && b.len() == y.len());
        assert forall|i: int| 0 <= i < a.len() implies (#[trigger] a[i]).key == b[i].key && a[i].sources@ == b[i].sources@ by {
            assert(x[i] == y[i]);
        }
    }
}

proof fn lemma_alike_binds(a: Seq<NodeBinding>, b: Seq<NodeBinding>, key: u64, x: NodeRef)
    requires
        bindings_alike(a, b),
    ensures
        splice::binds_node(a, key, x) == splice::binds_node(b, key, x),
{
    if splice::binds_node(a, key, x) {
        let i = choose|i: int| 0 <= i < a.len() && (#[trigger] a[i]).key == key && a[i].sources@.contains(x);
        assert(b[i].key == key && b[i].sources@.contains(x));
    }
    if splice::binds_node(b, key, x) {
        let i = choose|i: int| 0 <= i < b.len() && (#[trigger] b[i]).key == key && b[i].sources@.contains(x);
        assert(a[i].key == key && a[i].sources@.contains(x));
    }
}

proof fn lemma_alike_refs(a: Seq<NodeBinding>, b: Seq<NodeBinding>, key: u64)
    requires
        bindings_alike(a, b),
    ensures
        splice::bound_refs(a, key) == splice::bound_refs(b, key),
    decreases a.len(),
{
    if a.len() > 0 {
        assert(a[a.len() - 1].key == b[b.len() - 1].key);
        assert forall|i: int| 0 <= i < a.drop_last().len() implies (#[trigger] a.drop_last()[i]).key == b.drop_last()[i].key && a.drop_last()[i].sources@
            == b.drop_last()[i].sources@ by {
            assert(a[i].key == b[i].key);
        }
        lemma_alike_refs(a.drop_last(), b.drop_last(), key);
    }
}

impl SsaStore {
    /// The keys of the needed nodes of an import.
    fn reached_keys(&self, needed: &Needed, import: usize) -> (r: HashSet<u64>)
        requires
            self.wf(),
            needed.fits(*self),
            import < self.imports@.len(),
        ensures
            forall|key: u64| #[trigger] r@.contains(key) <==> reached_key(*self, *needed, import as int, key),
    {
        assert(self.imports@[import as int].wf(self.graphs@));
        let graph = &self.graphs[self.imports[import].graph];
        let mut r: HashSet<u64> = HashSet::new();
        let mut c: usize = 0;
        while c < graph.nodes.len()
            invariant
                c <= graph.nodes@.len(),
                import < self.imports@.len(),
                *graph == import_graph(*self, import as int),
                needed.fits(*self),
                forall|key: u64| #[trigger]
                    r@.contains(key) <==> exists|d: usize| #[trigger]
                        needed.set().contains(Place::Child { import, node: d }) && d < c
                            && graph.nodes@[d as int] == DagNode::External(key),
            decreases graph.nodes@.len() - c,
        {
            let ghost before = r@;
            let wanted: bool = needed.children[import][c];
            assert(wanted == needed.set().contains(Place::Child { import, node: c }));
            if wanted {
                if let DagNode::External(key) = graph.nodes[c] {
                    r.insert(key);
                }
            }
            proof {
                assert forall|key: u64| #[trigger] r@.contains(key) <==> exists|d: usize| #[trigger]
                    needed.set().contains(Place::Child { import, node: d }) && d < c + 1 && graph.nodes@[d as int] == DagNode::External(key) by {
                    if r@.contains(key) && !before.contains(key) {
                        assert(needed.set().contains(Place::Child { import, node: c }));
                    }
                    if before.contains(key) {
                        let d = choose|d: usize| #[trigger] needed.set().contains(Place::Child { import, node: d }) && d < c && graph.nodes@[d as int] == DagNode::External(key);
                        assert(needed.set().contains(Place::Child { import, node: d }));
                    }
                    if exists|d: usize| #[trigger] needed.set().contains(Place::Child { import, node: d }) && d < c + 1 && graph.nodes@[d as int] == DagNode::External(key) {
                        let d = choose|d: usize| #[trigger] needed.set().contains(Place::Child { import, node: d }) && d < c + 1 && graph.nodes@[d as int] == DagNode::External(key);
                        if d < c {
                            assert(before.contains(key));
                        }
                    }
                }
            }
            c = c + 1;
        }
        proof {
            assert forall|key: u64| #[trigger] r@.contains(key) <==> reached_key(*self, *needed, import as int, key) by {
                if reached_key(*self, *needed, import as int, key) {
                    let d = choose|d: usize| #[trigger] needed.set().contains(Place::Child { import: (import as int) as usize, node: d })
                        && import_graph(*self, import as int).nodes@[d as int] == DagNode::External(key);
                    assert(needed.set().contains(Place::Child { import, node: d }));
                }
                if r@.contains(key) {
                    let d = choose|d: usize| #[trigger] needed.set().contains(Place::Child { import, node: d }) && d < c && graph.nodes@[d as int] == DagNode::External(key);
                    assert(needed.set().contains(Place::Child { import: (import as int) as usize, node: d }));
                }
            }
        }
        r
    }

    /// The nodes of the values that stand for the needed keys of an import.
    fn map_bindings(&self, needed: &Needed, slots: &Slots, import: usize, Ghost(user): Ghost<int>, Ghost(limit): Ghost<int>) -> (r: Vec<NodeBinding>)
        requires
            self.wf(),
            needed.fits(*self),
            import < self.imports@.len(),
            slots.read@.len() == self.versions@.len(),
            0 <= user < self.versions@.len(),
            self.versions@[user] matches Version::Imported { import: i, .. } && i == import,
            forall|v: int, e: bool|
                0 <= v < self.versions@.len() ==> ((#[trigger] slots.at(v, e)) matches Some(n) ==> n < limit),
        ensures
            bindings_mapped(*self, *needed, *slots, import as int, r@),
            splice::bindings_below(r@, limit),
    {
        proof {
            lemma_reads_below(*self, import as int, user);
            assert(self.versions@[user].wf(user, self.graphs@, self.imports@));
        }
        let keys = self.reached_keys(needed, import);
        let bindings = &self.imports[import].bindings;
        let mut r: Vec<NodeBinding> = Vec::new();
        let mut b: usize = 0;
        assert(bindings@.take(0) =~= Seq::empty());
        assert(binding_lists(r@) =~= Seq::empty());
        while b < bindings.len()
            invariant
                b <= bindings@.len(),
                bindings == self.imports@[import as int].bindings,
                import < self.imports@.len(),
                slots.read@.len() == self.versions@.len(),
                0 <= user < self.versions@.len(),
                forall|k: int| 0 <= k < bindings@.len() ==> ssa::sources_before((#[trigger] bindings@[k]).sources@, user),
                forall|v: int, e: bool|
                    0 <= v < self.versions@.len() ==> ((#[trigger] slots.at(v, e)) matches Some(n) ==> n < limit),
                forall|key: u64| #[trigger] keys@.contains(key) <==> reached_key(*self, *needed, import as int, key),
                splice::bindings_below(r@, limit),
                binding_lists(r@) == import_refs(*self, needed.set(), slots.slot(), import as int, bindings@.take(b as int)),
                forall|key: u64| #[trigger]
                    keys@.contains(key) ==> splice::bound_refs(r@, key) == key_refs(slots.slot(), bindings@.take(b as int), key),
                forall|key: u64, x: NodeRef|
                    keys@.contains(key) ==> (#[trigger] splice::binds_node(r@, key, x) <==> first_bound(
                        bindings@,
                        *slots,
                        b as int,
                        key,
                        x,
                    )),
            decreases bindings@.len() - b,
        {
            let ghost before = r@;
            let key: u64 = bindings[b].key;
            proof {
                assert(bindings@.take(b as int + 1).drop_last() =~= bindings@.take(b as int));
                assert(bindings@.take(b as int + 1).last() == bindings@[b as int]);
            }
            if keys.contains(&key) {
                let mut sources: Vec<NodeRef> = Vec::new();
                let mut i: usize = 0;
                assert(bindings@[b as int].sources@.take(0) =~= Seq::empty());
                while i < bindings[b].sources.len()
                    invariant
                        sources@ == source_refs(slots.slot(), bindings@[b as int].sources@.take(i as int)),
                        b < bindings@.len(),
                        i <= bindings@[b as int].sources@.len(),
                        slots.read@.len() == self.versions@.len(),
                        0 <= user < self.versions@.len(),
                        ssa::sources_before(bindings@[b as int].sources@, user),
                        forall|v: int, e: bool|
                            0 <= v < self.versions@.len() ==> ((#[trigger] slots.at(v, e)) matches Some(n)
                                ==> n < limit),
                        forall|k: int| 0 <= k < sources@.len() ==> (#[trigger] sources@[k]).node < limit,
                        forall|x: NodeRef| #[trigger]
                            sources@.contains(x) <==> exists|k: int|
                                0 <= k < i && (#[trigger] bindings@[b as int].sources@[k]).relation
                                    == x.relation && slots.at(
                                    bindings@[b as int].sources@[k].version as int,
                                    true,
                                ) == Some(x.node),
                    decreases bindings@[b as int].sources@.len() - i,
                {
                    let ghost listed = sources@;
                    let source = bindings[b].sources[i];
                    assert(bindings@[b as int].sources@[i as int].version < user);
                    let slot = slots.read[source.version];
                    assert(slot == slots.at(source.version as int, true));
                    if let Some(node) = slot {
                        sources.push(NodeRef { node, relation: source.relation });
                    }
                    proof {
                        let all = bindings@[b as int].sources@;
                        assert(all.take(i as int + 1).drop_last() =~= all.take(i as int));
                        assert(all.take(i as int + 1).last() == source);
                        assert forall|x: NodeRef| #[trigger] sources@.contains(x) <==> exists|k: int|
                            0 <= k < i + 1 && (#[trigger] all[k]).relation == x.relation && slots.at(all[k].version as int, true) == Some(x.node) by {
                            if slot is Some {
                                let added = NodeRef { node: slot->0, relation: source.relation };
                                remap::lemma_contains_push(listed, added, x);
                                assert(sources@ =~= listed.push(added));
                            } else {
                                assert(sources@ == listed);
                            }
                            if listed.contains(x) {
                                let k = choose|k: int| 0 <= k < i && (#[trigger] all[k]).relation == x.relation && slots.at(all[k].version as int, true) == Some(x.node);
                                assert(all[k].relation == x.relation);
                            }
                            if slot is Some && x == (NodeRef { node: slot->0, relation: source.relation }) {
                                assert(all[i as int].relation == x.relation);
                            }
                            if exists|k: int| 0 <= k < i + 1 && (#[trigger] all[k]).relation == x.relation && slots.at(all[k].version as int, true) == Some(x.node) {
                                let k = choose|k: int| 0 <= k < i + 1 && (#[trigger] all[k]).relation == x.relation && slots.at(all[k].version as int, true) == Some(x.node);
                                if k == i {
                                    assert(x == NodeRef { node: slot->0, relation: source.relation });
                                }
                            }
                        }
                    }
                    i = i + 1;
                }
                let ghost added = sources@;
                r.push(NodeBinding { key, sources });
                proof {
                    assert(bindings@[b as int].sources@.take(i as int) =~= bindings@[b as int].sources@);
                    assert(r@.drop_last() =~= before);
                    assert(r@.last().sources@ == added);
                    assert forall|c: int, j: int| 0 <= c < r@.len() && 0 <= j < r@[c].sources@.len() implies (#[trigger] r@[c].sources@[j]).node < limit by {
                        if c < before.len() {
                            assert(r@[c] == before[c]);
                            assert(before[c].sources@[j].node < limit);
                        }
                    }
                }
            }
            proof {
                assert(keys@.contains(key) <==> reached_key(*self, *needed, import as int, key));
                let lists = binding_lists(before);
                if keys@.contains(key) {
                    assert(binding_lists(r@) =~= lists.push((key, r@.last().sources@))) by {
                        assert forall|k: int| 0 <= k < before.len() implies r@[k] == before[k] by {}
                    }
                }
                assert(binding_lists(r@) == import_refs(*self, needed.set(), slots.slot(), import as int, bindings@.take(b as int + 1)));
                assert forall|k: u64| #[trigger] keys@.contains(k) implies splice::bound_refs(r@, k) == key_refs(slots.slot(), bindings@.take(b as int + 1), k) by {
                    assert(splice::bound_refs(before, k) == key_refs(slots.slot(), bindings@.take(b as int), k));
                    if !keys@.contains(key) {
                        assert(r@ == before);
                        assert(k != key);
                    }
                }
                assert forall|k: u64, x: NodeRef| keys@.contains(k) implies (#[trigger] splice::binds_node(r@, k, x) <==> first_bound(bindings@, *slots, b as int + 1, k, x)) by {
                    assert(splice::binds_node(before, k, x) <==> first_bound(bindings@, *slots, b as int, k, x));
                    if splice::binds_node(before, k, x) {
                        let c = choose|c: int| 0 <= c < before.len() && (#[trigger] before[c]).key == k && before[c].sources@.contains(x);
                        assert(r@[c].key == k && r@[c].sources@.contains(x));
                    }
                    if splice::binds_node(r@, k, x) && !splice::binds_node(before, k, x) {
                        let c = choose|c: int| 0 <= c < r@.len() && (#[trigger] r@[c]).key == k && r@[c].sources@.contains(x);
                        if c < before.len() {
                            assert(before[c] == r@[c]);
                        }
                        assert(bindings@[b as int].key == k);
                        assert(source_bound(bindings@[b as int].sources@, *slots, x));
                    }
                    if first_bound(bindings@, *slots, b as int + 1, k, x) && !first_bound(bindings@, *slots, b as int, k, x) {
                        let c = choose|c: int| 0 <= c < b as int + 1 && (#[trigger] bindings@[c]).key == k && source_bound(bindings@[c].sources@, *slots, x);
                        assert(c == b);
                        assert(r@[before.len() as int].sources@.contains(x));
                        assert(r@[before.len() as int].key == k);
                    }
                    if first_bound(bindings@, *slots, b as int, k, x) {
                        let c = choose|c: int| 0 <= c < b && (#[trigger] bindings@[c]).key == k && source_bound(bindings@[c].sources@, *slots, x);
                        assert(bindings@[c].key == k);
                    }
                }
            }
            b = b + 1;
        }
        proof {
            assert(bindings@.take(b as int) =~= bindings@);
            assert forall|key: u64| #[trigger] reached_key(*self, *needed, import as int, key) implies splice::bound_refs(r@, key) == key_refs(
                slots.slot(),
                self.imports@[import as int].bindings@,
                key,
            ) by {
                assert(keys@.contains(key));
            }
            assert forall|key: u64, x: NodeRef| reached_key(*self, *needed, import as int, key) implies (#[trigger] splice::binds_node(r@, key, x)
                <==> key_node(*self, *slots, import as int, key, x)) by {
                assert(keys@.contains(key));
                assert(splice::binds_node(r@, key, x) <==> first_bound(bindings@, *slots, b as int, key, x));
                if first_bound(bindings@, *slots, b as int, key, x) {
                    let c = choose|c: int| 0 <= c < b && (#[trigger] bindings@[c]).key == key && source_bound(bindings@[c].sources@, *slots, x);
                    let k = choose|k: int| 0 <= k < bindings@[c].sources@.len() && (#[trigger] bindings@[c].sources@[k]).relation == x.relation
                        && slots.at(bindings@[c].sources@[k].version as int, true) == Some(x.node);
                    let s = bindings@[c].sources@[k];
                    assert(bindings@[c].sources@.contains(s));
                    assert(reads_key(*self, import as int, key, s));
                }
                if key_node(*self, *slots, import as int, key, x) {
                    let s = choose|s: SourceRef| #[trigger] reads_key(*self, import as int, key, s) && s.relation == x.relation && slots.at(s.version as int, true) == Some(x.node);
                    let c = choose|c: int| 0 <= c < bindings@.len() && (#[trigger] bindings@[c]).key == key && bindings@[c].sources@.contains(s);
                    let k = choose|k: int| 0 <= k < bindings@[c].sources@.len() && bindings@[c].sources@[k] == s;
                    assert(bindings@[c].sources@[k].relation == x.relation);
                    assert(source_bound(bindings@[c].sources@, *slots, x));
                    assert(bindings@[c].key == key);
                }
            }
        }
        r
    }
}

/// One of the sources has node `x`.
spec fn source_bound(sources: Seq<SourceRef>, slots: Slots, x: NodeRef) -> bool {
    exists|k: int|
        0 <= k < sources.len() && (#[trigger] sources[k]).relation == x.relation && slots.at(
            sources[k].version as int,
            true,
        ) == Some(x.node)
}

/// One of the first bindings gives `key` the node `x`.
spec fn first_bound(bindings: Seq<ssa::KeyBinding>, slots: Slots, count: int, key: u64, x: NodeRef) -> bool {
    exists|c: int|
        0 <= c < count && (#[trigger] bindings[c]).key == key && source_bound(bindings[c].sources@, slots, x)
}

/// Adding or choosing a group keeps what was lowered.
proof fn lemma_grouped(
    store: SsaStore,
    arena: PathArena,
    needed: Needed,
    allowed: Set<u64>,
    a: Lowering,
    b: Lowering,
    done: int,
)
    requires
        store.wf(),
        store.guards_in(arena@),
        needed.fits(store),
        lowered_to(store, arena, needed, allowed, a, done),
        b.builder == a.builder,
        b.slots == a.slots,
        b.group_of@.len() == a.group_of@.len(),
        a.groups@.len() <= b.groups@.len(),
        forall|g: int| 0 <= g < a.groups@.len() ==> #[trigger] b.groups@[g] == a.groups@[g],
        forall|g: int|
            a.groups@.len() <= g < b.groups@.len() ==> group_right(store, arena, b.builder, #[trigger] b.groups@[g]) && b.groups@[g].cache@
                == Map::<usize, usize>::empty(),
        forall|i: int|
            0 <= i < a.group_of@.len() ==> ((#[trigger] a.group_of@[i]) is Some ==> b.group_of@[i] == a.group_of@[i]),
        forall|i: int|
            0 <= i < b.group_of@.len() && a.group_of@[i] is None ==> ((#[trigger] b.group_of@[i]) matches Some(g)
                ==> g < b.groups@.len() && serves(store, needed, b.slots, b.groups@[g as int], i, done)),
        groups_differ(store, b.groups@),
    ensures
        lowered_to(store, arena, needed, allowed, b, done),
        advanced(store, a, b, done),
{
    assert forall|g: int, c: usize| 0 <= g < b.groups@.len() && #[trigger] b.groups@[g].cache@.contains_key(c) implies g < a.groups@.len() && b.groups@[g] == a.groups@[g] by {}
    lemma_own_nodes(store, arena, a, b, a.builder.nodes@.len() as int);
    assert(advanced(store, a, b, done)) by {
        assert forall|g: int| 0 <= g < a.groups@.len() implies b.groups@[g].import == (#[trigger] a.groups@[g]).import
            && b.groups@[g].bindings == a.groups@[g].bindings && splice::cache_grows(a.groups@[g].cache@, b.groups@[g].cache@) by {
            assert(b.groups@[g] == a.groups@[g]);
        }
    }
    assert forall|g: int| 0 <= g < b.groups@.len() implies group_right(store, arena, b.builder, #[trigger] b.groups@[g]) by {
        if g < a.groups@.len() {
            assert(b.groups@[g] == a.groups@[g]);
            assert(group_right(store, arena, a.builder, a.groups@[g]));
        }
    }
    assert forall|i: int| 0 <= i < b.group_of@.len() implies ((#[trigger] b.group_of@[i]) matches Some(g) ==> g
        < b.groups@.len() && serves(store, needed, b.slots, b.groups@[g as int], i, done)) by {
        if a.group_of@[i] is Some {
            let g = a.group_of@[i]->0 as int;
            assert(b.groups@[g] == a.groups@[g]);
        }
    }
    assert forall|v: usize, e: bool| #[trigger] needed.set().contains(Place::Version { version: v, entry: e }) && passed(v as int, e, done)
        implies version_placed(store, arena@, allowed, b, v as int, e) by {
        lemma_placed_stable(store, arena@, arena@, allowed, a, b, v as int, e, done);
    }
    assert forall|n: int| 0 <= n < b.builder.nodes@.len() implies #[trigger] owned(store, needed, b, n) by {
        assert(owned(store, needed, a, n));
        lemma_owned_stable(store, needed, a, b, done, n);
    }
}

impl SpliceGroup {
    /// Copies a node of the graph and what it depends on.
    fn splice_root(&mut self, graph: &DependencyDag, root: usize, arena: &mut PathArena, builder: &mut DagBuilder) -> (r:
        usize)
        requires
            graph.wf(),
            graph.forward(),
            graph.guarded_in(old(arena)@),
            root < graph.nodes@.len(),
            old(arena).wf(),
            old(self).remapper.wf(*old(arena)),
            ssa::renames_graph(old(self).remapper.mapping@, *graph, old(arena)@),
            old(builder).wf(),
            old(builder).guarded_in(old(arena)@),
            splice::bindings_below(old(self).bindings@, old(builder).nodes@.len() as int),
            splice::inlined(
                *graph,
                old(self).remapper.mapping@,
                old(self).bindings@,
                old(self).cache@,
                *old(builder),
                old(arena)@,
            ),
        ensures
            final(arena).wf(),
            arena::grows(old(arena)@, final(arena)@),
            final(self).import == old(self).import,
            final(self).bindings == old(self).bindings,
            final(self).remapper.wf(*final(arena)),
            final(self).remapper.mapping == old(self).remapper.mapping,
            final(builder).wf(),
            final(builder).guarded_in(final(arena)@),
            final(builder).grown(*old(builder)),
            splice::cache_grows(old(self).cache@, final(self).cache@),
            splice::inlined(
                *graph,
                old(self).remapper.mapping@,
                old(self).bindings@,
                final(self).cache@,
                *final(builder),
                final(arena)@,
            ),
            final(self).cache@.contains_key(root),
            r == final(self).cache@[root],
            forall|set: Set<usize>, c: usize|
                #![trigger splice::graph_closed(*graph, set), set.contains(c)]
                splice::graph_closed(*graph, set) && set.contains(root) && final(self).cache@.contains_key(c)
                    && !old(self).cache@.contains_key(c) ==> set.contains(c),
            forall|n: int|
                old(builder).nodes@.len() <= n < final(builder).nodes@.len()
                    ==> #[trigger] splice::new_copy(old(self).cache@, final(self).cache@, n),
            forall|c: usize| #[trigger]
                final(self).cache@.contains_key(c) && !old(self).cache@.contains_key(c) ==> final(self).cache@[c] >= old(builder).nodes@.len(),
    {
        let r = inline_dependency_dag_cached(
            graph,
            Some(root),
            &self.bindings,
            &mut self.remapper,
            arena,
            &mut self.cache,
            builder,
        );
        match r {
            Some(node) => node,
            None => root,
        }
    }
}

impl SsaStore {
    /// Finds or makes the group of an import. Imports of one graph whose keys stand for the same
    /// nodes and whose branches are renamed alike share one.
    fn ensure_group(
        &self,
        low: &mut Lowering,
        needed: &Needed,
        import: usize,
        Ghost(user): Ghost<int>,
        Ghost(arena): Ghost<PathArena>,
        Ghost(allowed): Ghost<Set<u64>>,
        Ghost(done): Ghost<int>,
    ) -> (r: usize)
        requires
            self.wf(),
            self.guards_in(arena@),
            needed.fits(*self),
            import < self.imports@.len(),
            0 <= user < self.versions@.len(),
            self.versions@[user] matches Version::Imported { import: i, .. } && i == import,
            2 * user <= done,
            lowered_to(*self, arena, *needed, allowed, *old(low), done),
        ensures
            lowered_to(*self, arena, *needed, allowed, *final(low), done),
            final(low).group_of@[import as int] == Some(r),
            r < final(low).groups@.len(),
            final(low).slots == old(low).slots,
            final(low).builder == old(low).builder,
            advanced(*self, *old(low), *final(low), done),
    {
        let ghost start = *low;
        if let Some(g) = low.group_of[import] {
            proof {
                lemma_grouped(*self, arena, *needed, allowed, start, *low, done);
            }
            return g;
        }
        let list = self.map_bindings(needed, &low.slots, import, Ghost(user), Ghost(low.builder.nodes@.len() as int));
        proof {
            lemma_reads_below(*self, import as int, user);
            assert(self.imports@[import as int].wf(self.graphs@));
        }
        let graph: usize = self.imports[import].graph;
        let mut g: usize = 0;
        while g < low.groups.len()
            invariant
                g <= low.groups@.len(),
                *low == start,
                start == *old(low),
                self.wf(),
                self.guards_in(arena@),
                needed.fits(*self),
                import < self.imports@.len(),
                low.group_of@.len() == self.imports@.len(),
                start.group_of@[import as int] is None,
                graph == self.imports@[import as int].graph,
                0 <= user < self.versions@.len(),
                2 * user <= done,
                forall|key: u64, s: SourceRef| #[trigger] reads_key(*self, import as int, key, s) ==> s.version < user,
                lowered_to(*self, arena, *needed, allowed, start, done),
                bindings_mapped(*self, *needed, low.slots, import as int, list@),
                splice::bindings_below(list@, low.builder.nodes@.len() as int),
                forall|h: int|
                    0 <= h < g ==> !(self.imports@[(#[trigger] low.groups@[h]).import as int].graph == graph && self.imports@[low.groups@[h].import as int].mapping@
                        == self.imports@[import as int].mapping@ && binding_lists(low.groups@[h].bindings@) == binding_lists(list@)),
            decreases low.groups@.len() - g,
        {
            proof {
                assert(group_right(*self, arena, low.builder, low.groups@[g as int]));
            }
            let other: usize = low.groups[g].import;
            proof {
                lemma_alike_lists(low.groups@[g as int].bindings@, list@);
            }
            if self.imports[other].graph == graph && same_mapping(
                &self.imports[other].mapping,
                &self.imports[import].mapping,
            ) && same_bindings(&low.groups[g].bindings, &list) {
                low.group_of.set(import, Some(g));
                proof {
                    let group = start.groups@[g as int];
                    assert(serves(*self, *needed, start.slots, group, import as int, done)) by {
                        assert forall|key: u64, x: NodeRef| reached_key(*self, *needed, import as int, key) implies (#[trigger] splice::binds_node(group.bindings@, key, x)
                            <==> key_node(*self, start.slots, import as int, key, x)) by {
                            lemma_alike_binds(group.bindings@, list@, key, x);
                            assert(splice::binds_node(list@, key, x) <==> key_node(*self, start.slots, import as int, key, x));
                        }
                        assert forall|key: u64| #[trigger] reached_key(*self, *needed, import as int, key) implies splice::bound_refs(group.bindings@, key) == key_refs(
                            start.slots.slot(),
                            self.imports@[import as int].bindings@,
                            key,
                        ) by {
                            lemma_alike_refs(group.bindings@, list@, key);
                        }
                    }
                    lemma_grouped(*self, arena, *needed, allowed, start, *low, done);
                }
                return g;
            }
            g = g + 1;
        }
        let r: usize = low.groups.len();
        let group = SpliceGroup {
            import,
            bindings: list,
            remapper: self.branch_remapper(import),
            cache: HashMap::new(),
        };
        assert(serves(*self, *needed, start.slots, group, import as int, done));
        assert(group_right(*self, arena, start.builder, group));
        low.groups.push(group);
        low.group_of.set(import, Some(r));
        proof {
            assert forall|x: int, y: int| 0 <= x < y < low.groups@.len() implies !groups_alike(*self, #[trigger] low.groups@[x], #[trigger] low.groups@[y]) by {
                assert(low.groups@[x] == start.groups@[x]);
                if y < start.groups@.len() {
                    assert(low.groups@[y] == start.groups@[y]);
                }
            }
            lemma_grouped(*self, arena, *needed, allowed, start, *low, done);
        }
        r
    }

    /// Gives an imported root its node.
    fn place_import(
        &self,
        low: &mut Lowering,
        needed: &Needed,
        version: usize,
        entry: bool,
        import: usize,
        child: usize,
        arena: &mut PathArena,
        Ghost(allowed): Ghost<Set<u64>>,
        Ghost(roots): Ghost<Seq<usize>>,
    )
        requires
            self.wf(),
            self.guards_in(old(arena)@),
            old(arena).wf(),
            needed.fits(*self),
            closed(*self, roots, needed.set()),
            version < self.versions@.len(),
            needed.set().contains(Place::Version { version, entry }),
            self.versions@[version as int] == (Version::Imported { import, root: Some(child) }),
            lowered_to(*self, *old(arena), *needed, allowed, *old(low), 2 * version as int + (if entry {
                1int
            } else {
                0int
            })),
            old(low).slots.at(version as int, entry) is None,
        ensures
            final(arena).wf(),
            arena::grows(old(arena)@, final(arena)@),
            lowered_to(*self, *final(arena), *needed, allowed, *final(low), 2 * version as int + (
            if entry {
                2int
            } else {
                1int
            })),
            forall|v: int, e: bool|
                0 <= v < self.versions@.len() && !(v == version && e == entry) ==> #[trigger] final(low).slots.at(v, e) == old(low).slots.at(v, e),
    {
        let ghost done = 2 * version as int + (if entry {
            1int
        } else {
            0int
        });
        let ghost start = *low;
        let ghost paths = *arena;
        assert(self.versions@[version as int].wf(version as int, self.graphs@, self.imports@));
        assert(self.imports@[import as int].wf(self.graphs@));
        let g = self.ensure_group(low, needed, import, Ghost(version as int), Ghost(*arena), Ghost(allowed), Ghost(done));
        let ghost grouped = *low;
        let graph_index: usize = self.imports[import].graph;
        let graph = &self.graphs[graph_index];
        proof {
            assert(group_right(*self, paths, low.builder, low.groups@[g as int]));
            assert(serves(*self, *needed, low.slots, low.groups@[g as int], import as int, done));
            assert(graph.wf() && graph.forward() && graph.guarded_in(arena@));
            assert(ssa::renames_graph(self.imports@[import as int].mapping@, *graph, arena@));
        }
        let node = low.groups[g].splice_root(graph, child, arena, &mut low.builder);
        if entry {
            low.slots.read.set(version, Some(node));
        } else {
            low.slots.plain.set(version, Some(node));
        }
        proof {
            ssa::store_survives_growth(*self, paths@, arena@);
            let group = low.groups@[g as int];
            assert(splice::child_placed(*graph, group.remapper.mapping@, group.bindings@, group.cache@, low.builder, arena@, child));
            assert(node < low.builder.nodes@.len());
            assert forall|v: int, e: bool| 0 <= v < self.versions@.len() && !(v == version && e == entry) implies #[trigger] low.slots.at(v, e) == grouped.slots.at(v, e) by {}
            assert forall|x: int| 0 <= x < grouped.groups@.len() && x != g implies #[trigger] low.groups@[x] == grouped.groups@[x] by {}
            assert(advanced(*self, grouped, *low, done)) by {
                assert forall|v: int, e: bool| 0 <= v < self.versions@.len() && passed(v, e, done) implies #[trigger] low.slots.at(v, e) == grouped.slots.at(v, e) by {}
                assert forall|x: int| 0 <= x < grouped.groups@.len() implies low.groups@[x].import == (#[trigger] grouped.groups@[x]).import
                    && low.groups@[x].bindings == grouped.groups@[x].bindings && splice::cache_grows(grouped.groups@[x].cache@, low.groups@[x].cache@) by {
                    if x != g {
                        assert(low.groups@[x] == grouped.groups@[x]);
                    }
                }
            }
            assert(version_placed(*self, arena@, allowed, *low, version as int, entry));
            self.lemma_imported(paths, *arena, *needed, allowed, grouped, *low, version, entry, import, child, g as int, roots);
        }
    }

    proof fn lemma_imported(
        &self,
        p: PathArena,
        q: PathArena,
        needed: Needed,
        allowed: Set<u64>,
        a: Lowering,
        b: Lowering,
        version: usize,
        entry: bool,
        import: usize,
        child: usize,
        g: int,
        roots: Seq<usize>,
    )
        requires
            self.wf(),
            self.guards_in(p@),
            arena::grows(p@, q@),
            needed.fits(*self),
            closed(*self, roots, needed.set()),
            version < self.versions@.len(),
            needed.set().contains(Place::Version { version, entry }),
            self.versions@[version as int] == (Version::Imported { import, root: Some(child) }),
            lowered_to(*self, p, needed, allowed, a, 2 * version as int + (if entry {
                1int
            } else {
                0int
            })),
            a.slots.at(version as int, entry) is None,
            advanced(*self, a, b, 2 * version as int + (if entry {
                1int
            } else {
                0int
            })),
            b.builder.wf(),
            b.builder.guarded_in(q@),
            b.slots.plain@.len() == self.versions@.len(),
            b.slots.read@.len() == self.versions@.len(),
            forall|v: int, e: bool|
                0 <= v < self.versions@.len() && !(v == version && e == entry) ==> #[trigger] b.slots.at(
                    v,
                    e,
                ) == a.slots.at(v, e),
            b.slots.at(version as int, entry) matches Some(n) && n < b.builder.nodes@.len(),
            b.group_of == a.group_of,
            a.group_of@[import as int] == Some(g as usize),
            0 <= g < a.groups@.len(),
            (g as usize) as int == g,
            b.groups@.len() == a.groups@.len(),
            forall|x: int| 0 <= x < a.groups@.len() && x != g ==> #[trigger] b.groups@[x] == a.groups@[x],
            group_right(*self, q, b.builder, b.groups@[g]),
            version_placed(*self, q@, allowed, b, version as int, entry),
            forall|set: Set<usize>, c: usize|
                #![trigger splice::graph_closed(import_graph(*self, import as int), set), set.contains(c)]
                splice::graph_closed(import_graph(*self, import as int), set) && set.contains(child)
                    && b.groups@[g].cache@.contains_key(c) && !a.groups@[g].cache@.contains_key(c)
                    ==> set.contains(c),
            forall|n: int|
                a.builder.nodes@.len() <= n < b.builder.nodes@.len() ==> #[trigger] splice::new_copy(
                    a.groups@[g].cache@,
                    b.groups@[g].cache@,
                    n,
                ),
            forall|c: usize| #[trigger]
                b.groups@[g].cache@.contains_key(c) && !a.groups@[g].cache@.contains_key(c) ==> b.groups@[g].cache@[c] >= a.builder.nodes@.len(),
        ensures
            lowered_to(*self, q, needed, allowed, b, 2 * version as int + (if entry {
                2int
            } else {
                1int
            })),
    {
        let done = 2 * version as int + (if entry {
            1int
        } else {
            0int
        });
        let store = *self;
        assert forall|v: int, e: bool| 0 <= v < store.versions@.len() implies ((#[trigger] b.slots.at(v, e)) matches Some(n) ==> n < b.builder.nodes@.len()) by {
            if !(v == version && e == entry) {
                assert(b.slots.at(v, e) == a.slots.at(v, e));
            }
        }
        assert forall|x: int| 0 <= x < b.groups@.len() implies group_right(store, q, b.builder, #[trigger] b.groups@[x]) by {
            if x != g {
                assert(group_right(store, p, a.builder, a.groups@[x]));
                lemma_group_stable(store, p, q, a.builder, b.builder, a.groups@[x]);
                assert(b.groups@[x] == a.groups@[x]);
            }
        }
        assert forall|i: int| 0 <= i < b.group_of@.len() implies ((#[trigger] b.group_of@[i]) matches Some(x) ==> x
            < b.groups@.len() && serves(store, needed, b.slots, b.groups@[x as int], i, done + 1)) by {
            if let Some(x) = b.group_of@[i] {
                assert(a.group_of@[i] == Some(x));
                assert(serves(store, needed, a.slots, a.groups@[x as int], i, done));
                assert forall|key: u64, s: SourceRef| #[trigger] reads_key(store, i, key, s) implies s.version < store.versions@.len() by {
                    assert(passed(s.version as int, true, done));
                }
                assert(b.groups@[x as int].import == a.groups@[x as int].import);
                lemma_serves_stable(store, needed, a.slots, b.slots, a.groups@[x as int], b.groups@[x as int], i, done, done + 1);
            }
        }
        assert forall|v: usize, e: bool| #[trigger] needed.set().contains(Place::Version { version: v, entry: e }) && passed(v as int, e, done + 1)
            implies version_placed(store, q@, allowed, b, v as int, e) by {
            if !(v == version && e == entry) {
                assert(passed(v as int, e, done));
                lemma_placed_stable(store, p@, q@, allowed, a, b, v as int, e, done);
            }
        }
        let graph = import_graph(store, import as int);
        let reached = Set::new(|c: usize| needed.set().contains(Place::Child { import, node: c }));
        assert(splice::graph_closed(graph, reached)) by {
            assert forall|e: int| 0 <= e < graph.edges@.len() && reached.contains((#[trigger] graph.edges@[e]).destination) implies reached.contains(graph.edges@[e].source) by {
                let from = Place::Child { import, node: graph.edges@[e].destination };
                let to = Place::Child { import, node: graph.edges@[e].source };
                assert(needs(store, from, to));
            }
        }
        assert(reached.contains(child)) by {
            assert(needs(store, Place::Version { version, entry }, Place::Child { import, node: child }));
        }
        assert forall|n: int| 0 <= n < b.builder.nodes@.len() implies #[trigger] owned(store, needed, b, n) by {
            if n < a.builder.nodes@.len() {
                assert(owned(store, needed, a, n));
                lemma_owned_stable(store, needed, a, b, done, n);
            } else {
                assert(splice::new_copy(a.groups@[g].cache@, b.groups@[g].cache@, n));
                let c = choose|c: usize| #[trigger] b.groups@[g].cache@.contains_key(c) && !a.groups@[g].cache@.contains_key(c) && b.groups@[g].cache@[c] == n;
                assert(reached.contains(c));
                assert(needed.set().contains(Place::Child { import, node: c }));
            }
        }
        lemma_ascends(store, a.slots, b.slots, version as int, entry, a.builder.nodes@.len() as int);
        let limit = a.builder.nodes@.len() as int;
        assert forall|x: int, c: usize| 0 <= x < b.groups@.len() && #[trigger] b.groups@[x].cache@.contains_key(c) implies (if x < a.groups@.len()
            && a.groups@[x].cache@.contains_key(c) {
            b.groups@[x].cache@[c] == a.groups@[x].cache@[c]
        } else {
            b.groups@[x].cache@[c] >= limit
        }) by {
            if x != g {
                assert(b.groups@[x] == a.groups@[x]);
            } else {
                assert(splice::cache_grows(a.groups@[g].cache@, b.groups@[g].cache@));
            }
        }
        assert forall|x: int, c: usize| 0 <= x < a.groups@.len() && #[trigger] a.groups@[x].cache@.contains_key(c) implies a.groups@[x].cache@[c] < limit by {
            assert(group_right(store, p, a.builder, a.groups@[x]));
            assert(splice::child_placed(
                import_graph(store, a.groups@[x].import as int),
                a.groups@[x].remapper.mapping@,
                a.groups@[x].bindings@,
                a.groups@[x].cache@,
                a.builder,
                p@,
                c,
            ));
        }
        assert forall|x: int, c: usize, y: int, d: usize|
            0 <= x < b.groups@.len() && 0 <= y < b.groups@.len() && #[trigger] b.groups@[x].cache@.contains_key(c) && #[trigger] b.groups@[y].cache@.contains_key(d)
                && b.groups@[x].cache@[c] >= limit && b.groups@[y].cache@[d] >= limit && (x != y || c != d) implies b.groups@[x].cache@[c]
            != b.groups@[y].cache@[d] by {
            if x != g {
                assert(b.groups@[x] == a.groups@[x]);
            }
            if y != g {
                assert(b.groups@[y] == a.groups@[y]);
            }
            assert(group_right(store, q, b.builder, b.groups@[g]));
        }
        lemma_own_nodes(store, p, a, b, limit);
        assert forall|x: int, y: int| 0 <= x < y < b.groups@.len() implies !groups_alike(store, #[trigger] b.groups@[x], #[trigger] b.groups@[y]) by {
            assert(!groups_alike(store, a.groups@[x], a.groups@[y]));
            if x != g {
                assert(b.groups@[x] == a.groups@[x]);
            }
            if y != g {
                assert(b.groups@[y] == a.groups@[y]);
            }
        }
    }
}

/// The node of `place` depends on node `source`, with the given relation and path.
///
/// A definition depends on its sources under its condition; a phi, and a projection, on their
/// inputs; a repetition on where it starts and, step by step, on itself; an imported node on what
/// it depends on in its graph, with branches renamed, and on what stands for its key.
pub open spec fn wants(
    store: SsaStore,
    paths: Seq<PathNode>,
    mapped: Map<Place, Option<usize>>,
    place: Place,
    source: usize,
    relation: PositionRelation,
    path: Seq<Choice>,
) -> bool {
    match place {
        Place::Version { version, entry } => match store.versions@[version as int] {
            Version::Definition { sources, condition } => path == arena::path_of(
                paths,
                condition.node as int,
            ) && exists|i: int|
                0 <= i < sources@.len() && (#[trigger] sources@[i]).relation == relation
                    && mapped[Place::Version { version: sources@[i].version, entry: true }] == Some(
                    source,
                ),
            Version::Phi(inputs) => path.len() == 0 && relation == PositionRelation::identity()
                && exists|i: int|
                0 <= i < inputs@.len() && mapped[Place::Version {
                    version: #[trigger] inputs@[i],
                    entry,
                }] == Some(source),
            Version::Projected { source: from, .. } => path.len() == 0 && relation
                == PositionRelation::identity() && mapped[Place::Version {
                version: from,
                entry: true,
            }] == Some(source),
            Version::Repeated { source: from, initial, step, .. } => path.len() == 0 && ((relation
                == initial && mapped[Place::Version { version: from, entry: true }] == Some(source))
                || (relation == step && mapped[place] == Some(source))),
            _ => false,
        },
        Place::Child { import, node } => {
            let graph = import_graph(store, import as int);
            ||| exists|e: int|
                0 <= e < graph.edges@.len() && (#[trigger] graph.edges@[e]).destination == node
                    && graph.edges@[e].relation == relation && mapped[Place::Child {
                    import,
                    node: graph.edges@[e].source,
                }] == Some(source) && path == remap::renamed_path(
                    store.imports@[import as int].mapping@,
                    arena::path_of(paths, graph.edges@[e].condition.node as int),
                )
            ||| path.len() == 0 && exists|key: u64, s: SourceRef|
                graph.nodes@[node as int] == DagNode::External(key) && #[trigger] reads_key(
                    store,
                    import as int,
                    key,
                    s,
                ) && s.relation == relation && mapped[Place::Version {
                    version: s.version,
                    entry: true,
                }] == Some(source)
        },
    }
}

/// The place has no node: an entry value that is not read or not wanted, or an empty import.
pub open spec fn placeless(store: SsaStore, allowed: Set<u64>, place: Place) -> bool {
    place matches Place::Version { version, entry } && match store.versions@[version as int] {
        Version::Entry(key) => !(entry && allowed.contains(key)),
        Version::Imported { root, .. } => root is None,
        _ => false,
    }
}

/// What kind of node a place has.
pub open spec fn place_kind(store: SsaStore, place: Place) -> DagNode {
    match place {
        Place::Version { version, .. } => match store.versions@[version as int] {
            Version::Entry(key) => DagNode::External(key),
            Version::Repeated { .. } => DagNode::RegularTransfer,
            _ => DagNode::Internal,
        },
        Place::Child { import, node } => splice::copied_kind(
            import_graph(store, import as int).nodes@[node as int],
        ),
    }
}

/// The positions that a place is limited to.
pub open spec fn place_domains(store: SsaStore, place: Place) -> Seq<PositionDomain> {
    match place {
        Place::Version { version, .. } => match store.versions@[version as int] {
            Version::Projected { domain, .. } => seq![domain],
            Version::Repeated { domain, .. } => seq![domain],
            _ => Seq::empty(),
        },
        Place::Child { import, node } => import_graph(store, import as int).domains@[node as int]@,
    }
}

/// The edges to the node of a place, in order, each as often as it is there.
pub open spec fn place_arrivals(store: SsaStore, paths: Seq<PathNode>, mapped: Map<Place, Option<usize>>, place: Place, node: usize) -> Seq<Arrival> {
    let slot = |version: usize, entry: bool| mapped[Place::Version { version, entry }];
    match place {
        Place::Version { version, entry } => version_arrivals(store, paths, slot, version as int, entry, node),
        Place::Child { import, node: child } => {
            let graph = import_graph(store, import as int);
            splice::copied_arrivals(
                graph,
                store.imports@[import as int].mapping@,
                |c: usize| mapped[Place::Child { import, node: c }]->0,
                paths,
                graph.incoming@[child as int]@,
            ) + match graph.nodes@[child as int] {
                DagNode::External(key) => splice::refs_arrivals(key_refs(slot, store.imports@[import as int].bindings@, key)),
                _ => Seq::empty(),
            }
        },
    }
}

/// The two imports are of one graph, with branches renamed alike and needed keys that stand for the same nodes.
pub open spec fn imports_alike(store: SsaStore, mapped: Map<Place, Option<usize>>, a: int, b: int) -> bool {
    &&& store.imports@[a].graph == store.imports@[b].graph
    &&& store.imports@[a].mapping@ == store.imports@[b].mapping@
    &&& import_refs(store, mapped.dom(), mapped_slot(mapped), a, store.imports@[a].bindings@) == import_refs(
        store,
        mapped.dom(),
        mapped_slot(mapped),
        b,
        store.imports@[b].bindings@,
    )
}

/// The nodes of versions.
pub open spec fn mapped_slot(mapped: Map<Place, Option<usize>>) -> spec_fn(usize, bool) -> Option<usize> {
    |version: usize, entry: bool| mapped[Place::Version { version, entry }]
}

/// The places may have the same node: a version of an import has that of the copy that it stands for, and
/// a node of a graph is copied once at imports that are alike.
pub open spec fn may_share(store: SsaStore, mapped: Map<Place, Option<usize>>, p: Place, q: Place) -> bool {
    match (p, q) {
        (Place::Version { version, .. }, Place::Version { version: other, .. }) => store.versions@[version as int] is Imported || store.versions@[other as int] is Imported,
        (Place::Child { import, node }, Place::Child { import: other, node: child }) => node == child && imports_alike(store, mapped, import as int, other as int),
        (Place::Version { version, .. }, Place::Child { .. }) => store.versions@[version as int] is Imported,
        (Place::Child { .. }, Place::Version { version, .. }) => store.versions@[version as int] is Imported,
    }
}

/// The place is rightly represented in the graph.
pub open spec fn placed(
    store: SsaStore,
    paths: Seq<PathNode>,
    allowed: Set<u64>,
    dag: DependencyDag,
    mapped: Map<Place, Option<usize>>,
    place: Place,
) -> bool {
    if placeless(store, allowed, place) {
        mapped[place] is None
    } else {
        match place {
            Place::Version { version, .. } if store.versions@[version as int] is Imported => {
                store.versions@[version as int] matches Version::Imported { import, root }
                    && mapped[place] == mapped[Place::Child { import, node: root->0 }]
            },
            _ => mapped[place] matches Some(n) && {
                &&& n < dag.nodes@.len()
                &&& dag.nodes@[n as int] == place_kind(store, place)
                &&& dag.domains@[n as int]@ == place_domains(store, place)
                &&& forall|source: usize, relation: PositionRelation, path: Seq<Choice>| #[trigger]
                    splice::arrives(dag.edges@, paths, n, source, relation, path) <==> wants(
                        store,
                        paths,
                        mapped,
                        place,
                        source,
                        relation,
                        path,
                    )
                &&& splice::arrivals(dag.edges@, paths, n) == place_arrivals(store, paths, mapped, place, n)
            },
        }
    }
}

/// The graph represents what the roots depend on, and nothing else.
pub open spec fn lowers(
    store: SsaStore,
    paths: Seq<PathNode>,
    roots: Seq<usize>,
    allowed: Set<u64>,
    dag: DependencyDag,
    mapped: Map<Place, Option<usize>>,
) -> bool {
    &&& closed(store, roots, mapped.dom())
    &&& forall|set: Set<Place>, p: Place|
        #![trigger closed(store, roots, set), mapped.contains_key(p)]
        closed(store, roots, set) && mapped.contains_key(p) ==> set.contains(p)
    &&& forall|p: Place| #[trigger]
        mapped.contains_key(p) ==> placed(store, paths, allowed, dag, mapped, p)
    &&& forall|n: int| 0 <= n < dag.nodes@.len() ==> #[trigger] represents_some(mapped, n)
    &&& forall|p: Place, q: Place|
        #[trigger] mapped.contains_key(p) && #[trigger] mapped.contains_key(q) && precedes(store, p, q) && mapped[p] is Some && mapped[q] is Some ==> mapped[p]->0
            < mapped[q]->0
    &&& forall|p: Place, q: Place|
        #[trigger] mapped.contains_key(p) && #[trigger] mapped.contains_key(q) && p != q && mapped[p] is Some && mapped[p] == mapped[q] ==> may_share(store, mapped, p, q)
    &&& forall|i: usize, j: usize, c: usize|
        #[trigger] mapped.contains_key(Place::Child { import: i, node: c }) && #[trigger] mapped.contains_key(Place::Child { import: j, node: c }) && imports_alike(
            store,
            mapped,
            i as int,
            j as int,
        ) ==> mapped[Place::Child { import: i, node: c }] == mapped[Place::Child { import: j, node: c }]
    &&& dag.roots@.len() == roots.len()
    &&& forall|i: int|
        0 <= i < roots.len() ==> #[trigger] dag.roots@[i] == mapped[Place::Version {
            version: roots[i],
            entry: false,
        }]
}

/// Both are places of versions, not of imports, and the first comes before the second: it has a node of
/// its own, in front of that of the second.
pub open spec fn precedes(store: SsaStore, p: Place, q: Place) -> bool {
    match (p, q) {
        (Place::Version { version, entry }, Place::Version { version: other, entry: other_entry }) => !(store.versions@[version as int] is Imported) && !(
        store.versions@[other as int] is Imported) && earlier(version as int, entry, other as int, other_entry),
        _ => false,
    }
}

/// Node `n` belongs to some place.
pub open spec fn represents_some(mapped: Map<Place, Option<usize>>, n: int) -> bool {
    exists|p: Place| #[trigger] mapped.contains_key(p) && (mapped[p] matches Some(m) && m == n)
}

spec fn final_map(store: SsaStore, needed: Needed, low: Lowering) -> Map<Place, Option<usize>> {
    Map::new(
        |p: Place| needed.set().contains(p),
        |p: Place|
            match p {
                Place::Version { version, entry } => low.slots.at(version as int, entry),
                Place::Child { import, node } => Some(
                    low.groups@[low.group_of@[import as int]->0 as int].cache@[node],
                ),
            },
    )
}

impl SsaStore {
    /// The node of a child is in its group.
    proof fn lemma_children_cached(
        &self,
        arena: PathArena,
        needed: Needed,
        allowed: Set<u64>,
        low: Lowering,
        roots: Seq<usize>,
    )
        requires
            self.wf(),
            needed.fits(*self),
            closed(*self, roots, needed.set()),
            needed.least(*self, roots),
            lowered_to(*self, arena, needed, allowed, low, 2 * self.versions@.len() as int),
        ensures
            forall|i: usize, c: usize| #[trigger]
                needed.set().contains(Place::Child { import: i, node: c }) ==> (low.group_of@[i as int] matches Some(
                    g,
                ) && g < low.groups@.len() && low.groups@[g as int].cache@.contains_key(c)),
    {
        let store = *self;
        let cached = Set::new(
            |p: Place|
                needed.set().contains(p) && (p matches Place::Child { import, node } ==> (
                low.group_of@[import as int] matches Some(g) && g < low.groups@.len()
                    && low.groups@[g as int].cache@.contains_key(node))),
        );
        assert(closed(store, roots, cached)) by {
            assert forall|a: Place, b: Place| #[trigger] needs(store, a, b) && cached.contains(a) implies cached.contains(b) by {
                assert(needed.set().contains(b));
                if let Place::Child { import, node } = b {
                    match a {
                        Place::Version { version, entry } => {
                            assert(passed(version as int, entry, 2 * self.versions@.len() as int));
                            assert(version_placed(store, arena@, allowed, low, version as int, entry));
                        },
                        Place::Child { import: from, node: above } => {
                            let g = low.group_of@[from as int]->0 as int;
                            assert(group_right(store, arena, low.builder, low.groups@[g]));
                            assert(serves(store, needed, low.slots, low.groups@[g], from as int, 2 * self.versions@.len() as int));
                            let graph = import_graph(store, from as int);
                            let e = choose|e: int| 0 <= e < graph.edges@.len() && (#[trigger] graph.edges@[e]).destination == above && b
                                == (Place::Child { import: from, node: graph.edges@[e].source });
                            assert(splice::child_placed(graph, low.groups@[g].remapper.mapping@, low.groups@[g].bindings@, low.groups@[g].cache@, low.builder, arena@, above));
                            assert(low.groups@[g].cache@.contains_key(graph.edges@[e].source));
                        },
                    }
                }
            }
        }
        assert forall|i: usize, c: usize| #[trigger] needed.set().contains(Place::Child { import: i, node: c }) implies (low.group_of@[i as int] matches Some(g)
            && g < low.groups@.len() && low.groups@[g as int].cache@.contains_key(c)) by {
            assert(cached.contains(Place::Child { import: i, node: c }));
        }
    }

    /// The lowered graph represents every needed place.
    proof fn lemma_lowers(
        &self,
        arena: PathArena,
        needed: Needed,
        allowed: Set<u64>,
        low: Lowering,
        roots: Seq<usize>,
        dag: DependencyDag,
    )
        requires
            self.wf(),
            needed.fits(*self),
            closed(*self, roots, needed.set()),
            needed.least(*self, roots),
            lowered_to(*self, arena, needed, allowed, low, 2 * self.versions@.len() as int),
            dag.nodes == low.builder.nodes,
            dag.edges == low.builder.edges,
            dag.domains == low.builder.domains,
            dag.roots@.len() == roots.len(),
            forall|i: int|
                0 <= i < roots.len() ==> #[trigger] dag.roots@[i] == low.slots.at(roots[i] as int, false),
        ensures
            lowers(*self, arena@, roots, allowed, dag, final_map(*self, needed, low)),
    {
        let store = *self;
        let mapped = final_map(store, needed, low);
        let done = 2 * self.versions@.len() as int;
        self.lemma_children_cached(arena, needed, allowed, low, roots);
        assert(mapped.dom() =~= needed.set());
        assert forall|p: Place| #[trigger] mapped.contains_key(p) implies placed(store, arena@, allowed, dag, mapped, p) by {
            assert(needed.set().contains(p));
            match p {
                Place::Version { version, entry } => {
                    assert(passed(version as int, entry, done));
                    assert(version_placed(store, arena@, allowed, low, version as int, entry));
                    self.lemma_version_lowered(arena, needed, allowed, low, roots, dag, version, entry);
                },
                Place::Child { import, node } => {
                    self.lemma_child_lowered(arena, needed, allowed, low, roots, dag, import, node);
                },
            }
        }
        assert forall|n: int| 0 <= n < dag.nodes@.len() implies #[trigger] represents_some(mapped, n) by {
            assert(owned(store, needed, low, n));
            assert(low.builder.nodes@.len() == low.builder.nodes.len());
            if exists|v: usize, e: bool| #[trigger] needed.set().contains(Place::Version { version: v, entry: e }) && low.slots.at(v as int, e) == Some(n as usize) {
                let (v, e) = choose|v: usize, e: bool| #[trigger] needed.set().contains(Place::Version { version: v, entry: e }) && low.slots.at(v as int, e) == Some(n as usize);
                assert(mapped.contains_key(Place::Version { version: v, entry: e }));
            } else {
                let (i, c) = choose|i: usize, c: usize| #[trigger] needed.set().contains(Place::Child { import: i, node: c }) && (low.group_of@[i as int] matches Some(g)
                    && g < low.groups@.len() && low.groups@[g as int].cache@.contains_key(c) && low.groups@[g as int].cache@[c] == n);
                assert(mapped.contains_key(Place::Child { import: i, node: c }));
            }
        }
        assert forall|set: Set<Place>, p: Place|
            #![trigger closed(store, roots, set), mapped.contains_key(p)]
            closed(store, roots, set) && mapped.contains_key(p) implies set.contains(p) by {
            assert(needed.set().contains(p));
        }
        assert forall|i: usize, j: usize, c: usize|
            #[trigger] mapped.contains_key(Place::Child { import: i, node: c }) && #[trigger] mapped.contains_key(Place::Child { import: j, node: c }) && imports_alike(
                store,
                mapped,
                i as int,
                j as int,
            ) implies mapped[Place::Child { import: i, node: c }] == mapped[Place::Child { import: j, node: c }] by {
            let g = low.group_of@[i as int]->0 as int;
            let h = low.group_of@[j as int]->0 as int;
            assert(needed.set().contains(Place::Child { import: i, node: c }) && needed.set().contains(Place::Child { import: j, node: c }));
            self.lemma_refs_lowered(needed, low, roots, i);
            self.lemma_refs_lowered(needed, low, roots, j);
            assert(serves(store, needed, low.slots, low.groups@[g], i as int, done));
            assert(serves(store, needed, low.slots, low.groups@[h], j as int, done));
            assert(groups_alike(store, low.groups@[g], low.groups@[h]));
            assert(groups_alike(store, low.groups@[h], low.groups@[g]));
        }
        assert forall|p: Place, q: Place|
            #[trigger] mapped.contains_key(p) && #[trigger] mapped.contains_key(q) && p != q && mapped[p] is Some && mapped[p] == mapped[q] implies may_share(
            store,
            mapped,
            p,
            q,
        ) by {
            if !may_share(store, mapped, p, q) {
                match (p, q) {
                    (Place::Version { version, entry }, Place::Version { version: other, entry: other_entry }) => {
                        if earlier(version as int, entry, other as int, other_entry) {
                            assert(low.slots.at(version as int, entry)->0 < low.slots.at(other as int, other_entry)->0);
                        } else {
                            assert(earlier(other as int, other_entry, version as int, entry));
                            assert(low.slots.at(other as int, other_entry)->0 < low.slots.at(version as int, entry)->0);
                        }
                    },
                    (Place::Child { import, node }, Place::Child { import: other, node: child }) => {
                        let g = low.group_of@[import as int]->0 as int;
                        let h = low.group_of@[other as int]->0 as int;
                        assert(low.groups@[g].cache@.contains_key(node) && low.groups@[h].cache@.contains_key(child));
                        if g == h && node == child {
                            self.lemma_refs_lowered(needed, low, roots, import);
                            self.lemma_refs_lowered(needed, low, roots, other);
                            assert(serves(store, needed, low.slots, low.groups@[g], import as int, done));
                            assert(serves(store, needed, low.slots, low.groups@[g], other as int, done));
                        } else {
                            assert(low.groups@[g].cache@[node] != low.groups@[h].cache@[child]);
                        }
                    },
                    (Place::Version { version, entry }, Place::Child { import, node }) => {
                        let g = low.group_of@[import as int]->0 as int;
                        assert(low.groups@[g].cache@.contains_key(node));
                        assert(low.slots.at(version as int, entry) != Some(low.groups@[g].cache@[node]));
                    },
                    (Place::Child { import, node }, Place::Version { version, entry }) => {
                        let g = low.group_of@[import as int]->0 as int;
                        assert(low.groups@[g].cache@.contains_key(node));
                        assert(low.slots.at(version as int, entry) != Some(low.groups@[g].cache@[node]));
                    },
                }
            }
        }
    }

    /// The nodes of the values that stand for the needed keys of an import are those of the graph.
    proof fn lemma_refs_lowered(&self, needed: Needed, low: Lowering, roots: Seq<usize>, import: usize)
        requires
            closed(*self, roots, needed.set()),
            import < self.imports@.len(),
        ensures
            import_refs(
                *self,
                final_map(*self, needed, low).dom(),
                mapped_slot(final_map(*self, needed, low)),
                import as int,
                self.imports@[import as int].bindings@,
            ) == import_refs(*self, needed.set(), low.slots.slot(), import as int, self.imports@[import as int].bindings@),
    {
        let store = *self;
        let mapped = final_map(store, needed, low);
        assert(mapped.dom() =~= needed.set());
        let one = low.slots.slot();
        let two = mapped_slot(mapped);
        let bindings = store.imports@[import as int].bindings@;
        assert forall|c: int, i: int|
            0 <= c < bindings.len() && reaches_key(store, needed.set(), import as int, bindings[c].key) && 0 <= i < bindings[c].sources@.len() implies two(
            (#[trigger] bindings[c].sources@[i]).version,
            true,
        ) == one(bindings[c].sources@[i].version, true) by {
            let s = bindings[c].sources@[i];
            let key = bindings[c].key;
            let node = choose|node: usize| #[trigger]
                needed.set().contains(Place::Child { import: (import as int) as usize, node }) && import_graph(store, import as int).nodes@[node as int] == DagNode::External(key);
            assert(bindings[c].sources@.contains(s));
            assert(reads_key(store, import as int, key, s));
            let target = Place::Version { version: s.version, entry: true };
            assert(needs(store, Place::Child { import, node }, target));
            assert(needed.set().contains(target));
            assert(mapped.contains_key(target));
        }
        lemma_import_refs_agree(store, needed.set(), two, one, import as int, bindings);
    }

    proof fn lemma_version_lowered(
        &self,
        arena: PathArena,
        needed: Needed,
        allowed: Set<u64>,
        low: Lowering,
        roots: Seq<usize>,
        dag: DependencyDag,
        version: usize,
        entry: bool,
    )
        requires
            self.wf(),
            needed.fits(*self),
            closed(*self, roots, needed.set()),
            lowered_to(*self, arena, needed, allowed, low, 2 * self.versions@.len() as int),
            dag.nodes == low.builder.nodes,
            dag.edges == low.builder.edges,
            dag.domains == low.builder.domains,
            needed.set().contains(Place::Version { version, entry }),
            version < self.versions@.len(),
            version_placed(*self, arena@, allowed, low, version as int, entry),
        ensures
            placed(
                *self,
                arena@,
                allowed,
                dag,
                final_map(*self, needed, low),
                Place::Version { version, entry },
            ),
    {
        let store = *self;
        let mapped = final_map(store, needed, low);
        let place = Place::Version { version, entry };
        assert(mapped.contains_key(place));
        match store.versions@[version as int] {
            Version::Imported { import, root } => {
                if let Some(child) = root {
                    let target = Place::Child { import, node: child };
                    assert(needs(store, place, target));
                    assert(mapped.contains_key(target));
                }
            },
            _ => {
                if !placeless(store, allowed, place) {
                    let n = low.slots.at(version as int, entry)->0;
                    assert(node_right(store, arena@, low, version as int, entry, n));
                    let one = low.slots.slot();
                    let two = |v: usize, e: bool| mapped[Place::Version { version: v, entry: e }];
                    assert(version_arrivals(store, arena@, one, version as int, entry, n) == version_arrivals(store, arena@, two, version as int, entry, n)) by {
                        match store.versions@[version as int] {
                            Version::Definition { sources, .. } => {
                                assert forall|i: int| 0 <= i < sources@.len() implies one((#[trigger] sources@[i]).version, true) == two(sources@[i].version, true) by {
                                    let target = Place::Version { version: sources@[i].version, entry: true };
                                    assert(needs(store, place, target));
                                    assert(mapped.contains_key(target));
                                }
                                lemma_sources_agree(one, two, sources@);
                            },
                            Version::Phi(inputs) => {
                                assert forall|i: int| 0 <= i < inputs@.len() implies one(#[trigger] inputs@[i], entry) == two(inputs@[i], entry) by {
                                    let target = Place::Version { version: inputs@[i], entry };
                                    assert(needs(store, place, target));
                                    assert(mapped.contains_key(target));
                                }
                                lemma_inputs_agree(one, two, inputs@, entry);
                            },
                            Version::Projected { source: from, .. } => {
                                let target = Place::Version { version: from, entry: true };
                                assert(needs(store, place, target));
                                assert(mapped.contains_key(target));
                            },
                            Version::Repeated { source: from, .. } => {
                                let target = Place::Version { version: from, entry: true };
                                assert(needs(store, place, target));
                                assert(mapped.contains_key(target));
                            },
                            _ => {},
                        }
                    }
                    assert(splice::arrivals(dag.edges@, arena@, n) == place_arrivals(store, arena@, mapped, place, n));
                    assert forall|source: usize, relation: PositionRelation, path: Seq<Choice>| #[trigger] splice::arrives(dag.edges@, arena@, n, source, relation, path)
                        <==> wants(store, arena@, mapped, place, source, relation, path) by {
                        assert(splice::arrives(low.builder.edges@, arena@, n, source, relation, path)
                            <==> version_wants(store, arena@, low.slots, version as int, entry, n, source, relation, path));
                        match store.versions@[version as int] {
                            Version::Definition { sources, .. } => {
                                assert forall|i: int| 0 <= i < sources@.len() implies mapped[Place::Version { version: (#[trigger] sources@[i]).version, entry: true }]
                                    == low.slots.at(sources@[i].version as int, true) by {
                                    let target = Place::Version { version: sources@[i].version, entry: true };
                                    assert(needs(store, place, target));
                                    assert(mapped.contains_key(target));
                                }
                            },
                            Version::Phi(inputs) => {
                                assert forall|i: int| 0 <= i < inputs@.len() implies mapped[Place::Version { version: #[trigger] inputs@[i], entry }]
                                    == low.slots.at(inputs@[i] as int, entry) by {
                                    let target = Place::Version { version: inputs@[i], entry };
                                    assert(needs(store, place, target));
                                    assert(mapped.contains_key(target));
                                }
                            },
                            Version::Projected { source: from, .. } => {
                                let target = Place::Version { version: from, entry: true };
                                assert(needs(store, place, target));
                                assert(mapped.contains_key(target));
                            },
                            Version::Repeated { source: from, .. } => {
                                let target = Place::Version { version: from, entry: true };
                                assert(needs(store, place, target));
                                assert(mapped.contains_key(target));
                            },
                            _ => {},
                        }
                    }
                }
            },
        }
    }

    proof fn lemma_child_lowered(
        &self,
        arena: PathArena,
        needed: Needed,
        allowed: Set<u64>,
        low: Lowering,
        roots: Seq<usize>,
        dag: DependencyDag,
        import: usize,
        node: usize,
    )
        requires
            self.wf(),
            needed.fits(*self),
            closed(*self, roots, needed.set()),
            lowered_to(*self, arena, needed, allowed, low, 2 * self.versions@.len() as int),
            dag.nodes == low.builder.nodes,
            dag.edges == low.builder.edges,
            dag.domains == low.builder.domains,
            needed.set().contains(Place::Child { import, node }),
            forall|i: usize, c: usize| #[trigger]
                needed.set().contains(Place::Child { import: i, node: c }) ==> (low.group_of@[i as int] matches Some(
                    g,
                ) && g < low.groups@.len() && low.groups@[g as int].cache@.contains_key(c)),
        ensures
            placed(
                *self,
                arena@,
                allowed,
                dag,
                final_map(*self, needed, low),
                Place::Child { import, node },
            ),
    {
        let store = *self;
        let mapped = final_map(store, needed, low);
        let place = Place::Child { import, node };
        let done = 2 * self.versions@.len() as int;
        assert(mapped.contains_key(place));
        let g = low.group_of@[import as int]->0 as int;
        let group = low.groups@[g];
        let graph = import_graph(store, import as int);
        assert(group_right(store, arena, low.builder, group));
        assert(serves(store, needed, low.slots, group, import as int, done));
        let n = group.cache@[node];
        assert(splice::child_placed(graph, group.remapper.mapping@, group.bindings@, group.cache@, low.builder, arena@, node));
        assert(store.imports@[import as int].wf(store.graphs@));
        assert(splice::child_arrivals(graph, group.remapper.mapping@, group.bindings@, group.cache@, arena@, node) =~= place_arrivals(store, arena@, mapped, place, n)) by {
            let list = graph.incoming@[node as int]@;
            assert(graph.wf());
            assert(dag::leads_to(graph.edges@, node as int, graph.edges@.len() as int, list));
            let first = splice::copied_arrivals(graph, group.remapper.mapping@, |c: usize| group.cache@[c], arena@, list);
            let second = splice::copied_arrivals(graph, group.remapper.mapping@, |c: usize| mapped[Place::Child { import, node: c }]->0, arena@, list);
            assert forall|k: int| 0 <= k < list.len() implies first[k] == #[trigger] second[k] by {
                let e = list[k] as int;
                let target = Place::Child { import, node: graph.edges@[e].source };
                assert(graph.edges@[e].destination == node);
                assert(needs(store, place, target));
                assert(mapped.contains_key(target));
            }
            assert(first =~= second);
            if let DagNode::External(key) = graph.nodes@[node as int] {
                assert(reached_key(store, needed, import as int, key)) by {
                    assert(needed.set().contains(Place::Child { import: (import as int) as usize, node }));
                }
                let one = low.slots.slot();
                let two = |v: usize, e: bool| mapped[Place::Version { version: v, entry: e }];
                let bindings = store.imports@[import as int].bindings@;
                assert forall|c: int, i: int| 0 <= c < bindings.len() && bindings[c].key == key && 0 <= i < bindings[c].sources@.len() implies one(
                    (#[trigger] bindings[c].sources@[i]).version,
                    true,
                ) == two(bindings[c].sources@[i].version, true) by {
                    let s = bindings[c].sources@[i];
                    assert(bindings[c].sources@.contains(s));
                    assert(reads_key(store, import as int, key, s));
                    let target = Place::Version { version: s.version, entry: true };
                    assert(needs(store, place, target));
                    assert(mapped.contains_key(target));
                }
                lemma_keys_agree(one, two, bindings, key);
            }
        }
        assert forall|source: usize, relation: PositionRelation, path: Seq<Choice>| #[trigger] splice::arrives(dag.edges@, arena@, n, source, relation, path)
            <==> wants(store, arena@, mapped, place, source, relation, path) by {
            assert(splice::arrives(low.builder.edges@, arena@, n, source, relation, path)
                <==> splice::child_wants(graph, group.remapper.mapping@, group.bindings@, group.cache@, arena@, node, source, relation, path));
            assert forall|e: int| 0 <= e < graph.edges@.len() && (#[trigger] graph.edges@[e]).destination == node implies mapped[Place::Child { import, node: graph.edges@[e].source }]
                == Some(group.cache@[graph.edges@[e].source]) && group.cache@.contains_key(graph.edges@[e].source) by {
                let target = Place::Child { import, node: graph.edges@[e].source };
                assert(needs(store, place, target));
                assert(mapped.contains_key(target));
            }
            let x = NodeRef { node: source, relation };
            if let DagNode::External(key) = graph.nodes@[node as int] {
                assert(reached_key(store, needed, import as int, key)) by {
                    assert(needed.set().contains(Place::Child { import: (import as int) as usize, node }));
                }
                assert(splice::binds_node(group.bindings@, key, x) <==> key_node(store, low.slots, import as int, key, x));
                assert forall|s: SourceRef| #[trigger] reads_key(store, import as int, key, s) implies mapped[Place::Version { version: s.version, entry: true }]
                    == low.slots.at(s.version as int, true) by {
                    let target = Place::Version { version: s.version, entry: true };
                    assert(needs(store, place, target));
                    assert(mapped.contains_key(target));
                }
                if key_node(store, low.slots, import as int, key, x) {
                    let s = choose|s: SourceRef| #[trigger] reads_key(store, import as int, key, s) && s.relation == x.relation && low.slots.at(s.version as int, true) == Some(x.node);
                    assert(reads_key(store, import as int, key, s));
                }
            }
        }
    }

    /// The dependency graph of some versions.
    ///
    /// It has a node for everything that the roots depend on. Entry values outside `allowed` are
    /// left out, and so is the entry value that a root merely retains.
    pub fn dependency_dag(&self, arena: &mut PathArena, roots: &Vec<usize>, allowed: &HashSet<u64>) -> (r:
        DependencyDag)
        requires
            self.wf(),
            self.guards_in(old(arena)@),
            old(arena).wf(),
            forall|i: int| 0 <= i < roots@.len() ==> (#[trigger] roots@[i]) < self.versions@.len(),
        ensures
            final(arena).wf(),
            arena::grows(old(arena)@, final(arena)@),
            r.wf(),
            r.forward(),
            r.guarded_in(final(arena)@),
            exists|mapped: Map<Place, Option<usize>>| #[trigger]
                lowers(*self, final(arena)@, roots@, allowed@, r, mapped),
    {
        let needed = self.find_needed(roots);
        let mut plain: Vec<Option<usize>> = Vec::new();
        let mut read: Vec<Option<usize>> = Vec::new();
        let mut v: usize = 0;
        while v < self.versions.len()
            invariant
                v <= self.versions@.len(),
                plain@.len() == v,
                read@.len() == v,
                forall|k: int| 0 <= k < v ==> (#[trigger] plain@[k]) is None,
                forall|k: int| 0 <= k < v ==> (#[trigger] read@[k]) is None,
            decreases self.versions@.len() - v,
        {
            plain.push(None);
            read.push(None);
            v = v + 1;
        }
        let mut group_of: Vec<Option<usize>> = Vec::new();
        let mut i: usize = 0;
        while i < self.imports.len()
            invariant
                i <= self.imports@.len(),
                group_of@.len() == i,
                forall|k: int| 0 <= k < i ==> (#[trigger] group_of@[k]) is None,
            decreases self.imports@.len() - i,
        {
            group_of.push(None);
            i = i + 1;
        }
        let mut low = Lowering {
            builder: DagBuilder::new(),
            slots: Slots { plain, read },
            groups: Vec::new(),
            group_of,
        };
        let ghost paths0 = arena@;
        proof {
            assert forall|k: int, e: bool| 0 <= k < self.versions@.len() implies (#[trigger] low.slots.at(k, e)) is None by {}
            assert(lowered_to(*self, *arena, needed, allowed@, low, 0));
        }
        let mut version: usize = 0;
        while version < self.versions.len()
            invariant
                version <= self.versions@.len(),
                self.wf(),
                self.guards_in(arena@),
                arena.wf(),
                paths0 == old(arena)@,
                arena::grows(paths0, arena@),
                needed.fits(*self),
                closed(*self, roots@, needed.set()),
                lowered_to(*self, *arena, needed, allowed@, low, 2 * version as int),
                forall|k: int, e: bool|
                    version <= k < self.versions@.len() ==> (#[trigger] low.slots.at(k, e)) is None,
            decreases self.versions@.len() - version,
        {
            let ghost first = *arena;
            self.place_state(&mut low, &needed, version, false, arena, allowed, Ghost(roots@));
            let ghost second = *arena;
            proof {
                ssa::store_survives_growth(*self, first@, arena@);
            }
            self.place_state(&mut low, &needed, version, true, arena, allowed, Ghost(roots@));
            proof {
                ssa::store_survives_growth(*self, second@, arena@);
                arena::growth_is_transitive(paths0, first@, second@);
                arena::growth_is_transitive(paths0, second@, arena@);
            }
            version = version + 1;
        }
        let mut out: Vec<Option<usize>> = Vec::new();
        let mut k: usize = 0;
        while k < roots.len()
            invariant
                k <= roots@.len(),
                out@.len() == k,
                forall|m: int| 0 <= m < roots@.len() ==> (#[trigger] roots@[m]) < self.versions@.len(),
                low.slots.plain@.len() == self.versions@.len(),
                forall|m: int|
                    0 <= m < k ==> #[trigger] out@[m] == low.slots.at(roots@[m] as int, false),
            decreases roots@.len() - k,
        {
            assert(roots@[k as int] < self.versions@.len());
            out.push(low.slots.plain[roots[k]]);
            k = k + 1;
        }
        let ghost lowered = low;
        proof {
            assert forall|m: int| 0 <= m < out@.len() implies ((#[trigger] out@[m]) matches Some(n) ==> n < low.builder.nodes@.len()) by {
                assert(roots@[m] < self.versions@.len());
                assert(out@[m] == low.slots.at(roots@[m] as int, false));
            }
        }
        let DagBuilder { nodes, edges, domains } = low.builder;
        let r = DependencyDag::new(nodes, edges, out, domains);
        proof {
            assert forall|e: int| 0 <= e < r.edges@.len() implies ({
                let edge = #[trigger] r.edges@[e];
                edge.source < edge.destination || (edge.source == edge.destination && (
                r.nodes@[edge.source as int] == DagNode::RegularTransfer || (dag::idle_axis(edge.relation.array) && dag::idle_axis(edge.relation.packed))))
            }) by {
                assert(splice::edge_forward(lowered.builder.nodes@, lowered.builder.edges@[e]));
            }
            self.lemma_lowers(*arena, needed, allowed@, lowered, roots@, r);
        }
        r
    }

    /// Lowers one state, if it is needed.
    fn place_state(
        &self,
        low: &mut Lowering,
        needed: &Needed,
        version: usize,
        entry: bool,
        arena: &mut PathArena,
        allowed: &HashSet<u64>,
        Ghost(roots): Ghost<Seq<usize>>,
    )
        requires
            self.wf(),
            self.guards_in(old(arena)@),
            old(arena).wf(),
            needed.fits(*self),
            closed(*self, roots, needed.set()),
            version < self.versions@.len(),
            lowered_to(*self, *old(arena), *needed, allowed@, *old(low), 2 * version as int + (
            if entry {
                1int
            } else {
                0int
            })),
            old(low).slots.at(version as int, entry) is None,
        ensures
            final(arena).wf(),
            arena::grows(old(arena)@, final(arena)@),
            lowered_to(*self, *final(arena), *needed, allowed@, *final(low), 2 * version as int + (
            if entry {
                2int
            } else {
                1int
            })),
            forall|v: int, e: bool|
                0 <= v < self.versions@.len() && !(v == version && e == entry) ==> #[trigger] final(low).slots.at(v, e) == old(low).slots.at(v, e),
    {
        let ghost start = *low;
        let ghost done = 2 * version as int + (if entry {
            1int
        } else {
            0int
        });
        let wanted: bool = if entry {
            needed.read[version]
        } else {
            needed.plain[version]
        };
        assert(wanted == needed.set().contains(Place::Version { version, entry }));
        if !wanted {
            proof {
                self.lemma_skipped(*arena, *needed, allowed@, start, version, entry);
            }
            return;
        }
        match &self.versions[version] {
            Version::Imported { import, root } => {
                match root {
                    Some(child) => {
                        self.place_import(low, needed, version, entry, *import, *child, arena, Ghost(allowed@), Ghost(roots));
                    },
                    None => {
                        proof {
                            lemma_advance_nothing(*self, *arena, *needed, allowed@, start, version, entry);
                        }
                    },
                }
            },
            Version::Entry(key) => {
                if entry && allowed.contains(key) {
                    self.place_version(low, needed, version, entry, Ghost(*arena), Ghost(allowed@));
                } else {
                    proof {
                        lemma_advance_nothing(*self, *arena, *needed, allowed@, start, version, entry);
                    }
                }
            },
            _ => {
                self.place_version(low, needed, version, entry, Ghost(*arena), Ghost(allowed@));
            },
        }
    }

    proof fn lemma_skipped(
        &self,
        arena: PathArena,
        needed: Needed,
        allowed: Set<u64>,
        low: Lowering,
        version: usize,
        entry: bool,
    )
        requires
            self.wf(),
            version < self.versions@.len(),
            !needed.set().contains(Place::Version { version, entry }),
            lowered_to(*self, arena, needed, allowed, low, 2 * version as int + (if entry {
                1int
            } else {
                0int
            })),
        ensures
            lowered_to(*self, arena, needed, allowed, low, 2 * version as int + (if entry {
                2int
            } else {
                1int
            })),
    {
        let done = 2 * version as int + (if entry {
            1int
        } else {
            0int
        });
        self.lemma_serves_on(needed, low, done);
        assert forall|v: usize, e: bool| #[trigger] needed.set().contains(Place::Version { version: v, entry: e }) && passed(v as int, e, done + 1)
            implies version_placed(*self, arena@, allowed, low, v as int, e) by {
            assert(passed(v as int, e, done));
        }
    }

    proof fn lemma_serves_on(&self, needed: Needed, low: Lowering, done: int)
        requires
            forall|i: int|
                0 <= i < low.group_of@.len() ==> ((#[trigger] low.group_of@[i]) matches Some(g) ==> g
                    < low.groups@.len() && serves(*self, needed, low.slots, low.groups@[g as int], i, done)),
        ensures
            forall|i: int|
                0 <= i < low.group_of@.len() ==> ((#[trigger] low.group_of@[i]) matches Some(g) ==> g
                    < low.groups@.len() && serves(*self, needed, low.slots, low.groups@[g as int], i, done + 1)),
    {
        assert forall|i: int| 0 <= i < low.group_of@.len() implies ((#[trigger] low.group_of@[i]) matches Some(g) ==> g
            < low.groups@.len() && serves(*self, needed, low.slots, low.groups@[g as int], i, done + 1)) by {
            if let Some(g) = low.group_of@[i] {
                assert(serves(*self, needed, low.slots, low.groups@[g as int], i, done));
                assert forall|key: u64, s: SourceRef| #[trigger] reads_key(*self, i, key, s) implies passed(s.version as int, true, done + 1) by {
                    assert(passed(s.version as int, true, done));
                }
            }
        }
    }
}

/// A state without a node.
proof fn lemma_advance_nothing(
    store: SsaStore,
    arena: PathArena,
    needed: Needed,
    allowed: Set<u64>,
    low: Lowering,
    version: usize,
    entry: bool,
)
    requires
        store.wf(),
        version < store.versions@.len(),
        lowered_to(store, arena, needed, allowed, low, 2 * version as int + (if entry {
            1int
        } else {
            0int
        })),
        low.slots.at(version as int, entry) is None,
        placeless(store, allowed, Place::Version { version, entry }),
    ensures
        lowered_to(store, arena, needed, allowed, low, 2 * version as int + (if entry {
            2int
        } else {
            1int
        })),
{
    let done = 2 * version as int + (if entry {
        1int
    } else {
        0int
    });
    store.lemma_serves_on(needed, low, done);
    assert forall|v: usize, e: bool| #[trigger] needed.set().contains(Place::Version { version: v, entry: e }) && passed(v as int, e, done + 1)
        implies version_placed(store, arena@, allowed, low, v as int, e) by {
        if !(v == version && e == entry) {
            assert(passed(v as int, e, done));
        }
    }
}

} // verus!
