//! The effect of a loop body that runs any number of times.
use vstd::prelude::*;
use std::collections::HashSet;
use crate::dag;
use crate::dag::{DagNode, DependencyDag};
use crate::order;
use crate::order::{insert_ascending, sort_dedup, Ordered};
use crate::relation::SourceRef;
use crate::remap;
use crate::ssa;
use crate::ssa::{SsaStore, Version};
use crate::summary;
use crate::summary::find_binding;

verus! {

/// Node `node` of a graph depends on the external value `key`.
pub open spec fn dag_reads(dag: DependencyDag, node: int, key: u64) -> bool
    decreases node,
{
    0 <= node < dag.nodes@.len() && (dag.nodes@[node] == DagNode::External(key) || exists|e: int|
        0 <= e < dag.edges@.len() && (#[trigger] dag.edges@[e]).destination == node
            && dag.edges@[e].source < node && dag_reads(dag, dag.edges@[e].source as int, key))
}

/// One of the nodes depends on `key`.
spec fn some_dag_reads(dag: DependencyDag, pending: Seq<usize>, key: u64) -> bool {
    exists|n: usize| #[trigger] pending.contains(n) && dag_reads(dag, n as int, key)
}

/// The external keys that a root of a graph depends on, ascending.
pub fn dependency_dag_external_keys(dag: &DependencyDag, root: Option<usize>) -> (r: Vec<u64>)
    requires
        dag.wf(),
        dag.forward(),
        root matches Some(n) ==> n < dag.nodes@.len(),
    ensures
        order::strictly_sorted(r@),
        forall|key: u64| #[trigger]
            r@.contains(key) <==> root is Some && dag_reads(*dag, root->0 as int, key),
{
    let mut keys: Vec<u64> = Vec::new();
    let start: usize = match root {
        None => {
            return keys;
        },
        Some(n) => n,
    };
    let mut pending: Vec<usize> = Vec::new();
    pending.push(start);
    let ghost mut limit: int = start + 1;
    proof {
        assert forall|key: u64| dag_reads(*dag, start as int, key) <==> some_dag_reads(*dag, pending@, key) by {
            assert(pending@.contains(pending@[0]));
        }
    }
    while pending.len() > 0
        invariant
            dag.wf(),
            dag.forward(),
            start < dag.nodes@.len(),
            order::strictly_sorted(pending@),
            forall|i: int| 0 <= i < pending@.len() ==> (#[trigger] pending@[i]) < limit && pending@[i] < dag.nodes@.len(),
            forall|key: u64| #[trigger]
                dag_reads(*dag, start as int, key) <==> keys@.contains(key) || some_dag_reads(
                    *dag,
                    pending@,
                    key,
                ),
            limit >= 0,
        decreases limit,
    {
        let ghost pending0 = pending@;
        let ghost keys0 = keys@;
        let node: usize = match pending.pop() {
            Some(n) => n,
            None => 0,
        };
        proof {
            assert(pending0[pending0.len() - 1] == node);
            assert(node < limit);
            limit = node as int;
            assert forall|i: int| 0 <= i < pending@.len() implies (#[trigger] pending@[i]) < limit && pending@[i] < dag.nodes@.len() by {
                assert(pending0[i].lt(pending0[pending0.len() - 1]));
            }
            assert forall|n: usize| #[trigger] pending0.contains(n) <==> pending@.contains(n) || n == node by {
                assert(pending0 =~= pending@.push(node));
                remap::lemma_contains_push(pending@, node, n);
            }
        }
        if let DagNode::External(key) = dag.nodes[node] {
            keys.push(key);
            proof {
                assert forall|k: u64| #[trigger] keys@.contains(k) <==> keys0.contains(k) || k == key by {
                    remap::lemma_contains_push(keys0, key, k);
                }
            }
        }
        let ghost rest = pending@;
        let row = &dag.incoming[node];
        let mut j: usize = 0;
        while j < row.len()
            invariant
                j <= row.len(),
                dag.wf(),
                dag.forward(),
                node < dag.nodes@.len(),
                limit == node,
                *row == dag.incoming@[node as int],
                dag::leads_to(dag.edges@, node as int, dag.edges@.len() as int, row@),
                order::strictly_sorted(pending@),
                forall|i: int| 0 <= i < pending@.len() ==> (#[trigger] pending@[i]) < limit && pending@[i] < dag.nodes@.len(),
                forall|n: usize| #[trigger]
                    pending@.contains(n) <==> rest.contains(n) || exists|m: int|
                        0 <= m < j && (#[trigger] row@[m]) < dag.edges@.len() && dag.edges@[row@[m] as int].source == n && n < node,
            decreases row.len() - j,
        {
            assert(row@[j as int] < dag.edges@.len());
            let ghost before = pending@;
            let source: usize = dag.edges[row[j]].source;
            if source < node {
                insert_ascending(&mut pending, source);
                proof {
                    assert forall|i: int| 0 <= i < pending@.len() implies (#[trigger] pending@[i]) < limit && pending@[i] < dag.nodes@.len() by {
                        assert(pending@.contains(pending@[i]));
                        if before.contains(pending@[i]) {
                            let k = choose|k: int| 0 <= k < before.len() && before[k] == pending@[i];
                            assert(before[k] < limit);
                        }
                    }
                }
            }
            j = j + 1;
        }
        proof {
            assert forall|key: u64| #[trigger] dag_reads(*dag, start as int, key) <==> keys@.contains(key) || some_dag_reads(*dag, pending@, key) by {
                if some_dag_reads(*dag, pending0, key) {
                    let n = choose|n: usize| #[trigger] pending0.contains(n) && dag_reads(*dag, n as int, key);
                    if n != node {
                        assert(rest.contains(n));
                        assert(pending@.contains(n));
                    } else if dag.nodes@[node as int] != DagNode::External(key) {
                        let e = choose|e: int| 0 <= e < dag.edges@.len() && (#[trigger] dag.edges@[e]).destination == node
                            && dag.edges@[e].source < node && dag_reads(*dag, dag.edges@[e].source as int, key);
                        assert(row@.contains(e as usize));
                        let m = choose|m: int| 0 <= m < row@.len() && row@[m] == e as usize;
                        dag::lemma_edge_index(dag.edges, e);
                        assert(row@[m] < dag.edges@.len() && dag.edges@[row@[m] as int].source == dag.edges@[e].source);
                        assert(pending@.contains(dag.edges@[e].source));
                    }
                }
                if some_dag_reads(*dag, pending@, key) {
                    let n = choose|n: usize| #[trigger] pending@.contains(n) && dag_reads(*dag, n as int, key);
                    if rest.contains(n) {
                        assert(pending0.contains(n));
                    } else {
                        let m = choose|m: int| 0 <= m < row@.len() && (#[trigger] row@[m]) < dag.edges@.len() && dag.edges@[row@[m] as int].source == n && n < node;
                        assert(dag.edges@[row@[m] as int].destination == node);
                        assert(dag_reads(*dag, node as int, key));
                        assert(pending0.contains(node));
                    }
                }
                if keys@.contains(key) && !keys0.contains(key) {
                    assert(dag_reads(*dag, node as int, key));
                    assert(pending0.contains(node));
                }
            }
        }
    }
    let r = sort_dedup(&keys);
    proof {
        assert forall|key: u64| #[trigger] r@.contains(key) <==> dag_reads(*dag, start as int, key) by {
            assert(r@.contains(key) <==> keys@.contains(key));
            assert(!some_dag_reads(*dag, pending@, key));
        }
    }
    r
}

/// Version `version` reads `source` directly.
pub open spec fn feeds(store: SsaStore, version: int, source: usize) -> bool {
    match store.versions@[version] {
        Version::Entry(_) => false,
        Version::Definition { sources, .. } => exists|s: SourceRef| #[trigger]
            sources@.contains(s) && s.version == source,
        Version::Phi(inputs) => inputs@.contains(source),
        Version::Projected { source: s, .. } => s == source,
        Version::Repeated { source: s, .. } => s == source,
        Version::Imported { import, root } => root is Some && exists|key: u64, s: SourceRef| #[trigger]
            summary::binds_source(store.imports@[import as int].bindings@, key, s) && s.version
                == source && dag_reads(
                store.graphs@[store.imports@[import as int].graph as int],
                root->0 as int,
                key,
            ),
    }
}

fn push_versions(out: &mut Vec<usize>, sources: &Vec<SourceRef>)
    ensures
        forall|x: usize| #[trigger]
            final(out)@.contains(x) <==> old(out)@.contains(x) || exists|s: SourceRef| #[trigger]
                sources@.contains(s) && s.version == x,
{
    let ghost start = out@;
    let mut i: usize = 0;
    while i < sources.len()
        invariant
            i <= sources.len(),
            forall|x: usize| #[trigger]
                out@.contains(x) <==> start.contains(x) || exists|k: int|
                    0 <= k < i && (#[trigger] sources@[k]).version == x,
        decreases sources.len() - i,
    {
        let ghost before = out@;
        let added: usize = sources[i].version;
        out.push(added);
        proof {
            assert forall|x: usize| #[trigger] out@.contains(x) <==> start.contains(x) || exists|k: int|
                0 <= k < i + 1 && (#[trigger] sources@[k]).version == x by {
                remap::lemma_contains_push(before, added, x);
                if x == added {
                    assert(sources@[i as int].version == x);
                }
            }
        }
        i = i + 1;
    }
    proof {
        assert forall|x: usize| #[trigger] out@.contains(x) <==> start.contains(x) || exists|s: SourceRef| #[trigger]
            sources@.contains(s) && s.version == x by {
            if exists|k: int| 0 <= k < sources@.len() && (#[trigger] sources@[k]).version == x {
                let k = choose|k: int| 0 <= k < sources@.len() && (#[trigger] sources@[k]).version == x;
                assert(sources@.contains(sources@[k]));
            }
            if exists|s: SourceRef| #[trigger] sources@.contains(s) && s.version == x {
                let s = choose|s: SourceRef| #[trigger] sources@.contains(s) && s.version == x;
                let k = choose|k: int| 0 <= k < sources@.len() && sources@[k] == s;
                assert(sources@[k].version == x);
            }
        }
    }
}

impl SsaStore {
    /// The versions that `version` reads directly.
    fn direct_sources(&self, version: usize) -> (r: Vec<usize>)
        requires
            self.wf(),
            version < self.versions@.len(),
        ensures
            forall|x: usize| #[trigger] r@.contains(x) <==> feeds(*self, version as int, x),
            forall|i: int| 0 <= i < r@.len() ==> (#[trigger] r@[i]) < version,
    {
        let mut out: Vec<usize> = Vec::new();
        proof {
            assert(self.versions@[version as int].wf(version as int, self.graphs@, self.imports@));
        }
        match &self.versions[version] {
            Version::Entry(_) => {},
            Version::Definition { sources, .. } => {
                push_versions(&mut out, sources);
            },
            Version::Phi(inputs) => {
                let mut i: usize = 0;
                while i < inputs.len()
                    invariant
                        i <= inputs.len(),
                        out@ == inputs@.take(i as int),
                    decreases inputs.len() - i,
                {
                    out.push(inputs[i]);
                    assert(inputs@.take(i as int + 1) =~= inputs@.take(i as int).push(inputs@[i as int]));
                    i = i + 1;
                }
                assert(inputs@.take(i as int) =~= inputs@);
            },
            Version::Projected { source, .. } => {
                out.push(*source);
                assert(out@[0] == *source);
            },
            Version::Repeated { source, .. } => {
                out.push(*source);
                assert(out@[0] == *source);
            },
            Version::Imported { import, root } => {
                let ghost imported = self.imports@[*import as int];
                let ghost graph = self.graphs@[imported.graph as int];
                assert(imported.wf(self.graphs@));
                let keys = dependency_dag_external_keys(
                    &self.graphs[self.imports[*import].graph],
                    *root,
                );
                let mut i: usize = 0;
                while i < keys.len()
                    invariant
                        i <= keys.len(),
                        *import < self.imports@.len(),
                        imported == self.imports@[*import as int],
                        imported.wf(self.graphs@),
                        forall|x: usize| #[trigger]
                            out@.contains(x) <==> exists|k: int, s: SourceRef|
                                0 <= k < i && #[trigger] summary::binds_source(
                                    imported.bindings@,
                                    keys@[k],
                                    s,
                                ) && s.version == x,
                    decreases keys.len() - i,
                {
                    let key: u64 = keys[i];
                    let ghost before = out@;
                    let ghost mut bound: Seq<SourceRef> = Seq::empty();
                    if let Some(place) = find_binding(&self.imports[*import].bindings, key) {
                        push_versions(&mut out, &self.imports[*import].bindings[place].sources);
                        proof {
                            bound = imported.bindings@[place as int].sources@;
                            assert forall|s: SourceRef| #[trigger] summary::binds_source(imported.bindings@, key, s) <==> bound.contains(s) by {
                                if summary::binds_source(imported.bindings@, key, s) {
                                    let b = choose|b: int| 0 <= b < imported.bindings@.len() && (#[trigger] imported.bindings@[b]).key == key && imported.bindings@[b].sources@.contains(s);
                                    if b < place {
                                        assert(imported.bindings@[b].key < imported.bindings@[place as int].key);
                                    } else if place < b {
                                        assert(imported.bindings@[place as int].key < imported.bindings@[b].key);
                                    }
                                }
                            }
                        }
                    }
                    proof {
                        assert forall|s: SourceRef| #[trigger] summary::binds_source(imported.bindings@, key, s) <==> bound.contains(s) by {}
                        assert forall|x: usize| #[trigger] out@.contains(x) <==> exists|k: int, s: SourceRef|
                            0 <= k < i + 1 && #[trigger] summary::binds_source(imported.bindings@, keys@[k], s) && s.version == x by {
                            if out@.contains(x) {
                                if before.contains(x) {
                                    let (k, s) = choose|k: int, s: SourceRef| 0 <= k < i && #[trigger] summary::binds_source(imported.bindings@, keys@[k], s) && s.version == x;
                                    assert(summary::binds_source(imported.bindings@, keys@[k], s));
                                } else {
                                    let s = choose|s: SourceRef| #[trigger] bound.contains(s) && s.version == x;
                                    assert(summary::binds_source(imported.bindings@, keys@[i as int], s));
                                }
                            }
                            if exists|k: int, s: SourceRef| 0 <= k < i + 1 && #[trigger] summary::binds_source(imported.bindings@, keys@[k], s) && s.version == x {
                                let (k, s) = choose|k: int, s: SourceRef| 0 <= k < i + 1 && #[trigger] summary::binds_source(imported.bindings@, keys@[k], s) && s.version == x;
                                if k < i {
                                    assert(before.contains(x));
                                } else {
                                    assert(summary::binds_source(imported.bindings@, key, s));
                                    assert(bound.contains(s));
                                }
                            }
                        }
                    }
                    i = i + 1;
                }
                proof {
                    assert forall|x: usize| #[trigger] out@.contains(x) <==> feeds(*self, version as int, x) by {
                        if out@.contains(x) {
                            let (k, s) = choose|k: int, s: SourceRef| 0 <= k < keys@.len() && #[trigger] summary::binds_source(imported.bindings@, keys@[k], s) && s.version == x;
                            assert(keys@.contains(keys@[k]));
                            assert(summary::binds_source(imported.bindings@, keys@[k], s));
                        }
                        if feeds(*self, version as int, x) {
                            let (key, s) = choose|key: u64, s: SourceRef| #[trigger] summary::binds_source(imported.bindings@, key, s) && s.version == x && dag_reads(graph, root->0 as int, key);
                            assert(keys@.contains(key));
                            let k = choose|k: int| 0 <= k < keys@.len() && keys@[k] == key;
                            assert(summary::binds_source(imported.bindings@, keys@[k], s));
                        }
                    }
                }
            },
        }
        proof {
            assert forall|i: int| 0 <= i < out@.len() implies (#[trigger] out@[i]) < version by {
                assert(out@.contains(out@[i]));
                lemma_feeds_below(*self, version as int, out@[i]);
            }
        }
        out
    }
}

/// A version reads only earlier ones.
pub proof fn lemma_feeds_below(store: SsaStore, version: int, source: usize)
    requires
        store.wf(),
        0 <= version < store.versions@.len(),
        feeds(store, version, source),
    ensures
        source < version,
{
    assert(store.versions@[version].wf(version, store.graphs@, store.imports@));
    match store.versions@[version] {
        Version::Definition { sources, .. } => {
            let s = choose|s: SourceRef| #[trigger] sources@.contains(s) && s.version == source;
            let i = choose|i: int| 0 <= i < sources@.len() && sources@[i] == s;
            assert(sources@[i].version < version);
        },
        Version::Phi(inputs) => {
            let i = choose|i: int| 0 <= i < inputs@.len() && inputs@[i] == source;
            assert(inputs@[i] < version);
        },
        Version::Imported { import, root } => {
            let imported = store.imports@[import as int];
            let (key, s) = choose|key: u64, s: SourceRef| #[trigger]
                summary::binds_source(imported.bindings@, key, s) && s.version == source && dag_reads(
                    store.graphs@[imported.graph as int],
                    root->0 as int,
                    key,
                );
            let b = choose|b: int|
                0 <= b < imported.bindings@.len() && (#[trigger] imported.bindings@[b]).key == key
                    && imported.bindings@[b].sources@.contains(s);
            assert(ssa::sources_before(imported.bindings@[b].sources@, version));
            let i = choose|i: int|
                0 <= i < imported.bindings@[b].sources@.len() && imported.bindings@[b].sources@[i]
                    == s;
            assert(imported.bindings@[b].sources@[i].version < version);
        },
        _ => {},
    }
}

/// A version that an iteration takes as given.
pub open spec fn is_input(store: SsaStore, start: int, version: int) -> bool {
    version < start || store.versions@[version] is Entry
}

/// `input` is an iteration input on which `version` depends.
pub open spec fn iteration_input(store: SsaStore, start: int, version: int, input: usize) -> bool
    decreases version,
{
    if !(0 <= version < store.versions@.len()) {
        false
    } else if is_input(store, start, version) {
        input == version
    } else {
        exists|u: usize| #[trigger]
            feeds(store, version, u) && u < version && iteration_input(
                store,
                start,
                u as int,
                input,
            )
    }
}

spec fn some_iteration_input(store: SsaStore, start: int, pending: Seq<usize>, input: usize) -> bool {
    exists|n: usize| #[trigger] pending.contains(n) && iteration_input(store, start, n as int, input)
}

impl SsaStore {
    /// The iteration inputs on which `version` depends, ascending.
    pub fn iteration_input_versions(&self, version: usize, version_start: usize) -> (r: Vec<usize>)
        requires
            self.wf(),
            version < self.versions@.len(),
        ensures
            order::strictly_sorted(r@),
            forall|x: usize| #[trigger]
                r@.contains(x) <==> iteration_input(
                    *self,
                    version_start as int,
                    version as int,
                    x,
                ),
            forall|i: int| 0 <= i < r@.len() ==> (#[trigger] r@[i]) <= version,
    {
        let ghost start = version_start as int;
        let mut found: Vec<usize> = Vec::new();
        let mut pending: Vec<usize> = Vec::new();
        pending.push(version);
        let ghost mut limit: int = version + 1;
        proof {
            assert forall|x: usize| iteration_input(*self, start, version as int, x) <==> some_iteration_input(*self, start, pending@, x) by {
                assert(pending@.contains(pending@[0]));
            }
        }
        while pending.len() > 0
            invariant
                self.wf(),
                version < self.versions@.len(),
                start == version_start,
                order::strictly_sorted(pending@),
                forall|i: int|
                    0 <= i < pending@.len() ==> (#[trigger] pending@[i]) < limit && pending@[i]
                        <= version,
                forall|i: int| 0 <= i < found@.len() ==> (#[trigger] found@[i]) <= version,
                forall|x: usize| #[trigger]
                    iteration_input(*self, start, version as int, x) <==> found@.contains(x)
                        || some_iteration_input(*self, start, pending@, x),
                limit >= 0,
            decreases limit,
        {
            let ghost pending0 = pending@;
            let ghost found0 = found@;
            let current: usize = match pending.pop() {
                Some(n) => n,
                None => 0,
            };
            proof {
                assert(pending0[pending0.len() - 1] == current);
                assert(current < limit);
                limit = current as int;
                assert forall|i: int| 0 <= i < pending@.len() implies (#[trigger] pending@[i]) < limit && pending@[i] <= version by {
                    assert(pending0[i].lt(pending0[pending0.len() - 1]));
                }
                assert forall|n: usize| #[trigger] pending0.contains(n) <==> pending@.contains(n) || n == current by {
                    assert(pending0 =~= pending@.push(current));
                    remap::lemma_contains_push(pending@, current, n);
                }
            }
            let ghost rest = pending@;
            let given = current < version_start || matches!(self.versions[current], Version::Entry(_));
            if given {
                found.push(current);
                proof {
                    assert forall|x: usize| #[trigger] found@.contains(x) <==> found0.contains(x) || x == current by {
                        remap::lemma_contains_push(found0, current, x);
                    }
                    assert forall|x: usize| #[trigger] iteration_input(*self, start, version as int, x) <==> found@.contains(x)
                        || some_iteration_input(*self, start, pending@, x) by {
                        if some_iteration_input(*self, start, pending0, x) {
                            let n = choose|n: usize| #[trigger] pending0.contains(n) && iteration_input(*self, start, n as int, x);
                            if n != current {
                                assert(pending@.contains(n));
                            }
                        }
                        if some_iteration_input(*self, start, pending@, x) {
                            let n = choose|n: usize| #[trigger] pending@.contains(n) && iteration_input(*self, start, n as int, x);
                            assert(pending0.contains(n));
                        }
                        if x == current {
                            assert(iteration_input(*self, start, current as int, x));
                            assert(pending0.contains(current));
                        }
                    }
                }
            } else {
                let sources = self.direct_sources(current);
                let mut j: usize = 0;
                while j < sources.len()
                    invariant
                        j <= sources.len(),
                        limit == current,
                        current <= version,
                        order::strictly_sorted(pending@),
                        forall|i: int| 0 <= i < sources@.len() ==> (#[trigger] sources@[i]) < current,
                        forall|i: int|
                            0 <= i < pending@.len() ==> (#[trigger] pending@[i]) < limit
                                && pending@[i] <= version,
                        forall|n: usize| #[trigger]
                            pending@.contains(n) <==> rest.contains(n) || exists|m: int|
                                0 <= m < j && #[trigger] sources@[m] == n,
                    decreases sources.len() - j,
                {
                    let ghost before = pending@;
                    assert(sources@[j as int] < current);
                    insert_ascending(&mut pending, sources[j]);
                    proof {
                        assert forall|i: int| 0 <= i < pending@.len() implies (#[trigger] pending@[i]) < limit && pending@[i] <= version by {
                            assert(pending@.contains(pending@[i]));
                            if before.contains(pending@[i]) {
                                let k = choose|k: int| 0 <= k < before.len() && before[k] == pending@[i];
                                assert(before[k] < limit);
                            }
                        }
                    }
                    j = j + 1;
                }
                proof {
                    assert forall|x: usize| #[trigger] iteration_input(*self, start, version as int, x) <==> found@.contains(x)
                        || some_iteration_input(*self, start, pending@, x) by {
                        if some_iteration_input(*self, start, pending0, x) {
                            let n = choose|n: usize| #[trigger] pending0.contains(n) && iteration_input(*self, start, n as int, x);
                            if n != current {
                                assert(rest.contains(n));
                                assert(pending@.contains(n));
                            } else {
                                let u = choose|u: usize| #[trigger] feeds(*self, current as int, u) && u < current && iteration_input(*self, start, u as int, x);
                                assert(sources@.contains(u));
                                assert(pending@.contains(u));
                            }
                        }
                        if some_iteration_input(*self, start, pending@, x) {
                            let n = choose|n: usize| #[trigger] pending@.contains(n) && iteration_input(*self, start, n as int, x);
                            if rest.contains(n) {
                                assert(pending0.contains(n));
                            } else {
                                let m = choose|m: int| 0 <= m < sources@.len() && #[trigger] sources@[m] == n;
                                assert(sources@.contains(n));
                                assert(feeds(*self, current as int, n));
                                assert(iteration_input(*self, start, current as int, x));
                                assert(pending0.contains(current));
                            }
                        }
                    }
                }
            }
        }
        let r = sort_dedup(&found);
        proof {
            assert forall|x: usize| #[trigger] r@.contains(x) <==> iteration_input(*self, start, version as int, x) by {
                assert(r@.contains(x) <==> found@.contains(x));
                assert(!some_iteration_input(*self, start, pending@, x));
            }
            assert forall|i: int| 0 <= i < r@.len() implies (#[trigger] r@[i]) <= version by {
                assert(r@.contains(r@[i]));
                assert(found@.contains(r@[i]));
                let k = choose|k: int| 0 <= k < found@.len() && found@[k] == r@[i];
                assert(found@[k] <= version);
            }
        }
        r
    }
}

/// What a version may be replaced by after one more iteration.
pub struct Successors {
    pub version: usize,
    pub next: Vec<usize>,
}

/// One iteration can lead from `from` to `to`.
pub open spec fn leads(successors: Seq<Successors>, from: usize, to: usize) -> bool {
    exists|i: int|
        0 <= i < successors.len() && (#[trigger] successors[i]).version == from
            && successors[i].next@.contains(to)
}

/// `to` follows from a member of `direct` by `n` further iterations.
pub open spec fn leads_in(
    successors: Seq<Successors>,
    direct: Seq<usize>,
    to: usize,
    n: nat,
) -> bool
    decreases n,
{
    if n == 0 {
        direct.contains(to)
    } else {
        exists|from: usize| #[trigger]
            leads(successors, from, to) && leads_in(successors, direct, from, (n - 1) as nat)
    }
}

/// `to` follows from a member of `direct` by any number of further iterations.
pub open spec fn leads_on(successors: Seq<Successors>, direct: Seq<usize>, to: usize) -> bool {
    exists|n: nat| #[trigger] leads_in(successors, direct, to, n)
}

/// Everything that follows from `direct` by repeating the transfer.
pub fn reachable_versions(direct: &Vec<usize>, successors: &Vec<Successors>, limit: usize) -> (r: Vec<
    usize,
>)
    requires
        forall|i: int| 0 <= i < direct@.len() ==> (#[trigger] direct@[i]) < limit,
        forall|i: int, k: int|
            0 <= i < successors@.len() && 0 <= k < successors@[i].next@.len() ==> (
            #[trigger] successors@[i].next@[k]) < limit,
    ensures
        order::strictly_sorted(r@),
        forall|x: usize| #[trigger] r@.contains(x) <==> leads_on(successors@, direct@, x),
        forall|i: int| 0 <= i < r@.len() ==> (#[trigger] r@[i]) < limit,
{
    let mut work: Vec<usize> = Vec::new();
    let mut seen: HashSet<usize> = HashSet::new();
    let mut i: usize = 0;
    while i < direct.len()
        invariant
            i <= direct.len(),
            forall|k: int| 0 <= k < direct@.len() ==> (#[trigger] direct@[k]) < limit,
            explored(work@, seen@, limit as int),
            forall|k: int| 0 <= k < work@.len() ==> direct@.contains(#[trigger] work@[k]),
            forall|k: int| 0 <= k < i ==> seen@.contains(#[trigger] direct@[k]),
        decreases direct.len() - i,
    {
        let x: usize = direct[i];
        assert(direct@[i as int] < limit);
        let ghost work0 = work@;
        discover(&mut work, &mut seen, x, Ghost(limit as int));
        proof {
            assert forall|k: int| 0 <= k < work@.len() implies direct@.contains(#[trigger] work@[k]) by {
                if k < work0.len() {
                    assert(work@[k] == work0[k]);
                } else {
                    assert(direct@[i as int] == work@[k]);
                }
            }
        }
        i = i + 1;
    }
    proof {
        assert forall|k: int| 0 <= k < work@.len() implies leads_on(successors@, direct@, #[trigger] work@[k]) by {
            assert(leads_in(successors@, direct@, work@[k], 0));
        }
    }
    let mut next: usize = 0;
    while next < work.len()
        invariant
            next <= work.len(),
            forall|i: int, k: int|
                0 <= i < successors@.len() && 0 <= k < successors@[i].next@.len() ==> (
                #[trigger] successors@[i].next@[k]) < limit,
            explored(work@, seen@, limit as int),
            forall|k: int| 0 <= k < direct@.len() ==> seen@.contains(#[trigger] direct@[k]),
            forall|k: int| 0 <= k < work@.len() ==> leads_on(successors@, direct@, #[trigger] work@[k]),
            forall|k: int, to: usize|
                0 <= k < next && #[trigger] leads(successors@, work@[k], to) ==> seen@.contains(to),
        decreases limit - next,
    {
        let current: usize = work[next];
        proof {
            order::distinct_below(work@, limit as nat);
            assert(leads_on(successors@, direct@, work@[next as int]));
        }
        let ghost steps = choose|n: nat| #[trigger] leads_in(successors@, direct@, current, n);
        let mut s: usize = 0;
        while s < successors.len()
            invariant
                s <= successors.len(),
                next < work@.len(),
                work@[next as int] == current,
                forall|i: int, k: int|
                    0 <= i < successors@.len() && 0 <= k < successors@[i].next@.len() ==> (
                    #[trigger] successors@[i].next@[k]) < limit,
                explored(work@, seen@, limit as int),
                forall|k: int| 0 <= k < direct@.len() ==> seen@.contains(#[trigger] direct@[k]),
                forall|k: int| 0 <= k < work@.len() ==> leads_on(successors@, direct@, #[trigger] work@[k]),
                leads_in(successors@, direct@, current, steps),
                forall|k: int, to: usize|
                    0 <= k < next && #[trigger] leads(successors@, work@[k], to) ==> seen@.contains(to),
                forall|i: int, to: usize|
                    0 <= i < s && successors@[i].version == current && #[trigger] successors@[i].next@.contains(to)
                        ==> seen@.contains(to),
            decreases successors.len() - s,
        {
            if successors[s].version == current {
                let row = &successors[s].next;
                let mut k: usize = 0;
                while k < row.len()
                    invariant
                        k <= row.len(),
                        s < successors@.len(),
                        *row == successors@[s as int].next,
                        successors@[s as int].version == current,
                        next < work@.len(),
                        work@[next as int] == current,
                        forall|i: int, k: int|
                            0 <= i < successors@.len() && 0 <= k < successors@[i].next@.len() ==> (
                            #[trigger] successors@[i].next@[k]) < limit,
                        explored(work@, seen@, limit as int),
                        forall|k: int| 0 <= k < direct@.len() ==> seen@.contains(#[trigger] direct@[k]),
                        forall|k: int| 0 <= k < work@.len() ==> leads_on(successors@, direct@, #[trigger] work@[k]),
                        leads_in(successors@, direct@, current, steps),
                        forall|k: int, to: usize|
                            0 <= k < next && #[trigger] leads(successors@, work@[k], to) ==> seen@.contains(to),
                        forall|i: int, to: usize|
                            0 <= i < s && successors@[i].version == current && #[trigger] successors@[i].next@.contains(to)
                                ==> seen@.contains(to),
                        forall|m: int| 0 <= m < k ==> seen@.contains(#[trigger] row@[m]),
                    decreases row.len() - k,
                {
                    let to: usize = row[k];
                    let ghost work0 = work@;
                    let ghost seen0 = seen@;
                    assert(successors@[s as int].next@[k as int] < limit);
                    discover(&mut work, &mut seen, to, Ghost(limit as int));
                    proof {
                        assert(row@.contains(to)) by {
                            assert(row@[k as int] == to);
                        }
                        assert(leads(successors@, current, to));
                        assert(leads_in(successors@, direct@, to, steps + 1)) by {
                            assert((steps + 1 - 1) as nat == steps);
                        }
                        assert forall|m: int, y: usize| 0 <= m < next && #[trigger] leads(successors@, work@[m], y) implies seen@.contains(y) by {
                            assert(work@[m] == work0[m]);
                            assert(leads(successors@, work0[m], y));
                        }
                        assert forall|m: int| 0 <= m < work@.len() implies leads_on(successors@, direct@, #[trigger] work@[m]) by {
                            if m < work0.len() {
                                assert(work@[m] == work0[m]);
                            } else {
                                assert(work@[m] == to);
                            }
                        }
                    }
                    k = k + 1;
                }
            }
            proof {
                assert forall|i: int, to: usize| 0 <= i < s + 1 && successors@[i].version == current && #[trigger] successors@[i].next@.contains(to) implies seen@.contains(to) by {
                    if i == s {
                        let m = choose|m: int| 0 <= m < successors@[i].next@.len() && successors@[i].next@[m] == to;
                        assert(seen@.contains(successors@[i].next@[m]));
                    }
                }
            }
            s = s + 1;
        }
        proof {
            assert forall|k: int, to: usize| 0 <= k < next + 1 && #[trigger] leads(successors@, work@[k], to) implies seen@.contains(to) by {
                if k == next {
                    let i = choose|i: int| 0 <= i < successors@.len() && (#[trigger] successors@[i]).version == current && successors@[i].next@.contains(to);
                    assert(successors@[i].next@.contains(to));
                }
            }
            order::distinct_below(work@, limit as nat);
        }
        next = next + 1;
    }
    let r = sort_dedup(&work);
    proof {
        assert forall|x: usize| #[trigger] r@.contains(x) <==> leads_on(successors@, direct@, x) by {
            assert(r@.contains(x) <==> work@.contains(x));
            if work@.contains(x) {
                let k = choose|k: int| 0 <= k < work@.len() && work@[k] == x;
                assert(leads_on(successors@, direct@, work@[k]));
            }
            if leads_on(successors@, direct@, x) {
                let n = choose|n: nat| #[trigger] leads_in(successors@, direct@, x, n);
                lemma_closed(successors@, direct@, work@, seen@, x, n);
                assert(seen@.contains(x));
                assert(work@.contains(x));
            }
        }
        assert forall|i: int| 0 <= i < r@.len() implies (#[trigger] r@[i]) < limit by {
            assert(r@.contains(r@[i]));
            assert(work@.contains(r@[i]));
            let k = choose|k: int| 0 <= k < work@.len() && work@[k] == r@[i];
            assert(work@[k] < limit);
        }
    }
    r
}

/// The list holds what has been seen, each once.
spec fn explored(work: Seq<usize>, seen: Set<usize>, limit: int) -> bool {
    &&& forall|i: int, j: int| 0 <= i < j < work.len() ==> work[i] != work[j]
    &&& forall|i: int| 0 <= i < work.len() ==> (#[trigger] work[i]) < limit
    &&& forall|x: usize| #[trigger] seen.contains(x) <==> work.contains(x)
}

/// Lists `x` unless it has been seen.
fn discover(work: &mut Vec<usize>, seen: &mut HashSet<usize>, x: usize, Ghost(limit): Ghost<int>)
    requires
        explored(old(work)@, old(seen)@, limit),
        x < limit,
    ensures
        explored(final(work)@, final(seen)@, limit),
        final(seen)@ == old(seen)@.insert(x),
        final(work)@.len() >= old(work)@.len(),
        forall|k: int| 0 <= k < old(work)@.len() ==> final(work)@[k] == #[trigger] old(work)@[k],
        forall|k: int| old(work)@.len() <= k < final(work)@.len() ==> #[trigger] final(work)@[k] == x,
{
    if seen.contains(&x) {
        assert(seen@ =~= seen@.insert(x));
        return;
    }
    let ghost before = work@;
    seen.insert(x);
    work.push(x);
    proof {
        assert forall|y: usize| #[trigger] seen@.contains(y) <==> work@.contains(y) by {
            remap::lemma_contains_push(before, x, y);
        }
        assert forall|i: int, j: int| 0 <= i < j < work@.len() implies work@[i] != work@[j] by {
            if j == before.len() {
                assert(before.contains(before[i]));
            }
        }
    }
}

/// A closed set that holds `direct` holds everything that follows from it.
proof fn lemma_closed(
    successors: Seq<Successors>,
    direct: Seq<usize>,
    work: Seq<usize>,
    seen: Set<usize>,
    x: usize,
    n: nat,
)
    requires
        forall|k: int| 0 <= k < direct.len() ==> seen.contains(#[trigger] direct[k]),
        forall|y: usize| #[trigger] seen.contains(y) <==> work.contains(y),
        forall|k: int, to: usize|
            0 <= k < work.len() && #[trigger] leads(successors, work[k], to) ==> seen.contains(to),
        leads_in(successors, direct, x, n),
    ensures
        seen.contains(x),
    decreases n,
{
    if n == 0 {
        let k = choose|k: int| 0 <= k < direct.len() && direct[k] == x;
        assert(seen.contains(direct[k]));
    } else {
        let from = choose|from: usize| #[trigger]
            leads(successors, from, x) && leads_in(successors, direct, from, (n - 1) as nat);
        lemma_closed(successors, direct, work, seen, from, (n - 1) as nat);
        let k = choose|k: int| 0 <= k < work.len() && work[k] == from;
        assert(leads(successors, work[k], x));
    }
}

} // verus!
