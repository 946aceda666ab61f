//! Summaries of functions, and the dependencies of a procedure.
use vstd::prelude::*;
use std::collections::HashSet;
use crate::arena;
use crate::arena::{PathArena, PathCondition, PathNode};
use crate::assign::SummaryWrite;
use crate::calls;
use crate::calls::{current_region_groups, ResultGroup, ResultRegion};
use crate::dag::{DagNode, DependencyDag};
use crate::layout::RegionGroup;
use crate::lower;
use crate::order;
use crate::order::sort_dedup;
use crate::partition::{BitPartition, NodeKey};
use crate::path::BranchId;
use crate::realize;
use crate::remap;
use crate::relation::PositionRelation;
use crate::results;
use crate::sources::Source;
use crate::summary;
use crate::ssa;
use crate::ssa::{SsaStore, Version};
use crate::writes;

verus! {

/// The keys with an entry that can be seen from outside.
pub open spec fn is_visible(visible: Seq<bool>, key: u64) -> bool {
    key < visible.len() && visible[key as int]
}

/// The keys that a graph may read from outside: those that were read before they were written.
pub open spec fn are_entries(store: SsaStore, visible: Seq<bool>, allowed: Set<u64>) -> bool {
    forall|key: u64| #[trigger] allowed.contains(key) <==> store.entries@.contains_key(key) && is_visible(visible, key)
}

/// The keys with an entry that can be seen from outside.
pub fn visible_entries(store: &SsaStore, visible: &Vec<bool>) -> (r: HashSet<u64>)
    requires
        store.wf(),
    ensures
        are_entries(*store, visible@, r@),
{
    broadcast use vstd::std_specs::hash::group_hash_axioms;

    let mut r: HashSet<u64> = HashSet::new();
    let mut i: usize = 0;
    while i < store.versions.len()
        invariant
            i <= store.versions@.len(),
            store.wf(),
            forall|key: u64| #[trigger] r@.contains(key) <==> store.entries@.contains_key(key) && store.entries@[key] < i && is_visible(visible@, key),
        decreases store.versions@.len() - i,
    {
        let ghost known = r@;
        match &store.versions[i] {
            Version::Entry(key) => {
                let key: u64 = *key;
                assert(store.versions@[i as int] == Version::Entry(key));
                assert(store.entries@.contains_key(key) && store.entries@[key] == i);
                let count: u64 = visible.len() as u64;
                assert(visible@.len() == visible.len());
                if key < count && visible[key as usize] {
                    r.insert(key);
                }
                assert forall|k: u64| store.entries@.contains_key(k) && #[trigger] store.entries@[k] == i implies k == key by {
                    assert(store.versions@[store.entries@[k] as int] == Version::Entry(k));
                }
            },
            _ => {
                assert forall|k: u64| #[trigger] store.entries@.contains_key(k) implies store.entries@[k] != i by {
                    assert(store.versions@[store.entries@[k] as int] == Version::Entry(k));
                }
            },
        }
        proof {
            assert forall|key: u64| #[trigger] r@.contains(key) <==> store.entries@.contains_key(key) && store.entries@[key] < i + 1 && is_visible(visible@, key) by {
                assert(known.contains(key) <==> store.entries@.contains_key(key) && store.entries@[key] < i && is_visible(visible@, key));
            }
        }
        i = i + 1;
    }
    proof {
        assert forall|key: u64| #[trigger] r@.contains(key) <==> store.entries@.contains_key(key) && is_visible(visible@, key) by {
            if store.entries@.contains_key(key) {
                assert(store.entries@[key] < store.versions@.len());
            }
        }
    }
    r
}

/// The keys in ascending order, each once.
pub open spec fn ascending_keys(keys: Seq<u64>) -> Seq<u64> {
    choose|sorted: Seq<u64>| #[trigger] order::strictly_sorted(sorted) && order::same_elements(sorted, keys)
}

/// There is one list of the keys in ascending order.
proof fn lemma_ascending(keys: Seq<u64>, sorted: Seq<u64>)
    requires
        order::strictly_sorted(sorted),
        order::same_elements(sorted, keys),
    ensures
        ascending_keys(keys) == sorted,
{
    let other = ascending_keys(keys);
    assert(order::strictly_sorted(other) && order::same_elements(other, keys));
    assert forall|key: u64| #[trigger] other.contains(key) <==> sorted.contains(key) by {
        assert(other.contains(key) <==> keys.contains(key));
        assert(sorted.contains(key) <==> keys.contains(key));
    }
    order::sorted_list_is_canonical(other, sorted);
}

pub open spec fn some_visible(visible: Seq<bool>, keys: Seq<u64>) -> Seq<u64> {
    keys.filter(|key: u64| is_visible(visible, key))
}

/// The keys that can be seen from outside, in ascending order, each once.
pub open spec fn visible_keys(visible: Seq<bool>, keys: Seq<u64>) -> Seq<u64> {
    some_visible(visible, ascending_keys(keys))
}

/// The versions are the current ones of the keys.
pub open spec fn reads_all(store: SsaStore, keys: Seq<u64>, versions: Seq<usize>) -> bool {
    versions.len() == keys.len() && forall|i: int| 0 <= i < keys.len() ==> results::is_current(store, keys[i], #[trigger] versions[i])
}

/// The current versions of the written keys that can be seen from outside.
pub fn visible_writes(store: &mut SsaStore, visible: &Vec<bool>, nodes: &Vec<NodeKey>, written: &Vec<u64>) -> (r: (Vec<u64>, Vec<usize>))
    requires
        old(store).wf(),
        visible@.len() == nodes@.len(),
        results::keys_known(*old(store), nodes@),
    ensures
        final(store).wf(),
        writes::continues(*old(store), *final(store)),
        final(store).current@ == old(store).current@,
        results::keys_known(*final(store), nodes@),
        ssa::keeps_guards(*old(store), *final(store)),
        r.0@ == visible_keys(visible@, written@),
        reads_all(*final(store), r.0@, r.1@),
        forall|i: int| 0 <= i < r.1@.len() ==> (#[trigger] r.1@[i]) < final(store).versions@.len(),
{
    let ghost before = *store;
    let sorted = sort_dedup(written);
    proof {
        lemma_ascending(written@, sorted@);
    }
    proof {
        assert(writes::continues(before, *store)) by {
            assert forall|depth: int| 0 <= depth < before.checkpoints@.len() implies #[trigger] store.saved(depth) == before.saved(depth) by {}
        }
        assert(some_visible(visible@, sorted@.take(0)) =~= Seq::empty()) by {
            reveal(Seq::filter);
        }
    }
    let mut keys: Vec<u64> = Vec::new();
    let mut versions: Vec<usize> = Vec::new();
    let mut i: usize = 0;
    while i < sorted.len()
        invariant
            i <= sorted@.len(),
            visible@.len() == nodes@.len(),
            store.wf(),
            writes::continues(before, *store),
            store.current@ == before.current@,
            results::keys_known(*store, nodes@),
            ssa::keeps_guards(before, *store),
            keys@ == some_visible(visible@, sorted@.take(i as int)),
            reads_all(*store, keys@, versions@),
            forall|k: int| 0 <= k < versions@.len() ==> (#[trigger] versions@[k]) < store.versions@.len(),
        decreases sorted@.len() - i,
    {
        let key: u64 = sorted[i];
        let ghost known = *store;
        let count: u64 = visible.len() as u64;
        proof {
            assert(visible@.len() == visible.len());
            let longer = sorted@.take(i + 1);
            assert(longer.drop_last() =~= sorted@.take(i as int));
            reveal(Seq::filter);
        }
        if key < count && visible[key as usize] {
            let version: usize = store.read(key);
            let ghost shorter = versions@;
            let ghost named = keys@;
            keys.push(key);
            versions.push(version);
            proof {
                realize::lemma_same_state(known, *store);
                writes::continues_is_transitive(before, known, *store);
                if !known.current@.contains_key(key) {
                    crate::outputs::lemma_keys_known(known, *store, nodes@, key);
                }
                assert(results::is_current(*store, key, version));
                assert forall|k: int| 0 <= k < keys@.len() implies results::is_current(*store, keys@[k], #[trigger] versions@[k]) by {
                    if k < named.len() {
                        assert(versions@[k] == shorter[k] && keys@[k] == named[k]);
                        if !known.current@.contains_key(named[k]) {
                            writes::lemma_entry_kept(known, *store, named[k]);
                        }
                    }
                }
            }
        }
        i = i + 1;
    }
    assert(sorted@.take(i as int) =~= sorted@);
    (keys, versions)
}

/// The number of regions in the first groups.
pub open spec fn regions_before(groups: Seq<RegionGroup>, count: int) -> int
    decreases count,
{
    if count <= 0 {
        0
    } else {
        regions_before(groups, count - 1) + groups[count - 1].regions@.len()
    }
}

/// The roots of a summary: the regions of the result one after the other, then what is written.
pub open spec fn lists_roots(groups: Seq<RegionGroup>, written: Seq<usize>, roots: Seq<usize>) -> bool {
    &&& roots.len() == regions_before(groups, groups.len() as int) + written.len()
    &&& forall|g: int, k: int|
        0 <= g < groups.len() && 0 <= k < groups[g].regions@.len() ==> roots[regions_before(groups, g) + k] == (#[trigger] groups[g].regions@[k]).version
    &&& roots.skip(regions_before(groups, groups.len() as int)) == written
}

/// The result of the summary names the roots of its graph.
pub open spec fn names_results(groups: Seq<RegionGroup>, roots: Seq<Option<usize>>, result: Seq<ResultGroup>) -> bool {
    &&& result.len() == groups.len()
    &&& forall|g: int|
        0 <= g < groups.len() ==> (#[trigger] result[g]).array == groups[g].array && result[g].regions@.len() == groups[g].regions@.len()
    &&& forall|g: int, k: int|
        0 <= g < groups.len() && 0 <= k < groups[g].regions@.len() ==> (#[trigger] result[g].regions@[k]) == (ResultRegion {
            packed: groups[g].regions@[k].packed,
            root: roots[regions_before(groups, g) + k],
        })
}

/// The writes of the summary name the roots of its graph.
pub open spec fn names_writes(keys: Seq<u64>, roots: Seq<Option<usize>>, start: int, list: Seq<SummaryWrite>) -> bool {
    list.len() == keys.len() && forall|i: int| 0 <= i < keys.len() ==> (#[trigger] list[i]) == (SummaryWrite { key: keys[i], root: roots[start + i] })
}

proof fn lemma_regions_before(groups: Seq<RegionGroup>, g: int, h: int)
    requires
        0 <= g <= h <= groups.len(),
    ensures
        0 <= regions_before(groups, g) <= regions_before(groups, h),
        g < h ==> regions_before(groups, g) + groups[g].regions@.len() <= regions_before(groups, h),
    decreases h,
{
    if g < h {
        lemma_regions_before(groups, g, h - 1);
        if g < h - 1 {
        }
    } else if g > 0 {
        lemma_regions_before(groups, g - 1, g - 1);
    }
}

fn collect_roots(groups: &Vec<RegionGroup>, written: &Vec<usize>, limit: usize) -> (r: Vec<usize>)
    requires
        results::result_below(groups@, limit as int),
        forall|i: int| 0 <= i < written@.len() ==> (#[trigger] written@[i]) < limit,
    ensures
        lists_roots(groups@, written@, r@),
        forall|i: int| 0 <= i < r@.len() ==> (#[trigger] r@[i]) < limit,
{
    let mut r: Vec<usize> = Vec::new();
    let mut g: usize = 0;
    while g < groups.len()
        invariant
            g <= groups@.len(),
            results::result_below(groups@, limit as int),
            r@.len() == regions_before(groups@, g as int),
            forall|h: int, k: int|
                0 <= h < g && 0 <= k < groups@[h].regions@.len() ==> r@[regions_before(groups@, h) + k] == (#[trigger] groups@[h].regions@[k]).version,
            forall|i: int| 0 <= i < r@.len() ==> (#[trigger] r@[i]) < limit,
        decreases groups@.len() - g,
    {
        let regions = &groups[g].regions;
        let ghost start = r@;
        let mut k: usize = 0;
        while k < regions.len()
            invariant
                k <= regions@.len(),
                g < groups@.len(),
                regions@ == groups@[g as int].regions@,
                results::result_below(groups@, limit as int),
                start.len() == regions_before(groups@, g as int),
                r@.len() == start.len() + k,
                forall|i: int| 0 <= i < start.len() ==> #[trigger] r@[i] == start[i],
                forall|m: int| 0 <= m < k ==> r@[start.len() + m] == (#[trigger] groups@[g as int].regions@[m]).version,
                forall|i: int| 0 <= i < r@.len() ==> (#[trigger] r@[i]) < limit,
            decreases regions@.len() - k,
        {
            assert(groups@[g as int].regions@[k as int].version < limit);
            r.push(regions[k].version);
            k = k + 1;
        }
        proof {
            assert forall|h: int, m: int| 0 <= h < g + 1 && 0 <= m < groups@[h].regions@.len() implies r@[regions_before(groups@, h) + m] == (
            #[trigger] groups@[h].regions@[m]).version by {
                if h < g {
                    lemma_regions_before(groups@, h, g as int);
                    assert(start[regions_before(groups@, h) + m] == groups@[h].regions@[m].version);
                }
            }
        }
        g = g + 1;
    }
    let ghost first = r@;
    results::append_versions(&mut r, written);
    proof {
        assert(r@.skip(first.len() as int) =~= written@);
        assert forall|h: int, k: int| 0 <= h < groups@.len() && 0 <= k < groups@[h].regions@.len() implies r@[regions_before(groups@, h) + k] == (
        #[trigger] groups@[h].regions@[k]).version by {
            lemma_regions_before(groups@, h, groups@.len() as int);
            assert(first[regions_before(groups@, h) + k] == groups@[h].regions@[k].version);
        }
        assert forall|i: int| 0 <= i < r@.len() implies (#[trigger] r@[i]) < limit by {
            if i < first.len() {
                assert(first[i] < limit);
            } else {
                assert(written@[i - first.len()] < limit);
            }
        }
    }
    r
}

/// Some node of the graph stands for the value of the key from outside.
pub open spec fn reads_external(nodes: Seq<DagNode>, key: u64) -> bool {
    exists|i: int| 0 <= i < nodes.len() && (#[trigger] nodes[i]) == DagNode::External(key)
}

/// The keys that the graph reads from outside.
pub fn external_keys(graph: &DependencyDag) -> (r: Vec<u64>)
    ensures
        order::strictly_sorted(r@),
        forall|key: u64| #[trigger] r@.contains(key) <==> reads_external(graph.nodes@, key),
{
    let mut list: Vec<u64> = Vec::new();
    let mut i: usize = 0;
    while i < graph.nodes.len()
        invariant
            i <= graph.nodes@.len(),
            forall|key: u64| #[trigger] list@.contains(key) <==> reads_external(graph.nodes@.take(i as int), key),
        decreases graph.nodes@.len() - i,
    {
        let ghost shorter = list@;
        let ghost taken = graph.nodes@.take(i as int);
        let ghost longer = graph.nodes@.take(i + 1);
        let node = graph.nodes[i];
        if let DagNode::External(key) = node {
            list.push(key);
        }
        proof {
            assert forall|key: u64| #[trigger] list@.contains(key) <==> reads_external(longer, key) by {
                assert(longer[i as int] == node);
                if list@.contains(key) {
                    let k = choose|k: int| 0 <= k < list@.len() && list@[k] == key;
                    if k < shorter.len() {
                        assert(shorter[k] == key);
                        assert(shorter.contains(key));
                        let n = choose|n: int| 0 <= n < taken.len() && (#[trigger] taken[n]) == DagNode::External(key);
                        assert(longer[n] == DagNode::External(key));
                    }
                }
                if reads_external(longer, key) {
                    let n = choose|n: int| 0 <= n < longer.len() && (#[trigger] longer[n]) == DagNode::External(key);
                    if n < i {
                        assert(taken[n] == DagNode::External(key));
                        assert(shorter.contains(key));
                        let k = choose|k: int| 0 <= k < shorter.len() && shorter[k] == key;
                        assert(list@[k] == key);
                    } else {
                        assert(list@[shorter.len() as int] == key);
                    }
                }
            }
        }
        i = i + 1;
    }
    assert(graph.nodes@.take(i as int) =~= graph.nodes@);
    let r = sort_dedup(&list);
    proof {
        assert forall|key: u64| #[trigger] r@.contains(key) <==> reads_external(graph.nodes@, key) by {
            assert(r@.contains(key) <==> list@.contains(key));
        }
    }
    r
}

fn edge_conditions(graph: &DependencyDag) -> (r: Vec<PathCondition>)
    ensures
        r@.len() == graph.edges@.len(),
        forall|i: int| 0 <= i < r@.len() ==> #[trigger] r@[i] == graph.edges@[i].condition,
{
    let mut r: Vec<PathCondition> = Vec::new();
    let mut i: usize = 0;
    while i < graph.edges.len()
        invariant
            i <= graph.edges@.len(),
            r@.len() == i,
            forall|k: int| 0 <= k < i ==> #[trigger] r@[k] == graph.edges@[k].condition,
        decreases graph.edges@.len() - i,
    {
        r.push(graph.edges[i].condition);
        i = i + 1;
    }
    r
}

/// What a function does: its graph, the roots of its result and of what it writes, what it reads from
/// outside, and the branches of its conditions.
pub struct Summarized {
    pub graph: DependencyDag,
    pub result: Vec<ResultGroup>,
    pub writes: Vec<SummaryWrite>,
    pub keys: Vec<u64>,
    pub branches: Vec<BranchId>,
}

/// Some edge of the graph depends on the branch.
pub open spec fn depends_on(graph: DependencyDag, arena: PathArena, branch: BranchId) -> bool {
    ssa::graph_branch(graph, arena@, branch)
}

/// All keys and roots that a summary names exist.
pub open spec fn names_known(count: int, summary: Summarized) -> bool {
    &&& forall|i: int| 0 <= i < summary.graph.nodes@.len() ==> ((#[trigger] summary.graph.nodes@[i]) matches DagNode::External(key) ==> key < count)
    &&& forall|i: int|
        0 <= i < summary.writes@.len() ==> (#[trigger] summary.writes@[i]).key < count && (summary.writes@[i].root matches Some(root) ==> root
            < summary.graph.nodes@.len())
}

/// The nodes of the graph that stand for keys from outside stand for keys that can be seen.
proof fn lemma_keys_visible(
    store: SsaStore,
    paths: Seq<PathNode>,
    visible: Seq<bool>,
    roots: Seq<usize>,
    allowed: Set<u64>,
    graph: DependencyDag,
    mapped: Map<lower::Place, Option<usize>>,
    n: int,
)
    requires
        lower::lowers(store, paths, roots, allowed, graph, mapped),
        are_entries(store, visible, allowed),
        0 <= n < graph.nodes@.len(),
        graph.nodes@.len() <= usize::MAX,
    ensures
        graph.nodes@[n] matches DagNode::External(key) ==> key < visible.len(),
{
    if let DagNode::External(key) = graph.nodes@[n] {
        assert(lower::represents_some(mapped, n));
        let p = choose|p: lower::Place| #[trigger] mapped.contains_key(p) && (mapped[p] matches Some(m) && m == n);
        lemma_kind_of(store, paths, roots, allowed, graph, mapped, p, n);
        assert(allowed.contains(key));
        assert(is_visible(visible, key));
    }
}

/// Only the entry of a key that may be read from outside has a node for it.
proof fn lemma_kind_of(
    store: SsaStore,
    paths: Seq<PathNode>,
    roots: Seq<usize>,
    allowed: Set<u64>,
    graph: DependencyDag,
    mapped: Map<lower::Place, Option<usize>>,
    p: lower::Place,
    n: int,
)
    requires
        lower::lowers(store, paths, roots, allowed, graph, mapped),
        mapped.contains_key(p),
        mapped[p] is Some,
        mapped[p]->0 == n,
    ensures
        0 <= n < graph.nodes@.len(),
        graph.nodes@[n] matches DagNode::External(key) ==> allowed.contains(key),
{
    assert(lower::placed(store, paths, allowed, graph, mapped, p));
    if let lower::Place::Version { version, entry: _ } = p {
        if let Version::Imported { import, root } = store.versions@[version as int] {
            let child = lower::Place::Child { import, node: root->0 };
            assert(lower::needs(store, p, child));
            assert(mapped.dom().contains(child));
            assert(lower::placed(store, paths, allowed, graph, mapped, child));
        }
    }
}

/// The summary is that of a body whose evaluation left the store as it is: its roots are the current
/// versions of the result and of what is written and can be seen from outside.
pub open spec fn summarizes(
    store: SsaStore,
    arena: PathArena,
    visible: Seq<bool>,
    written: Seq<u64>,
    groups: Seq<RegionGroup>,
    versions: Seq<usize>,
    roots: Seq<usize>,
    allowed: Set<u64>,
    summary: Summarized,
) -> bool {
    &&& reads_all(store, visible_keys(visible, written), versions)
    &&& lists_roots(groups, versions, roots)
    &&& are_entries(store, visible, allowed)
    &&& exists|mapped: Map<lower::Place, Option<usize>>| #[trigger] lower::lowers(store, arena@, roots, allowed, summary.graph, mapped)
    &&& names_results(groups, summary.graph.roots@, summary.result@)
    &&& names_writes(visible_keys(visible, written), summary.graph.roots@, regions_before(groups, groups.len() as int), summary.writes@)
    &&& order::strictly_sorted(summary.keys@)
    &&& forall|key: u64| #[trigger] summary.keys@.contains(key) <==> reads_external(summary.graph.nodes@, key)
    &&& order::strictly_sorted(summary.branches@)
    &&& forall|branch: BranchId| #[trigger] summary.branches@.contains(branch) <==> depends_on(summary.graph, arena, branch)
}

fn name_results(groups: &Vec<RegionGroup>, roots: &Vec<Option<usize>>) -> (r: Vec<ResultGroup>)
    requires
        roots@.len() >= regions_before(groups@, groups@.len() as int),
    ensures
        names_results(groups@, roots@, r@),
{
    let mut r: Vec<ResultGroup> = Vec::new();
    let mut at: usize = 0;
    let mut g: usize = 0;
    while g < groups.len()
        invariant
            g <= groups@.len(),
            roots@.len() >= regions_before(groups@, groups@.len() as int),
            at == regions_before(groups@, g as int),
            r@.len() == g,
            forall|h: int| 0 <= h < g ==> (#[trigger] r@[h]).array == groups@[h].array && r@[h].regions@.len() == groups@[h].regions@.len(),
            forall|h: int, k: int|
                0 <= h < g && 0 <= k < groups@[h].regions@.len() ==> (#[trigger] r@[h].regions@[k]) == (ResultRegion {
                    packed: groups@[h].regions@[k].packed,
                    root: roots@[regions_before(groups@, h) + k],
                }),
        decreases groups@.len() - g,
    {
        let group = &groups[g];
        let mut regions: Vec<ResultRegion> = Vec::new();
        let mut k: usize = 0;
        proof {
            lemma_regions_before(groups@, g as int, groups@.len() as int);
        }
        while k < group.regions.len()
            invariant
                k <= group.regions@.len(),
                g < groups@.len(),
                *group == groups@[g as int],
                regions_before(groups@, g as int) + group.regions@.len() <= roots@.len(),
                at == regions_before(groups@, g as int) + k,
                regions@.len() == k,
                forall|m: int|
                    0 <= m < k ==> (#[trigger] regions@[m]) == (ResultRegion {
                        packed: groups@[g as int].regions@[m].packed,
                        root: roots@[regions_before(groups@, g as int) + m],
                    }),
            decreases group.regions@.len() - k,
        {
            assert(roots@.len() == roots.len());
            regions.push(ResultRegion { packed: group.regions[k].packed, root: roots[at] });
            at = at + 1;
            k = k + 1;
        }
        let ghost shorter = r@;
        r.push(ResultGroup { array: group.array, regions });
        proof {
            assert forall|h: int, k: int| 0 <= h < g + 1 && 0 <= k < groups@[h].regions@.len() implies (#[trigger] r@[h].regions@[k]) == (ResultRegion {
                packed: groups@[h].regions@[k].packed,
                root: roots@[regions_before(groups@, h) + k],
            }) by {
                if h < g {
                    assert(r@[h] == shorter[h]);
                    assert(shorter[h].regions@[k] == r@[h].regions@[k]);
                }
            }
        }
        g = g + 1;
    }
    r
}

/// The summary of a function whose body was evaluated: `result` names the nodes of its result, and
/// `written` what was written.
pub fn summarize_function(
    store: &mut SsaStore,
    arena: &mut PathArena,
    partition: &BitPartition,
    nodes: &Vec<NodeKey>,
    visible: &Vec<bool>,
    result: &Option<Vec<u64>>,
    written: &Vec<u64>,
) -> (r: Summarized)
    requires
        results::tied(*old(store), *old(arena)),
        partition.wf(),
        visible@.len() == nodes@.len(),
        results::keys_known(*old(store), nodes@),
        result matches Some(keys) ==> calls::names_variable(nodes@, keys@),
    ensures
        results::tied(*final(store), *final(arena)),
        arena::grows(old(arena)@, final(arena)@),
        writes::continues(*old(store), *final(store)),
        final(store).current@ == old(store).current@,
        r.graph.wf(),
        r.graph.forward(),
        r.graph.guarded_in(final(arena)@),
        names_known(nodes@.len() as int, r),
        exists|groups: Seq<RegionGroup>, versions: Seq<usize>, roots: Seq<usize>, allowed: Set<u64>|
            #![trigger summarizes(*final(store), *final(arena), visible@, written@, groups, versions, roots, allowed, r)]
            (match *result {
                Some(keys) => calls::lists_current(*final(store), *partition, nodes@, keys@, groups),
                None => groups.len() == 0,
            }) && summarizes(*final(store), *final(arena), visible@, written@, groups, versions, roots, allowed, r),
{
    let ghost before = *store;
    proof {
        assert(writes::continues(before, *store)) by {
            assert forall|depth: int| 0 <= depth < before.checkpoints@.len() implies #[trigger] store.saved(depth) == before.saved(depth) by {}
        }
    }
    let groups: Vec<RegionGroup> = match result {
        Some(keys) => current_region_groups(store, partition, nodes, keys),
        None => Vec::new(),
    };
    let ghost middle = *store;
    let (keys, versions) = visible_writes(store, visible, nodes, written);
    proof {
        writes::continues_is_transitive(before, middle, *store);
        if let Some(keys) = result {
            lemma_lists_kept(middle, *store, *partition, nodes@, keys@, groups@);
        }
        assert forall|g: int, k: int| 0 <= g < groups@.len() && 0 <= k < groups@[g].regions@.len() implies (#[trigger] groups@[g].regions@[k]).version
            < store.versions@.len() && groups@[g].regions@[k].packed.wf() by {
            assert(groups@[g].regions@[k].version < middle.versions@.len());
        }
    }
    let limit: usize = store.versions.len();
    let roots = collect_roots(&groups, &versions, limit);
    let allowed = visible_entries(store, visible);
    assert(store.guards_in(arena@));
    let ghost paths = arena@;
    let graph = store.dependency_dag(arena, &roots, &allowed);
    proof {
        let mapped = choose|mapped: Map<lower::Place, Option<usize>>| #[trigger] lower::lowers(*store, arena@, roots@, allowed@, graph, mapped);
        assert(lower::lowers(*store, arena@, roots@, allowed@, graph, mapped));
        assert(graph.roots@.len() == roots@.len());
        lemma_regions_before(groups@, 0, groups@.len() as int);
    }
    let result_groups = name_results(&groups, &graph.roots);
    let start: usize = roots.len() - versions.len();
    let mut list: Vec<SummaryWrite> = Vec::new();
    let mut i: usize = 0;
    while i < keys.len()
        invariant
            i <= keys@.len(),
            keys@.len() == versions@.len(),
            start + versions@.len() == graph.roots@.len(),
            list@.len() == i,
            forall|k: int| 0 <= k < i ==> (#[trigger] list@[k]) == (SummaryWrite { key: keys@[k], root: graph.roots@[start + k] }),
        decreases keys@.len() - i,
    {
        assert(graph.roots@.len() == graph.roots.len());
        list.push(SummaryWrite { key: keys[i], root: graph.roots[start + i] });
        i = i + 1;
    }
    let outside = external_keys(&graph);
    let conditions = edge_conditions(&graph);
    let branches = arena.collect_branches(&conditions);
    let r = Summarized { graph, result: result_groups, writes: list, keys: outside, branches };
    proof {
        assert forall|branch: BranchId| #[trigger] r.branches@.contains(branch) <==> depends_on(r.graph, *arena, branch) by {
            if remap::some_constrains(*arena, conditions@, branch) {
                let e = choose|e: int| 0 <= e < conditions@.len() && crate::path::constrains(arena.path(#[trigger] conditions@[e]), branch);
                assert(r.graph.edges@[e].condition == conditions@[e]);
            }
            if depends_on(r.graph, *arena, branch) {
                let e = choose|e: int|
                    0 <= e < r.graph.edges@.len() && crate::path::constrains(arena::path_of(arena@, (#[trigger] r.graph.edges@[e]).condition.node as int), branch);
                assert(conditions@[e] == r.graph.edges@[e].condition);
            }
        }
        ssa::store_survives_growth(*store, paths, arena@);
        let mapped = choose|mapped: Map<lower::Place, Option<usize>>| #[trigger] lower::lowers(*store, arena@, roots@, allowed@, r.graph, mapped);
        assert(r.graph.nodes@.len() == r.graph.nodes.len());
        assert forall|i: int| 0 <= i < r.graph.nodes@.len() implies ((#[trigger] r.graph.nodes@[i]) matches DagNode::External(key) ==> key < nodes@.len()) by {
            lemma_keys_visible(*store, arena@, visible@, roots@, allowed@, r.graph, mapped, i);
        }
        assert forall|i: int| 0 <= i < r.writes@.len() implies (#[trigger] r.writes@[i]).key < nodes@.len() && (r.writes@[i].root matches Some(root) ==> root
            < r.graph.nodes@.len()) by {
            assert(keys@.contains(keys@[i]));
            ascending_keys(written@).lemma_filter_contains_rev(|key: u64| is_visible(visible@, key), keys@[i]);
            if r.writes@[i].root is Some {
                let p = lower::Place::Version { version: roots@[start + i], entry: false };
                assert(r.graph.roots@[start + i] == mapped[p]);
                assert(mapped.dom().contains(p));
                lemma_kind_of(*store, arena@, roots@, allowed@, r.graph, mapped, p, mapped[p]->0 as int);
            }
        }
        assert(summarizes(*store, *arena, visible@, written@, groups@, versions@, roots@, allowed@, r));
    }
    r
}

proof fn lemma_lists_kept(before: SsaStore, after: SsaStore, partition: BitPartition, nodes: Seq<NodeKey>, keys: Seq<u64>, groups: Seq<RegionGroup>)
    requires
        before.wf(),
        after.wf(),
        writes::continues(before, after),
        after.current@ == before.current@,
        calls::lists_current(before, partition, nodes, keys, groups),
    ensures
        calls::lists_current(after, partition, nodes, keys, groups),
{
    let list = choose|list: Seq<crate::layout::KeyVersion>| #[trigger]
        calls::are_current(before, nodes, keys, list) && calls::lists_versions(partition, list, groups);
    assert forall|i: int| 0 <= i < list.len() implies (#[trigger] list[i]).key == nodes[keys[i] as int] && results::is_current(after, keys[i], list[i].version) by {
        assert(calls::are_current(before, nodes, keys, list));
        assert(results::is_current(before, keys[i], list[i].version));
        if !before.current@.contains_key(keys[i]) {
            writes::lemma_entry_kept(before, after, keys[i]);
        }
    }
    assert(calls::are_current(after, nodes, keys, list));
}


/// The graph of what a procedure does to the variables of its module, with the roots of what it writes.
pub fn dependency_graph(
    store: &mut SsaStore,
    arena: &mut PathArena,
    partition: &BitPartition,
    nodes: &Vec<NodeKey>,
    visible: &Vec<bool>,
    written: &Vec<u64>,
) -> (r: Summarized)
    requires
        results::tied(*old(store), *old(arena)),
        partition.wf(),
        visible@.len() == nodes@.len(),
        results::keys_known(*old(store), nodes@),
    ensures
        results::tied(*final(store), *final(arena)),
        arena::grows(old(arena)@, final(arena)@),
        writes::continues(*old(store), *final(store)),
        final(store).current@ == old(store).current@,
        r.graph.wf(),
        r.graph.forward(),
        r.graph.guarded_in(final(arena)@),
        names_known(nodes@.len() as int, r),
        r.result@.len() == 0,
        exists|versions: Seq<usize>, roots: Seq<usize>, allowed: Set<u64>|
            #![trigger summarizes(*final(store), *final(arena), visible@, written@, Seq::empty(), versions, roots, allowed, r)]
            summarizes(*final(store), *final(arena), visible@, written@, Seq::empty(), versions, roots, allowed, r),
{
    let none: Option<Vec<u64>> = None;
    let r = summarize_function(store, arena, partition, nodes, visible, &none, written);
    proof {
        let (groups, versions, roots, allowed) = choose|groups: Seq<RegionGroup>, versions: Seq<usize>, roots: Seq<usize>, allowed: Set<u64>|
            #![trigger summarizes(*store, *arena, visible@, written@, groups, versions, roots, allowed, r)]
            groups.len() == 0 && summarizes(*store, *arena, visible@, written@, groups, versions, roots, allowed, r);
        assert(groups =~= Seq::<RegionGroup>::empty());
        assert(summarizes(*store, *arena, visible@, written@, Seq::empty(), versions, roots, allowed, r));
    }
    r
}


/// A node that a written node depends on.
#[derive(Clone, Copy, Debug, PartialEq, Eq, Structural)]
pub struct Dependency {
    pub source: u64,
    pub destination: u64,
    pub relation: PositionRelation,
    pub condition: PathCondition,
}

/// The dependencies of one destination.
pub open spec fn depends_on_all(destination: u64, list: Seq<Source>) -> Seq<Dependency> {
    list.map_values(
        |source: Source| Dependency { source: source.key, destination, relation: source.relation, condition: source.condition },
    )
}

/// The dependencies of the first destinations, one after the other.
pub open spec fn lists_dependencies(
    store: SsaStore,
    allowed: Option<HashSet<u64>>,
    keys: Seq<u64>,
    versions: Seq<usize>,
    count: int,
    paths: Seq<PathNode>,
    more: Seq<PathNode>,
    r: Seq<Dependency>,
) -> bool
    decreases count,
{
    if count <= 0 {
        r.len() == 0 && more == paths
    } else {
        exists|between: Seq<PathNode>, list: Seq<Source>, split: int|
            0 <= split <= r.len() && #[trigger] found_at(store, allowed, versions[count - 1], between, more, list, split) && lists_dependencies(
                store,
                allowed,
                keys,
                versions,
                count - 1,
                paths,
                between,
                r.take(split),
            ) && r.skip(split) == depends_on_all(keys[count - 1], list)
    }
}

/// The sources of a version were found.
pub open spec fn found_at(store: SsaStore, allowed: Option<HashSet<u64>>, version: usize, paths: Seq<PathNode>, more: Seq<PathNode>, list: Seq<Source>, split: int) -> bool {
    summary::summarises(store, paths, version, false, allowed, list, more)
}

/// What the destinations before `at` depend on was found, and an offset on a way to a source of the one
/// at `at` does not fit.
pub open spec fn dependency_missing(
    store: SsaStore,
    allowed: Option<HashSet<u64>>,
    keys: Seq<u64>,
    versions: Seq<usize>,
    at: int,
    paths: Seq<PathNode>,
    between: Seq<PathNode>,
    first: Seq<Dependency>,
) -> bool {
    &&& 0 <= at < versions.len()
    &&& lists_dependencies(store, allowed, keys, versions, at, paths, between, first)
    &&& summary::sources_overflow(store, between, versions[at], false)
}

/// What one of the destinations depends on cannot be found.
pub open spec fn dependencies_stop(
    store: SsaStore,
    allowed: Option<HashSet<u64>>,
    keys: Seq<u64>,
    versions: Seq<usize>,
    paths: Seq<PathNode>,
    more: Seq<PathNode>,
) -> bool {
    exists|between: Seq<PathNode>, at: int, first: Seq<Dependency>| #[trigger]
        dependency_missing(store, allowed, keys, versions, at, paths, between, first) && arena::grows(between, more)
}

/// What the written nodes that can be seen from outside depend on, of what can be seen from outside.
/// There is no answer where an offset on the way does not fit.
pub fn dependencies(
    store: &mut SsaStore,
    arena: &mut PathArena,
    nodes: &Vec<NodeKey>,
    visible: &Vec<bool>,
    written: &Vec<u64>,
) -> (r: Option<Vec<Dependency>>)
    requires
        results::tied(*old(store), *old(arena)),
        visible@.len() == nodes@.len(),
        results::keys_known(*old(store), nodes@),
    ensures
        results::tied(*final(store), *final(arena)),
        arena::grows(old(arena)@, final(arena)@),
        writes::continues(*old(store), *final(store)),
        final(store).current@ == old(store).current@,
        r matches Some(list) ==> exists|versions: Seq<usize>, allowed: HashSet<u64>|
            #![trigger reads_all(*final(store), visible_keys(visible@, written@), versions), are_entries(*final(store), visible@, allowed@)]
            reads_all(*final(store), visible_keys(visible@, written@), versions) && are_entries(*final(store), visible@, allowed@) && lists_dependencies(
                *final(store),
                Some(allowed),
                visible_keys(visible@, written@),
                versions,
                versions.len() as int,
                old(arena)@,
                final(arena)@,
                list@,
            ),
        r is None ==> exists|versions: Seq<usize>, allowed: HashSet<u64>|
            #![trigger reads_all(*final(store), visible_keys(visible@, written@), versions), are_entries(*final(store), visible@, allowed@)]
            reads_all(*final(store), visible_keys(visible@, written@), versions) && are_entries(*final(store), visible@, allowed@) && dependencies_stop(
                *final(store),
                Some(allowed),
                visible_keys(visible@, written@),
                versions,
                old(arena)@,
                final(arena)@,
            ),
{
    let ghost paths = arena@;
    let (keys, versions) = visible_writes(store, visible, nodes, written);
    let allowed = visible_entries(store, visible);
    let ghost set = allowed;
    let allowed: Option<HashSet<u64>> = Some(allowed);
    let ghost ready = *store;
    proof {
        assert(store.guards_in(arena@));
    }
    let mut r: Vec<Dependency> = Vec::new();
    let mut i: usize = 0;
    while i < keys.len()
        invariant
            i <= keys@.len(),
            keys@.len() == versions@.len(),
            *store == ready,
            allowed == Some(set),
            reads_all(ready, visible_keys(visible@, written@), versions@),
            are_entries(ready, visible@, set@),
            keys@ == visible_keys(visible@, written@),
            paths == old(arena)@,
            writes::continues(*old(store), ready),
            ready.current@ == old(store).current@,
            results::tied(ready, *arena),
            arena::grows(paths, arena@),
            forall|k: int| 0 <= k < versions@.len() ==> (#[trigger] versions@[k]) < ready.versions@.len(),
            lists_dependencies(ready, allowed, keys@, versions@, i as int, paths, arena@, r@),
        decreases keys@.len() - i,
    {
        let ghost between = arena@;
        let ghost before = r@;
        let version: usize = versions[i];
        assert(versions@[i as int] < ready.versions@.len());
        let found = store.root_source_relations_guarded(arena, version, &allowed);
        proof {
            arena::growth_is_transitive(paths, between, arena@);
            ssa::store_survives_growth(ready, between, arena@);
        }
        let list = match found {
            Some(list) => list,
            None => {
                proof {
                    assert(dependency_missing(ready, allowed, keys@, versions@, i as int, paths, between, r@));
                    assert(dependencies_stop(ready, Some(set), visible_keys(visible@, written@), versions@, paths, arena@));
                }
                return None;
            },
        };
        let mut k: usize = 0;
        while k < list.len()
            invariant
                k <= list@.len(),
                i < keys@.len(),
                r@ == before + depends_on_all(keys@[i as int], list@.take(k as int)),
            decreases list@.len() - k,
        {
            let source = list[k];
            r.push(Dependency { source: source.key, destination: keys[i], relation: source.relation, condition: source.condition });
            k = k + 1;
            assert(r@ =~= before + depends_on_all(keys@[i as int], list@.take(k as int)));
        }
        proof {
            assert(list@.take(k as int) =~= list@);
            let split = before.len() as int;
            let c = i + 1;
            assert(r@.take(split) =~= before);
            assert(r@.skip(split) =~= depends_on_all(keys@[c - 1], list@));
            assert(found_at(ready, allowed, versions@[c - 1], between, arena@, list@, split));
            assert(lists_dependencies(ready, allowed, keys@, versions@, c, paths, arena@, r@));
        }
        i = i + 1;
    }
    proof {
        assert(reads_all(*store, visible_keys(visible@, written@), versions@));
        assert(are_entries(*store, visible@, set@));
    }
    Some(r)
}

} // verus!
