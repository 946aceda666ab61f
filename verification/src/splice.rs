//! Copying the reachable part of a graph into a larger one.
use vstd::prelude::*;
use std::collections::HashMap;
use crate::arena;
use crate::arena::{PathArena, PathCondition, PathNode};
use crate::dag;
use crate::dag::{DagEdge, DagNode, DependencyDag};
use crate::order::Ordered;
use crate::path;
use crate::path::{BranchId, Choice};
use crate::relation::{PositionDomain, PositionRelation};
use crate::remap;
use crate::remap::BranchRemapper;
use crate::ssa;

verus! {

/// A graph that is being built.
pub struct DagBuilder {
    pub nodes: Vec<DagNode>,
    pub edges: Vec<DagEdge>,
    pub domains: Vec<Vec<PositionDomain>>,
}

/// The edge leads forward, or repeats a regular transfer, or does not move positions.
pub open spec fn edge_forward(nodes: Seq<DagNode>, edge: DagEdge) -> bool {
    edge.source < edge.destination || (edge.source == edge.destination && (nodes[edge.source as int]
        == DagNode::RegularTransfer || (dag::idle_axis(edge.relation.array) && dag::idle_axis(
        edge.relation.packed,
    ))))
}

impl DagBuilder {
    pub open spec fn wf(self) -> bool {
        &&& dag::edges_join(self.nodes@, self.edges@)
        &&& self.domains@.len() == self.nodes@.len()
        &&& forall|e: int|
            0 <= e < self.edges@.len() ==> edge_forward(self.nodes@, #[trigger] self.edges@[e])
    }

    pub open spec fn guarded_in(self, paths: Seq<PathNode>) -> bool {
        forall|e: int|
            0 <= e < self.edges@.len() ==> (#[trigger] self.edges@[e]).condition.node < paths.len()
    }

    /// Nodes were added since `before`, and edges to them only.
    pub open spec fn grown(self, before: Self) -> bool {
        &&& before.nodes@.len() <= self.nodes@.len()
        &&& forall|i: int| 0 <= i < before.nodes@.len() ==> #[trigger] self.nodes@[i] == before.nodes@[i]
        &&& forall|i: int|
            0 <= i < before.nodes@.len() ==> #[trigger] self.domains@[i] == before.domains@[i]
        &&& before.edges@.len() <= self.edges@.len()
        &&& forall|e: int| 0 <= e < before.edges@.len() ==> #[trigger] self.edges@[e] == before.edges@[e]
        &&& forall|e: int|
            before.edges@.len() <= e < self.edges@.len() ==> (#[trigger] self.edges@[e]).destination
                >= before.nodes@.len()
    }

    /// An empty graph.
    pub fn new() -> (r: Self)
        ensures
            r.wf(),
            r.nodes@.len() == 0,
            r.edges@.len() == 0,
    {
        DagBuilder { nodes: Vec::new(), edges: Vec::new(), domains: Vec::new() }
    }

    /// Adds a node with the edges that lead to it.
    pub fn add_node(&mut self, node: DagNode, domains: Vec<PositionDomain>, row: &Vec<DagEdge>) -> (r:
        usize)
        requires
            old(self).wf(),
            forall|k: int|
                0 <= k < row@.len() ==> (#[trigger] row@[k]).destination == old(self).nodes@.len()
                    && row@[k].source <= old(self).nodes@.len() && (row@[k].source == old(self).nodes@.len() ==> node == DagNode::RegularTransfer || (dag::idle_axis(
                    row@[k].relation.array,
                ) && dag::idle_axis(row@[k].relation.packed))),
        ensures
            final(self).wf(),
            r == old(self).nodes@.len(),
            final(self).nodes@ == old(self).nodes@.push(node),
            final(self).domains@.len() == old(self).domains@.len() + 1,
            final(self).domains@[r as int] == domains,
            final(self).edges@ == old(self).edges@ + row@,
            final(self).grown(*old(self)),
    {
        let ghost before = *self;
        let r: usize = self.nodes.len();
        self.nodes.push(node);
        self.domains.push(domains);
        let mut k: usize = 0;
        while k < row.len()
            invariant
                k <= row.len(),
                self.nodes@ == before.nodes@.push(node),
                self.domains@ == before.domains@.push(domains),
                self.edges@ == before.edges@ + row@.take(k as int),
            decreases row.len() - k,
        {
            self.edges.push(row[k]);
            k = k + 1;
            assert(row@.take(k as int) =~= row@.take(k - 1).push(row@[k - 1]));
            assert(self.edges@ =~= before.edges@ + row@.take(k as int));
        }
        proof {
            assert(row@.take(k as int) =~= row@);
            assert forall|e: int| 0 <= e < self.edges@.len() implies edge_forward(self.nodes@, #[trigger] self.edges@[e])
                && self.edges@[e].source < self.nodes@.len() && self.edges@[e].destination < self.nodes@.len() by {
                if e < before.edges@.len() {
                    assert(self.edges@[e] == before.edges@[e]);
                    assert(edge_forward(before.nodes@, before.edges@[e]));
                } else {
                    assert(self.edges@[e] == row@[e - before.edges@.len()]);
                }
            }
        }
        r
    }
}

/// An edge of the list leads from `source` with the given relation and path.
pub open spec fn row_has(
    row: Seq<DagEdge>,
    paths: Seq<PathNode>,
    source: usize,
    relation: PositionRelation,
    path: Seq<Choice>,
) -> bool {
    exists|k: int|
        0 <= k < row.len() && {
            let edge = #[trigger] row[k];
            edge.source == source && edge.relation == relation && arena::path_of(
                paths,
                edge.condition.node as int,
            ) == path
        }
}

/// An edge leads from `source` to `node` with the given relation and path.
pub open spec fn arrives(
    edges: Seq<DagEdge>,
    paths: Seq<PathNode>,
    node: usize,
    source: usize,
    relation: PositionRelation,
    path: Seq<Choice>,
) -> bool {
    exists|e: int|
        0 <= e < edges.len() && {
            let edge = #[trigger] edges[e];
            edge.destination == node && edge.source == source && edge.relation == relation
                && arena::path_of(paths, edge.condition.node as int) == path
        }
}

/// An edge, as it arrives at a node.
pub struct Arrival {
    pub source: usize,
    pub relation: PositionRelation,
    pub path: Seq<Choice>,
}

pub open spec fn arrival_of(edge: DagEdge, paths: Seq<PathNode>) -> Arrival {
    Arrival { source: edge.source, relation: edge.relation, path: arena::path_of(paths, edge.condition.node as int) }
}

/// The edges that lead to a node, in order, each as often as it is there.
pub open spec fn arrivals(edges: Seq<DagEdge>, paths: Seq<PathNode>, node: usize) -> Seq<Arrival>
    decreases edges.len(),
{
    if edges.len() == 0 {
        Seq::empty()
    } else {
        let before = arrivals(edges.drop_last(), paths, node);
        if edges.last().destination == node {
            before.push(arrival_of(edges.last(), paths))
        } else {
            before
        }
    }
}

pub open spec fn row_arrivals(row: Seq<DagEdge>, paths: Seq<PathNode>) -> Seq<Arrival> {
    Seq::new(row.len(), |k: int| arrival_of(row[k], paths))
}

/// Edges to other nodes add nothing.
proof fn lemma_arrivals_skip(edges: Seq<DagEdge>, paths: Seq<PathNode>, node: usize, from: int)
    requires
        0 <= from <= edges.len(),
        forall|e: int| from <= e < edges.len() ==> (#[trigger] edges[e]).destination != node,
    ensures
        arrivals(edges, paths, node) == arrivals(edges.take(from), paths, node),
    decreases edges.len(),
{
    if from < edges.len() {
        let shorter = edges.drop_last();
        assert(edges[edges.len() - 1] == edges.last());
        assert forall|e: int| from <= e < shorter.len() implies (#[trigger] shorter[e]).destination != node by {
            assert(shorter[e] == edges[e]);
        }
        lemma_arrivals_skip(shorter, paths, node, from);
        assert(shorter.take(from) =~= edges.take(from));
    } else {
        assert(edges.take(from) =~= edges);
    }
}

/// Only the paths of the edges matter.
proof fn lemma_arrivals_paths(edges: Seq<DagEdge>, p: Seq<PathNode>, q: Seq<PathNode>, node: usize)
    requires
        arena::grows(p, q),
        forall|e: int| 0 <= e < edges.len() ==> (#[trigger] edges[e]).condition.node < p.len(),
    ensures
        arrivals(edges, p, node) == arrivals(edges, q, node),
    decreases edges.len(),
{
    if edges.len() > 0 {
        let shorter = edges.drop_last();
        assert forall|e: int| 0 <= e < shorter.len() implies (#[trigger] shorter[e]).condition.node < p.len() by {
            assert(shorter[e] == edges[e]);
        }
        lemma_arrivals_paths(shorter, p, q, node);
        assert(edges[edges.len() - 1] == edges.last());
        arena::growth_keeps_paths(p, q, edges.last().condition.node as int);
    }
}

/// Adding nodes and paths does not change which edges lead to a node.
pub(crate) proof fn lemma_arrivals_stable(a: DagBuilder, b: DagBuilder, p: Seq<PathNode>, q: Seq<PathNode>, node: usize)
    requires
        b.grown(a),
        arena::grows(p, q),
        a.guarded_in(p),
        node < a.nodes@.len(),
    ensures
        arrivals(a.edges@, p, node) == arrivals(b.edges@, q, node),
{
    lemma_arrivals_skip(b.edges@, q, node, a.edges@.len() as int);
    assert(b.edges@.take(a.edges@.len() as int) =~= a.edges@);
    lemma_arrivals_paths(a.edges@, p, q, node);
}

/// The edges that lead to a node that was just added are its row.
pub(crate) proof fn lemma_arrivals_row(before: Seq<DagEdge>, row: Seq<DagEdge>, paths: Seq<PathNode>, node: usize)
    requires
        forall|e: int| 0 <= e < before.len() ==> (#[trigger] before[e]).destination != node,
        forall|k: int| 0 <= k < row.len() ==> (#[trigger] row[k]).destination == node,
    ensures
        arrivals(before + row, paths, node) == row_arrivals(row, paths),
    decreases row.len(),
{
    let all = before + row;
    if row.len() == 0 {
        assert(all =~= before);
        lemma_arrivals_skip(before, paths, node, 0);
        assert(before.take(0) =~= Seq::empty());
        assert(arrivals(all, paths, node) =~= row_arrivals(row, paths));
    } else {
        let shorter = row.drop_last();
        assert forall|k: int| 0 <= k < shorter.len() implies (#[trigger] shorter[k]).destination == node by {
            assert(shorter[k] == row[k]);
        }
        lemma_arrivals_row(before, shorter, paths, node);
        assert(all.drop_last() =~= before + shorter);
        assert(all.last() == row[row.len() - 1]);
        assert(arrivals(all, paths, node) =~= row_arrivals(row, paths));
    }
}

/// Adding nodes and paths does not change what arrives at a node.
pub(crate) proof fn lemma_arrives_stable(
    a: DagBuilder,
    b: DagBuilder,
    p: Seq<PathNode>,
    q: Seq<PathNode>,
    node: usize,
    source: usize,
    relation: PositionRelation,
    path: Seq<Choice>,
)
    requires
        b.grown(a),
        arena::grows(p, q),
        a.guarded_in(p),
        node < a.nodes@.len(),
    ensures
        arrives(a.edges@, p, node, source, relation, path) == arrives(b.edges@, q, node, source, relation, path),
{
    if arrives(a.edges@, p, node, source, relation, path) {
        let e = choose|e: int| 0 <= e < a.edges@.len() && {
            let edge = #[trigger] a.edges@[e];
            edge.destination == node && edge.source == source && edge.relation == relation
                && arena::path_of(p, edge.condition.node as int) == path
        };
        assert(b.edges@[e] == a.edges@[e]);
        arena::growth_keeps_paths(p, q, a.edges@[e].condition.node as int);
    }
    if arrives(b.edges@, q, node, source, relation, path) {
        let e = choose|e: int| 0 <= e < b.edges@.len() && {
            let edge = #[trigger] b.edges@[e];
            edge.destination == node && edge.source == source && edge.relation == relation
                && arena::path_of(q, edge.condition.node as int) == path
        };
        assert(e < a.edges@.len());
        assert(b.edges@[e] == a.edges@[e]);
        arena::growth_keeps_paths(p, q, a.edges@[e].condition.node as int);
    }
}

/// What arrives at a node that was just added is its row.
pub(crate) proof fn lemma_arrives_row(
    before: DagBuilder,
    edges: Seq<DagEdge>,
    row: Seq<DagEdge>,
    paths: Seq<PathNode>,
    node: usize,
    source: usize,
    relation: PositionRelation,
    path: Seq<Choice>,
)
    requires
        before.wf(),
        node == before.nodes@.len(),
        edges == before.edges@ + row,
        forall|k: int| 0 <= k < row.len() ==> (#[trigger] row[k]).destination == node,
    ensures
        arrives(edges, paths, node, source, relation, path) == row_has(row, paths, source, relation, path),
{
    if arrives(edges, paths, node, source, relation, path) {
        let e = choose|e: int| 0 <= e < edges.len() && {
            let edge = #[trigger] edges[e];
            edge.destination == node && edge.source == source && edge.relation == relation
                && arena::path_of(paths, edge.condition.node as int) == path
        };
        if e < before.edges@.len() {
            assert(before.edges@[e].destination < before.nodes@.len());
        }
        assert(edges[e] == row[e - before.edges@.len()]);
    }
    if row_has(row, paths, source, relation, path) {
        let k = choose|k: int| 0 <= k < row.len() && {
            let edge = #[trigger] row[k];
            edge.source == source && edge.relation == relation && arena::path_of(paths, edge.condition.node as int) == path
        };
        assert(edges[before.edges@.len() + k] == row[k]);
    }
}

/// A node with the positions that are read of it.
#[derive(Clone, Copy, Debug, PartialEq, Eq, Hash, Structural)]
pub struct NodeRef {
    pub node: usize,
    pub relation: PositionRelation,
}

/// The nodes that stand for an external key.
pub struct NodeBinding {
    pub key: u64,
    pub sources: Vec<NodeRef>,
}

/// The nodes for `key`.
pub open spec fn binds_node(bindings: Seq<NodeBinding>, key: u64, source: NodeRef) -> bool {
    exists|b: int|
        0 <= b < bindings.len() && (#[trigger] bindings[b]).key == key
            && bindings[b].sources@.contains(source)
}

/// The copy of graph edge `e` leads from `source`.
pub open spec fn copies_edge(
    graph: DependencyDag,
    mapping: Seq<(BranchId, BranchId)>,
    cache: Map<usize, usize>,
    paths: Seq<PathNode>,
    e: int,
    source: usize,
    relation: PositionRelation,
    path: Seq<Choice>,
) -> bool {
    let edge = graph.edges@[e];
    &&& cache.contains_key(edge.source)
    &&& cache[edge.source] == source
    &&& edge.relation == relation
    &&& remap::renamed_path(mapping, arena::path_of(paths, edge.condition.node as int)) == path
}

/// The copy of `child` depends on `source`: through the copy of an edge, or because `source`
/// stands for its key.
pub open spec fn child_wants(
    graph: DependencyDag,
    mapping: Seq<(BranchId, BranchId)>,
    bindings: Seq<NodeBinding>,
    cache: Map<usize, usize>,
    paths: Seq<PathNode>,
    child: usize,
    source: usize,
    relation: PositionRelation,
    path: Seq<Choice>,
) -> bool {
    ||| exists|e: int|
        0 <= e < graph.edges@.len() && (#[trigger] graph.edges@[e]).destination == child
            && copies_edge(graph, mapping, cache, paths, e, source, relation, path)
    ||| path.len() == 0 && (graph.nodes@[child as int] matches DagNode::External(key) && binds_node(
        bindings,
        key,
        NodeRef { node: source, relation },
    ))
}

/// The nodes for `key`, in order.
pub open spec fn bound_refs(bindings: Seq<NodeBinding>, key: u64) -> Seq<NodeRef>
    decreases bindings.len(),
{
    if bindings.len() == 0 {
        Seq::empty()
    } else {
        let before = bound_refs(bindings.drop_last(), key);
        if bindings.last().key == key {
            before + bindings.last().sources@
        } else {
            before
        }
    }
}

pub open spec fn refs_arrivals(refs: Seq<NodeRef>) -> Seq<Arrival> {
    Seq::new(refs.len(), |i: int| Arrival { source: refs[i].node, relation: refs[i].relation, path: Seq::empty() })
}

/// The copies of the edges of the graph in the list.
pub open spec fn copied_arrivals(
    graph: DependencyDag,
    mapping: Seq<(BranchId, BranchId)>,
    copy: spec_fn(usize) -> usize,
    paths: Seq<PathNode>,
    list: Seq<usize>,
) -> Seq<Arrival> {
    Seq::new(
        list.len(),
        |k: int|
            Arrival {
                source: copy(graph.edges@[list[k] as int].source),
                relation: graph.edges@[list[k] as int].relation,
                path: remap::renamed_path(mapping, arena::path_of(paths, graph.edges@[list[k] as int].condition.node as int)),
            },
    )
}

/// What leads to the copy of `child`: the copies of the edges that lead to it, in order, and an edge from
/// each node that stands for its key.
pub open spec fn child_arrivals(
    graph: DependencyDag,
    mapping: Seq<(BranchId, BranchId)>,
    bindings: Seq<NodeBinding>,
    cache: Map<usize, usize>,
    paths: Seq<PathNode>,
    child: usize,
) -> Seq<Arrival> {
    copied_arrivals(graph, mapping, |c: usize| cache[c], paths, graph.incoming@[child as int]@) + match graph.nodes@[child as int] {
        DagNode::External(key) => refs_arrivals(bound_refs(bindings, key)),
        _ => Seq::empty(),
    }
}

/// The copy of a node keeps whether it is a regular transfer.
pub open spec fn copied_kind(node: DagNode) -> DagNode {
    if node == DagNode::RegularTransfer {
        DagNode::RegularTransfer
    } else {
        DagNode::Internal
    }
}

/// `child` is copied with everything it depends on.
pub open spec fn child_placed(
    graph: DependencyDag,
    mapping: Seq<(BranchId, BranchId)>,
    bindings: Seq<NodeBinding>,
    cache: Map<usize, usize>,
    builder: DagBuilder,
    paths: Seq<PathNode>,
    child: usize,
) -> bool {
    let node = cache[child];
    &&& child < graph.nodes@.len()
    &&& node < builder.nodes@.len()
    &&& builder.nodes@[node as int] == copied_kind(graph.nodes@[child as int])
    &&& builder.domains@[node as int]@ == graph.domains@[child as int]@
    &&& forall|e: int|
        0 <= e < graph.edges@.len() && (#[trigger] graph.edges@[e]).destination == child
            ==> cache.contains_key(graph.edges@[e].source)
    &&& forall|source: usize, relation: PositionRelation, path: Seq<Choice>| #[trigger]
        arrives(builder.edges@, paths, node, source, relation, path) <==> child_wants(
            graph,
            mapping,
            bindings,
            cache,
            paths,
            child,
            source,
            relation,
            path,
        )
    &&& arrivals(builder.edges@, paths, node) == child_arrivals(graph, mapping, bindings, cache, paths, child)
}

/// Every cached node of the graph is copied, each to a node of its own.
pub open spec fn inlined(
    graph: DependencyDag,
    mapping: Seq<(BranchId, BranchId)>,
    bindings: Seq<NodeBinding>,
    cache: Map<usize, usize>,
    builder: DagBuilder,
    paths: Seq<PathNode>,
) -> bool {
    &&& forall|child: usize| #[trigger]
        cache.contains_key(child) ==> child_placed(
            graph,
            mapping,
            bindings,
            cache,
            builder,
            paths,
            child,
        )
    &&& forall|c: usize, d: usize| #[trigger] cache.contains_key(c) && #[trigger] cache.contains_key(d) && c != d ==> cache[c] != cache[d]
}

pub open spec fn cache_grows(a: Map<usize, usize>, b: Map<usize, usize>) -> bool {
    forall|c: usize| #[trigger] a.contains_key(c) ==> b.contains_key(c) && b[c] == a[c]
}

/// Copies stay copies when more is added.
pub(crate) proof fn lemma_inlined_grows(
    graph: DependencyDag,
    mapping: Seq<(BranchId, BranchId)>,
    bindings: Seq<NodeBinding>,
    cache: Map<usize, usize>,
    more: Map<usize, usize>,
    a: DagBuilder,
    b: DagBuilder,
    p: Seq<PathNode>,
    q: Seq<PathNode>,
    child: usize,
)
    requires
        child_placed(graph, mapping, bindings, cache, a, p, child),
        cache.contains_key(child),
        cache_grows(cache, more),
        b.grown(a),
        arena::grows(p, q),
        a.guarded_in(p),
        graph.guarded_in(p),
        graph.wf(),
    ensures
        child_placed(graph, mapping, bindings, more, b, q, child),
{
    let node = cache[child];
    lemma_arrivals_stable(a, b, p, q, node);
    assert(child_arrivals(graph, mapping, bindings, cache, p, child) =~= child_arrivals(graph, mapping, bindings, more, q, child)) by {
        let list = graph.incoming@[child as int]@;
        assert(dag::leads_to(graph.edges@, child as int, graph.edges@.len() as int, list));
        let one = copied_arrivals(graph, mapping, |c: usize| cache[c], p, list);
        let two = copied_arrivals(graph, mapping, |c: usize| more[c], q, list);
        assert forall|k: int| 0 <= k < list.len() implies one[k] == #[trigger] two[k] by {
            let e = list[k] as int;
            assert(graph.edges@[e].destination == child);
            assert(cache.contains_key(graph.edges@[e].source));
            arena::growth_keeps_paths(p, q, graph.edges@[e].condition.node as int);
        }
        assert(one =~= two);
    }
    assert forall|source: usize, relation: PositionRelation, path: Seq<Choice>| #[trigger] arrives(b.edges@, q, node, source, relation, path)
        <==> child_wants(graph, mapping, bindings, more, q, child, source, relation, path) by {
        lemma_arrives_stable(a, b, p, q, node, source, relation, path);
        assert(arrives(a.edges@, p, node, source, relation, path) <==> child_wants(graph, mapping, bindings, cache, p, child, source, relation, path));
        assert forall|e: int| 0 <= e < graph.edges@.len() && (#[trigger] graph.edges@[e]).destination == child implies copies_edge(graph, mapping, cache, p, e, source, relation, path)
            == copies_edge(graph, mapping, more, q, e, source, relation, path) by {
            arena::growth_keeps_paths(p, q, graph.edges@[e].condition.node as int);
            assert(cache.contains_key(graph.edges@[e].source));
        }
    }
    assert forall|e: int| 0 <= e < graph.edges@.len() && (#[trigger] graph.edges@[e]).destination == child implies more.contains_key(graph.edges@[e].source) by {
        assert(cache.contains_key(graph.edges@[e].source));
    }
}

/// The renaming keeps the order of every path of the graph.
pub(crate) proof fn lemma_edge_keeps_order(
    mapping: Seq<(BranchId, BranchId)>,
    graph: DependencyDag,
    paths: Seq<PathNode>,
    e: int,
)
    requires
        arena::nodes_wf(paths),
        0 <= e < graph.edges@.len(),
        graph.edges@[e].condition.node < paths.len(),
        ssa::renames_graph(mapping, graph, paths),
    ensures
        remap::keeps_order(mapping, arena::path_of(paths, graph.edges@[e].condition.node as int)),
{
    let condition = arena::path_of(paths, graph.edges@[e].condition.node as int);
    arena::arena_paths_wf(paths, graph.edges@[e].condition.node as int);
    assert forall|i: int| 0 <= i < condition.len() implies #[trigger] ssa::graph_branch(graph, paths, condition[i].branch) by {
        assert(path::constrains(condition, condition[i].branch));
    }
    assert forall|i: int, j: int| 0 <= i < j < condition.len() implies remap::renamed(mapping, (#[trigger] condition[i]).branch).lt(
        remap::renamed(mapping, (#[trigger] condition[j]).branch),
    ) by {
        assert(ssa::graph_branch(graph, paths, condition[i].branch));
        assert(ssa::graph_branch(graph, paths, condition[j].branch));
    }
    assert forall|i: int| 0 <= i < condition.len() implies remap::renamed(mapping, (#[trigger] condition[i]).branch).arms == condition[i].branch.arms by {
        assert(ssa::graph_branch(graph, paths, condition[i].branch));
    }
}

/// The row of a copy that will be node `node`.
fn child_row(
    graph: &DependencyDag,
    child: usize,
    node: usize,
    bindings: &Vec<NodeBinding>,
    remapper: &mut BranchRemapper,
    arena: &mut PathArena,
    cache: &HashMap<usize, usize>,
) -> (r: Vec<DagEdge>)
    requires
        graph.wf(),
        graph.forward(),
        graph.guarded_in(old(arena)@),
        child < graph.nodes@.len(),
        old(arena).wf(),
        old(remapper).wf(*old(arena)),
        ssa::renames_graph(old(remapper).mapping@, *graph, old(arena)@),
        !cache@.contains_key(child),
        forall|c: usize| #[trigger] cache@.contains_key(c) ==> cache@[c] < node,
        forall|e: int|
            0 <= e < graph.edges@.len() && (#[trigger] graph.edges@[e]).destination == child
                && graph.edges@[e].source != child ==> cache@.contains_key(graph.edges@[e].source),
        forall|b: int, i: int|
            0 <= b < bindings@.len() && 0 <= i < bindings@[b].sources@.len() ==> (
            #[trigger] bindings@[b].sources@[i]).node < node,
    ensures
        final(arena).wf(),
        arena::grows(old(arena)@, final(arena)@),
        final(remapper).wf(*final(arena)),
        final(remapper).mapping == old(remapper).mapping,
        forall|k: int|
            0 <= k < r@.len() ==> (#[trigger] r@[k]).destination == node && r@[k].source <= node && (
            r@[k].source == node ==> copied_kind(graph.nodes@[child as int])
                == DagNode::RegularTransfer || (dag::idle_axis(r@[k].relation.array)
                && dag::idle_axis(r@[k].relation.packed))) && r@[k].condition.node < final(arena)@.len(),
        forall|source: usize, relation: PositionRelation, path: Seq<Choice>| #[trigger]
            row_has(r@, final(arena)@, source, relation, path) <==> child_wants(
                *graph,
                old(remapper).mapping@,
                bindings@,
                cache@.insert(child, node),
                final(arena)@,
                child,
                source,
                relation,
                path,
            ),
        row_arrivals(r@, final(arena)@) == child_arrivals(
            *graph,
            old(remapper).mapping@,
            bindings@,
            cache@.insert(child, node),
            final(arena)@,
            child,
        ),
{
    let ghost mapping = remapper.mapping@;
    let ghost paths0 = arena@;
    let ghost full = cache@.insert(child, node);
    let mut r: Vec<DagEdge> = Vec::new();
    let incoming = &graph.incoming[child];
    let mut k: usize = 0;
    assert(dag::leads_to(graph.edges@, child as int, graph.edges@.len() as int, graph.incoming@[child as int]@));
    while k < incoming.len()
        invariant
            k <= incoming@.len(),
            incoming == graph.incoming@[child as int],
            graph.wf(),
            graph.forward(),
            child < graph.nodes@.len(),
            dag::leads_to(graph.edges@, child as int, graph.edges@.len() as int, incoming@),
            full == cache@.insert(child, node),
            paths0 == old(arena)@,
            mapping == old(remapper).mapping@,
            remapper.mapping == old(remapper).mapping,
            graph.guarded_in(paths0),
            ssa::renames_graph(mapping, *graph, paths0),
            old(arena).wf(),
            arena.wf(),
            arena::grows(paths0, arena@),
            remapper.wf(*arena),
            !cache@.contains_key(child),
            forall|c: usize| #[trigger] cache@.contains_key(c) ==> cache@[c] < node,
            forall|e: int|
                0 <= e < graph.edges@.len() && (#[trigger] graph.edges@[e]).destination == child
                    && graph.edges@[e].source != child ==> cache@.contains_key(
                    graph.edges@[e].source,
                ),
            r@.len() == k,
            forall|m: int|
                0 <= m < r@.len() ==> edge_copied(
                    *graph,
                    mapping,
                    full,
                    arena@,
                    incoming@[m] as int,
                    #[trigger] r@[m],
                    node,
                ),
        decreases incoming@.len() - k,
    {
        let ghost before = *arena;
        let ghost r0 = r@;
        let index: usize = incoming[k];
        assert(index < graph.edges@.len());
        let edge = graph.edges[index];
        proof {
            assert(graph.edges@[index as int].condition.node < paths0.len());
            lemma_edge_keeps_order(mapping, *graph, paths0, index as int);
            arena::growth_keeps_paths(paths0, arena@, edge.condition.node as int);
        }
        let mut source: usize = node;
        if edge.source != child {
            if let Some(found) = cache.get(&edge.source) {
                source = *found;
            }
        }
        proof {
            arena::arena_paths_wf(arena@, edge.condition.node as int);
            remap::lemma_keeps_choices(mapping, arena.path(edge.condition));
        }
        let condition = remapper.remap(arena, edge.condition);
        r.push(DagEdge { source, destination: node, relation: edge.relation, condition });
        proof {
            arena::growth_is_transitive(paths0, before@, arena@);
            arena::growth_keeps_paths(paths0, arena@, edge.condition.node as int);
            assert forall|m: int| 0 <= m < r@.len() implies edge_copied(*graph, mapping, full, arena@, incoming@[m] as int, #[trigger] r@[m], node) by {
                if m < k {
                    assert(r@[m] == r0[m]);
                    assert(edge_copied(*graph, mapping, full, before@, incoming@[m] as int, r0[m], node));
                    let e = incoming@[m] as int;
                    assert(graph.edges@[e].condition.node < paths0.len());
                    arena::growth_keeps_paths(before@, arena@, r0[m].condition.node as int);
                    arena::growth_keeps_paths(before@, arena@, graph.edges@[e].condition.node as int);
                }
            }
        }
        k = k + 1;
    }
    let ghost edges_row = r@;
    let ghost copies = copied_arrivals(*graph, mapping, |c: usize| full[c], arena@, incoming@);
    proof {
        assert forall|m: int| 0 <= m < r@.len() implies #[trigger] copies[m] == row_arrivals(r@, arena@)[m] by {
            assert(edge_copied(*graph, mapping, full, arena@, incoming@[m] as int, r@[m], node));
        }
        assert(row_arrivals(edges_row, arena@) =~= copies);
        assert(copies + Seq::<Arrival>::empty() =~= copies);
    }
    let ghost wanted = |source: usize, relation: PositionRelation, path: Seq<Choice>| exists|e: int|
        0 <= e < graph.edges@.len() && (#[trigger] graph.edges@[e]).destination == child
            && copies_edge(*graph, mapping, full, arena@, e, source, relation, path);
    proof {
        assert forall|source: usize, relation: PositionRelation, path: Seq<Choice>| #[trigger] row_has(r@, arena@, source, relation, path)
            == wanted(source, relation, path) by {
            if row_has(r@, arena@, source, relation, path) {
                let m = choose|m: int| 0 <= m < r@.len() && {
                    let edge = #[trigger] r@[m];
                    edge.source == source && edge.relation == relation && arena::path_of(arena@, edge.condition.node as int) == path
                };
                let e = incoming@[m] as int;
                assert(edge_copied(*graph, mapping, full, arena@, e, r@[m], node));
                assert(graph.edges@[e].destination == child);
                assert(copies_edge(*graph, mapping, full, arena@, e, source, relation, path));
            }
            if wanted(source, relation, path) {
                let e = choose|e: int| 0 <= e < graph.edges@.len() && (#[trigger] graph.edges@[e]).destination == child
                    && copies_edge(*graph, mapping, full, arena@, e, source, relation, path);
                assert(incoming@.contains(e as usize));
                let m = choose|m: int| 0 <= m < incoming@.len() && incoming@[m] == e as usize;
                dag::lemma_edge_index(graph.edges, e);
                assert(edge_copied(*graph, mapping, full, arena@, incoming@[m] as int, r@[m], node));
                assert(r@[m].source == source);
            }
        }
    }
    if let DagNode::External(key) = graph.nodes[child] {
        push_bound(bindings, key, node, &mut r);
        proof {
            let refs = bound_refs(bindings@, key);
            assert(arena::path_of(arena@, 0) =~= Seq::<Choice>::empty());
            assert forall|m: int| 0 <= m < r@.len() implies #[trigger] row_arrivals(r@, arena@)[m] == (copies + refs_arrivals(refs))[m] by {
                if m < edges_row.len() {
                    assert(r@.take(edges_row.len() as int)[m] == r@[m]);
                    assert(row_arrivals(edges_row, arena@)[m] == copies[m]);
                } else {
                    assert(bound_edge(bindings@, key, node, r@[m]));
                    let k = m - edges_row.len();
                    assert(row_refs(r@, edges_row.len() as int)[k] == refs[k]);
                }
            }
            assert(row_refs(r@, edges_row.len() as int).len() == refs.len());
            assert(row_arrivals(r@, arena@) =~= copies + refs_arrivals(refs));
            assert forall|source: usize, relation: PositionRelation, path: Seq<Choice>| #[trigger] row_has(r@, arena@, source, relation, path) <==> child_wants(
                *graph, mapping, bindings@, full, arena@, child, source, relation, path,
            ) by {
                assert(row_has(edges_row, arena@, source, relation, path) == wanted(source, relation, path));
                assert(arena::path_of(arena@, 0) =~= Seq::<Choice>::empty());
                lemma_row_split(edges_row, r@, arena@, source, relation, path);
                if row_has(r@, arena@, source, relation, path) && !row_has(edges_row, arena@, source, relation, path) {
                    let m = choose|m: int| edges_row.len() <= m < r@.len() && {
                        let edge = #[trigger] r@[m];
                        edge.source == source && edge.relation == relation && arena::path_of(arena@, edge.condition.node as int) == path
                    };
                    assert(bound_edge(bindings@, key, node, r@[m]));
                }
                if path.len() == 0 && binds_node(bindings@, key, NodeRef { node: source, relation }) {
                    assert(path =~= Seq::<Choice>::empty());
                    let m = choose|m: int| edges_row.len() <= m < r@.len() && (#[trigger] r@[m]).source == source && r@[m].relation == relation;
                    assert(bound_edge(bindings@, key, node, r@[m]));
                    assert(row_has(r@, arena@, source, relation, path));
                }
            }
            assert forall|m: int| 0 <= m < r@.len() implies (#[trigger] r@[m]).destination == node && r@[m].source <= node && (
                r@[m].source == node ==> copied_kind(graph.nodes@[child as int]) == DagNode::RegularTransfer || (dag::idle_axis(r@[m].relation.array)
                    && dag::idle_axis(r@[m].relation.packed))) && r@[m].condition.node < arena@.len() by {
                if m < edges_row.len() {
                    assert(r@[m] == edges_row[m]);
                    lemma_row_edge(*graph, mapping, cache@, full, arena@, incoming@[m] as int, edges_row[m], child, node);
                } else {
                    assert(bound_edge(bindings@, key, node, r@[m]));
                    lemma_bound_below(bindings@, key, node, r@[m]);
                }
            }
        }
    } else {
        proof {
            assert forall|m: int| 0 <= m < r@.len() implies (#[trigger] r@[m]).destination == node && r@[m].source <= node && (
                r@[m].source == node ==> copied_kind(graph.nodes@[child as int]) == DagNode::RegularTransfer || (dag::idle_axis(r@[m].relation.array)
                    && dag::idle_axis(r@[m].relation.packed))) && r@[m].condition.node < arena@.len() by {
                lemma_row_edge(*graph, mapping, cache@, full, arena@, incoming@[m] as int, edges_row[m], child, node);
            }
        }
    }
    r
}

/// `copy` is the copy of graph edge `e`.
spec fn edge_copied(
    graph: DependencyDag,
    mapping: Seq<(BranchId, BranchId)>,
    cache: Map<usize, usize>,
    paths: Seq<PathNode>,
    e: int,
    copy: DagEdge,
    node: usize,
) -> bool {
    let edge = graph.edges@[e];
    &&& cache.contains_key(edge.source)
    &&& copy.source == cache[edge.source]
    &&& copy.destination == node
    &&& copy.relation == edge.relation
    &&& copy.condition.node < paths.len()
    &&& arena::path_of(paths, copy.condition.node as int) == remap::renamed_path(
        mapping,
        arena::path_of(paths, edge.condition.node as int),
    )
}

proof fn lemma_row_edge(
    graph: DependencyDag,
    mapping: Seq<(BranchId, BranchId)>,
    cache: Map<usize, usize>,
    full: Map<usize, usize>,
    paths: Seq<PathNode>,
    e: int,
    copy: DagEdge,
    child: usize,
    node: usize,
)
    requires
        graph.forward(),
        0 <= e < graph.edges@.len(),
        graph.edges@[e].destination == child,
        edge_copied(graph, mapping, full, paths, e, copy, node),
        full == cache.insert(child, node),
        forall|c: usize| #[trigger] cache.contains_key(c) ==> cache[c] < node,
    ensures
        copy.destination == node,
        copy.source <= node,
        copy.source == node ==> copied_kind(graph.nodes@[child as int]) == DagNode::RegularTransfer || (dag::idle_axis(copy.relation.array)
            && dag::idle_axis(copy.relation.packed)),
        copy.condition.node < paths.len(),
{
    let edge = graph.edges@[e];
    if edge.source != child {
        assert(cache.contains_key(edge.source));
    }
}

/// The edge comes from a node that stands for the key.
spec fn bound_edge(bindings: Seq<NodeBinding>, key: u64, node: usize, edge: DagEdge) -> bool {
    &&& edge.destination == node
    &&& edge.condition.node == 0
    &&& binds_node(bindings, key, NodeRef { node: edge.source, relation: edge.relation })
}

proof fn lemma_bound_below(bindings: Seq<NodeBinding>, key: u64, node: usize, edge: DagEdge)
    requires
        bound_edge(bindings, key, node, edge),
        forall|b: int, i: int|
            0 <= b < bindings.len() && 0 <= i < bindings[b].sources@.len() ==> (
            #[trigger] bindings[b].sources@[i]).node < node,
    ensures
        edge.source < node,
{
    let wanted = NodeRef { node: edge.source, relation: edge.relation };
    let b = choose|b: int| 0 <= b < bindings.len() && (#[trigger] bindings[b]).key == key && bindings[b].sources@.contains(wanted);
    let i = choose|i: int| 0 <= i < bindings[b].sources@.len() && bindings[b].sources@[i] == wanted;
    assert(bindings[b].sources@[i].node < node);
}

proof fn lemma_row_split(
    first: Seq<DagEdge>,
    row: Seq<DagEdge>,
    paths: Seq<PathNode>,
    source: usize,
    relation: PositionRelation,
    path: Seq<Choice>,
)
    requires
        first.len() <= row.len(),
        row.take(first.len() as int) == first,
    ensures
        row_has(first, paths, source, relation, path) ==> row_has(row, paths, source, relation, path),
        row_has(row, paths, source, relation, path) && !row_has(first, paths, source, relation, path) ==> exists|m: int|
            first.len() <= m < row.len() && {
                let edge = #[trigger] row[m];
                edge.source == source && edge.relation == relation && arena::path_of(paths, edge.condition.node as int) == path
            },
{
    if row_has(first, paths, source, relation, path) {
        let m = choose|m: int| 0 <= m < first.len() && {
            let edge = #[trigger] first[m];
            edge.source == source && edge.relation == relation && arena::path_of(paths, edge.condition.node as int) == path
        };
        assert(row.take(first.len() as int)[m] == row[m]);
    }
    if row_has(row, paths, source, relation, path) && !row_has(first, paths, source, relation, path) {
        let m = choose|m: int| 0 <= m < row.len() && {
            let edge = #[trigger] row[m];
            edge.source == source && edge.relation == relation && arena::path_of(paths, edge.condition.node as int) == path
        };
        if m < first.len() {
            assert(row.take(first.len() as int)[m] == row[m]);
            assert(first[m] == row[m]);
        }
    }
}

/// Adds edges from the nodes that stand for a key.
fn push_bound(bindings: &Vec<NodeBinding>, key: u64, node: usize, row: &mut Vec<DagEdge>)
    ensures
        old(row)@.len() <= final(row)@.len(),
        final(row)@.take(old(row)@.len() as int) == old(row)@,
        forall|m: int|
            old(row)@.len() <= m < final(row)@.len() ==> bound_edge(
                bindings@,
                key,
                node,
                #[trigger] final(row)@[m],
            ),
        forall|source: usize, relation: PositionRelation|
            binds_node(bindings@, key, NodeRef { node: source, relation }) ==> exists|m: int|
                old(row)@.len() <= m < final(row)@.len() && (#[trigger] final(row)@[m]).source
                    == source && final(row)@[m].relation == relation,
        row_refs(final(row)@, old(row)@.len() as int) == bound_refs(bindings@, key),
{
    let ghost first = row@;
    let mut b: usize = 0;
    assert(first.take(first.len() as int) =~= first);
    assert(bindings@.take(0) =~= Seq::empty());
    assert(row_refs(row@, first.len() as int) =~= Seq::empty());
    while b < bindings.len()
        invariant
            b <= bindings.len(),
            first == old(row)@,
            first.len() <= row@.len(),
            row@.take(first.len() as int) == first,
            row_refs(row@, first.len() as int) == bound_refs(bindings@.take(b as int), key),
            forall|m: int|
                first.len() <= m < row@.len() ==> bound_edge(bindings@, key, node, #[trigger] row@[m]),
            forall|c: int, i: int|
                0 <= c < b && 0 <= i < bindings@[c].sources@.len() && bindings@[c].key == key
                    ==> listed(row@, first.len() as int, #[trigger] bindings@[c].sources@[i]),
        decreases bindings.len() - b,
    {
        let ghost earlier = bound_refs(bindings@.take(b as int), key);
        proof {
            assert(bindings@.take(b as int + 1).drop_last() =~= bindings@.take(b as int));
            assert(bindings@.take(b as int + 1).last() == bindings@[b as int]);
            assert(earlier + bindings@[b as int].sources@.take(0) =~= earlier);
        }
        if bindings[b].key == key {
            let mut i: usize = 0;
            while i < bindings[b].sources.len()
                invariant
                    row_refs(row@, first.len() as int) == earlier + bindings@[b as int].sources@.take(i as int),
                    b < bindings.len(),
                    i <= bindings@[b as int].sources@.len(),
                    bindings@[b as int].key == key,
                    first.len() <= row@.len(),
                    row@.take(first.len() as int) == first,
                    forall|m: int|
                        first.len() <= m < row@.len() ==> bound_edge(
                            bindings@,
                            key,
                            node,
                            #[trigger] row@[m],
                        ),
                    forall|c: int, j: int|
                        0 <= c < b && 0 <= j < bindings@[c].sources@.len() && bindings@[c].key
                            == key ==> listed(
                            row@,
                            first.len() as int,
                            #[trigger] bindings@[c].sources@[j],
                        ),
                    forall|j: int|
                        0 <= j < i ==> listed(
                            row@,
                            first.len() as int,
                            #[trigger] bindings@[b as int].sources@[j],
                        ),
                decreases bindings@[b as int].sources@.len() - i,
            {
                let ghost before = row@;
                let source = bindings[b].sources[i];
                row.push(
                    DagEdge {
                        source: source.node,
                        destination: node,
                        relation: source.relation,
                        condition: PathCondition { node: 0 },
                    },
                );
                proof {
                    assert(row@.take(first.len() as int) =~= before.take(first.len() as int));
                    assert(bindings@[b as int].sources@.contains(source));
                    assert(source == NodeRef { node: source.node, relation: source.relation });
                    assert(bound_edge(bindings@, key, node, row@[before.len() as int]));
                    assert forall|x: NodeRef| #[trigger] listed(before, first.len() as int, x) implies listed(row@, first.len() as int, x) by {
                        let m = choose|m: int| first.len() <= m < before.len() && (#[trigger] before[m]).source == x.node && before[m].relation == x.relation;
                        assert(row@[m].source == x.node);
                    }
                    assert(listed(row@, first.len() as int, source)) by {
                        assert(row@[before.len() as int].source == source.node);
                    }
                    assert(row_refs(row@, first.len() as int) =~= row_refs(before, first.len() as int).push(source));
                    assert(bindings@[b as int].sources@.take(i as int + 1) =~= bindings@[b as int].sources@.take(i as int).push(source));
                    assert(row_refs(row@, first.len() as int) =~= earlier + bindings@[b as int].sources@.take(i as int + 1));
                }
                i = i + 1;
            }
            assert(bindings@[b as int].sources@.take(i as int) =~= bindings@[b as int].sources@);
        }
        b = b + 1;
    }
    proof {
        assert(bindings@.take(b as int) =~= bindings@);
        assert forall|source: usize, relation: PositionRelation| binds_node(bindings@, key, NodeRef { node: source, relation }) implies exists|m: int|
            first.len() <= m < row@.len() && (#[trigger] row@[m]).source == source && row@[m].relation == relation by {
            let x = NodeRef { node: source, relation };
            let c = choose|c: int| 0 <= c < bindings@.len() && (#[trigger] bindings@[c]).key == key && bindings@[c].sources@.contains(x);
            let i = choose|i: int| 0 <= i < bindings@[c].sources@.len() && bindings@[c].sources@[i] == x;
            assert(listed(row@, first.len() as int, bindings@[c].sources@[i]));
        }
    }
}

/// What the edges from `from` on read.
spec fn row_refs(row: Seq<DagEdge>, from: int) -> Seq<NodeRef> {
    Seq::new((row.len() - from) as nat, |k: int| NodeRef { node: row[from + k].source, relation: row[from + k].relation })
}

spec fn listed(row: Seq<DagEdge>, from: int, x: NodeRef) -> bool {
    exists|m: int| from <= m < row.len() && (#[trigger] row[m]).source == x.node && row[m].relation == x.relation
}

/// The set holds what every one of its nodes depends on.
pub open spec fn graph_closed(graph: DependencyDag, set: Set<usize>) -> bool {
    forall|e: int|
        0 <= e < graph.edges@.len() && set.contains((#[trigger] graph.edges@[e]).destination)
            ==> set.contains(graph.edges@[e].source)
}

/// The sources of `node` are marked or copied.
spec fn sources_marked(graph: DependencyDag, marks: Seq<bool>, cache: Map<usize, usize>, node: int) -> bool {
    forall|e: int|
        0 <= e < graph.edges@.len() && (#[trigger] graph.edges@[e]).destination == node
            ==> graph.edges@[e].source < marks.len() && (marks[graph.edges@[e].source as int]
            || cache.contains_key(graph.edges@[e].source))
}

/// Every marked node belongs to each closed set that has the root.
spec fn marks_needed(graph: DependencyDag, marks: Seq<bool>, root: usize) -> bool {
    forall|set: Set<usize>, c: usize|
        #![trigger graph_closed(graph, set), set.contains(c)]
        graph_closed(graph, set) && set.contains(root) && c < marks.len() && marks[c as int] ==> set.contains(c)
}

/// Marks the nodes that `root` depends on and that are not copied yet.
fn mark_retained(graph: &DependencyDag, root: usize, cache: &HashMap<usize, usize>) -> (r: Vec<bool>)
    requires
        graph.wf(),
        graph.forward(),
        root < graph.nodes@.len(),
        !cache@.contains_key(root),
    ensures
        r@.len() == root + 1,
        r@[root as int],
        forall|c: int|
            0 <= c < r@.len() && #[trigger] r@[c] ==> !cache@.contains_key(c as usize)
                && sources_marked(*graph, r@, cache@, c),
        marks_needed(*graph, r@, root),
{
    let mut r: Vec<bool> = Vec::new();
    let mut k: usize = 0;
    while k < root
        invariant
            k <= root,
            r@.len() == k,
            forall|c: int| 0 <= c < k ==> !#[trigger] r@[c],
        decreases root - k,
    {
        r.push(false);
        k = k + 1;
    }
    r.push(true);
    let mut top: usize = root;
    let mut done: bool = false;
    while !done
        invariant
            graph.wf(),
            graph.forward(),
            root < graph.nodes@.len(),
            top <= root,
            r@.len() == root + 1,
            r@[root as int],
            forall|c: int| 0 <= c < r@.len() && #[trigger] r@[c] ==> !cache@.contains_key(c as usize),
            forall|c: int|
                (if done { 0 } else { top + 1 }) <= c < r@.len() && #[trigger] r@[c] ==> sources_marked(
                    *graph,
                    r@,
                    cache@,
                    c,
                ),
            marks_needed(*graph, r@, root),
            done ==> top == 0,
        decreases (if done { 0 } else { top + 1 }),
    {
        if r[top] {
            let incoming = &graph.incoming[top];
            assert(dag::leads_to(graph.edges@, top as int, graph.edges@.len() as int, graph.incoming@[top as int]@));
            let mut m: usize = 0;
            while m < incoming.len()
                invariant
                    graph.wf(),
                    graph.forward(),
                    root < graph.nodes@.len(),
                    top <= root,
                    m <= incoming@.len(),
                    incoming == graph.incoming@[top as int],
                    dag::leads_to(graph.edges@, top as int, graph.edges@.len() as int, incoming@),
                    r@.len() == root + 1,
                    r@[root as int],
                    r@[top as int],
                    forall|c: int|
                        0 <= c < r@.len() && #[trigger] r@[c] ==> !cache@.contains_key(c as usize),
                    forall|c: int|
                        top + 1 <= c < r@.len() && #[trigger] r@[c] ==> sources_marked(
                            *graph,
                            r@,
                            cache@,
                            c,
                        ),
                    marks_needed(*graph, r@, root),
                    forall|j: int|
                        0 <= j < m ==> {
                            let source = graph.edges@[(#[trigger] incoming@[j]) as int].source;
                            source < r@.len() && (r@[source as int] || cache@.contains_key(source))
                        },
                decreases incoming@.len() - m,
            {
                let index: usize = incoming[m];
                let ghost before = r@;
                assert(graph.edges@[index as int].destination == top);
                let source: usize = graph.edges[index].source;
                assert(source <= top);
                if !cache.contains_key(&source) {
                    r.set(source, true);
                    proof {
                        assert forall|set: Set<usize>, c: usize|
                            #![trigger graph_closed(*graph, set), set.contains(c)]
                            graph_closed(*graph, set) && set.contains(root) && c < r@.len() && r@[c as int] implies set.contains(c) by {
                            if c == source {
                                assert(set.contains(top));
                                assert(graph.edges@[index as int].destination == top);
                            } else {
                                assert(before[c as int]);
                            }
                        }
                        assert forall|c: int| top + 1 <= c < r@.len() && #[trigger] r@[c] implies sources_marked(*graph, r@, cache@, c) by {
                            assert(before[c]);
                            assert(sources_marked(*graph, before, cache@, c));
                        }
                    }
                }
                m = m + 1;
            }
            proof {
                assert forall|e: int| 0 <= e < graph.edges@.len() && (#[trigger] graph.edges@[e]).destination == top implies graph.edges@[e].source < r@.len()
                    && (r@[graph.edges@[e].source as int] || cache@.contains_key(graph.edges@[e].source)) by {
                    assert(incoming@.contains(e as usize));
                    let j = choose|j: int| 0 <= j < incoming@.len() && incoming@[j] == e as usize;
                    dag::lemma_edge_index(graph.edges, e);
                    assert(graph.edges@[incoming@[j] as int].source == graph.edges@[e].source);
                }
                assert(sources_marked(*graph, r@, cache@, top as int));
            }
        }
        if top == 0 {
            done = true;
        } else {
            top = top - 1;
        }
    }
    r
}

fn copy_domains(domains: &Vec<PositionDomain>) -> (r: Vec<PositionDomain>)
    ensures
        r@ == domains@,
{
    let mut r: Vec<PositionDomain> = Vec::new();
    let mut i: usize = 0;
    while i < domains.len()
        invariant
            i <= domains.len(),
            r@ == domains@.take(i as int),
        decreases domains.len() - i,
    {
        r.push(domains[i]);
        i = i + 1;
        assert(domains@.take(i as int) =~= domains@.take(i - 1).push(domains@[i - 1]));
    }
    assert(domains@.take(i as int) =~= domains@);
    r
}

/// Node `n` is the copy of an entry that the second cache has gained.
pub open spec fn new_copy(before: Map<usize, usize>, after: Map<usize, usize>, n: int) -> bool {
    exists|c: usize| #[trigger] after.contains_key(c) && !before.contains_key(c) && after[c] == n
}

/// The nodes that stand for keys come before `limit`.
pub open spec fn bindings_below(bindings: Seq<NodeBinding>, limit: int) -> bool {
    forall|b: int, i: int|
        0 <= b < bindings.len() && 0 <= i < bindings[b].sources@.len() ==> (
        #[trigger] bindings[b].sources@[i]).node < limit
}

/// Copies `root` and what it depends on, sharing the copies that `cache` already lists.
pub fn inline_dependency_dag_cached(
    graph: &DependencyDag,
    root: Option<usize>,
    bindings: &Vec<NodeBinding>,
    remapper: &mut BranchRemapper,
    arena: &mut PathArena,
    cache: &mut HashMap<usize, usize>,
    builder: &mut DagBuilder,
) -> (r: Option<usize>)
    requires
        graph.wf(),
        graph.forward(),
        graph.guarded_in(old(arena)@),
        root matches Some(n) ==> n < graph.nodes@.len(),
        old(arena).wf(),
        old(remapper).wf(*old(arena)),
        ssa::renames_graph(old(remapper).mapping@, *graph, old(arena)@),
        old(builder).wf(),
        old(builder).guarded_in(old(arena)@),
        bindings_below(bindings@, old(builder).nodes@.len() as int),
        inlined(
            *graph,
            old(remapper).mapping@,
            bindings@,
            old(cache)@,
            *old(builder),
            old(arena)@,
        ),
    ensures
        final(arena).wf(),
        arena::grows(old(arena)@, final(arena)@),
        final(remapper).wf(*final(arena)),
        final(remapper).mapping == old(remapper).mapping,
        final(builder).wf(),
        final(builder).guarded_in(final(arena)@),
        final(builder).grown(*old(builder)),
        cache_grows(old(cache)@, final(cache)@),
        inlined(
            *graph,
            old(remapper).mapping@,
            bindings@,
            final(cache)@,
            *final(builder),
            final(arena)@,
        ),
        root is None ==> r is None && *final(builder) == *old(builder),
        root matches Some(n) ==> final(cache)@.contains_key(n) && r == Some(final(cache)@[n]),
        // Nothing but what the root depends on is copied.
        root matches Some(n) ==> forall|set: Set<usize>, c: usize|
            #![trigger graph_closed(*graph, set), set.contains(c)]
            graph_closed(*graph, set) && set.contains(n) && final(cache)@.contains_key(c) && !old(cache)@.contains_key(c) ==> set.contains(c),
        root is None ==> final(cache)@ == old(cache)@,
        forall|c: usize| #[trigger]
            final(cache)@.contains_key(c) && !old(cache)@.contains_key(c) ==> final(cache)@[c] >= old(builder).nodes@.len(),
        // A new node is the copy of a new entry.
        forall|n: int|
            old(builder).nodes@.len() <= n < final(builder).nodes@.len() ==> #[trigger] new_copy(
                old(cache)@,
                final(cache)@,
                n,
            ),
{
    let root: usize = match root {
        Some(root) => root,
        None => {
            return None;
        },
    };
    if let Some(found) = cache.get(&root) {
        return Some(*found);
    }
    let ghost mapping = remapper.mapping@;
    let ghost paths0 = arena@;
    let ghost builder0 = *builder;
    let ghost cache0 = cache@;
    let marks = mark_retained(graph, root, cache);
    let mut c: usize = 0;
    while c < marks.len()
        invariant
            c <= root + 1,
            root < graph.nodes@.len(),
            graph.wf(),
            graph.forward(),
            paths0 == old(arena)@,
            builder0 == *old(builder),
            cache0 == old(cache)@,
            mapping == old(remapper).mapping@,
            graph.guarded_in(paths0),
            ssa::renames_graph(mapping, *graph, paths0),
            old(arena).wf(),
            arena.wf(),
            arena::grows(paths0, arena@),
            remapper.wf(*arena),
            remapper.mapping == old(remapper).mapping,
            builder.wf(),
            builder.guarded_in(arena@),
            builder.grown(builder0),
            builder0.wf(),
            bindings_below(bindings@, builder0.nodes@.len() as int),
            cache_grows(cache0, cache@),
            inlined(*graph, mapping, bindings@, cache@, *builder, arena@),
            marks@.len() == root + 1,
            marks@[root as int],
            forall|d: int|
                0 <= d < marks@.len() && #[trigger] marks@[d] ==> !cache0.contains_key(d as usize)
                    && sources_marked(*graph, marks@, cache0, d),
            marks_needed(*graph, marks@, root),
            forall|d: usize| #[trigger] cache@.contains_key(d) && !cache0.contains_key(d) ==> cache@[d] >= builder0.nodes@.len(),
            forall|d: usize| d < c && #[trigger] marks@[d as int] ==> cache@.contains_key(d),
            forall|d: usize| #[trigger]
                cache@.contains_key(d) && !cache0.contains_key(d) ==> d < c && marks@[d as int],
            forall|n: int|
                builder0.nodes@.len() <= n < builder.nodes@.len() ==> #[trigger] new_copy(
                    cache0,
                    cache@,
                    n,
                ),
        decreases root + 1 - c,
    {
        if marks[c] {
            let ghost before = *builder;
            let ghost paths1 = arena@;
            let ghost cache1 = cache@;
            let node: usize = builder.nodes.len();
            proof {
                assert forall|e: int| 0 <= e < graph.edges@.len() && (#[trigger] graph.edges@[e]).destination == c && graph.edges@[e].source != c
                    implies cache@.contains_key(graph.edges@[e].source) by {
                    let source = graph.edges@[e].source;
                    assert(sources_marked(*graph, marks@, cache0, c as int));
                    assert(source < c);
                    if marks@[source as int] {
                        assert(cache@.contains_key(source));
                    } else {
                        assert(cache0.contains_key(source));
                    }
                }
                assert forall|d: usize| #[trigger] cache@.contains_key(d) implies cache@[d] < node by {
                    assert(child_placed(*graph, mapping, bindings@, cache@, *builder, arena@, d));
                }
                assert forall|b: int, i: int| 0 <= b < bindings@.len() && 0 <= i < bindings@[b].sources@.len() implies (#[trigger] bindings@[b].sources@[i]).node < node by {
                    assert(bindings@[b].sources@[i].node < builder0.nodes@.len());
                }
                lemma_renames_grow(mapping, *graph, paths0, arena@);
                assert forall|e: int| 0 <= e < graph.edges@.len() implies (#[trigger] graph.edges@[e]).condition.node < arena@.len() by {
                    assert(graph.edges@[e].condition.node < paths0.len());
                }
                assert(!cache@.contains_key(c));
            }
            let row = child_row(graph, c, node, bindings, remapper, arena, cache);
            let kind = match graph.nodes[c] {
                DagNode::RegularTransfer => DagNode::RegularTransfer,
                _ => DagNode::Internal,
            };
            let domains = copy_domains(&graph.domains[c]);
            let added = builder.add_node(kind, domains, &row);
            cache.insert(c, node);
            proof {
                arena::growth_is_transitive(paths0, paths1, arena@);
                let more = cache@;
                assert(cache_grows(cache1, more));
                assert forall|x: usize, y: usize| #[trigger] more.contains_key(x) && #[trigger] more.contains_key(y) && x != y implies more[x] != more[y] by {
                    if x != c {
                        assert(cache1.contains_key(x));
                    }
                    if y != c {
                        assert(cache1.contains_key(y));
                    }
                }
                assert forall|e: int| 0 <= e < graph.edges@.len() implies (#[trigger] graph.edges@[e]).condition.node < paths1.len() by {
                    assert(graph.edges@[e].condition.node < paths0.len());
                }
                assert forall|d: usize| #[trigger] cache@.contains_key(d) implies child_placed(*graph, mapping, bindings@, more, *builder, arena@, d) by {
                    if d == c {
                        assert forall|e: int| 0 <= e < before.edges@.len() implies (#[trigger] before.edges@[e]).destination != node by {}
                        lemma_arrivals_row(before.edges@, row@, arena@, node);
                        assert forall|source: usize, relation: PositionRelation, path: Seq<Choice>| #[trigger] arrives(builder.edges@, arena@, node, source, relation, path)
                            <==> child_wants(*graph, mapping, bindings@, more, arena@, c, source, relation, path) by {
                            lemma_arrives_row(before, builder.edges@, row@, arena@, node, source, relation, path);
                            assert(row_has(row@, arena@, source, relation, path) <==> child_wants(*graph, mapping, bindings@, more, arena@, c, source, relation, path));
                        }
                        assert forall|e: int| 0 <= e < graph.edges@.len() && (#[trigger] graph.edges@[e]).destination == c implies more.contains_key(graph.edges@[e].source) by {
                            if graph.edges@[e].source != c {
                                assert(cache1.contains_key(graph.edges@[e].source));
                            }
                        }
                    } else {
                        assert(cache1.contains_key(d));
                        lemma_inlined_grows(*graph, mapping, bindings@, cache1, more, before, *builder, paths1, arena@, d);
                    }
                }
                assert forall|e: int| 0 <= e < builder.edges@.len() implies (#[trigger] builder.edges@[e]).condition.node < arena@.len() by {
                    if e < before.edges@.len() {
                        assert(before.edges@[e].condition.node < paths1.len());
                    } else {
                        assert(builder.edges@[e] == row@[e - before.edges@.len()]);
                    }
                }
                lemma_grown_trans(builder0, before, *builder);
                assert forall|n: int| builder0.nodes@.len() <= n < builder.nodes@.len() implies #[trigger] new_copy(cache0, cache@, n) by {
                    if n < node {
                        assert(new_copy(cache0, cache1, n));
                        let d = choose|d: usize| #[trigger] cache1.contains_key(d) && !cache0.contains_key(d) && cache1[d] == n;
                        assert(cache@.contains_key(d) && cache@[d] == n);
                    } else {
                        assert(cache@.contains_key(c) && cache@[c] == n);
                    }
                }
            }
        }
        c = c + 1;
    }
    assert(cache@.contains_key(root)) by {
        assert(marks@[root as int]);
    }
    match cache.get(&root) {
        Some(node) => Some(*node),
        None => None,
    }
}

pub(crate) proof fn lemma_grown_trans(a: DagBuilder, b: DagBuilder, c: DagBuilder)
    requires
        b.grown(a),
        c.grown(b),
    ensures
        c.grown(a),
{
    assert forall|i: int| 0 <= i < a.nodes@.len() implies #[trigger] c.nodes@[i] == a.nodes@[i] by {
        assert(b.nodes@[i] == a.nodes@[i]);
    }
    assert forall|i: int| 0 <= i < a.nodes@.len() implies #[trigger] c.domains@[i] == a.domains@[i] by {
        assert(b.domains@[i] == a.domains@[i]);
    }
    assert forall|e: int| 0 <= e < a.edges@.len() implies #[trigger] c.edges@[e] == a.edges@[e] by {
        assert(b.edges@[e] == a.edges@[e]);
    }
    assert forall|e: int| a.edges@.len() <= e < c.edges@.len() implies (#[trigger] c.edges@[e]).destination >= a.nodes@.len() by {
        if e < b.edges@.len() {
            assert(b.edges@[e].destination >= a.nodes@.len());
        }
    }
}

/// A renaming that keeps order does so in a grown arena.
pub(crate) proof fn lemma_renames_grow(mapping: Seq<(BranchId, BranchId)>, graph: DependencyDag, p: Seq<PathNode>, q: Seq<PathNode>)
    requires
        arena::grows(p, q),
        graph.guarded_in(p),
        ssa::renames_graph(mapping, graph, p),
    ensures
        ssa::renames_graph(mapping, graph, q),
{
    assert forall|a: BranchId| #[trigger] ssa::graph_branch(graph, q, a) implies ssa::graph_branch(graph, p, a) by {
        let e = choose|e: int| 0 <= e < graph.edges@.len() && path::constrains(arena::path_of(q, (#[trigger] graph.edges@[e]).condition.node as int), a);
        arena::growth_keeps_paths(p, q, graph.edges@[e].condition.node as int);
        assert(path::constrains(arena::path_of(p, graph.edges@[e].condition.node as int), a));
    }
}

/// Copies `root` and what it depends on.
pub fn inline_dependency_dag(
    graph: &DependencyDag,
    root: Option<usize>,
    bindings: &Vec<NodeBinding>,
    remapper: &mut BranchRemapper,
    arena: &mut PathArena,
    builder: &mut DagBuilder,
) -> (r: Option<usize>)
    requires
        graph.wf(),
        graph.forward(),
        graph.guarded_in(old(arena)@),
        root matches Some(n) ==> n < graph.nodes@.len(),
        old(arena).wf(),
        old(remapper).wf(*old(arena)),
        ssa::renames_graph(old(remapper).mapping@, *graph, old(arena)@),
        old(builder).wf(),
        old(builder).guarded_in(old(arena)@),
        bindings_below(bindings@, old(builder).nodes@.len() as int),
    ensures
        final(arena).wf(),
        arena::grows(old(arena)@, final(arena)@),
        final(remapper).wf(*final(arena)),
        final(remapper).mapping == old(remapper).mapping,
        final(builder).wf(),
        final(builder).guarded_in(final(arena)@),
        final(builder).grown(*old(builder)),
        root is None <==> r is None,
        root is None ==> *final(builder) == *old(builder),
        root matches Some(n) ==> exists|cache: Map<usize, usize>| #[trigger]
            inlined(
                *graph,
                old(remapper).mapping@,
                bindings@,
                cache,
                *final(builder),
                final(arena)@,
            ) && cache.contains_key(n) && r == Some(cache[n]) && forall|set: Set<usize>, c: usize|
                #![trigger graph_closed(*graph, set), set.contains(c)]
                graph_closed(*graph, set) && set.contains(n) && cache.contains_key(c) ==> set.contains(c),
{
    let mut cache: HashMap<usize, usize> = HashMap::new();
    let r = inline_dependency_dag_cached(graph, root, bindings, remapper, arena, &mut cache, builder);
    assert(root is Some ==> inlined(*graph, old(remapper).mapping@, bindings@, cache@, *builder, arena@));
    r
}

} // verus!
