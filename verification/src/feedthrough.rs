//! The dependencies that run through an instance.
use vstd::prelude::*;
use crate::arena;
use crate::arena::{PathArena, PathCondition, PathNode};
use crate::fragments::SummaryRegion;
use crate::graph;
use crate::graph::{DependencyGraph, GraphEdge, GraphNode};
use crate::instance::MappedNode;
use crate::partition::BitPartition;
use crate::path;
use crate::path::{BranchId, Choice};
use crate::relation::{PositionDomain, PositionRelation};

verus! {

/// Which way values cross the boundary of an instance.
#[derive(Clone, Copy, Debug, PartialEq, Eq, Structural)]
pub enum BoundaryFlow {
    ParentToChild,
    ChildToParent,
}

/// The node of the graph that a node of an instance's mapping became.
#[derive(Clone, Copy, Debug, PartialEq, Eq)]
pub struct ResolvedNode {
    /// The node of the parent's variable.
    pub parent: usize,
    /// The node at which dependencies of the child start or end.
    pub node: usize,
    pub offset: PositionRelation,
    pub condition: PathCondition,
}

/// A node of its own keeps the child's positions apart: no one offset leads to the parent.
pub open spec fn crosses(mapped: MappedNode) -> bool {
    mapped.child_domain is Some && (mapped.offset.array is None || mapped.offset.packed is None)
}

pub open spec fn domain_of(region: SummaryRegion) -> PositionDomain {
    PositionDomain {
        array_start: region.array.start,
        array_length: region.array.length,
        packed_start: region.packed.start,
        packed_length: region.packed.length,
    }
}

/// The node stands for that of the mapping.
pub open spec fn resolves(nodes: Seq<GraphNode>, mapped: MappedNode, r: ResolvedNode) -> bool {
    &&& graph::stands_for(nodes, r.parent as int, mapped.key)
    &&& if crosses(mapped) {
        &&& graph::is_internal(
            nodes,
            r.node as int,
            mapped.child_domain->0,
            seq![domain_of(mapped.child_domain->0)],
            false,
        )
        &&& r.offset == PositionRelation::identity()
        &&& r.condition.node == 0
    } else {
        r.node == r.parent && r.offset == mapped.offset && r.condition == mapped.condition
    }
}

pub open spec fn negated_axis(offset: Option<isize>) -> Option<isize> {
    match offset {
        Some(offset) => Some((-offset) as isize),
        None => None,
    }
}

/// The edge between the parent's node and the one that keeps the child's positions.
pub open spec fn boundary_edge(mapped: MappedNode, r: ResolvedNode, flow: BoundaryFlow) -> GraphEdge {
    match flow {
        BoundaryFlow::ParentToChild => GraphEdge {
            source: r.parent,
            destination: r.node,
            kind: PositionRelation {
                array: negated_axis(mapped.offset.array),
                packed: negated_axis(mapped.offset.packed),
            },
            condition: mapped.condition,
            carrier: false,
        },
        BoundaryFlow::ChildToParent => GraphEdge {
            source: r.node,
            destination: r.parent,
            kind: mapped.offset,
            condition: mapped.condition,
            carrier: false,
        },
    }
}

/// The edges of the first `count` nodes that keep the child's positions.
pub open spec fn boundary_edges(
    mapped: Seq<MappedNode>,
    resolved: Seq<Option<ResolvedNode>>,
    flow: BoundaryFlow,
    count: int,
) -> Seq<GraphEdge>
    decreases count,
{
    if count <= 0 {
        Seq::empty()
    } else if crosses(mapped[count - 1]) && resolved[count - 1] is Some {
        boundary_edges(mapped, resolved, flow, count - 1).push(
            boundary_edge(mapped[count - 1], resolved[count - 1]->0, flow),
        )
    } else {
        boundary_edges(mapped, resolved, flow, count - 1)
    }
}

/// What each node of a mapping became: nothing where its key has no region.
pub open spec fn resolution(
    nodes: Seq<GraphNode>,
    partition: BitPartition,
    mapped: Seq<MappedNode>,
    resolved: Seq<Option<ResolvedNode>>,
) -> bool {
    &&& mapped.len() == resolved.len()
    &&& forall|i: int|
        0 <= i < mapped.len() ==> became(nodes, partition, mapped[i], #[trigger] resolved[i])
}

pub open spec fn became(
    nodes: Seq<GraphNode>,
    partition: BitPartition,
    mapped: MappedNode,
    resolved: Option<ResolvedNode>,
) -> bool {
    match resolved {
        Some(r) => partition.is_node(mapped.key) && resolves(nodes, mapped, r),
        None => !partition.is_node(mapped.key),
    }
}

/// The offsets can be negated where values flow into the child.
pub open spec fn can_cross(partition: BitPartition, mapped: Seq<MappedNode>, flow: BoundaryFlow) -> bool {
    flow == BoundaryFlow::ParentToChild ==> forall|i: int|
        0 <= i < mapped.len() && crosses(#[trigger] mapped[i]) && partition.is_node(mapped[i].key)
            ==> mapped[i].offset.reversible()
}

/// A resolved node stays so as the graph grows.
pub proof fn lemma_resolves_kept(
    a: Seq<GraphNode>,
    b: Seq<GraphNode>,
    mapped: MappedNode,
    r: ResolvedNode,
)
    requires
        graph::nodes_kept(a, b),
        resolves(a, mapped, r),
    ensures
        resolves(b, mapped, r),
{
    assert(a[r.parent as int] == b[r.parent as int]);
    if crosses(mapped) {
        assert(a[r.node as int] == b[r.node as int]);
    }
}

proof fn lemma_boundary_edges_agree(
    mapped: Seq<MappedNode>,
    a: Seq<Option<ResolvedNode>>,
    b: Seq<Option<ResolvedNode>>,
    flow: BoundaryFlow,
    count: int,
)
    requires
        count <= a.len(),
        count <= b.len(),
        forall|i: int| 0 <= i < count ==> a[i] == b[i],
    ensures
        boundary_edges(mapped, a, flow, count) == boundary_edges(mapped, b, flow, count),
    decreases count,
{
    if count > 0 {
        lemma_boundary_edges_agree(mapped, a, b, flow, count - 1);
        assert(a[count - 1] == b[count - 1]);
    }
}

/// The edge of each node that keeps the child's positions is among them.
pub(crate) proof fn lemma_boundary_edge_added(mapped: Seq<MappedNode>, resolved: Seq<Option<ResolvedNode>>, flow: BoundaryFlow, count: int, k: int)
    requires
        0 <= k < count,
        crosses(mapped[k]),
        resolved[k] is Some,
    ensures
        boundary_edges(mapped, resolved, flow, count).contains(boundary_edge(mapped[k], resolved[k]->0, flow)),
    decreases count,
{
    let all = boundary_edges(mapped, resolved, flow, count);
    if k == count - 1 {
        assert(all[all.len() - 1] == boundary_edge(mapped[k], resolved[k]->0, flow));
    } else {
        let fewer = boundary_edges(mapped, resolved, flow, count - 1);
        lemma_boundary_edge_added(mapped, resolved, flow, count - 1, k);
        let at = choose|at: int| 0 <= at < fewer.len() && fewer[at] == boundary_edge(mapped[k], resolved[k]->0, flow);
        assert(all[at] == fewer[at]);
    }
}

/// Finds or makes the nodes of a mapping. There is no answer where an offset cannot be negated.
pub fn resolve_instance_mapping(
    graph: &mut DependencyGraph,
    partition: &BitPartition,
    mapped: &Vec<MappedNode>,
    flow: BoundaryFlow,
) -> (r: Option<Vec<Option<ResolvedNode>>>)
    requires
        old(graph).wf(),
        old(graph).placed_in(*partition),
        partition.wf(),
    ensures
        final(graph).wf(),
        final(graph).placed_in(*partition),
        graph::nodes_kept(old(graph).nodes@, final(graph).nodes@),
        r is Some <==> can_cross(*partition, mapped@, flow),
        r matches Some(found) ==> {
            &&& resolution(final(graph).nodes@, *partition, mapped@, found@)
            &&& forall|k: int| 0 <= k < found@.len() && (#[trigger] found@[k]) is Some && crosses(mapped@[k]) ==> found@[k]->0.node >= old(graph).nodes@.len()
            &&& final(graph).edges@ == old(graph).edges@ + boundary_edges(mapped@, found@, flow, mapped@.len() as int)
        },
{
    let ghost before = *graph;
    let mut resolved: Vec<Option<ResolvedNode>> = Vec::new();
    proof {
        assert(graph.edges@ =~= before.edges@ + boundary_edges(mapped@, resolved@, flow, 0));
        assert(mapped@.take(0) =~= Seq::empty());
    }
    let mut i: usize = 0;
    while i < mapped.len()
        invariant
            i <= mapped@.len(),
            before == *old(graph),
            resolved@.len() == i,
            partition.wf(),
            can_cross(*partition, mapped@.take(i as int), flow),
            graph.wf(),
            graph.placed_in(*partition),
            graph::nodes_kept(before.nodes@, graph.nodes@),
            forall|k: int| 0 <= k < i ==> became(graph.nodes@, *partition, mapped@[k], #[trigger] resolved@[k]),
            forall|k: int| 0 <= k < i && (#[trigger] resolved@[k]) is Some && crosses(mapped@[k]) ==> resolved@[k]->0.node >= before.nodes@.len(),
            graph.edges@ == before.edges@ + boundary_edges(mapped@, resolved@, flow, i as int),
        decreases mapped@.len() - i,
    {
        let node = mapped[i];
        let ghost known = *graph;
        let ghost resolved0 = resolved@;
        let found = graph.ensure_node(partition, node.key);
        let ghost middle = *graph;
        let mut result: Option<ResolvedNode> = None;
        if let Some(parent) = found {
            let apart: bool = match node.child_domain {
                Some(_) => node.offset.array.is_none() || node.offset.packed.is_none(),
                None => false,
            };
            if apart {
                if flow == BoundaryFlow::ParentToChild && !node.offset.can_be_reversed() {
                    proof {
                        graph::nodes_kept_is_transitive(before.nodes@, known.nodes@, graph.nodes@);
                        assert(crosses(mapped@[i as int]) && partition.is_node(mapped@[i as int].key));
                    }
                    return None;
                }
                let region = node.child_domain.unwrap();
                let mut domains: Vec<PositionDomain> = Vec::new();
                domains.push(
                    PositionDomain {
                        array_start: region.array.start,
                        array_length: region.array.length,
                        packed_start: region.packed.start,
                        packed_length: region.packed.length,
                    },
                );
                assert(domains@ =~= seq![domain_of(region)]);
                let boundary: usize = graph.add_internal(region, domains, false);
                assert(middle.nodes@[parent as int] == graph.nodes@[parent as int]);
                let r = ResolvedNode {
                    parent,
                    node: boundary,
                    offset: PositionRelation::default(),
                    condition: PathCondition { node: 0 },
                };
                assert(crosses(mapped@[i as int]));
                let edge = match flow {
                    BoundaryFlow::ParentToChild => GraphEdge {
                        source: parent,
                        destination: boundary,
                        kind: node.offset.reversed(),
                        condition: node.condition,
                        carrier: false,
                    },
                    BoundaryFlow::ChildToParent => GraphEdge {
                        source: boundary,
                        destination: parent,
                        kind: node.offset,
                        condition: node.condition,
                        carrier: false,
                    },
                };
                assert(edge == boundary_edge(node, r, flow));
                graph.add_dependency_edge(edge);
                result = Some(r);
            } else {
                result = Some(
                    ResolvedNode {
                        parent,
                        node: parent,
                        offset: node.offset,
                        condition: node.condition,
                    },
                );
            }
        }
        resolved.push(result);
        proof {
            graph::nodes_kept_is_transitive(before.nodes@, known.nodes@, graph.nodes@);
            assert forall|k: int| 0 <= k < i + 1 implies became(graph.nodes@, *partition, mapped@[k], #[trigger] resolved@[k]) by {
                if k < i {
                    assert(became(known.nodes@, *partition, mapped@[k], resolved0[k]));
                    if let Some(r) = resolved0[k] {
                        lemma_resolves_kept(known.nodes@, graph.nodes@, mapped@[k], r);
                    }
                }
            }
            assert(can_cross(*partition, mapped@.take(i + 1), flow)) by {
                let longer = mapped@.take(i + 1);
                assert forall|k: int| flow == BoundaryFlow::ParentToChild && 0 <= k < longer.len() && crosses(#[trigger] longer[k]) && partition.is_node(longer[k].key) implies longer[k].offset.reversible() by {
                    if k < i {
                        assert(mapped@.take(i as int)[k] == longer[k]);
                    }
                }
            }
            lemma_boundary_edges_agree(mapped@, resolved0, resolved@, flow, i as int);
            assert(graph.edges@ =~= before.edges@ + boundary_edges(mapped@, resolved@, flow, i + 1));
        }
        i = i + 1;
    }
    assert(mapped@.take(i as int) =~= mapped@);
    Some(resolved)
}

/// The offset between two positions of parents, given that between those of the child.
pub open spec fn joined_axis(kind: Option<isize>, source: Option<isize>, destination: Option<isize>) -> Option<isize> {
    match (kind, source, destination) {
        (Some(kind), Some(source), Some(destination)) => Some((kind + destination - source) as isize),
        _ => None,
    }
}

pub open spec fn axis_joins(kind: Option<isize>, source: Option<isize>, destination: Option<isize>) -> bool {
    match (kind, source, destination) {
        (Some(kind), Some(source), Some(destination)) => isize::MIN <= kind + destination <= isize::MAX
            && isize::MIN <= kind + destination - source <= isize::MAX,
        _ => true,
    }
}

fn axis_fits(kind: Option<isize>, source: Option<isize>, destination: Option<isize>) -> (r: bool)
    ensures
        r == axis_joins(kind, source, destination),
{
    match (kind, source, destination) {
        (Some(kind), Some(source), Some(destination)) => match kind.checked_add(destination) {
            Some(sum) => sum.checked_sub(source).is_some(),
            None => false,
        },
        _ => true,
    }
}

fn join_axis(kind: Option<isize>, source: Option<isize>, destination: Option<isize>) -> (r: Option<isize>)
    requires
        axis_joins(kind, source, destination),
    ensures
        r == joined_axis(kind, source, destination),
{
    match (kind, source, destination) {
        (Some(kind), Some(source), Some(destination)) => Some(kind + destination - source),
        _ => None,
    }
}

pub open spec fn joined_kind(kind: PositionRelation, source: PositionRelation, destination: PositionRelation) -> PositionRelation {
    PositionRelation {
        array: joined_axis(kind.array, source.array, destination.array),
        packed: joined_axis(kind.packed, source.packed, destination.packed),
    }
}

pub open spec fn kind_joins(kind: PositionRelation, source: PositionRelation, destination: PositionRelation) -> bool {
    axis_joins(kind.array, source.array, destination.array) && axis_joins(
        kind.packed,
        source.packed,
        destination.packed,
    )
}

/// A position of the one run is a position of the other once moved by the offset; without one, any
/// positions are.
pub open spec fn axis_meets(a: int, a_length: int, b: int, b_length: int, offset: Option<isize>) -> bool {
    match offset {
        Some(offset) => exists|x: int| a <= x < a + a_length && b <= #[trigger] moved(x, offset as int) < b + b_length,
        None => true,
    }
}

pub open spec fn moved(x: int, offset: int) -> int {
    x + offset
}

/// A position of the one region leads to a position of the other.
pub open spec fn regions_meet(a: SummaryRegion, b: SummaryRegion, kind: PositionRelation) -> bool {
    axis_meets(a.array.start as int, a.array.length as int, b.array.start as int, b.array.length as int, kind.array) && axis_meets(
        a.packed.start as int,
        a.packed.length as int,
        b.packed.start as int,
        b.packed.length as int,
        kind.packed,
    )
}

fn axis_meets_at(a: usize, a_length: usize, b: usize, b_length: usize, offset: Option<isize>) -> (r: bool)
    ensures
        r == axis_meets(a as int, a_length as int, b as int, b_length as int, offset),
{
    match offset {
        None => true,
        Some(offset) => {
            let a_start: i128 = a as i128 + offset as i128;
            let a_end: i128 = a_start + a_length as i128;
            let b_start: i128 = b as i128;
            let b_end: i128 = b_start + b_length as i128;
            let r: bool = a_length > 0 && b_length > 0 && a_start < b_end && b_start < a_end;
            proof {
                if r {
                    let x: int = if a_start >= b_start { a as int } else { b_start - offset };
                    let there = moved(x, offset as int);
                    assert(a <= x < a + a_length && b <= there < b + b_length);
                }
            }
            r
        },
    }
}

fn node_regions_overlap_with_dependency(a: SummaryRegion, b: SummaryRegion, kind: PositionRelation) -> (r: bool)
    ensures
        r == regions_meet(a, b, kind),
{
    axis_meets_at(a.array.start, a.array.length, b.array.start, b.array.length, kind.array) && axis_meets_at(
        a.packed.start,
        a.packed.length,
        b.packed.start,
        b.packed.length,
        kind.packed,
    )
}

/// The three paths leave no common arm to some branch.
pub open spec fn excluded(a: Seq<Choice>, b: Seq<Choice>, c: Seq<Choice>) -> bool {
    exists|branch: BranchId| #[trigger] excluded_at(a, b, c, branch)
}

pub open spec fn excluded_at(a: Seq<Choice>, b: Seq<Choice>, c: Seq<Choice>, branch: BranchId) -> bool {
    forall|arm: int|
        !(#[trigger] path::allows(a, branch, arm) && path::allows(b, branch, arm) && path::allows(c, branch, arm))
}

/// `r` is taken exactly where the three are.
pub open spec fn is_joint(a: Seq<Choice>, b: Seq<Choice>, c: Seq<Choice>, r: Seq<Choice>) -> bool {
    &&& path::path_wf(r)
    &&& forall|branch: BranchId|
        #[trigger] path::constrains(r, branch) <==> path::constrains(a, branch) || path::constrains(b, branch) || path::constrains(c, branch)
    &&& forall|branch: BranchId, arm: int|
        #[trigger] path::allows(r, branch, arm) <==> path::allows(a, branch, arm) && path::allows(b, branch, arm) && path::allows(c, branch, arm)
}

/// All three conditions at once, unless they exclude each other.
fn conjoin_three(arena: &mut PathArena, a: PathCondition, b: PathCondition, c: PathCondition) -> (r: Option<PathCondition>)
    requires
        old(arena).wf(),
        old(arena).holds(a),
        old(arena).holds(b),
        old(arena).holds(c),
    ensures
        final(arena).wf(),
        arena::grows(old(arena)@, final(arena)@),
        r is None <==> excluded(old(arena).path(a), old(arena).path(b), old(arena).path(c)),
        r matches Some(p) ==> final(arena).holds(p) && is_joint(old(arena).path(a), old(arena).path(b), old(arena).path(c), final(arena).path(p)),
{
    let ghost start = *arena;
    let ghost pa = arena.path(a);
    let ghost pb = arena.path(b);
    let ghost pc = arena.path(c);
    match arena.conjoin_if_compatible(a, b) {
        None => {
            proof {
                let branch = choose|branch: BranchId| #[trigger] path::conflict_at(pa, pb, branch);
                assert(excluded_at(pa, pb, pc, branch));
            }
            None
        },
        Some(both) => {
            let ghost middle = *arena;
            let ghost pboth = arena.path(both);
            proof {
                arena::growth_keeps_paths(start@, middle@, c.node as int);
            }
            let r = arena.conjoin_if_compatible(both, c);
            proof {
                arena::growth_is_transitive(start@, middle@, arena@);
                match r {
                    None => {
                        let branch = choose|branch: BranchId| #[trigger] path::conflict_at(pboth, pc, branch);
                        assert forall|arm: int| !(#[trigger] path::allows(pa, branch, arm) && path::allows(pb, branch, arm) && path::allows(pc, branch, arm)) by {
                            assert(path::allows(pboth, branch, arm) <==> path::allows(pa, branch, arm) && path::allows(pb, branch, arm));
                        }
                        assert(excluded_at(pa, pb, pc, branch));
                    },
                    Some(p) => {
                        if excluded(pa, pb, pc) {
                            let branch = choose|branch: BranchId| #[trigger] excluded_at(pa, pb, pc, branch);
                            assert forall|arm: int| !(#[trigger] path::allows(pboth, branch, arm) && path::allows(pc, branch, arm)) by {
                                if path::allows(pboth, branch, arm) {
                                    assert(path::allows(pa, branch, arm));
                                }
                            }
                            assert(path::conflict_at(pboth, pc, branch));
                        }
                    },
                }
            }
            r
        },
    }
}

/// What a dependency of the child is between two nodes.
#[derive(Clone, Copy, Debug, PartialEq, Eq)]
pub struct Joint {
    pub kind: PositionRelation,
    pub condition: PathCondition,
    pub carrier: bool,
}

/// A dependency leads from the one node to the other: under some choice of arms, and for some
/// positions where both are nodes of variables.
pub open spec fn wanted(
    nodes: Seq<GraphNode>,
    paths: Seq<PathNode>,
    source: ResolvedNode,
    destination: ResolvedNode,
    joint: Joint,
) -> bool {
    let a = nodes[source.node as int];
    let b = nodes[destination.node as int];
    &&& !excluded(
        arena::path_of(paths, joint.condition.node as int),
        arena::path_of(paths, source.condition.node as int),
        arena::path_of(paths, destination.condition.node as int),
    )
    &&& !(a.key is Some && b.key is Some && !regions_meet(a.region, b.region, joined_kind(joint.kind, source.offset, destination.offset)))
}

/// The edge is the dependency from the one node to the other.
pub open spec fn joins_nodes(
    paths: Seq<PathNode>,
    source: ResolvedNode,
    destination: ResolvedNode,
    joint: Joint,
    edge: GraphEdge,
) -> bool {
    &&& edge.source == source.node
    &&& edge.destination == destination.node
    &&& edge.kind == joined_kind(joint.kind, source.offset, destination.offset)
    &&& edge.carrier == joint.carrier
    &&& edge.condition.node < paths.len()
    &&& is_joint(
        arena::path_of(paths, joint.condition.node as int),
        arena::path_of(paths, source.condition.node as int),
        arena::path_of(paths, destination.condition.node as int),
        arena::path_of(paths, edge.condition.node as int),
    )
}

/// The node and its condition exist.
pub open spec fn usable(nodes: Seq<GraphNode>, paths: Seq<PathNode>, resolved: Option<ResolvedNode>) -> bool {
    resolved matches Some(r) ==> r.node < nodes.len() && r.condition.node < paths.len()
}

pub open spec fn all_usable(nodes: Seq<GraphNode>, paths: Seq<PathNode>, resolved: Seq<Option<ResolvedNode>>) -> bool {
    forall|i: int| 0 <= i < resolved.len() ==> usable(nodes, paths, #[trigger] resolved[i])
}

/// The offsets of a pair fit, unless no dependency leads from one to the other.
pub open spec fn pair_fits(paths: Seq<PathNode>, source: Option<ResolvedNode>, destination: Option<ResolvedNode>, joint: Joint) -> bool {
    source is Some && destination is Some && !excluded(
        arena::path_of(paths, joint.condition.node as int),
        arena::path_of(paths, source->0.condition.node as int),
        arena::path_of(paths, destination->0.condition.node as int),
    ) ==> kind_joins(joint.kind, source->0.offset, destination->0.offset)
}

/// One of the pairs gives the edge.
pub open spec fn some_joins(
    nodes: Seq<GraphNode>,
    paths: Seq<PathNode>,
    sources: Seq<Option<ResolvedNode>>,
    destinations: Seq<Option<ResolvedNode>>,
    joint: Joint,
    edge: GraphEdge,
) -> bool {
    exists|i: int, j: int|
        0 <= i < sources.len() && 0 <= j < destinations.len() && #[trigger] pair_joins(nodes, paths, sources[i], destinations[j], joint, edge)
}

pub open spec fn pair_joins(
    nodes: Seq<GraphNode>,
    paths: Seq<PathNode>,
    source: Option<ResolvedNode>,
    destination: Option<ResolvedNode>,
    joint: Joint,
    edge: GraphEdge,
) -> bool {
    source is Some && destination is Some && wanted(nodes, paths, source->0, destination->0, joint) && joins_nodes(paths, source->0, destination->0, joint, edge)
}

/// One of the edges is that of the pair, where the pair has one.
pub open spec fn pair_joined(
    nodes: Seq<GraphNode>,
    paths: Seq<PathNode>,
    source: Option<ResolvedNode>,
    destination: Option<ResolvedNode>,
    joint: Joint,
    edges: Seq<GraphEdge>,
) -> bool {
    source is Some && destination is Some && wanted(nodes, paths, source->0, destination->0, joint) ==> exists|k: int|
        0 <= k < edges.len() && joins_nodes(paths, source->0, destination->0, joint, #[trigger] edges[k])
}

/// The edges are those of the pairs.
pub open spec fn joins_pairs(
    nodes: Seq<GraphNode>,
    paths: Seq<PathNode>,
    sources: Seq<Option<ResolvedNode>>,
    destinations: Seq<Option<ResolvedNode>>,
    joint: Joint,
    edges: Seq<GraphEdge>,
) -> bool {
    &&& forall|k: int| 0 <= k < edges.len() ==> some_joins(nodes, paths, sources, destinations, joint, #[trigger] edges[k])
    &&& forall|i: int, j: int|
        0 <= i < sources.len() && 0 <= j < destinations.len() ==> #[trigger] pair_joined(nodes, paths, sources[i], destinations[j], joint, edges)
}

/// What is joined stays joined as conditions are added.
pub proof fn lemma_joins_kept(
    a: Seq<PathNode>,
    b: Seq<PathNode>,
    nodes: Seq<GraphNode>,
    more: Seq<GraphNode>,
    source: ResolvedNode,
    destination: ResolvedNode,
    joint: Joint,
)
    requires
        arena::grows(a, b),
        graph::nodes_kept(nodes, more),
        joint.condition.node < a.len(),
        usable(nodes, a, Some(source)),
        usable(nodes, a, Some(destination)),
    ensures
        wanted(more, b, source, destination, joint) == wanted(nodes, a, source, destination, joint),
        forall|edge: GraphEdge| #[trigger] joins_nodes(a, source, destination, joint, edge) ==> joins_nodes(b, source, destination, joint, edge),
{
    arena::growth_keeps_paths(a, b, joint.condition.node as int);
    arena::growth_keeps_paths(a, b, source.condition.node as int);
    arena::growth_keeps_paths(a, b, destination.condition.node as int);
    assert(nodes[source.node as int] == more[source.node as int]);
    assert(nodes[destination.node as int] == more[destination.node as int]);
    assert forall|edge: GraphEdge| #[trigger] joins_nodes(a, source, destination, joint, edge) implies joins_nodes(b, source, destination, joint, edge) by {
        arena::growth_keeps_paths(a, b, edge.condition.node as int);
    }
}

/// Adds the dependencies from the sources to the destinations. The answer is whether all offsets fit.
pub fn add_resolved_dependency_edges(
    graph: &mut DependencyGraph,
    arena: &mut PathArena,
    sources: &Vec<Option<ResolvedNode>>,
    destinations: &Vec<Option<ResolvedNode>>,
    joint: Joint,
) -> (r: bool)
    requires
        old(graph).wf(),
        old(arena).wf(),
        old(arena).holds(joint.condition),
        all_usable(old(graph).nodes@, old(arena)@, sources@),
        all_usable(old(graph).nodes@, old(arena)@, destinations@),
    ensures
        r == forall|i: int, j: int|
            0 <= i < sources@.len() && 0 <= j < destinations@.len() ==> pair_fits(old(arena)@, #[trigger] sources@[i], #[trigger] destinations@[j], joint),
        final(graph).wf(),
        final(graph).nodes@ == old(graph).nodes@,
        forall|partition: BitPartition| old(graph).placed_in(partition) ==> #[trigger] final(graph).placed_in(partition),
        final(arena).wf(),
        arena::grows(old(arena)@, final(arena)@),
        r ==> exists|added: Seq<GraphEdge>|
            final(graph).edges@ == #[trigger] (old(graph).edges@ + added) && joins_pairs(final(graph).nodes@, final(arena)@, sources@, destinations@, joint, added),
{
    let ghost before = *graph;
    let ghost start = *arena;
    let ghost nodes = graph.nodes@;
    let ghost mut added: Seq<GraphEdge> = Seq::empty();
    assert(before.edges@ + added =~= before.edges@);
    let mut i: usize = 0;
    while i < sources.len()
        invariant
            i <= sources@.len(),
            before == *old(graph),
            start == *old(arena),
            graph.wf(),
            graph.nodes@ == nodes,
            nodes == before.nodes@,
            forall|partition: BitPartition| before.placed_in(partition) ==> #[trigger] graph.placed_in(partition),
            arena.wf(),
            start.holds(joint.condition),
            arena::grows(start@, arena@),
            all_usable(nodes, start@, sources@),
            all_usable(nodes, start@, destinations@),
            forall|a: int, b: int|
                0 <= a < i && 0 <= b < destinations@.len() ==> pair_fits(start@, #[trigger] sources@[a], #[trigger] destinations@[b], joint),
            graph.edges@ == before.edges@ + added,
            forall|k: int| 0 <= k < added.len() ==> some_joins(nodes, arena@, sources@, destinations@, joint, #[trigger] added[k]),
            forall|a: int, b: int|
                0 <= a < i && 0 <= b < destinations@.len() ==> #[trigger] pair_joined(nodes, arena@, sources@[a], destinations@[b], joint, added),
        decreases sources@.len() - i,
    {
        let mut j: usize = 0;
        while j < destinations.len()
            invariant
                i < sources@.len(),
                j <= destinations@.len(),
                before == *old(graph),
                start == *old(arena),
                graph.wf(),
                graph.nodes@ == nodes,
                nodes == before.nodes@,
                forall|partition: BitPartition| before.placed_in(partition) ==> #[trigger] graph.placed_in(partition),
                arena.wf(),
                start.holds(joint.condition),
                arena::grows(start@, arena@),
                all_usable(nodes, start@, sources@),
                all_usable(nodes, start@, destinations@),
                forall|a: int, b: int|
                    0 <= a < i && 0 <= b < destinations@.len() ==> pair_fits(start@, #[trigger] sources@[a], #[trigger] destinations@[b], joint),
                forall|b: int| 0 <= b < j ==> pair_fits(start@, sources@[i as int], #[trigger] destinations@[b], joint),
                graph.edges@ == before.edges@ + added,
                forall|k: int| 0 <= k < added.len() ==> some_joins(nodes, arena@, sources@, destinations@, joint, #[trigger] added[k]),
                forall|a: int, b: int|
                    0 <= a < i && 0 <= b < destinations@.len() ==> #[trigger] pair_joined(nodes, arena@, sources@[a], destinations@[b], joint, added),
                forall|b: int| 0 <= b < j ==> #[trigger] pair_joined(nodes, arena@, sources@[i as int], destinations@[b], joint, added),
            decreases destinations@.len() - j,
        {
            let ghost known = *arena;
            let ghost added0 = added;
            if let (Some(source), Some(destination)) = (sources[i], destinations[j]) {
                proof {
                    assert(usable(nodes, start@, sources@[i as int]));
                    assert(usable(nodes, start@, destinations@[j as int]));
                    arena::growth_keeps_paths(start@, known@, joint.condition.node as int);
                    arena::growth_keeps_paths(start@, known@, source.condition.node as int);
                    arena::growth_keeps_paths(start@, known@, destination.condition.node as int);
                }
                let condition = conjoin_three(arena, joint.condition, source.condition, destination.condition);
                proof {
                    arena::growth_is_transitive(start@, known@, arena@);
                    arena::growth_keeps_paths(known@, arena@, joint.condition.node as int);
                    arena::growth_keeps_paths(known@, arena@, source.condition.node as int);
                    arena::growth_keeps_paths(known@, arena@, destination.condition.node as int);
                }
                if let Some(condition) = condition {
                    if !axis_fits(joint.kind.array, source.offset.array, destination.offset.array) || !axis_fits(
                        joint.kind.packed,
                        source.offset.packed,
                        destination.offset.packed,
                    ) {
                        assert(!pair_fits(start@, sources@[i as int], destinations@[j as int], joint));
                        return false;
                    }
                    let kind = PositionRelation {
                        array: join_axis(joint.kind.array, source.offset.array, destination.offset.array),
                        packed: join_axis(joint.kind.packed, source.offset.packed, destination.offset.packed),
                    };
                    let apart: bool = graph.nodes[source.node].key.is_some() && graph.nodes[destination.node].key.is_some()
                        && !node_regions_overlap_with_dependency(graph.nodes[source.node].region, graph.nodes[destination.node].region, kind);
                    if !apart {
                        let edge = GraphEdge { source: source.node, destination: destination.node, kind, condition, carrier: joint.carrier };
                        graph.add_dependency_edge(edge);
                        proof {
                            added = added.push(edge);
                            assert(graph.edges@ =~= before.edges@ + added);
                            assert(joins_nodes(arena@, source, destination, joint, edge));
                            assert(pair_joins(nodes, arena@, sources@[i as int], destinations@[j as int], joint, edge));
                            assert(added[added0.len() as int] == edge);
                        }
                    }
                }
            }
            proof {
                assert forall|k: int| 0 <= k < added.len() implies some_joins(nodes, arena@, sources@, destinations@, joint, #[trigger] added[k]) by {
                    if k < added0.len() {
                        let edge = added0[k];
                        assert(some_joins(nodes, known@, sources@, destinations@, joint, edge));
                        let (a, b) = choose|a: int, b: int|
                            0 <= a < sources@.len() && 0 <= b < destinations@.len() && #[trigger] pair_joins(nodes, known@, sources@[a], destinations@[b], joint, edge);
                        lemma_pair_kept(start@, known@, arena@, nodes, sources@, destinations@, joint, a, b);
                        assert(pair_joins(nodes, arena@, sources@[a], destinations@[b], joint, edge));
                    } else {
                        assert(pair_joins(nodes, arena@, sources@[i as int], destinations@[j as int], joint, added[k]));
                    }
                }
                assert forall|a: int, b: int| 0 <= a < i && 0 <= b < destinations@.len() implies #[trigger] pair_joined(nodes, arena@, sources@[a], destinations@[b], joint, added) by {
                    assert(pair_joined(nodes, known@, sources@[a], destinations@[b], joint, added0));
                    lemma_joined_kept(start@, known@, arena@, nodes, sources@, destinations@, joint, a, b, added0, added);
                }
                assert forall|b: int| 0 <= b < j + 1 implies #[trigger] pair_joined(nodes, arena@, sources@[i as int], destinations@[b], joint, added) by {
                    if b < j {
                        assert(pair_joined(nodes, known@, sources@[i as int], destinations@[b], joint, added0));
                        lemma_joined_kept(start@, known@, arena@, nodes, sources@, destinations@, joint, i as int, b, added0, added);
                    }
                }
            }
            j = j + 1;
        }
        i = i + 1;
    }
    assert(graph.edges@ == before.edges@ + added);
    true
}

proof fn lemma_pair_kept(
    start: Seq<PathNode>,
    a: Seq<PathNode>,
    b: Seq<PathNode>,
    nodes: Seq<GraphNode>,
    sources: Seq<Option<ResolvedNode>>,
    destinations: Seq<Option<ResolvedNode>>,
    joint: Joint,
    i: int,
    j: int,
)
    requires
        arena::grows(start, a),
        arena::grows(a, b),
        joint.condition.node < start.len(),
        all_usable(nodes, start, sources),
        all_usable(nodes, start, destinations),
        0 <= i < sources.len(),
        0 <= j < destinations.len(),
    ensures
        forall|edge: GraphEdge| pair_joins(nodes, a, sources[i], destinations[j], joint, edge) ==> #[trigger] pair_joins(nodes, b, sources[i], destinations[j], joint, edge),
{
    assert(usable(nodes, start, sources[i]));
    assert(usable(nodes, start, destinations[j]));
    if sources[i] is Some && destinations[j] is Some {
        lemma_joins_kept(a, b, nodes, nodes, sources[i]->0, destinations[j]->0, joint);
    }
}

proof fn lemma_joined_kept(
    start: Seq<PathNode>,
    a: Seq<PathNode>,
    b: Seq<PathNode>,
    nodes: Seq<GraphNode>,
    sources: Seq<Option<ResolvedNode>>,
    destinations: Seq<Option<ResolvedNode>>,
    joint: Joint,
    i: int,
    j: int,
    edges: Seq<GraphEdge>,
    more: Seq<GraphEdge>,
)
    requires
        arena::grows(start, a),
        arena::grows(a, b),
        joint.condition.node < start.len(),
        all_usable(nodes, start, sources),
        all_usable(nodes, start, destinations),
        0 <= i < sources.len(),
        0 <= j < destinations.len(),
        edges.len() <= more.len(),
        forall|k: int| 0 <= k < edges.len() ==> edges[k] == more[k],
        pair_joined(nodes, a, sources[i], destinations[j], joint, edges),
    ensures
        pair_joined(nodes, b, sources[i], destinations[j], joint, more),
{
    assert(usable(nodes, start, sources[i]));
    assert(usable(nodes, start, destinations[j]));
    if sources[i] is Some && destinations[j] is Some {
        lemma_joins_kept(a, b, nodes, nodes, sources[i]->0, destinations[j]->0, joint);
        if wanted(nodes, b, sources[i]->0, destinations[j]->0, joint) {
            let k = choose|k: int| 0 <= k < edges.len() && joins_nodes(a, sources[i]->0, destinations[j]->0, joint, #[trigger] edges[k]);
            assert(joins_nodes(b, sources[i]->0, destinations[j]->0, joint, more[k]));
        }
    }
}

} // verus!
