//! What an instance adds to the graph of its parent.
use vstd::prelude::*;
use std::collections::HashMap;
use crate::arena;
use crate::arena::{PathArena, PathCondition, PathNode};
use crate::feedthrough;
use crate::feedthrough::{add_resolved_dependency_edges, resolve_instance_mapping, BoundaryFlow, Joint, ResolvedNode};
use crate::fragments::SummaryRegion;
use crate::graph;
use crate::graph::{DependencyGraph, GraphEdge, GraphNode};
use crate::instance;
use crate::instance::{child_source_region_for_destination, instance_region_mapping, map_instance_source_region, Endpoint, EvaluatedRegion, MappedNode, PortDirection, RegionProjection, RegionSource};
use crate::partition::{BitPartition, NodeKey};
use crate::path::BranchId;
use crate::relation::{PositionDomain, PositionRelation};
use crate::remap;
use crate::remap::BranchRemapper;

verus! {

/// What a node of a summary stands for.
#[derive(Clone, Copy, Debug, PartialEq, Eq, Structural)]
pub enum SummaryNodeKind {
    Input,
    Output,
    Interface,
    Internal,
}

/// A node of the summary of a module.
pub struct SummaryNode {
    pub kind: SummaryNodeKind,
    pub region: SummaryRegion,
    pub domains: Vec<PositionDomain>,
    pub regular_transfer: bool,
}

/// A dependency between two nodes of a summary.
#[derive(Clone, Copy, Debug, PartialEq, Eq)]
pub struct SummaryEdge {
    pub source: usize,
    pub destination: usize,
    pub kind: PositionRelation,
    pub condition: PathCondition,
    pub carrier: bool,
}

/// The dependencies between the ports of a module, with what lies between them.
pub struct ModuleSummary {
    pub nodes: Vec<SummaryNode>,
    pub edges: Vec<SummaryEdge>,
}

impl ModuleSummary {
    pub open spec fn wf(self) -> bool {
        &&& forall|e: int|
            0 <= e < self.edges@.len() ==> (#[trigger] self.edges@[e]).source < self.nodes@.len()
                && self.edges@[e].destination < self.nodes@.len()
        &&& forall|i: int| 0 <= i < self.nodes@.len() ==> (#[trigger] self.nodes@[i]).region.packed.wf()
    }

    /// A dependency on the node keeps a position on some axis.
    pub open spec fn positioned(self, i: int) -> bool {
        exists|e: int|
            0 <= e < self.edges@.len() && (#[trigger] self.edges@[e]).source == i && has_position(
                self.edges@[e].kind,
            )
    }
}

pub open spec fn has_position(kind: PositionRelation) -> bool {
    kind.array is Some || kind.packed is Some
}

/// How a variable of the child is connected, with what its actual was found to read or write.
pub struct PortConnection {
    pub endpoint: Endpoint,
    pub reads: Option<Vec<RegionSource>>,
    pub writes: Option<Vec<RegionSource>>,
}

pub open spec fn list_view(sources: Option<Vec<RegionSource>>) -> Option<Seq<RegionSource>> {
    match sources {
        Some(list) => Some(list@),
        None => None,
    }
}

/// An instance of a module in its parent.
pub struct Instance {
    /// The connections, by the variables of the child.
    pub connections: HashMap<u64, PortConnection>,
    /// What regions of inputs were evaluated to.
    pub evaluated: Vec<EvaluatedRegion>,
}

pub open spec fn sources_hold(paths: Seq<PathNode>, sources: Option<Seq<RegionSource>>) -> bool {
    sources matches Some(list) ==> forall|i: int|
        0 <= i < list.len() ==> (#[trigger] list[i]).condition.node < paths.len()
}

impl Instance {
    /// The endpoints are well formed and the conditions exist.
    pub open spec fn wf(self, paths: Seq<PathNode>) -> bool {
        &&& forall|id: u64| #[trigger]
            self.connections@.dom().contains(id) ==> {
                &&& self.connections@[id].endpoint.wf()
                &&& sources_hold(paths, list_view(self.connections@[id].reads))
                &&& sources_hold(paths, list_view(self.connections@[id].writes))
            }
        &&& instance::evaluated_wf(self.evaluated@)
        &&& forall|i: int, k: int|
            0 <= i < self.evaluated@.len() && 0 <= k < self.evaluated@[i].nodes@.len() ==> (
            #[trigger] self.evaluated@[i].nodes@[k]).condition.node < paths.len()
    }
}

/// Where a dependency of the child starts or ends: at a node of the parent, with the way in which values
/// cross the boundary there, or at a node of the summary that is no port.
pub enum End {
    Node(MappedNode, BoundaryFlow),
    Inner(int),
}

/// Values enter the child at its inputs and leave it elsewhere.
pub open spec fn flow_of(kind: SummaryNodeKind) -> BoundaryFlow {
    if kind == SummaryNodeKind::Input {
        BoundaryFlow::ParentToChild
    } else {
        BoundaryFlow::ChildToParent
    }
}

/// The nodes that an instance has of its own: all from `first` on are made for it, and `nodes` are those of
/// the nodes of its summary that are no ports.
pub struct Inside {
    pub nodes: Seq<Option<usize>>,
    pub first: int,
}

/// Nodes and edges are added only.
pub open spec fn drawn_kept(a: DependencyGraph, b: DependencyGraph) -> bool {
    &&& graph::nodes_kept(a.nodes@, b.nodes@)
    &&& a.edges@.len() <= b.edges@.len()
    &&& forall|k: int| 0 <= k < a.edges@.len() ==> b.edges@[k] == #[trigger] a.edges@[k]
}

proof fn lemma_drawn(a: DependencyGraph, b: DependencyGraph)
    requires
        graph::nodes_kept(a.nodes@, b.nodes@),
        a.edges@.len() <= b.edges@.len(),
        b.edges@.take(a.edges@.len() as int) == a.edges@,
    ensures
        drawn_kept(a, b),
{
    assert forall|k: int| 0 <= k < a.edges@.len() implies b.edges@[k] == #[trigger] a.edges@[k] by {
        assert(b.edges@.take(a.edges@.len() as int)[k] == b.edges@[k]);
    }
}

/// An instance of a module.
pub struct Through {
    pub instance: Instance,
    pub summary: ModuleSummary,
    pub partition: BitPartition,
}

impl Through {
    pub open spec fn connection(self, i: int) -> PortConnection {
        self.instance.connections@[self.summary.nodes@[i].region.id]
    }

    /// The port is connected.
    pub open spec fn is_connected(self, i: int) -> bool {
        self.instance.connections@.dom().contains(self.summary.nodes@[i].region.id)
    }

    /// The node is one to which a region of an input corresponds; none does where the port is not connected.
    pub open spec fn source_maps(self, i: int, region: SummaryRegion, preserve: bool, m: MappedNode) -> bool {
        self.is_connected(i) && instance::maps_source_region(
            self.connection(i).endpoint,
            region,
            preserve,
            list_view(self.connection(i).reads),
            self.instance.evaluated@,
            self.partition,
            m,
        )
    }

    /// The node is one to which a port corresponds.
    pub open spec fn maps(self, i: int, m: MappedNode) -> bool {
        let node = self.summary.nodes@[i];
        match node.kind {
            SummaryNodeKind::Input => self.source_maps(i, node.region, self.summary.positioned(i), m),
            SummaryNodeKind::Output => self.is_connected(i) && instance::maps_region(
                self.connection(i).endpoint,
                node.region,
                PortDirection::Output,
                list_view(self.connection(i).writes),
                self.partition,
                m,
            ),
            SummaryNodeKind::Interface => self.is_connected(i) && instance::maps_region(
                self.connection(i).endpoint,
                node.region,
                PortDirection::Input,
                None,
                self.partition,
                m,
            ),
            SummaryNodeKind::Internal => false,
        }
    }

    /// What stands for a node of the summary.
    pub open spec fn ends(self, i: int, end: End) -> bool {
        match end {
            End::Node(m, flow) => self.maps(i, m) && flow == flow_of(self.summary.nodes@[i].kind),
            End::Inner(k) => k == i && self.summary.nodes@[i].kind == SummaryNodeKind::Internal,
        }
    }

    /// The dependency moves positions of an input by fixed offsets and ends at a port: what it starts
    /// from is found for each node in which it ends.
    pub open spec fn projects(self, e: int) -> bool {
        let edge = self.summary.edges@[e];
        &&& self.summary.nodes@[edge.source as int].kind == SummaryNodeKind::Input
        &&& edge.kind.array is Some
        &&& edge.kind.packed is Some
        &&& self.summary.nodes@[edge.destination as int].kind != SummaryNodeKind::Internal
    }

    /// The region of the input on which a node depends in which the dependency ends.
    pub open spec fn projection(self, e: int, d: MappedNode) -> RegionProjection {
        let edge = self.summary.edges@[e];
        instance::projected_source(
            self.summary.nodes@[edge.source as int].region,
            self.summary.nodes@[edge.destination as int].region,
            edge.kind.array->0,
            edge.kind.packed->0,
            d,
            self.partition,
        )
    }

    /// A dependency of the child starts and ends at these.
    pub open spec fn pair(self, e: int, s: End, d: End) -> bool {
        let edge = self.summary.edges@[e];
        &&& 0 <= e < self.summary.edges@.len()
        &&& if self.projects(e) {
            &&& d is Node
            &&& d->Node_1 == BoundaryFlow::ChildToParent
            &&& self.maps(edge.destination as int, d->Node_0)
            &&& match self.projection(e, d->Node_0) {
                RegionProjection::Exact(region) => s is Node && s->Node_1 == BoundaryFlow::ParentToChild && self.source_maps(
                    edge.source as int,
                    region,
                    true,
                    s->Node_0,
                ),
                RegionProjection::Disjoint => false,
                RegionProjection::Unknown => self.ends(edge.source as int, s),
            }
        } else {
            self.ends(edge.destination as int, d) && self.ends(edge.source as int, s)
        }
    }

    /// The end has a node.
    pub open spec fn on_node(self, end: End) -> bool {
        match end {
            End::Node(m, _) => self.partition.is_node(m.key),
            End::Inner(_) => true,
        }
    }

    /// A value crosses the boundary of the instance at a node of the parent.
    pub open spec fn crossing(self, m: MappedNode, flow: BoundaryFlow) -> bool {
        match flow {
            BoundaryFlow::ParentToChild => self.enters(m),
            BoundaryFlow::ChildToParent => self.leaves(m),
        }
    }

    pub open spec fn enters(self, m: MappedNode) -> bool {
        exists|i: int, region: SummaryRegion, preserve: bool|
            0 <= i < self.summary.nodes@.len() && self.summary.nodes@[i].kind == SummaryNodeKind::Input
                && self.asked(i, region) && #[trigger] self.source_maps(i, region, preserve, m)
    }

    /// The region is that of an input, or one on which a node depends in which a dependency ends.
    pub open spec fn asked(self, i: int, region: SummaryRegion) -> bool {
        region == self.summary.nodes@[i].region || exists|e: int, d: MappedNode|
            0 <= e < self.summary.edges@.len() && self.summary.edges@[e].source == i && self.projects(e) && self.maps(
                self.summary.edges@[e].destination as int,
                d,
            ) && #[trigger] self.projection(e, d) == RegionProjection::Exact(region)
    }

    pub open spec fn leaves(self, m: MappedNode) -> bool {
        exists|i: int|
            0 <= i < self.summary.nodes@.len() && #[trigger] self.maps(i, m)
    }

    /// The offset of a node at which values enter can be negated.
    pub open spec fn can_enter_at(self, m: MappedNode) -> bool {
        feedthrough::crosses(m) && self.partition.is_node(m.key) ==> m.offset.reversible()
    }

    /// The offsets of the nodes can be negated to which a node of the summary corresponds, where it is an input.
    pub open spec fn input_enters(self, i: int) -> bool {
        self.summary.nodes@[i].kind == SummaryNodeKind::Input ==> forall|m: MappedNode| #[trigger] self.maps(i, m) ==> self.can_enter_at(m)
    }

    /// The offsets of the nodes can be negated at which a dependency starts that is found by region.
    #[verifier::opaque]
    pub open spec fn source_enters(self, e: int) -> bool {
        self.projects(e) ==> forall|s: End, d: End| #[trigger]
            self.pair(e, s, d) && !(self.projection(e, d->Node_0) is Unknown) ==> self.can_enter_at(s->Node_0)
    }

    /// The offsets of all nodes at which values enter can be negated.
    pub open spec fn can_enter(self) -> bool {
        &&& forall|i: int| 0 <= i < self.summary.nodes@.len() ==> #[trigger] self.input_enters(i)
        &&& forall|e: int| 0 <= e < self.summary.edges@.len() ==> #[trigger] self.source_enters(e)
    }
}

/// What is added to a position of the end for one of its node.
pub open spec fn end_offset(end: End) -> PositionRelation {
    match end {
        End::Node(m, _) => if feedthrough::crosses(m) {
            PositionRelation::identity()
        } else {
            m.offset
        },
        End::Inner(_) => PositionRelation::identity(),
    }
}

pub open spec fn end_condition(end: End) -> PathCondition {
    match end {
        End::Node(m, _) => if feedthrough::crosses(m) {
            PathCondition { node: 0 }
        } else {
            m.condition
        },
        End::Inner(_) => PathCondition { node: 0 },
    }
}

/// The node was made for the instance and keeps the positions of the child there, and an edge joins it to that of
/// the parent.
pub open spec fn is_boundary(g: DependencyGraph, inner: Inside, m: MappedNode, flow: BoundaryFlow, r: ResolvedNode) -> bool {
    &&& r.node >= inner.first
    &&& !inner.nodes.contains(Some(r.node))
    &&& g.edges@.contains(feedthrough::boundary_edge(m, r, flow))
}

proof fn lemma_boundary_joined(a: DependencyGraph, b: DependencyGraph, inner: Inside, m: MappedNode, flow: BoundaryFlow, r: ResolvedNode)
    requires
        drawn_kept(a, b),
        is_boundary(a, inner, m, flow, r),
    ensures
        is_boundary(b, inner, m, flow, r),
{
    let k = choose|k: int| 0 <= k < a.edges@.len() && a.edges@[k] == feedthrough::boundary_edge(m, r, flow);
    assert(b.edges@[k] == a.edges@[k]);
}

/// The node stands for the end.
pub open spec fn resolves_end(g: DependencyGraph, inner: Inside, end: End, r: ResolvedNode) -> bool {
    match end {
        End::Node(m, flow) => feedthrough::resolves(g.nodes@, m, r) && (feedthrough::crosses(m) ==> is_boundary(g, inner, m, flow, r)),
        End::Inner(i) => inner.nodes[i] == Some(r.node) && r.node < g.nodes@.len() && r.offset == PositionRelation::identity()
            && r.condition.node == 0,
    }
}

proof fn lemma_resolves_end_kept(a: DependencyGraph, b: DependencyGraph, inner: Inside, end: End, r: ResolvedNode)
    requires
        drawn_kept(a, b),
        resolves_end(a, inner, end, r),
    ensures
        resolves_end(b, inner, end, r),
        r.node < a.nodes@.len(),
        r.offset == end_offset(end),
        r.condition == end_condition(end),
{
    if let End::Node(m, flow) = end {
        if feedthrough::crosses(m) {
            lemma_boundary_joined(a, b, inner, m, flow, r);
        }
        feedthrough::lemma_resolves_kept(a.nodes@, b.nodes@, m, r);
    }
}

/// The nodes are those of the ends.
pub open spec fn represents(
    through: Through,
    g: DependencyGraph,
    inner: Inside,
    set: spec_fn(End) -> bool,
    resolved: Seq<Option<ResolvedNode>>,
) -> bool {
    &&& forall|k: int| 0 <= k < resolved.len() && (#[trigger] resolved[k]) is Some ==> stands_in(through, g, inner, set, resolved[k]->0)
    &&& forall|end: End| #[trigger] set(end) && through.on_node(end) ==> has_stand_in(g, inner, end, resolved)
}

/// The node is that of one of the ends.
#[verifier::opaque]
pub open spec fn stands_in(through: Through, g: DependencyGraph, inner: Inside, set: spec_fn(End) -> bool, r: ResolvedNode) -> bool {
    exists|end: End| #[trigger] set(end) && through.on_node(end) && resolves_end(g, inner, end, r)
}

/// One of the nodes is that of the end.
#[verifier::opaque]
pub open spec fn has_stand_in(g: DependencyGraph, inner: Inside, end: End, resolved: Seq<Option<ResolvedNode>>) -> bool {
    exists|k: int| 0 <= k < resolved.len() && (#[trigger] resolved[k]) is Some && resolves_end(g, inner, end, resolved[k]->0)
}

proof fn lemma_represents_kept(through: Through, a: DependencyGraph, b: DependencyGraph, inner: Inside, set: spec_fn(End) -> bool, resolved: Seq<Option<ResolvedNode>>)
    requires
        drawn_kept(a, b),
        represents(through, a, inner, set, resolved),
    ensures
        represents(through, b, inner, set, resolved),
{
    assert forall|k: int| 0 <= k < resolved.len() && (#[trigger] resolved[k]) is Some implies stands_in(through, b, inner, set, resolved[k]->0) by {
        lemma_stands_in_kept(through, a, b, inner, set, resolved[k]->0);
    }
    assert forall|end: End| #[trigger] set(end) && through.on_node(end) implies has_stand_in(b, inner, end, resolved) by {
        lemma_stand_in_kept(a, b, inner, end, resolved);
    }
}

proof fn lemma_stands_in_kept(through: Through, a: DependencyGraph, b: DependencyGraph, inner: Inside, set: spec_fn(End) -> bool, r: ResolvedNode)
    requires
        drawn_kept(a, b),
        stands_in(through, a, inner, set, r),
    ensures
        stands_in(through, b, inner, set, r),
{
    reveal(stands_in);
    let end = choose|end: End| #[trigger] set(end) && through.on_node(end) && resolves_end(a, inner, end, r);
    lemma_resolves_end_kept(a, b, inner, end, r);
}

proof fn lemma_stand_in_kept(a: DependencyGraph, b: DependencyGraph, inner: Inside, end: End, resolved: Seq<Option<ResolvedNode>>)
    requires
        drawn_kept(a, b),
        has_stand_in(a, inner, end, resolved),
    ensures
        has_stand_in(b, inner, end, resolved),
{
    reveal(has_stand_in);
    let k = choose|k: int| 0 <= k < resolved.len() && (#[trigger] resolved[k]) is Some && resolves_end(a, inner, end, resolved[k]->0);
    lemma_resolves_end_kept(a, b, inner, end, resolved[k]->0);
}

/// The edge is the dependency between two ends.
pub open spec fn end_join(g: DependencyGraph, paths: Seq<PathNode>, inner: Inside, s: End, d: End, joint: Joint, edge: GraphEdge) -> bool {
    exists|rs: ResolvedNode, rd: ResolvedNode| #[trigger]
        resolves_end(g, inner, s, rs) && #[trigger] resolves_end(g, inner, d, rd) && feedthrough::usable(g.nodes@, paths, Some(rs)) && feedthrough::usable(g.nodes@, paths, Some(rd))
            && feedthrough::pair_joins(g.nodes@, paths, Some(rs), Some(rd), joint, edge)
}

/// One of the edges is the dependency between two ends, where there is one.
pub open spec fn end_joined(g: DependencyGraph, paths: Seq<PathNode>, inner: Inside, s: End, d: End, joint: Joint, edges: Seq<GraphEdge>) -> bool {
    exists|rs: ResolvedNode, rd: ResolvedNode| #[trigger]
        resolves_end(g, inner, s, rs) && #[trigger] resolves_end(g, inner, d, rd) && feedthrough::usable(g.nodes@, paths, Some(rs)) && feedthrough::usable(g.nodes@, paths, Some(rd))
            && feedthrough::pair_joined(g.nodes@, paths, Some(rs), Some(rd), joint, edges)
}

/// An edge between a node of the parent and one that keeps the child's positions.
pub open spec fn boundary_explained(through: Through, nodes: Seq<GraphNode>, edge: GraphEdge) -> bool {
    exists|m: MappedNode, r: ResolvedNode, flow: BoundaryFlow|
        through.crossing(m, flow) && feedthrough::crosses(m) && feedthrough::resolves(nodes, m, r) && edge == #[trigger] feedthrough::boundary_edge(m, r, flow)
}

pub open spec fn join_explained(through: Through, g: DependencyGraph, paths: Seq<PathNode>, inner: Inside, joints: Seq<Joint>, edge: GraphEdge) -> bool {
    exists|e: int, s: End, d: End|
        0 <= e < joints.len() && #[trigger] through.pair(e, s, d) && end_join(g, paths, inner, s, d, joints[e], edge)
}

/// The edge is owed to the instance.
pub open spec fn explained(through: Through, g: DependencyGraph, paths: Seq<PathNode>, inner: Inside, joints: Seq<Joint>, edge: GraphEdge) -> bool {
    boundary_explained(through, g.nodes@, edge) || join_explained(through, g, paths, inner, joints, edge)
}

/// The dependency of the child is among the edges, wherever it starts and ends.
pub open spec fn complete(through: Through, g: DependencyGraph, paths: Seq<PathNode>, inner: Inside, joint: Joint, e: int, edges: Seq<GraphEdge>) -> bool {
    forall|s: End, d: End| #[trigger] through.pair(e, s, d) && through.on_node(s) && through.on_node(d) ==> end_joined(g, paths, inner, s, d, joint, edges)
}

proof fn lemma_end_joined_kept(a: DependencyGraph, b: DependencyGraph, p: Seq<PathNode>, q: Seq<PathNode>, inner: Inside, s: End, d: End, joint: Joint, edges: Seq<GraphEdge>, more: Seq<GraphEdge>)
    requires
        drawn_kept(a, b),
        arena::grows(p, q),
        joint.condition.node < p.len(),
        end_joined(a, p, inner, s, d, joint, edges),
        forall|k: int| 0 <= k < edges.len() ==> more.contains(#[trigger] edges[k]),
    ensures
        end_joined(b, q, inner, s, d, joint, more),
{
    let (rs, rd) = choose|rs: ResolvedNode, rd: ResolvedNode| #[trigger]
        resolves_end(a, inner, s, rs) && #[trigger] resolves_end(a, inner, d, rd) && feedthrough::usable(a.nodes@, p, Some(rs)) && feedthrough::usable(a.nodes@, p, Some(rd))
            && feedthrough::pair_joined(a.nodes@, p, Some(rs), Some(rd), joint, edges);
    lemma_resolves_end_kept(a, b, inner, s, rs);
    lemma_resolves_end_kept(a, b, inner, d, rd);
    feedthrough::lemma_joins_kept(p, q, a.nodes@, b.nodes@, rs, rd, joint);
    if feedthrough::wanted(b.nodes@, q, rs, rd, joint) {
        let k = choose|k: int| 0 <= k < edges.len() && feedthrough::joins_nodes(p, rs, rd, joint, #[trigger] edges[k]);
        assert(more.contains(edges[k]));
        let j = choose|j: int| 0 <= j < more.len() && more[j] == edges[k];
        assert(feedthrough::joins_nodes(q, rs, rd, joint, more[j]));
    }
    assert(feedthrough::pair_joined(b.nodes@, q, Some(rs), Some(rd), joint, more));
}

proof fn lemma_complete_kept(through: Through, a: DependencyGraph, b: DependencyGraph, p: Seq<PathNode>, q: Seq<PathNode>, inner: Inside, joint: Joint, e: int, edges: Seq<GraphEdge>, more: Seq<GraphEdge>)
    requires
        drawn_kept(a, b),
        arena::grows(p, q),
        joint.condition.node < p.len(),
        complete(through, a, p, inner, joint, e, edges),
        forall|k: int| 0 <= k < edges.len() ==> more.contains(#[trigger] edges[k]),
    ensures
        complete(through, b, q, inner, joint, e, more),
{
    assert forall|s: End, d: End| #[trigger] through.pair(e, s, d) && through.on_node(s) && through.on_node(d) implies end_joined(b, q, inner, s, d, joint, more) by {
        lemma_end_joined_kept(a, b, p, q, inner, s, d, joint, edges, more);
    }
}

/// The dependencies exist under conditions that exist.
pub open spec fn joints_hold(paths: Seq<PathNode>, joints: Seq<Joint>) -> bool {
    forall|e: int| 0 <= e < joints.len() ==> (#[trigger] joints[e]).condition.node < paths.len()
}

proof fn lemma_explained_kept(through: Through, a: DependencyGraph, b: DependencyGraph, p: Seq<PathNode>, q: Seq<PathNode>, inner: Inside, joints: Seq<Joint>, more: Seq<Joint>, edge: GraphEdge)
    requires
        drawn_kept(a, b),
        arena::grows(p, q),
        joints_hold(p, joints),
        joints.len() <= more.len(),
        forall|e: int| 0 <= e < joints.len() ==> joints[e] == more[e],
        explained(through, a, p, inner, joints, edge),
    ensures
        explained(through, b, q, inner, more, edge),
{
    if boundary_explained(through, a.nodes@, edge) {
        let (m, r, flow) = choose|m: MappedNode, r: ResolvedNode, flow: BoundaryFlow|
            through.crossing(m, flow) && feedthrough::crosses(m) && feedthrough::resolves(a.nodes@, m, r) && edge == #[trigger] feedthrough::boundary_edge(m, r, flow);
        feedthrough::lemma_resolves_kept(a.nodes@, b.nodes@, m, r);
        assert(edge == feedthrough::boundary_edge(m, r, flow));
    } else {
        let (e, s, d) = choose|e: int, s: End, d: End|
            0 <= e < joints.len() && #[trigger] through.pair(e, s, d) && end_join(a, p, inner, s, d, joints[e], edge);
        assert(joints[e].condition.node < p.len());
        let (rs, rd) = choose|rs: ResolvedNode, rd: ResolvedNode| #[trigger]
            resolves_end(a, inner, s, rs) && #[trigger] resolves_end(a, inner, d, rd) && feedthrough::usable(a.nodes@, p, Some(rs)) && feedthrough::usable(a.nodes@, p, Some(rd))
                && feedthrough::pair_joins(a.nodes@, p, Some(rs), Some(rd), joints[e], edge);
        lemma_resolves_end_kept(a, b, inner, s, rs);
        lemma_resolves_end_kept(a, b, inner, d, rd);
        feedthrough::lemma_joins_kept(p, q, a.nodes@, b.nodes@, rs, rd, joints[e]);
        assert(feedthrough::pair_joins(b.nodes@, q, Some(rs), Some(rd), more[e], edge));
        assert(end_join(b, q, inner, s, d, more[e], edge));
        assert(through.pair(e, s, d));
    }
}

/// The edge is the dependency between ends of the two sets.
#[verifier::opaque]
pub open spec fn joins_sets(
    g: DependencyGraph,
    paths: Seq<PathNode>,
    inner: Inside,
    from: spec_fn(End) -> bool,
    to: spec_fn(End) -> bool,
    joint: Joint,
    edge: GraphEdge,
) -> bool {
    exists|s: End, d: End| #[trigger] from(s) && #[trigger] to(d) && end_join(g, paths, inner, s, d, joint, edge)
}

/// The offsets of two ends fit, unless no dependency leads from one to the other.
pub open spec fn ends_fit(paths: Seq<PathNode>, s: End, d: End, joint: Joint) -> bool {
    !feedthrough::excluded(
        arena::path_of(paths, joint.condition.node as int),
        arena::path_of(paths, end_condition(s).node as int),
        arena::path_of(paths, end_condition(d).node as int),
    ) ==> feedthrough::kind_joins(joint.kind, end_offset(s), end_offset(d))
}

/// The offsets fit between any two ends of two sets.
pub open spec fn sets_fit(through: Through, paths: Seq<PathNode>, from: spec_fn(End) -> bool, to: spec_fn(End) -> bool, joint: Joint) -> bool {
    forall|s: End, d: End| #[trigger] from(s) && #[trigger] to(d) && through.on_node(s) && through.on_node(d) ==> ends_fit(paths, s, d, joint)
}

/// Adds the dependencies between the nodes of two sets of ends. The answer is whether all offsets fit.
fn join_ends(
    graph: &mut DependencyGraph,
    arena: &mut PathArena,
    sources: &Vec<Option<ResolvedNode>>,
    destinations: &Vec<Option<ResolvedNode>>,
    joint: Joint,
    Ghost(through): Ghost<Through>,
    Ghost(inner): Ghost<Inside>,
    Ghost(from): Ghost<spec_fn(End) -> bool>,
    Ghost(to): Ghost<spec_fn(End) -> bool>,
) -> (r: bool)
    requires
        old(graph).wf(),
        old(arena).wf(),
        old(arena).holds(joint.condition),
        feedthrough::all_usable(old(graph).nodes@, old(arena)@, sources@),
        feedthrough::all_usable(old(graph).nodes@, old(arena)@, destinations@),
        represents(through, *old(graph), inner, from, sources@),
        represents(through, *old(graph), inner, to, destinations@),
    ensures
        r == sets_fit(through, old(arena)@, from, to, joint),
        final(graph).wf(),
        final(graph).nodes@ == old(graph).nodes@,
        forall|partition: BitPartition| old(graph).placed_in(partition) ==> #[trigger] final(graph).placed_in(partition),
        final(arena).wf(),
        arena::grows(old(arena)@, final(arena)@),
        r ==> final(graph).edges@.len() >= old(graph).edges@.len(),
        r ==> final(graph).edges@.take(old(graph).edges@.len() as int) == old(graph).edges@,
        r ==> forall|k: int| old(graph).edges@.len() <= k < final(graph).edges@.len() ==> joins_sets(*final(graph), final(arena)@, inner, from, to, joint, #[trigger] final(graph).edges@[k]),
        r ==> forall|s: End, d: End| #[trigger] from(s) && #[trigger] to(d) && through.on_node(s) && through.on_node(d) ==> end_joined(*final(graph), final(arena)@, inner, s, d, joint, final(graph).edges@),
{
    let ghost before = *graph;
    let ghost start = *arena;
    let ghost nodes = graph.nodes@;
    proof {
        assert(graph.edges@.take(graph.edges@.len() as int) =~= graph.edges@);
        lemma_drawn(before, before);
    }
    proof {
        if sets_fit(through, start@, from, to, joint) {
        assert forall|i: int, j: int| 0 <= i < sources@.len() && 0 <= j < destinations@.len() implies feedthrough::pair_fits(start@, #[trigger] sources@[i], #[trigger] destinations@[j], joint) by {
            if sources@[i] is Some && destinations@[j] is Some {
                reveal(stands_in);
                let rs = sources@[i]->0;
                let rd = destinations@[j]->0;
                assert(stands_in(through, before, inner, from, rs));
                assert(stands_in(through, before, inner, to, rd));
                let s = choose|s: End| #[trigger] from(s) && through.on_node(s) && resolves_end(before, inner, s, rs);
                let d = choose|d: End| #[trigger] to(d) && through.on_node(d) && resolves_end(before, inner, d, rd);
                lemma_resolves_end_kept(before, before, inner, s, rs);
                lemma_resolves_end_kept(before, before, inner, d, rd);
                assert(ends_fit(start@, s, d, joint));
            }
        }
        }
        if forall|i: int, j: int| 0 <= i < sources@.len() && 0 <= j < destinations@.len() ==> feedthrough::pair_fits(start@, #[trigger] sources@[i], #[trigger] destinations@[j], joint) {
            assert forall|s: End, d: End| #[trigger] from(s) && #[trigger] to(d) && through.on_node(s) && through.on_node(d) implies ends_fit(start@, s, d, joint) by {
                reveal(has_stand_in);
                assert(has_stand_in(before, inner, s, sources@));
                assert(has_stand_in(before, inner, d, destinations@));
                let i = choose|k: int| 0 <= k < sources@.len() && (#[trigger] sources@[k]) is Some && resolves_end(before, inner, s, sources@[k]->0);
                let j = choose|k: int| 0 <= k < destinations@.len() && (#[trigger] destinations@[k]) is Some && resolves_end(before, inner, d, destinations@[k]->0);
                lemma_resolves_end_kept(before, before, inner, s, sources@[i]->0);
                lemma_resolves_end_kept(before, before, inner, d, destinations@[j]->0);
                assert(feedthrough::pair_fits(start@, sources@[i], destinations@[j], joint));
            }
        }
    }
    let fits = add_resolved_dependency_edges(graph, arena, sources, destinations, joint);
    if !fits {
        return false;
    }
    proof {
        let paths = arena@;
        let added = choose|added: Seq<GraphEdge>|
            graph.edges@ == #[trigger] (before.edges@ + added) && feedthrough::joins_pairs(nodes, paths, sources@, destinations@, joint, added);
        assert(graph.edges@.take(before.edges@.len() as int) =~= before.edges@);
        lemma_drawn(before, *graph);
        lemma_represents_kept(through, before, *graph, inner, from, sources@);
        lemma_represents_kept(through, before, *graph, inner, to, destinations@);
        assert forall|k: int| before.edges@.len() <= k < graph.edges@.len() implies joins_sets(*graph, paths, inner, from, to, joint, #[trigger] graph.edges@[k]) by {
            let edge = added[k - before.edges@.len()];
            assert(edge == graph.edges@[k]);
            assert(feedthrough::some_joins(nodes, paths, sources@, destinations@, joint, edge));
            lemma_joins_sets(through, *graph, start@, paths, inner, from, to, sources@, destinations@, joint, edge);
        }
        assert forall|s: End, d: End| #[trigger] from(s) && #[trigger] to(d) && through.on_node(s) && through.on_node(d) implies end_joined(*graph, paths, inner, s, d, joint, graph.edges@) by {
            assert(has_stand_in(*graph, inner, s, sources@));
            assert(has_stand_in(*graph, inner, d, destinations@));
            lemma_sets_joined(*graph, start@, paths, inner, s, d, sources@, destinations@, joint, added, graph.edges@);
        }
    }
    true
}

proof fn lemma_joins_sets(
    through: Through,
    g: DependencyGraph,
    start: Seq<PathNode>,
    paths: Seq<PathNode>,
    inner: Inside,
    from: spec_fn(End) -> bool,
    to: spec_fn(End) -> bool,
    sources: Seq<Option<ResolvedNode>>,
    destinations: Seq<Option<ResolvedNode>>,
    joint: Joint,
    edge: GraphEdge,
)
    requires
        arena::grows(start, paths),
        feedthrough::all_usable(g.nodes@, start, sources),
        feedthrough::all_usable(g.nodes@, start, destinations),
        forall|k: int| 0 <= k < sources.len() && (#[trigger] sources[k]) is Some ==> stands_in(through, g, inner, from, sources[k]->0),
        forall|k: int| 0 <= k < destinations.len() && (#[trigger] destinations[k]) is Some ==> stands_in(through, g, inner, to, destinations[k]->0),
        feedthrough::some_joins(g.nodes@, paths, sources, destinations, joint, edge),
    ensures
        joins_sets(g, paths, inner, from, to, joint, edge),
{
    reveal(joins_sets);
    reveal(stands_in);
    let (i, j) = choose|i: int, j: int|
        0 <= i < sources.len() && 0 <= j < destinations.len() && #[trigger] feedthrough::pair_joins(g.nodes@, paths, sources[i], destinations[j], joint, edge);
    let rs = sources[i]->0;
    let rd = destinations[j]->0;
    assert(feedthrough::usable(g.nodes@, start, sources[i]));
    assert(feedthrough::usable(g.nodes@, start, destinations[j]));
    assert(stands_in(through, g, inner, from, rs));
    assert(stands_in(through, g, inner, to, rd));
    let s = choose|s: End| #[trigger] from(s) && through.on_node(s) && resolves_end(g, inner, s, rs);
    let d = choose|d: End| #[trigger] to(d) && through.on_node(d) && resolves_end(g, inner, d, rd);
    assert(resolves_end(g, inner, s, rs) && resolves_end(g, inner, d, rd));
    assert(feedthrough::pair_joins(g.nodes@, paths, Some(rs), Some(rd), joint, edge));
    assert(end_join(g, paths, inner, s, d, joint, edge));
}

proof fn lemma_sets_joined(
    g: DependencyGraph,
    start: Seq<PathNode>,
    paths: Seq<PathNode>,
    inner: Inside,
    s: End,
    d: End,
    sources: Seq<Option<ResolvedNode>>,
    destinations: Seq<Option<ResolvedNode>>,
    joint: Joint,
    added: Seq<GraphEdge>,
    edges: Seq<GraphEdge>,
)
    requires
        arena::grows(start, paths),
        feedthrough::all_usable(g.nodes@, start, sources),
        feedthrough::all_usable(g.nodes@, start, destinations),
        has_stand_in(g, inner, s, sources),
        has_stand_in(g, inner, d, destinations),
        feedthrough::joins_pairs(g.nodes@, paths, sources, destinations, joint, added),
        added.len() <= edges.len(),
        forall|k: int| 0 <= k < added.len() ==> added[k] == edges[edges.len() - added.len() + k],
    ensures
        end_joined(g, paths, inner, s, d, joint, edges),
{
    reveal(has_stand_in);
    let i = choose|k: int| 0 <= k < sources.len() && (#[trigger] sources[k]) is Some && resolves_end(g, inner, s, sources[k]->0);
    let j = choose|k: int| 0 <= k < destinations.len() && (#[trigger] destinations[k]) is Some && resolves_end(g, inner, d, destinations[k]->0);
    let rs = sources[i]->0;
    let rd = destinations[j]->0;
    assert(feedthrough::usable(g.nodes@, start, sources[i]));
    assert(feedthrough::usable(g.nodes@, start, destinations[j]));
    assert(feedthrough::pair_joined(g.nodes@, paths, sources[i], destinations[j], joint, added));
    if feedthrough::wanted(g.nodes@, paths, rs, rd, joint) {
        let k = choose|k: int| 0 <= k < added.len() && feedthrough::joins_nodes(paths, rs, rd, joint, #[trigger] added[k]);
        assert(feedthrough::joins_nodes(paths, rs, rd, joint, edges[edges.len() - added.len() + k]));
    }
    assert(feedthrough::pair_joined(g.nodes@, paths, Some(rs), Some(rd), joint, edges));
}

/// The nodes of a list, as ends.
pub open spec fn listed(mapped: Seq<MappedNode>, flow: BoundaryFlow) -> spec_fn(End) -> bool {
    |end: End|
        match end {
            End::Node(m, way) => mapped.contains(m) && way == flow,
            End::Inner(_) => false,
        }
}

/// The nodes of the instance are among those of the graph.
pub open spec fn inside_graph(g: DependencyGraph, inner: Inside) -> bool {
    &&& inner.first <= g.nodes@.len()
    &&& forall|k: int| 0 <= k < inner.nodes.len() ==> ((#[trigger] inner.nodes[k]) matches Some(node) ==> node < g.nodes@.len())
}

/// Finds or makes the nodes of a list. There is no answer where an offset cannot be negated.
fn resolve_listed(
    graph: &mut DependencyGraph,
    partition: &BitPartition,
    mapped: &Vec<MappedNode>,
    flow: BoundaryFlow,
    Ghost(through): Ghost<Through>,
    Ghost(inner): Ghost<Inside>,
    Ghost(paths): Ghost<Seq<PathNode>>,
) -> (r: Option<Vec<Option<ResolvedNode>>>)
    requires
        old(graph).wf(),
        old(graph).placed_in(*partition),
        partition.wf(),
        through.partition == *partition,
        paths.len() > 0,
        inside_graph(*old(graph), inner),
        forall|i: int| 0 <= i < mapped@.len() ==> through.crossing(#[trigger] mapped@[i], flow) && mapped@[i].condition.node < paths.len(),
    ensures
        final(graph).wf(),
        final(graph).placed_in(*partition),
        graph::nodes_kept(old(graph).nodes@, final(graph).nodes@),
        r is Some <==> (flow == BoundaryFlow::ParentToChild ==> forall|m: MappedNode| #[trigger] mapped@.contains(m) ==> through.can_enter_at(m)),
        r matches Some(found) ==> {
            &&& represents(through, *final(graph), inner, listed(mapped@, flow), found@)
            &&& feedthrough::all_usable(final(graph).nodes@, paths, found@)
            &&& final(graph).edges@.len() >= old(graph).edges@.len()
            &&& final(graph).edges@.take(old(graph).edges@.len() as int) == old(graph).edges@
            &&& forall|k: int|
                old(graph).edges@.len() <= k < final(graph).edges@.len() ==> boundary_explained(through, final(graph).nodes@, #[trigger] final(graph).edges@[k])
        },
{
    let ghost before = *graph;
    let found = resolve_instance_mapping(graph, partition, mapped, flow);
    proof {
        if flow == BoundaryFlow::ParentToChild {
            if feedthrough::can_cross(*partition, mapped@, flow) {
                assert forall|m: MappedNode| #[trigger] mapped@.contains(m) implies through.can_enter_at(m) by {
                    let k = choose|k: int| 0 <= k < mapped@.len() && mapped@[k] == m;
                    assert(mapped@[k] == m);
                }
            }
            if forall|m: MappedNode| #[trigger] mapped@.contains(m) ==> through.can_enter_at(m) {
                assert forall|k: int| 0 <= k < mapped@.len() && feedthrough::crosses(#[trigger] mapped@[k]) && partition.is_node(mapped@[k].key) implies mapped@[k].offset.reversible() by {
                    assert(mapped@.contains(mapped@[k]));
                }
            }
        }
    }
    let r = match found {
        Some(r) => r,
        None => {
            return None;
        },
    };
    proof {
        let nodes = graph.nodes@;
        let set = listed(mapped@, flow);
        assert(graph.edges@.take(before.edges@.len() as int) =~= before.edges@);
        assert forall|k: int| 0 <= k < r@.len() && (#[trigger] r@[k]) is Some && feedthrough::crosses(mapped@[k]) implies is_boundary(*graph, inner, mapped@[k], flow, r@[k]->0) by {
            let added = feedthrough::boundary_edges(mapped@, r@, flow, mapped@.len() as int);
            feedthrough::lemma_boundary_edge_added(mapped@, r@, flow, mapped@.len() as int, k);
            let at = choose|at: int| 0 <= at < added.len() && added[at] == feedthrough::boundary_edge(mapped@[k], r@[k]->0, flow);
            assert(graph.edges@[before.edges@.len() + at] == added[at]);
        }
        assert forall|k: int| 0 <= k < r@.len() && (#[trigger] r@[k]) is Some implies stands_in(through, *graph, inner, set, r@[k]->0) by {
            reveal(stands_in);
            assert(feedthrough::became(nodes, *partition, mapped@[k], r@[k]));
            let end = End::Node(mapped@[k], flow);
            assert(mapped@.contains(mapped@[k]));
            assert(set(end) && through.on_node(end) && resolves_end(*graph, inner, end, r@[k]->0));
        }
        assert forall|end: End| #[trigger] set(end) && through.on_node(end) implies has_stand_in(*graph, inner, end, r@) by {
            reveal(has_stand_in);
            let m = end->Node_0;
            let k = choose|k: int| 0 <= k < mapped@.len() && mapped@[k] == m;
            assert(feedthrough::became(nodes, *partition, mapped@[k], r@[k]));
            assert(r@[k] is Some && resolves_end(*graph, inner, end, r@[k]->0));
        }
        assert forall|k: int| 0 <= k < r@.len() implies feedthrough::usable(nodes, paths, #[trigger] r@[k]) by {
            assert(feedthrough::became(nodes, *partition, mapped@[k], r@[k]));
            assert(through.crossing(mapped@[k], flow));
        }
        let added = feedthrough::boundary_edges(mapped@, r@, flow, mapped@.len() as int);
        assert forall|k: int| before.edges@.len() <= k < graph.edges@.len() implies boundary_explained(through, nodes, #[trigger] graph.edges@[k]) by {
            let at = k - before.edges@.len();
            assert(graph.edges@[k] == added[at]);
            lemma_boundary_explained(through, nodes, mapped@, r@, flow, mapped@.len() as int, at);
        }
    }
    Some(r)
}

proof fn lemma_boundary_explained(
    through: Through,
    nodes: Seq<GraphNode>,
    mapped: Seq<MappedNode>,
    resolved: Seq<Option<ResolvedNode>>,
    flow: BoundaryFlow,
    count: int,
    at: int,
)
    requires
        feedthrough::resolution(nodes, through.partition, mapped, resolved),
        0 <= count <= mapped.len(),
        forall|i: int| 0 <= i < mapped.len() ==> through.crossing(#[trigger] mapped[i], flow),
        0 <= at < feedthrough::boundary_edges(mapped, resolved, flow, count).len(),
    ensures
        boundary_explained(through, nodes, feedthrough::boundary_edges(mapped, resolved, flow, count)[at]),
    decreases count,
{
    if count > 0 {
        let fewer = feedthrough::boundary_edges(mapped, resolved, flow, count - 1);
        if at < fewer.len() {
            lemma_boundary_explained(through, nodes, mapped, resolved, flow, count - 1, at);
        } else {
            let m = mapped[count - 1];
            let r = resolved[count - 1];
            assert(feedthrough::became(nodes, through.partition, m, r));
            assert(through.crossing(m, flow));
            assert(feedthrough::boundary_edges(mapped, resolved, flow, count)[at] == feedthrough::boundary_edge(m, r->0, flow));
        }
    }
}

/// What stands for a node of the summary, as a set.
pub open spec fn base(through: Through, i: int) -> spec_fn(End) -> bool {
    |end: End| through.ends(i, end)
}

/// The nodes to which ports correspond are listed and found.
pub open spec fn ready(
    through: Through,
    g: DependencyGraph,
    paths: Seq<PathNode>,
    inner: Inside,
    mapped: Seq<Vec<MappedNode>>,
    resolved: Seq<Vec<Option<ResolvedNode>>>,
) -> bool {
    &&& mapped.len() == resolved.len()
    &&& forall|i: int| 0 <= i < mapped.len() ==> #[trigger] ready_at(through, g, paths, inner, i, mapped[i]@, resolved[i]@)
}

pub open spec fn ready_at(
    through: Through,
    g: DependencyGraph,
    paths: Seq<PathNode>,
    inner: Inside,
    i: int,
    mapped: Seq<MappedNode>,
    resolved: Seq<Option<ResolvedNode>>,
) -> bool {
    &&& forall|m: MappedNode| #[trigger] mapped.contains(m) <==> through.maps(i, m)
    &&& forall|k: int| 0 <= k < mapped.len() ==> (#[trigger] mapped[k]).condition.node < paths.len()
    &&& forall|k: int| 0 <= k < mapped.len() ==> instance::mapped_wf(#[trigger] mapped[k])
    &&& represents(through, g, inner, base(through, i), resolved)
    &&& feedthrough::all_usable(g.nodes@, paths, resolved)
}

proof fn lemma_ready_kept(
    through: Through,
    a: DependencyGraph,
    b: DependencyGraph,
    p: Seq<PathNode>,
    q: Seq<PathNode>,
    inner: Inside,
    mapped: Seq<Vec<MappedNode>>,
    resolved: Seq<Vec<Option<ResolvedNode>>>,
)
    requires
        drawn_kept(a, b),
        arena::grows(p, q),
        ready(through, a, p, inner, mapped, resolved),
    ensures
        ready(through, b, q, inner, mapped, resolved),
{
    assert forall|i: int| 0 <= i < mapped.len() implies #[trigger] ready_at(through, b, q, inner, i, mapped[i]@, resolved[i]@) by {
        assert(ready_at(through, a, p, inner, i, mapped[i]@, resolved[i]@));
        lemma_ready_at_kept(through, a, b, p, q, inner, i, mapped[i]@, resolved[i]@);
    }
}

proof fn lemma_ready_at_kept(
    through: Through,
    a: DependencyGraph,
    b: DependencyGraph,
    p: Seq<PathNode>,
    q: Seq<PathNode>,
    inner: Inside,
    i: int,
    mapped: Seq<MappedNode>,
    resolved: Seq<Option<ResolvedNode>>,
)
    requires
        drawn_kept(a, b),
        arena::grows(p, q),
        ready_at(through, a, p, inner, i, mapped, resolved),
    ensures
        ready_at(through, b, q, inner, i, mapped, resolved),
{
    lemma_represents_kept(through, a, b, inner, base(through, i), resolved);
    assert forall|k: int| 0 <= k < resolved.len() implies feedthrough::usable(b.nodes@, q, #[trigger] resolved[k]) by {
        assert(feedthrough::usable(a.nodes@, p, resolved[k]));
    }
}

/// The offsets of a dependency fit wherever it starts and ends.
pub open spec fn edge_fits(through: Through, paths: Seq<PathNode>, e: int, joint: Joint) -> bool {
    forall|s: End, d: End| #[trigger] through.pair(e, s, d) && through.on_node(s) && through.on_node(d) ==> ends_fit(paths, s, d, joint)
}

/// The conditions of the ends of a dependency exist.
pub open spec fn ends_hold(through: Through, paths: Seq<PathNode>, e: int) -> bool {
    forall|s: End, d: End| #[trigger] through.pair(e, s, d) ==> end_condition(s).node < paths.len() && end_condition(d).node < paths.len()
}

/// All edges from `from` on are owed to the instance.
pub open spec fn all_explained(
    through: Through,
    g: DependencyGraph,
    paths: Seq<PathNode>,
    inner: Inside,
    joints: Seq<Joint>,
    edges: Seq<GraphEdge>,
    from: int,
) -> bool {
    forall|k: int| from <= k < edges.len() ==> explained(through, g, paths, inner, joints, #[trigger] edges[k])
}

proof fn lemma_all_explained_kept(
    through: Through,
    a: DependencyGraph,
    b: DependencyGraph,
    p: Seq<PathNode>,
    q: Seq<PathNode>,
    inner: Inside,
    joints: Seq<Joint>,
    more: Seq<Joint>,
    edges: Seq<GraphEdge>,
    longer: Seq<GraphEdge>,
    from: int,
)
    requires
        drawn_kept(a, b),
        arena::grows(p, q),
        joints_hold(p, joints),
        joints.len() <= more.len(),
        forall|e: int| 0 <= e < joints.len() ==> joints[e] == more[e],
        0 <= from,
        all_explained(through, a, p, inner, joints, edges, from),
        edges.len() <= longer.len(),
        longer.take(edges.len() as int) == edges,
        forall|k: int| from <= k && edges.len() <= k < longer.len() ==> explained(through, b, q, inner, more, #[trigger] longer[k]),
    ensures
        all_explained(through, b, q, inner, more, longer, from),
{
    assert forall|k: int| from <= k < longer.len() implies explained(through, b, q, inner, more, #[trigger] longer[k]) by {
        if k < edges.len() {
            assert(longer.take(edges.len() as int)[k] == longer[k]);
            assert(explained(through, a, p, inner, joints, edges[k]));
            lemma_explained_kept(through, a, b, p, q, inner, joints, more, edges[k]);
        }
    }
}

/// An edge between two sets of which all pairs belong to a dependency is owed to it.
proof fn lemma_sets_explained(
    through: Through,
    g: DependencyGraph,
    paths: Seq<PathNode>,
    inner: Inside,
    from: spec_fn(End) -> bool,
    to: spec_fn(End) -> bool,
    joints: Seq<Joint>,
    e: int,
    edge: GraphEdge,
)
    requires
        0 <= e < joints.len(),
        forall|s: End, d: End| #[trigger] from(s) && #[trigger] to(d) ==> through.pair(e, s, d),
        joins_sets(g, paths, inner, from, to, joints[e], edge),
    ensures
        explained(through, g, paths, inner, joints, edge),
{
    reveal(joins_sets);
    let (s, d) = choose|s: End, d: End| #[trigger] from(s) && #[trigger] to(d) && end_join(g, paths, inner, s, d, joints[e], edge);
    assert(through.pair(e, s, d));
}

/// The dependency is among the edges wherever it ends in one of the first `count` nodes of the list
/// and does not start at what stands for all of its source.
pub open spec fn complete_for(
    through: Through,
    g: DependencyGraph,
    paths: Seq<PathNode>,
    inner: Inside,
    joint: Joint,
    e: int,
    list: Seq<MappedNode>,
    count: int,
    edges: Seq<GraphEdge>,
) -> bool {
    forall|s: End, i: int|
        0 <= i < count && !(through.projection(e, #[trigger] list[i]) is Unknown) && #[trigger] through.pair(e, s, End::Node(list[i], BoundaryFlow::ChildToParent)) && through.on_node(s) && through.on_node(
            End::Node(list[i], BoundaryFlow::ChildToParent),
        ) ==> end_joined(g, paths, inner, s, End::Node(list[i], BoundaryFlow::ChildToParent), joint, edges)
}

proof fn lemma_complete_for_kept(
    through: Through,
    a: DependencyGraph,
    b: DependencyGraph,
    p: Seq<PathNode>,
    q: Seq<PathNode>,
    inner: Inside,
    joint: Joint,
    e: int,
    list: Seq<MappedNode>,
    count: int,
    edges: Seq<GraphEdge>,
    longer: Seq<GraphEdge>,
)
    requires
        drawn_kept(a, b),
        arena::grows(p, q),
        joint.condition.node < p.len(),
        complete_for(through, a, p, inner, joint, e, list, count, edges),
        edges.len() <= longer.len(),
        longer.take(edges.len() as int) == edges,
    ensures
        complete_for(through, b, q, inner, joint, e, list, count, longer),
{
    lemma_prefix_contained(edges, longer);
    assert forall|s: End, i: int|
        0 <= i < count && !(through.projection(e, #[trigger] list[i]) is Unknown) && #[trigger] through.pair(e, s, End::Node(list[i], BoundaryFlow::ChildToParent)) && through.on_node(s) && through.on_node(
            End::Node(list[i], BoundaryFlow::ChildToParent),
        ) implies end_joined(b, q, inner, s, End::Node(list[i], BoundaryFlow::ChildToParent), joint, longer) by {
        lemma_end_joined_kept(a, b, p, q, inner, s, End::Node(list[i], BoundaryFlow::ChildToParent), joint, edges, longer);
    }
}

proof fn lemma_prefix_contained(edges: Seq<GraphEdge>, longer: Seq<GraphEdge>)
    requires
        edges.len() <= longer.len(),
        longer.take(edges.len() as int) == edges,
    ensures
        forall|k: int| 0 <= k < edges.len() ==> longer.contains(#[trigger] edges[k]),
{
    assert forall|k: int| 0 <= k < edges.len() implies longer.contains(#[trigger] edges[k]) by {
        assert(longer.take(edges.len() as int)[k] == longer[k]);
    }
}

proof fn lemma_prefix_transitive(a: Seq<GraphEdge>, b: Seq<GraphEdge>, c: Seq<GraphEdge>)
    requires
        a.len() <= b.len() <= c.len(),
        b.take(a.len() as int) == a,
        c.take(b.len() as int) == b,
    ensures
        c.take(a.len() as int) == a,
{
    assert forall|k: int| 0 <= k < a.len() implies c.take(a.len() as int)[k] == a[k] by {
        assert(b.take(a.len() as int)[k] == b[k]);
        assert(c.take(b.len() as int)[k] == c[k]);
    }
    assert(c.take(a.len() as int) =~= a);
}

/// The edges of one dependency of the child.
pub open spec fn edge_added(
    through: Through,
    g: DependencyGraph,
    paths: Seq<PathNode>,
    inner: Inside,
    joints: Seq<Joint>,
    edges: Seq<GraphEdge>,
    from: int,
) -> bool {
    &&& all_explained(through, g, paths, inner, joints, edges, from)
    &&& complete(through, g, paths, inner, joints.last(), joints.len() - 1, edges)
}

impl Through {
    /// The instance and the summary fit each other.
    pub open spec fn wf(self, paths: Seq<PathNode>) -> bool {
        &&& self.partition.wf()
        &&& self.summary.wf()
        &&& self.instance.wf(paths)
        &&& paths.len() > 0
    }

    proof fn lemma_source_condition(self, paths: Seq<PathNode>, i: int, region: SummaryRegion, preserve: bool, m: MappedNode)
        requires
            self.wf(paths),
            0 <= i < self.summary.nodes@.len(),
            self.summary.nodes@[i].kind == SummaryNodeKind::Input,
            self.source_maps(i, region, preserve, m),
        ensures
            m.condition.node < paths.len(),
    {
        let id = self.summary.nodes@[i].region.id;
        assert(self.instance.connections@.dom().contains(id));
        let c = self.connection(i);
        instance::source_mapping_keeps_conditions(
            c.endpoint,
            region,
            preserve,
            list_view(c.reads),
            self.instance.evaluated@,
            self.partition,
            m,
        );
        self.lemma_conditioned(paths, list_view(c.reads), m.condition);
    }

    proof fn lemma_conditioned(self, paths: Seq<PathNode>, sources: Option<Seq<RegionSource>>, condition: PathCondition)
        requires
            self.wf(paths),
            sources_hold(paths, sources),
            instance::conditioned(sources, condition) || instance::evaluated_condition(self.instance.evaluated@, condition),
        ensures
            condition.node < paths.len(),
    {
        if instance::conditioned(sources, condition) {
            if condition.node != 0 {
                let list = sources->0;
                let k = choose|k: int| 0 <= k < list.len() && (#[trigger] list[k]).condition == condition;
                assert(list[k].condition.node < paths.len());
            }
        } else {
            let evaluated = self.instance.evaluated@;
            let (a, k) = choose|a: int, k: int|
                0 <= a < evaluated.len() && 0 <= k < evaluated[a].nodes@.len() && (#[trigger] evaluated[a].nodes@[k]).condition == condition;
            assert(self.instance.evaluated@[a].nodes@[k].condition.node < paths.len());
        }
    }

    proof fn lemma_end_condition(self, paths: Seq<PathNode>, i: int, end: End)
        requires
            self.wf(paths),
            0 <= i < self.summary.nodes@.len(),
            self.ends(i, end),
        ensures
            end_condition(end).node < paths.len(),
            end matches End::Node(m, _) ==> m.condition.node < paths.len(),
    {
        if let End::Node(m, _) = end {
            let node = self.summary.nodes@[i];
            assert(node.kind != SummaryNodeKind::Internal);
            assert(self.instance.connections@.dom().contains(node.region.id));
            let c = self.connection(i);
            match node.kind {
                SummaryNodeKind::Input => {
                    self.lemma_source_condition(paths, i, node.region, self.summary.positioned(i), m);
                },
                SummaryNodeKind::Output => {
                    instance::mapping_keeps_conditions(c.endpoint, node.region, PortDirection::Output, list_view(c.writes), self.partition, m);
                    self.lemma_conditioned(paths, list_view(c.writes), m.condition);
                },
                SummaryNodeKind::Interface => {
                    instance::mapping_keeps_conditions(c.endpoint, node.region, PortDirection::Input, None, self.partition, m);
                },
                SummaryNodeKind::Internal => {},
            }
        }
    }

    proof fn lemma_ends_hold(self, paths: Seq<PathNode>, e: int)
        requires
            self.wf(paths),
            0 <= e < self.summary.edges@.len(),
        ensures
            ends_hold(self, paths, e),
    {
        let edge = self.summary.edges@[e];
        assert forall|s: End, d: End| #[trigger] self.pair(e, s, d) implies end_condition(s).node < paths.len() && end_condition(d).node < paths.len() by {
            if self.projects(e) {
                self.lemma_end_condition(paths, edge.destination as int, End::Node(d->Node_0, flow_of(self.summary.nodes@[edge.destination as int].kind)));
                match self.projection(e, d->Node_0) {
                    RegionProjection::Exact(region) => {
                        self.lemma_source_condition(paths, edge.source as int, region, true, s->Node_0);
                    },
                    RegionProjection::Disjoint => {},
                    RegionProjection::Unknown => {
                        self.lemma_end_condition(paths, edge.source as int, s);
                    },
                }
            } else {
                self.lemma_end_condition(paths, edge.destination as int, d);
                self.lemma_end_condition(paths, edge.source as int, s);
            }
        }
    }
}

fn copy_node(node: &MappedNode) -> (r: Vec<MappedNode>)
    ensures
        r@ == seq![*node],
{
    let mut r: Vec<MappedNode> = Vec::new();
    r.push(*node);
    assert(r@ =~= seq![*node]);
    r
}

/// The nodes to which a region of an input corresponds, where its position matters.
fn map_source(
    instance: &Instance,
    summary: &ModuleSummary,
    partition: &BitPartition,
    i: usize,
    region: SummaryRegion,
    preserve: bool,
    Ghost(through): Ghost<Through>,
    Ghost(paths): Ghost<Seq<PathNode>>,
) -> (r: Vec<MappedNode>)
    requires
        through == (Through { instance: *instance, summary: *summary, partition: *partition }),
        through.wf(paths),
        i < summary.nodes@.len(),
        summary.nodes@[i as int].kind == SummaryNodeKind::Input,
        region.packed.wf(),
    ensures
        forall|m: MappedNode| #[trigger] r@.contains(m) <==> through.source_maps(i as int, region, preserve, m),
        forall|k: int| 0 <= k < r@.len() ==> instance::mapped_wf(#[trigger] r@[k]),
{
    broadcast use vstd::std_specs::hash::group_hash_axioms;

    assert(summary.nodes@[i as int].kind != SummaryNodeKind::Internal);
    match instance.connections.get(&summary.nodes[i].region.id) {
        Some(connection) => {
            let reads: Option<&Vec<RegionSource>> = match &connection.reads {
                Some(list) => Some(list),
                None => None,
            };
            assert(instance::sources_view(reads) == list_view(connection.reads));
            map_instance_source_region(&connection.endpoint, region, preserve, reads, &instance.evaluated, partition)
        },
        None => Vec::new(),
    }
}

proof fn lemma_complete_for_next(
    through: Through,
    g: DependencyGraph,
    paths: Seq<PathNode>,
    inner: Inside,
    joint: Joint,
    e: int,
    list: Seq<MappedNode>,
    count: int,
    edges: Seq<GraphEdge>,
)
    requires
        0 <= count < list.len(),
        complete_for(through, g, paths, inner, joint, e, list, count, edges),
        through.projects(e),
        through.projection(e, list[count]) is Exact ==> joined_to(through, g, paths, inner, joint, e, list[count], edges),
    ensures
        complete_for(through, g, paths, inner, joint, e, list, count + 1, edges),
{
    assert forall|s: End, k: int|
        0 <= k < count + 1 && !(through.projection(e, #[trigger] list[k]) is Unknown) && #[trigger] through.pair(e, s, End::Node(list[k], BoundaryFlow::ChildToParent)) && through.on_node(s) && through.on_node(
            End::Node(list[k], BoundaryFlow::ChildToParent),
        ) implies end_joined(g, paths, inner, s, End::Node(list[k], BoundaryFlow::ChildToParent), joint, edges) by {
        if k == count {
            assert(through.pair(e, s, End::Node(list[count], BoundaryFlow::ChildToParent)));
        }
    }
}

/// The dependency is among the edges wherever it starts that ends in the node.
pub open spec fn joined_to(
    through: Through,
    g: DependencyGraph,
    paths: Seq<PathNode>,
    inner: Inside,
    joint: Joint,
    e: int,
    m: MappedNode,
    edges: Seq<GraphEdge>,
) -> bool {
    forall|s: End| #[trigger]
        through.pair(e, s, End::Node(m, BoundaryFlow::ChildToParent)) && through.on_node(s) && through.on_node(End::Node(m, BoundaryFlow::ChildToParent)) ==> end_joined(
            g,
            paths,
            inner,
            s,
            End::Node(m, BoundaryFlow::ChildToParent),
            joint,
            edges,
        )
}

/// The offsets of a dependency fit wherever it starts that ends in the node.
#[verifier::opaque]
pub open spec fn destination_fits(through: Through, paths: Seq<PathNode>, e: int, joint: Joint, m: MappedNode) -> bool {
    let d = End::Node(m, BoundaryFlow::ChildToParent);
    &&& forall|s: End| #[trigger] through.pair(e, s, d) ==> through.can_enter_at(s->Node_0)
    &&& forall|s: End| #[trigger] through.pair(e, s, d) && through.on_node(s) && through.on_node(d) ==> ends_fit(paths, s, d, joint)
}

proof fn lemma_ends_fit_kept(p: Seq<PathNode>, q: Seq<PathNode>, s: End, d: End, joint: Joint)
    requires
        arena::grows(p, q),
        joint.condition.node < p.len(),
        end_condition(s).node < p.len(),
        end_condition(d).node < p.len(),
    ensures
        ends_fit(p, s, d, joint) == ends_fit(q, s, d, joint),
{
    arena::growth_keeps_paths(p, q, joint.condition.node as int);
    arena::growth_keeps_paths(p, q, end_condition(s).node as int);
    arena::growth_keeps_paths(p, q, end_condition(d).node as int);
}

proof fn lemma_destination_fits_kept(through: Through, p: Seq<PathNode>, q: Seq<PathNode>, e: int, joint: Joint, m: MappedNode)
    requires
        arena::grows(p, q),
        joint.condition.node < p.len(),
        ends_hold(through, p, e),
    ensures
        destination_fits(through, p, e, joint, m) == destination_fits(through, q, e, joint, m),
{
    reveal(destination_fits);
    let d = End::Node(m, BoundaryFlow::ChildToParent);
    assert forall|s: End| #[trigger] through.pair(e, s, d) implies ends_fit(p, s, d, joint) == ends_fit(q, s, d, joint) by {
        lemma_ends_fit_kept(p, q, s, d, joint);
    }
}

/// A dependency that is found by region fits where it does so in each node in which it ends.
proof fn lemma_edge_fits(through: Through, paths: Seq<PathNode>, e: int, joint: Joint, list: Seq<MappedNode>)
    requires
        0 <= e < through.summary.edges@.len(),
        through.projects(e),
        forall|m: MappedNode| #[trigger] list.contains(m) <==> through.maps(through.summary.edges@[e].destination as int, m),
        forall|k: int| 0 <= k < list.len() && !(through.projection(e, #[trigger] list[k]) is Unknown) ==> destination_fits(through, paths, e, joint, list[k]),
        forall|s: End, k: int|
            0 <= k < list.len() && through.projection(e, #[trigger] list[k]) is Unknown && #[trigger] through.pair(e, s, End::Node(list[k], BoundaryFlow::ChildToParent)) && through.on_node(s)
                && through.on_node(End::Node(list[k], BoundaryFlow::ChildToParent)) ==> ends_fit(paths, s, End::Node(list[k], BoundaryFlow::ChildToParent), joint),
    ensures
        edge_fits(through, paths, e, joint),
        through.source_enters(e),
{
    reveal(destination_fits);
    reveal(Through::source_enters);
    assert forall|s: End, d: End| #[trigger] through.pair(e, s, d) && through.on_node(s) && through.on_node(d) implies ends_fit(paths, s, d, joint) by {
        let k = choose|k: int| 0 <= k < list.len() && list[k] == d->Node_0;
        assert(list.contains(d->Node_0));
        assert(d == End::Node(list[k], BoundaryFlow::ChildToParent));
        if !(through.projection(e, list[k]) is Unknown) {
            assert(destination_fits(through, paths, e, joint, list[k]));
        }
    }
    assert forall|s: End, d: End| #[trigger] through.pair(e, s, d) && !(through.projection(e, d->Node_0) is Unknown) implies through.can_enter_at(s->Node_0) by {
        let k = choose|k: int| 0 <= k < list.len() && list[k] == d->Node_0;
        assert(list.contains(d->Node_0));
        assert(d == End::Node(list[k], BoundaryFlow::ChildToParent));
        assert(destination_fits(through, paths, e, joint, list[k]));
    }
}

proof fn lemma_disjoint_fits(through: Through, paths: Seq<PathNode>, e: int, joint: Joint, m: MappedNode)
    requires
        through.projects(e),
        through.projection(e, m) is Disjoint,
    ensures
        destination_fits(through, paths, e, joint, m),
{
    reveal(destination_fits);
}

proof fn lemma_destination_misfit(through: Through, paths: Seq<PathNode>, e: int, joint: Joint, m: MappedNode)
    requires
        through.projects(e),
        !(through.projection(e, m) is Unknown),
        !destination_fits(through, paths, e, joint, m),
    ensures
        !(edge_fits(through, paths, e, joint) && through.source_enters(e)),
{
    reveal(destination_fits);
    reveal(Through::source_enters);
    let d = End::Node(m, BoundaryFlow::ChildToParent);
    if edge_fits(through, paths, e, joint) && through.source_enters(e) {
        assert forall|s: End| #[trigger] through.pair(e, s, d) implies through.can_enter_at(s->Node_0) by {
            assert(through.pair(e, s, d) && !(through.projection(e, d->Node_0) is Unknown));
        }
    }
}

/// Adds one dependency of the child where it ends in one node of the parent, from the region of the
/// input on which that depends.
fn add_exact(
    graph: &mut DependencyGraph,
    arena: &mut PathArena,
    instance: &Instance,
    summary: &ModuleSummary,
    partition: &BitPartition,
    e: usize,
    joint: Joint,
    destination: MappedNode,
    region: SummaryRegion,
    Ghost(through): Ghost<Through>,
    Ghost(inner): Ghost<Inside>,
    Ghost(joints): Ghost<Seq<Joint>>,
) -> (r: bool)
    requires
        through == (Through { instance: *instance, summary: *summary, partition: *partition }),
        through.wf(old(arena)@),
        e < summary.edges@.len(),
        through.projects(e as int),
        joints.len() == e + 1,
        joints[e as int] == joint,
        joints_hold(old(arena)@, joints),
        old(graph).wf(),
        old(graph).placed_in(*partition),
        inside_graph(*old(graph), inner),
        old(arena).wf(),
        through.maps(summary.edges@[e as int].destination as int, destination),
        destination.condition.node < old(arena)@.len(),
        through.projection(e as int, destination) == RegionProjection::Exact(region),
        region.packed.wf(),
    ensures
        r == destination_fits(through, old(arena)@, e as int, joint, destination),
        final(graph).wf(),
        final(graph).placed_in(*partition),
        graph::nodes_kept(old(graph).nodes@, final(graph).nodes@),
        final(arena).wf(),
        arena::grows(old(arena)@, final(arena)@),
        r ==> {
            &&& final(graph).edges@.len() >= old(graph).edges@.len()
            &&& final(graph).edges@.take(old(graph).edges@.len() as int) == old(graph).edges@
            &&& all_explained(through, *final(graph), final(arena)@, inner, joints, final(graph).edges@, old(graph).edges@.len() as int)
            &&& joined_to(through, *final(graph), final(arena)@, inner, joint, e as int, destination, final(graph).edges@)
        },
{
    proof {
        reveal(destination_fits);
    }
    let ghost known = *graph;
    let ghost paths = arena@;
    let edge = summary.edges[e];
    proof {
        assert(summary.edges@[e as int].source < summary.nodes@.len() && summary.edges@[e as int].destination < summary.nodes@.len());
        assert(joints[e as int].condition.node < paths.len());
    }
    let nodes = map_source(instance, summary, partition, edge.source, region, true, Ghost(through), Ghost(paths));
    let ghost from_set = listed(nodes@, BoundaryFlow::ParentToChild);
    proof {
        assert forall|k: int| 0 <= k < nodes@.len() implies through.crossing(#[trigger] nodes@[k], BoundaryFlow::ParentToChild) && nodes@[k].condition.node < paths.len() by {
            assert(nodes@.contains(nodes@[k]));
            assert(through.projection(e as int, destination) == RegionProjection::Exact(region));
            assert(through.maps(edge.destination as int, destination));
            assert(through.asked(edge.source as int, region));
            assert(through.source_maps(edge.source as int, region, true, nodes@[k]));
            assert(through.enters(nodes@[k]));
            through.lemma_source_condition(paths, edge.source as int, region, true, nodes@[k]);
        }
    }
    let found = resolve_listed(graph, partition, &nodes, BoundaryFlow::ParentToChild, Ghost(through), Ghost(inner), Ghost(paths));
    let ghost middle = *graph;
    let ghost to = End::Node(destination, BoundaryFlow::ChildToParent);
    proof {
        assert forall|s: End| #[trigger] through.pair(e as int, s, to) implies from_set(s) && nodes@.contains(s->Node_0) by {}
    }
    let sources = match found {
        Some(sources) => sources,
        None => {
            proof {
                let m = choose|m: MappedNode| #[trigger] nodes@.contains(m) && !through.can_enter_at(m);
                let s = End::Node(m, BoundaryFlow::ParentToChild);
                assert(through.pair(e as int, s, to));
            }
            return false;
        },
    };
    let single = copy_node(&destination);
    let ghost to_set = listed(single@, BoundaryFlow::ChildToParent);
    proof {
        assert forall|k: int| 0 <= k < single@.len() implies through.crossing(#[trigger] single@[k], BoundaryFlow::ChildToParent) && single@[k].condition.node < paths.len() by {
            assert(through.maps(edge.destination as int, single@[k]));
            lemma_leaves(through, e as int, single@[k]);
        }
    }
    let destinations = match resolve_listed(graph, partition, &single, BoundaryFlow::ChildToParent, Ghost(through), Ghost(inner), Ghost(paths)) {
        Some(destinations) => destinations,
        None => Vec::new(),
    };
    let ghost second = *graph;
    proof {
        lemma_drawn(middle, second);
        lemma_represents_kept(through, middle, second, inner, from_set, sources@);
        assert forall|k: int| 0 <= k < sources@.len() implies feedthrough::usable(second.nodes@, paths, #[trigger] sources@[k]) by {
            assert(feedthrough::usable(middle.nodes@, paths, sources@[k]));
        }
        assert forall|s: End, d: End| #[trigger] from_set(s) && #[trigger] to_set(d) implies through.pair(e as int, s, d) by {
            assert(d == End::Node(destination, BoundaryFlow::ChildToParent));
            assert(nodes@.contains(s->Node_0));
        }
    }
    let fits = join_ends(graph, arena, &sources, &destinations, joint, Ghost(through), Ghost(inner), Ghost(from_set), Ghost(to_set));
    proof {
        assert(single@[0] == destination);
        assert(to_set(to));
        graph::nodes_kept_is_transitive(known.nodes@, middle.nodes@, second.nodes@);
        if sets_fit(through, paths, from_set, to_set, joint) {
            assert forall|s: End| #[trigger] through.pair(e as int, s, to) && through.on_node(s) && through.on_node(to) implies ends_fit(paths, s, to, joint) by {
                assert(from_set(s));
            }
            assert forall|s: End| #[trigger] through.pair(e as int, s, to) implies through.can_enter_at(s->Node_0) by {
                assert(nodes@.contains(s->Node_0));
            }
        } else {
            let (s, d) = choose|s: End, d: End| #[trigger] from_set(s) && #[trigger] to_set(d) && through.on_node(s) && through.on_node(d) && !ends_fit(paths, s, d, joint);
            assert(d == to);
            assert(through.pair(e as int, s, to));
        }
    }
    if !fits {
        return false;
    }
    proof {
        lemma_prefix_transitive(known.edges@, middle.edges@, second.edges@);
        lemma_prefix_transitive(known.edges@, second.edges@, graph.edges@);
        lemma_prefix_transitive(middle.edges@, second.edges@, graph.edges@);
        lemma_drawn(middle, *graph);
        assert forall|k: int| known.edges@.len() <= k < graph.edges@.len() implies explained(through, *graph, arena@, inner, joints, #[trigger] graph.edges@[k]) by {
            if k < middle.edges@.len() {
                assert(second.edges@.take(middle.edges@.len() as int)[k] == second.edges@[k]);
                assert(graph.edges@.take(second.edges@.len() as int)[k] == graph.edges@[k]);
                assert(boundary_explained(through, middle.nodes@, middle.edges@[k]));
                assert(explained(through, middle, paths, inner, joints, middle.edges@[k]));
                lemma_explained_kept(through, middle, *graph, paths, arena@, inner, joints, joints, middle.edges@[k]);
            } else if k < second.edges@.len() {
                assert(graph.edges@.take(second.edges@.len() as int)[k] == graph.edges@[k]);
                assert(boundary_explained(through, second.nodes@, second.edges@[k]));
            } else {
                lemma_sets_explained(through, *graph, arena@, inner, from_set, to_set, joints, e as int, graph.edges@[k]);
            }
        }
        assert forall|s: End| #[trigger] through.pair(e as int, s, End::Node(destination, BoundaryFlow::ChildToParent)) && through.on_node(s) && through.on_node(End::Node(destination, BoundaryFlow::ChildToParent)) implies end_joined(
            *graph,
            arena@,
            inner,
            s,
            End::Node(destination, BoundaryFlow::ChildToParent),
            joint,
            graph.edges@,
        ) by {
            assert(from_set(s));
            assert(single@[0] == destination);
            assert(to_set(End::Node(destination, BoundaryFlow::ChildToParent)));
        }
    }
    true
}

/// Adds one dependency of the child. The answer is whether all offsets fit.
#[verifier::rlimit(40)]
fn add_edge_feedthrough(
    graph: &mut DependencyGraph,
    arena: &mut PathArena,
    instance: &Instance,
    summary: &ModuleSummary,
    partition: &BitPartition,
    e: usize,
    joint: Joint,
    mapped: &Vec<Vec<MappedNode>>,
    resolved: &Vec<Vec<Option<ResolvedNode>>>,
    Ghost(through): Ghost<Through>,
    Ghost(inner): Ghost<Inside>,
    Ghost(joints): Ghost<Seq<Joint>>,
) -> (r: bool)
    requires
        through == (Through { instance: *instance, summary: *summary, partition: *partition }),
        through.wf(old(arena)@),
        e < summary.edges@.len(),
        joints.len() == e + 1,
        joints[e as int] == joint,
        joints_hold(old(arena)@, joints),
        old(graph).wf(),
        old(graph).placed_in(*partition),
        inside_graph(*old(graph), inner),
        old(arena).wf(),
        mapped@.len() == summary.nodes@.len(),
        ready(through, *old(graph), old(arena)@, inner, mapped@, resolved@),
    ensures
        r == (edge_fits(through, old(arena)@, e as int, joint) && through.source_enters(e as int)),
        final(graph).wf(),
        final(graph).placed_in(*partition),
        graph::nodes_kept(old(graph).nodes@, final(graph).nodes@),
        final(arena).wf(),
        arena::grows(old(arena)@, final(arena)@),
        r ==> final(graph).edges@.len() >= old(graph).edges@.len(),
        r ==> final(graph).edges@.take(old(graph).edges@.len() as int) == old(graph).edges@,
        r ==> edge_added(through, *final(graph), final(arena)@, inner, joints, final(graph).edges@, old(graph).edges@.len() as int),
{
    let ghost before = *graph;
    let ghost start = *arena;
    let ghost first = graph.edges@.len() as int;
    let edge = summary.edges[e];
    proof {
        assert(summary.edges@[e as int].source < summary.nodes@.len() && summary.edges@[e as int].destination < summary.nodes@.len());
        through.lemma_ends_hold(start@, e as int);
        assert(joints[e as int].condition.node < start@.len());
        assert(ready_at(through, *graph, start@, inner, edge.source as int, mapped@[edge.source as int]@, resolved@[edge.source as int]@));
        assert(ready_at(through, *graph, start@, inner, edge.destination as int, mapped@[edge.destination as int]@, resolved@[edge.destination as int]@));
    }
    let ghost from = base(through, edge.source as int);
    let projects: bool = summary.nodes[edge.source].kind == SummaryNodeKind::Input && edge.kind.array.is_some() && edge.kind.packed.is_some()
        && summary.nodes[edge.destination].kind != SummaryNodeKind::Internal;
    assert(projects == through.projects(e as int));
    if !projects {
        assert(through.source_enters(e as int)) by {
            reveal(Through::source_enters);
        }
        let ghost to = base(through, edge.destination as int);
        proof {
            assert forall|s: End, d: End| #[trigger] from(s) && #[trigger] to(d) implies through.pair(e as int, s, d) by {}
        }
        let fits = join_ends(graph, arena, &resolved[edge.source], &resolved[edge.destination], joint, Ghost(through), Ghost(inner), Ghost(from), Ghost(to));
        proof {
            if fits {
                assert forall|s: End, d: End| #[trigger] through.pair(e as int, s, d) && through.on_node(s) && through.on_node(d) implies ends_fit(start@, s, d, joint) by {
                    assert(from(s) && to(d));
                }
            } else {
                let (s, d) = choose|s: End, d: End| #[trigger] from(s) && #[trigger] to(d) && through.on_node(s) && through.on_node(d) && !ends_fit(start@, s, d, joint);
                assert(through.pair(e as int, s, d));
            }
        }
        if !fits {
            return false;
        }
        proof {
            assert forall|k: int| first <= k < graph.edges@.len() implies explained(through, *graph, arena@, inner, joints, #[trigger] graph.edges@[k]) by {
                lemma_sets_explained(through, *graph, arena@, inner, from, to, joints, e as int, graph.edges@[k]);
            }
            assert forall|s: End, d: End| #[trigger] through.pair(e as int, s, d) && through.on_node(s) && through.on_node(d) implies end_joined(*graph, arena@, inner, s, d, joint, graph.edges@) by {
                assert(from(s) && to(d));
            }
        }
        return true;
    }
    let array: isize = edge.kind.array.unwrap();
    let packed: isize = edge.kind.packed.unwrap();
    let list = &mapped[edge.destination];
    let ghost listing = list@;
    let mut fallback: Vec<MappedNode> = Vec::new();
    let mut i: usize = 0;
    proof {
        assert(graph.edges@.take(first) =~= before.edges@);
    }
    while i < list.len()
        invariant
            i <= list@.len(),
            listing == list@,
            before == *old(graph),
            start == *old(arena),
            through == (Through { instance: *instance, summary: *summary, partition: *partition }),
            through.wf(start@),
            e < summary.edges@.len(),
            edge == summary.edges@[e as int],
            edge.source < summary.nodes@.len(),
            edge.destination < summary.nodes@.len(),
            through.projects(e as int),
            edge.kind.array == Some(array),
            edge.kind.packed == Some(packed),
            joints.len() == e + 1,
            joints[e as int] == joint,
            joints_hold(start@, joints),
            forall|k: int| 0 <= k < i && !(through.projection(e as int, #[trigger] listing[k]) is Unknown) ==> destination_fits(through, start@, e as int, joint, listing[k]),
            ends_hold(through, start@, e as int),
            arena::grows(start@, arena@),
            arena.wf(),
            graph.wf(),
            graph.placed_in(*partition),
            graph::nodes_kept(before.nodes@, graph.nodes@),
            inside_graph(before, inner),
            forall|m: MappedNode| #[trigger] list@.contains(m) <==> through.maps(edge.destination as int, m),
            forall|k: int| 0 <= k < list@.len() ==> (#[trigger] list@[k]).condition.node < start@.len() && instance::mapped_wf(list@[k]),
            first == before.edges@.len(),
            graph.edges@.len() >= first,
            graph.edges@.take(first) == before.edges@,
            all_explained(through, *graph, arena@, inner, joints, graph.edges@, first),
            complete_for(through, *graph, arena@, inner, joint, e as int, listing, i as int, graph.edges@),
            forall|m: MappedNode| #[trigger] fallback@.contains(m) <==> unprojected(through, e as int, listing.take(i as int), m),
            forall|k: int| 0 <= k < fallback@.len() ==> (#[trigger] fallback@[k]).condition.node < start@.len(),
        decreases list@.len() - i,
    {
        let destination = list[i];
        let ghost known = *graph;
        let ghost paths = arena@;
        let ghost fallback0 = fallback@;
        proof {
            assert(list@[i as int] == destination);
            assert(list@.contains(destination));
            lemma_destination_fits_kept(through, start@, paths, e as int, joint, destination);
            lemma_wf_kept(through, start@, paths);
        }
        let found = child_source_region_for_destination(
            summary.nodes[edge.source].region,
            summary.nodes[edge.destination].region,
            array,
            packed,
            &destination,
            partition,
        );
        assert(found == through.projection(e as int, destination));
        match found {
            RegionProjection::Exact(region) => {
                let fits = add_exact(graph, arena, instance, summary, partition, e, joint, destination, region, Ghost(through), Ghost(inner), Ghost(joints));
                proof {
                    graph::nodes_kept_is_transitive(before.nodes@, known.nodes@, graph.nodes@);
                    arena::growth_is_transitive(start@, paths, arena@);
                    if !fits {
                        lemma_destination_misfit(through, start@, e as int, joint, destination);
                    }
                }
                if !fits {
                    return false;
                }
                proof {
                    lemma_prefix_transitive(before.edges@, known.edges@, graph.edges@);
                    lemma_drawn(known, *graph);
                    assert(joints_hold(paths, joints));
                    lemma_all_explained_kept(through, known, *graph, paths, arena@, inner, joints, joints, known.edges@, graph.edges@, first);
                    lemma_complete_for_kept(through, known, *graph, paths, arena@, inner, joint, e as int, listing, i as int, known.edges@, graph.edges@);
                    lemma_complete_for_next(through, *graph, arena@, inner, joint, e as int, listing, i as int, graph.edges@);
                }
            },
            RegionProjection::Disjoint => {
                proof {
                    lemma_disjoint_fits(through, start@, e as int, joint, destination);
                    lemma_complete_for_next(through, *graph, arena@, inner, joint, e as int, listing, i as int, graph.edges@);
                }
            },
            RegionProjection::Unknown => {
                fallback.push(destination);
                proof {
                    lemma_complete_for_next(through, *graph, arena@, inner, joint, e as int, listing, i as int, graph.edges@);
                }
            },
        }
        proof {
            lemma_unprojected(through, e as int, listing, i as int, fallback0, fallback@);
        }
        i = i + 1;
    }
    if fallback.len() == 0 {
        proof {
            assert(listing.take(i as int) =~= listing);
            assert forall|k: int| 0 <= k < listing.len() implies !(through.projection(e as int, #[trigger] listing[k]) is Unknown) by {
                if through.projection(e as int, listing[k]) is Unknown {
                    assert(unprojected(through, e as int, listing, listing[k]));
                    assert(fallback@.contains(listing[k]));
                }
            }
            lemma_edge_fits(through, start@, e as int, joint, listing);
            assert forall|s: End, d: End| #[trigger] through.pair(e as int, s, d) && through.on_node(s) && through.on_node(d) implies end_joined(*graph, arena@, inner, s, d, joint, graph.edges@) by {
                assert(d is Node);
                assert(listing.contains(d->Node_0));
                let k = choose|k: int| 0 <= k < listing.len() && listing[k] == d->Node_0;
                assert(listing.take(i as int) =~= listing);
                if through.projection(e as int, listing[k]) is Unknown {
                    assert(unprojected(through, e as int, listing, listing[k]));
                    assert(fallback@.contains(listing[k]));
                }
                assert(d == End::Node(listing[k], BoundaryFlow::ChildToParent));
            }
        }
        return true;
    }
    let ghost known = *graph;
    let ghost paths = arena@;
    let ghost to_set = listed(fallback@, BoundaryFlow::ChildToParent);
    proof {
        lemma_wf_kept(through, start@, paths);
        assert(listing.take(i as int) =~= listing);
        assert forall|k: int| 0 <= k < fallback@.len() implies through.crossing(#[trigger] fallback@[k], BoundaryFlow::ChildToParent) && fallback@[k].condition.node < paths.len() by {
            assert(fallback@.contains(fallback@[k]));
            assert(listing.contains(fallback@[k]));
            lemma_leaves(through, e as int, fallback@[k]);
        }
    }
    let destinations = match resolve_listed(graph, partition, &fallback, BoundaryFlow::ChildToParent, Ghost(through), Ghost(inner), Ghost(paths)) {
        Some(destinations) => destinations,
        None => Vec::new(),
    };
    let ghost second = *graph;
    proof {
        graph::nodes_kept_is_transitive(before.nodes@, known.nodes@, second.nodes@);
        lemma_prefix_transitive(before.edges@, known.edges@, second.edges@);
        lemma_drawn(before, second);
        lemma_represents_kept(through, before, second, inner, from, resolved@[edge.source as int]@);
        assert forall|k: int| 0 <= k < resolved@[edge.source as int]@.len() implies feedthrough::usable(second.nodes@, paths, #[trigger] resolved@[edge.source as int]@[k]) by {
            assert(feedthrough::usable(before.nodes@, start@, resolved@[edge.source as int]@[k]));
        }
        assert forall|s: End, d: End| #[trigger] from(s) && #[trigger] to_set(d) implies through.pair(e as int, s, d) by {
            assert(fallback@.contains(d->Node_0));
            assert(unprojected(through, e as int, listing, d->Node_0));
            assert(listing.contains(d->Node_0));
        }
    }
    let fits = join_ends(graph, arena, &resolved[edge.source], &destinations, joint, Ghost(through), Ghost(inner), Ghost(from), Ghost(to_set));
    proof {
        arena::growth_is_transitive(start@, paths, arena@);
        if fits {
            assert forall|s: End, k: int|
                0 <= k < listing.len() && through.projection(e as int, #[trigger] listing[k]) is Unknown && #[trigger] through.pair(
                    e as int,
                    s,
                    End::Node(listing[k], BoundaryFlow::ChildToParent),
                ) && through.on_node(s) && through.on_node(End::Node(listing[k], BoundaryFlow::ChildToParent)) implies ends_fit(
                start@,
                s,
                End::Node(listing[k], BoundaryFlow::ChildToParent),
                joint,
            ) by {
                let d = End::Node(listing[k], BoundaryFlow::ChildToParent);
                assert(unprojected(through, e as int, listing, listing[k]));
                assert(fallback@.contains(listing[k]));
                assert(from(s) && to_set(d));
                lemma_ends_fit_kept(start@, paths, s, d, joint);
            }
            lemma_edge_fits(through, start@, e as int, joint, listing);
        } else {
            let (s, d) = choose|s: End, d: End| #[trigger] from(s) && #[trigger] to_set(d) && through.on_node(s) && through.on_node(d) && !ends_fit(paths, s, d, joint);
            assert(through.pair(e as int, s, d));
            lemma_ends_fit_kept(start@, paths, s, d, joint);
        }
    }
    if !fits {
        return false;
    }
    proof {
        lemma_prefix_transitive(known.edges@, second.edges@, graph.edges@);
        lemma_prefix_transitive(before.edges@, known.edges@, graph.edges@);
        lemma_drawn(known, *graph);
        assert(joints_hold(paths, joints));
        assert forall|k: int| first <= k && known.edges@.len() <= k < graph.edges@.len() implies explained(through, *graph, arena@, inner, joints, #[trigger] graph.edges@[k]) by {
            if k < second.edges@.len() {
                assert(graph.edges@.take(second.edges@.len() as int)[k] == graph.edges@[k]);
                assert(boundary_explained(through, second.nodes@, second.edges@[k]));
            } else {
                lemma_sets_explained(through, *graph, arena@, inner, from, to_set, joints, e as int, graph.edges@[k]);
            }
        }
        lemma_all_explained_kept(through, known, *graph, paths, arena@, inner, joints, joints, known.edges@, graph.edges@, first);
        lemma_complete_for_kept(through, known, *graph, paths, arena@, inner, joint, e as int, listing, i as int, known.edges@, graph.edges@);
        assert forall|s: End, d: End| #[trigger] through.pair(e as int, s, d) && through.on_node(s) && through.on_node(d) implies end_joined(*graph, arena@, inner, s, d, joint, graph.edges@) by {
            assert(d is Node);
            assert(listing.contains(d->Node_0));
            let k = choose|k: int| 0 <= k < listing.len() && listing[k] == d->Node_0;
            assert(d == End::Node(listing[k], BoundaryFlow::ChildToParent));
            if through.projection(e as int, listing[k]) is Unknown {
                assert(unprojected(through, e as int, listing, listing[k]));
                assert(fallback@.contains(listing[k]));
                assert(from(s) && to_set(d));
            }
        }
    }
    true
}

/// The node is on the list, and what it depends on is not known by region.
pub open spec fn unprojected(through: Through, e: int, list: Seq<MappedNode>, m: MappedNode) -> bool {
    list.contains(m) && through.projection(e, m) is Unknown
}

proof fn lemma_unprojected(through: Through, e: int, list: Seq<MappedNode>, i: int, before: Seq<MappedNode>, after: Seq<MappedNode>)
    requires
        0 <= i < list.len(),
        forall|m: MappedNode| #[trigger] before.contains(m) <==> unprojected(through, e, list.take(i), m),
        if through.projection(e, list[i]) is Unknown {
            after == before.push(list[i])
        } else {
            after == before
        },
    ensures
        forall|m: MappedNode| #[trigger] after.contains(m) <==> unprojected(through, e, list.take(i + 1), m),
{
    assert(list.take(i + 1) =~= list.take(i).push(list[i]));
    assert forall|m: MappedNode| #[trigger] after.contains(m) <==> unprojected(through, e, list.take(i + 1), m) by {
        crate::partition::lemma_contains_push(list.take(i), list[i], m);
        crate::partition::lemma_contains_push(before, list[i], m);
        let here = before.contains(m);
    }
}

pub(crate) proof fn lemma_instance_kept(instance: Instance, p: Seq<PathNode>, q: Seq<PathNode>)
    requires
        instance.wf(p),
        arena::grows(p, q),
    ensures
        instance.wf(q),
{
    assert forall|id: u64| #[trigger] instance.connections@.dom().contains(id) implies sources_hold(q, list_view(instance.connections@[id].reads)) && sources_hold(
        q,
        list_view(instance.connections@[id].writes),
    ) by {
        assert(sources_hold(p, list_view(instance.connections@[id].reads)));
        assert(sources_hold(p, list_view(instance.connections@[id].writes)));
    }
}

proof fn lemma_wf_kept(through: Through, p: Seq<PathNode>, q: Seq<PathNode>)
    requires
        through.wf(p),
        arena::grows(p, q),
    ensures
        through.wf(q),
{
    lemma_instance_kept(through.instance, p, q);
}

/// A value leaves the child at a node in which a dependency ends that starts at an input.
proof fn lemma_leaves(through: Through, e: int, m: MappedNode)
    requires
        through.summary.wf(),
        0 <= e < through.summary.edges@.len(),
        through.maps(through.summary.edges@[e].destination as int, m),
    ensures
        through.crossing(m, BoundaryFlow::ChildToParent),
{
    let i = through.summary.edges@[e].destination as int;
    assert(through.summary.edges@[e].destination < through.summary.nodes@.len());
}

/// A dependency between two nodes of the parent.
#[derive(Clone, Copy, Debug, PartialEq, Eq)]
pub struct RegionDependency {
    pub source: NodeKey,
    pub destination: NodeKey,
    pub kind: PositionRelation,
    pub condition: PathCondition,
}

pub open spec fn dependency_edge(nodes: Seq<GraphNode>, dependency: RegionDependency, edge: GraphEdge) -> bool {
    &&& graph::stands_for(nodes, edge.source as int, dependency.source)
    &&& graph::stands_for(nodes, edge.destination as int, dependency.destination)
    &&& edge.kind == dependency.kind
    &&& edge.condition == dependency.condition
    &&& !edge.carrier
}

pub open spec fn has_dependency(nodes: Seq<GraphNode>, dependencies: Seq<RegionDependency>, edge: GraphEdge) -> bool {
    exists|i: int| 0 <= i < dependencies.len() && dependency_edge(nodes, #[trigger] dependencies[i], edge)
}

pub open spec fn has_edge(nodes: Seq<GraphNode>, dependency: RegionDependency, edges: Seq<GraphEdge>, from: int, to: int) -> bool {
    exists|k: int| from <= k < to && dependency_edge(nodes, dependency, #[trigger] edges[k])
}

/// The edges from `from` up to `to` are the dependencies between nodes that have a region.
pub open spec fn dependencies_added(
    partition: BitPartition,
    nodes: Seq<GraphNode>,
    dependencies: Seq<RegionDependency>,
    edges: Seq<GraphEdge>,
    from: int,
    to: int,
) -> bool {
    &&& from <= to <= edges.len()
    &&& forall|k: int| from <= k < to ==> has_dependency(nodes, dependencies, #[trigger] edges[k])
    &&& forall|i: int|
        0 <= i < dependencies.len() && partition.is_node((#[trigger] dependencies[i]).source) && partition.is_node(dependencies[i].destination) ==> has_edge(
            nodes,
            dependencies[i],
            edges,
            from,
            to,
        )
}

proof fn lemma_dependencies_kept(
    partition: BitPartition,
    a: Seq<GraphNode>,
    b: Seq<GraphNode>,
    dependencies: Seq<RegionDependency>,
    edges: Seq<GraphEdge>,
    longer: Seq<GraphEdge>,
    from: int,
    to: int,
)
    requires
        0 <= from,
        graph::nodes_kept(a, b),
        dependencies_added(partition, a, dependencies, edges, from, to),
        edges.len() <= longer.len(),
        longer.take(edges.len() as int) == edges,
    ensures
        dependencies_added(partition, b, dependencies, longer, from, to),
{
    assert forall|k: int| from <= k < to implies has_dependency(b, dependencies, #[trigger] longer[k]) by {
        assert(longer.take(edges.len() as int)[k] == longer[k]);
        assert(has_dependency(a, dependencies, edges[k]));
        let i = choose|i: int| 0 <= i < dependencies.len() && dependency_edge(a, #[trigger] dependencies[i], edges[k]);
        lemma_dependency_edge_kept(a, b, dependencies[i], edges[k]);
    }
    assert forall|i: int| 0 <= i < dependencies.len() && partition.is_node((#[trigger] dependencies[i]).source) && partition.is_node(dependencies[i].destination) implies has_edge(
        b,
        dependencies[i],
        longer,
        from,
        to,
    ) by {
        assert(has_edge(a, dependencies[i], edges, from, to));
        let k = choose|k: int| from <= k < to && dependency_edge(a, dependencies[i], #[trigger] edges[k]);
        assert(longer.take(edges.len() as int)[k] == longer[k]);
        lemma_dependency_edge_kept(a, b, dependencies[i], edges[k]);
        assert(dependency_edge(b, dependencies[i], longer[k]));
    }
}

proof fn lemma_dependency_edge_kept(a: Seq<GraphNode>, b: Seq<GraphNode>, dependency: RegionDependency, edge: GraphEdge)
    requires
        graph::nodes_kept(a, b),
        dependency_edge(a, dependency, edge),
    ensures
        dependency_edge(b, dependency, edge),
{
    assert(a[edge.source as int] == b[edge.source as int]);
    assert(a[edge.destination as int] == b[edge.destination as int]);
}

/// Adds dependencies between nodes of the parent.
pub fn add_region_dependencies(graph: &mut DependencyGraph, partition: &BitPartition, dependencies: &Vec<RegionDependency>)
    requires
        old(graph).wf(),
        old(graph).placed_in(*partition),
        partition.wf(),
    ensures
        final(graph).wf(),
        final(graph).placed_in(*partition),
        graph::nodes_kept(old(graph).nodes@, final(graph).nodes@),
        final(graph).edges@.len() >= old(graph).edges@.len(),
        final(graph).edges@.take(old(graph).edges@.len() as int) == old(graph).edges@,
        dependencies_added(*partition, final(graph).nodes@, dependencies@, final(graph).edges@, old(graph).edges@.len() as int, final(graph).edges@.len() as int),
{
    let ghost before = *graph;
    let ghost from = graph.edges@.len() as int;
    proof {
        assert(graph.edges@.take(from) =~= before.edges@);
        assert(dependencies@.take(0) =~= Seq::empty());
    }
    let mut i: usize = 0;
    while i < dependencies.len()
        invariant
            i <= dependencies@.len(),
            partition.wf(),
            graph.wf(),
            graph.placed_in(*partition),
            graph::nodes_kept(before.nodes@, graph.nodes@),
            from == before.edges@.len(),
            graph.edges@.len() >= from,
            graph.edges@.take(from) == before.edges@,
            dependencies_added(*partition, graph.nodes@, dependencies@.take(i as int), graph.edges@, from, graph.edges@.len() as int),
        decreases dependencies@.len() - i,
    {
        let dependency = dependencies[i];
        let ghost known = *graph;
        let ghost taken = dependencies@.take(i as int);
        let ghost longer = dependencies@.take(i + 1);
        graph.add_region_dependency(partition, dependency.source, dependency.destination, dependency.kind, dependency.condition);
        proof {
            let nodes = graph.nodes@;
            graph::nodes_kept_is_transitive(before.nodes@, known.nodes@, nodes);
            let both = partition.is_node(dependency.source) && partition.is_node(dependency.destination);
            if both {
                let (a, b) = choose|a: int, b: int|
                    #[trigger] graph::stands_for(nodes, a, dependency.source) && #[trigger] graph::stands_for(nodes, b, dependency.destination)
                        && graph.edges@ == known.edges@.push(graph::plain_edge(a, b, dependency.kind, dependency.condition));
                assert(nodes.len() == graph.nodes.len());
                assert(graph.edges@.last() == graph::plain_edge(a, b, dependency.kind, dependency.condition));
                assert(dependency_edge(nodes, dependency, graph.edges@.last()));
                assert(graph.edges@.take(known.edges@.len() as int) =~= known.edges@);
            } else {
                assert(graph.edges@.take(known.edges@.len() as int) =~= known.edges@);
            }
            lemma_prefix_transitive(before.edges@, known.edges@, graph.edges@);
            lemma_dependencies_kept(*partition, known.nodes@, nodes, taken, known.edges@, graph.edges@, from, known.edges@.len() as int);
            assert(longer[i as int] == dependency);
            assert forall|k: int| from <= k < graph.edges@.len() implies has_dependency(nodes, longer, #[trigger] graph.edges@[k]) by {
                if k < known.edges@.len() {
                    assert(has_dependency(nodes, taken, graph.edges@[k]));
                    let j = choose|j: int| 0 <= j < taken.len() && dependency_edge(nodes, #[trigger] taken[j], graph.edges@[k]);
                    assert(longer[j] == taken[j]);
                } else {
                    assert(dependency_edge(nodes, longer[i as int], graph.edges@[k]));
                }
            }
            assert forall|j: int| 0 <= j < longer.len() && partition.is_node((#[trigger] longer[j]).source) && partition.is_node(longer[j].destination) implies has_edge(
                nodes,
                longer[j],
                graph.edges@,
                from,
                graph.edges@.len() as int,
            ) by {
                if j < i {
                    assert(taken[j] == longer[j]);
                    assert(has_edge(nodes, taken[j], graph.edges@, from, known.edges@.len() as int));
                    let k = choose|k: int| from <= k < known.edges@.len() && dependency_edge(nodes, taken[j], #[trigger] graph.edges@[k]);
                    assert(dependency_edge(nodes, longer[j], graph.edges@[k]));
                } else {
                    assert(dependency_edge(nodes, longer[j], graph.edges@[graph.edges@.len() - 1]));
                }
            }
        }
        i = i + 1;
    }
    assert(dependencies@.take(i as int) =~= dependencies@);
}

/// Which nodes of the summary a dependency keeps a position of.
pub fn positioned_inputs(summary: &ModuleSummary) -> (r: Vec<bool>)
    requires
        summary.wf(),
    ensures
        r@.len() == summary.nodes@.len(),
        forall|i: int| 0 <= i < r@.len() ==> #[trigger] r@[i] == summary.positioned(i),
{
    let mut r: Vec<bool> = Vec::new();
    let mut i: usize = 0;
    while i < summary.nodes.len()
        invariant
            i <= summary.nodes@.len(),
            r@.len() == i,
            forall|k: int| 0 <= k < i ==> #[trigger] r@[k] == false,
        decreases summary.nodes@.len() - i,
    {
        r.push(false);
        i = i + 1;
    }
    let mut e: usize = 0;
    while e < summary.edges.len()
        invariant
            e <= summary.edges@.len(),
            summary.wf(),
            r@.len() == summary.nodes@.len(),
            forall|i: int| 0 <= i < r@.len() ==> #[trigger] r@[i] == positioned_before(*summary, i, e as int),
        decreases summary.edges@.len() - e,
    {
        let edge = summary.edges[e];
        assert(summary.edges@[e as int].source < summary.nodes@.len());
        let ghost before = r@;
        if edge.kind.array.is_some() || edge.kind.packed.is_some() {
            r.set(edge.source, true);
        }
        proof {
            assert forall|i: int| 0 <= i < r@.len() implies #[trigger] r@[i] == positioned_before(*summary, i, e + 1) by {
                let here = positioned_before(*summary, i, e as int);
                assert(before[i] == here);
                if here {
                    let k = choose|k: int| 0 <= k < e && (#[trigger] summary.edges@[k]).source == i && has_position(summary.edges@[k].kind);
                    assert(summary.edges@[k].source == i);
                }
                if i == edge.source && has_position(edge.kind) {
                    assert(summary.edges@[e as int].source == i);
                }
                if positioned_before(*summary, i, e + 1) && !here {
                    let k = choose|k: int| 0 <= k < e + 1 && (#[trigger] summary.edges@[k]).source == i && has_position(summary.edges@[k].kind);
                    assert(k == e);
                }
            }
        }
        e = e + 1;
    }
    proof {
        assert forall|i: int| 0 <= i < r@.len() implies #[trigger] r@[i] == summary.positioned(i) by {
            assert(r@[i] == positioned_before(*summary, i, e as int));
        }
    }
    r
}

pub open spec fn positioned_before(summary: ModuleSummary, i: int, count: int) -> bool {
    exists|e: int| 0 <= e < count && (#[trigger] summary.edges@[e]).source == i && has_position(summary.edges@[e].kind)
}

/// The nodes to which a port corresponds.
fn map_port(
    instance: &Instance,
    summary: &ModuleSummary,
    partition: &BitPartition,
    i: usize,
    preserve: bool,
    Ghost(through): Ghost<Through>,
    Ghost(paths): Ghost<Seq<PathNode>>,
) -> (r: Vec<MappedNode>)
    requires
        through == (Through { instance: *instance, summary: *summary, partition: *partition }),
        through.wf(paths),
        i < summary.nodes@.len(),
        preserve == summary.positioned(i as int),
    ensures
        forall|m: MappedNode| #[trigger] r@.contains(m) <==> through.maps(i as int, m),
        forall|k: int| 0 <= k < r@.len() ==> instance::mapped_wf(#[trigger] r@[k]) && r@[k].condition.node < paths.len(),
{
    broadcast use vstd::std_specs::hash::group_hash_axioms;

    let node = &summary.nodes[i];
    let region = node.region;
    assert(summary.nodes@[i as int].region.packed.wf());
    let r: Vec<MappedNode> = match node.kind {
        SummaryNodeKind::Internal => Vec::new(),
        SummaryNodeKind::Input => map_source(instance, summary, partition, i, region, preserve, Ghost(through), Ghost(paths)),
        SummaryNodeKind::Output => match instance.connections.get(&region.id) {
            Some(connection) => {
                let writes: Option<&Vec<RegionSource>> = match &connection.writes {
                    Some(list) => Some(list),
                    None => None,
                };
                assert(instance::sources_view(writes) == list_view(connection.writes));
                instance_region_mapping(&connection.endpoint, region, PortDirection::Output, writes, partition)
            },
            None => Vec::new(),
        },
        SummaryNodeKind::Interface => match instance.connections.get(&region.id) {
            Some(connection) => instance_region_mapping(&connection.endpoint, region, PortDirection::Input, None, partition),
            None => Vec::new(),
        },
    };
    proof {
        assert forall|k: int| 0 <= k < r@.len() implies (#[trigger] r@[k]).condition.node < paths.len() by {
            assert(r@.contains(r@[k]));
            through.lemma_end_condition(paths, i as int, End::Node(r@[k], flow_of(summary.nodes@[i as int].kind)));
        }
    }
    r
}

/// The dependency of the child, under its renamed condition.
pub open spec fn is_joint_of(
    paths: Seq<PathNode>,
    mapping: Seq<(BranchId, BranchId)>,
    start: Seq<PathNode>,
    edge: SummaryEdge,
    joint: Joint,
) -> bool {
    &&& joint.kind == edge.kind
    &&& joint.carrier == edge.carrier
    &&& joint.condition.node < paths.len()
    &&& arena::path_of(paths, joint.condition.node as int) == remap::renamed_path(
        mapping,
        arena::path_of(start, edge.condition.node as int),
    )
}

/// The offsets of a dependency of the child fit, wherever it starts and ends.
#[verifier::opaque]
pub open spec fn dependency_fits(through: Through, paths: Seq<PathNode>, mapping: Seq<(BranchId, BranchId)>, e: int) -> bool {
    forall|s: End, d: End| #[trigger]
        through.pair(e, s, d) && through.on_node(s) && through.on_node(d) && !feedthrough::excluded(
            remap::renamed_path(mapping, arena::path_of(paths, through.summary.edges@[e].condition.node as int)),
            arena::path_of(paths, end_condition(s).node as int),
            arena::path_of(paths, end_condition(d).node as int),
        ) ==> feedthrough::kind_joins(through.summary.edges@[e].kind, end_offset(s), end_offset(d))
}

/// The offsets of all dependencies of the child fit.
pub open spec fn summary_fits(through: Through, paths: Seq<PathNode>, mapping: Seq<(BranchId, BranchId)>) -> bool {
    forall|e: int| 0 <= e < through.summary.edges@.len() ==> #[trigger] dependency_fits(through, paths, mapping, e)
}

/// The nodes of the summary that are no ports have nodes of their own, each another one.
pub open spec fn inner_nodes(summary: ModuleSummary, nodes: Seq<GraphNode>, inner: Inside, count: int) -> bool {
    &&& inner.nodes.len() == summary.nodes@.len()
    &&& forall|i: int| 0 <= i < count ==> #[trigger] is_inner(summary.nodes@[i], nodes, inner.nodes[i], inner.first)
    &&& forall|i: int, j: int| 0 <= i < j < count && (#[trigger] inner.nodes[i]) is Some ==> inner.nodes[i] != #[trigger] inner.nodes[j]
}

pub open spec fn is_inner(node: SummaryNode, nodes: Seq<GraphNode>, inner: Option<usize>, first: int) -> bool {
    if node.kind == SummaryNodeKind::Internal {
        inner is Some && inner->0 >= first && graph::is_internal(nodes, inner->0 as int, node.region, node.domains@, node.regular_transfer)
    } else {
        inner is None
    }
}

/// Some node stands for the end.
pub open spec fn stood_for(g: DependencyGraph, inner: Inside, end: End) -> bool {
    exists|r: ResolvedNode| #[trigger] resolves_end(g, inner, end, r)
}

/// What an instance adds from edge `from` on: edges that cross its boundary and those of the
/// dependencies of the child, nothing else, and every such dependency.
pub open spec fn feeds_through(
    through: Through,
    mapping: Seq<(BranchId, BranchId)>,
    start: Seq<PathNode>,
    known: int,
    g: DependencyGraph,
    paths: Seq<PathNode>,
    from: int,
    inner: Inside,
    joints: Seq<Joint>,
) -> bool {
    &&& inner_nodes(through.summary, g.nodes@, inner, through.summary.nodes@.len() as int)
    &&& inner.first == known
    &&& joints.len() == through.summary.edges@.len()
    &&& forall|e: int| 0 <= e < joints.len() ==> is_joint_of(paths, mapping, start, through.summary.edges@[e], #[trigger] joints[e])
    &&& all_explained(through, g, paths, inner, joints, g.edges@, from)
    &&& forall|i: int, end: End| 0 <= i < through.summary.nodes@.len() && #[trigger] through.ends(i, end) && through.on_node(end) ==> stood_for(g, inner, end)
    &&& forall|e: int| 0 <= e < joints.len() ==> complete(through, g, paths, inner, #[trigger] joints[e], e, g.edges@)
}

/// Only nodes that the graph does not have yet are added to those of the instance.
pub open spec fn inside_grows(g: DependencyGraph, a: Inside, b: Inside) -> bool {
    &&& b.first == a.first
    &&& b.nodes.len() == a.nodes.len()
    &&& forall|k: int| 0 <= k < a.nodes.len() ==> (#[trigger] b.nodes[k]) == a.nodes[k] || (b.nodes[k] is Some && b.nodes[k]->0 >= g.nodes@.len())
}

proof fn lemma_boundary_inner(g: DependencyGraph, a: Inside, b: Inside, m: MappedNode, flow: BoundaryFlow, r: ResolvedNode)
    requires
        inside_grows(g, a, b),
        r.node < g.nodes@.len(),
        is_boundary(g, a, m, flow, r),
    ensures
        is_boundary(g, b, m, flow, r),
{
    if b.nodes.contains(Some(r.node)) {
        let k = choose|k: int| 0 <= k < b.nodes.len() && b.nodes[k] == Some(r.node);
        assert(a.nodes[k] == Some(r.node));
    }
}

proof fn lemma_ready_inner(
    through: Through,
    g: DependencyGraph,
    paths: Seq<PathNode>,
    a: Inside,
    b: Inside,
    i: int,
    mapped: Seq<MappedNode>,
    resolved: Seq<Option<ResolvedNode>>,
)
    requires
        inside_grows(g, a, b),
        0 <= i < a.nodes.len(),
        a.nodes[i] == b.nodes[i],
        ready_at(through, g, paths, a, i, mapped, resolved),
    ensures
        ready_at(through, g, paths, b, i, mapped, resolved),
{
    let set = base(through, i);
    assert forall|k: int| 0 <= k < resolved.len() && (#[trigger] resolved[k]) is Some implies stands_in(through, g, b, set, resolved[k]->0) by {
        lemma_stands_in_inner(through, g, a, b, i, resolved[k]->0);
    }
    assert forall|end: End| #[trigger] set(end) && through.on_node(end) implies has_stand_in(g, b, end, resolved) by {
        lemma_stand_in_inner(through, g, a, b, i, end, resolved);
    }
}

proof fn lemma_stands_in_inner(through: Through, g: DependencyGraph, a: Inside, b: Inside, i: int, r: ResolvedNode)
    requires
        inside_grows(g, a, b),
        0 <= i < a.nodes.len(),
        a.nodes[i] == b.nodes[i],
        stands_in(through, g, a, base(through, i), r),
    ensures
        stands_in(through, g, b, base(through, i), r),
{
    reveal(stands_in);
    let set = base(through, i);
    let end = choose|end: End| #[trigger] set(end) && through.on_node(end) && resolves_end(g, a, end, r);
    if let End::Node(m, flow) = end {
        if feedthrough::crosses(m) {
            lemma_boundary_inner(g, a, b, m, flow, r);
        }
    }
    assert(set(end) && through.on_node(end) && resolves_end(g, b, end, r));
}

proof fn lemma_stand_in_inner(through: Through, g: DependencyGraph, a: Inside, b: Inside, i: int, end: End, resolved: Seq<Option<ResolvedNode>>)
    requires
        inside_grows(g, a, b),
        0 <= i < a.nodes.len(),
        a.nodes[i] == b.nodes[i],
        through.ends(i, end),
        has_stand_in(g, a, end, resolved),
    ensures
        has_stand_in(g, b, end, resolved),
{
    reveal(has_stand_in);
    let k = choose|k: int| 0 <= k < resolved.len() && (#[trigger] resolved[k]) is Some && resolves_end(g, a, end, resolved[k]->0);
    if let End::Node(m, flow) = end {
        if feedthrough::crosses(m) {
            lemma_boundary_inner(g, a, b, m, flow, resolved[k]->0);
        }
    }
    assert(resolved[k] is Some && resolves_end(g, b, end, resolved[k]->0));
}

pub open spec fn with_inner(inner: Inside, i: int, node: usize) -> Inside {
    Inside { nodes: inner.nodes.update(i, Some(node)), first: inner.first }
}

/// The node of its own that a node of the summary has.
fn add_inner(
    graph: &mut DependencyGraph,
    summary: &ModuleSummary,
    i: usize,
    Ghost(through): Ghost<Through>,
    Ghost(paths): Ghost<Seq<PathNode>>,
    Ghost(inner): Ghost<Inside>,
) -> (r: Vec<Option<ResolvedNode>>)
    requires
        old(graph).wf(),
        through.summary == *summary,
        i < summary.nodes@.len(),
        summary.nodes@[i as int].kind == SummaryNodeKind::Internal,
        paths.len() > 0,
        inner.nodes.len() == summary.nodes@.len(),
    ensures
        final(graph).wf(),
        forall|partition: BitPartition| old(graph).placed_in(partition) ==> #[trigger] final(graph).placed_in(partition),
        graph::nodes_kept(old(graph).nodes@, final(graph).nodes@),
        final(graph).edges@ == old(graph).edges@,
        r@.len() == 1,
        r@[0] is Some,
        r@[0]->0.node == old(graph).nodes@.len(),
        graph::is_internal(final(graph).nodes@, r@[0]->0.node as int, summary.nodes@[i as int].region, summary.nodes@[i as int].domains@, summary.nodes@[i as int].regular_transfer),
        ready_at(through, *final(graph), paths, with_inner(inner, i as int, r@[0]->0.node), i as int, Seq::empty(), r@),
{
    let node: usize = graph.add_internal(
        summary.nodes[i].region,
        graph::copy_domains(&summary.nodes[i].domains),
        summary.nodes[i].regular_transfer,
    );
    let resolved = ResolvedNode {
        parent: node,
        node,
        offset: PositionRelation::default(),
        condition: PathCondition { node: 0 },
    };
    let mut r: Vec<Option<ResolvedNode>> = Vec::new();
    r.push(Some(resolved));
    proof {
        let more = with_inner(inner, i as int, node);
        let set = base(through, i as int);
        let end = End::Inner(i as int);
        assert(set(end) && through.on_node(end) && resolves_end(*graph, more, end, resolved));
        assert(r@[0] == Some(resolved));
        assert forall|k: int| 0 <= k < r@.len() && (#[trigger] r@[k]) is Some implies stands_in(through, *graph, more, set, r@[k]->0) by {
            reveal(stands_in);
        }
        assert forall|other: End| #[trigger] set(other) && through.on_node(other) implies has_stand_in(*graph, more, other, r@) by {
            reveal(has_stand_in);
            assert(other == end);
            assert(r@[0] is Some && resolves_end(*graph, more, other, r@[0]->0));
        }
        assert forall|m: MappedNode| #[trigger] Seq::<MappedNode>::empty().contains(m) <==> through.maps(i as int, m) by {}
    }
    r
}

/// Adds to the graph of a parent what an instance of a module adds: dependencies between nodes that
/// its actuals make, and the dependencies of the module, with conditions renamed for the instance,
/// between the nodes to which its ports correspond. The answer is whether all offsets fit; where one does not, the
/// graph is not whole.
pub fn add_instance_feedthrough(
    graph: &mut DependencyGraph,
    arena: &mut PathArena,
    remapper: &mut BranchRemapper,
    instance: &Instance,
    summary: &ModuleSummary,
    partition: &BitPartition,
    dependencies: &Vec<RegionDependency>,
) -> (r: bool)
    requires
        old(graph).wf(),
        old(graph).placed_in(*partition),
        old(arena).wf(),
        old(remapper).wf(*old(arena)),
        (Through { instance: *instance, summary: *summary, partition: *partition }).wf(old(arena)@),
        forall|e: int|
            0 <= e < summary.edges@.len() ==> old(arena).holds((#[trigger] summary.edges@[e]).condition) && remap::keeps_order(
                old(remapper).mapping@,
                old(arena).path(summary.edges@[e].condition),
            ),
    ensures
        r == ((Through { instance: *instance, summary: *summary, partition: *partition }).can_enter() && summary_fits(
            (Through { instance: *instance, summary: *summary, partition: *partition }),
            old(arena)@,
            old(remapper).mapping@,
        )),
        final(graph).wf(),
        final(graph).placed_in(*partition),
        graph::nodes_kept(old(graph).nodes@, final(graph).nodes@),
        final(arena).wf(),
        arena::grows(old(arena)@, final(arena)@),
        final(remapper).wf(*final(arena)),
        final(remapper).mapping == old(remapper).mapping,
        r ==> final(graph).edges@.len() >= old(graph).edges@.len(),
        r ==> final(graph).edges@.take(old(graph).edges@.len() as int) == old(graph).edges@,
        r ==> exists|from: int, inner: Inside, joints: Seq<Joint>|
            #![trigger feeds_through((Through { instance: *instance, summary: *summary, partition: *partition }), old(remapper).mapping@, old(arena)@, old(graph).nodes@.len() as int, *final(graph), final(arena)@, from, inner, joints)]
            dependencies_added(*partition, final(graph).nodes@, dependencies@, final(graph).edges@, old(graph).edges@.len() as int, from)
                && feeds_through((Through { instance: *instance, summary: *summary, partition: *partition }), old(remapper).mapping@, old(arena)@, old(graph).nodes@.len() as int, *final(graph), final(arena)@, from, inner, joints),
{
    let ghost through = Through { instance: *instance, summary: *summary, partition: *partition };
    let ghost before = *graph;
    let ghost start = arena@;
    let ghost start_arena = *arena;
    let ghost mapping = remapper.mapping@;
    add_region_dependencies(graph, partition, dependencies);
    let ghost from = graph.edges@.len() as int;
    let ghost base_graph = *graph;
    let positions = positioned_inputs(summary);
    let mut mapped: Vec<Vec<MappedNode>> = Vec::new();
    let mut resolved: Vec<Vec<Option<ResolvedNode>>> = Vec::new();
    let ghost mut inner = Inside { nodes: Seq::new(summary.nodes@.len(), |i: int| None::<usize>), first: before.nodes@.len() as int };
    let mut i: usize = 0;
    proof {
        assert(graph.edges@.take(from) =~= base_graph.edges@);
    }
    while i < summary.nodes.len()
        invariant
            i <= summary.nodes@.len(),
            before == *old(graph),
            *arena == *old(arena),
            *remapper == *old(remapper),
            arena.wf(),
            remapper.wf(*arena),
            arena@ == start,
            through == (Through { instance: *instance, summary: *summary, partition: *partition }),
            through.wf(start),
            forall|k: int| 0 <= k < i ==> #[trigger] through.input_enters(k),
            graph.wf(),
            graph.placed_in(*partition),
            graph::nodes_kept(before.nodes@, base_graph.nodes@),
            graph::nodes_kept(base_graph.nodes@, graph.nodes@),
            positions@.len() == summary.nodes@.len(),
            forall|i: int| 0 <= i < positions@.len() ==> #[trigger] positions@[i] == summary.positioned(i),
            mapped@.len() == i,
            inner.first == before.nodes@.len(),
            inner_nodes(*summary, graph.nodes@, inner, i as int),
            inside_graph(*graph, inner),
            forall|k: int| i <= k < inner.nodes.len() ==> (#[trigger] inner.nodes[k]) is None,
            ready(through, *graph, start, inner, mapped@, resolved@),
            from == base_graph.edges@.len(),
            graph.edges@.len() >= from,
            graph.edges@.take(from) == base_graph.edges@,
            forall|k: int| from <= k < graph.edges@.len() ==> boundary_explained(through, graph.nodes@, #[trigger] graph.edges@[k]),
        decreases summary.nodes@.len() - i,
    {
        let ghost known = *graph;
        let ghost inner0 = inner;
        let ghost mapped0 = mapped@;
        let ghost resolved0 = resolved@;
        assert(positions@[i as int] == summary.positioned(i as int));
        let nodes = map_port(instance, summary, partition, i, positions[i], Ghost(through), Ghost(start));
        let found: Vec<Option<ResolvedNode>>;
        if summary.nodes[i].kind == SummaryNodeKind::Internal {
            found = add_inner(graph, summary, i, Ghost(through), Ghost(start), Ghost(inner));
            proof {
                inner = with_inner(inner, i as int, found@[0]->0.node);
                assert(nodes@ =~= Seq::empty()) by {
                    if nodes@.len() > 0 {
                        assert(nodes@.contains(nodes@[0]));
                    }
                }
                assert(graph.edges@ == known.edges@);
            }
        } else {
            let flow = if summary.nodes[i].kind == SummaryNodeKind::Input {
                BoundaryFlow::ParentToChild
            } else {
                BoundaryFlow::ChildToParent
            };
            proof {
                assert forall|k: int| 0 <= k < nodes@.len() implies through.crossing(#[trigger] nodes@[k], flow) && nodes@[k].condition.node < start.len() by {
                    assert(nodes@.contains(nodes@[k]));
                    lemma_port_crossing(through, i as int, nodes@[k], flow);
                }
            }
            found = match resolve_listed(graph, partition, &nodes, flow, Ghost(through), Ghost(inner), Ghost(start)) {
                Some(found) => found,
                None => {
                    proof {
                        let m = choose|m: MappedNode| #[trigger] nodes@.contains(m) && !through.can_enter_at(m);
                        assert(through.maps(i as int, m));
                        assert(!through.input_enters(i as int));
                        graph::nodes_kept_is_transitive(base_graph.nodes@, known.nodes@, graph.nodes@);
                        graph::nodes_kept_is_transitive(before.nodes@, base_graph.nodes@, graph.nodes@);
                    }
                    return false;
                },
            };
            proof {
                lemma_listed_is_base(through, *graph, inner, i as int, nodes@, found@);
            }
        }
        proof {
            assert(through.input_enters(i as int)) by {
                if summary.nodes@[i as int].kind == SummaryNodeKind::Input {
                    assert forall|m: MappedNode| #[trigger] through.maps(i as int, m) implies through.can_enter_at(m) by {
                        assert(nodes@.contains(m));
                    }
                }
            }
        }
        mapped.push(nodes);
        resolved.push(found);
        proof {
            graph::nodes_kept_is_transitive(base_graph.nodes@, known.nodes@, graph.nodes@);
            if graph.edges@.len() == known.edges@.len() {
                assert(graph.edges@.take(known.edges@.len() as int) =~= graph.edges@);
            }
            lemma_prefix_transitive(base_graph.edges@, known.edges@, graph.edges@);
            lemma_drawn(known, *graph);
            arena::growth_is_transitive(start, start, start);
            assert forall|k: int| 0 <= k < mapped@.len() implies #[trigger] ready_at(through, *graph, start, inner, k, mapped@[k]@, resolved@[k]@) by {
                if k < i {
                    assert(ready_at(through, known, start, inner0, k, mapped0[k]@, resolved0[k]@));
                    lemma_ready_inner(through, known, start, inner0, inner, k, mapped0[k]@, resolved0[k]@);
                    lemma_ready_at_kept(through, known, *graph, start, start, inner, k, mapped0[k]@, resolved0[k]@);
                }
            }
            assert forall|k: int| from <= k < graph.edges@.len() implies boundary_explained(through, graph.nodes@, #[trigger] graph.edges@[k]) by {
                if k < known.edges@.len() {
                    assert(graph.edges@.take(known.edges@.len() as int)[k] == graph.edges@[k]);
                    lemma_boundary_kept(through, known.nodes@, graph.nodes@, known.edges@[k]);
                }
            }
            lemma_inner_kept(*summary, known.nodes@, graph.nodes@, inner0, inner, i as int);
        }
        i = i + 1;
    }
    let ghost mut joints: Seq<Joint> = Seq::empty();
    let ghost placed = *graph;
    proof {
        assert forall|k: int| from <= k < graph.edges@.len() implies explained(through, *graph, arena@, inner, joints, #[trigger] graph.edges@[k]) by {
            assert(boundary_explained(through, graph.nodes@, graph.edges@[k]));
        }
    }
    let mut e: usize = 0;
    while e < summary.edges.len()
        invariant
            e <= summary.edges@.len(),
            before == *old(graph),
            start_arena == *old(arena),
            mapping == old(remapper).mapping@,
            through == (Through { instance: *instance, summary: *summary, partition: *partition }),
            through.wf(start),
            forall|k: int| 0 <= k < summary.nodes@.len() ==> #[trigger] through.input_enters(k),
            forall|k: int| 0 <= k < e ==> #[trigger] through.source_enters(k),
            forall|k: int| 0 <= k < e ==> #[trigger] dependency_fits(through, start, mapping, k),
            graph::nodes_kept(before.nodes@, base_graph.nodes@),
            graph::nodes_kept(base_graph.nodes@, placed.nodes@),
            graph.wf(),
            graph.placed_in(*partition),
            graph::nodes_kept(placed.nodes@, graph.nodes@),
            arena.wf(),
            start == start_arena@,
            arena::grows(start, arena@),
            remapper.wf(*arena),
            remapper.mapping@ == mapping,
            remapper.mapping == old(remapper).mapping,
            forall|e: int|
                0 <= e < summary.edges@.len() ==> start_arena.holds((#[trigger] summary.edges@[e]).condition) && remap::keeps_order(
                    mapping,
                    start_arena.path(summary.edges@[e].condition),
                ),
            mapped@.len() == summary.nodes@.len(),
            ready(through, *graph, arena@, inner, mapped@, resolved@),
            inside_graph(*graph, inner),
            joints.len() == e,
            joints_hold(arena@, joints),
            forall|k: int| 0 <= k < joints.len() ==> is_joint_of(arena@, mapping, start, summary.edges@[k], #[trigger] joints[k]),
            from <= placed.edges@.len(),
            graph.edges@.len() >= placed.edges@.len(),
            graph.edges@.take(placed.edges@.len() as int) == placed.edges@,
            all_explained(through, *graph, arena@, inner, joints, graph.edges@, from),
            0 <= from,
            forall|k: int| 0 <= k < joints.len() ==> complete(through, *graph, arena@, inner, #[trigger] joints[k], k, graph.edges@),
        decreases summary.edges@.len() - e,
    {
        let ghost known = *graph;
        let ghost paths0 = arena@;
        let ghost joints0 = joints;
        let edge = summary.edges[e];
        proof {
            assert(start_arena.holds(summary.edges@[e as int].condition));
            arena::growth_keeps_paths(start, paths0, edge.condition.node as int);
            arena::arena_paths_wf(arena@, edge.condition.node as int);
            remap::lemma_keeps_choices(mapping, arena.path(edge.condition));
        }
        let condition = remapper.remap(arena, edge.condition);
        let ghost arena1 = *arena;
        let ghost paths1 = arena@;
        let joint = Joint { kind: edge.kind, condition, carrier: edge.carrier };
        proof {
            arena::growth_is_transitive(start, paths0, paths1);
            joints = joints.push(joint);
            assert(is_joint_of(paths1, mapping, start, edge, joint));
            lemma_wf_kept(through, start, paths1);
            through.lemma_ends_hold(start, e as int);
            lemma_joint_fits(through, start, paths1, mapping, e as int, joint);
            assert forall|k: int| 0 <= k < joints.len() implies (#[trigger] joints[k]).condition.node < paths1.len() by {
                if k < e {
                    assert(joints0[k].condition.node < paths0.len());
                }
            }
            assert(drawn_kept(known, known));
            lemma_ready_kept(through, known, known, paths0, paths1, inner, mapped@, resolved@);
        }
        let fits = add_edge_feedthrough(graph, arena, instance, summary, partition, e, joint, &mapped, &resolved, Ghost(through), Ghost(inner), Ghost(joints));
        proof {
            lemma_remapper_follows(*remapper, arena1, *arena);
            graph::nodes_kept_is_transitive(placed.nodes@, known.nodes@, graph.nodes@);
            arena::growth_is_transitive(start, paths1, arena@);
            if !fits {
                assert(!(dependency_fits(through, start, mapping, e as int) && through.source_enters(e as int)));
                graph::nodes_kept_is_transitive(base_graph.nodes@, placed.nodes@, graph.nodes@);
                graph::nodes_kept_is_transitive(before.nodes@, base_graph.nodes@, graph.nodes@);
            }
        }
        if !fits {
            return false;
        }
        proof {
            arena::growth_is_transitive(paths0, paths1, arena@);
            lemma_prefix_transitive(placed.edges@, known.edges@, graph.edges@);
            lemma_drawn(known, *graph);
            lemma_ready_kept(through, known, *graph, paths1, arena@, inner, mapped@, resolved@);
            assert(joints_hold(arena@, joints));
            lemma_all_explained_kept(through, known, *graph, paths0, arena@, inner, joints0, joints, known.edges@, graph.edges@, from);
            lemma_prefix_contained(known.edges@, graph.edges@);
            assert forall|k: int| 0 <= k < joints.len() implies is_joint_of(arena@, mapping, start, summary.edges@[k], #[trigger] joints[k]) by {
                if k < e {
                    assert(is_joint_of(paths0, mapping, start, summary.edges@[k], joints0[k]));
                    arena::growth_keeps_paths(paths0, arena@, joints0[k].condition.node as int);
                } else {
                    arena::growth_keeps_paths(paths1, arena@, joint.condition.node as int);
                }
            }
            assert forall|k: int| 0 <= k < joints.len() implies complete(through, *graph, arena@, inner, #[trigger] joints[k], k, graph.edges@) by {
                if k < e {
                    assert(complete(through, known, paths0, inner, joints0[k], k, known.edges@));
                    assert(joints0[k].condition.node < paths0.len());
                    lemma_complete_kept(through, known, *graph, paths0, arena@, inner, joints0[k], k, known.edges@, graph.edges@);
                }
            }
        }
        e = e + 1;
    }
    proof {
        graph::nodes_kept_is_transitive(base_graph.nodes@, placed.nodes@, graph.nodes@);
        graph::nodes_kept_is_transitive(before.nodes@, base_graph.nodes@, graph.nodes@);
        lemma_prefix_transitive(base_graph.edges@, placed.edges@, graph.edges@);
        lemma_prefix_transitive(before.edges@, base_graph.edges@, graph.edges@);
        lemma_dependencies_kept(*partition, base_graph.nodes@, graph.nodes@, dependencies@, base_graph.edges@, graph.edges@, before.edges@.len() as int, from);
        lemma_inner_stays(*summary, placed.nodes@, graph.nodes@, inner, summary.nodes@.len() as int);
        assert forall|i: int, end: End| 0 <= i < summary.nodes@.len() && #[trigger] through.ends(i, end) && through.on_node(end) implies stood_for(*graph, inner, end) by {
            reveal(has_stand_in);
            assert(ready_at(through, *graph, arena@, inner, i, mapped@[i]@, resolved@[i]@));
            let set = base(through, i);
            assert(set(end));
            assert(has_stand_in(*graph, inner, end, resolved@[i]@));
        }
        assert(feeds_through(through, mapping, start, before.nodes@.len() as int, *graph, arena@, from, inner, joints));
    }
    true
}

proof fn lemma_inner_stays(summary: ModuleSummary, a: Seq<GraphNode>, b: Seq<GraphNode>, inner: Inside, count: int)
    requires
        graph::nodes_kept(a, b),
        inner_nodes(summary, a, inner, count),
        count <= summary.nodes@.len(),
    ensures
        inner_nodes(summary, b, inner, count),
{
    assert forall|i: int| 0 <= i < count implies #[trigger] is_inner(summary.nodes@[i], b, inner.nodes[i], inner.first) by {
        assert(is_inner(summary.nodes@[i], a, inner.nodes[i], inner.first));
        if let Some(node) = inner.nodes[i] {
            assert(a[node as int] == b[node as int]);
        }
    }
}

/// One more node of the summary has a node of its own where it is no port.
proof fn lemma_inner_kept(summary: ModuleSummary, a: Seq<GraphNode>, b: Seq<GraphNode>, before: Inside, after: Inside, count: int)
    requires
        graph::nodes_kept(a, b),
        0 <= count < summary.nodes@.len(),
        inner_nodes(summary, a, before, count),
        before.nodes[count] is None,
        forall|k: int| 0 <= k < before.nodes.len() ==> ((#[trigger] before.nodes[k]) matches Some(node) ==> node < a.len()),
        if summary.nodes@[count].kind == SummaryNodeKind::Internal {
            after == with_inner(before, count, a.len() as usize) && a.len() as usize == a.len() && is_inner(summary.nodes@[count], b, Some(a.len() as usize), before.first)
        } else {
            after == before
        },
    ensures
        inner_nodes(summary, b, after, count + 1),
{
    lemma_inner_stays(summary, a, b, before, count);
    assert forall|i: int| 0 <= i < count + 1 implies #[trigger] is_inner(summary.nodes@[i], b, after.nodes[i], after.first) by {
        if i < count {
            assert(is_inner(summary.nodes@[i], b, before.nodes[i], before.first));
        }
    }
    assert forall|i: int, j: int| 0 <= i < j < count + 1 && (#[trigger] after.nodes[i]) is Some implies after.nodes[i] != #[trigger] after.nodes[j] by {
        assert(before.nodes[i] == after.nodes[i]);
        if j < count {
            assert(before.nodes[j] == after.nodes[j]);
        }
    }
}

/// What the remapper remembers is right for a grown arena.
proof fn lemma_remapper_follows(remapper: BranchRemapper, before: PathArena, arena: PathArena)
    requires
        arena::grows(before@, arena@),
        remapper.wf(before),
    ensures
        remapper.wf(arena),
{
    assert forall|n: usize| #[trigger] remapper.cache@.contains_key(n) implies n < arena@.len() && remapper.cache@[n] < arena@.len() && arena::path_of(
        arena@,
        remapper.cache@[n] as int,
    ) == remap::renamed_path(remapper.mapping@, arena::path_of(arena@, n as int)) by {
        arena::growth_keeps_paths(before@, arena@, n as int);
        arena::growth_keeps_paths(before@, arena@, remapper.cache@[n] as int);
    }
}

proof fn lemma_boundary_kept(through: Through, a: Seq<GraphNode>, b: Seq<GraphNode>, edge: GraphEdge)
    requires
        graph::nodes_kept(a, b),
        boundary_explained(through, a, edge),
    ensures
        boundary_explained(through, b, edge),
{
    let (m, r, flow) = choose|m: MappedNode, r: ResolvedNode, flow: BoundaryFlow|
        through.crossing(m, flow) && feedthrough::crosses(m) && feedthrough::resolves(a, m, r) && edge == #[trigger] feedthrough::boundary_edge(m, r, flow);
    feedthrough::lemma_resolves_kept(a, b, m, r);
    assert(edge == feedthrough::boundary_edge(m, r, flow));
}

proof fn lemma_port_crossing(through: Through, i: int, m: MappedNode, flow: BoundaryFlow)
    requires
        0 <= i < through.summary.nodes@.len(),
        through.maps(i, m),
        flow == BoundaryFlow::ParentToChild ==> through.summary.nodes@[i].kind == SummaryNodeKind::Input,
    ensures
        through.crossing(m, flow),
{
    if flow == BoundaryFlow::ParentToChild {
        let region = through.summary.nodes@[i].region;
        assert(through.asked(i, region));
        assert(through.source_maps(i, region, through.summary.positioned(i), m));
    }
}

proof fn lemma_listed_is_base(through: Through, g: DependencyGraph, inner: Inside, i: int, mapped: Seq<MappedNode>, resolved: Seq<Option<ResolvedNode>>)
    requires
        through.summary.nodes@[i].kind != SummaryNodeKind::Internal,
        forall|m: MappedNode| #[trigger] mapped.contains(m) <==> through.maps(i, m),
        represents(through, g, inner, listed(mapped, flow_of(through.summary.nodes@[i].kind)), resolved),
    ensures
        represents(through, g, inner, base(through, i), resolved),
{
    let a = listed(mapped, flow_of(through.summary.nodes@[i].kind));
    let b = base(through, i);
    assert forall|end: End| #[trigger] a(end) <==> b(end) by {
        match end {
            End::Node(m, _) => {
                assert(mapped.contains(m) <==> through.maps(i, m));
            },
            End::Inner(_) => {},
        }
    }
    assert(a =~= b);
}

proof fn lemma_joint_fits(through: Through, start: Seq<PathNode>, paths: Seq<PathNode>, mapping: Seq<(BranchId, BranchId)>, e: int, joint: Joint)
    requires
        0 <= e < through.summary.edges@.len(),
        arena::grows(start, paths),
        ends_hold(through, start, e),
        is_joint_of(paths, mapping, start, through.summary.edges@[e], joint),
    ensures
        edge_fits(through, paths, e, joint) == dependency_fits(through, start, mapping, e),
{
    reveal(dependency_fits);
    assert forall|s: End, d: End| #[trigger] through.pair(e, s, d) implies arena::path_of(paths, end_condition(s).node as int) == arena::path_of(
        start,
        end_condition(s).node as int,
    ) && arena::path_of(paths, end_condition(d).node as int) == arena::path_of(start, end_condition(d).node as int) by {
        arena::growth_keeps_paths(start, paths, end_condition(s).node as int);
        arena::growth_keeps_paths(start, paths, end_condition(d).node as int);
    }
    if edge_fits(through, paths, e, joint) {
        assert forall|s: End, d: End| #[trigger]
            through.pair(e, s, d) && through.on_node(s) && through.on_node(d) && !feedthrough::excluded(
                remap::renamed_path(mapping, arena::path_of(start, through.summary.edges@[e].condition.node as int)),
                arena::path_of(start, end_condition(s).node as int),
                arena::path_of(start, end_condition(d).node as int),
            ) implies feedthrough::kind_joins(through.summary.edges@[e].kind, end_offset(s), end_offset(d)) by {
            assert(ends_fit(paths, s, d, joint));
        }
    }
}

} // verus!
