//! The dependency graph of a module.
use vstd::prelude::*;
use std::collections::{HashMap, HashSet};
use crate::arena::PathCondition;
use crate::dag::{DagNode, DependencyDag};
use crate::fragments::SummaryRegion;
use crate::instance;
use crate::instance::key_span;
use crate::partition::{BitPartition, NodeKey};
use crate::relation::{PositionDomain, PositionRelation};
use crate::written::Element;

verus! {

/// A node of the graph of a module.
pub struct GraphNode {
    /// The positions of the node.
    pub region: SummaryRegion,
    pub domains: Vec<PositionDomain>,
    pub regular_transfer: bool,
    /// The part of a variable that the node stands for.
    pub key: Option<NodeKey>,
}

/// A dependency between two nodes.
#[derive(Clone, Copy, Debug, PartialEq, Eq, Structural)]
pub struct GraphEdge {
    pub source: usize,
    pub destination: usize,
    pub kind: PositionRelation,
    pub condition: PathCondition,
    /// The edge that a regular transfer has to itself.
    pub carrier: bool,
}

/// The node of a key.
#[derive(Clone, Copy, Debug, PartialEq, Eq, Structural)]
pub struct KeyNode {
    pub key: NodeKey,
    pub node: usize,
}

/// The graph of the dependencies of a module.
pub struct DependencyGraph {
    pub nodes: Vec<GraphNode>,
    pub edges: Vec<GraphEdge>,
    /// The nodes of keys, by variable and first element.
    pub index: HashMap<u128, Vec<KeyNode>>,
}

/// The number under which a key is kept.
pub open spec fn code_of(key: NodeKey) -> u128 {
    (Element { id: key.id, index: key.array.start }).number()
}

/// `b` holds every node of `a` at the same place.
pub open spec fn nodes_kept(a: Seq<GraphNode>, b: Seq<GraphNode>) -> bool {
    a.len() <= b.len() && forall|i: int| 0 <= i < a.len() ==> #[trigger] a[i] == b[i]
}

/// A graph that keeps its nodes twice keeps them.
pub proof fn nodes_kept_is_transitive(a: Seq<GraphNode>, b: Seq<GraphNode>, c: Seq<GraphNode>)
    requires
        nodes_kept(a, b),
        nodes_kept(b, c),
    ensures
        nodes_kept(a, c),
{
    assert forall|i: int| 0 <= i < a.len() implies #[trigger] a[i] == c[i] by {
        assert(a[i] == b[i]);
    }
}

/// The node stands for the key.
pub open spec fn stands_for(nodes: Seq<GraphNode>, node: int, key: NodeKey) -> bool {
    0 <= node < nodes.len() && nodes[node].key == Some(key)
}

/// Some node stands for the key.
pub open spec fn has_node(nodes: Seq<GraphNode>, key: NodeKey) -> bool {
    exists|node: int| #[trigger] stands_for(nodes, node, key)
}

/// The positions of the node of a key.
pub open spec fn region_of_key(partition: BitPartition, key: NodeKey) -> SummaryRegion {
    SummaryRegion {
        id: key.id,
        array: key.array,
        packed: instance::key_span_of(partition, key)->0,
    }
}

/// The node has no key.
pub open spec fn is_internal(
    nodes: Seq<GraphNode>,
    node: int,
    region: SummaryRegion,
    domains: Seq<PositionDomain>,
    regular_transfer: bool,
) -> bool {
    &&& 0 <= node < nodes.len()
    &&& nodes[node].key is None
    &&& nodes[node].region == region
    &&& nodes[node].domains@ == domains
    &&& nodes[node].regular_transfer == regular_transfer
}

impl DependencyGraph {
    pub open spec fn wf(self) -> bool {
        &&& self.indexed()
        &&& forall|e: int| 0 <= e < self.edges@.len() ==> self.joins(#[trigger] self.edges@[e])
        &&& forall|a: int, b: int, key: NodeKey|
            #[trigger] stands_for(self.nodes@, a, key) && #[trigger] stands_for(self.nodes@, b, key) ==> a == b
    }

    pub open spec fn joins(self, edge: GraphEdge) -> bool {
        edge.source < self.nodes@.len() && edge.destination < self.nodes@.len()
    }

    /// The index knows the nodes of keys, and nothing else.
    pub open spec fn indexed(self) -> bool {
        &&& forall|code: u128, k: int|
            self.index@.dom().contains(code) && 0 <= k < self.index@[code]@.len() ==> {
                let entry = #[trigger] self.index@[code]@[k];
                stands_for(self.nodes@, entry.node as int, entry.key)
            }
        &&& forall|node: int, key: NodeKey| #[trigger]
            stands_for(self.nodes@, node, key) ==> self.index@.dom().contains(code_of(key))
                && self.index@[code_of(key)]@.contains(KeyNode { key, node: node as usize })
    }

    /// The nodes of keys have the positions that the partition gives them.
    pub open spec fn placed_in(self, partition: BitPartition) -> bool {
        forall|node: int, key: NodeKey| #[trigger]
            stands_for(self.nodes@, node, key) ==> partition.is_node(key)
                && self.nodes@[node].region == region_of_key(partition, key)
    }

    /// An empty graph.
    pub fn new() -> (r: Self)
        ensures
            r.wf(),
            r.nodes@.len() == 0,
            r.edges@.len() == 0,
            forall|partition: BitPartition| r.placed_in(partition),
    {
        broadcast use vstd::std_specs::hash::group_hash_axioms;

        DependencyGraph { nodes: Vec::new(), edges: Vec::new(), index: HashMap::new() }
    }

    /// The node that stands for a key.
    fn find(&self, key: NodeKey) -> (r: Option<usize>)
        requires
            self.wf(),
        ensures
            match r {
                Some(node) => stands_for(self.nodes@, node as int, key),
                None => !has_node(self.nodes@, key),
            },
    {
        broadcast use vstd::std_specs::hash::group_hash_axioms;

        let code: u128 = Element { id: key.id, index: key.array.start }.code();
        match self.index.get(&code) {
            Some(entries) => {
                let mut i: usize = 0;
                while i < entries.len()
                    invariant
                        i <= entries@.len(),
                        self.wf(),
                        self.index@.dom().contains(code),
                        self.index@[code] == *entries,
                        forall|k: int| 0 <= k < i ==> (#[trigger] entries@[k]).key != key,
                    decreases entries@.len() - i,
                {
                    let entry = entries[i];
                    assert(self.index@[code]@[i as int] == entry);
                    if entry.key == key {
                        return Some(entry.node);
                    }
                    i = i + 1;
                }
                proof {
                    if has_node(self.nodes@, key) {
                        let node = choose|node: int| #[trigger] stands_for(self.nodes@, node, key);
                        let wanted = KeyNode { key, node: node as usize };
                        assert(entries@.contains(wanted));
                        let k = choose|k: int| 0 <= k < entries@.len() && entries@[k] == wanted;
                        assert(entries@[k].key != key);
                    }
                }
                None
            },
            None => {
                proof {
                    if has_node(self.nodes@, key) {
                        let node = choose|node: int| #[trigger] stands_for(self.nodes@, node, key);
                        assert(self.index@.dom().contains(code_of(key)));
                    }
                }
                None
            },
        }
    }

    /// A node without a key.
    pub fn add_internal(
        &mut self,
        region: SummaryRegion,
        domains: Vec<PositionDomain>,
        regular_transfer: bool,
    ) -> (r: usize)
        requires
            old(self).wf(),
        ensures
            final(self).wf(),
            nodes_kept(old(self).nodes@, final(self).nodes@),
            final(self).nodes@.len() == old(self).nodes@.len() + 1,
            final(self).edges@ == old(self).edges@,
            r == old(self).nodes@.len(),
            is_internal(final(self).nodes@, r as int, region, domains@, regular_transfer),
            forall|partition: BitPartition| old(self).placed_in(partition) ==> #[trigger] final(self).placed_in(partition),
    {
        let ghost before = *self;
        let node: usize = self.nodes.len();
        self.nodes.push(GraphNode { region, domains, regular_transfer, key: None });
        proof {
            self.lemma_more_nodes(before);
        }
        node
    }

    proof fn lemma_more_nodes(self, before: Self)
        requires
            before.wf(),
            nodes_kept(before.nodes@, self.nodes@),
            self.edges@ == before.edges@,
            self.index == before.index,
            forall|i: int| before.nodes@.len() <= i < self.nodes@.len() ==> (#[trigger] self.nodes@[i]).key is None,
        ensures
            self.wf(),
            forall|partition: BitPartition| before.placed_in(partition) ==> #[trigger] self.placed_in(partition),
    {
        assert forall|node: int, key: NodeKey| #[trigger] stands_for(self.nodes@, node, key) implies stands_for(before.nodes@, node, key) by {
            if node < before.nodes@.len() {
                assert(before.nodes@[node] == self.nodes@[node]);
            }
        }
        assert forall|code: u128, k: int| self.index@.dom().contains(code) && 0 <= k < self.index@[code]@.len() implies ({
            let entry = #[trigger] self.index@[code]@[k];
            stands_for(self.nodes@, entry.node as int, entry.key)
        }) by {
            let entry = before.index@[code]@[k];
            assert(stands_for(before.nodes@, entry.node as int, entry.key));
            assert(before.nodes@[entry.node as int] == self.nodes@[entry.node as int]);
        }
        assert forall|e: int| 0 <= e < self.edges@.len() implies self.joins(#[trigger] self.edges@[e]) by {
            assert(before.joins(before.edges@[e]));
        }
        assert forall|partition: BitPartition| before.placed_in(partition) implies #[trigger] self.placed_in(partition) by {
            assert forall|node: int, key: NodeKey| #[trigger] stands_for(self.nodes@, node, key) implies partition.is_node(key) && self.nodes@[node].region == region_of_key(partition, key) by {
                assert(stands_for(before.nodes@, node, key));
                assert(before.nodes@[node] == self.nodes@[node]);
            }
        }
    }

    /// The node that stands for a key, a new one where there is none yet; nothing where the key has
    /// no region.
    pub fn ensure_node(&mut self, partition: &BitPartition, key: NodeKey) -> (r: Option<usize>)
        requires
            old(self).wf(),
            old(self).placed_in(*partition),
            partition.wf(),
        ensures
            final(self).wf(),
            final(self).placed_in(*partition),
            nodes_kept(old(self).nodes@, final(self).nodes@),
            final(self).edges@ == old(self).edges@,
            r is Some <==> partition.is_node(key),
            r is None ==> final(self).nodes@ == old(self).nodes@,
            r matches Some(node) ==> stands_for(final(self).nodes@, node as int, key),
            has_node(old(self).nodes@, key) ==> final(self).nodes@ == old(self).nodes@,
            final(self).nodes@.len() <= old(self).nodes@.len() + 1,
            forall|i: int| old(self).nodes@.len() <= i < final(self).nodes@.len() ==> stands_for(#[trigger] final(self).nodes@, i, key) && final(self).nodes@[i].domains@.len() == 0,
    {
        broadcast use vstd::std_specs::hash::group_hash_axioms;

        let ghost before = *self;
        match self.find(key) {
            Some(node) => {
                return Some(node);
            },
            None => {},
        }
        let packed = match key_span(partition, key) {
            Some(packed) => packed,
            None => {
                return None;
            },
        };
        let node: usize = self.nodes.len();
        let code: u128 = Element { id: key.id, index: key.array.start }.code();
        let mut entries: Vec<KeyNode> = match self.index.remove(&code) {
            Some(entries) => entries,
            None => Vec::new(),
        };
        let ghost found = entries@;
        let entry = KeyNode { key, node };
        entries.push(entry);
        self.index.insert(code, entries);
        self.nodes.push(
            GraphNode {
                region: SummaryRegion { id: key.id, array: key.array, packed },
                domains: Vec::new(),
                regular_transfer: false,
                key: Some(key),
            },
        );
        proof {
            assert(self.index@[code]@ == found.push(entry));
            assert forall|n: int, k: NodeKey| #[trigger] stands_for(self.nodes@, n, k) <==> stands_for(before.nodes@, n, k) || (n == node && k == key) by {
                if 0 <= n < before.nodes@.len() {
                    assert(before.nodes@[n] == self.nodes@[n]);
                }
            }
            assert forall|c: u128, k: int| self.index@.dom().contains(c) && 0 <= k < self.index@[c]@.len() implies ({
                let e = #[trigger] self.index@[c]@[k];
                stands_for(self.nodes@, e.node as int, e.key)
            }) by {
                let e = self.index@[c]@[k];
                if c == code {
                    if k < found.len() {
                        assert(before.index@.dom().contains(code));
                        assert(before.index@[code]@[k] == e);
                        assert(stands_for(before.nodes@, e.node as int, e.key));
                    } else {
                        assert(stands_for(self.nodes@, node as int, key));
                    }
                } else {
                    assert(before.index@[c]@[k] == e);
                    assert(stands_for(before.nodes@, e.node as int, e.key));
                }
            }
            assert forall|n: int, k: NodeKey| #[trigger] stands_for(self.nodes@, n, k) implies self.index@.dom().contains(code_of(k)) && self.index@[code_of(k)]@.contains(KeyNode {
                key: k,
                node: n as usize,
            }) by {
                let wanted = KeyNode { key: k, node: n as usize };
                if n == node && k == key {
                    assert(self.index@[code]@[found.len() as int] == wanted);
                } else {
                    assert(stands_for(before.nodes@, n, k));
                    let c = code_of(k);
                    assert(before.index@[c]@.contains(wanted));
                    if c == code {
                        let q = choose|q: int| 0 <= q < found.len() && found[q] == wanted;
                        assert(self.index@[code]@[q] == wanted);
                    }
                }
            }
            assert(self.indexed());
            assert forall|a: int, b: int, k: NodeKey| #[trigger] stands_for(self.nodes@, a, k) && #[trigger] stands_for(self.nodes@, b, k) implies a == b by {
                if k == key {
                    assert(!stands_for(before.nodes@, a, k));
                    assert(!stands_for(before.nodes@, b, k));
                }
            }
            assert forall|e: int| 0 <= e < self.edges@.len() implies self.joins(#[trigger] self.edges@[e]) by {
                assert(before.joins(before.edges@[e]));
            }
            assert forall|n: int, k: NodeKey| #[trigger] stands_for(self.nodes@, n, k) implies partition.is_node(k) && self.nodes@[n].region == region_of_key(*partition, k) by {
                if n != node {
                    assert(stands_for(before.nodes@, n, k));
                    assert(before.nodes@[n] == self.nodes@[n]);
                }
            }
            assert(stands_for(self.nodes@, node as int, key));
        }
        Some(node)
    }

    /// Adds an edge.
    pub fn add_dependency_edge(&mut self, edge: GraphEdge)
        requires
            old(self).wf(),
            old(self).joins(edge),
        ensures
            final(self).wf(),
            final(self).nodes@ == old(self).nodes@,
            final(self).edges@ == old(self).edges@.push(edge),
            forall|partition: BitPartition| old(self).placed_in(partition) ==> #[trigger] final(self).placed_in(partition),
    {
        let ghost before = *self;
        self.edges.push(edge);
        proof {
            assert forall|e: int| 0 <= e < self.edges@.len() implies self.joins(#[trigger] self.edges@[e]) by {
                if e < before.edges@.len() {
                    assert(before.joins(before.edges@[e]));
                }
            }
        }
    }

    /// An edge between the nodes of two keys, where both have a region.
    pub fn add_region_dependency(
        &mut self,
        partition: &BitPartition,
        source: NodeKey,
        destination: NodeKey,
        kind: PositionRelation,
        condition: PathCondition,
    )
        requires
            old(self).wf(),
            old(self).placed_in(*partition),
            partition.wf(),
        ensures
            final(self).wf(),
            final(self).placed_in(*partition),
            nodes_kept(old(self).nodes@, final(self).nodes@),
            partition.is_node(source) && partition.is_node(destination) ==> exists|a: int, b: int|
                #[trigger] stands_for(final(self).nodes@, a, source) && #[trigger] stands_for(final(self).nodes@, b, destination)
                    && final(self).edges@ == old(self).edges@.push(plain_edge(a, b, kind, condition)),
            !(partition.is_node(source) && partition.is_node(destination)) ==> final(self).edges@ == old(self).edges@,
    {
        let ghost before = *self;
        let a = self.ensure_node(partition, source);
        let ghost middle = *self;
        let b = self.ensure_node(partition, destination);
        proof {
            nodes_kept_is_transitive(before.nodes@, middle.nodes@, self.nodes@);
        }
        if let (Some(a), Some(b)) = (a, b) {
            let edge = GraphEdge { source: a, destination: b, kind, condition, carrier: false };
            proof {
                assert(middle.nodes@[a as int] == self.nodes@[a as int]);
                assert(stands_for(self.nodes@, a as int, source));
            }
            self.add_dependency_edge(edge);
            proof {
                assert(edge == plain_edge(a as int, b as int, kind, condition));
                assert(stands_for(self.nodes@, a as int, source) && stands_for(self.nodes@, b as int, destination));
            }
        }
    }
}

pub open spec fn plain_edge(
    source: int,
    destination: int,
    kind: PositionRelation,
    condition: PathCondition,
) -> GraphEdge {
    GraphEdge {
        source: source as usize,
        destination: destination as usize,
        kind,
        condition,
        carrier: false,
    }
}

/// A node that a procedure writes, with the root of the value written.
#[derive(Clone, Copy, Debug, PartialEq, Eq)]
pub struct WrittenNode {
    pub key: NodeKey,
    pub root: Option<usize>,
}

/// The node is shown in the graph of the module: its variable is visible and it has a region.
pub open spec fn shown(visible: Set<u64>, partition: BitPartition, key: NodeKey) -> bool {
    visible.contains(key.id) && partition.is_node(key)
}

/// The first shown node among the first `count`.
pub open spec fn first_shown(
    written: Seq<WrittenNode>,
    visible: Set<u64>,
    partition: BitPartition,
    count: int,
) -> Option<NodeKey>
    decreases count,
{
    if count <= 0 {
        None
    } else {
        match first_shown(written, visible, partition, count - 1) {
            Some(key) => Some(key),
            None => if shown(visible, partition, written[count - 1].key) {
                Some(written[count - 1].key)
            } else {
                None
            },
        }
    }
}

/// Where the nodes of a procedure's graph are placed in that of the module.
pub open spec fn places(
    before: nat,
    nodes: Seq<GraphNode>,
    dag: DependencyDag,
    keys: Seq<NodeKey>,
    visible: Set<u64>,
    partition: BitPartition,
    region: SummaryRegion,
    mapped: Seq<Option<usize>>,
    i: int,
) -> bool {
    match dag.nodes@[i] {
        DagNode::External(key) => if shown(visible, partition, keys[key as int]) {
            mapped[i] is Some && stands_for(nodes, mapped[i]->0 as int, keys[key as int])
        } else {
            mapped[i] is None
        },
        DagNode::Internal => mapped[i] is Some && mapped[i]->0 >= before && is_internal(
            nodes,
            mapped[i]->0 as int,
            region,
            dag.domains@[i]@,
            false,
        ),
        DagNode::RegularTransfer => mapped[i] is Some && mapped[i]->0 >= before && is_internal(
            nodes,
            mapped[i]->0 as int,
            region,
            dag.domains@[i]@,
            true,
        ),
    }
}

/// The edges of a procedure's graph, between the nodes that are placed.
pub open spec fn placed_edges(dag: DependencyDag, mapped: Seq<Option<usize>>, count: int) -> Seq<
    GraphEdge,
>
    decreases count,
{
    if count <= 0 {
        Seq::empty()
    } else {
        let edge = dag.edges@[count - 1];
        match (mapped[edge.source as int], mapped[edge.destination as int]) {
            (Some(source), Some(destination)) => placed_edges(dag, mapped, count - 1).push(
                GraphEdge {
                    source,
                    destination,
                    kind: edge.relation,
                    condition: edge.condition,
                    carrier: dag.nodes@[edge.source as int] == DagNode::RegularTransfer
                        && edge.source == edge.destination,
                },
            ),
            _ => placed_edges(dag, mapped, count - 1),
        }
    }
}

/// An edge leads from the root of a written value to the node written.
pub open spec fn is_root_edge(
    nodes: Seq<GraphNode>,
    mapped: Seq<Option<usize>>,
    written: WrittenNode,
    visible: Set<u64>,
    partition: BitPartition,
    edge: GraphEdge,
) -> bool {
    &&& shown(visible, partition, written.key)
    &&& written.root is Some
    &&& mapped[written.root->0 as int] == Some(edge.source)
    &&& stands_for(nodes, edge.destination as int, written.key)
    &&& edge == plain_edge(
        edge.source as int,
        edge.destination as int,
        PositionRelation::identity(),
        PathCondition { node: 0 },
    )
}

/// The edges from the roots of the first `count` written values.
pub open spec fn root_edges(
    nodes: Seq<GraphNode>,
    mapped: Seq<Option<usize>>,
    written: Seq<WrittenNode>,
    visible: Set<u64>,
    partition: BitPartition,
    count: int,
    edges: Seq<GraphEdge>,
) -> bool
    decreases count,
{
    if count <= 0 {
        edges.len() == 0
    } else {
        let last = written[count - 1];
        if shown(visible, partition, last.key) && last.root is Some && mapped[last.root->0 as int] is Some {
            edges.len() > 0 && is_root_edge(nodes, mapped, last, visible, partition, edges.last()) && root_edges(
                nodes,
                mapped,
                written,
                visible,
                partition,
                count - 1,
                edges.drop_last(),
            )
        } else {
            root_edges(nodes, mapped, written, visible, partition, count - 1, edges)
        }
    }
}

/// Different values of a procedure have different nodes; only the nodes of variables are shared.
pub open spec fn placed_apart(dag: DependencyDag, mapped: Seq<Option<usize>>, count: int) -> bool {
    forall|i: int, j: int|
        0 <= i < count && 0 <= j < count && i != j && !(dag.nodes@[i] is External) && (#[trigger] mapped[i]) is Some ==> mapped[i] != #[trigger] mapped[j]
}

/// What the graph of a procedure adds to that of the module.
pub open spec fn adds_procedure(
    before: DependencyGraph,
    after: DependencyGraph,
    dag: DependencyDag,
    keys: Seq<NodeKey>,
    written: Seq<WrittenNode>,
    visible: Set<u64>,
    partition: BitPartition,
    mapped: Seq<Option<usize>>,
    roots: Seq<GraphEdge>,
) -> bool {
    let first = first_shown(written, visible, partition, written.len() as int);
    &&& mapped.len() == dag.nodes@.len()
    &&& forall|i: int|
        0 <= i < mapped.len() ==> #[trigger] places(
            before.nodes@.len(),
            after.nodes@,
            dag,
            keys,
            visible,
            partition,
            region_of_key(partition, first->0),
            mapped,
            i,
        )
    &&& placed_apart(dag, mapped, mapped.len() as int)
    &&& after.edges@ == before.edges@ + placed_edges(dag, mapped, dag.edges@.len() as int) + roots
    &&& root_edges(after.nodes@, mapped, written, visible, partition, written.len() as int, roots)
}

proof fn lemma_places_kept(
    before: nat,
    a: Seq<GraphNode>,
    b: Seq<GraphNode>,
    dag: DependencyDag,
    keys: Seq<NodeKey>,
    visible: Set<u64>,
    partition: BitPartition,
    region: SummaryRegion,
    mapped: Seq<Option<usize>>,
    longer: Seq<Option<usize>>,
    i: int,
)
    requires
        nodes_kept(a, b),
        0 <= i < mapped.len() <= longer.len(),
        mapped[i] == longer[i],
        places(before, a, dag, keys, visible, partition, region, mapped, i),
    ensures
        places(before, b, dag, keys, visible, partition, region, longer, i),
{
    if let Some(node) = mapped[i] {
        assert(a[node as int] == b[node as int]);
    }
}

/// A copy of the domains.
pub fn copy_domains(domains: &Vec<PositionDomain>) -> (r: Vec<PositionDomain>)
    ensures
        r@ == domains@,
{
    let mut r: Vec<PositionDomain> = Vec::new();
    let mut i: usize = 0;
    while i < domains.len()
        invariant
            i <= domains@.len(),
            r@ == domains@.take(i as int),
        decreases domains@.len() - i,
    {
        r.push(domains[i]);
        i = i + 1;
        assert(r@ =~= domains@.take(i as int));
    }
    assert(r@ =~= domains@);
    r
}

impl DependencyGraph {
    /// Adds the graph of a procedure: nodes for its values, edges between them, and an edge from the
    /// root of each value written to the node written. Nothing is added where no node written is
    /// shown.
    pub fn add_procedure_graph(
        &mut self,
        partition: &BitPartition,
        dag: &DependencyDag,
        keys: &Vec<NodeKey>,
        written: &Vec<WrittenNode>,
        visible: &HashSet<u64>,
    )
        requires
            old(self).wf(),
            old(self).placed_in(*partition),
            partition.wf(),
            dag.wf(),
            forall|i: int| 0 <= i < dag.nodes@.len() ==> ((#[trigger] dag.nodes@[i]) matches DagNode::External(key) ==> key < keys@.len()),
            forall|i: int| 0 <= i < written@.len() ==> ((#[trigger] written@[i]).root matches Some(root) ==> root < dag.nodes@.len()),
        ensures
            final(self).wf(),
            final(self).placed_in(*partition),
            nodes_kept(old(self).nodes@, final(self).nodes@),
            first_shown(written@, visible@, *partition, written@.len() as int) is None ==> final(self).nodes@ == old(self).nodes@ && final(self).edges@ == old(self).edges@,
            first_shown(written@, visible@, *partition, written@.len() as int) is Some ==> exists|mapped: Seq<Option<usize>>, roots: Seq<GraphEdge>|
                #[trigger] adds_procedure(*old(self), *final(self), *dag, keys@, written@, visible@, *partition, mapped, roots),
    {
        broadcast use vstd::std_specs::hash::group_hash_axioms;

        let ghost before = *self;
        let ghost total = written@.len() as int;
        let mut first: Option<SummaryRegion> = None;
        let mut i: usize = 0;
        while i < written.len() && first.is_none()
            invariant
                i <= written@.len(),
                total == written@.len(),
                partition.wf(),
                self.wf(),
                self.placed_in(*partition),
                nodes_kept(before.nodes@, self.nodes@),
                self.edges@ == before.edges@,
                match first {
                    None => self.nodes@ == before.nodes@ && first_shown(written@, visible@, *partition, i as int) is None,
                    Some(region) => ({
                        let found = first_shown(written@, visible@, *partition, total);
                        found is Some && region == region_of_key(*partition, found->0)
                    }),
                },
            decreases written@.len() - i,
        {
            let key = written[i].key;
            if visible.contains(&key.id) {
                let ghost middle = *self;
                let node = self.ensure_node(partition, key);
                proof {
                    nodes_kept_is_transitive(before.nodes@, middle.nodes@, self.nodes@);
                }
                if let Some(node) = node {
                    first = Some(self.nodes[node].region);
                    proof {
                        assert(first_shown(written@, visible@, *partition, i + 1) == Some(key));
                        lemma_first_shown(written@, visible@, *partition, i + 1, total);
                    }
                }
            }
            i = i + 1;
        }
        let region = match first {
            Some(region) => region,
            None => {
                return;
            },
        };
        let mut mapped: Vec<Option<usize>> = Vec::new();
        let mut n: usize = 0;
        while n < dag.nodes.len()
            invariant
                n <= dag.nodes@.len(),
                mapped@.len() == n,
                partition.wf(),
                dag.wf(),
                forall|i: int| 0 <= i < dag.nodes@.len() ==> ((#[trigger] dag.nodes@[i]) matches DagNode::External(key) ==> key < keys@.len()),
                self.wf(),
                self.placed_in(*partition),
                nodes_kept(before.nodes@, self.nodes@),
                self.edges@ == before.edges@,
                forall|i: int| 0 <= i < n ==> #[trigger] places(before.nodes@.len(), self.nodes@, *dag, keys@, visible@, *partition, region, mapped@, i),
                placed_apart(*dag, mapped@, n as int),
            decreases dag.nodes@.len() - n,
        {
            let ghost middle = *self;
            let ghost mapped0 = mapped@;
            let node = dag.nodes[n];
            assert(node == dag.nodes@[n as int]);
            let place: Option<usize> = match node {
                DagNode::External(key) => {
                    assert(key < keys@.len() && keys@.len() == keys.len());
                    let node = keys[key as usize];
                    if visible.contains(&node.id) {
                        self.ensure_node(partition, node)
                    } else {
                        None
                    }
                },
                DagNode::Internal => Some(self.add_internal(region, copy_domains(&dag.domains[n]), false)),
                DagNode::RegularTransfer => Some(self.add_internal(region, copy_domains(&dag.domains[n]), true)),
            };
            mapped.push(place);
            proof {
                nodes_kept_is_transitive(before.nodes@, middle.nodes@, self.nodes@);
                assert forall|i: int| 0 <= i < n + 1 implies #[trigger] places(before.nodes@.len(), self.nodes@, *dag, keys@, visible@, *partition, region, mapped@, i) by {
                    if i < n {
                        assert(places(before.nodes@.len(), middle.nodes@, *dag, keys@, visible@, *partition, region, mapped0, i));
                        lemma_places_kept(before.nodes@.len(), middle.nodes@, self.nodes@, *dag, keys@, visible@, *partition, region, mapped0, mapped@, i);
                    } else {
                        assert(mapped@[i] == place);
                    }
                }
                assert forall|i: int, j: int|
                    0 <= i < n + 1 && 0 <= j < n + 1 && i != j && !(dag.nodes@[i] is External) && (#[trigger] mapped@[i]) is Some implies mapped@[i] != #[trigger] mapped@[j] by {
                    let k = if i < n { i } else { j };
                    assert(mapped@[k] == mapped0[k]);
                    assert(places(before.nodes@.len(), middle.nodes@, *dag, keys@, visible@, *partition, region, mapped0, k));
                    assert(places(before.nodes@.len(), self.nodes@, *dag, keys@, visible@, *partition, region, mapped@, i));
                    assert(places(before.nodes@.len(), self.nodes@, *dag, keys@, visible@, *partition, region, mapped@, j));
                    if i < n && j < n {
                        assert(mapped@[j] == mapped0[j]);
                    }
                }
            }
            n = n + 1;
        }
        let ghost placed = *self;
        proof {
            assert forall|i: int| 0 <= i < mapped@.len() implies ((#[trigger] mapped@[i]) matches Some(node) ==> node < self.nodes@.len()) by {
                assert(places(before.nodes@.len(), self.nodes@, *dag, keys@, visible@, *partition, region, mapped@, i));
            }
        }
        let mut e: usize = 0;
        while e < dag.edges.len()
            invariant
                e <= dag.edges@.len(),
                dag.wf(),
                mapped@.len() == dag.nodes@.len(),
                self.wf(),
                self.placed_in(*partition),
                self.nodes@ == placed.nodes@,
                forall|i: int| 0 <= i < mapped@.len() ==> ((#[trigger] mapped@[i]) matches Some(node) ==> node < self.nodes@.len()),
                self.edges@ == before.edges@ + placed_edges(*dag, mapped@, e as int),
            decreases dag.edges@.len() - e,
        {
            let edge = dag.edges[e];
            let ghost middle = *self;
            assert(dag.edges@[e as int].source < dag.nodes@.len() && dag.edges@[e as int].destination < dag.nodes@.len());
            if let (Some(source), Some(destination)) = (mapped[edge.source], mapped[edge.destination]) {
                let carrier: bool = dag.nodes[edge.source] == DagNode::RegularTransfer && edge.source == edge.destination;
                let added = GraphEdge { source, destination, kind: edge.relation, condition: edge.condition, carrier };
                assert(mapped@[edge.source as int] == Some(source) && mapped@[edge.destination as int] == Some(destination));
                self.add_dependency_edge(added);
                proof {
                    assert(self.edges@ =~= before.edges@ + placed_edges(*dag, mapped@, e + 1));
                }
            }
            e = e + 1;
        }
        let ghost mut roots: Seq<GraphEdge> = Seq::empty();
        proof {
            assert(self.edges@ =~= before.edges@ + placed_edges(*dag, mapped@, dag.edges@.len() as int) + roots);
        }
        let mut w: usize = 0;
        while w < written.len()
            invariant
                w <= written@.len(),
                partition.wf(),
                dag.wf(),
                mapped@.len() == dag.nodes@.len(),
                forall|i: int| 0 <= i < written@.len() ==> ((#[trigger] written@[i]).root matches Some(root) ==> root < dag.nodes@.len()),
                self.wf(),
                self.placed_in(*partition),
                nodes_kept(placed.nodes@, self.nodes@),
                forall|i: int| 0 <= i < mapped@.len() ==> ((#[trigger] mapped@[i]) matches Some(node) ==> node < placed.nodes@.len()),
                self.edges@ == before.edges@ + placed_edges(*dag, mapped@, dag.edges@.len() as int) + roots,
                root_edges(self.nodes@, mapped@, written@, visible@, *partition, w as int, roots),
            decreases written@.len() - w,
        {
            let destination = written[w];
            let ghost middle = *self;
            let mut source: Option<usize> = None;
            if let Some(root) = destination.root {
                assert(written@[w as int].root == Some(root));
                source = mapped[root];
            }
            if visible.contains(&destination.key.id) {
                let node = self.ensure_node(partition, destination.key);
                proof {
                    nodes_kept_is_transitive(placed.nodes@, middle.nodes@, self.nodes@);
                    lemma_root_edges_kept(middle.nodes@, self.nodes@, mapped@, written@, visible@, *partition, w as int, roots);
                }
                if let (Some(source), Some(node)) = (source, node) {
                    let edge = GraphEdge {
                        source,
                        destination: node,
                        kind: PositionRelation { array: Some(0), packed: Some(0) },
                        condition: PathCondition { node: 0 },
                        carrier: false,
                    };
                    assert(mapped@[destination.root->0 as int] == Some(source));
                    self.add_dependency_edge(edge);
                    proof {
                        let more = roots.push(edge);
                        assert(more.drop_last() =~= roots);
                        assert(self.edges@ =~= before.edges@ + placed_edges(*dag, mapped@, dag.edges@.len() as int) + more);
                        assert(is_root_edge(self.nodes@, mapped@, destination, visible@, *partition, edge));
                        roots = more;
                    }
                }
            }
            w = w + 1;
        }
        proof {
            nodes_kept_is_transitive(before.nodes@, placed.nodes@, self.nodes@);
            assert forall|i: int| 0 <= i < mapped@.len() implies #[trigger] places(before.nodes@.len(), self.nodes@, *dag, keys@, visible@, *partition, region, mapped@, i) by {
                lemma_places_kept(before.nodes@.len(), placed.nodes@, self.nodes@, *dag, keys@, visible@, *partition, region, mapped@, mapped@, i);
            }
            assert(adds_procedure(before, *self, *dag, keys@, written@, visible@, *partition, mapped@, roots));
        }
    }
}

proof fn lemma_first_shown(written: Seq<WrittenNode>, visible: Set<u64>, partition: BitPartition, at: int, count: int)
    requires
        0 <= at <= count,
        first_shown(written, visible, partition, at) is Some,
    ensures
        first_shown(written, visible, partition, count) == first_shown(written, visible, partition, at),
    decreases count - at,
{
    if at < count {
        lemma_first_shown(written, visible, partition, at, count - 1);
    }
}

proof fn lemma_root_edges_kept(a: Seq<GraphNode>, b: Seq<GraphNode>, mapped: Seq<Option<usize>>, written: Seq<WrittenNode>, visible: Set<u64>, partition: BitPartition, count: int, edges: Seq<
    GraphEdge,
>)
    requires
        nodes_kept(a, b),
        root_edges(a, mapped, written, visible, partition, count, edges),
    ensures
        root_edges(b, mapped, written, visible, partition, count, edges),
    decreases count,
{
    if count > 0 {
        let last = written[count - 1];
        if shown(visible, partition, last.key) && last.root is Some && mapped[last.root->0 as int] is Some {
            lemma_root_edges_kept(a, b, mapped, written, visible, partition, count - 1, edges.drop_last());
            let node = edges.last().destination as int;
            assert(a[node] == b[node]);
        } else {
            lemma_root_edges_kept(a, b, mapped, written, visible, partition, count - 1, edges);
        }
    }
}

} // verus!
