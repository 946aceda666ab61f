//! Dependency graphs between positions of values.
use vstd::prelude::*;
use crate::arena;
use crate::arena::{PathArena, PathCondition, PathNode};
use crate::path;
use crate::path::{BranchId, Choice};
use crate::reach;
use crate::reach::{solve, FlowSystem, Reach, Step, Visit};
use crate::relation::{widen_repeated_axis, PositionDomain, PositionRelation};
use crate::sources;
use crate::sources::{Source, SourceList};

verus! {

/// What a node of a dependency graph stands for.
#[derive(Clone, Copy, Debug, PartialEq, Eq, Hash, Structural)]
pub enum DagNode {
    /// A value from outside.
    External(u64),
    Internal,
    /// A finite regular transfer: its self-edge stands for repetition.
    RegularTransfer,
}

/// Positions of `destination` depend on positions of `source`.
#[derive(Clone, Copy, Debug, PartialEq, Eq, Hash, Structural)]
pub struct DagEdge {
    pub source: usize,
    pub destination: usize,
    pub relation: PositionRelation,
    pub condition: PathCondition,
}

/// A dependency graph with its edges found by destination.
pub struct DependencyDag {
    pub nodes: Vec<DagNode>,
    pub edges: Vec<DagEdge>,
    pub roots: Vec<Option<usize>>,
    pub domains: Vec<Vec<PositionDomain>>,
    /// For every node, the edges that lead to it.
    pub incoming: Vec<Vec<usize>>,
}

/// Every edge joins two nodes.
pub open spec fn edges_join(nodes: Seq<DagNode>, edges: Seq<DagEdge>) -> bool {
    forall|e: int|
        0 <= e < edges.len() ==> (#[trigger] edges[e]).source < nodes.len() && edges[e].destination
            < nodes.len()
}

/// `row` names, in order, the edges among the first `n` that lead to `node`.
pub open spec fn leads_to(edges: Seq<DagEdge>, node: int, n: int, row: Seq<usize>) -> bool {
    &&& forall|k: int|
        0 <= k < row.len() ==> (#[trigger] row[k]) < n && edges[row[k] as int].destination == node
    &&& forall|e: int|
        0 <= e < n && (#[trigger] edges[e]).destination == node ==> row.contains(e as usize)
    &&& forall|i: int, j: int| 0 <= i < j < row.len() ==> #[trigger] row[i] < #[trigger] row[j]
}

/// An offset that repetition does not change.
pub open spec fn idle_axis(offset: Option<isize>) -> bool {
    offset is None || offset == Some(0isize)
}

impl DependencyDag {
    /// The graph is indexed and its edges lead forward, apart from self-edges that either stand
    /// for a regular transfer or do not move positions.
    pub open spec fn wf(self) -> bool {
        &&& edges_join(self.nodes@, self.edges@)
        &&& self.domains@.len() == self.nodes@.len()
        &&& self.incoming@.len() == self.nodes@.len()
        &&& forall|n: int|
            0 <= n < self.nodes@.len() ==> leads_to(
                self.edges@,
                n,
                self.edges@.len() as int,
                (#[trigger] self.incoming@[n])@,
            )
        &&& forall|r: int|
            0 <= r < self.roots@.len() ==> ((#[trigger] self.roots@[r]) matches Some(n) ==> n
                < self.nodes@.len())
    }

    pub open spec fn forward(self) -> bool {
        forall|e: int|
            0 <= e < self.edges@.len() ==> {
                let edge = #[trigger] self.edges@[e];
                edge.source < edge.destination || (edge.source == edge.destination && (
                self.nodes@[edge.source as int] == DagNode::RegularTransfer || (idle_axis(
                    edge.relation.array,
                ) && idle_axis(edge.relation.packed))))
            }
    }

    /// The conditions of the edges belong to the arena.
    pub open spec fn guarded_in(self, nodes: Seq<PathNode>) -> bool {
        forall|e: int|
            0 <= e < self.edges@.len() ==> (#[trigger] self.edges@[e]).condition.node < nodes.len()
    }

    /// A self-edge of `node` advances the array axis (or the packed one).
    pub open spec fn repeats(self, node: int, array: bool) -> bool {
        exists|e: int|
            0 <= e < self.edges@.len() && {
                let edge = #[trigger] self.edges@[e];
                &&& edge.source == node
                &&& edge.destination == node
                &&& array ==> edge.relation.array is Some && edge.relation.array->0 != 0
                &&& !array ==> edge.relation.packed is Some && edge.relation.packed->0 != 0
            }
    }

    /// The relation once the repetition at `node` is accounted for.
    pub open spec fn settled(self, node: int, relation: PositionRelation) -> PositionRelation {
        if self.nodes@[node] == DagNode::RegularTransfer {
            PositionRelation {
                array: if self.repeats(node, true) {
                    None
                } else {
                    relation.array
                },
                packed: if self.repeats(node, false) {
                    None
                } else {
                    relation.packed
                },
            }
        } else {
            relation
        }
    }

    /// Every offset that is composed at `from` fits.
    pub open spec fn offsets_fit(self, from: Visit) -> bool {
        self.nodes@[from.node as int] is External || forall|e: int|
            0 <= e < self.edges@.len() && (#[trigger] self.edges@[e]).destination == from.node && !(
            self.nodes@[from.node as int] == DagNode::RegularTransfer && self.edges@[e].source
                == from.node) ==> self.settled(from.node as int, from.relation).composes(
                self.edges@[e].relation,
            )
    }

    /// A graph over the given nodes and edges.
    pub fn new(
        nodes: Vec<DagNode>,
        edges: Vec<DagEdge>,
        roots: Vec<Option<usize>>,
        domains: Vec<Vec<PositionDomain>>,
    ) -> (r: Self)
        requires
            edges_join(nodes@, edges@),
            domains@.len() == nodes@.len(),
            forall|i: int|
                0 <= i < roots@.len() ==> ((#[trigger] roots@[i]) matches Some(n) ==> n
                    < nodes@.len()),
        ensures
            r.wf(),
            r.nodes == nodes,
            r.edges == edges,
            r.roots == roots,
            r.domains == domains,
    {
        let incoming = index_incoming(&nodes, &edges);
        DependencyDag { nodes, edges, roots, domains, incoming }
    }
}

/// Finds the edges that lead to every node, looking at each edge once.
fn index_incoming(nodes: &Vec<DagNode>, edges: &Vec<DagEdge>) -> (r: Vec<Vec<usize>>)
    requires
        edges_join(nodes@, edges@),
    ensures
        r@.len() == nodes@.len(),
        forall|n: int|
            0 <= n < nodes@.len() ==> leads_to(
                edges@,
                n,
                edges@.len() as int,
                (#[trigger] r@[n])@,
            ),
{
    let mut r: Vec<Vec<usize>> = Vec::new();
    let mut n: usize = 0;
    while n < nodes.len()
        invariant
            n <= nodes.len(),
            r@.len() == n,
            forall|k: int| 0 <= k < n ==> leads_to(edges@, k, 0, (#[trigger] r@[k])@),
        decreases nodes.len() - n,
    {
        r.push(Vec::new());
        n = n + 1;
    }
    let mut e: usize = 0;
    while e < edges.len()
        invariant
            e <= edges.len(),
            edges_join(nodes@, edges@),
            r@.len() == nodes@.len(),
            forall|k: int|
                0 <= k < nodes@.len() ==> leads_to(edges@, k, e as int, (#[trigger] r@[k])@),
        decreases edges.len() - e,
    {
        let ghost before = r@;
        assert(edges@[e as int].destination < nodes@.len());
        let destination: usize = edges[e].destination;
        let ghost row0 = r@[destination as int]@;
        r[destination].push(e);
        proof {
            assert forall|k: int| 0 <= k < nodes@.len() implies leads_to(
                edges@,
                k,
                e as int + 1,
                (#[trigger] r@[k])@,
            ) by {
                assert(leads_to(edges@, k, e as int, before[k]@));
                if k == destination {
                    let row = r@[k]@;
                    assert(row =~= row0.push(e));
                    assert forall|x: int| 0 <= x < e + 1 && (#[trigger] edges@[x]).destination == k implies row.contains(x as usize) by {
                        if x < e {
                            let m = choose|m: int| 0 <= m < row0.len() && row0[m] == x as usize;
                            assert(row[m] == x as usize);
                        } else {
                            assert(row[row0.len() as int] == x as usize);
                        }
                    }
                } else {
                    assert(r@[k] == before[k]);
                }
            }
        }
        e = e + 1;
    }
    r
}

/// A step of the graph from `from`, along edge `e`.
pub open spec fn dag_step(
    dag: DependencyDag,
    nodes: Seq<PathNode>,
    from: Visit,
    to: Visit,
    guard: Seq<Choice>,
    e: int,
) -> bool {
    let edge = dag.edges@[e];
    &&& 0 <= e < dag.edges@.len()
    &&& edge.destination == from.node
    &&& !(dag.nodes@[from.node as int] is External)
    &&& !(dag.nodes@[from.node as int] == DagNode::RegularTransfer && edge.source == from.node)
    &&& guard == arena::path_of(nodes, edge.condition.node as int)
    &&& to == (Visit {
        node: edge.source,
        entry: from.entry,
        relation: dag.settled(from.node as int, from.relation).then_by(edge.relation),
    })
    &&& to != from
}

impl FlowSystem for DependencyDag {
    open spec fn step(&self, nodes: Seq<PathNode>, from: Visit, to: Visit, guard: Seq<Choice>) -> bool {
        exists|e: int| #[trigger] dag_step(*self, nodes, from, to, guard, e)
    }

    open spec fn fits(&self, nodes: Seq<PathNode>, from: Visit) -> bool {
        self.offsets_fit(from)
    }

    open spec fn overflows(&self, nodes: Seq<PathNode>, from: Visit) -> bool {
        !self.offsets_fit(from)
    }

    open spec fn system_wf(&self, nodes: Seq<PathNode>) -> bool {
        self.wf() && self.forward() && self.guarded_in(nodes)
    }

    open spec fn size(&self) -> nat {
        self.nodes@.len()
    }

    proof fn step_descends(
        &self,
        nodes: Seq<PathNode>,
        from: Visit,
        to: Visit,
        guard: Seq<Choice>,
    ) {
        let e = choose|e: int| #[trigger] dag_step(*self, nodes, from, to, guard, e);
        let edge = self.edges@[e];
        assert(edge.condition.node < nodes.len());
        arena::arena_paths_wf(nodes, edge.condition.node as int);
        if edge.source == edge.destination {
            assert(idle_axis(edge.relation.array) && idle_axis(edge.relation.packed));
        }
    }

    proof fn step_stable(&self, a: Seq<PathNode>, b: Seq<PathNode>) {
        assert forall|e: int| 0 <= e < self.edges@.len() implies (#[trigger] self.edges@[e]).condition.node < b.len()
            && arena::path_of(b, self.edges@[e].condition.node as int) == arena::path_of(a, self.edges@[e].condition.node as int) by {
            arena::growth_keeps_paths(a, b, self.edges@[e].condition.node as int);
        }
        assert forall|from: Visit, to: Visit, guard: Seq<Choice>| from.node < self.size() implies #[trigger] self.step(
            a,
            from,
            to,
            guard,
        ) == self.step(b, from, to, guard) by {
            if self.step(a, from, to, guard) {
                let e = choose|e: int| #[trigger] dag_step(*self, a, from, to, guard, e);
                assert(dag_step(*self, b, from, to, guard, e));
            }
            if self.step(b, from, to, guard) {
                let e = choose|e: int| #[trigger] dag_step(*self, b, from, to, guard, e);
                assert(dag_step(*self, a, from, to, guard, e));
            }
        }
    }

    fn successors(&self, arena: &mut PathArena, from: Visit) -> (r: Option<Vec<Step>>) {
        let mut steps: Vec<Step> = Vec::new();
        let node = self.nodes[from.node];
        if let DagNode::External(_) = node {
            proof {
                assert forall|to: Visit, guard: Seq<Choice>| !#[trigger] self.step(arena@, from, to, guard) by {}
            }
            return Some(steps);
        }
        let regular = node == DagNode::RegularTransfer;
        let relation = self.settle(from.node, from.relation);
        let row = &self.incoming[from.node];
        let mut k: usize = 0;
        while k < row.len()
            invariant
                k <= row.len(),
                self.system_wf(arena@),
                arena.wf(),
                *arena == *old(arena),
                from.node < self.size(),
                *row == self.incoming@[from.node as int],
                leads_to(self.edges@, from.node as int, self.edges@.len() as int, row@),
                regular == (self.nodes@[from.node as int] == DagNode::RegularTransfer),
                !(self.nodes@[from.node as int] is External),
                relation == self.settled(from.node as int, from.relation),
                forall|i: int|
                    0 <= i < steps@.len() ==> (#[trigger] steps@[i]).condition.node < arena@.len()
                        && self.step(
                        arena@,
                        from,
                        steps@[i].to,
                        arena::path_of(arena@, steps@[i].condition.node as int),
                    ),
                forall|m: int, to: Visit, guard: Seq<Choice>|
                    0 <= m < k && #[trigger] dag_step(
                        *self,
                        arena@,
                        from,
                        to,
                        guard,
                        row@[m] as int,
                    ) ==> exists|i: int|
                        0 <= i < steps@.len() && (#[trigger] steps@[i]).to == to && arena::path_of(
                            arena@,
                            steps@[i].condition.node as int,
                        ) == guard,
                forall|m: int|
                    0 <= m < k ==> {
                        let edge = self.edges@[(#[trigger] row@[m]) as int];
                        (regular && edge.source == from.node) || relation.composes(edge.relation)
                    },
            decreases row.len() - k,
        {
            let index: usize = row[k];
            assert(row@[k as int] < self.edges@.len());
            let edge = self.edges[index];
            let ghost before = steps@;
            if !(regular && edge.source == from.node) {
                match relation.checked_compose(edge.relation) {
                    None => {
                        assert(self.edges@[index as int].destination == from.node);
                        return None;
                    },
                    Some(next) => {
                        let to = Visit { node: edge.source, entry: from.entry, relation: next };
                        if to != from {
                            steps.push(Step { to, condition: edge.condition });
                            proof {
                                assert(self.edges@[index as int].condition.node < arena@.len());
                                assert(dag_step(*self, arena@, from, to, arena::path_of(arena@, edge.condition.node as int), index as int));
                            }
                        }
                    },
                }
            }
            proof {
                assert forall|m: int, to: Visit, guard: Seq<Choice>|
                    0 <= m < k + 1 && #[trigger] dag_step(*self, arena@, from, to, guard, row@[m] as int) implies exists|i: int|
                    0 <= i < steps@.len() && (#[trigger] steps@[i]).to == to && arena::path_of(
                        arena@,
                        steps@[i].condition.node as int,
                    ) == guard by {
                    if m < k {
                        let i = choose|i: int| 0 <= i < before.len() && (#[trigger] before[i]).to == to && arena::path_of(
                            arena@,
                            before[i].condition.node as int,
                        ) == guard;
                        assert(steps@[i] == before[i]);
                    } else {
                        assert(steps@[before.len() as int].to == to);
                    }
                }
                assert forall|i: int| 0 <= i < steps@.len() implies (#[trigger] steps@[i]).condition.node < arena@.len()
                    && self.step(arena@, from, steps@[i].to, arena::path_of(arena@, steps@[i].condition.node as int)) by {
                    if i < before.len() {
                        assert(steps@[i] == before[i]);
                    }
                }
            }
            k = k + 1;
        }
        proof {
            assert forall|to: Visit, guard: Seq<Choice>| #[trigger] self.step(arena@, from, to, guard) implies exists|i: int|
                0 <= i < steps@.len() && (#[trigger] steps@[i]).to == to && arena::path_of(
                    arena@,
                    steps@[i].condition.node as int,
                ) == guard by {
                let e = choose|e: int| #[trigger] dag_step(*self, arena@, from, to, guard, e);
                assert(row@.contains(e as usize));
                let m = choose|m: int| 0 <= m < row@.len() && row@[m] == e as usize;
                lemma_edge_index(self.edges, e);
                assert(dag_step(*self, arena@, from, to, guard, row@[m] as int));
            }
            assert forall|e: int|
                0 <= e < self.edges@.len() && (#[trigger] self.edges@[e]).destination == from.node && !(regular && self.edges@[e].source == from.node) implies relation.composes(self.edges@[e].relation) by {
                assert(row@.contains(e as usize));
                let m = choose|m: int| 0 <= m < row@.len() && row@[m] == e as usize;
                lemma_edge_index(self.edges, e);
            }
        }
        Some(steps)
    }
}

pub(crate) proof fn lemma_edge_index(edges: Vec<DagEdge>, e: int)
    requires
        0 <= e < edges@.len(),
    ensures
        (e as usize) as int == e,
{
    assert(edges@.len() == edges.len());
}

impl DependencyDag {
    /// Accounts for the repetition at a node.
    fn settle(&self, node: usize, relation: PositionRelation) -> (r: PositionRelation)
        requires
            self.wf(),
            node < self.nodes@.len(),
        ensures
            r == self.settled(node as int, relation),
    {
        if self.nodes[node] != DagNode::RegularTransfer {
            return relation;
        }
        let mut r = relation;
        let row = &self.incoming[node];
        let ghost mut array = false;
        let ghost mut packed = false;
        let mut k: usize = 0;
        while k < row.len()
            invariant
                k <= row.len(),
                self.wf(),
                node < self.nodes@.len(),
                leads_to(self.edges@, node as int, self.edges@.len() as int, row@),
                array ==> self.repeats(node as int, true),
                packed ==> self.repeats(node as int, false),
                r.array == (if array {
                    None
                } else {
                    relation.array
                }),
                r.packed == (if packed {
                    None
                } else {
                    relation.packed
                }),
                forall|m: int|
                    0 <= m < k ==> {
                        let edge = self.edges@[(#[trigger] row@[m]) as int];
                        edge.source == node ==> (edge.relation.array is Some
                            && edge.relation.array->0 != 0 ==> array) && (edge.relation.packed is Some
                            && edge.relation.packed->0 != 0 ==> packed)
                    },
            decreases row.len() - k,
        {
            let index: usize = row[k];
            assert(row@[k as int] < self.edges@.len());
            let edge = self.edges[index];
            if edge.source == node {
                assert(self.edges@[index as int] == edge);
                r = widen_repeated_axis(r, edge.relation);
                proof {
                    if edge.relation.array is Some && edge.relation.array->0 != 0 {
                        array = true;
                    }
                    if edge.relation.packed is Some && edge.relation.packed->0 != 0 {
                        packed = true;
                    }
                }
            }
            k = k + 1;
        }
        proof {
            if self.repeats(node as int, true) {
                let e = choose|e: int| 0 <= e < self.edges@.len() && {
                    let edge = #[trigger] self.edges@[e];
                    &&& edge.source == node
                    &&& edge.destination == node
                    &&& edge.relation.array is Some && edge.relation.array->0 != 0
                };
                lemma_edge_index(self.edges, e);
                let m = choose|m: int| 0 <= m < row@.len() && row@[m] == e as usize;
                assert(self.edges@[row@[m] as int].source == node);
            }
            if self.repeats(node as int, false) {
                let e = choose|e: int| 0 <= e < self.edges@.len() && {
                    let edge = #[trigger] self.edges@[e];
                    &&& edge.source == node
                    &&& edge.destination == node
                    &&& edge.relation.packed is Some && edge.relation.packed->0 != 0
                };
                lemma_edge_index(self.edges, e);
                let m = choose|m: int| 0 <= m < row@.len() && row@[m] == e as usize;
                assert(self.edges@[row@[m] as int].source == node);
            }
        }
        r
    }
}

/// `v` is reached and stands for the external value `key` seen through `relation`.
pub open spec fn external_at(
    dag: DependencyDag,
    reached: Map<Visit, Seq<Choice>>,
    v: Visit,
    key: u64,
    relation: PositionRelation,
) -> bool {
    &&& reached.contains_key(v)
    &&& v.node < dag.nodes@.len()
    &&& dag.nodes@[v.node as int] == DagNode::External(key)
    &&& v.relation == relation
}

/// The list names exactly the external values that are reached, each under the condition that
/// leaves an arm open when one of its visits does.
pub open spec fn lists_externals(
    dag: DependencyDag,
    reached: Map<Visit, Seq<Choice>>,
    list: Seq<Source>,
    nodes: Seq<PathNode>,
) -> bool {
    &&& sources::sources_valid(list, nodes)
    &&& sources::sources_distinct(list)
    &&& forall|key: u64, relation: PositionRelation| #[trigger]
        sources::names(list, key, relation) <==> exists|v: Visit| #[trigger]
            external_at(dag, reached, v, key, relation)
    &&& forall|key: u64, relation: PositionRelation, branch: BranchId, arm: int|
        0 <= arm < branch.arms ==> (#[trigger] sources::opens(
            list,
            nodes,
            key,
            relation,
            branch,
            arm,
        ) <==> exists|v: Visit| #[trigger]
            external_at(dag, reached, v, key, relation) && path::allows(reached[v], branch, arm))
}

/// Where the walk over a graph starts.
pub open spec fn dag_start(root: usize) -> Visit {
    Visit { node: root, entry: false, relation: PositionRelation::identity() }
}

/// The external values that `root` depends on, with their relations and conditions. There is no
/// answer when an offset on the way does not fit.
pub fn dependency_dag_external_sources(
    dag: &DependencyDag,
    arena: &mut PathArena,
    root: Option<usize>,
) -> (r: Option<Vec<Source>>)
    requires
        old(arena).wf(),
        dag.system_wf(old(arena)@),
        root matches Some(n) ==> n < dag.nodes@.len(),
    ensures
        final(arena).wf(),
        arena::grows(old(arena)@, final(arena)@),
        root is None ==> (r matches Some(list) && list@.len() == 0),
        root matches Some(n) ==> (r matches Some(list) ==> exists|
            reached: Map<Visit, Seq<Choice>>,
        | #[trigger]
            reach::is_solution(*dag, old(arena)@, dag_start(n), reached) && lists_externals(
                *dag,
                reached,
                list@,
                final(arena)@,
            ) && forall|v: Visit| reached.contains_key(v) ==> #[trigger] dag.offsets_fit(v)),
        r is None ==> root is Some && exists|v: Visit| #[trigger]
            reach::walkable(*dag, old(arena)@, dag_start(root->0), v) && v.node < dag.size()
                && !dag.offsets_fit(v),
{
    let start_node = match root {
        None => {
            return Some(Vec::new());
        },
        Some(n) => n,
    };
    let start = Visit { node: start_node, entry: false, relation: PositionRelation::default() };
    let ghost nodes0 = arena@;
    let visits = match solve(dag, arena, start) {
        None => {
            return None;
        },
        Some(visits) => visits,
    };
    let ghost reached = choose|reached: Map<Visit, Seq<Choice>>| #[trigger]
        reach::is_solution(*dag, nodes0, start, reached) && reach::represents(
            visits@,
            arena@,
            reached,
        ) && forall|v: Visit| reached.contains_key(v) ==> #[trigger] dag.fits(nodes0, v);
    proof {
        assert forall|v: Visit| reached.contains_key(v) implies #[trigger] dag.offsets_fit(v) by {
            assert(dag.fits(nodes0, v));
        }
    }
    let ghost nodes1 = arena@;
    let mut list = SourceList::new();
    let mut i: usize = 0;
    while i < visits.len()
        invariant
            i <= visits.len(),
            dag.wf(),
            arena.wf(),
            arena::grows(nodes0, nodes1),
            arena::grows(nodes1, arena@),
            reach::represents(visits@, nodes1, reached),
            list.wf(arena@),
            forall|key: u64, relation: PositionRelation| #[trigger]
                sources::names(list.list@, key, relation) <==> exists|k: int|
                    0 <= k < i && external_at(
                        *dag,
                        reached,
                        (#[trigger] visits@[k]).visit,
                        key,
                        relation,
                    ),
            forall|key: u64, relation: PositionRelation, branch: BranchId, arm: int|
                0 <= arm < branch.arms ==> (#[trigger] sources::opens(
                    list.list@,
                    arena@,
                    key,
                    relation,
                    branch,
                    arm,
                ) <==> exists|k: int|
                    0 <= k < i && external_at(
                        *dag,
                        reached,
                        (#[trigger] visits@[k]).visit,
                        key,
                        relation,
                    ) && path::allows(reached[visits@[k].visit], branch, arm)),
        decreases visits.len() - i,
    {
        let found = visits[i];
        let ghost before = list.list@;
        let ghost nodes2 = arena@;
        proof {
            assert(found.condition.node < nodes1.len());
            arena::growth_keeps_paths(nodes1, arena@, found.condition.node as int);
        }
        if found.visit.node < dag.nodes.len() {
            if let DagNode::External(key) = dag.nodes[found.visit.node] {
                list.merge_source(
                    arena,
                    Source { key, relation: found.visit.relation, condition: found.condition },
                );
                proof {
                    arena::growth_is_transitive(nodes1, nodes2, arena@);
                    assert(external_at(*dag, reached, found.visit, key, found.visit.relation));
                }
            }
        }
        proof {
            lemma_externals_next(*dag, reached, visits@, i as int);
        }
        i = i + 1;
    }
    proof {
        arena::growth_is_transitive(nodes0, nodes1, arena@);
        assert forall|key: u64, relation: PositionRelation| #[trigger] sources::names(list.list@, key, relation) <==> exists|v: Visit| #[trigger] external_at(*dag, reached, v, key, relation) by {
            if exists|v: Visit| #[trigger] external_at(*dag, reached, v, key, relation) {
                let v = choose|v: Visit| #[trigger] external_at(*dag, reached, v, key, relation);
                let k = choose|k: int| 0 <= k < visits@.len() && (#[trigger] visits@[k]).visit == v;
                assert(external_at(*dag, reached, visits@[k].visit, key, relation));
            }
        }
        assert forall|key: u64, relation: PositionRelation, branch: BranchId, arm: int| 0 <= arm < branch.arms implies (#[trigger] sources::opens(list.list@, arena@, key, relation, branch, arm) <==> exists|v: Visit| #[trigger] external_at(*dag, reached, v, key, relation) && path::allows(reached[v], branch, arm)) by {
            if exists|v: Visit| #[trigger] external_at(*dag, reached, v, key, relation) && path::allows(reached[v], branch, arm) {
                let v = choose|v: Visit| #[trigger] external_at(*dag, reached, v, key, relation) && path::allows(reached[v], branch, arm);
                let k = choose|k: int| 0 <= k < visits@.len() && (#[trigger] visits@[k]).visit == v;
                assert(external_at(*dag, reached, visits@[k].visit, key, relation));
            }
        }
        assert(lists_externals(*dag, reached, list.list@, arena@));
        assert(start == dag_start(start_node));
    }
    Some(list.list)
}

/// What one more visit adds to the external values seen.
proof fn lemma_externals_next(
    dag: DependencyDag,
    reached: Map<Visit, Seq<Choice>>,
    visits: Seq<Reach>,
    i: int,
)
    requires
        0 <= i < visits.len(),
    ensures
        forall|key: u64, relation: PositionRelation|
            (exists|k: int|
                0 <= k < i + 1 && #[trigger] external_at(
                    dag,
                    reached,
                    visits[k].visit,
                    key,
                    relation,
                )) <==> (exists|k: int|
                0 <= k < i && #[trigger] external_at(
                    dag,
                    reached,
                    visits[k].visit,
                    key,
                    relation,
                )) || #[trigger] external_at(dag, reached, visits[i].visit, key, relation),
{
}

} // verus!
