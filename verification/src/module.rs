//! The graph of a module: the graphs of its procedures, and what runs through its instances.
use vstd::prelude::*;
use std::collections::HashSet;
use crate::analysis;
use crate::analysis::analyze;
use crate::arena;
use crate::arena::PathArena;
use crate::assign::SummaryWrite;
use crate::collect;
use crate::collect::{all_have_bits, collect_module_accesses, split_accesses, ModuleAccesses};
use crate::feedthrough::Joint;
use crate::footprint;
use crate::footprint::process_write_footprint;
use crate::graph;
use crate::graph::{DependencyGraph, GraphEdge, WrittenNode};
use crate::instance;
use crate::instance::{summary_parent_accesses, PortDirection};
use crate::ir::Statement;
use crate::machine::{Evaluated, Machine};
use crate::masks;
use crate::masks::AssignedMasks;
use crate::order;
use crate::partition;
use crate::partition::{BitPartition, NodeKey, RegionAccess};
use crate::path::BranchId;
use crate::remap::BranchRemapper;
use crate::requests;
use crate::requests::remap_module_summary_branches;
use crate::span::PackedSpan;
use crate::summarize;
use crate::summarize::Summarized;
use crate::targets::all_nodes;
use crate::through;
use crate::through::{add_instance_feedthrough, Inside, Instance, ModuleSummary, RegionDependency, SummaryNodeKind, Through};
use crate::values::{Function, Program};
use crate::wiring;
use crate::wiring::{connect_instance, Connected, PortWiring};

verus! {

/// A procedure of a module.
pub struct Procedure {
    pub statements: Vec<Statement>,
    /// The number under which its branches are kept.
    pub namespace: usize,
    /// What its declaration assigns.
    pub owned: Vec<AssignedMasks>,
}

/// What the procedures of a module have in common.
pub struct ModuleParts<'a> {
    pub partition: &'a BitPartition,
    pub nodes: &'a Vec<NodeKey>,
    pub bodies: &'a Vec<Vec<Statement>>,
    pub functions: &'a Vec<Function>,
    /// The variables that belong to functions.
    pub locals: &'a Vec<u64>,
    /// The variables whose nodes are in the graph.
    pub visible: &'a HashSet<u64>,
}

/// The graph, as far as it is built.
pub struct ModuleGraph {
    pub graph: DependencyGraph,
    pub arena: PathArena,
    /// Nothing was met of which nothing is known.
    pub complete: bool,
}

impl<'a> ModuleParts<'a> {
    pub open spec fn wf(self) -> bool {
        &&& self.partition.wf()
        &&& order::strictly_sorted(self.nodes@)
        &&& forall|key: NodeKey| #[trigger] self.nodes@.contains(key) <==> self.partition.is_node(key)
        &&& self.functions@.len() == self.bodies@.len()
    }

    /// The program of a procedure: it may write what its statements name and what its declaration assigns.
    pub open spec fn gives(self, procedure: Procedure, p: Program<'a>) -> bool {
        &&& p.partition == self.partition
        &&& p.nodes == self.nodes
        &&& p.bodies == self.bodies
        &&& p.functions == self.functions
        &&& p.locals == self.locals
        &&& order::strictly_sorted(p.owned@)
        &&& forall|key: NodeKey| #[trigger]
            p.owned@.contains(key) <==> footprint::touches(
                *self.partition,
                footprint::all_written(self.bodies@, collect::statements_found(false, procedure.statements@)),
                key,
            ) || footprint::owns(*self.partition, procedure.owned@, key)
    }
}

impl ModuleGraph {
    pub open spec fn wf(self, partition: BitPartition) -> bool {
        self.graph.wf() && self.graph.placed_in(partition) && self.arena.wf()
    }
}

/// The nodes that a procedure writes, with the roots of their values.
pub open spec fn written_nodes(nodes: Seq<NodeKey>, writes: Seq<SummaryWrite>) -> Seq<WrittenNode> {
    Seq::new(writes.len(), |i: int| WrittenNode { key: nodes[writes[i].key as int], root: writes[i].root })
}

/// Marks the analysis of a procedure.
pub open spec fn way_procedure<'a>(p: Program<'a>, start: Machine, n: Machine, e: Evaluated, found: Summarized) -> bool {
    true
}

/// Marks a graph on the way.
pub open spec fn way_module(m: ModuleGraph) -> bool {
    true
}

/// The graph of a procedure is in the graph of the module.
pub open spec fn placed<'a>(parts: ModuleParts<'a>, found: Summarized, a: DependencyGraph, b: DependencyGraph) -> bool {
    let written = written_nodes(parts.nodes@, found.writes@);
    let first = graph::first_shown(written, parts.visible@, *parts.partition, written.len() as int);
    &&& graph::nodes_kept(a.nodes@, b.nodes@)
    &&& first is None ==> b.nodes@ == a.nodes@ && b.edges@ == a.edges@
    &&& first is Some ==> exists|mapped: Seq<Option<usize>>, roots: Seq<GraphEdge>| #[trigger]
        graph::adds_procedure(a, b, found.graph, parts.nodes@, written, parts.visible@, *parts.partition, mapped, roots)
}

/// The procedure was analysed, and its graph was added.
pub open spec fn added<'a>(parts: ModuleParts<'a>, procedure: Procedure, a: ModuleGraph, b: ModuleGraph) -> bool {
    exists|p: Program<'a>, start: Machine, n: Machine, e: Evaluated, found: Summarized| #[trigger]
        way_procedure(p, start, n, e, found) && parts.gives(procedure, p) && analysis::evaluates(p, procedure.statements@, procedure.namespace, a.arena, start, n, e)
            && analysis::numbers_fit(p, n) && analysis::graph_of(p, n, b.arena, found) && placed(parts, found, a.graph, b.graph)
            && b.complete == (a.complete && n.complete)
}

/// The procedure has no graph that can be added: some number does not fit.
pub open spec fn cannot_add<'a>(parts: ModuleParts<'a>, procedure: Procedure, a: ModuleGraph) -> bool {
    exists|p: Program<'a>, start: Machine, n: Machine, e: Evaluated, found: Summarized| #[trigger]
        way_procedure(p, start, n, e, found) && parts.gives(procedure, p) && analysis::evaluates(p, procedure.statements@, procedure.namespace, a.arena, start, n, e)
            && !analysis::numbers_fit(p, n)
}

/// The first procedures were added, in order.
pub open spec fn added_all<'a>(parts: ModuleParts<'a>, list: Seq<Procedure>, count: int, a: ModuleGraph, b: ModuleGraph) -> bool
    decreases count,
{
    if count <= 0 {
        b == a
    } else {
        exists|m: ModuleGraph| #[trigger] way_module(m) && added_all(parts, list, count - 1, a, m) && added(parts, list[count - 1], m, b)
    }
}

fn find_written(nodes: &Vec<NodeKey>, found: &Summarized) -> (r: Vec<WrittenNode>)
    requires
        summarize::names_known(nodes@.len() as int, *found),
    ensures
        r@ == written_nodes(nodes@, found.writes@),
{
    let mut r: Vec<WrittenNode> = Vec::new();
    let mut i: usize = 0;
    while i < found.writes.len()
        invariant
            i <= found.writes@.len(),
            summarize::names_known(nodes@.len() as int, *found),
            r@.len() == i,
            forall|k: int| 0 <= k < i ==> (#[trigger] r@[k]) == (WrittenNode { key: nodes@[found.writes@[k].key as int], root: found.writes@[k].root }),
        decreases found.writes@.len() - i,
    {
        assert(found.writes@[i as int].key < nodes@.len());
        let count: usize = nodes.len();
        let at: u64 = found.writes[i].key;
        assert(at < count);
        r.push(WrittenNode { key: nodes[at as usize], root: found.writes[i].root });
        i = i + 1;
    }
    assert(r@ =~= written_nodes(nodes@, found.writes@));
    r
}

impl ModuleGraph {
    /// Analyses a procedure and adds its graph. There is no answer where it has none that can be added.
    pub fn add_procedure(self, parts: &ModuleParts, procedure: &Procedure) -> (r: Option<ModuleGraph>)
        requires
            parts.wf(),
            self.wf(*parts.partition),
        ensures
            match r {
                Some(after) => after.wf(*parts.partition) && arena::grows(self.arena@, after.arena@) && added(*parts, *procedure, self, after),
                None => cannot_add(*parts, *procedure, self),
            },
    {
        let ghost before = self;
        let owned = process_write_footprint(parts.partition, parts.bodies, &procedure.statements, &procedure.owned);
        let p = Program {
            partition: parts.partition,
            nodes: parts.nodes,
            bodies: parts.bodies,
            functions: parts.functions,
            owned: &owned,
            locals: parts.locals,
        };
        proof {
            assert forall|key: NodeKey| #[trigger] p.owned@.contains(key) implies p.partition.is_node(key) by {
                lemma_written_is_node(*parts.partition, footprint::all_written(parts.bodies@, collect::statements_found(false, procedure.statements@)), procedure.owned@, key);
            }
            assert(parts.gives(*procedure, p));
        }
        let ModuleGraph { graph, arena, complete } = self;
        let mut graph = graph;
        let (found, last) = analyze(&p, &procedure.statements, procedure.namespace, arena);
        let ghost (start, n, e) = choose|start: Machine, n: Machine, e: Evaluated| #[trigger]
            analysis::way_analysis(start, n, e) && analysis::evaluates(p, procedure.statements@, procedure.namespace, before.arena, start, n, e) && (found is None
                <==> !analysis::numbers_fit(p, n)) && (found matches Some(found) ==> found.complete == n.complete && analysis::graph_of(p, n, last, found.graph));
        match found {
            None => {
                proof {
                    let none: Summarized = arbitrary();
                    assert(way_procedure(p, start, n, e, none));
                }
                None
            },
            Some(found) => {
                assert(way_procedure(p, start, n, e, found.graph));
                let written = find_written(parts.nodes, &found.graph);
                proof {
                    assert forall|i: int| 0 <= i < written@.len() implies ((#[trigger] written@[i]).root matches Some(root) ==> root
                        < found.graph.graph.nodes@.len()) by {
                        assert(written@[i].root == found.graph.writes@[i].root);
                    }
                }
                graph.add_procedure_graph(parts.partition, &found.graph.graph, parts.nodes, &written, parts.visible);
                let after = ModuleGraph { graph, arena: last, complete: complete && found.complete };
                proof {
                    assert(placed(*parts, found.graph, before.graph, after.graph));
                    assert(added(*parts, *procedure, before, after));
                }
                Some(after)
            },
        }
    }
}

proof fn lemma_written_is_node(partition: BitPartition, accesses: Set<RegionAccess>, owned: Seq<AssignedMasks>, key: NodeKey)
    requires
        footprint::touches(partition, accesses, key) || footprint::owns(partition, owned, key),
    ensures
        partition.is_node(key),
{
    if footprint::touches(partition, accesses, key) {
        let a = choose|a: RegionAccess| #[trigger]
            accesses.contains(a) && a.packed.wf() && partition.selects(a.id, a.array, a.packed, key);
        assert(partition.selects(a.id, a.array, a.packed, key));
    } else {
        let i = choose|i: int| 0 <= i < owned.len() && masks::marked(partition, #[trigger] owned[i], key);
        assert(instance::key_span_of(partition, key) is Some);
    }
}

/// The graph of the procedures of a module, added in order from an empty one. `known` says whether all
/// of the module can be known without them. There is no answer where some procedure has no graph that
/// can be added.
pub fn build_procedure_graphs(parts: &ModuleParts, procedures: &Vec<Procedure>, known: bool, arena: PathArena) -> (r: Option<ModuleGraph>)
    requires
        parts.wf(),
        arena.wf(),
    ensures
        exists|start: ModuleGraph| #[trigger]
            way_module(start) && start.graph.nodes@.len() == 0 && start.graph.edges@.len() == 0 && start.arena == arena && start.complete == known && match r {
                Some(after) => added_all(*parts, procedures@, procedures@.len() as int, start, after),
                None => exists|at: int, m: ModuleGraph|
                    0 <= at < procedures@.len() && #[trigger] added_all(*parts, procedures@, at, start, m) && cannot_add(*parts, procedures@[at], m),
            },
        r matches Some(after) ==> after.wf(*parts.partition) && arena::grows(arena@, after.arena@),
{
    let mut now = ModuleGraph { graph: DependencyGraph::new(), arena, complete: known };
    let ghost start = now;
    let mut i: usize = 0;
    while i < procedures.len()
        invariant
            i <= procedures@.len(),
            parts.wf(),
            now.wf(*parts.partition),
            arena::grows(arena@, now.arena@),
            way_module(start),
            start.graph.nodes@.len() == 0,
            start.graph.edges@.len() == 0,
            start.arena == arena,
            start.complete == known,
            added_all(*parts, procedures@, i as int, start, now),
        decreases procedures@.len() - i,
    {
        let ghost m = now;
        match now.add_procedure(parts, &procedures[i]) {
            None => {
                assert(added_all(*parts, procedures@, i as int, start, m) && cannot_add(*parts, procedures@[i as int], m));
                return None;
            },
            Some(after) => {
                now = after;
            },
        }
        proof {
            arena::growth_is_transitive(arena@, m.arena@, now.arena@);
            let c = i + 1;
            assert(way_module(m));
            assert(added_all(*parts, procedures@, c - 1, start, m));
            assert(added_all(*parts, procedures@, c, start, now));
        }
        i = i + 1;
    }
    Some(now)
}

/// The graph of a module is complete only where all of its procedures were analysed completely.
pub proof fn all_procedures_are_complete<'a>(parts: ModuleParts<'a>, list: Seq<Procedure>, count: int, a: ModuleGraph, b: ModuleGraph)
    requires
        0 <= count <= list.len(),
        added_all(parts, list, count, a, b),
        b.complete,
    ensures
        a.complete,
        forall|i: int| 0 <= i < count ==> #[trigger] analysed_completely(parts, list[i]),
    decreases count,
{
    if count > 0 {
        let m = choose|m: ModuleGraph| #[trigger] way_module(m) && added_all(parts, list, count - 1, a, m) && added(parts, list[count - 1], m, b);
        all_procedures_are_complete(parts, list, count - 1, a, m);
        let (p, start, n, e, found) = choose|p: Program<'a>, start: Machine, n: Machine, e: Evaluated, found: Summarized| #[trigger]
            way_procedure(p, start, n, e, found) && parts.gives(list[count - 1], p) && analysis::evaluates(
                p,
                list[count - 1].statements@,
                list[count - 1].namespace,
                m.arena,
                start,
                n,
                e,
            ) && analysis::numbers_fit(p, n) && analysis::graph_of(p, n, b.arena, found) && placed(parts, found, m.graph, b.graph)
                && b.complete == (m.complete && n.complete);
        assert(way_evaluation(p, m.arena, start, n, e));
        assert(analysed_completely(parts, list[count - 1]));
    }
}

/// Marks the evaluation of a procedure from some conditions.
pub open spec fn way_evaluation<'a>(p: Program<'a>, arena: PathArena, start: Machine, n: Machine, e: Evaluated) -> bool {
    true
}

/// Nothing is met in the procedure of which nothing is known.
pub open spec fn analysed_completely<'a>(parts: ModuleParts<'a>, procedure: Procedure) -> bool {
    exists|p: Program<'a>, arena: PathArena, start: Machine, n: Machine, e: Evaluated| #[trigger]
        way_evaluation(p, arena, start, n, e) && parts.gives(procedure, p) && analysis::evaluates(p, procedure.statements@, procedure.namespace, arena, start, n, e)
            && n.complete
}

/// How a variable of a module can be driven.
#[derive(Clone, Copy, Debug, PartialEq, Eq, Structural)]
pub enum VariableKind {
    /// From both sides of a port.
    Inout,
    Other,
}

/// What is known of a module that was built before.
pub struct KnownSummary {
    pub summary: ModuleSummary,
    /// All of the module was analysed completely.
    pub complete: bool,
}

/// What an instance is one of.
pub enum Component {
    /// Of a module, by its number.
    Module { number: usize, instance: Instance, ports: Vec<PortWiring>, namespace: usize },
    /// Of something of which nothing is known.
    SystemVerilog,
    /// Of an interface: its signals are variables of the module.
    Interface,
}

/// The summary of the module with the number, where it was built before.
pub open spec fn summary_of(summaries: Seq<Option<KnownSummary>>, number: usize) -> Option<KnownSummary> {
    if number < summaries.len() {
        summaries[number as int]
    } else {
        None
    }
}

/// The names that an instance gives to the branches of a summary.
pub open spec fn renames(arena: PathArena, summary: ModuleSummary, namespace: usize, mapping: Seq<(BranchId, BranchId)>) -> bool {
    exists|branches: Seq<BranchId>|
        order::strictly_sorted(branches) && (forall|branch: BranchId| #[trigger] branches.contains(branch) <==> requests::speaks_of(arena, summary, branch))
            && #[trigger] requests::names_branches(branches, namespace, mapping)
}

impl<'a> ModuleParts<'a> {
    /// The program in which the actuals of instances are evaluated: it owns no node.
    pub open spec fn gives_plain(self, p: Program<'a>) -> bool {
        &&& p.partition == self.partition
        &&& p.nodes == self.nodes
        &&& p.bodies == self.bodies
        &&& p.functions == self.functions
        &&& p.locals == self.locals
        &&& p.owned@.len() == 0
    }
}

/// All offsets fit where the instance runs through, under the names that it gives to the branches.
pub open spec fn offsets_fit(through: Through, arena: PathArena, mapping: Seq<(BranchId, BranchId)>) -> bool {
    through.can_enter() && through::summary_fits(through, arena@, mapping)
}

/// The instance and what is known of its module fit each other.
pub open spec fn ready(component: Component, summaries: Seq<Option<KnownSummary>>, arena: PathArena) -> bool {
    component matches Component::Module { number, instance, ports: _, namespace: _ } ==> (summary_of(summaries, number) matches Some(known) ==> {
        &&& known.summary.wf()
        &&& instance.wf(arena@)
        &&& forall|e: int| 0 <= e < known.summary.edges@.len() ==> arena.holds((#[trigger] known.summary.edges@[e]).condition)
    })
}

/// What the instance of a module adds, under the names that it gives to the branches.
pub open spec fn runs_through(
    through: Through,
    dependencies: Seq<RegionDependency>,
    mapping: Seq<(BranchId, BranchId)>,
    a: DependencyGraph,
    arena: PathArena,
    b: ModuleGraph,
) -> bool {
    exists|from: int, inner: Inside, joints: Seq<Joint>|
        #![trigger through::feeds_through(through, mapping, arena@, a.nodes@.len() as int, b.graph, b.arena@, from, inner, joints)]
        through::dependencies_added(through.partition, b.graph.nodes@, dependencies, b.graph.edges@, a.edges@.len() as int, from)
            && through::feeds_through(through, mapping, arena@, a.nodes@.len() as int, b.graph, b.arena@, from, inner, joints)
}

/// What a connected instance adds is in the graph; there is none where an offset does not fit.
pub open spec fn fed(partition: BitPartition, known: KnownSummary, namespace: usize, connected: Connected, a: ModuleGraph, between: PathArena, r: Option<ModuleGraph>) -> bool {
    let through = Through { instance: connected.instance, summary: known.summary, partition };
    exists|mapping: Seq<(BranchId, BranchId)>| #[trigger]
        renames(between, known.summary, namespace, mapping) && match r {
            Some(b) => offsets_fit(through, between, mapping) && fed_by(through, known, connected, mapping, a, between, b),
            None => !offsets_fit(through, between, mapping),
        }
}

pub open spec fn fed_by(through: Through, known: KnownSummary, connected: Connected, mapping: Seq<(BranchId, BranchId)>, a: ModuleGraph, between: PathArena, b: ModuleGraph) -> bool {
    &&& b.complete == (a.complete && known.complete && connected.complete)
    &&& graph::nodes_kept(a.graph.nodes@, b.graph.nodes@)
    &&& b.graph.edges@.len() >= a.graph.edges@.len()
    &&& b.graph.edges@.take(a.graph.edges@.len() as int) == a.graph.edges@
    &&& runs_through(through, connected.dependencies@, mapping, a.graph, between, b)
}

/// Marks how an instance was connected.
pub open spec fn way_component<'a>(p: Program<'a>, connected: Option<Connected>, between: PathArena) -> bool {
    true
}

/// The instance is connected, and what it adds is in the graph; there is none where it cannot be connected.
/// The graph is not complete where nothing is known of the instance.
pub open spec fn joined<'a>(parts: ModuleParts<'a>, component: Component, summaries: Seq<Option<KnownSummary>>, a: ModuleGraph, r: Option<ModuleGraph>) -> bool {
    match component {
        Component::Module { number, instance, ports, namespace } => match summary_of(summaries, number) {
            None => r == Some(ModuleGraph { complete: false, ..a }),
            Some(known) => exists|p: Program<'a>, connected: Option<Connected>, between: PathArena| #[trigger]
                way_component(p, connected, between) && parts.gives_plain(p) && wiring::instance_connected(
                    p,
                    instance,
                    ports@,
                    known.summary,
                    a.arena,
                    between,
                    connected,
                ) && match connected {
                    Some(connected) => fed(*parts.partition, known, namespace, connected, a, between, r),
                    None => r is None,
                },
        },
        Component::SystemVerilog => r == Some(ModuleGraph { complete: false, ..a }),
        Component::Interface => r == Some(a),
    }
}

/// The first instances were added, in order.
pub open spec fn joined_all<'a>(parts: ModuleParts<'a>, list: Seq<Component>, summaries: Seq<Option<KnownSummary>>, count: int, a: ModuleGraph, b: ModuleGraph) -> bool
    decreases count,
{
    if count <= 0 {
        b == a
    } else {
        exists|m: ModuleGraph| #[trigger]
            way_module(m) && joined_all(parts, list, summaries, count - 1, a, m) && joined(parts, list[count - 1], summaries, m, Some(b))
    }
}

/// Adds what a connected instance adds. There is no answer where an offset does not fit.
fn feed(graph: DependencyGraph, complete: bool, partition: &BitPartition, known: &KnownSummary, namespace: usize, connected: &Connected, arena: PathArena) -> (r: Option<ModuleGraph>)
    requires
        graph.wf(),
        graph.placed_in(*partition),
        partition.wf(),
        arena.wf(),
        known.summary.wf(),
        connected.instance.wf(arena@),
        forall|e: int| 0 <= e < known.summary.edges@.len() ==> arena.holds((#[trigger] known.summary.edges@[e]).condition),
    ensures
        r matches Some(after) ==> after.wf(*partition) && arena::grows(arena@, after.arena@),
        forall|a: ModuleGraph| a.graph == graph && a.complete == complete ==> #[trigger] fed(*partition, *known, namespace, *connected, a, arena, r),
{
    let ghost before = graph;
    let ghost between = arena;
    let mut graph = graph;
    let mut arena = arena;
    let summary = &known.summary;
    let mapping = remap_module_summary_branches(&arena, summary, namespace);
    let ghost names = mapping@;
    assert(renames(between, *summary, namespace, names));
    let mut remapper = BranchRemapper::new(mapping);
    let ghost through = Through { instance: connected.instance, summary: *summary, partition: *partition };
    let fits = add_instance_feedthrough(&mut graph, &mut arena, &mut remapper, &connected.instance, summary, partition, &connected.dependencies);
    if !fits {
        assert(!offsets_fit(through, between, names));
        return None;
    }
    let r = ModuleGraph { graph, arena, complete: complete && known.complete && connected.complete };
    proof {
        let (from, inner, joints) = choose|from: int, inner: Inside, joints: Seq<Joint>|
            #![trigger through::feeds_through((Through { instance: connected.instance, summary: *summary, partition: *partition }), names, between@, before.nodes@.len() as int, r.graph, r.arena@, from, inner, joints)]
            through::dependencies_added(*partition, r.graph.nodes@, connected.dependencies@, r.graph.edges@, before.edges@.len() as int, from)
                && through::feeds_through((Through { instance: connected.instance, summary: *summary, partition: *partition }), names, between@, before.nodes@.len() as int, r.graph, r.arena@, from, inner, joints);
        assert(through::feeds_through(through, names, between@, before.nodes@.len() as int, r.graph, r.arena@, from, inner, joints));
        assert(through::dependencies_added(through.partition, r.graph.nodes@, connected.dependencies@, r.graph.edges@, before.edges@.len() as int, from));
        assert(runs_through(through, connected.dependencies@, names, before, between, r));
        assert forall|a: ModuleGraph| a.graph == before && a.complete == complete implies #[trigger] fed(*partition, *known, namespace, *connected, a, between, Some(r)) by {
            assert(offsets_fit(through, between, names));
            assert(fed_by(through, *known, *connected, names, a, between, r));
        }
    }
    Some(r)
}

impl ModuleGraph {
    /// Connects an instance and adds what it adds. There is no answer where it cannot be connected or an offset does
    /// not fit.
    pub fn add_component(self, parts: &ModuleParts, component: Component, summaries: &Vec<Option<KnownSummary>>) -> (r: Option<ModuleGraph>)
        requires
            parts.wf(),
            self.wf(*parts.partition),
            ready(component, summaries@, self.arena),
        ensures
            joined(*parts, component, summaries@, self, r),
            r matches Some(after) ==> after.wf(*parts.partition) && arena::grows(self.arena@, after.arena@),
    {
        let ghost before = self;
        let ghost whole = component;
        match component {
            Component::Interface => Some(self),
            Component::SystemVerilog => {
                let ModuleGraph { graph, arena, .. } = self;
                Some(ModuleGraph { graph, arena, complete: false })
            },
            Component::Module { number, instance, ports, namespace } => {
                if number >= summaries.len() {
                    let ModuleGraph { graph, arena, .. } = self;
                    return Some(ModuleGraph { graph, arena, complete: false });
                }
                let known = match &summaries[number] {
                    Some(known) => known,
                    None => {
                        let ModuleGraph { graph, arena, .. } = self;
                        return Some(ModuleGraph { graph, arena, complete: false });
                    },
                };
                let ModuleGraph { graph, arena, complete } = self;
                let owned: Vec<NodeKey> = Vec::new();
                let p = Program {
                    partition: parts.partition,
                    nodes: parts.nodes,
                    bodies: parts.bodies,
                    functions: parts.functions,
                    owned: &owned,
                    locals: parts.locals,
                };
                let (connected, between) = connect_instance(&p, instance, &ports, &known.summary, arena);
                proof {
                    assert(parts.gives_plain(p));
                    assert(way_component(p, connected, between));
                }
                match connected {
                    None => None,
                    Some(connected) => {
                        proof {
                            assert forall|e: int| 0 <= e < known.summary.edges@.len() implies between.holds((#[trigger] known.summary.edges@[e]).condition) by {
                                assert(before.arena.holds(known.summary.edges@[e].condition));
                            }
                        }
                        let after = feed(graph, complete, parts.partition, known, namespace, &connected, between);
                        proof {
                            if after is Some {
                                arena::growth_is_transitive(before.arena@, between@, after->0.arena@);
                            }
                            assert(fed(*parts.partition, *known, namespace, connected, before, between, after));
                        }
                        after
                    },
                }
            },
        }
    }
}

fn reversed(list: Vec<Component>) -> (r: Vec<Component>)
    ensures
        r@.len() == list@.len(),
        forall|k: int| 0 <= k < r@.len() ==> #[trigger] r@[k] == list@[list@.len() - 1 - k],
{
    let ghost given = list@;
    let mut list = list;
    let mut r: Vec<Component> = Vec::new();
    while list.len() > 0
        invariant
            list@.len() + r@.len() == given.len(),
            list@ == given.take(list@.len() as int),
            forall|k: int| 0 <= k < r@.len() ==> #[trigger] r@[k] == given[given.len() - 1 - k],
        decreases list@.len(),
    {
        let ghost before = list@;
        if let Some(last) = list.pop() {
            assert(last == before[before.len() - 1]);
            r.push(last);
            assert(list@ =~= given.take(list@.len() as int));
        }
    }
    r
}

/// Some variable of the module is driven from both sides of a port.
pub open spec fn has_inout(kinds: Seq<VariableKind>) -> bool {
    exists|i: int| 0 <= i < kinds.len() && #[trigger] kinds[i] == VariableKind::Inout
}

fn find_inout(kinds: &Vec<VariableKind>) -> (r: bool)
    ensures
        r == has_inout(kinds@),
{
    let mut i: usize = 0;
    while i < kinds.len()
        invariant
            i <= kinds@.len(),
            forall|k: int| 0 <= k < i ==> #[trigger] kinds@[k] != VariableKind::Inout,
        decreases kinds@.len() - i,
    {
        if kinds[i] == VariableKind::Inout {
            assert(kinds@[i as int] == VariableKind::Inout);
            return true;
        }
        i = i + 1;
    }
    false
}

/// The graph of a module before its first procedure is empty, and complete where no variable is driven from both
/// sides.
pub open spec fn is_start(kinds: Seq<VariableKind>, arena: PathArena, start: ModuleGraph) -> bool {
    &&& start.graph.nodes@.len() == 0
    &&& start.graph.edges@.len() == 0
    &&& start.arena == arena
    &&& start.complete == !has_inout(kinds)
}

/// The module was built, from an empty graph: the graphs of its procedures were added in order, then what its
/// instances add, in order.
pub open spec fn module_built<'a>(
    parts: ModuleParts<'a>,
    procedures: Seq<Procedure>,
    kinds: Seq<VariableKind>,
    components: Seq<Component>,
    summaries: Seq<Option<KnownSummary>>,
    arena: PathArena,
    start: ModuleGraph,
    m: ModuleGraph,
    after: ModuleGraph,
) -> bool {
    &&& is_start(kinds, arena, start)
    &&& added_all(parts, procedures, procedures.len() as int, start, m)
    &&& joined_all(parts, components, summaries, components.len() as int, m, after)
}

/// The graph is one that building the module gives.
pub open spec fn some_built<'a>(
    parts: ModuleParts<'a>,
    procedures: Seq<Procedure>,
    kinds: Seq<VariableKind>,
    components: Seq<Component>,
    summaries: Seq<Option<KnownSummary>>,
    arena: PathArena,
    after: ModuleGraph,
) -> bool {
    exists|start: ModuleGraph, m: ModuleGraph| #[trigger] module_built(parts, procedures, kinds, components, summaries, arena, start, m, after)
}

/// The module is built as far as it goes: some procedure has no graph that can be added, or some instance cannot be
/// connected or has an offset that does not fit.
pub open spec fn module_stops<'a>(
    parts: ModuleParts<'a>,
    procedures: Seq<Procedure>,
    kinds: Seq<VariableKind>,
    components: Seq<Component>,
    summaries: Seq<Option<KnownSummary>>,
    arena: PathArena,
    start: ModuleGraph,
    m: ModuleGraph,
    at: int,
) -> bool {
    &&& is_start(kinds, arena, start)
    &&& {
        ||| 0 <= at < procedures.len() && added_all(parts, procedures, at, start, m) && cannot_add(parts, procedures[at], m)
        ||| 0 <= at < components.len() && (exists|built: ModuleGraph| #[trigger]
            added_all(parts, procedures, procedures.len() as int, start, built) && joined_all(parts, components, summaries, at, built, m)) && joined(
            parts,
            components[at],
            summaries,
            m,
            None,
        )
    }
}

proof fn lemma_ready_grows(component: Component, summaries: Seq<Option<KnownSummary>>, a: PathArena, b: PathArena)
    requires
        ready(component, summaries, a),
        arena::grows(a@, b@),
    ensures
        ready(component, summaries, b),
{
    if let Component::Module { number, instance, ports: _, namespace: _ } = component {
        if summary_of(summaries, number) is Some {
            through::lemma_instance_kept(instance, a@, b@);
        }
    }
}

/// The graph of a module. There is no answer where some number does not fit.
pub fn build_module_graph(
    parts: &ModuleParts,
    procedures: &Vec<Procedure>,
    kinds: &Vec<VariableKind>,
    components: Vec<Component>,
    summaries: &Vec<Option<KnownSummary>>,
    arena: PathArena,
) -> (r: Option<ModuleGraph>)
    requires
        parts.wf(),
        arena.wf(),
        forall|c: int| 0 <= c < components@.len() ==> ready(#[trigger] components@[c], summaries@, arena),
    ensures
        match r {
            Some(after) => some_built(*parts, procedures@, kinds@, components@, summaries@, arena, after),
            None => exists|start: ModuleGraph, m: ModuleGraph, at: int| #[trigger]
                module_stops(*parts, procedures@, kinds@, components@, summaries@, arena, start, m, at),
        },
        r matches Some(after) ==> after.wf(*parts.partition) && arena::grows(arena@, after.arena@),
{
    let ghost list = components@;
    let inout = find_inout(kinds);
    let built = build_procedure_graphs(parts, procedures, !inout, arena);
    let ghost start = choose|start: ModuleGraph| #[trigger]
        way_module(start) && start.graph.nodes@.len() == 0 && start.graph.edges@.len() == 0 && start.arena == arena && start.complete == !inout && match built {
            Some(after) => added_all(*parts, procedures@, procedures@.len() as int, start, after),
            None => exists|at: int, m: ModuleGraph|
                0 <= at < procedures@.len() && #[trigger] added_all(*parts, procedures@, at, start, m) && cannot_add(*parts, procedures@[at], m),
        };
    let built = match built {
        None => {
            proof {
                let (at, m) = choose|at: int, m: ModuleGraph|
                    0 <= at < procedures@.len() && #[trigger] added_all(*parts, procedures@, at, start, m) && cannot_add(*parts, procedures@[at], m);
                assert(module_stops(*parts, procedures@, kinds@, list, summaries@, arena, start, m, at));
            }
            return None;
        },
        Some(built) => built,
    };
    let ghost first = built;
    let mut now = built;
    let mut rest = reversed(components);
    let ghost mut i: int = 0;
    while rest.len() > 0
        invariant
            list == components@,
            0 <= i,
            rest@.len() + i == list.len(),
            forall|k: int| 0 <= k < rest@.len() ==> #[trigger] rest@[k] == list[list.len() - 1 - k],
            parts.wf(),
            arena.wf(),
            forall|c: int| 0 <= c < list.len() ==> ready(#[trigger] list[c], summaries@, arena),
            is_start(kinds@, arena, start),
            now.wf(*parts.partition),
            arena::grows(arena@, now.arena@),
            added_all(*parts, procedures@, procedures@.len() as int, start, first),
            joined_all(*parts, list, summaries@, i, first, now),
        decreases rest@.len(),
    {
        let ghost previous = now;
        let ghost before = rest@;
        if let Some(component) = rest.pop() {
            proof {
                assert(component == before[before.len() - 1]);
                assert(component == list[i]);
                assert(ready(list[i], summaries@, arena));
                lemma_ready_grows(list[i], summaries@, arena, now.arena);
                assert forall|k: int| 0 <= k < rest@.len() implies #[trigger] rest@[k] == list[list.len() - 1 - k] by {
                    assert(rest@[k] == before[k]);
                }
            }
            match now.add_component(parts, component, summaries) {
                None => {
                    proof {
                        assert(added_all(*parts, procedures@, procedures@.len() as int, start, first) && joined_all(*parts, list, summaries@, i, first, previous));
                        assert(module_stops(*parts, procedures@, kinds@, list, summaries@, arena, start, previous, i));
                    }
                    return None;
                },
                Some(after) => {
                    now = after;
                },
            }
            proof {
                arena::growth_is_transitive(arena@, previous.arena@, now.arena@);
                let c = i + 1;
                assert(way_module(previous));
                assert(joined_all(*parts, list, summaries@, c - 1, first, previous));
                assert(joined_all(*parts, list, summaries@, c, first, now));
                i = c;
            }
        }
    }
    proof {
        assert(i == list.len());
        assert(module_built(*parts, procedures@, kinds@, list, summaries@, arena, start, first, now));
        assert(some_built(*parts, procedures@, kinds@, list, summaries@, arena, now));
    }
    Some(now)
}

/// All of what the instance adds is known: it is no black box, and the module of which it is one was built
/// before, completely.
pub open spec fn is_known(component: Component, summaries: Seq<Option<KnownSummary>>) -> bool {
    match component {
        Component::Module { number, instance: _, ports: _, namespace: _ } => summary_of(summaries, number) matches Some(known) && known.complete,
        Component::SystemVerilog => false,
        Component::Interface => true,
    }
}

/// The instance was connected completely.
pub open spec fn is_wired<'a>(parts: ModuleParts<'a>, component: Component, summaries: Seq<Option<KnownSummary>>) -> bool {
    component matches Component::Module { number, instance, ports, namespace: _ } ==> exists|p: Program<'a>, first: PathArena, last: PathArena, connected: Connected|
        #[trigger]
        wiring::instance_connected(p, instance, ports@, summary_of(summaries, number)->0.summary, first, last, Some(connected)) && parts.gives_plain(p)
            && connected.complete
}

proof fn lemma_joined_complete<'a>(parts: ModuleParts<'a>, component: Component, summaries: Seq<Option<KnownSummary>>, a: ModuleGraph, b: ModuleGraph)
    requires
        joined(parts, component, summaries, a, Some(b)),
        b.complete,
    ensures
        a.complete,
        is_known(component, summaries),
        is_wired(parts, component, summaries),
{
    if let Component::Module { number, instance, ports, namespace } = component {
        if let Some(known) = summary_of(summaries, number) {
            let (p, connected, between) = choose|p: Program<'a>, connected: Option<Connected>, between: PathArena| #[trigger]
                way_component(p, connected, between) && parts.gives_plain(p) && wiring::instance_connected(
                    p,
                    instance,
                    ports@,
                    known.summary,
                    a.arena,
                    between,
                    connected,
                ) && match connected {
                    Some(connected) => fed(*parts.partition, known, namespace, connected, a, between, Some(b)),
                    None => false,
                };
            assert(connected is Some);
            assert(wiring::instance_connected(p, instance, ports@, known.summary, a.arena, between, Some(connected->0)));
        }
    }
}

proof fn lemma_all_complete<'a>(parts: ModuleParts<'a>, list: Seq<Component>, summaries: Seq<Option<KnownSummary>>, count: int, a: ModuleGraph, b: ModuleGraph)
    requires
        0 <= count <= list.len(),
        joined_all(parts, list, summaries, count, a, b),
        b.complete,
    ensures
        a.complete,
        forall|i: int| 0 <= i < count ==> is_known(#[trigger] list[i], summaries) && is_wired(parts, list[i], summaries),
    decreases count,
{
    if count > 0 {
        let m = choose|m: ModuleGraph| #[trigger]
            way_module(m) && joined_all(parts, list, summaries, count - 1, a, m) && joined(parts, list[count - 1], summaries, m, Some(b));
        lemma_joined_complete(parts, list[count - 1], summaries, m, b);
        lemma_all_complete(parts, list, summaries, count - 1, a, m);
    }
}

/// The graph of a module is complete only where no variable of the module is driven from both sides of a
/// port, all of its procedures were analysed completely, none of its instances is a black box, and each
/// instance of a module was connected completely and is one of a module that was built before, completely.
pub proof fn complete_modules_are_known<'a>(
    parts: ModuleParts<'a>,
    procedures: Seq<Procedure>,
    kinds: Seq<VariableKind>,
    components: Seq<Component>,
    summaries: Seq<Option<KnownSummary>>,
    arena: PathArena,
    start: ModuleGraph,
    m: ModuleGraph,
    after: ModuleGraph,
)
    requires
        module_built(parts, procedures, kinds, components, summaries, arena, start, m, after),
        after.complete,
    ensures
        !has_inout(kinds),
        forall|i: int| 0 <= i < procedures.len() ==> #[trigger] analysed_completely(parts, procedures[i]),
        forall|i: int| 0 <= i < components.len() ==> is_known(#[trigger] components[i], summaries) && is_wired(parts, components[i], summaries),
{
    lemma_all_complete(parts, components, summaries, components.len() as int, m, after);
    all_procedures_are_complete(parts, procedures, procedures.len() as int, start, m);
}

/// The summaries of the modules that were built so far, by their numbers.
pub struct Summaries {
    pub list: Vec<Option<KnownSummary>>,
    /// All modules so far were analysed completely.
    pub complete: bool,
}

impl Summaries {
    pub open spec fn wf(self) -> bool {
        self.complete <==> forall|i: int| 0 <= i < self.list@.len() ==> (#[trigger] self.list@[i] matches Some(known) ==> known.complete)
    }

    /// No module was built.
    pub fn new(count: usize) -> (r: Self)
        ensures
            r.wf(),
            r.complete,
            r.list@.len() == count,
            forall|i: int| 0 <= i < count ==> (#[trigger] r.list@[i]) is None,
    {
        let mut list: Vec<Option<KnownSummary>> = Vec::new();
        let mut i: usize = 0;
        while i < count
            invariant
                i <= count,
                list@.len() == i,
                forall|k: int| 0 <= k < i ==> (#[trigger] list@[k]) is None,
            decreases count - i,
        {
            list.push(None);
            i = i + 1;
        }
        Summaries { list, complete: true }
    }

    /// Notes the summary of a module that was built: it is as complete as its graph.
    pub fn record(&mut self, number: usize, summary: ModuleSummary, complete: bool)
        requires
            old(self).wf(),
            number < old(self).list@.len(),
            old(self).list@[number as int] is None,
        ensures
            final(self).wf(),
            final(self).complete == (old(self).complete && complete),
            final(self).list@ == old(self).list@.update(number as int, Some(KnownSummary { summary, complete })),
    {
        let ghost before = self.list@;
        self.list.set(number, Some(KnownSummary { summary, complete }));
        if !complete {
            self.complete = false;
        }
        proof {
            let now = self.list@;
            assert(now[number as int] == Some(KnownSummary { summary, complete }));
            if forall|i: int| 0 <= i < now.len() ==> (#[trigger] now[i] matches Some(known) ==> known.complete) {
                assert forall|i: int| 0 <= i < before.len() implies (#[trigger] before[i] matches Some(known) ==> known.complete) by {
                    if i != number {
                        assert(now[i] == before[i]);
                    }
                }
            }
        }
    }
}

/// The accesses of the parent through which an instance uses the summary of its module.
pub open spec fn summary_touches(instance: Instance, summary: ModuleSummary, count: int, access: RegionAccess) -> bool {
    exists|i: int|
        0 <= i < count && (#[trigger] summary.nodes@[i]).kind != SummaryNodeKind::Internal && instance.connections@.dom().contains(summary.nodes@[i].region.id) && instance::touches_parent(
            instance.connections@[summary.nodes@[i].region.id].endpoint,
            summary.nodes@[i].region,
            direction_of(summary.nodes@[i].kind),
            access,
        )
}

/// Which way a node of a summary is looked through.
pub open spec fn direction_of(kind: SummaryNodeKind) -> PortDirection {
    if kind == SummaryNodeKind::Output {
        PortDirection::Output
    } else {
        PortDirection::Input
    }
}

/// Collects what the parent accesses through the summary of the module of an instance.
pub fn collect_instance_summary_spans(instance: &Instance, summary: &ModuleSummary) -> (r: Vec<RegionAccess>)
    requires
        summary.wf(),
        forall|id: u64| #[trigger] instance.connections@.dom().contains(id) ==> instance.connections@[id].endpoint.wf(),
    ensures
        forall|access: RegionAccess| #[trigger] r@.contains(access) <==> summary_touches(*instance, *summary, summary.nodes@.len() as int, access),
{
    let mut r: Vec<RegionAccess> = Vec::new();
    let mut i: usize = 0;
    while i < summary.nodes.len()
        invariant
            i <= summary.nodes@.len(),
            summary.wf(),
            forall|id: u64| #[trigger] instance.connections@.dom().contains(id) ==> instance.connections@[id].endpoint.wf(),
            forall|access: RegionAccess| #[trigger] r@.contains(access) <==> summary_touches(*instance, *summary, i as int, access),
        decreases summary.nodes@.len() - i,
    {
        let ghost before = r@;
        let kind = summary.nodes[i].kind;
        let region = summary.nodes[i].region;
        let mut more: Vec<RegionAccess> = Vec::new();
        if kind != SummaryNodeKind::Internal {
            assert(summary.nodes@[i as int].region.packed.wf());
            let direction = if kind == SummaryNodeKind::Output {
                PortDirection::Output
            } else {
                PortDirection::Input
            };
            if let Some(connection) = instance.connections.get(&region.id) {
                more = summary_parent_accesses(&connection.endpoint, region, direction);
            }
        }
        append_accesses(&mut r, &more);
        proof {
            assert forall|access: RegionAccess| #[trigger] r@.contains(access) <==> summary_touches(*instance, *summary, i + 1, access) by {
                assert(before.contains(access) <==> summary_touches(*instance, *summary, i as int, access));
                let node = summary.nodes@[i as int];
                if summary_touches(*instance, *summary, i as int, access) {
                    let k = choose|k: int|
                        0 <= k < i && (#[trigger] summary.nodes@[k]).kind != SummaryNodeKind::Internal && instance.connections@.dom().contains(summary.nodes@[k].region.id) && instance::touches_parent(
                            instance.connections@[summary.nodes@[k].region.id].endpoint,
                            summary.nodes@[k].region,
                            direction_of(summary.nodes@[k].kind),
                            access,
                        );
                    assert(summary.nodes@[k].kind != SummaryNodeKind::Internal);
                }
                if more@.contains(access) {
                    assert(node.kind != SummaryNodeKind::Internal);
                }
                if summary_touches(*instance, *summary, i + 1, access) && !summary_touches(*instance, *summary, i as int, access) {
                    let k = choose|k: int|
                        0 <= k < i + 1 && (#[trigger] summary.nodes@[k]).kind != SummaryNodeKind::Internal && instance.connections@.dom().contains(summary.nodes@[k].region.id) && instance::touches_parent(
                            instance.connections@[summary.nodes@[k].region.id].endpoint,
                            summary.nodes@[k].region,
                            direction_of(summary.nodes@[k].kind),
                            access,
                        );
                    assert(k == i);
                }
            }
        }
        i = i + 1;
    }
    r
}

fn append_accesses(out: &mut Vec<RegionAccess>, more: &Vec<RegionAccess>)
    ensures
        forall|a: RegionAccess| #[trigger] final(out)@.contains(a) <==> old(out)@.contains(a) || more@.contains(a),
{
    let ghost start = out@;
    let mut i: usize = 0;
    while i < more.len()
        invariant
            i <= more@.len(),
            out@ == start + more@.take(i as int),
        decreases more@.len() - i,
    {
        out.push(more[i]);
        i = i + 1;
        assert(out@ =~= start + more@.take(i as int));
    }
    proof {
        assert(more@.take(i as int) =~= more@);
        assert forall|a: RegionAccess| #[trigger] out@.contains(a) <==> start.contains(a) || more@.contains(a) by {
            if start.contains(a) {
                let k = choose|k: int| 0 <= k < start.len() && start[k] == a;
                assert(out@[k] == a);
            }
            if more@.contains(a) {
                let k = choose|k: int| 0 <= k < more@.len() && more@[k] == a;
                assert(out@[start.len() + k] == a);
            }
            if out@.contains(a) {
                let k = choose|k: int| 0 <= k < out@.len() && out@[k] == a;
                if k < start.len() {
                    assert(start[k] == a);
                } else {
                    assert(more@[k - start.len()] == a);
                }
            }
        }
    }
}

/// The instance accesses the parent through the summary of its module.
pub open spec fn component_touches(component: Component, summaries: Seq<Option<KnownSummary>>, access: RegionAccess) -> bool {
    component matches Component::Module { number, instance, ports: _, namespace: _ } && (summary_of(summaries, number) matches Some(known) && summary_touches(
        instance,
        known.summary,
        known.summary.nodes@.len() as int,
        access,
    ) && access.packed.wf())
}

pub open spec fn components_touch(components: Seq<Component>, summaries: Seq<Option<KnownSummary>>, count: int, access: RegionAccess) -> bool {
    exists|i: int| 0 <= i < count && component_touches(#[trigger] components[i], summaries, access)
}

/// The endpoints of the instance and the summary of its module, where it was built, are well formed.
pub open spec fn ports_wf(component: Component, summaries: Seq<Option<KnownSummary>>) -> bool {
    component matches Component::Module { number, instance, ports: _, namespace: _ } ==> (summary_of(summaries, number) matches Some(known) ==> known.summary.wf()
        && forall|id: u64| #[trigger]
        instance.connections@.dom().contains(id) ==> instance.connections@[id].endpoint.wf())
}

/// The accesses of the module, with those through the summaries of its instances.
pub open spec fn with_summaries(module: ModuleAccesses, components: Seq<Component>, summaries: Seq<Option<KnownSummary>>, all: ModuleAccesses) -> bool {
    &&& all == (ModuleAccesses { summaries: all.summaries, ..module })
    &&& forall|a: RegionAccess| #[trigger]
        all.summaries@.contains(a) <==> module.summaries@.contains(a) || components_touch(components, summaries, components.len() as int, a)
}

/// The variables of the module are split where its accesses start and end.
pub open spec fn module_split(module: ModuleAccesses, components: Seq<Component>, summaries: Seq<Option<KnownSummary>>, partition: BitPartition) -> bool {
    exists|all: ModuleAccesses, accesses: Seq<RegionAccess>|
        #![trigger with_summaries(module, components, summaries, all), partition::splits(accesses, Map::empty(), partition.regions@)]
        with_summaries(module, components, summaries, all) && (forall|a: RegionAccess| #[trigger]
            accesses.contains(a) <==> collect::module_accesses(all).contains(a)) && partition::splits(accesses, Map::empty(), partition.regions@)
}

/// Splits the variables of a module where its accesses start and end, those through the summaries of its
/// instances among them; gives all nodes, in order. There is no answer where an access of the module has no bit or
/// an end that does not fit.
pub fn partition_module(module: ModuleAccesses, components: &Vec<Component>, summaries: &Vec<Option<KnownSummary>>) -> (r: Option<(BitPartition, Vec<NodeKey>)>)
    requires
        forall|i: int| 0 <= i < components@.len() ==> ports_wf(#[trigger] components@[i], summaries@),
    ensures
        r is Some <==> forall|a: RegionAccess| #[trigger] collect::module_accesses(module).contains(a) ==> a.packed.wf(),
        r matches Some((partition, nodes)) ==> {
            &&& partition.wf()
            &&& order::strictly_sorted(nodes@)
            &&& forall|key: NodeKey| #[trigger] nodes@.contains(key) <==> partition.is_node(key)
            &&& module_split(module, components@, summaries@, partition)
        },
{
    let ghost given = module;
    let ModuleAccesses { procedures, connections, summaries: known_accesses, formals, declared, bodies } = module;
    let mut found = known_accesses;
    let ghost first = found@;
    let mut i: usize = 0;
    while i < components.len()
        invariant
            i <= components@.len(),
            forall|i: int| 0 <= i < components@.len() ==> ports_wf(#[trigger] components@[i], summaries@),
            forall|a: RegionAccess| #[trigger] found@.contains(a) <==> first.contains(a) || components_touch(components@, summaries@, i as int, a),
        decreases components@.len() - i,
    {
        let ghost before = found@;
        let mut more: Vec<RegionAccess> = Vec::new();
        assert(ports_wf(components@[i as int], summaries@));
        if let Component::Module { number, instance, .. } = &components[i] {
            if *number < summaries.len() {
                if let Some(known) = &summaries[*number] {
                    let spans = collect_instance_summary_spans(instance, &known.summary);
                    more = whole_accesses(&spans);
                }
            }
        }
        append_accesses(&mut found, &more);
        proof {
            assert forall|a: RegionAccess| #[trigger] found@.contains(a) <==> first.contains(a) || components_touch(components@, summaries@, i + 1, a) by {
                assert(before.contains(a) <==> first.contains(a) || components_touch(components@, summaries@, i as int, a));
                assert(more@.contains(a) <==> component_touches(components@[i as int], summaries@, a));
                if components_touch(components@, summaries@, i as int, a) {
                    let k = choose|k: int| 0 <= k < i && component_touches(#[trigger] components@[k], summaries@, a);
                    assert(component_touches(components@[k], summaries@, a));
                }
                if components_touch(components@, summaries@, i + 1, a) {
                    let k = choose|k: int| 0 <= k < i + 1 && component_touches(#[trigger] components@[k], summaries@, a);
                    if k < i {
                        assert(components_touch(components@, summaries@, i as int, a));
                    }
                }
            }
        }
        i = i + 1;
    }
    let all = ModuleAccesses { procedures, connections, summaries: found, formals, declared, bodies };
    let accesses = collect_module_accesses(&all);
    proof {
        assert(with_summaries(given, components@, summaries@, all));
        assert forall|a: RegionAccess| #[trigger] collect::module_accesses(given).contains(a) implies accesses@.contains(a) by {
            assert(collect::module_accesses(all).contains(a));
        }
        assert forall|a: RegionAccess| #[trigger] accesses@.contains(a) && !collect::module_accesses(given).contains(a) implies a.packed.wf() by {
            assert(collect::module_accesses(all).contains(a));
            assert(components_touch(components@, summaries@, components@.len() as int, a));
            let k = choose|k: int| 0 <= k < components@.len() && component_touches(#[trigger] components@[k], summaries@, a);
            assert(component_touches(components@[k], summaries@, a));
        }
    }
    if !all_have_bits(&accesses) {
        return None;
    }
    let partition = split_accesses(&accesses);
    let nodes = all_nodes(&partition);
    assert(module_split(given, components@, summaries@, partition));
    Some((partition, nodes))
}

/// The accesses that have a bit and whose ends fit.
fn whole_accesses(list: &Vec<RegionAccess>) -> (r: Vec<RegionAccess>)
    ensures
        forall|a: RegionAccess| #[trigger] r@.contains(a) <==> list@.contains(a) && a.packed.wf(),
{
    let mut r: Vec<RegionAccess> = Vec::new();
    let mut i: usize = 0;
    while i < list.len()
        invariant
            i <= list@.len(),
            forall|a: RegionAccess| #[trigger] r@.contains(a) <==> list@.take(i as int).contains(a) && a.packed.wf(),
        decreases list@.len() - i,
    {
        let ghost before = r@;
        let access = list[i];
        let fits = PackedSpan::new(access.packed.start, access.packed.length).is_some();
        if fits {
            r.push(access);
        }
        proof {
            assert(list@.take(i as int + 1) =~= list@.take(i as int).push(access));
            assert forall|a: RegionAccess| #[trigger] r@.contains(a) <==> list@.take(i as int + 1).contains(a) && a.packed.wf() by {
                partition::lemma_contains_push(list@.take(i as int), access, a);
                assert(before.contains(a) <==> list@.take(i as int).contains(a) && a.packed.wf());
                if fits {
                    partition::lemma_contains_push(before, access, a);
                }
            }
        }
        i = i + 1;
    }
    assert(list@.take(i as int) =~= list@);
    r
}

} // verus!
