//! The analysis of a procedure: what its variables depend on once its statements were evaluated.
use vstd::prelude::*;
use std::collections::HashMap;
use crate::arena;
use crate::arena::{PathArena, PathCondition};
use crate::flow::FlowStore;
use crate::ir::Statement;
use crate::layout::EvaluationCache;
use crate::machine::{Evaluated, Machine};
use crate::path::BranchId;
use crate::predicates::PredicateTable;
use crate::procedure;
use crate::results;
use crate::ssa::SsaStore;
use crate::summarize;
use crate::summarize::{dependency_graph, Summarized};
use crate::values::Program;
use crate::writes;

verus! {

/// What the statements of a procedure do to the variables of its module.
pub struct ProcedureAnalysis {
    /// The graph of the dependencies, with the roots of what is written.
    pub graph: Summarized,
    /// Nothing was met of which nothing is known.
    pub complete: bool,
}

/// The machine before the first statement.
pub open spec fn at_start<'a>(p: Program<'a>, namespace: usize, arena: PathArena, m: Machine) -> bool {
    &&& m.wf()
    &&& m.arena == arena
    &&& m.condition.node == 0
    &&& m.namespace == namespace
    &&& m.next_branch == 0
    &&& m.loops@.len() == 0
    &&& m.captures@.len() == 0
    &&& m.functions@.len() == 0
    &&& m.cache is None
    &&& m.choices@ == Map::<usize, BranchId>::empty()
    &&& !m.effects_only
    &&& m.complete
    &&& m.fits
    &&& m.table.known@.len() == 0
    &&& m.written@.len() == 0
    &&& m.keys == p.nodes@.len()
    &&& m.known == 0
    &&& m.flows.trees@.len() == 0
    &&& m.flows.continuations@.len() == 0
    &&& nothing_stored(m.store)
}

/// A store without versions, bindings, recordings and imports.
pub open spec fn nothing_stored(store: SsaStore) -> bool {
    &&& store.versions@.len() == 0
    &&& store.entries@ == Map::<u64, usize>::empty()
    &&& store.current@ == Map::<u64, usize>::empty()
    &&& store.undo@.len() == 0
    &&& store.checkpoints@.len() == 0
    &&& store.revision_events@.len() == 0
    &&& store.active_revisions@.len() == 0
    &&& store.next_revision_id == 0
    &&& store.graphs@.len() == 0
    &&& store.imports@.len() == 0
}

/// The nodes are shown that belong to variables of the module.
pub open spec fn are_visible<'a>(p: Program<'a>, visible: Seq<bool>) -> bool {
    visible.len() == p.nodes@.len() && forall|i: int| 0 <= i < visible.len() ==> (#[trigger] visible[i]) == !p.locals@.contains(p.nodes@[i].id)
}

/// Marks the evaluation of a procedure.
pub open spec fn way_analysis(start: Machine, n: Machine, e: Evaluated) -> bool {
    true
}

/// The statements were evaluated, one after the other, from the start.
pub open spec fn evaluates<'a>(p: Program<'a>, statements: Seq<Statement>, namespace: usize, arena: PathArena, start: Machine, n: Machine, e: Evaluated) -> bool {
    at_start(p, namespace, arena, start) && procedure::ran_block(p, p.bodies@.len() as nat, statements, Seq::empty(), start, n, e)
}

/// The graph is that of the state behind the statements.
pub open spec fn graph_of<'a>(p: Program<'a>, n: Machine, last: PathArena, graph: Summarized) -> bool {
    exists|store: SsaStore, visible: Seq<bool>, versions: Seq<usize>, roots: Seq<usize>, allowed: Set<u64>|
        #![trigger summarize::summarizes(store, last, visible, n.written@, Seq::empty(), versions, roots, allowed, graph)]
        writes::continues(n.store, store) && store.current@ == n.store.current@ && are_visible(p, visible) && summarize::summarizes(
            store,
            last,
            visible,
            n.written@,
            Seq::empty(),
            versions,
            roots,
            allowed,
            graph,
        )
}

/// All numbers fitted in the evaluation, and all keys that it read have nodes.
pub open spec fn numbers_fit<'a>(p: Program<'a>, n: Machine) -> bool {
    n.fits && results::keys_known(n.store, p.nodes@)
}

/// A machine before the first statement.
pub fn begin(p: &Program, namespace: usize, arena: PathArena) -> (r: Machine)
    requires
        arena.wf(),
    ensures
        at_start(*p, namespace, arena, r),
{
    broadcast use vstd::std_specs::hash::group_hash_axioms;

    let store = SsaStore::default();
    let flows = FlowStore::new();
    let choices: HashMap<usize, BranchId> = HashMap::new();
    let cache: Option<EvaluationCache> = None;
    let r = Machine {
        store,
        flows,
        arena,
        condition: PathCondition { node: 0 },
        namespace,
        next_branch: 0,
        loops: Vec::new(),
        captures: Vec::new(),
        functions: Vec::new(),
        cache,
        choices,
        effects_only: false,
        complete: true,
        written: Vec::new(),
        keys: p.nodes.len(),
        known: 0,
        fits: true,
        table: PredicateTable::new(),
    };
    assert(r.choices@ =~= Map::<usize, BranchId>::empty());
    r
}

pub(crate) fn find_visible(p: &Program) -> (r: Vec<bool>)
    ensures
        are_visible(*p, r@),
{
    let mut r: Vec<bool> = Vec::new();
    let mut i: usize = 0;
    while i < p.nodes.len()
        invariant
            i <= p.nodes@.len(),
            r@.len() == i,
            forall|k: int| 0 <= k < i ==> (#[trigger] r@[k]) == !p.locals@.contains(p.nodes@[k].id),
        decreases p.nodes@.len() - i,
    {
        r.push(!p.is_local(p.nodes[i].id));
        i = i + 1;
    }
    r
}

/// Analyses a procedure: its statements are evaluated from the start, and the state behind them is
/// lowered to a graph. There is no answer where some number did not fit.
pub fn analyze(p: &Program, statements: &Vec<Statement>, namespace: usize, arena: PathArena) -> (r: (Option<ProcedureAnalysis>, PathArena))
    requires
        p.wf(),
        arena.wf(),
    ensures
        r.1.wf(),
        arena::grows(arena@, r.1@),
        exists|start: Machine, n: Machine, e: Evaluated| #[trigger]
            way_analysis(start, n, e) && evaluates(*p, statements@, namespace, arena, start, n, e) && (r.0 is None <==> !numbers_fit(*p, n)) && (r.0 matches Some(
                found,
            ) ==> found.complete == n.complete && graph_of(*p, n, r.1, found.graph)),
        r.0 matches Some(found) ==> found.graph.graph.wf() && found.graph.graph.forward() && found.graph.graph.guarded_in(r.1@) && summarize::names_known(
            p.nodes@.len() as int,
            found.graph,
        ),
{
    let mut machine = begin(p, namespace, arena);
    let ghost start = machine;
    let none: Vec<usize> = Vec::new();
    assert(none@ =~= Seq::empty());
    let e = machine.eval_block(p, p.bodies.len(), statements, &none);
    let ghost n = machine;
    assert(way_analysis(start, n, e));
    assert(evaluates(*p, statements@, namespace, arena, start, n, e));
    let known = machine.keys_are_known();
    if !machine.fits || !known {
        return (None, machine.arena);
    }
    let complete = machine.complete;
    let visible = find_visible(p);
    let Machine { mut store, mut arena, written, .. } = machine;
    let graph = dependency_graph(&mut store, &mut arena, p.partition, p.nodes, &visible, &written);
    proof {
        arena::growth_is_transitive(start.arena@, n.arena@, arena@);
        let (versions, roots, allowed) = choose|versions: Seq<usize>, roots: Seq<usize>, allowed: Set<u64>|
            #![trigger summarize::summarizes(store, arena, visible@, written@, Seq::empty(), versions, roots, allowed, graph)]
            summarize::summarizes(store, arena, visible@, written@, Seq::empty(), versions, roots, allowed, graph);
        assert(summarize::summarizes(store, arena, visible@, n.written@, Seq::empty(), versions, roots, allowed, graph));
        assert(graph_of(*p, n, arena, graph));
    }
    (Some(ProcedureAnalysis { graph, complete }), arena)
}

} // verus!
