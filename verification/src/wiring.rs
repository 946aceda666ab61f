//! The ports of an instance: what each was found to read, to write and to make depend on what.
use vstd::prelude::*;
use crate::actuals;
use crate::actuals::access_node_list;
use crate::arena;
use crate::arena::{PathArena, PathNode};
use crate::collect::PortRange;
use crate::connecting;
use crate::connecting::{analyze_instance_actual_regions, analyze_instance_destination, analyze_instance_expressions, ActualAnalysis, SelectorAnalysis};
use crate::fragments::SummaryRegion;
use crate::instance;
use crate::instance::{EvaluatedRegion, RegionSource};
use crate::ir::{Access, Expression};
use crate::order;
use crate::partition::{BitPartition, NodeKey};
use crate::requests;
use crate::requests::{input_reads, instance_input_region_requests, output_writes, selector_dependencies};
use crate::span::PackedSpan;
use crate::through;
use crate::through::{Instance, ModuleSummary, PortConnection, RegionDependency};
use crate::values::Program;

verus! {

/// An actual of an input.
pub struct Actual {
    pub expression: Expression,
    /// The number under which its branches are kept.
    pub namespace: usize,
}

/// A destination of an output.
pub struct Destination {
    pub access: Access,
    /// The number under which the branches of its selectors are kept.
    pub namespace: usize,
}

/// What a port is connected to.
pub enum Wiring {
    /// An input: the range that it takes, where it takes one, else its actuals; and its width.
    Input { range: Option<PortRange>, actuals: Vec<Actual>, width: Option<usize> },
    /// An output: the range that it drives, where it drives one, else its destinations.
    Output { range: Option<PortRange>, destinations: Vec<Destination> },
    /// A port that goes both ways, or an interface.
    Other,
}

/// A port of an instance.
pub struct PortWiring {
    pub id: u64,
    pub wiring: Wiring,
}

/// What the analysis of a port gives.
pub struct PortAnalysis {
    pub reads: Option<Vec<RegionSource>>,
    pub writes: Option<Vec<RegionSource>>,
    pub mappings: Vec<EvaluatedRegion>,
    pub dependencies: Vec<RegionDependency>,
    /// Nothing was met of which nothing is known.
    pub complete: bool,
}

pub open spec fn single<'a>(e: &'a Expression) -> Seq<&'a Expression> {
    seq![e]
}

pub open spec fn range_of<'a>(range: &'a Option<PortRange>) -> Option<&'a PortRange> {
    match range {
        Some(range) => Some(range),
        None => None,
    }
}

/// The list has exactly what the input reads.
pub open spec fn lists_reads(partition: BitPartition, range: Option<&PortRange>, found: Seq<RegionSource>, r: Option<Vec<RegionSource>>) -> bool {
    &&& r matches Some(list) ==> list@.len() > 0 && order::strictly_sorted(list@)
    &&& forall|source: RegionSource| #[trigger] requests::reads(partition, range, found, source) <==> (r matches Some(list) && list@.contains(source))
}

/// The list has exactly the nodes that the output writes, each as a whole.
pub open spec fn lists_writes(partition: BitPartition, range: Option<&PortRange>, keys: Seq<NodeKey>, r: Option<Vec<RegionSource>>) -> bool {
    &&& r matches Some(list) ==> list@.len() > 0 && forall|i: int| 0 <= i < list@.len() ==> (#[trigger] list@[i]) == requests::whole_source(list@[i].key)
    &&& forall|key: NodeKey| #[trigger]
        requests::writes(partition, range, keys, key) <==> (r matches Some(list) && list@.contains(requests::whole_source(key)))
}

/// Marks what the first actuals of an input gave, and what the next one gives.
pub open spec fn way_whole(m: PathArena, reads: Seq<RegionSource>, dependencies: Seq<RegionDependency>, complete: bool, found: SelectorAnalysis) -> bool {
    true
}

/// The first actuals of an input were analysed, each by itself.
pub open spec fn actuals_read<'a>(
    p: Program<'a>,
    list: Seq<Actual>,
    count: int,
    a: PathArena,
    b: PathArena,
    reads: Seq<RegionSource>,
    dependencies: Seq<RegionDependency>,
    complete: bool,
) -> bool
    decreases count,
{
    if count <= 0 {
        b == a && reads.len() == 0 && dependencies.len() == 0 && complete
    } else {
        exists|m: PathArena, first: Seq<RegionSource>, effects: Seq<RegionDependency>, known: bool, found: SelectorAnalysis| #[trigger]
            way_whole(m, first, effects, known, found) && actuals_read(p, list, count - 1, a, m, first, effects, known) && connecting::selectors_analysed(
                p,
                single(&list[count - 1].expression),
                list[count - 1].namespace,
                m,
                b,
                Some(found),
            ) && reads == first + found.reads@ && dependencies == effects + found.dependencies@ && complete == (known && found.complete)
    }
}

/// An actual whose regions are asked is analysed for them.
pub open spec fn by_regions(actuals: Seq<Actual>, width: Option<usize>, requests: Seq<SummaryRegion>) -> bool {
    actuals.len() == 1 && width is Some && requests.len() > 0
}

/// What an input was found to be.
pub open spec fn input_analysed<'a>(
    p: Program<'a>,
    range: &'a Option<PortRange>,
    actuals: Seq<Actual>,
    width: Option<usize>,
    requests: Seq<SummaryRegion>,
    a: PathArena,
    b: PathArena,
    r: Option<PortAnalysis>,
) -> bool {
    if range is Some {
        b == a && (r matches Some(x) && x.complete && x.dependencies@.len() == 0 && x.mappings@.len() == 0 && x.writes is None && lists_reads(
            *p.partition,
            range_of(range),
            Seq::empty(),
            x.reads,
        ))
    } else if by_regions(actuals, width, requests) {
        match r {
            Some(x) => x.writes is None && exists|found: ActualAnalysis| #[trigger]
                connecting::actual_analysed(p, actuals[0].expression, requests, width->0, actuals[0].namespace, a, b, Some(found)) && x.complete == found.complete
                    && x.dependencies@ == found.dependencies@ && x.mappings@ == found.mappings@ && lists_reads(*p.partition, None, found.reads@, x.reads),
            None => connecting::actual_analysed(p, actuals[0].expression, requests, width->0, actuals[0].namespace, a, b, None),
        }
    } else {
        match r {
            Some(x) => x.writes is None && x.mappings@.len() == 0 && exists|reads: Seq<RegionSource>| #[trigger]
                actuals_read(p, actuals, actuals.len() as int, a, b, reads, x.dependencies@, x.complete) && lists_reads(*p.partition, None, reads, x.reads),
            None => actuals_stop(p, actuals, a, b),
        }
    }
}

/// One of the actuals cannot be analysed: some number does not fit.
pub open spec fn actuals_stop<'a>(p: Program<'a>, list: Seq<Actual>, a: PathArena, b: PathArena) -> bool {
    exists|at: int, m: PathArena, reads: Seq<RegionSource>, effects: Seq<RegionDependency>, known: bool|
        0 <= at < list.len() && #[trigger] actuals_read(p, list, at, a, m, reads, effects, known) && connecting::selectors_analysed(
            p,
            single(&list[at].expression),
            list[at].namespace,
            m,
            b,
            None,
        )
}

/// Marks what the first destinations of an output gave, and what the next one gives.
pub open spec fn way_destination(m: PathArena, keys: Seq<NodeKey>, dependencies: Seq<RegionDependency>, complete: bool, found: SelectorAnalysis, nodes: Seq<NodeKey>) -> bool {
    true
}

/// Every node that selects a destination, with every node of the destination.
pub open spec fn selects_all(reads: Seq<RegionSource>, nodes: Seq<NodeKey>, list: Seq<RegionDependency>) -> bool {
    &&& list.len() == reads.len() * nodes.len()
    &&& forall|i: int, j: int|
        #![trigger reads[i], nodes[j]]
        0 <= i < reads.len() && 0 <= j < nodes.len() ==> list[i * nodes.len() + j] == requests::selector_dependency(reads[i], nodes[j])
}

/// The selectors of a destination make the nodes that it touches depend on what they read.
pub open spec fn destination_depends(effects: Seq<RegionDependency>, found: SelectorAnalysis, nodes: Seq<NodeKey>, all: Seq<RegionDependency>) -> bool {
    let split = effects.len() + found.dependencies@.len();
    &&& all.len() >= split
    &&& all.take(split as int) == effects + found.dependencies@
    &&& selects_all(found.reads@, nodes, all.skip(split as int))
}

/// The first destinations of an output were analysed, each by itself.
pub open spec fn destinations_read<'a>(
    p: Program<'a>,
    list: Seq<Destination>,
    count: int,
    a: PathArena,
    b: PathArena,
    keys: Seq<NodeKey>,
    dependencies: Seq<RegionDependency>,
    complete: bool,
) -> bool
    decreases count,
{
    if count <= 0 {
        b == a && keys.len() == 0 && dependencies.len() == 0 && complete
    } else {
        exists|m: PathArena, first: Seq<NodeKey>, effects: Seq<RegionDependency>, known: bool, found: SelectorAnalysis, nodes: Seq<NodeKey>| #[trigger]
            way_destination(m, first, effects, known, found, nodes) && destinations_read(p, list, count - 1, a, m, first, effects, known)
                && connecting::selectors_analysed(p, connecting::selectors_of(list[count - 1].access), list[count - 1].namespace, m, b, Some(found))
                && order::strictly_sorted(nodes) && actuals::listed(nodes) == actuals::access_nodes(*p.partition, list[count - 1].access) && keys == first + nodes
                && destination_depends(effects, found, nodes, dependencies) && complete == (known && found.complete)
    }
}

/// What an output was found to be.
pub open spec fn output_analysed<'a>(p: Program<'a>, range: &'a Option<PortRange>, destinations: Seq<Destination>, a: PathArena, b: PathArena, r: Option<PortAnalysis>) -> bool {
    if range is Some {
        b == a && (r matches Some(x) && x.complete && x.dependencies@.len() == 0 && x.mappings@.len() == 0 && x.reads is None && lists_writes(
            *p.partition,
            range_of(range),
            Seq::empty(),
            x.writes,
        ))
    } else {
        match r {
            Some(x) => x.reads is None && x.mappings@.len() == 0 && exists|keys: Seq<NodeKey>| #[trigger]
                destinations_read(p, destinations, destinations.len() as int, a, b, keys, x.dependencies@, x.complete) && lists_writes(
                    *p.partition,
                    None,
                    keys,
                    x.writes,
                ),
            None => destinations_stop(p, destinations, a, b),
        }
    }
}

/// What selects one of the destinations cannot be analysed: some number does not fit.
pub open spec fn destinations_stop<'a>(p: Program<'a>, list: Seq<Destination>, a: PathArena, b: PathArena) -> bool {
    exists|at: int, m: PathArena, keys: Seq<NodeKey>, effects: Seq<RegionDependency>, known: bool|
        0 <= at < list.len() && #[trigger] destinations_read(p, list, at, a, m, keys, effects, known) && connecting::selectors_analysed(
            p,
            connecting::selectors_of(list[at].access),
            list[at].namespace,
            m,
            b,
            None,
        )
}

/// The port was analysed.
#[verifier::opaque]
pub open spec fn port_analysed<'a>(p: Program<'a>, wiring: Wiring, requests: Seq<SummaryRegion>, a: PathArena, b: PathArena, r: Option<PortAnalysis>) -> bool {
    match wiring {
        Wiring::Input { range, actuals, width } => input_analysed(p, &range, actuals@, width, requests, a, b, r),
        Wiring::Output { range, destinations } => output_analysed(p, &range, destinations@, a, b, r),
        Wiring::Other => b == a && (r matches Some(x) && x.complete && x.dependencies@.len() == 0 && x.mappings@.len() == 0 && x.reads is None && x.writes is None),
    }
}

/// The conditions of what was found exist.
pub open spec fn analysis_holds(x: PortAnalysis, paths: Seq<PathNode>) -> bool {
    &&& x.reads matches Some(list) ==> connecting::reads_hold(list@, paths)
    &&& x.writes matches Some(list) ==> connecting::reads_hold(list@, paths)
    &&& connecting::nodes_hold(x.mappings@, paths)
}

fn extend_dependencies(list: &mut Vec<RegionDependency>, more: &Vec<RegionDependency>)
    ensures
        final(list)@ == old(list)@ + more@,
{
    let ghost before = list@;
    let mut i: usize = 0;
    while i < more.len()
        invariant
            i <= more@.len(),
            list@ == before + more@.take(i as int),
        decreases more@.len() - i,
    {
        list.push(more[i]);
        i = i + 1;
        assert(list@ =~= before + more@.take(i as int));
    }
    assert(more@.take(i as int) =~= more@);
}

fn extend_nodes(list: &mut Vec<NodeKey>, more: &Vec<NodeKey>)
    ensures
        final(list)@ == old(list)@ + more@,
{
    let ghost before = list@;
    let mut i: usize = 0;
    while i < more.len()
        invariant
            i <= more@.len(),
            list@ == before + more@.take(i as int),
        decreases more@.len() - i,
    {
        list.push(more[i]);
        i = i + 1;
        assert(list@ =~= before + more@.take(i as int));
    }
    assert(more@.take(i as int) =~= more@);
}

proof fn lemma_reads_hold(partition: BitPartition, range: Option<&PortRange>, found: Seq<RegionSource>, r: Option<Vec<RegionSource>>, paths: Seq<PathNode>)
    requires
        lists_reads(partition, range, found, r),
        connecting::reads_hold(found, paths),
        paths.len() > 0,
    ensures
        r matches Some(list) ==> connecting::reads_hold(list@, paths),
{
    if let Some(list) = r {
        assert forall|i: int| 0 <= i < list@.len() implies (#[trigger] list@[i]).condition.node < paths.len() by {
            assert(list@.contains(list@[i]));
            assert(requests::reads(partition, range, found, list@[i]));
            if range is None {
                let k = choose|k: int| 0 <= k < found.len() && found[k] == list@[i];
                assert(found[k].condition.node < paths.len());
            }
        }
    }
}

/// Analyses an input.
fn analyze_input<'a>(
    p: &Program<'a>,
    range: &'a Option<PortRange>,
    actuals: &'a Vec<Actual>,
    width: Option<usize>,
    requests: &Vec<SummaryRegion>,
    arena: PathArena,
) -> (r: (Option<PortAnalysis>, PathArena))
    requires
        p.wf(),
        arena.wf(),
        forall|i: int| 0 <= i < requests@.len() ==> (#[trigger] requests@[i]).packed.wf(),
    ensures
        r.1.wf(),
        arena::grows(arena@, r.1@),
        input_analysed(*p, range, actuals@, width, requests@, arena, r.1, r.0),
        r.0 matches Some(x) ==> analysis_holds(x, r.1@),
{
    let none: Vec<RegionSource> = Vec::new();
    assert(none@ =~= Seq::empty());
    if let Some(taken) = range {
        let reads = input_reads(p.partition, Some(taken), &none);
        let r = PortAnalysis { reads, writes: None, mappings: Vec::new(), dependencies: Vec::new(), complete: true };
        proof {
            assert(lists_reads(*p.partition, range_of(range), Seq::empty(), r.reads));
            lemma_reads_hold(*p.partition, range_of(range), Seq::empty(), r.reads, arena@);
        }
        return (Some(r), arena);
    }
    if let Some(width) = width {
        if actuals.len() == 1 && requests.len() > 0 {
            let (found, last) = analyze_instance_actual_regions(p, &actuals[0].expression, requests, width, actuals[0].namespace, arena);
            return match found {
                None => (None, last),
                Some(found) => {
                    let ghost given = found;
                    let reads = input_reads(p.partition, None, &found.reads);
                    let ActualAnalysis { mappings, dependencies, complete, .. } = found;
                    let r = PortAnalysis { reads, writes: None, mappings, dependencies, complete };
                    proof {
                        assert(connecting::actual_analysed(*p, actuals@[0].expression, requests@, width, actuals@[0].namespace, arena, last, Some(given)));
                        assert(lists_reads(*p.partition, None, given.reads@, r.reads));
                        lemma_reads_hold(*p.partition, None, given.reads@, r.reads, last@);
                    }
                    (Some(r), last)
                },
            };
        }
    }
    let ghost first_arena = arena;
    let mut now = arena;
    let mut reads: Vec<RegionSource> = Vec::new();
    let mut dependencies: Vec<RegionDependency> = Vec::new();
    let mut complete = true;
    let mut i: usize = 0;
    while i < actuals.len()
        invariant
            i <= actuals@.len(),
            p.wf(),
            now.wf(),
            arena::grows(first_arena@, now@),
            first_arena == arena,
            range is None,
            !by_regions(actuals@, width, requests@),
            connecting::reads_hold(reads@, now@),
            actuals_read(*p, actuals@, i as int, first_arena, now, reads@, dependencies@, complete),
        decreases actuals@.len() - i,
    {
        let ghost m = now;
        let ghost first = reads@;
        let ghost effects = dependencies@;
        let ghost known = complete;
        let mut list: Vec<&'a Expression> = Vec::new();
        list.push(&actuals[i].expression);
        assert(list@ =~= single(&actuals@[i as int].expression));
        let (found, next) = analyze_instance_expressions(p, &list, actuals[i].namespace, now);
        now = next;
        proof {
            arena::growth_is_transitive(first_arena@, m@, now@);
        }
        match found {
            None => {
                proof {
                    assert(actuals_read(*p, actuals@, i as int, first_arena, m, first, effects, known));
                    assert(actuals_stop(*p, actuals@, first_arena, now));
                }
                return (None, now);
            },
            Some(found) => {
                connecting::extend_reads(&mut reads, &found.reads);
                extend_dependencies(&mut dependencies, &found.dependencies);
                if !found.complete {
                    complete = false;
                }
                proof {
                    let c = i + 1;
                    assert(way_whole(m, first, effects, known, found));
                    assert(actuals_read(*p, actuals@, c - 1, first_arena, m, first, effects, known));
                    assert(actuals_read(*p, actuals@, c, first_arena, now, reads@, dependencies@, complete));
                    assert forall|x: int| 0 <= x < reads@.len() implies (#[trigger] reads@[x]).condition.node < now@.len() by {
                        if x < first.len() {
                            assert(first[x].condition.node < m@.len());
                        } else {
                            assert(found.reads@[x - first.len()].condition.node < now@.len());
                        }
                    }
                }
            },
        }
        i = i + 1;
    }
    let found = input_reads(p.partition, None, &reads);
    let r = PortAnalysis { reads: found, writes: None, mappings: Vec::new(), dependencies, complete };
    proof {
        assert(lists_reads(*p.partition, None, reads@, r.reads));
        lemma_reads_hold(*p.partition, None, reads@, r.reads, now@);
        assert(actuals_read(*p, actuals@, actuals@.len() as int, first_arena, now, reads@, r.dependencies@, r.complete));
    }
    (Some(r), now)
}

/// Analyses an output.
fn analyze_output<'a>(p: &Program<'a>, range: &'a Option<PortRange>, destinations: &'a Vec<Destination>, arena: PathArena) -> (r: (Option<PortAnalysis>, PathArena))
    requires
        p.wf(),
        arena.wf(),
    ensures
        r.1.wf(),
        arena::grows(arena@, r.1@),
        output_analysed(*p, range, destinations@, arena, r.1, r.0),
        r.0 matches Some(x) ==> analysis_holds(x, r.1@),
{
    let none: Vec<NodeKey> = Vec::new();
    assert(none@ =~= Seq::empty());
    if let Some(driven) = range {
        let writes = output_writes(p.partition, Some(driven), &none);
        let r = PortAnalysis { reads: None, writes, mappings: Vec::new(), dependencies: Vec::new(), complete: true };
        proof {
            assert(lists_writes(*p.partition, range_of(range), Seq::empty(), r.writes));
        }
        return (Some(r), arena);
    }
    let ghost first_arena = arena;
    let mut now = arena;
    let mut keys: Vec<NodeKey> = Vec::new();
    let mut dependencies: Vec<RegionDependency> = Vec::new();
    let mut complete = true;
    let mut i: usize = 0;
    while i < destinations.len()
        invariant
            i <= destinations@.len(),
            p.wf(),
            now.wf(),
            arena::grows(first_arena@, now@),
            first_arena == arena,
            range is None,
            destinations_read(*p, destinations@, i as int, first_arena, now, keys@, dependencies@, complete),
        decreases destinations@.len() - i,
    {
        let ghost m = now;
        let ghost first = keys@;
        let ghost effects = dependencies@;
        let ghost known = complete;
        let nodes = access_node_list(p.partition, &destinations[i].access);
        let (found, next) = analyze_instance_destination(p, &destinations[i].access, destinations[i].namespace, now);
        now = next;
        proof {
            arena::growth_is_transitive(first_arena@, m@, now@);
        }
        match found {
            None => {
                proof {
                    assert(destinations_read(*p, destinations@, i as int, first_arena, m, first, effects, known));
                    assert(destinations_stop(*p, destinations@, first_arena, now));
                }
                return (None, now);
            },
            Some(found) => {
                extend_nodes(&mut keys, &nodes);
                extend_dependencies(&mut dependencies, &found.dependencies);
                let ghost half = dependencies@;
                let selected = selector_dependencies(&found.reads, &nodes);
                extend_dependencies(&mut dependencies, &selected);
                if !found.complete {
                    complete = false;
                }
                proof {
                    let c = i + 1;
                    let split = (effects.len() + found.dependencies@.len()) as int;
                    assert(dependencies@.take(split) =~= half);
                    assert(dependencies@.skip(split) =~= selected@);
                    assert(destination_depends(effects, found, nodes@, dependencies@));
                    assert(way_destination(m, first, effects, known, found, nodes@));
                    assert(destinations_read(*p, destinations@, c - 1, first_arena, m, first, effects, known));
                    assert(destinations_read(*p, destinations@, c, first_arena, now, keys@, dependencies@, complete));
                }
            },
        }
        i = i + 1;
    }
    let writes = output_writes(p.partition, None, &keys);
    let r = PortAnalysis { reads: None, writes, mappings: Vec::new(), dependencies, complete };
    proof {
        assert(lists_writes(*p.partition, None, keys@, r.writes));
        assert(destinations_read(*p, destinations@, destinations@.len() as int, first_arena, now, keys@, r.dependencies@, r.complete));
    }
    (Some(r), now)
}

/// Analyses a port. There is no answer where some number does not fit.
pub fn analyze_port<'a>(p: &Program<'a>, wiring: &'a Wiring, requests: &Vec<SummaryRegion>, arena: PathArena) -> (r: (Option<PortAnalysis>, PathArena))
    requires
        p.wf(),
        arena.wf(),
        forall|i: int| 0 <= i < requests@.len() ==> (#[trigger] requests@[i]).packed.wf(),
    ensures
        r.1.wf(),
        arena::grows(arena@, r.1@),
        port_analysed(*p, *wiring, requests@, arena, r.1, r.0),
        r.0 matches Some(x) ==> analysis_holds(x, r.1@),
{
    reveal(port_analysed);
    match wiring {
        Wiring::Input { range, actuals, width } => analyze_input(p, range, actuals, *width, requests, arena),
        Wiring::Output { range, destinations } => analyze_output(p, range, destinations, arena),
        Wiring::Other => (
            Some(PortAnalysis { reads: None, writes: None, mappings: Vec::new(), dependencies: Vec::new(), complete: true }),
            arena,
        ),
    }
}

/// An instance, with what its ports were found to be.
pub struct Connected {
    pub instance: Instance,
    /// What the effects of its actuals, and the selectors of its destinations, make depend on what.
    pub dependencies: Vec<RegionDependency>,
    /// All of its actuals and selectors were analysed completely.
    pub complete: bool,
}

/// The regions that are asked of a port.
pub open spec fn requests_for(all: Seq<SummaryRegion>, id: u64) -> Seq<SummaryRegion>
    decreases all.len(),
{
    if all.len() == 0 {
        Seq::empty()
    } else {
        let before = requests_for(all.drop_last(), id);
        if all.last().id == id && all.last().packed.wf() {
            before.push(all.last())
        } else {
            before
        }
    }
}

/// What was found for the port is taken over.
pub open spec fn takes(id: u64, x: PortAnalysis, a: Connected, b: Connected) -> bool {
    &&& b.complete == (a.complete && x.complete)
    &&& b.dependencies@ == a.dependencies@ + x.dependencies@
    &&& b.instance.evaluated@ == a.instance.evaluated@ + x.mappings@
    &&& b.instance.connections@ == if a.instance.connections@.contains_key(id) {
        a.instance.connections@.insert(
            id,
            PortConnection { endpoint: a.instance.connections@[id].endpoint, reads: x.reads, writes: x.writes },
        )
    } else {
        a.instance.connections@
    }
}

/// The port was analysed for the regions that are asked of it, and what was found is taken over.
pub open spec fn port_connected<'a>(p: Program<'a>, port: PortWiring, requests: Seq<SummaryRegion>, a: Connected, b: Connected, first: PathArena, last: PathArena) -> bool {
    exists|x: PortAnalysis| #[trigger]
        port_analysed(p, port.wiring, requests_for(requests, port.id), first, last, Some(x)) && takes(port.id, x, a, b)
}

/// Marks a state on the way through the ports.
pub open spec fn way_port(m: Connected, arena: PathArena) -> bool {
    true
}

/// The first ports were connected, one after the other.
pub open spec fn ports_connected<'a>(
    p: Program<'a>,
    ports: Seq<PortWiring>,
    requests: Seq<SummaryRegion>,
    count: int,
    a: Connected,
    b: Connected,
    first: PathArena,
    last: PathArena,
) -> bool
    decreases count,
{
    if count <= 0 {
        b == a && last == first
    } else {
        exists|m: Connected, between: PathArena| #[trigger]
            way_port(m, between) && ports_connected(p, ports, requests, count - 1, a, m, first, between) && port_connected(
                p,
                ports[count - 1],
                requests,
                m,
                b,
                between,
                last,
            )
    }
}

/// One of the ports cannot be analysed: some number does not fit.
pub open spec fn ports_stop<'a>(p: Program<'a>, ports: Seq<PortWiring>, requests: Seq<SummaryRegion>, a: Connected, first: PathArena, last: PathArena) -> bool {
    exists|at: int, m: Connected, between: PathArena|
        0 <= at < ports.len() && #[trigger] ports_connected(p, ports, requests, at, a, m, first, between) && port_analysed(
            p,
            ports[at].wiring,
            requests_for(requests, ports[at].id),
            between,
            last,
            None,
        )
}

/// Exactly the regions of the inputs that the summary needs.
pub open spec fn are_requests<'a>(p: Program<'a>, instance: Instance, summary: ModuleSummary, list: Seq<SummaryRegion>) -> bool {
    order::strictly_sorted(list) && forall|region: SummaryRegion| #[trigger] list.contains(region) <==> requests::requested(instance, summary, *p.partition, region)
}

/// Marks the start of a connection.
pub open spec fn way_connection(start: Connected, list: Seq<SummaryRegion>) -> bool {
    true
}

/// The instance was connected: all of its ports were analysed, for the regions that the summary needs.
pub open spec fn instance_connected<'a>(
    p: Program<'a>,
    instance: Instance,
    ports: Seq<PortWiring>,
    summary: ModuleSummary,
    first: PathArena,
    last: PathArena,
    r: Option<Connected>,
) -> bool {
    exists|start: Connected, list: Seq<SummaryRegion>| #[trigger]
        way_connection(start, list) && are_requests(p, instance, summary, list) && start.instance == instance && start.dependencies@.len() == 0 && start.complete
            && match r {
            Some(connected) => ports_connected(p, ports, list, ports.len() as int, start, connected, first, last),
            None => ports_stop(p, ports, list, start, first, last),
        }
}

fn find_requests(all: &Vec<SummaryRegion>, id: u64) -> (r: Vec<SummaryRegion>)
    ensures
        r@ == requests_for(all@, id),
        forall|i: int| 0 <= i < r@.len() ==> (#[trigger] r@[i]).packed.wf(),
{
    let mut r: Vec<SummaryRegion> = Vec::new();
    let mut i: usize = 0;
    assert(all@.take(0) =~= Seq::empty());
    while i < all.len()
        invariant
            i <= all@.len(),
            r@ == requests_for(all@.take(i as int), id),
            forall|i: int| 0 <= i < r@.len() ==> (#[trigger] r@[i]).packed.wf(),
        decreases all@.len() - i,
    {
        let region = all[i];
        proof {
            assert(all@.take(i as int + 1).drop_last() =~= all@.take(i as int));
            assert(all@.take(i as int + 1).last() == region);
        }
        if region.id == id && PackedSpan::new(region.packed.start, region.packed.length).is_some() {
            r.push(region);
        }
        i = i + 1;
    }
    assert(all@.take(i as int) =~= all@);
    r
}

impl Connected {
    /// Takes over what was found for a port.
    fn take(self, id: u64, x: PortAnalysis, Ghost(first): Ghost<Seq<PathNode>>, Ghost(paths): Ghost<Seq<PathNode>>) -> (r: Connected)
        requires
            self.instance.wf(first),
            first.len() <= paths.len(),
            analysis_holds(x, paths),
        ensures
            takes(id, x, self, r),
            r.instance.wf(paths),
            r.instance.connections@.dom() == self.instance.connections@.dom(),
    {
        let ghost start = self;
        let ghost given = x;
        let Connected { instance, dependencies, complete } = self;
        let Instance { connections, evaluated } = instance;
        let mut connections = connections;
        let mut evaluated = evaluated;
        let mut dependencies = dependencies;
        let PortAnalysis { reads, writes, mappings, dependencies: more, complete: known } = x;
        extend_dependencies(&mut dependencies, &more);
        let mut mappings = mappings;
        let ghost known_mappings = mappings@;
        evaluated.append(&mut mappings);
        if let Some(connection) = connections.remove(&id) {
            let PortConnection { endpoint, .. } = connection;
            connections.insert(id, PortConnection { endpoint, reads, writes });
        }
        let r = Connected { instance: Instance { connections, evaluated }, dependencies, complete: complete && known };
        proof {
            let old_map = start.instance.connections@;
            if old_map.contains_key(id) {
                assert(r.instance.connections@ =~= old_map.insert(id, PortConnection { endpoint: old_map[id].endpoint, reads: given.reads, writes: given.writes }));
            } else {
                assert(r.instance.connections@ =~= old_map);
            }
            assert(r.instance.connections@.dom() =~= old_map.dom());
            assert forall|k: u64| #[trigger] r.instance.connections@.dom().contains(k) implies {
                &&& r.instance.connections@[k].endpoint.wf()
                &&& through::sources_hold(paths, through::list_view(r.instance.connections@[k].reads))
                &&& through::sources_hold(paths, through::list_view(r.instance.connections@[k].writes))
            } by {
                assert(old_map.dom().contains(k));
                if k != id {
                    if let Some(list) = old_map[k].reads {
                        assert forall|i: int| 0 <= i < list@.len() implies (#[trigger] list@[i]).condition.node < paths.len() by {
                            assert(list@[i].condition.node < first.len());
                        }
                    }
                    if let Some(list) = old_map[k].writes {
                        assert forall|i: int| 0 <= i < list@.len() implies (#[trigger] list@[i]).condition.node < paths.len() by {
                            assert(list@[i].condition.node < first.len());
                        }
                    }
                }
            }
            let before = start.instance.evaluated@;
            assert forall|i: int, k: int| 0 <= i < r.instance.evaluated@.len() && 0 <= k < r.instance.evaluated@[i].nodes@.len() implies instance::mapped_wf(
                #[trigger] r.instance.evaluated@[i].nodes@[k],
            ) && r.instance.evaluated@[i].nodes@[k].condition.node < paths.len() by {
                if i < before.len() {
                    assert(r.instance.evaluated@[i] == before[i]);
                    assert(instance::mapped_wf(before[i].nodes@[k]));
                    assert(before[i].nodes@[k].condition.node < first.len());
                } else {
                    assert(r.instance.evaluated@[i] == known_mappings[i - before.len()]);
                    assert(known_mappings[i - before.len()].nodes@[k].condition.node < paths.len());
                }
            }
        }
        r
    }
}

/// Analyses a port and takes over what was found.
fn connect_port<'a>(p: &Program<'a>, port: &'a PortWiring, list: &Vec<SummaryRegion>, now: Connected, arena: PathArena) -> (r: (Option<Connected>, PathArena))
    requires
        p.wf(),
        arena.wf(),
        now.instance.wf(arena@),
    ensures
        r.1.wf(),
        arena::grows(arena@, r.1@),
        match r.0 {
            Some(after) => port_connected(*p, *port, list@, now, after, arena, r.1) && after.instance.wf(r.1@) && after.instance.connections@.dom()
                == now.instance.connections@.dom(),
            None => port_analysed(*p, port.wiring, requests_for(list@, port.id), arena, r.1, None),
        },
{
    let wanted = find_requests(list, port.id);
    let ghost first = arena;
    let (found, last) = analyze_port(p, &port.wiring, &wanted, arena);
    match found {
        None => (None, last),
        Some(x) => {
            let after = now.take(port.id, x, Ghost(first@), Ghost(last@));
            assert(port_analysed(*p, port.wiring, requests_for(list@, port.id), first, last, Some(x)));
            (Some(after), last)
        },
    }
}

proof fn lemma_ports_next<'a>(
    p: Program<'a>,
    ports: Seq<PortWiring>,
    requests: Seq<SummaryRegion>,
    count: int,
    a: Connected,
    m: Connected,
    b: Connected,
    first: PathArena,
    between: PathArena,
    last: PathArena,
)
    requires
        count > 0,
        ports_connected(p, ports, requests, count - 1, a, m, first, between),
        port_connected(p, ports[count - 1], requests, m, b, between, last),
    ensures
        ports_connected(p, ports, requests, count, a, b, first, last),
{
    assert(way_port(m, between));
}

proof fn lemma_ports_stop<'a>(
    p: Program<'a>,
    ports: Seq<PortWiring>,
    requests: Seq<SummaryRegion>,
    at: int,
    a: Connected,
    m: Connected,
    first: PathArena,
    between: PathArena,
    last: PathArena,
)
    requires
        0 <= at < ports.len(),
        ports_connected(p, ports, requests, at, a, m, first, between),
        port_analysed(p, ports[at].wiring, requests_for(requests, ports[at].id), between, last, None),
    ensures
        ports_stop(p, ports, requests, a, first, last),
{
}

/// Connects an instance: analyses all of its ports, in order, for the regions that the summary of its module
/// needs. There is no answer where some number does not fit.
pub fn connect_instance<'a>(p: &Program<'a>, instance: Instance, ports: &'a Vec<PortWiring>, summary: &ModuleSummary, arena: PathArena) -> (r: (Option<Connected>, PathArena))
    requires
        p.wf(),
        arena.wf(),
        summary.wf(),
        instance.wf(arena@),
    ensures
        r.1.wf(),
        arena::grows(arena@, r.1@),
        instance_connected(*p, instance, ports@, *summary, arena, r.1, r.0),
        r.0 matches Some(connected) ==> connected.instance.wf(r.1@),
{
    let list = instance_input_region_requests(&instance, summary, p.partition);
    let ghost first = arena;
    let ghost given = instance;
    let mut now = Connected { instance, dependencies: Vec::new(), complete: true };
    let ghost start = now;
    let mut paths = arena;
    let mut i: usize = 0;
    proof {
        assert(way_connection(start, list@));
        assert(are_requests(*p, given, *summary, list@));
    }
    while i < ports.len()
        invariant
            i <= ports@.len(),
            p.wf(),
            first == arena,
            given == instance,
            paths.wf(),
            arena::grows(first@, paths@),
            now.instance.wf(paths@),
            now.instance.connections@.dom() == given.connections@.dom(),
            way_connection(start, list@),
            are_requests(*p, given, *summary, list@),
            start.instance == given,
            start.dependencies@.len() == 0,
            start.complete,
            ports_connected(*p, ports@, list@, i as int, start, now, first, paths),
        decreases ports@.len() - i,
    {
        let ghost m = now;
        let ghost between = paths;
        let (found, next) = connect_port(p, &ports[i], &list, now, paths);
        paths = next;
        proof {
            arena::growth_is_transitive(first@, between@, paths@);
        }
        match found {
            None => {
                proof {
                    lemma_ports_stop(*p, ports@, list@, i as int, start, m, first, between, paths);
                    assert(instance_connected(*p, given, ports@, *summary, first, paths, None));
                }
                return (None, paths);
            },
            Some(after) => {
                now = after;
                proof {
                    lemma_ports_next(*p, ports@, list@, i + 1, start, m, now, first, between, paths);
                }
            },
        }
        i = i + 1;
    }
    proof {
        assert(instance_connected(*p, given, ports@, *summary, first, paths, Some(now)));
    }
    (Some(now), paths)
}

/// All of what the port gave is known.
pub open spec fn port_known<'a>(p: Program<'a>, port: PortWiring, requests: Seq<SummaryRegion>) -> bool {
    exists|first: PathArena, last: PathArena, x: PortAnalysis| #[trigger]
        port_analysed(p, port.wiring, requests_for(requests, port.id), first, last, Some(x)) && x.complete
}

/// An instance is connected completely only where it was so before, and all of its ports were analysed
/// completely; what was once incomplete stays so.
pub proof fn connected_completely<'a>(
    p: Program<'a>,
    ports: Seq<PortWiring>,
    requests: Seq<SummaryRegion>,
    count: int,
    a: Connected,
    b: Connected,
    first: PathArena,
    last: PathArena,
)
    requires
        0 <= count <= ports.len(),
        ports_connected(p, ports, requests, count, a, b, first, last),
        b.complete,
    ensures
        a.complete,
        forall|i: int| 0 <= i < count ==> port_known(p, #[trigger] ports[i], requests),
    decreases count,
{
    if count > 0 {
        let (m, between) = choose|m: Connected, between: PathArena| #[trigger]
            way_port(m, between) && ports_connected(p, ports, requests, count - 1, a, m, first, between) && port_connected(
                p,
                ports[count - 1],
                requests,
                m,
                b,
                between,
                last,
            );
        let x = choose|x: PortAnalysis| #[trigger]
            port_analysed(p, ports[count - 1].wiring, requests_for(requests, ports[count - 1].id), between, last, Some(x)) && takes(ports[count - 1].id, x, m, b);
        connected_completely(p, ports, requests, count - 1, a, m, first, between);
        assert(port_known(p, ports[count - 1], requests));
    }
}

} // verus!
