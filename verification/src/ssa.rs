//! Statement-ordered versions of values.
use vstd::prelude::*;
use std::collections::HashMap;
use crate::arena;
use crate::arena::{PathCondition, PathNode};
use crate::dag::DependencyDag;
use crate::order;
use crate::order::{sort_dedup, Ordered};
use crate::path;
use crate::path::BranchId;
use crate::relation::{PositionDomain, PositionRelation, SourceRef};
use crate::remap;

verus! {

/// One value of a key at some point of a procedure.
pub enum Version {
    /// The value before the first statement.
    Entry(u64),
    /// A value computed from others under a condition.
    Definition { sources: Vec<SourceRef>, condition: PathCondition },
    /// One of several values, depending on the path taken.
    Phi(Vec<usize>),
    /// A root of an imported graph.
    Imported { import: usize, root: Option<usize> },
    /// The positions of another value that lie in a domain.
    Projected { source: usize, domain: PositionDomain },
    /// A finite regular transfer.
    Repeated {
        source: usize,
        initial: PositionRelation,
        step: PositionRelation,
        domain: PositionDomain,
    },
}

/// The values that stand for the external keys of an imported graph.
pub struct KeyBinding {
    pub key: u64,
    pub sources: Vec<SourceRef>,
}

/// A graph as it is used at one place: its external keys bound and its branches renamed.
pub struct Import {
    pub graph: usize,
    /// One entry for a bound key; the keys ascend.
    pub bindings: Vec<KeyBinding>,
    /// The source branches ascend.
    pub mapping: Vec<(BranchId, BranchId)>,
}

/// A key and the version that it has.
#[derive(Clone, Copy, Debug, PartialEq, Eq, Hash, Structural)]
pub struct Binding {
    pub key: u64,
    pub version: usize,
}

/// A binding as it was before a change.
#[derive(Clone, Copy, Debug, PartialEq, Eq, Hash, Structural)]
pub struct Undo {
    pub key: u64,
    pub previous: Option<usize>,
}

/// A point to which the bindings can be rolled back.
#[derive(Clone, Copy, Debug, PartialEq, Eq, Hash, Structural)]
pub struct Checkpoint {
    pub undo_start: usize,
    pub depth: usize,
    pub version_start: usize,
}

/// The bindings that a branch has changed; the keys ascend.
pub struct BranchState {
    pub bindings: Vec<Binding>,
}

/// The recording of one function body.
#[derive(Clone, Copy, Debug, PartialEq, Eq, Hash, Structural)]
pub struct StateRevision {
    pub id: usize,
    pub event_start: usize,
    pub checkpoint_depth: usize,
}

/// A change of a binding, or an exit.
#[derive(Clone, Copy, Debug, PartialEq, Eq, Hash, Structural)]
pub enum StateRevisionEvent {
    Change { key: u64, previous: Option<usize>, current: Option<usize> },
    Exit(usize),
}

/// Versions, their current bindings, and how to undo them.
pub struct SsaStore {
    pub versions: Vec<Version>,
    pub entries: HashMap<u64, usize>,
    pub current: HashMap<u64, usize>,
    pub undo: Vec<Undo>,
    pub checkpoints: Vec<usize>,
    pub revision_events: Vec<StateRevisionEvent>,
    pub active_revisions: Vec<usize>,
    pub next_revision_id: usize,
    pub graphs: Vec<DependencyDag>,
    pub imports: Vec<Import>,
}

/// The bindings before the undo entries from `from` on were made.
pub open spec fn undone(current: Map<u64, usize>, undo: Seq<Undo>, from: int) -> Map<u64, usize>
    decreases undo.len(),
{
    if undo.len() <= from || undo.len() == 0 {
        current
    } else {
        let last = undo.last();
        let before = match last.previous {
            Some(version) => current.insert(last.key, version),
            None => current.remove(last.key),
        };
        undone(before, undo.drop_last(), from)
    }
}

/// The binding of `key` in a map.
pub open spec fn binding_of(current: Map<u64, usize>, key: u64) -> Option<usize> {
    if current.contains_key(key) {
        Some(current[key])
    } else {
        None
    }
}

/// The value of `key` after the recorded events, where it was `initial` before them.
pub open spec fn value_after(
    events: Seq<StateRevisionEvent>,
    key: u64,
    initial: Option<usize>,
) -> Option<usize>
    decreases events.len(),
{
    if events.len() == 0 {
        initial
    } else {
        match events.last() {
            StateRevisionEvent::Change { key: changed, current, .. } if changed == key => current,
            _ => value_after(events.drop_last(), key, initial),
        }
    }
}

/// The events change `key`.
pub open spec fn changes(events: Seq<StateRevisionEvent>, key: u64) -> bool {
    exists|i: int|
        0 <= i < events.len() && ((#[trigger] events[i]) matches StateRevisionEvent::Change {
            key: changed,
            ..
        } && changed == key)
}

/// The last recorded value of every changed key is its current binding.
pub open spec fn events_follow(events: Seq<StateRevisionEvent>, current: Map<u64, usize>) -> bool {
    forall|key: u64| #[trigger]
        changes(events, key) ==> value_after(events, key, None) == binding_of(current, key)
}

/// The event is a change of a key from what the events before it left.
pub open spec fn change_right(events: Seq<StateRevisionEvent>, i: int, before: Map<u64, usize>) -> bool {
    events[i] matches StateRevisionEvent::Change { key, previous, current } && previous != current && previous == value_after(
        events.take(i),
        key,
        binding_of(before, key),
    )
}

/// The events are changes that lead from the one bindings to the other, one after the other.
pub open spec fn led(events: Seq<StateRevisionEvent>, before: Map<u64, usize>, after: Map<u64, usize>) -> bool {
    &&& forall|key: u64| #[trigger] binding_of(after, key) == value_after(events, key, binding_of(before, key))
    &&& forall|i: int| 0 <= i < events.len() ==> #[trigger] change_right(events, i, before)
}

/// While a recording is open, exactly the changes of bindings are noted; the recordings stay as they
/// are.
pub open spec fn records(a: SsaStore, b: SsaStore) -> bool {
    &&& b.active_revisions@ == a.active_revisions@
    &&& b.next_revision_id == a.next_revision_id
    &&& ({
        ||| b.revision_events@ == a.revision_events@ && (a.active_revisions@.len() == 0 || b.current@ == a.current@)
        ||| a.active_revisions@.len() > 0 && a.revision_events@.len() <= b.revision_events@.len() && b.revision_events@.take(
            a.revision_events@.len() as int,
        ) == a.revision_events@ && led(b.revision_events@.skip(a.revision_events@.len() as int), a.current@, b.current@)
    })
}

/// The recordings are as they were.
pub open spec fn recordings_same(a: SsaStore, b: SsaStore) -> bool {
    &&& b.active_revisions@ == a.active_revisions@
    &&& b.next_revision_id == a.next_revision_id
    &&& b.revision_events@ == a.revision_events@
}

/// What could be taken back can still be taken back.
pub open spec fn saved_same(a: SsaStore, b: SsaStore, count: int) -> bool {
    forall|depth: int| 0 <= depth < count ==> #[trigger] b.saved(depth) == a.saved(depth)
}

/// From now on changes can be taken back.
pub open spec fn scope_opened(a: SsaStore, b: SsaStore) -> bool {
    &&& same_versions(a, b)
    &&& b.current == a.current
    &&& b.checkpoints@.len() == a.checkpoints@.len() + 1
    &&& forall|depth: int| 0 <= depth < a.checkpoints@.len() ==> #[trigger] b.checkpoints@[depth] == a.checkpoints@[depth]
    &&& b.saved(a.checkpoints@.len() as int) == a.current@
    &&& saved_same(a, b, a.checkpoints@.len() as int)
}

/// The changes since the innermost checkpoint are taken back.
pub open spec fn scope_closed(a: SsaStore, b: SsaStore) -> bool {
    &&& same_versions(a, b)
    &&& b.current@ == a.saved(a.checkpoints@.len() - 1)
    &&& b.checkpoints@ == a.checkpoints@.drop_last()
    &&& saved_same(a, b, b.checkpoints@.len() as int)
    &&& records(a, b)
}

/// A checkpoint is closed: versions are added only, what was saved before it stays, and so do the
/// recordings.
pub open spec fn closes_checkpoint(a: SsaStore, b: SsaStore) -> bool {
    &&& versions_grow(a.versions@, b.versions@)
    &&& b.graphs == a.graphs
    &&& b.checkpoints@ == a.checkpoints@.drop_last()
    &&& forall|depth: int| 0 <= depth < b.checkpoints@.len() ==> #[trigger] b.saved(depth) == a.saved(depth)
    &&& recordings_stay(a, b)
}

/// The recordings stay open, and events are added only.
pub open spec fn recordings_stay(a: SsaStore, b: SsaStore) -> bool {
    &&& b.active_revisions@ == a.active_revisions@
    &&& a.next_revision_id <= b.next_revision_id
    &&& a.active_revisions@.len() > 0 ==> a.revision_events@.len() <= b.revision_events@.len()
}

pub proof fn lemma_value_after_both(first: Seq<StateRevisionEvent>, second: Seq<StateRevisionEvent>, key: u64, initial: Option<usize>)
    ensures
        value_after(first + second, key, initial) == value_after(second, key, value_after(first, key, initial)),
    decreases second.len(),
{
    if second.len() == 0 {
        assert(first + second =~= first);
    } else {
        lemma_value_after_both(first, second.drop_last(), key, initial);
        assert((first + second).drop_last() =~= first + second.drop_last());
        assert((first + second).last() == second.last());
    }
}

/// Changes that lead from bindings to bindings, and on to others, lead to those.
pub proof fn leading_is_transitive(
    first: Seq<StateRevisionEvent>,
    second: Seq<StateRevisionEvent>,
    a: Map<u64, usize>,
    b: Map<u64, usize>,
    c: Map<u64, usize>,
)
    requires
        led(first, a, b),
        led(second, b, c),
    ensures
        led(first + second, a, c),
{
    let both = first + second;
    assert forall|key: u64| #[trigger] binding_of(c, key) == value_after(both, key, binding_of(a, key)) by {
        lemma_value_after_both(first, second, key, binding_of(a, key));
        assert(binding_of(b, key) == value_after(first, key, binding_of(a, key)));
    }
    assert forall|i: int| 0 <= i < both.len() implies #[trigger] change_right(both, i, a) by {
        if i < first.len() {
            assert(change_right(first, i, a));
            assert(both.take(i) =~= first.take(i));
        } else {
            let j = i - first.len();
            assert(change_right(second, j, b));
            assert(both.take(i) =~= first + second.take(j));
            let key = second[j]->key;
            lemma_value_after_both(first, second.take(j), key, binding_of(a, key));
            assert(binding_of(b, key) == value_after(first, key, binding_of(a, key)));
        }
    }
}

/// Noting exactly the changes twice notes exactly the changes.
pub proof fn records_is_transitive(a: SsaStore, b: SsaStore, c: SsaStore)
    requires
        records(a, b),
        records(b, c),
    ensures
        records(a, c),
{
    let ea = a.revision_events@;
    let eb = b.revision_events@;
    let ec = c.revision_events@;
    if a.active_revisions@.len() > 0 && !(ec == ea && c.current@ == a.current@) {
        let first = eb.skip(ea.len() as int);
        let second = ec.skip(eb.len() as int);
        if eb == ea && b.current@ == a.current@ {
        } else if ec == eb && c.current@ == b.current@ {
        } else {
            leading_is_transitive(first, second, a.current@, b.current@, c.current@);
            assert(ec.skip(ea.len() as int) =~= first + second) by {
                assert(ec.take(eb.len() as int) =~= eb);
                assert forall|i: int| 0 <= i < first.len() implies ec.skip(ea.len() as int)[i] == first[i] by {
                    assert(ec.take(eb.len() as int)[ea.len() + i] == eb[ea.len() + i]);
                }
            }
            assert(ec.take(ea.len() as int) =~= ea) by {
                assert forall|i: int| 0 <= i < ea.len() implies ec[i] == ea[i] by {
                    assert(ec.take(eb.len() as int)[i] == eb[i]);
                    assert(eb.take(ea.len() as int)[i] == ea[i]);
                }
            }
        }
    }
}

/// A change of one binding that is noted.
pub proof fn lemma_change_noted(a: SsaStore, b: SsaStore, key: u64)
    requires
        b.active_revisions@ == a.active_revisions@,
        b.next_revision_id == a.next_revision_id,
        forall|k: u64| k != key ==> #[trigger] binding_of(b.current@, k) == binding_of(a.current@, k),
        b.revision_events@ == (if binding_of(a.current@, key) != binding_of(b.current@, key) && a.active_revisions@.len() > 0 {
            a.revision_events@.push(
                StateRevisionEvent::Change { key, previous: binding_of(a.current@, key), current: binding_of(b.current@, key) },
            )
        } else {
            a.revision_events@
        }),
    ensures
        records(a, b),
{
    if a.active_revisions@.len() > 0 {
        if binding_of(a.current@, key) == binding_of(b.current@, key) {
            assert forall|k: u64| #[trigger] a.current@.contains_key(k) <==> b.current@.contains_key(k) by {
                assert(binding_of(b.current@, k) == binding_of(a.current@, k));
            }
            assert forall|k: u64| a.current@.contains_key(k) implies #[trigger] a.current@[k] == b.current@[k] by {
                assert(binding_of(b.current@, k) == binding_of(a.current@, k));
            }
            assert(b.current@ =~= a.current@);
        } else {
            let event = StateRevisionEvent::Change { key, previous: binding_of(a.current@, key), current: binding_of(b.current@, key) };
            let added = b.revision_events@.skip(a.revision_events@.len() as int);
            assert(added =~= seq![event]);
            assert(b.revision_events@.take(a.revision_events@.len() as int) =~= a.revision_events@);
            assert(added.drop_last() =~= Seq::<StateRevisionEvent>::empty());
            assert forall|k: u64| #[trigger] binding_of(b.current@, k) == value_after(added, k, binding_of(a.current@, k)) by {
                assert(value_after(added.drop_last(), k, binding_of(a.current@, k)) == binding_of(a.current@, k));
            }
            assert forall|i: int| 0 <= i < added.len() implies #[trigger] change_right(added, i, a.current@) by {
                assert(added.take(0) =~= Seq::<StateRevisionEvent>::empty());
            }
            assert(led(added, a.current@, b.current@));
        }
    }
}

/// The versions that the events mention exist.
pub open spec fn events_below(events: Seq<StateRevisionEvent>, limit: int) -> bool {
    forall|i: int|
        0 <= i < events.len() ==> ((#[trigger] events[i]) matches StateRevisionEvent::Change {
            previous,
            current,
            ..
        } ==> (previous matches Some(v) ==> v < limit) && (current matches Some(v) ==> v < limit))
}

/// Every source comes before `limit`.
pub open spec fn sources_before(sources: Seq<SourceRef>, limit: int) -> bool {
    forall|i: int| 0 <= i < sources.len() ==> (#[trigger] sources[i]).version < limit
}

/// The keys ascend.
pub open spec fn bindings_sorted(bindings: Seq<KeyBinding>) -> bool {
    forall|i: int, j: int|
        0 <= i < j < bindings.len() ==> (#[trigger] bindings[i]).key < (#[trigger] bindings[j]).key
}

pub open spec fn states_sorted(bindings: Seq<Binding>) -> bool {
    forall|i: int, j: int|
        0 <= i < j < bindings.len() ==> (#[trigger] bindings[i]).key < (#[trigger] bindings[j]).key
}

/// The version of `key` in a list of bindings.
pub open spec fn bound(bindings: Seq<Binding>, key: u64, version: usize) -> bool {
    bindings.contains(Binding { key, version })
}

/// Some version of `key` is listed.
pub open spec fn binds(bindings: Seq<Binding>, key: u64) -> bool {
    exists|i: int| 0 <= i < bindings.len() && (#[trigger] bindings[i]).key == key
}

impl BranchState {
    pub open spec fn wf(self) -> bool {
        states_sorted(self.bindings@)
    }

    /// A branch that changed nothing.
    pub fn empty() -> (r: Self)
        ensures
            r.bindings@.len() == 0,
            r.wf(),
    {
        BranchState { bindings: Vec::new() }
    }

    /// The version that the branch gives `key`, if it changed it.
    pub fn get(&self, key: u64) -> (r: Option<usize>)
        requires
            self.wf(),
        ensures
            r is Some <==> binds(self.bindings@, key),
            r matches Some(v) ==> bound(self.bindings@, key, v),
    {
        let mut low: usize = 0;
        let mut high: usize = self.bindings.len();
        while low < high
            invariant
                low <= high <= self.bindings.len(),
                self.wf(),
                forall|k: int| 0 <= k < low ==> (#[trigger] self.bindings@[k]).key < key,
                forall|k: int|
                    high <= k < self.bindings.len() ==> key < (#[trigger] self.bindings@[k]).key,
            decreases high - low,
        {
            let middle: usize = low + (high - low) / 2;
            let found = self.bindings[middle];
            if found.key < key {
                low = middle + 1;
            } else if key < found.key {
                high = middle;
            } else {
                assert(self.bindings@[middle as int] == Binding { key, version: found.version });
                return Some(found.version);
            }
        }
        None
    }
}

impl Version {
    /// What the version refers to comes before `limit` and belongs to the store.
    pub open spec fn wf(
        self,
        limit: int,
        graphs: Seq<DependencyDag>,
        imports: Seq<Import>,
    ) -> bool {
        match self {
            Version::Entry(_) => true,
            Version::Definition { sources, .. } => sources_before(sources@, limit)
                && order::strictly_sorted(sources@),
            Version::Phi(inputs) => order::strictly_sorted(inputs@) && inputs@.len() != 1
                && forall|i: int| 0 <= i < inputs@.len() ==> (#[trigger] inputs@[i]) < limit,
            Version::Imported { import, root } => {
                &&& import < imports.len()
                &&& (root matches Some(n) ==> n < graphs[imports[import as int].graph as int].nodes@.len())
                &&& forall|b: int|
                    0 <= b < imports[import as int].bindings@.len() ==> sources_before(
                        (#[trigger] imports[import as int].bindings@[b]).sources@,
                        limit,
                    )
            },
            Version::Projected { source, .. } => source < limit,
            Version::Repeated { source, .. } => source < limit,
        }
    }

    /// The condition of the version belongs to the arena.
    pub open spec fn guarded_in(self, nodes: Seq<PathNode>) -> bool {
        self matches Version::Definition { condition, .. } ==> condition.node < nodes.len()
    }
}

impl Import {
    pub open spec fn wf(self, graphs: Seq<DependencyDag>) -> bool {
        &&& self.graph < graphs.len()
        &&& bindings_sorted(self.bindings@)
        &&& forall|i: int, j: int|
            0 <= i < j < self.mapping@.len() ==> (#[trigger] self.mapping@[i]).0.lt(
                (#[trigger] self.mapping@[j]).0,
            )
    }
}

/// Some edge of the graph is taken or not depending on `branch`.
pub open spec fn graph_branch(dag: DependencyDag, nodes: Seq<PathNode>, branch: BranchId) -> bool {
    exists|e: int|
        0 <= e < dag.edges@.len() && path::constrains(
            arena::path_of(nodes, (#[trigger] dag.edges@[e]).condition.node as int),
            branch,
        )
}

/// The renaming keeps the order and the arms of every branch of the graph.
pub open spec fn renames_graph(
    mapping: Seq<(BranchId, BranchId)>,
    dag: DependencyDag,
    nodes: Seq<PathNode>,
) -> bool {
    &&& forall|a: BranchId, b: BranchId|
        #[trigger] graph_branch(dag, nodes, a) && #[trigger] graph_branch(dag, nodes, b) && a.lt(b)
            ==> remap::renamed(mapping, a).lt(remap::renamed(mapping, b))
    &&& forall|a: BranchId| #[trigger]
        graph_branch(dag, nodes, a) ==> remap::renamed(mapping, a).arms == a.arms
}

impl SsaStore {
    /// The bindings that `checkpoint` number `depth` would restore.
    pub open spec fn saved(self, depth: int) -> Map<u64, usize> {
        undone(self.current@, self.undo@, self.checkpoints@[depth] as int)
    }

    /// The checkpoint is still open.
    pub open spec fn open_checkpoint(self, checkpoint: Checkpoint) -> bool {
        &&& checkpoint.depth < self.checkpoints@.len()
        &&& self.checkpoints@[checkpoint.depth as int] == checkpoint.undo_start
        &&& checkpoint.version_start <= self.versions@.len()
    }

    pub open spec fn entries_wf(self) -> bool {
        &&& forall|k: u64| #[trigger]
            self.entries@.contains_key(k) ==> self.entries@[k] < self.versions@.len()
                && self.versions@[self.entries@[k] as int] == Version::Entry(k)
        &&& forall|i: int|
            0 <= i < self.versions@.len() ==> ((#[trigger] self.versions@[i]) matches Version::Entry(
                k,
            ) ==> self.entries@.contains_key(k) && self.entries@[k] == i)
    }

    /// The conditions that the store holds belong to the arena, and its imports rename branches
    /// in order.
    pub open spec fn guards_in(self, nodes: Seq<PathNode>) -> bool {
        &&& forall|i: int|
            0 <= i < self.versions@.len() ==> (#[trigger] self.versions@[i]).guarded_in(nodes)
        &&& forall|g: int|
            0 <= g < self.graphs@.len() ==> (#[trigger] self.graphs@[g]).guarded_in(nodes)
        &&& forall|i: int|
            0 <= i < self.imports@.len() ==> renames_graph(
                (#[trigger] self.imports@[i]).mapping@,
                self.graphs@[self.imports@[i].graph as int],
                nodes,
            )
    }

    pub open spec fn wf(self) -> bool {
        &&& self.entries_wf()
        &&& forall|i: int|
            0 <= i < self.versions@.len() ==> (#[trigger] self.versions@[i]).wf(
                i,
                self.graphs@,
                self.imports@,
            )
        &&& forall|i: int|
            0 <= i < self.imports@.len() ==> (#[trigger] self.imports@[i]).wf(self.graphs@)
        &&& forall|g: int|
            0 <= g < self.graphs@.len() ==> (#[trigger] self.graphs@[g]).wf()
                && self.graphs@[g].forward()
        &&& forall|k: u64| #[trigger]
            self.current@.contains_key(k) ==> self.current@[k] < self.versions@.len()
        &&& forall|i: int|
            0 <= i < self.undo@.len() ==> ((#[trigger] self.undo@[i]).previous matches Some(v) ==> v
                < self.versions@.len())
        &&& forall|i: int, j: int|
            0 <= i <= j < self.checkpoints@.len() ==> #[trigger] self.checkpoints@[i]
                <= #[trigger] self.checkpoints@[j]
        &&& forall|i: int|
            0 <= i < self.checkpoints@.len() ==> (#[trigger] self.checkpoints@[i])
                <= self.undo@.len()
        &&& self.checkpoints@.len() == 0 ==> self.undo@.len() == 0
        &&& self.checkpoints@.len() > 0 ==> self.checkpoints@[0] == 0
        &&& self.active_revisions@.len() > 0 ==> events_follow(
            self.revision_events@,
            self.current@,
        ) && events_below(self.revision_events@, self.versions@.len() as int)
    }
}

impl Default for SsaStore {
    fn default() -> (r: Self)
        ensures
            r.versions@.len() == 0,
            r.current@ == Map::<u64, usize>::empty(),
            r.entries@ == Map::<u64, usize>::empty(),
            r.checkpoints@.len() == 0,
            r.active_revisions@.len() == 0,
            r.revision_events@.len() == 0,
            r.next_revision_id == 0,
            r.graphs@.len() == 0,
            r.imports@.len() == 0,
            r.undo@.len() == 0,
            r.wf(),
            forall|nodes: Seq<PathNode>| r.guards_in(nodes),
    {
        SsaStore {
            versions: Vec::new(),
            entries: HashMap::new(),
            current: HashMap::new(),
            undo: Vec::new(),
            checkpoints: Vec::new(),
            revision_events: Vec::new(),
            active_revisions: Vec::new(),
            next_revision_id: 0,
            graphs: Vec::new(),
            imports: Vec::new(),
        }
    }
}

/// `b` holds every version of `a` at the same place.
pub open spec fn versions_grow(a: Seq<Version>, b: Seq<Version>) -> bool {
    a.len() <= b.len() && forall|i: int| 0 <= i < a.len() ==> #[trigger] a[i] == b[i]
}

/// `version` is one of `inputs`, chosen by the path taken: the input itself if there is only one.
pub open spec fn is_phi(versions: Seq<Version>, inputs: Set<usize>, version: usize) -> bool {
    &&& version < versions.len()
    &&& if exists|x: usize| inputs == set![x] {
        inputs.contains(version)
    } else {
        versions[version as int] matches Version::Phi(list) && order::strictly_sorted(list@)
            && forall|x: usize| #[trigger] list@.contains(x) <==> inputs.contains(x)
    }
}

/// Growing the arena keeps the conditions of a store in it.
pub proof fn store_survives_growth(store: SsaStore, a: Seq<PathNode>, b: Seq<PathNode>)
    requires
        store.wf(),
        store.guards_in(a),
        arena::grows(a, b),
    ensures
        store.guards_in(b),
{
    assert forall|i: int| 0 <= i < store.versions@.len() implies (#[trigger] store.versions@[i]).guarded_in(b) by {
        assert(store.versions@[i].guarded_in(a));
    }
    assert forall|g: int| 0 <= g < store.graphs@.len() implies (#[trigger] store.graphs@[g]).guarded_in(b) by {
        assert(store.graphs@[g].guarded_in(a));
    }
    assert forall|i: int| 0 <= i < store.imports@.len() implies renames_graph(
        (#[trigger] store.imports@[i]).mapping@,
        store.graphs@[store.imports@[i].graph as int],
        b,
    ) by {
        let import = store.imports@[i];
        assert(import.wf(store.graphs@));
        let dag = store.graphs@[import.graph as int];
        assert(dag.guarded_in(a));
        assert forall|e: int| 0 <= e < dag.edges@.len() implies arena::path_of(
            b,
            (#[trigger] dag.edges@[e]).condition.node as int,
        ) == arena::path_of(a, dag.edges@[e].condition.node as int) by {
            arena::growth_keeps_paths(a, b, dag.edges@[e].condition.node as int);
        }
        assert forall|branch: BranchId| #[trigger] graph_branch(dag, b, branch) <==> graph_branch(
            dag,
            a,
            branch,
        ) by {
            if graph_branch(dag, b, branch) {
                let e = choose|e: int|
                    0 <= e < dag.edges@.len() && path::constrains(
                        arena::path_of(b, (#[trigger] dag.edges@[e]).condition.node as int),
                        branch,
                    );
                assert(path::constrains(
                    arena::path_of(a, dag.edges@[e].condition.node as int),
                    branch,
                ));
            }
            if graph_branch(dag, a, branch) {
                let e = choose|e: int|
                    0 <= e < dag.edges@.len() && path::constrains(
                        arena::path_of(a, (#[trigger] dag.edges@[e]).condition.node as int),
                        branch,
                    );
                assert(path::constrains(
                    arena::path_of(b, dag.edges@[e].condition.node as int),
                    branch,
                ));
            }
        }
    }
}

/// Nothing but versions and entries changed, and those only grew.
pub open spec fn same_state(a: SsaStore, b: SsaStore) -> bool {
    &&& a.current@ == b.current@
    &&& a.undo@ == b.undo@
    &&& a.checkpoints@ == b.checkpoints@
    &&& a.revision_events@ == b.revision_events@
    &&& a.active_revisions@ == b.active_revisions@
    &&& a.next_revision_id == b.next_revision_id
    &&& a.graphs == b.graphs
    &&& a.imports == b.imports
    &&& versions_grow(a.versions@, b.versions@)
    &&& forall|k: u64| #[trigger]
        a.entries@.contains_key(k) ==> b.entries@.contains_key(k) && b.entries@[k] == a.entries@[k]
}

impl SsaStore {
    /// Adds a version that is not an entry.
    pub(crate) fn push_version(&mut self, version: Version) -> (r: usize)
        requires
            old(self).wf(),
            version.wf(
                old(self).versions@.len() as int,
                old(self).graphs@,
                old(self).imports@,
            ),
            !(version is Entry),
        ensures
            final(self).wf(),
            r == old(self).versions@.len(),
            final(self).versions@ == old(self).versions@.push(version),
            final(self).entries@ == old(self).entries@,
            same_state(*old(self), *final(self)),
            forall|nodes: Seq<PathNode>| #[trigger]
                old(self).guards_in(nodes) && version.guarded_in(nodes) ==> final(self).guards_in(
                    nodes,
                ),
    {
        let r: usize = self.versions.len();
        self.versions.push(version);
        proof {
            assert forall|i: int| 0 <= i < self.versions@.len() implies (#[trigger] self.versions@[i]).wf(
                i,
                self.graphs@,
                self.imports@,
            ) by {
                if i < old(self).versions@.len() {
                    assert(old(self).versions@[i].wf(i, self.graphs@, self.imports@));
                }
            }
            assert forall|i: int| 0 <= i < self.versions@.len() implies ((#[trigger] self.versions@[i]) matches Version::Entry(k)
                ==> self.entries@.contains_key(k) && self.entries@[k] == i) by {
                if i < old(self).versions@.len() {
                    assert(old(self).versions@[i] == self.versions@[i]);
                }
            }
        }
        r
    }

    /// The live-on-entry version of `key`.
    pub fn entry(&mut self, key: u64) -> (r: usize)
        requires
            old(self).wf(),
        ensures
            final(self).wf(),
            r < final(self).versions@.len(),
            final(self).versions@[r as int] == Version::Entry(key),
            final(self).entries@ == old(self).entries@.insert(key, r),
            old(self).entries@.contains_key(key) ==> *final(self) == *old(self) && r == old(self).entries@[key],
            !old(self).entries@.contains_key(key) ==> final(self).versions@ == old(self).versions@.push(Version::Entry(key)) && r == old(self).versions@.len(),
            same_state(*old(self), *final(self)),
            forall|nodes: Seq<PathNode>| #[trigger]
                old(self).guards_in(nodes) ==> final(self).guards_in(nodes),
    {
        if let Some(version) = self.entries.get(&key) {
            assert(self.entries@ =~= self.entries@.insert(key, *version));
            return *version;
        }
        let version: usize = self.versions.len();
        self.versions.push(Version::Entry(key));
        self.entries.insert(key, version);
        proof {
            assert forall|i: int| 0 <= i < self.versions@.len() implies (#[trigger] self.versions@[i]).wf(
                i,
                self.graphs@,
                self.imports@,
            ) by {
                if i < old(self).versions@.len() {
                    assert(old(self).versions@[i].wf(i, self.graphs@, self.imports@));
                }
            }
            assert forall|k: u64| #[trigger] self.entries@.contains_key(k) implies self.entries@[k] < self.versions@.len()
                && self.versions@[self.entries@[k] as int] == Version::Entry(k) by {
                if k != key {
                    assert(old(self).entries@.contains_key(k));
                }
            }
            assert forall|i: int| 0 <= i < self.versions@.len() implies ((#[trigger] self.versions@[i]) matches Version::Entry(k)
                ==> self.entries@.contains_key(k) && self.entries@[k] == i) by {
                if i < old(self).versions@.len() {
                    assert(old(self).versions@[i] == self.versions@[i]);
                }
            }
        }
        version
    }
}

/// Whatever conditions belong to the arena still do.
pub open spec fn keeps_guards(a: SsaStore, b: SsaStore) -> bool {
    forall|nodes: Seq<PathNode>| #[trigger] a.guards_in(nodes) ==> b.guards_in(nodes)
}

/// The versions, graphs and imports are the same.
pub open spec fn same_versions(a: SsaStore, b: SsaStore) -> bool {
    &&& a.versions == b.versions
    &&& a.entries == b.entries
    &&& a.graphs == b.graphs
    &&& a.imports == b.imports
}

proof fn lemma_undo_push(current: Map<u64, usize>, undo: Seq<Undo>, from: int, key: u64, version: usize)
    requires
        0 <= from <= undo.len(),
    ensures
        undone(
            current.insert(key, version),
            undo.push(Undo { key, previous: binding_of(current, key) }),
            from,
        ) == undone(current, undo, from),
{
    let pushed = undo.push(Undo { key, previous: binding_of(current, key) });
    assert(pushed.drop_last() =~= undo);
    match binding_of(current, key) {
        Some(old) => {
            assert(current.insert(key, version).insert(key, old) =~= current);
        },
        None => {
            assert(current.insert(key, version).remove(key) =~= current);
        },
    }
}

pub(crate) proof fn lemma_events_push(
    events: Seq<StateRevisionEvent>,
    before: Map<u64, usize>,
    after: Map<u64, usize>,
    key: u64,
)
    requires
        events_follow(events, before),
        forall|k: u64| k != key ==> #[trigger] binding_of(after, k) == binding_of(before, k),
    ensures
        events_follow(
            events.push(
                StateRevisionEvent::Change {
                    key,
                    previous: binding_of(before, key),
                    current: binding_of(after, key),
                },
            ),
            after,
        ),
        binding_of(before, key) == binding_of(after, key) ==> events_follow(events, after),
{
    let event = StateRevisionEvent::Change {
        key,
        previous: binding_of(before, key),
        current: binding_of(after, key),
    };
    let pushed = events.push(event);
    assert(pushed.drop_last() =~= events);
    assert forall|k: u64| #[trigger] changes(pushed, k) implies value_after(pushed, k, None) == binding_of(after, k) by {
        if k != key {
            let i = choose|i: int|
                0 <= i < pushed.len() && ((#[trigger] pushed[i]) matches StateRevisionEvent::Change {
                    key: changed,
                    ..
                } && changed == k);
            assert(events[i] == pushed[i]);
            assert(changes(events, k));
        }
    }
    if binding_of(before, key) == binding_of(after, key) {
        assert forall|k: u64| #[trigger] changes(events, k) implies value_after(events, k, None) == binding_of(after, k) by {
            assert(value_after(events, k, None) == binding_of(before, k));
        }
    }
}

impl SsaStore {
    /// Notes a change of binding while a recording is active.
    pub(crate) fn record_revision_change(
        &mut self,
        key: u64,
        previous: Option<usize>,
        current: Option<usize>,
    )
        ensures
            final(self).revision_events@ == (if previous != current && old(self).active_revisions@.len() > 0 {
                old(self).revision_events@.push(
                    StateRevisionEvent::Change { key, previous, current },
                )
            } else {
                old(self).revision_events@
            }),
            same_versions(*old(self), *final(self)),
            final(self).current == old(self).current,
            final(self).undo == old(self).undo,
            final(self).checkpoints == old(self).checkpoints,
            final(self).active_revisions == old(self).active_revisions,
            final(self).next_revision_id == old(self).next_revision_id,
    {
        if previous != current && self.active_revisions.len() > 0 {
            self.revision_events.push(StateRevisionEvent::Change { key, previous, current });
        }
    }

    /// Gives `key` a version.
    pub fn bind(&mut self, key: u64, version: usize)
        requires
            old(self).wf(),
            version < old(self).versions@.len(),
        ensures
            final(self).wf(),
            same_versions(*old(self), *final(self)),
            final(self).current@ == old(self).current@.insert(key, version),
            final(self).checkpoints == old(self).checkpoints,
            forall|depth: int|
                0 <= depth < old(self).checkpoints@.len() ==> #[trigger] final(self).saved(depth)
                    == old(self).saved(depth),
            final(self).active_revisions == old(self).active_revisions,
            final(self).next_revision_id == old(self).next_revision_id,
            final(self).revision_events@ == (if binding_of(old(self).current@, key) != Some(version)
                && old(self).active_revisions@.len() > 0 {
                old(self).revision_events@.push(
                    StateRevisionEvent::Change {
                        key,
                        previous: binding_of(old(self).current@, key),
                        current: Some(version),
                    },
                )
            } else {
                old(self).revision_events@
            }),
            records(*old(self), *final(self)),
            keeps_guards(*old(self), *final(self)),
    {
        let previous: Option<usize> = match self.current.get(&key) {
            Some(found) => Some(*found),
            None => None,
        };
        let ghost before = self.current@;
        self.current.insert(key, version);
        self.record_revision_change(key, previous, Some(version));
        if self.checkpoints.len() > 0 {
            self.undo.push(Undo { key, previous });
            proof {
                assert forall|depth: int| 0 <= depth < self.checkpoints@.len() implies #[trigger] self.saved(depth) == old(self).saved(depth) by {
                    lemma_undo_push(before, old(self).undo@, self.checkpoints@[depth] as int, key, version);
                }
            }
        }
        proof {
            assert(previous == binding_of(before, key));
            assert forall|k: u64| k != key implies #[trigger] binding_of(self.current@, k) == binding_of(before, k) by {}
            if self.active_revisions@.len() > 0 {
                lemma_events_push(old(self).revision_events@, before, self.current@, key);
            }
            lemma_change_noted(*old(self), *self, key);
        }
    }

    /// The current version of `key`, which is its live-on-entry version until it is bound.
    pub fn read(&mut self, key: u64) -> (r: usize)
        requires
            old(self).wf(),
        ensures
            final(self).wf(),
            r < final(self).versions@.len(),
            old(self).current@.contains_key(key) ==> *final(self) == *old(self) && r == old(self).current@[key],
            !old(self).current@.contains_key(key) ==> final(self).versions@[r as int]
                == Version::Entry(key) && final(self).entries@ == old(self).entries@.insert(key, r),
            same_state(*old(self), *final(self)),
            keeps_guards(*old(self), *final(self)),
    {
        if let Some(version) = self.current.get(&key) {
            return *version;
        }
        self.entry(key)
    }

    /// A value that is one of `inputs`, depending on the path taken.
    pub fn phi(&mut self, inputs: &Vec<usize>) -> (r: usize)
        requires
            old(self).wf(),
            forall|i: int|
                0 <= i < inputs@.len() ==> (#[trigger] inputs@[i]) < old(self).versions@.len(),
        ensures
            final(self).wf(),
            is_phi(final(self).versions@, inputs@.to_set(), r),
            final(self).entries@ == old(self).entries@,
            same_state(*old(self), *final(self)),
            keeps_guards(*old(self), *final(self)),
            r < old(self).versions@.len() ==> *final(self) == *old(self),
    {
        let list = sort_dedup(inputs);
        let ghost all = inputs@.to_set();
        proof {
            assert forall|x: usize| #[trigger] list@.contains(x) <==> all.contains(x) by {
                assert(list@.contains(x) <==> inputs@.contains(x));
            }
        }
        if list.len() == 1 {
            let r: usize = list[0];
            proof {
                assert(list@.contains(r));
                assert(inputs@.contains(r));
                let i = choose|i: int| 0 <= i < inputs@.len() && inputs@[i] == r;
                assert(inputs@[i] < self.versions@.len());
                assert(all =~= set![r]) by {
                    assert forall|x: usize| all.contains(x) implies x == r by {
                        assert(list@.contains(x));
                    }
                }
            }
            return r;
        }
        proof {
            assert forall|i: int| 0 <= i < list@.len() implies (#[trigger] list@[i]) < self.versions@.len() by {
                assert(list@.contains(list@[i]));
                assert(inputs@.contains(list@[i]));
                let k = choose|k: int| 0 <= k < inputs@.len() && inputs@[k] == list@[i];
                assert(inputs@[k] < self.versions@.len());
            }
            if exists|x: usize| all == set![x] {
                let x = choose|x: usize| all == set![x];
                assert(all.contains(x));
                assert(list@.contains(x));
                assert forall|i: int| 0 <= i < list@.len() implies list@[i] == x by {
                    assert(list@.contains(list@[i]));
                    assert(all.contains(list@[i]));
                }
                assert(list@[0] == list@[1]);
                assert(false);
            }
        }
        self.push_version(Version::Phi(list))
    }

    /// A value computed from all positions of `sources`.
    pub fn definition(&mut self, sources: &Vec<usize>) -> (r: usize)
        requires
            old(self).wf(),
            forall|i: int|
                0 <= i < sources@.len() ==> (#[trigger] sources@[i]) < old(self).versions@.len(),
        ensures
            final(self).wf(),
            r == old(self).versions@.len(),
            final(self).versions@.len() == old(self).versions@.len() + 1,
            final(self).versions@[r as int] matches Version::Definition { sources: list, condition }
                && condition.node == 0 && order::strictly_sorted(list@) && forall|s: SourceRef|
                #[trigger] list@.contains(s) <==> s.relation == PositionRelation::anything()
                    && sources@.contains(s.version),
            final(self).entries@ == old(self).entries@,
            same_state(*old(self), *final(self)),
            forall|nodes: Seq<PathNode>| #[trigger]
                old(self).guards_in(nodes) && nodes.len() > 0 ==> final(self).guards_in(nodes),
    {
        self.definition_guarded(sources, PathCondition { node: 0 })
    }

    /// A value computed, under `condition`, from all positions of `sources`.
    pub fn definition_guarded(&mut self, sources: &Vec<usize>, condition: PathCondition) -> (r:
        usize)
        requires
            old(self).wf(),
            forall|i: int|
                0 <= i < sources@.len() ==> (#[trigger] sources@[i]) < old(self).versions@.len(),
        ensures
            final(self).wf(),
            r == old(self).versions@.len(),
            final(self).versions@.len() == old(self).versions@.len() + 1,
            final(self).versions@[r as int] matches Version::Definition {
                sources: list,
                condition: guard,
            } && guard == condition && order::strictly_sorted(list@) && forall|s: SourceRef|
                #[trigger] list@.contains(s) <==> s.relation == PositionRelation::anything()
                    && sources@.contains(s.version),
            final(self).entries@ == old(self).entries@,
            same_state(*old(self), *final(self)),
            forall|nodes: Seq<PathNode>| #[trigger]
                old(self).guards_in(nodes) && condition.node < nodes.len() ==> final(self).guards_in(nodes),
    {
        let mut related: Vec<SourceRef> = Vec::new();
        let mut i: usize = 0;
        while i < sources.len()
            invariant
                i <= sources.len(),
                related@.len() == i,
                forall|k: int|
                    0 <= k < i ==> #[trigger] related@[k] == (SourceRef {
                        version: sources@[k],
                        relation: PositionRelation::anything(),
                    }),
            decreases sources.len() - i,
        {
            related.push(SourceRef { version: sources[i], relation: PositionRelation::whole() });
            i = i + 1;
        }
        let r = self.related_definition_guarded(&related, condition);
        proof {
            assert forall|s: SourceRef| related@.contains(s) <==> s.relation == PositionRelation::anything() && sources@.contains(s.version) by {
                if related@.contains(s) {
                    let k = choose|k: int| 0 <= k < related@.len() && related@[k] == s;
                    assert(sources@[k] == s.version);
                }
                if s.relation == PositionRelation::anything() && sources@.contains(s.version) {
                    let k = choose|k: int| 0 <= k < sources@.len() && sources@[k] == s.version;
                    assert(related@[k] == s);
                }
            }
        }
        r
    }

    /// A value computed from positions of `sources`.
    pub fn related_definition(&mut self, sources: &Vec<SourceRef>) -> (r: usize)
        requires
            old(self).wf(),
            sources_before(sources@, old(self).versions@.len() as int),
        ensures
            final(self).wf(),
            r == old(self).versions@.len(),
            final(self).versions@.len() == old(self).versions@.len() + 1,
            final(self).versions@[r as int] matches Version::Definition { sources: list, condition }
                && condition.node == 0 && order::strictly_sorted(list@) && order::same_elements(
                list@,
                sources@,
            ),
            final(self).entries@ == old(self).entries@,
            same_state(*old(self), *final(self)),
            forall|nodes: Seq<PathNode>| #[trigger]
                old(self).guards_in(nodes) && nodes.len() > 0 ==> final(self).guards_in(nodes),
    {
        self.related_definition_guarded(sources, PathCondition { node: 0 })
    }

    /// A value computed, under `condition`, from positions of `sources`. The sources are kept in
    /// order, each once.
    pub fn related_definition_guarded(
        &mut self,
        sources: &Vec<SourceRef>,
        condition: PathCondition,
    ) -> (r: usize)
        requires
            old(self).wf(),
            sources_before(sources@, old(self).versions@.len() as int),
        ensures
            final(self).wf(),
            r == old(self).versions@.len(),
            final(self).versions@.len() == old(self).versions@.len() + 1,
            final(self).versions@[r as int] matches Version::Definition {
                sources: list,
                condition: guard,
            } && guard == condition && order::strictly_sorted(list@) && order::same_elements(
                list@,
                sources@,
            ),
            final(self).entries@ == old(self).entries@,
            same_state(*old(self), *final(self)),
            forall|nodes: Seq<PathNode>| #[trigger]
                old(self).guards_in(nodes) && condition.node < nodes.len() ==> final(self).guards_in(nodes),
    {
        let list = sort_dedup(sources);
        proof {
            assert forall|i: int| 0 <= i < list@.len() implies (#[trigger] list@[i]).version < self.versions@.len() by {
                assert(list@.contains(list@[i]));
                assert(sources@.contains(list@[i]));
                let k = choose|k: int| 0 <= k < sources@.len() && sources@[k] == list@[i];
                assert(sources@[k].version < self.versions@.len());
            }
        }
        self.push_version(Version::Definition { sources: list, condition })
    }

    /// The positions of `source` that lie in `domain`.
    pub fn projected(&mut self, source: usize, domain: PositionDomain) -> (r: usize)
        requires
            old(self).wf(),
            source < old(self).versions@.len(),
        ensures
            final(self).wf(),
            r == old(self).versions@.len(),
            final(self).versions@ == old(self).versions@.push(Version::Projected { source, domain }),
            final(self).entries@ == old(self).entries@,
            same_state(*old(self), *final(self)),
            keeps_guards(*old(self), *final(self)),
    {
        self.push_version(Version::Projected { source, domain })
    }

    /// A transfer that is repeated with a fixed stride along exactly one axis.
    pub fn repeated(
        &mut self,
        source: usize,
        initial: PositionRelation,
        step: PositionRelation,
        domain: PositionDomain,
    ) -> (r: usize)
        requires
            old(self).wf(),
            source < old(self).versions@.len(),
            (step.array == Some(0isize) && step.packed is Some && step.packed->0 != 0) || (
            step.packed == Some(0isize) && step.array is Some && step.array->0 != 0),
        ensures
            final(self).wf(),
            r == old(self).versions@.len(),
            final(self).versions@ == old(self).versions@.push(
                Version::Repeated { source, initial, step, domain },
            ),
            final(self).entries@ == old(self).entries@,
            same_state(*old(self), *final(self)),
            keeps_guards(*old(self), *final(self)),
    {
        self.push_version(Version::Repeated { source, initial, step, domain })
    }

    /// Lets `key` keep its value or take another one.
    pub fn weak_bind(&mut self, key: u64, version: usize)
        requires
            old(self).wf(),
            version < old(self).versions@.len(),
        ensures
            final(self).wf(),
            versions_grow(old(self).versions@, final(self).versions@),
            final(self).current@.dom() == old(self).current@.dom().insert(key),
            forall|k: u64|
                k != key && old(self).current@.contains_key(k) ==> #[trigger] final(self).current@[k] == old(self).current@[k],
            old(self).current@.contains_key(key) ==> is_phi(
                final(self).versions@,
                set![old(self).current@[key], version],
                final(self).current@[key],
            ),
            !old(self).current@.contains_key(key) ==> final(self).entries@.contains_key(key)
                && is_phi(
                final(self).versions@,
                set![final(self).entries@[key], version],
                final(self).current@[key],
            ),
            final(self).graphs == old(self).graphs,
            final(self).imports == old(self).imports,
            forall|k: u64| k != key && #[trigger] final(self).entries@.contains_key(k) ==> old(self).entries@.contains_key(k),
            final(self).checkpoints@ == old(self).checkpoints@,
            forall|depth: int|
                0 <= depth < old(self).checkpoints@.len() ==> #[trigger] final(self).saved(depth)
                    == old(self).saved(depth),
            final(self).active_revisions@ == old(self).active_revisions@,
            final(self).next_revision_id == old(self).next_revision_id,
            final(self).revision_events@ == (if binding_of(old(self).current@, key) != Some(final(self).current@[key])
                && old(self).active_revisions@.len() > 0 {
                old(self).revision_events@.push(
                    StateRevisionEvent::Change {
                        key,
                        previous: binding_of(old(self).current@, key),
                        current: Some(final(self).current@[key]),
                    },
                )
            } else {
                old(self).revision_events@
            }),
            records(*old(self), *final(self)),
            keeps_guards(*old(self), *final(self)),
    {
        let previous = self.read(key);
        let mut inputs: Vec<usize> = Vec::new();
        inputs.push(previous);
        inputs.push(version);
        let ghost mid = *self;
        let joined = self.phi(&inputs);
        proof {
            assert(inputs@.to_set() =~= set![previous, version]) by {
                assert(inputs@[0] == previous && inputs@[1] == version);
                assert forall|x: usize| #[trigger] inputs@.to_set().contains(x) <==> set![previous, version].contains(x) by {
                    if inputs@.contains(x) {
                        let i = choose|i: int| 0 <= i < inputs@.len() && inputs@[i] == x;
                    }
                    if x == previous {
                        assert(inputs@.contains(inputs@[0]));
                    }
                    if x == version {
                        assert(inputs@.contains(inputs@[1]));
                    }
                }
            }
        }
        self.bind(key, joined);
        proof {
            assert(self.current@.dom() =~= old(self).current@.dom().insert(key));
            lemma_change_noted(*old(self), *self, key);
        }
    }

    /// Opens a checkpoint.
    pub fn checkpoint(&mut self) -> (r: Checkpoint)
        requires
            old(self).wf(),
        ensures
            final(self).wf(),
            final(self).open_checkpoint(r),
            r.depth == old(self).checkpoints@.len(),
            r.version_start == old(self).versions@.len(),
            final(self).checkpoints@ == old(self).checkpoints@.push(r.undo_start),
            final(self).saved(r.depth as int) == old(self).current@,
            forall|depth: int|
                0 <= depth < old(self).checkpoints@.len() ==> #[trigger] final(self).saved(depth)
                    == old(self).saved(depth),
            final(self).current == old(self).current,
            same_versions(*old(self), *final(self)),
            final(self).active_revisions == old(self).active_revisions,
            final(self).revision_events == old(self).revision_events,
            final(self).next_revision_id == old(self).next_revision_id,
            keeps_guards(*old(self), *final(self)),
    {
        let checkpoint = Checkpoint {
            undo_start: self.undo.len(),
            depth: self.checkpoints.len(),
            version_start: self.versions.len(),
        };
        self.checkpoints.push(checkpoint.undo_start);
        checkpoint
    }
}

} // verus!
