//! Guarded reachability over a descending system of steps.
use vstd::prelude::*;
use std::collections::HashMap;
use crate::arena;
use crate::arena::{PathArena, PathCondition, PathNode};
use crate::path;
use crate::path::{BranchId, Choice};
use crate::relation::PositionRelation;

verus! {

/// A node seen through a position relation. `entry` tells whether a live-on-entry value counts.
#[derive(Clone, Copy, Debug, PartialEq, Eq, Hash, Structural)]
pub struct Visit {
    pub node: usize,
    pub entry: bool,
    pub relation: PositionRelation,
}

/// A step to another visit that is taken under a condition.
#[derive(Clone, Copy, Debug, PartialEq, Eq, Hash, Structural)]
pub struct Step {
    pub to: Visit,
    pub condition: PathCondition,
}

/// A visit and the condition under which it is reached.
#[derive(Clone, Copy, Debug, PartialEq, Eq, Hash, Structural)]
pub struct Reach {
    pub visit: Visit,
    pub condition: PathCondition,
}

/// How many offsets of a relation are known.
pub open spec fn known_axes(relation: PositionRelation) -> int {
    (if relation.array is Some {
        1int
    } else {
        0int
    }) + (if relation.packed is Some {
        1int
    } else {
        0int
    })
}

/// `to` comes strictly later than `from`: at a smaller node, or with fewer known offsets.
pub open spec fn descends(from: Visit, to: Visit) -> bool {
    to.node < from.node || (to.node == from.node && known_axes(to.relation) < known_axes(
        from.relation,
    ))
}

/// A system of guarded steps between visits.
pub trait FlowSystem {
    /// There is a step from `from` to `to` under `guard`.
    spec fn step(&self, nodes: Seq<PathNode>, from: Visit, to: Visit, guard: Seq<Choice>) -> bool;

    /// Every offset that the steps of `from` compose fits.
    spec fn fits(&self, nodes: Seq<PathNode>, from: Visit) -> bool;

    /// Some offset that the steps of `from` compose does not fit.
    spec fn overflows(&self, nodes: Seq<PathNode>, from: Visit) -> bool;

    spec fn system_wf(&self, nodes: Seq<PathNode>) -> bool;

    spec fn size(&self) -> nat;

    proof fn step_descends(
        &self,
        nodes: Seq<PathNode>,
        from: Visit,
        to: Visit,
        guard: Seq<Choice>,
    )
        requires
            self.system_wf(nodes),
            arena::nodes_wf(nodes),
            from.node < self.size(),
            self.step(nodes, from, to, guard),
        ensures
            descends(from, to),
            path::path_wf(guard),
    ;

    proof fn step_stable(&self, a: Seq<PathNode>, b: Seq<PathNode>)
        requires
            self.system_wf(a),
            arena::nodes_wf(a),
            arena::nodes_wf(b),
            arena::grows(a, b),
        ensures
            self.system_wf(b),
            forall|from: Visit, to: Visit, guard: Seq<Choice>|
                from.node < self.size() ==> #[trigger] self.step(a, from, to, guard) == self.step(
                    b,
                    from,
                    to,
                    guard,
                ),
            forall|from: Visit|
                from.node < self.size() ==> #[trigger] self.fits(a, from) == self.fits(b, from),
            forall|from: Visit|
                from.node < self.size() ==> #[trigger] self.overflows(a, from) == self.overflows(
                    b,
                    from,
                ),
    ;

    fn successors(&self, arena: &mut PathArena, from: Visit) -> (r: Option<Vec<Step>>)
        requires
            old(arena).wf(),
            self.system_wf(old(arena)@),
            from.node < self.size(),
        ensures
            final(arena).wf(),
            arena::grows(old(arena)@, final(arena)@),
            r is Some ==> self.fits(final(arena)@, from),
            r is None ==> self.overflows(final(arena)@, from),
            r matches Some(steps) ==> {
                &&& forall|i: int|
                    0 <= i < steps@.len() ==> final(arena).holds((#[trigger] steps@[i]).condition)
                        && self.step(
                        final(arena)@,
                        from,
                        steps@[i].to,
                        final(arena).path(steps@[i].condition),
                    )
                &&& forall|to: Visit, guard: Seq<Choice>| #[trigger]
                    self.step(final(arena)@, from, to, guard) ==> exists|i: int|
                        0 <= i < steps@.len() && (#[trigger] steps@[i]).to == to
                            && final(arena).path(steps@[i].condition) == guard
            },
    ;
}

/// A step that can be taken from a reached visit.
pub open spec fn contributes<S: FlowSystem>(
    system: S,
    nodes: Seq<PathNode>,
    reached: Map<Visit, Seq<Choice>>,
    from: Visit,
    to: Visit,
    guard: Seq<Choice>,
) -> bool {
    &&& reached.contains_key(from)
    &&& from.node < system.size()
    &&& system.step(nodes, from, to, guard)
    &&& !path::conflict(reached[from], guard)
}

/// The conditions under which visits are reached from `start`: a visit is reached when a step
/// that can be taken leads to it, and its condition leaves an arm open exactly when such a step
/// does.
pub open spec fn is_solution<S: FlowSystem>(
    system: S,
    nodes: Seq<PathNode>,
    start: Visit,
    reached: Map<Visit, Seq<Choice>>,
) -> bool {
    &&& reached.contains_key(start)
    &&& reached[start] == Seq::<Choice>::empty()
    &&& forall|v: Visit| #[trigger] reached.contains_key(v) ==> path::path_wf(reached[v])
    &&& forall|to: Visit| #[trigger]
        reached.contains_key(to) <==> to == start || exists|from: Visit, guard: Seq<Choice>|
            contributes(system, nodes, reached, from, to, guard)
    &&& forall|to: Visit, branch: BranchId, arm: int|
        reached.contains_key(to) && to != start && 0 <= arm < branch.arms ==> (
        #[trigger] path::allows(reached[to], branch, arm) <==> exists|
            from: Visit,
            guard: Seq<Choice>,
        |
            {
                &&& contributes(system, nodes, reached, from, to, guard)
                &&& path::allows(reached[from], branch, arm)
                &&& path::allows(guard, branch, arm)
            })
}

/// `v` can be reached from `start` by `n` steps, whatever their conditions.
pub open spec fn walks<S: FlowSystem>(
    system: S,
    nodes: Seq<PathNode>,
    start: Visit,
    v: Visit,
    n: nat,
) -> bool
    decreases n,
{
    if n == 0 {
        v == start
    } else {
        exists|from: Visit, guard: Seq<Choice>|
            #![trigger system.step(nodes, from, v, guard)]
            from.node < system.size() && walks(system, nodes, start, from, (n - 1) as nat)
                && system.step(nodes, from, v, guard)
    }
}

/// `v` can be reached from `start` by steps, whatever their conditions.
pub open spec fn walkable<S: FlowSystem>(
    system: S,
    nodes: Seq<PathNode>,
    start: Visit,
    v: Visit,
) -> bool {
    exists|n: nat| #[trigger] walks(system, nodes, start, v, n)
}

/// The list holds every visit of `reached` once, with its condition.
pub open spec fn represents(
    list: Seq<Reach>,
    nodes: Seq<PathNode>,
    reached: Map<Visit, Seq<Choice>>,
) -> bool {
    &&& forall|i: int|
        0 <= i < list.len() ==> {
            &&& (#[trigger] list[i]).condition.node < nodes.len()
            &&& reached.contains_key(list[i].visit)
            &&& reached[list[i].visit] == arena::path_of(nodes, list[i].condition.node as int)
        }
    &&& forall|v: Visit| #[trigger]
        reached.contains_key(v) ==> exists|i: int|
            0 <= i < list.len() && (#[trigger] list[i]).visit == v
    &&& forall|i: int, j: int|
        0 <= i < j < list.len() ==> (#[trigger] list[i]).visit != (#[trigger] list[j]).visit
}

/// An applied step: where it comes from, where it leads, and its guard.
pub type Applied = (Visit, Visit, Seq<Choice>);

/// Every reached visit other than the start is explained by the applied steps, exactly.
spec fn explained(
    start: Visit,
    reached: Map<Visit, Seq<Choice>>,
    applied: Set<Applied>,
) -> bool {
    &&& forall|to: Visit| #[trigger]
        reached.contains_key(to) <==> to == start || exists|from: Visit, guard: Seq<Choice>| #[trigger]
            applied.contains((from, to, guard))
    &&& forall|to: Visit, branch: BranchId, arm: int|
        reached.contains_key(to) && to != start && 0 <= arm < branch.arms ==> (
        #[trigger] path::allows(reached[to], branch, arm) <==> exists|
            from: Visit,
            guard: Seq<Choice>,
        |
            {
                &&& #[trigger] applied.contains((from, to, guard))
                &&& path::allows(reached[from], branch, arm)
                &&& path::allows(guard, branch, arm)
            })
}

/// Orders visits so that every step leads to a smaller rank.
spec fn rank(v: Visit) -> int {
    v.node * 3 + known_axes(v.relation)
}

fn rank_of(v: Visit) -> (r: u128)
    ensures
        r == rank(v),
{
    let mut axes: u128 = 0;
    if v.relation.array.is_some() {
        axes = axes + 1;
    }
    if v.relation.packed.is_some() {
        axes = axes + 1;
    }
    (v.node as u128) * 3 + axes
}

proof fn lemma_rank_descends(from: Visit, to: Visit)
    requires
        descends(from, to),
    ensures
        rank(to) < rank(from),
{
}

/// Visits found so far, bucketed by rank.
struct Solver {
    list: Vec<Reach>,
    buckets: HashMap<u128, Vec<usize>>,
    /// Ranks that still have visits to expand, ascending.
    pending: Vec<u128>,
}

impl Solver {
    spec fn indexed(self) -> bool {
        &&& forall|n: u128, k: int|
            self.buckets@.contains_key(n) && 0 <= k < self.buckets@[n]@.len() ==> {
                &&& (#[trigger] self.buckets@[n]@[k]) < self.list@.len()
                &&& rank(self.list@[self.buckets@[n]@[k] as int].visit) == n
            }
        &&& forall|i: int| 0 <= i < self.list@.len() ==> #[trigger] self.placed(i)
    }

    /// The bucket of the visit at `i` names it.
    spec fn placed(self, i: int) -> bool {
        let n = rank(self.list@[i].visit) as u128;
        self.buckets@.contains_key(n) && self.buckets@[n]@.contains(i as usize)
    }

    spec fn pending_sorted(self) -> bool {
        forall|i: int, j: int|
            0 <= i < j < self.pending@.len() ==> #[trigger] self.pending@[i]
                < #[trigger] self.pending@[j]
    }

    /// Where `visit` stands in the list.
    fn find(&self, visit: Visit) -> (r: Option<usize>)
        requires
            self.indexed(),
        ensures
            r matches Some(i) ==> i < self.list@.len() && self.list@[i as int].visit == visit,
            r is None ==> forall|i: int|
                0 <= i < self.list@.len() ==> (#[trigger] self.list@[i]).visit != visit,
    {
        let n: u128 = rank_of(visit);
        let count: usize = self.list.len();
        let found = self.buckets.get(&n);
        if let Some(places) = found {
            let mut k: usize = 0;
            while k < places.len()
                invariant
                    k <= places.len(),
                    self.indexed(),
                    self.buckets@.contains_key(n),
                    *places == self.buckets@[n],
                    forall|m: int|
                        0 <= m < k ==> self.list@[(#[trigger] places@[m]) as int].visit != visit,
                decreases places.len() - k,
            {
                let place: usize = places[k];
                assert(self.buckets@[n]@[k as int] < self.list@.len());
                if self.list[place].visit == visit {
                    return Some(place);
                }
                k = k + 1;
            }
        }
        proof {
            assert forall|i: int| 0 <= i < self.list@.len() implies (#[trigger] self.list@[i]).visit != visit by {
                assert(self.placed(i));
                assert(i < count);
                if self.list@[i].visit == visit {
                    let m = choose|m: int| 0 <= m < self.buckets@[n]@.len() && self.buckets@[n]@[m] == i as usize;
                    assert(self.list@[self.buckets@[n]@[m] as int].visit != visit);
                }
            }
        }
        None
    }

    /// Marks a rank as having visits to expand.
    fn enqueue(&mut self, node: u128)
        requires
            old(self).pending_sorted(),
        ensures
            final(self).pending_sorted(),
            final(self).list == old(self).list,
            final(self).buckets == old(self).buckets,
            forall|n: u128| #[trigger]
                final(self).pending@.contains(n) <==> old(self).pending@.contains(n) || n == node,
    {
        let mut position: usize = self.pending.len();
        while position > 0 && self.pending[position - 1] > node
            invariant
                position <= self.pending.len(),
                *self == *old(self),
                forall|k: int|
                    position <= k < self.pending@.len() ==> #[trigger] self.pending@[k] > node,
            decreases position,
        {
            position = position - 1;
        }
        if position > 0 && self.pending[position - 1] == node {
            assert(self.pending@.contains(node));
            return;
        }
        self.pending.insert(position, node);
        proof {
            let before = old(self).pending@;
            let after = self.pending@;
            assert forall|n: u128| #[trigger] after.contains(n) <==> before.contains(n) || n == node by {
                if after.contains(n) {
                    let k = choose|k: int| 0 <= k < after.len() && after[k] == n;
                    if k < position {
                        assert(before[k] == n);
                    } else if k > position {
                        assert(before[k - 1] == n);
                    }
                }
                if before.contains(n) {
                    let k = choose|k: int| 0 <= k < before.len() && before[k] == n;
                    if k < position {
                        assert(after[k] == n);
                    } else {
                        assert(after[k + 1] == n);
                    }
                }
                assert(after[position as int] == node);
            }
            if position > 0 {
                assert(before[position - 1] < node);
            }
            assert forall|i: int, j: int| 0 <= i < j < after.len() implies #[trigger] after[i] < #[trigger] after[j] by {
                if j < position {
                    assert(before[i] < before[j]);
                } else if i < position && j == position {
                    if i < position - 1 {
                        assert(before[i] < before[position - 1]);
                    }
                } else if i < position && j > position {
                    assert(before[i] < before[j - 1]);
                } else if i == position {
                    assert(before[j - 1] > node);
                } else {
                    assert(before[i - 1] < before[j - 1]);
                }
            }
        }
    }

    /// Adds a visit that is not listed yet.
    fn add(&mut self, visit: Visit, condition: PathCondition)
        requires
            old(self).indexed(),
            old(self).pending_sorted(),
        ensures
            final(self).indexed(),
            final(self).pending_sorted(),
            final(self).list@ == old(self).list@.push(Reach { visit, condition }),
            forall|n: u128| #[trigger]
                final(self).pending@.contains(n) <==> old(self).pending@.contains(n) || n == rank(
                    visit,
                ),
    {
        let n: u128 = rank_of(visit);
        let place: usize = self.list.len();
        let ghost before = *self;
        self.enqueue(n);
        self.list.push(Reach { visit, condition });
        let mut places: Vec<usize> = match self.buckets.remove(&n) {
            Some(places) => places,
            None => Vec::new(),
        };
        let ghost listed = places@;
        places.push(place);
        self.buckets.insert(n, places);
        proof {
            assert forall|m: u128, k: int|
                self.buckets@.contains_key(m) && 0 <= k < self.buckets@[m]@.len() implies {
                &&& (#[trigger] self.buckets@[m]@[k]) < self.list@.len()
                &&& rank(self.list@[self.buckets@[m]@[k] as int].visit) == m
            } by {
                if m != n {
                    assert(before.buckets@[m]@[k] < before.list@.len());
                } else if k < listed.len() {
                    assert(before.buckets@[m]@[k] < before.list@.len());
                }
            }
            assert forall|i: int| 0 <= i < self.list@.len() implies #[trigger] self.placed(i) by {
                let m = rank(self.list@[i].visit) as u128;
                if i < before.list@.len() {
                    assert(before.placed(i));
                    if m == n {
                        let k = choose|k: int| 0 <= k < listed.len() && listed[k] == i as usize;
                        assert(self.buckets@[m]@[k] == i as usize);
                    }
                } else {
                    assert(self.buckets@[m]@[listed.len() as int] == i as usize);
                }
            }
        }
    }
}

/// `after` is `before` with `to` reached under one more path.
spec fn joined_at(
    before: Map<Visit, Seq<Choice>>,
    after: Map<Visit, Seq<Choice>>,
    to: Visit,
    more: Seq<Choice>,
) -> bool {
    &&& after.contains_key(to)
    &&& path::path_wf(after[to])
    &&& forall|v: Visit| #[trigger] after.contains_key(v) <==> before.contains_key(v) || v == to
    &&& forall|v: Visit| #[trigger] before.contains_key(v) && v != to ==> after[v] == before[v]
    &&& before.contains_key(to) ==> path::is_disjunction(before[to], more, after[to])
    &&& !before.contains_key(to) ==> after[to] == more
}

proof fn lemma_represents_grows(
    list: Seq<Reach>,
    a: Seq<PathNode>,
    b: Seq<PathNode>,
    reached: Map<Visit, Seq<Choice>>,
)
    requires
        represents(list, a, reached),
        arena::grows(a, b),
    ensures
        represents(list, b, reached),
{
    assert forall|i: int| 0 <= i < list.len() implies {
        &&& (#[trigger] list[i]).condition.node < b.len()
        &&& reached.contains_key(list[i].visit)
        &&& reached[list[i].visit] == arena::path_of(b, list[i].condition.node as int)
    } by {
        arena::growth_keeps_paths(a, b, list[i].condition.node as int);
    }
}

impl Solver {
    /// Reaches `to` under one more condition.
    fn record(
        &mut self,
        arena: &mut PathArena,
        to: Visit,
        condition: PathCondition,
        Ghost(reached): Ghost<Map<Visit, Seq<Choice>>>,
    ) -> (after: Ghost<Map<Visit, Seq<Choice>>>)
        requires
            old(arena).wf(),
            old(arena).holds(condition),
            old(self).indexed(),
            old(self).pending_sorted(),
            represents(old(self).list@, old(arena)@, reached),
        ensures
            final(arena).wf(),
            arena::grows(old(arena)@, final(arena)@),
            final(self).indexed(),
            final(self).pending_sorted(),
            represents(final(self).list@, final(arena)@, after@),
            joined_at(reached, after@, to, old(arena).path(condition)),
            final(self).list@.len() >= old(self).list@.len(),
            forall|i: int|
                0 <= i < old(self).list@.len() ==> (#[trigger] final(self).list@[i]).visit == old(self).list@[i].visit,
            forall|i: int|
                0 <= i < old(self).list@.len() && old(self).list@[i].visit != to ==> (
                #[trigger] final(self).list@[i]) == old(self).list@[i],
            forall|n: u128| #[trigger]
                final(self).pending@.contains(n) <==> old(self).pending@.contains(n) || (
                !reached.contains_key(to) && n == rank(to)),
    {
        let ghost list0 = self.list@;
        let ghost nodes0 = arena@;
        proof {
            arena::arena_paths_wf(arena@, condition.node as int);
        }
        match self.find(to) {
            Some(place) => {
                let existing = self.list[place].condition;
                proof {
                    assert(list0[place as int].condition.node < arena@.len());
                }
                let joined = arena.disjoin(existing, condition);
                self.list.set(place, Reach { visit: to, condition: joined });
                let ghost after = reached.insert(to, arena.path(joined));
                proof {
                    lemma_represents_grows(list0, nodes0, arena@, reached);
                    let list = self.list@;
                    assert forall|i: int| 0 <= i < list.len() implies {
                        &&& (#[trigger] list[i]).condition.node < arena@.len()
                        &&& after.contains_key(list[i].visit)
                        &&& after[list[i].visit] == arena::path_of(arena@, list[i].condition.node as int)
                    } by {
                        if i != place {
                            assert(list[i] == list0[i]);
                            if i < place {
                                assert(list0[i].visit != list0[place as int].visit);
                            } else {
                                assert(list0[place as int].visit != list0[i].visit);
                            }
                        }
                    }
                    assert forall|v: Visit| #[trigger] after.contains_key(v) implies exists|i: int|
                        0 <= i < list.len() && (#[trigger] list[i]).visit == v by {
                        if v == to {
                            assert(list[place as int].visit == v);
                        } else {
                            let i = choose|i: int| 0 <= i < list0.len() && (#[trigger] list0[i]).visit == v;
                            assert(list[i].visit == v);
                        }
                    }
                    assert forall|i: int, j: int| 0 <= i < j < list.len() implies (#[trigger] list[i]).visit != (#[trigger] list[j]).visit by {
                        assert(list0[i].visit != list0[j].visit);
                    }
                    assert forall|i: int| 0 <= i < self.list@.len() implies #[trigger] self.placed(i) by {
                        assert(old(self).placed(i));
                    }
                    assert forall|n: u128, k: int|
                        self.buckets@.contains_key(n) && 0 <= k < self.buckets@[n]@.len() implies {
                        &&& (#[trigger] self.buckets@[n]@[k]) < self.list@.len()
                        &&& rank(self.list@[self.buckets@[n]@[k] as int].visit) == n
                    } by {
                        assert(old(self).buckets@[n]@[k] < list0.len());
                    }
                }
                Ghost(after)
            },
            None => {
                self.add(to, condition);
                let ghost after = reached.insert(to, arena.path(condition));
                proof {
                    let list = self.list@;
                    assert(!reached.contains_key(to)) by {
                        if reached.contains_key(to) {
                            let i = choose|i: int| 0 <= i < list0.len() && (#[trigger] list0[i]).visit == to;
                            assert(list0[i].visit != to);
                        }
                    }
                    assert forall|v: Visit| #[trigger] after.contains_key(v) implies exists|i: int|
                        0 <= i < list.len() && (#[trigger] list[i]).visit == v by {
                        if v == to {
                            assert(list[list0.len() as int].visit == v);
                        } else {
                            let i = choose|i: int| 0 <= i < list0.len() && (#[trigger] list0[i]).visit == v;
                            assert(list[i].visit == v);
                        }
                    }
                    assert forall|i: int, j: int| 0 <= i < j < list.len() implies (#[trigger] list[i]).visit != (#[trigger] list[j]).visit by {
                        assert(list[i] == list0[i]);
                        if j < list0.len() {
                            assert(list0[i].visit != list0[j].visit);
                        }
                    }
                    assert forall|i: int| 0 <= i < list.len() implies {
                        &&& (#[trigger] list[i]).condition.node < arena@.len()
                        &&& after.contains_key(list[i].visit)
                        &&& after[list[i].visit] == arena::path_of(arena@, list[i].condition.node as int)
                    } by {
                        if i < list0.len() {
                            assert(list[i] == list0[i]);
                            assert(list0[i].visit != to);
                        }
                    }
                }
                Ghost(after)
            },
        }
    }
}

/// What holds between expansions: expanded visits have had all their steps applied.
spec fn progress<S: FlowSystem>(
    system: S,
    nodes: Seq<PathNode>,
    start: Visit,
    reached: Map<Visit, Seq<Choice>>,
    applied: Set<Applied>,
    done: Set<Visit>,
) -> bool {
    &&& reached.contains_key(start)
    &&& reached[start] == Seq::<Choice>::empty()
    &&& forall|v: Visit| #[trigger] reached.contains_key(v) ==> {
        &&& path::path_wf(reached[v])
        &&& v.node < system.size()
        &&& walkable(system, nodes, start, v)
        &&& v != start ==> rank(v) < rank(start)
    }
    &&& explained(start, reached, applied)
    &&& forall|v: Visit| #[trigger] done.contains(v) ==> reached.contains_key(v) && system.fits(nodes, v)
    &&& forall|from: Visit, to: Visit, guard: Seq<Choice>| #[trigger]
        applied.contains((from, to, guard)) ==> contributes(
            system,
            nodes,
            reached,
            from,
            to,
            guard,
        )
    &&& forall|from: Visit, to: Visit, guard: Seq<Choice>|
        done.contains(from) && #[trigger] contributes(system, nodes, reached, from, to, guard)
            ==> applied.contains((from, to, guard))
}

/// Applying one more step from an unexpanded visit keeps every explanation exact.
proof fn lemma_apply<S: FlowSystem>(
    system: S,
    nodes: Seq<PathNode>,
    start: Visit,
    before: Map<Visit, Seq<Choice>>,
    after: Map<Visit, Seq<Choice>>,
    applied: Set<Applied>,
    done: Set<Visit>,
    from: Visit,
    to: Visit,
    guard: Seq<Choice>,
    more: Seq<Choice>,
)
    requires
        arena::nodes_wf(nodes),
        system.system_wf(nodes),
        progress(system, nodes, start, before, applied, done),
        contributes(system, nodes, before, from, to, guard),
        path::is_conjunction(before[from], guard, more),
        path::path_wf(more),
        joined_at(before, after, to, more),
        to.node < system.size(),
        // Nothing that was expanded or is being expanded is reached anew.
        forall|v: Visit| done.contains(v) ==> v != to,
        forall|a: Visit, b: Visit, g: Seq<Choice>| #[trigger] applied.contains((a, b, g)) ==> a != to,
        rank(to) < rank(from),
    ensures
        progress(system, nodes, start, after, applied.insert((from, to, guard)), done),
        after[from] == before[from],
{
    let applied2 = applied.insert((from, to, guard));
    assert(from != to);
    assert(to != start) by {
        if to == start && from != start {
            assert(rank(from) < rank(start));
        }
    }
    assert forall|v: Visit| #[trigger] after.contains_key(v) implies {
        &&& path::path_wf(after[v])
        &&& v.node < system.size()
        &&& walkable(system, nodes, start, v)
        &&& v != start ==> rank(v) < rank(start)
    } by {
        if v == to {
            let n = choose|n: nat| #[trigger] walks(system, nodes, start, from, n);
            assert(walks(system, nodes, start, to, n + 1)) by {
                assert(system.step(nodes, from, to, guard));
                assert((n + 1 - 1) as nat == n);
            }
            if from != start {
                assert(rank(from) < rank(start));
            }
        } else {
            assert(before.contains_key(v));
        }
    }
    assert forall|t: Visit| #[trigger] after.contains_key(t) <==> t == start || exists|
        f: Visit,
        g: Seq<Choice>,
    | #[trigger] applied2.contains((f, t, g)) by {
        if t == to {
            assert(applied2.contains((from, to, guard)));
        } else {
            assert(after.contains_key(t) <==> before.contains_key(t));
            if exists|f: Visit, g: Seq<Choice>| #[trigger] applied2.contains((f, t, g)) {
                let (f, g) = choose|f: Visit, g: Seq<Choice>| #[trigger] applied2.contains((f, t, g));
                assert(applied.contains((f, t, g)));
            }
            if exists|f: Visit, g: Seq<Choice>| #[trigger] applied.contains((f, t, g)) {
                let (f, g) = choose|f: Visit, g: Seq<Choice>| #[trigger] applied.contains((f, t, g));
                assert(applied2.contains((f, t, g)));
            }
        }
    }
    assert forall|t: Visit, branch: BranchId, arm: int|
        after.contains_key(t) && t != start && 0 <= arm < branch.arms implies (
    #[trigger] path::allows(after[t], branch, arm) <==> exists|f: Visit, g: Seq<Choice>|
        {
            &&& #[trigger] applied2.contains((f, t, g))
            &&& path::allows(after[f], branch, arm)
            &&& path::allows(g, branch, arm)
        }) by {
        lemma_apply_at(before, after, applied, from, to, guard, more, start, t, branch, arm);
    }
    assert forall|f: Visit, t: Visit, g: Seq<Choice>| #[trigger] applied2.contains((f, t, g)) implies contributes(
        system,
        nodes,
        after,
        f,
        t,
        g,
    ) by {
        if applied.contains((f, t, g)) {
            assert(contributes(system, nodes, before, f, t, g));
        }
    }
    assert forall|f: Visit, t: Visit, g: Seq<Choice>|
        done.contains(f) && #[trigger] contributes(system, nodes, after, f, t, g) implies applied2.contains(
        (f, t, g),
    ) by {
        assert(f != to);
        assert(before.contains_key(f));
        assert(contributes(system, nodes, before, f, t, g));
    }
    assert forall|v: Visit| #[trigger] done.contains(v) implies after.contains_key(v) && system.fits(nodes, v) by {
        assert(before.contains_key(v));
    }
}

proof fn lemma_apply_at(
    before: Map<Visit, Seq<Choice>>,
    after: Map<Visit, Seq<Choice>>,
    applied: Set<Applied>,
    from: Visit,
    to: Visit,
    guard: Seq<Choice>,
    more: Seq<Choice>,
    start: Visit,
    t: Visit,
    branch: BranchId,
    arm: int,
)
    requires
        explained(start, before, applied),
        before.contains_key(from),
        from != to,
        path::is_conjunction(before[from], guard, more),
        joined_at(before, after, to, more),
        forall|a: Visit, b: Visit, g: Seq<Choice>| #[trigger] applied.contains((a, b, g)) ==> a != to && before.contains_key(a),
        after.contains_key(t),
        t != start,
        0 <= arm < branch.arms,
    ensures
        path::allows(after[t], branch, arm) <==> exists|f: Visit, g: Seq<Choice>|
            {
                &&& #[trigger] applied.insert((from, to, guard)).contains((f, t, g))
                &&& path::allows(after[f], branch, arm)
                &&& path::allows(g, branch, arm)
            },
{
    let applied2 = applied.insert((from, to, guard));
    assert(path::allows(more, branch, arm) <==> path::allows(before[from], branch, arm)
        && path::allows(guard, branch, arm));
    if path::allows(after[t], branch, arm) {
        if t == to && path::allows(more, branch, arm) {
            assert(applied2.contains((from, to, guard)));
            assert(after[from] == before[from]);
        } else {
            assert(before.contains_key(t));
            assert(path::allows(before[t], branch, arm));
            let (f, g) = choose|f: Visit, g: Seq<Choice>|
                {
                    &&& #[trigger] applied.contains((f, t, g))
                    &&& path::allows(before[f], branch, arm)
                    &&& path::allows(g, branch, arm)
                };
            assert(applied2.contains((f, t, g)));
            assert(after[f] == before[f]);
        }
    }
    if exists|f: Visit, g: Seq<Choice>|
        {
            &&& #[trigger] applied2.contains((f, t, g))
            &&& path::allows(after[f], branch, arm)
            &&& path::allows(g, branch, arm)
        } {
        let (f, g) = choose|f: Visit, g: Seq<Choice>|
            {
                &&& #[trigger] applied2.contains((f, t, g))
                &&& path::allows(after[f], branch, arm)
                &&& path::allows(g, branch, arm)
            };
        if applied.contains((f, t, g)) {
            assert(after[f] == before[f]);
            assert(before.contains_key(t));
            assert(path::allows(before[t], branch, arm));
        } else {
            assert(f == from && t == to && g == guard);
            assert(after[from] == before[from]);
        }
    }
}

/// Where the expansion stands: visits above `limit` are done, the rest are pending.
spec fn frontier(solver: Solver, done: Set<Visit>, limit: int) -> bool {
    &&& forall|v: Visit| #[trigger] done.contains(v) ==> rank(v) >= limit
    &&& forall|k: int| 0 <= k < solver.pending@.len() ==> (#[trigger] solver.pending@[k]) < limit
    &&& forall|i: int|
        0 <= i < solver.list@.len() ==> done.contains((#[trigger] solver.list@[i]).visit)
            || solver.pending@.contains(rank(solver.list@[i].visit) as u128)
}

/// Every visit reachable from `start` with the condition under which it is reached. There is no
/// answer when an offset on the way does not fit.
#[verifier::rlimit(40)]
pub fn solve<S: FlowSystem>(system: &S, arena: &mut PathArena, start: Visit) -> (r: Option<
    Vec<Reach>,
>)
    requires
        old(arena).wf(),
        system.system_wf(old(arena)@),
        start.node < system.size(),
    ensures
        final(arena).wf(),
        arena::grows(old(arena)@, final(arena)@),
        r matches Some(list) ==> exists|reached: Map<Visit, Seq<Choice>>| #[trigger]
            is_solution(*system, old(arena)@, start, reached) && represents(
                list@,
                final(arena)@,
                reached,
            ) && forall|v: Visit| reached.contains_key(v) ==> #[trigger] system.fits(old(arena)@, v),
        r is None ==> exists|v: Visit| #[trigger]
            walkable(*system, old(arena)@, start, v) && v.node < system.size() && system.overflows(old(arena)@, v),
{
    let ghost nodes = arena@;
    let mut solver = Solver { list: Vec::new(), buckets: HashMap::new(), pending: Vec::new() };
    solver.add(start, PathCondition { node: 0 });
    let ghost mut reached: Map<Visit, Seq<Choice>> = Map::empty().insert(
        start,
        Seq::<Choice>::empty(),
    );
    let ghost mut applied: Set<Applied> = Set::empty();
    let ghost mut done: Set<Visit> = Set::empty();
    let ghost mut limit: int = rank(start) + 1;
    proof {
        assert(solver.list@[0].visit == start);
        assert(arena::path_of(nodes, 0) =~= Seq::<Choice>::empty());
        assert(walks(*system, nodes, start, start, 0));
        assert(represents(solver.list@, nodes, reached));
        assert forall|k: int| 0 <= k < solver.pending@.len() implies (#[trigger] solver.pending@[k]) < limit by {
            assert(solver.pending@.contains(solver.pending@[k]));
        }
        assert(solver.pending@.contains(rank(start) as u128));
    }
    while solver.pending.len() > 0
        invariant
            nodes == old(arena)@,
            arena::nodes_wf(nodes),
            system.system_wf(nodes),
            arena.wf(),
            arena::grows(nodes, arena@),
            solver.indexed(),
            solver.pending_sorted(),
            represents(solver.list@, arena@, reached),
            progress(*system, nodes, start, reached, applied, done),
            frontier(solver, done, limit),
            forall|a: Visit, b: Visit, g: Seq<Choice>| #[trigger]
                applied.contains((a, b, g)) ==> done.contains(a),
            limit >= 0,
        decreases limit,
    {
        let ghost pending0 = solver.pending@;
        let ghost solver0 = solver;
        let current: u128 = match solver.pending.pop() {
            Some(n) => n,
            None => 0,
        };
        let ghost top = pending0.len() - 1;
        let mut places: Vec<usize> = Vec::new();
        if let Some(bucket) = solver.buckets.get(&current) {
            let mut k: usize = 0;
            while k < bucket.len()
                invariant
                    k <= bucket.len(),
                    places@ == bucket@.take(k as int),
                decreases bucket.len() - k,
            {
                places.push(bucket[k]);
                assert(bucket@.take(k as int + 1) =~= bucket@.take(k as int).push(bucket@[k as int]));
                k = k + 1;
            }
            assert(bucket@.take(k as int) =~= bucket@);
        }
        proof {
            assert forall|i: int| 0 <= i < solver.list@.len() implies #[trigger] solver.placed(i) by {
                assert(solver0.placed(i));
            }
            assert(solver.indexed());
            assert(pending0[top] == current);
            assert(current < limit);
            limit = current as int;
            assert forall|k: int| 0 <= k < solver.pending@.len() implies (#[trigger] solver.pending@[k]) < limit by {
                assert(pending0[k] < pending0[top]);
            }
            assert forall|i: int| 0 <= i < solver.list@.len() implies done.contains((#[trigger] solver.list@[i]).visit)
                || solver.pending@.contains(rank(solver.list@[i].visit) as u128)
                || (rank(solver.list@[i].visit) == current && places@.contains(i as usize)) by {
                if !done.contains(solver.list@[i].visit) {
                    let m = rank(solver.list@[i].visit) as u128;
                    let k = choose|k: int| 0 <= k < pending0.len() && pending0[k] == m;
                    if k < top {
                        assert(solver.pending@[k] == m);
                    } else {
                        assert(solver.placed(i));
                    }
                }
            }
            assert forall|k: int| 0 <= k < places.len() implies (#[trigger] places@[k]) < solver.list@.len()
                && rank(solver.list@[places@[k] as int].visit) == current by {
                assert(solver.buckets@[current]@[k] < solver.list@.len());
            }
        }
        let mut p: usize = 0;
        while p < places.len()
            invariant
                nodes == old(arena)@,
                arena::nodes_wf(nodes),
                system.system_wf(nodes),
                arena.wf(),
                arena::grows(nodes, arena@),
                solver.indexed(),
                solver.pending_sorted(),
                represents(solver.list@, arena@, reached),
                progress(*system, nodes, start, reached, applied, done),
                forall|a: Visit, b: Visit, g: Seq<Choice>| #[trigger]
                    applied.contains((a, b, g)) ==> done.contains(a),
                limit == current,
                p <= places.len(),
                forall|v: Visit| #[trigger] done.contains(v) ==> rank(v) >= limit,
                forall|k: int|
                    0 <= k < solver.pending@.len() ==> (#[trigger] solver.pending@[k]) < limit,
                forall|i: int|
                    0 <= i < solver.list@.len() ==> done.contains((#[trigger] solver.list@[i]).visit)
                        || solver.pending@.contains(rank(solver.list@[i].visit) as u128) || (rank(
                        solver.list@[i].visit,
                    ) == current && places@.contains(i as usize)),
                forall|k: int|
                    0 <= k < places.len() ==> (#[trigger] places@[k]) < solver.list@.len() && rank(
                        solver.list@[places@[k] as int].visit,
                    ) == current,
                forall|k: int| 0 <= k < p ==> done.contains(solver.list@[(#[trigger] places@[k]) as int].visit),
            decreases places.len() - p,
        {
            let place: usize = places[p];
            let visit = solver.list[place].visit;
            let condition = solver.list[place].condition;
            let ghost arena1 = arena@;
            proof {
                system.step_stable(nodes, arena@);
                assert(reached.contains_key(visit));
            }
            let steps = match system.successors(arena, visit) {
                None => {
                    proof {
                        arena::growth_is_transitive(nodes, arena1, arena@);
                        system.step_stable(nodes, arena@);
                        assert(system.overflows(arena@, visit));
                        assert(system.overflows(nodes, visit));
                    }
                    return None;
                },
                Some(steps) => steps,
            };
            proof {
                arena::growth_is_transitive(nodes, arena1, arena@);
                system.step_stable(nodes, arena@);
                lemma_represents_grows(solver.list@, arena1, arena@, reached);
            }
            let ghost arena2 = arena@;
            let ghost done1 = done.remove(visit);
            let ghost was_done = done.contains(visit);
            let ghost from_path = reached[visit];
            let ghost guards: Seq<Seq<Choice>> = Seq::new(steps@.len(), |j: int| arena::path_of(arena2, steps@[j].condition.node as int));
            proof {
                assert(system.fits(arena2, visit));
                assert(system.fits(nodes, visit));
                assert forall|j: int| 0 <= j < steps@.len() implies (#[trigger] steps@[j]).condition.node < arena2.len()
                    && system.step(nodes, visit, steps@[j].to, guards[j]) by {
                    assert(system.step(arena2, visit, steps@[j].to, guards[j]));
                }
            }
            let mut j: usize = 0;
            while j < steps.len()
                invariant
                    nodes == old(arena)@,
                    arena::nodes_wf(nodes),
                    system.system_wf(nodes),
                    arena.wf(),
                    arena::grows(nodes, arena@),
                    arena::grows(arena2, arena@),
                    solver.indexed(),
                    solver.pending_sorted(),
                    represents(solver.list@, arena@, reached),
                    progress(*system, nodes, start, reached, applied, done),
                    forall|a: Visit, b: Visit, g: Seq<Choice>| #[trigger]
                        applied.contains((a, b, g)) ==> done.contains(a) || a == visit,
                    limit == current,
                    p < places.len(),
                    place == places@[p as int],
                    place < solver.list@.len(),
                    solver.list@[place as int].visit == visit,
                    solver.list@[place as int].condition == condition,
                    reached.contains_key(visit),
                    reached[visit] == from_path,
                    visit.node < system.size(),
                    rank(visit) == current,
                    forall|v: Visit| #[trigger] done.contains(v) ==> rank(v) >= limit,
                    forall|k: int|
                        0 <= k < solver.pending@.len() ==> (#[trigger] solver.pending@[k]) < limit,
                    forall|i: int|
                        0 <= i < solver.list@.len() ==> done.contains(
                            (#[trigger] solver.list@[i]).visit,
                        ) || solver.pending@.contains(rank(solver.list@[i].visit) as u128) || (rank(
                            solver.list@[i].visit,
                        ) == current && places@.contains(i as usize)),
                    forall|k: int|
                        0 <= k < places.len() ==> (#[trigger] places@[k]) < solver.list@.len()
                            && rank(solver.list@[places@[k] as int].visit) == current,
                    forall|k: int|
                        0 <= k < p ==> done.contains(
                            solver.list@[(#[trigger] places@[k]) as int].visit,
                        ),
                    guards.len() == steps@.len(),
                    system.fits(nodes, visit),
                    forall|m: int|
                        0 <= m < steps@.len() ==> (#[trigger] steps@[m]).condition.node < arena2.len()
                            && guards[m] == arena::path_of(arena2, steps@[m].condition.node as int)
                            && system.step(nodes, visit, steps@[m].to, guards[m]),
                    j <= steps.len(),
                    forall|m: int|
                        0 <= m < j && !path::conflict(from_path, #[trigger] guards[m])
                            ==> applied.contains((visit, steps@[m].to, guards[m])),
                decreases steps.len() - j,
            {
                let step = steps[j];
                let ghost guard = guards[j as int];
                let ghost before_arena = arena@;
                proof {
                    assert(steps@[j as int].condition.node < arena2.len());
                    arena::growth_keeps_paths(arena2, arena@, step.condition.node as int);
                    system.step_descends(nodes, visit, step.to, guard);
                    lemma_rank_descends(visit, step.to);
                    assert(reached[visit] == arena::path_of(arena@, condition.node as int));
                }
                let both = arena.conjoin_if_compatible(condition, step.condition);
                proof {
                    arena::growth_is_transitive(nodes, before_arena, arena@);
                    arena::growth_is_transitive(arena2, before_arena, arena@);
                    lemma_represents_grows(solver.list@, before_arena, arena@, reached);
                }
                if let Some(more) = both {
                    let ghost mid_arena = arena@;
                    let ghost before = reached;
                    let ghost more_path = arena.path(more);
                    let ghost list0 = solver.list@;
                    let ghost pending1 = solver.pending@;
                    let Ghost(after) = solver.record(arena, step.to, more, Ghost(reached));
                    proof {
                        arena::growth_is_transitive(nodes, mid_arena, arena@);
                        arena::growth_is_transitive(arena2, mid_arena, arena@);
                        assert(contributes(*system, nodes, before, visit, step.to, guard));
                        lemma_apply(
                            *system,
                            nodes,
                            start,
                            before,
                            after,
                            applied,
                            done,
                            visit,
                            step.to,
                            guard,
                            more_path,
                        );
                        let applied0 = applied;
                        applied = applied.insert((visit, step.to, guard));
                        reached = after;
                        assert forall|k: int| 0 <= k < solver.pending@.len() implies (#[trigger] solver.pending@[k]) < limit by {
                            assert(solver.pending@.contains(solver.pending@[k]));
                            if pending1.contains(solver.pending@[k]) {
                                let m = choose|m: int| 0 <= m < pending1.len() && pending1[m] == solver.pending@[k];
                                assert(pending1[m] < limit);
                            }
                        }
                        assert forall|i: int| 0 <= i < solver.list@.len() implies done.contains((#[trigger] solver.list@[i]).visit)
                            || solver.pending@.contains(rank(solver.list@[i].visit) as u128)
                            || (rank(solver.list@[i].visit) == current && places@.contains(i as usize)) by {
                            if i < list0.len() {
                                assert(solver.list@[i].visit == list0[i].visit);
                            } else {
                                lemma_new_visit(list0, solver.list@, arena@, before, after, step.to, mid_arena, i);
                            }
                        }
                        assert forall|k: int| 0 <= k < places.len() implies (#[trigger] places@[k]) < solver.list@.len()
                            && rank(solver.list@[places@[k] as int].visit) == current by {
                            assert(places@[k] < list0.len());
                            assert(solver.list@[places@[k] as int].visit == list0[places@[k] as int].visit);
                        }
                        assert forall|k: int| 0 <= k < p implies done.contains(solver.list@[(#[trigger] places@[k]) as int].visit) by {
                            assert(places@[k] < list0.len());
                            assert(solver.list@[places@[k] as int].visit == list0[places@[k] as int].visit);
                        }
                        assert(solver.list@[place as int] == list0[place as int]);
                        assert forall|m: int| 0 <= m < j + 1 && !path::conflict(from_path, #[trigger] guards[m]) implies applied.contains(
                            (visit, steps@[m].to, guards[m]),
                        ) by {
                            if m < j {
                                assert(applied0.contains((visit, steps@[m].to, guards[m])));
                            }
                        }
                    }
                }
                j = j + 1;
            }
            proof {
                let done0 = done;
                done = done.insert(visit);
                assert forall|from: Visit, to: Visit, guard: Seq<Choice>|
                    done.contains(from) && #[trigger] contributes(*system, nodes, reached, from, to, guard) implies applied.contains(
                    (from, to, guard),
                ) by {
                    if from == visit {
                        assert(system.step(arena2, visit, to, guard));
                        let m = choose|m: int|
                            0 <= m < steps@.len() && (#[trigger] steps@[m]).to == to && arena::path_of(
                                arena2,
                                steps@[m].condition.node as int,
                            ) == guard;
                        assert(guards[m] == guard);
                        assert(applied.contains((visit, steps@[m].to, guards[m])));
                    } else {
                        assert(done0.contains(from));
                    }
                }
            }
            p = p + 1;
        }
        proof {
            assert forall|i: int| 0 <= i < solver.list@.len() implies done.contains((#[trigger] solver.list@[i]).visit)
                || solver.pending@.contains(rank(solver.list@[i].visit) as u128) by {
                if rank(solver.list@[i].visit) == current && places@.contains(i as usize) {
                    let k = choose|k: int| 0 <= k < places@.len() && places@[k] == i as usize;
                    lemma_list_index(solver.list, i);
                    assert(done.contains(solver.list@[places@[k] as int].visit));
                }
            }
        }
    }
    proof {
        assert forall|v: Visit| reached.contains_key(v) implies done.contains(v) by {
            let i = choose|i: int| 0 <= i < solver.list@.len() && (#[trigger] solver.list@[i]).visit == v;
            assert(done.contains(solver.list@[i].visit));
        }
        lemma_progress_solves(*system, nodes, start, reached, applied, done);
        assert(is_solution(*system, nodes, start, reached));
    }
    Some(solver.list)
}

proof fn lemma_list_index(list: Vec<Reach>, i: int)
    requires
        0 <= i < list@.len(),
    ensures
        (i as usize) as int == i,
{
    assert(list@.len() == list.len());
}

/// A visit that was appended to the list is the one that was recorded.
proof fn lemma_new_visit(
    list0: Seq<Reach>,
    list: Seq<Reach>,
    nodes: Seq<PathNode>,
    before: Map<Visit, Seq<Choice>>,
    after: Map<Visit, Seq<Choice>>,
    to: Visit,
    nodes0: Seq<PathNode>,
    i: int,
)
    requires
        represents(list0, nodes0, before),
        represents(list, nodes, after),
        list0.len() <= i < list.len(),
        forall|k: int| 0 <= k < list0.len() ==> (#[trigger] list[k]).visit == list0[k].visit,
        forall|v: Visit| #[trigger] after.contains_key(v) <==> before.contains_key(v) || v == to,
    ensures
        list[i].visit == to,
        !before.contains_key(to),
{
    assert(after.contains_key(list[i].visit));
    if before.contains_key(list[i].visit) {
        let k = choose|k: int| 0 <= k < list0.len() && (#[trigger] list0[k]).visit == list[i].visit;
        assert(list[k].visit == list0[k].visit);
        assert(list[k].visit != list[i].visit);
    }
}

/// Once every reached visit is expanded, the conditions solve the system.
proof fn lemma_progress_solves<S: FlowSystem>(
    system: S,
    nodes: Seq<PathNode>,
    start: Visit,
    reached: Map<Visit, Seq<Choice>>,
    applied: Set<Applied>,
    done: Set<Visit>,
)
    requires
        progress(system, nodes, start, reached, applied, done),
        forall|v: Visit| reached.contains_key(v) ==> #[trigger] done.contains(v),
    ensures
        is_solution(system, nodes, start, reached),
        forall|v: Visit| reached.contains_key(v) ==> #[trigger] system.fits(nodes, v),
{
    assert forall|to: Visit| #[trigger] reached.contains_key(to) <==> to == start || exists|
        from: Visit,
        guard: Seq<Choice>,
    | contributes(system, nodes, reached, from, to, guard) by {
        if exists|from: Visit, guard: Seq<Choice>| contributes(system, nodes, reached, from, to, guard) {
            let (from, guard) = choose|from: Visit, guard: Seq<Choice>| contributes(system, nodes, reached, from, to, guard);
            assert(done.contains(from));
            assert(applied.contains((from, to, guard)));
        }
        if reached.contains_key(to) && to != start {
            let (from, guard) = choose|from: Visit, guard: Seq<Choice>| #[trigger] applied.contains((from, to, guard));
            assert(contributes(system, nodes, reached, from, to, guard));
        }
    }
    assert forall|to: Visit, branch: BranchId, arm: int|
        reached.contains_key(to) && to != start && 0 <= arm < branch.arms implies (
    #[trigger] path::allows(reached[to], branch, arm) <==> exists|from: Visit, guard: Seq<Choice>|
        {
            &&& contributes(system, nodes, reached, from, to, guard)
            &&& path::allows(reached[from], branch, arm)
            &&& path::allows(guard, branch, arm)
        }) by {
        if path::allows(reached[to], branch, arm) {
            let (from, guard) = choose|from: Visit, guard: Seq<Choice>|
                {
                    &&& #[trigger] applied.contains((from, to, guard))
                    &&& path::allows(reached[from], branch, arm)
                    &&& path::allows(guard, branch, arm)
                };
            assert(contributes(system, nodes, reached, from, to, guard));
        }
        if exists|from: Visit, guard: Seq<Choice>|
            {
                &&& contributes(system, nodes, reached, from, to, guard)
                &&& path::allows(reached[from], branch, arm)
                &&& path::allows(guard, branch, arm)
            } {
            let (from, guard) = choose|from: Visit, guard: Seq<Choice>|
                {
                    &&& contributes(system, nodes, reached, from, to, guard)
                    &&& path::allows(reached[from], branch, arm)
                    &&& path::allows(guard, branch, arm)
                };
            assert(done.contains(from));
            assert(applied.contains((from, to, guard)));
        }
    }
    assert forall|v: Visit| reached.contains_key(v) implies #[trigger] system.fits(nodes, v) by {
        assert(done.contains(v));
    }
}

/// The valuation picks an arm that exists.
pub open spec fn picks_arms(valuation: path::Valuation) -> bool {
    forall|branch: BranchId|
        branch.arms > 0 ==> 0 <= #[trigger] valuation(branch) < branch.arms
}

/// `v` can be reached by `n` steps that are all taken under `valuation`.
pub open spec fn walks_under<S: FlowSystem>(
    system: S,
    nodes: Seq<PathNode>,
    start: Visit,
    v: Visit,
    valuation: path::Valuation,
    n: nat,
) -> bool
    decreases n,
{
    if n == 0 {
        v == start
    } else {
        exists|from: Visit, guard: Seq<Choice>|
            #![trigger system.step(nodes, from, v, guard)]
            from.node < system.size() && walks_under(
                system,
                nodes,
                start,
                from,
                valuation,
                (n - 1) as nat,
            ) && system.step(nodes, from, v, guard) && path::admits(guard, valuation)
    }
}

/// No dependency is lost: whatever can be reached by steps that one choice of arms takes is
/// reached, under a condition that admits that choice.
pub proof fn solution_is_sound<S: FlowSystem>(
    system: S,
    nodes: Seq<PathNode>,
    start: Visit,
    reached: Map<Visit, Seq<Choice>>,
    v: Visit,
    valuation: path::Valuation,
    n: nat,
)
    requires
        arena::nodes_wf(nodes),
        system.system_wf(nodes),
        is_solution(system, nodes, start, reached),
        walks_under(system, nodes, start, v, valuation, n),
        picks_arms(valuation),
    ensures
        reached.contains_key(v),
        path::admits(reached[v], valuation),
    decreases n,
{
    if n > 0 && v != start {
        let (from, guard) = choose|from: Visit, guard: Seq<Choice>|
            #![trigger system.step(nodes, from, v, guard)]
            from.node < system.size() && walks_under(
                system,
                nodes,
                start,
                from,
                valuation,
                (n - 1) as nat,
            ) && system.step(nodes, from, v, guard) && path::admits(guard, valuation);
        solution_is_sound(system, nodes, start, reached, from, valuation, (n - 1) as nat);
        if path::conflict(reached[from], guard) {
            path::conflict_excludes(reached[from], guard, valuation);
        }
        assert(contributes(system, nodes, reached, from, v, guard));
        assert(reached.contains_key(v));
        path::admits_by_branch(reached[v], valuation);
        path::admits_by_branch(reached[from], valuation);
        path::admits_by_branch(guard, valuation);
        assert forall|branch: BranchId| #[trigger] path::allows(
            reached[v],
            branch,
            valuation(branch),
        ) by {
            if path::constrains(reached[v], branch) {
                path::lemma_constrained(reached[v], branch);
                assert(branch.arms > 0);
                assert(path::allows(reached[from], branch, valuation(branch)));
                assert(path::allows(guard, branch, valuation(branch)));
            } else {
                path::lemma_unconstrained(reached[v], branch);
            }
        }
    }
}

/// A system has one solution.
pub proof fn solution_is_unique<S: FlowSystem>(
    system: S,
    nodes: Seq<PathNode>,
    start: Visit,
    a: Map<Visit, Seq<Choice>>,
    b: Map<Visit, Seq<Choice>>,
)
    requires
        arena::nodes_wf(nodes),
        system.system_wf(nodes),
        start.node < system.size(),
        is_solution(system, nodes, start, a),
        is_solution(system, nodes, start, b),
    ensures
        a == b,
{
    assert forall|v: Visit| #[trigger] a.contains_key(v) implies b.contains_key(v) && a[v] == b[v] by {
        lemma_solutions_agree(system, nodes, start, a, b, v);
    }
    assert forall|v: Visit| #[trigger] b.contains_key(v) implies a.contains_key(v) by {
        lemma_solutions_agree(system, nodes, start, a, b, v);
    }
    assert(a =~= b);
}

proof fn lemma_solutions_agree<S: FlowSystem>(
    system: S,
    nodes: Seq<PathNode>,
    start: Visit,
    a: Map<Visit, Seq<Choice>>,
    b: Map<Visit, Seq<Choice>>,
    v: Visit,
)
    requires
        arena::nodes_wf(nodes),
        system.system_wf(nodes),
        start.node < system.size(),
        is_solution(system, nodes, start, a),
        is_solution(system, nodes, start, b),
    ensures
        a.contains_key(v) <==> b.contains_key(v),
        a.contains_key(v) ==> a[v] == b[v],
    decreases 3 * system.size() + 3 - rank(v),
{
    if v != start {
        assert forall|from: Visit, guard: Seq<Choice>|
            contributes(system, nodes, a, from, v, guard) <==> contributes(
                system,
                nodes,
                b,
                from,
                v,
                guard,
            ) by {
            if from.node < system.size() && system.step(nodes, from, v, guard) {
                system.step_descends(nodes, from, v, guard);
                lemma_rank_descends(from, v);
                lemma_solutions_agree(system, nodes, start, a, b, from);
            }
        }
        assert forall|from: Visit, guard: Seq<Choice>|
            #[trigger] contributes(system, nodes, a, from, v, guard) implies a[from] == b[from] by {
            system.step_descends(nodes, from, v, guard);
            lemma_rank_descends(from, v);
            lemma_solutions_agree(system, nodes, start, a, b, from);
        }
        if a.contains_key(v) {
            let (from, guard) = choose|from: Visit, guard: Seq<Choice>|
                contributes(system, nodes, a, from, v, guard);
            assert(contributes(system, nodes, b, from, v, guard));
        }
        if b.contains_key(v) {
            let (from, guard) = choose|from: Visit, guard: Seq<Choice>|
                contributes(system, nodes, b, from, v, guard);
            assert(contributes(system, nodes, a, from, v, guard));
        }
        if a.contains_key(v) {
            assert forall|branch: BranchId, arm: int|
                0 <= arm < branch.arms implies (#[trigger] path::allows(a[v], branch, arm)
                <==> path::allows(b[v], branch, arm)) by {
                if path::allows(a[v], branch, arm) {
                    let (from, guard) = choose|from: Visit, guard: Seq<Choice>|
                        {
                            &&& contributes(system, nodes, a, from, v, guard)
                            &&& path::allows(a[from], branch, arm)
                            &&& path::allows(guard, branch, arm)
                        };
                    assert(contributes(system, nodes, b, from, v, guard));
                    assert(a[from] == b[from]);
                }
                if path::allows(b[v], branch, arm) {
                    let (from, guard) = choose|from: Visit, guard: Seq<Choice>|
                        {
                            &&& contributes(system, nodes, b, from, v, guard)
                            &&& path::allows(b[from], branch, arm)
                            &&& path::allows(guard, branch, arm)
                        };
                    assert(contributes(system, nodes, a, from, v, guard));
                    assert(a[from] == b[from]);
                }
            }
            path::path_is_canonical(a[v], b[v]);
        }
    }
}

/// Growing the arena changes no solution.
pub proof fn solution_survives_growth<S: FlowSystem>(
    system: S,
    a: Seq<PathNode>,
    b: Seq<PathNode>,
    start: Visit,
    reached: Map<Visit, Seq<Choice>>,
)
    requires
        system.system_wf(a),
        arena::nodes_wf(a),
        arena::nodes_wf(b),
        arena::grows(a, b),
    ensures
        is_solution(system, a, start, reached) <==> is_solution(system, b, start, reached),
{
    system.step_stable(a, b);
    assert forall|from: Visit, to: Visit, guard: Seq<Choice>|
        #[trigger] contributes(system, a, reached, from, to, guard) <==> contributes(
            system,
            b,
            reached,
            from,
            to,
            guard,
        ) by {
        assert(from.node < system.size() ==> system.step(a, from, to, guard) == system.step(
            b,
            from,
            to,
            guard,
        ));
    }
    if is_solution(system, a, start, reached) {
        lemma_solution_transfer(system, a, b, start, reached);
    }
    if is_solution(system, b, start, reached) {
        lemma_solution_transfer(system, b, a, start, reached);
    }
}

proof fn lemma_solution_transfer<S: FlowSystem>(
    system: S,
    a: Seq<PathNode>,
    b: Seq<PathNode>,
    start: Visit,
    reached: Map<Visit, Seq<Choice>>,
)
    requires
        is_solution(system, a, start, reached),
        forall|from: Visit, to: Visit, guard: Seq<Choice>|
            #![trigger contributes(system, a, reached, from, to, guard)]
            #![trigger contributes(system, b, reached, from, to, guard)]
            contributes(system, a, reached, from, to, guard) <==> contributes(
                system,
                b,
                reached,
                from,
                to,
                guard,
            ),
    ensures
        is_solution(system, b, start, reached),
{
    assert forall|to: Visit| #[trigger] reached.contains_key(to) <==> to == start || exists|
        from: Visit,
        guard: Seq<Choice>,
    | contributes(system, b, reached, from, to, guard) by {
        if reached.contains_key(to) && to != start {
            let (from, guard) = choose|from: Visit, guard: Seq<Choice>|
                contributes(system, a, reached, from, to, guard);
            assert(contributes(system, b, reached, from, to, guard));
        }
        if exists|from: Visit, guard: Seq<Choice>| contributes(system, b, reached, from, to, guard) {
            let (from, guard) = choose|from: Visit, guard: Seq<Choice>|
                contributes(system, b, reached, from, to, guard);
            assert(contributes(system, a, reached, from, to, guard));
        }
    }
    assert forall|to: Visit, branch: BranchId, arm: int|
        reached.contains_key(to) && to != start && 0 <= arm < branch.arms implies (
    #[trigger] path::allows(reached[to], branch, arm) <==> exists|from: Visit, guard: Seq<Choice>|
        {
            &&& contributes(system, b, reached, from, to, guard)
            &&& path::allows(reached[from], branch, arm)
            &&& path::allows(guard, branch, arm)
        }) by {
        if path::allows(reached[to], branch, arm) {
            let (from, guard) = choose|from: Visit, guard: Seq<Choice>|
                {
                    &&& contributes(system, a, reached, from, to, guard)
                    &&& path::allows(reached[from], branch, arm)
                    &&& path::allows(guard, branch, arm)
                };
            assert(contributes(system, b, reached, from, to, guard));
        }
        if exists|from: Visit, guard: Seq<Choice>|
            {
                &&& contributes(system, b, reached, from, to, guard)
                &&& path::allows(reached[from], branch, arm)
                &&& path::allows(guard, branch, arm)
            } {
            let (from, guard) = choose|from: Visit, guard: Seq<Choice>|
                {
                    &&& contributes(system, b, reached, from, to, guard)
                    &&& path::allows(reached[from], branch, arm)
                    &&& path::allows(guard, branch, arm)
                };
            assert(contributes(system, a, reached, from, to, guard));
        }
    }
}

/// Growing the arena changes nothing that can be walked to.
pub proof fn walks_survive_growth<S: FlowSystem>(
    system: S,
    a: Seq<PathNode>,
    b: Seq<PathNode>,
    start: Visit,
    v: Visit,
    n: nat,
)
    requires
        system.system_wf(a),
        arena::nodes_wf(a),
        arena::nodes_wf(b),
        arena::grows(a, b),
    ensures
        walks(system, a, start, v, n) <==> walks(system, b, start, v, n),
    decreases n,
{
    system.step_stable(a, b);
    if n > 0 {
        if walks(system, a, start, v, n) {
            let (from, guard) = choose|from: Visit, guard: Seq<Choice>|
                #![trigger system.step(a, from, v, guard)]
                from.node < system.size() && walks(system, a, start, from, (n - 1) as nat)
                    && system.step(a, from, v, guard);
            walks_survive_growth(system, a, b, start, from, (n - 1) as nat);
            assert(system.step(b, from, v, guard));
        }
        if walks(system, b, start, v, n) {
            let (from, guard) = choose|from: Visit, guard: Seq<Choice>|
                #![trigger system.step(b, from, v, guard)]
                from.node < system.size() && walks(system, b, start, from, (n - 1) as nat)
                    && system.step(b, from, v, guard);
            walks_survive_growth(system, a, b, start, from, (n - 1) as nat);
            assert(system.step(a, from, v, guard) == system.step(b, from, v, guard));
        }
    }
}

/// Growing the arena changes nothing that is walkable.
pub proof fn walkable_survives_growth<S: FlowSystem>(
    system: S,
    a: Seq<PathNode>,
    b: Seq<PathNode>,
    start: Visit,
    v: Visit,
)
    requires
        system.system_wf(a),
        arena::nodes_wf(a),
        arena::nodes_wf(b),
        arena::grows(a, b),
    ensures
        walkable(system, a, start, v) <==> walkable(system, b, start, v),
{
    if walkable(system, a, start, v) {
        let n = choose|n: nat| #[trigger] walks(system, a, start, v, n);
        walks_survive_growth(system, a, b, start, v, n);
    }
    if walkable(system, b, start, v) {
        let n = choose|n: nat| #[trigger] walks(system, b, start, v, n);
        walks_survive_growth(system, a, b, start, v, n);
    }
}

} // verus!
