//! Joins over many conditions, relative conditions, and renamed branches.
use vstd::prelude::*;
use std::collections::{HashMap, HashSet};
use crate::arena;
use crate::arena::{PathArena, PathCondition};
use crate::arms;
use crate::order;
use crate::order::{sort_dedup, Ordered};
use crate::path;
use crate::path::{BranchConstraint, BranchId, Choice};

verus! {

/// Some condition of the list leaves `arm` of `branch` open.
pub open spec fn some_allows(
    arena: PathArena,
    conditions: Seq<PathCondition>,
    branch: BranchId,
    arm: int,
) -> bool {
    exists|i: int|
        0 <= i < conditions.len() && path::allows(arena.path(#[trigger] conditions[i]), branch, arm)
}

/// Some condition of the list says something about `branch`.
pub open spec fn some_constrains(
    arena: PathArena,
    conditions: Seq<PathCondition>,
    branch: BranchId,
) -> bool {
    exists|i: int|
        0 <= i < conditions.len() && path::constrains(arena.path(#[trigger] conditions[i]), branch)
}

proof fn lemma_some_allows_next(
    arena: PathArena,
    conditions: Seq<PathCondition>,
    n: int,
    branch: BranchId,
    arm: int,
)
    requires
        0 <= n < conditions.len(),
    ensures
        some_allows(arena, conditions.take(n + 1), branch, arm) <==> some_allows(
            arena,
            conditions.take(n),
            branch,
            arm,
        ) || path::allows(arena.path(conditions[n]), branch, arm),
{
    let short = conditions.take(n);
    let long = conditions.take(n + 1);
    if some_allows(arena, long, branch, arm) {
        let i = choose|i: int|
            0 <= i < long.len() && path::allows(arena.path(#[trigger] long[i]), branch, arm);
        if i < n {
            assert(short[i] == long[i]);
        }
    }
    if some_allows(arena, short, branch, arm) {
        let i = choose|i: int|
            0 <= i < short.len() && path::allows(arena.path(#[trigger] short[i]), branch, arm);
        assert(long[i] == short[i]);
    }
    assert(long[n] == conditions[n]);
}

impl PathArena {
    /// The least condition, branch by branch, that covers every listed one. An empty list joins
    /// to the condition that always holds.
    pub fn disjoin_all(&mut self, conditions: &Vec<PathCondition>) -> (r: PathCondition)
        requires
            old(self).wf(),
            forall|i: int| 0 <= i < conditions.len() ==> old(self).holds(#[trigger] conditions@[i]),
        ensures
            final(self).wf(),
            arena::grows(old(self)@, final(self)@),
            final(self).holds(r),
            conditions.len() == 0 ==> final(self).path(r).len() == 0,
            path::path_wf(final(self).path(r)),
            conditions.len() > 0 ==> forall|branch: BranchId, arm: int|
                0 <= arm < branch.arms ==> (#[trigger] path::allows(
                    final(self).path(r),
                    branch,
                    arm,
                ) <==> some_allows(*old(self), conditions@, branch, arm)),
    {
        if conditions.len() == 0 {
            return PathCondition { node: 0 };
        }
        let ghost start = *self;
        let mut combined = conditions[0];
        let mut i: usize = 1;
        assert(start.holds(conditions@[0]));
        proof {
            arena::arena_paths_wf(self@, combined.node as int);
            assert forall|branch: BranchId, arm: int|
                some_allows(start, conditions@.take(1), branch, arm) <==> #[trigger] path::allows(
                    self.path(combined),
                    branch,
                    arm,
                ) by {
                lemma_some_allows_next(start, conditions@, 0, branch, arm);
            }
        }
        while i < conditions.len()
            invariant
                1 <= i <= conditions.len(),
                start == *old(self),
                self.wf(),
                arena::grows(start@, self@),
                forall|k: int| 0 <= k < conditions.len() ==> start.holds(#[trigger] conditions@[k]),
                self.holds(combined),
                forall|branch: BranchId, arm: int|
                    0 <= arm < branch.arms ==> (#[trigger] path::allows(
                        self.path(combined),
                        branch,
                        arm,
                    ) <==> some_allows(start, conditions@.take(i as int), branch, arm)),
                path::path_wf(self.path(combined)),
            decreases conditions.len() - i,
        {
            let ghost before = *self;
            let previous = combined;
            assert(start.holds(conditions@[i as int]));
            combined = self.disjoin(previous, conditions[i]);
            proof {
                let taken = conditions@.take(i as int);
                let next = conditions@.take(i as int + 1);
                arena::growth_is_transitive(start@, before@, self@);
                arena::growth_keeps_paths(start@, before@, conditions@[i as int].node as int);
                assert forall|branch: BranchId, arm: int|
                    0 <= arm < branch.arms implies (#[trigger] path::allows(
                    self.path(combined),
                    branch,
                    arm,
                ) <==> some_allows(start, next, branch, arm)) by {
                    lemma_some_allows_next(start, conditions@, i as int, branch, arm);
                    assert(path::allows(before.path(previous), branch, arm) <==> some_allows(
                        start,
                        taken,
                        branch,
                        arm,
                    ));
                }
            }
            i = i + 1;
        }
        assert(conditions@.take(i as int) =~= conditions@);
        combined
    }

    /// The choices of `condition` that `ancestor` does not already make.
    pub fn relative_to(&mut self, condition: PathCondition, ancestor: PathCondition) -> (r:
        PathCondition)
        requires
            old(self).wf(),
            old(self).holds(condition),
            old(self).holds(ancestor),
        ensures
            final(self).wf(),
            arena::grows(old(self)@, final(self)@),
            final(self).holds(r),
            path::path_wf(final(self).path(r)),
            forall|c: Choice| #[trigger]
                final(self).path(r).contains(c) <==> old(self).path(condition).contains(c)
                    && !old(self).path(ancestor).contains(c),
    {
        let ghost full = self.path(condition);
        let ghost outer = self.path(ancestor);
        let constraints = self.constraints(condition);
        let known = self.constraints(ancestor);
        proof {
            arena::arena_paths_wf(self@, condition.node as int);
            arena::arena_paths_wf(self@, ancestor.node as int);
        }
        let mut relative: Vec<BranchConstraint> = Vec::new();
        let mut i: usize = 0;
        while i < constraints.len()
            invariant
                i <= constraints.len(),
                full == path::choices(constraints@),
                outer == path::choices(known@),
                path::path_wf(full),
                path::path_wf(outer),
                path::path_wf(path::choices(relative@)),
                forall|c: Choice| #[trigger]
                    path::choices(relative@).contains(c) <==> full.take(i as int).contains(c)
                        && !outer.contains(c),
            decreases constraints.len() - i,
        {
            let ghost before = path::choices(relative@);
            let ghost next = full[i as int];
            let branch = constraints[i].branch;
            assert(next == constraints@[i as int]@);
            let same = match arena::find_constraint(&known, branch) {
                Some(index) => {
                    proof {
                        assert(outer[index as int] == known@[index as int]@);
                    }
                    known[index].allowed.same(&constraints[i].allowed)
                },
                None => false,
            };
            proof {
                assert(same <==> outer.contains(next)) by {
                    if outer.contains(next) {
                        let k = choose|k: int| 0 <= k < outer.len() && outer[k] == next;
                        assert(outer[k].branch == branch);
                        assert(path::constrains(outer, branch));
                        path::lemma_at(outer, k);
                        BranchId::lt_irreflexive(branch);
                        assert forall|m: int| 0 <= m < outer.len() && (#[trigger] outer[m]).branch == branch implies m == k by {
                            if m < k {
                                assert(outer[m].branch.lt(outer[k].branch));
                            } else if k < m {
                                assert(outer[k].branch.lt(outer[m].branch));
                            }
                        }
                    }
                }
                assert(full.take(i as int + 1) =~= full.take(i as int).push(next));
            }
            if !same {
                relative.push(constraints[i].clone());
                proof {
                    let after = path::choices(relative@);
                    assert(after =~= before.push(next));
                    assert forall|k: int| 0 <= k < before.len() implies (#[trigger] before[k]).branch.lt(branch) by {
                        assert(before.contains(before[k]));
                        assert(full.take(i as int).contains(before[k]));
                        let m = choose|m: int| 0 <= m < i && full.take(i as int)[m] == before[k];
                        assert(full[m].branch.lt(full[i as int].branch));
                    }
                    crate::conjoin::lemma_wf_push(before, next);
                }
            }
            proof {
                let after = path::choices(relative@);
                assert forall|c: Choice| #[trigger] after.contains(c) <==> full.take(i as int + 1).contains(c)
                    && !outer.contains(c) by {
                    lemma_contains_push(full.take(i as int), next, c);
                    if !same {
                        lemma_contains_push(before, next, c);
                    }
                    assert(before.contains(c) <==> full.take(i as int).contains(c) && !outer.contains(c));
                }
            }
            i = i + 1;
        }
        assert(full.take(i as int) =~= full);
        self.from_constraints(&relative)
    }

    /// Every branch that one of the conditions speaks of, ascending and each once.
    pub fn collect_branches(&self, conditions: &Vec<PathCondition>) -> (r: Vec<BranchId>)
        requires
            self.wf(),
            forall|i: int| 0 <= i < conditions.len() ==> self.holds(#[trigger] conditions@[i]),
        ensures
            order::strictly_sorted(r@),
            forall|branch: BranchId| #[trigger]
                r@.contains(branch) <==> some_constrains(*self, conditions@, branch),
    {
        let mut branches: Vec<BranchId> = Vec::new();
        let mut visited: HashSet<usize> = HashSet::new();
        let mut i: usize = 0;
        while i < conditions.len()
            invariant
                i <= conditions.len(),
                self.wf(),
                forall|k: int| 0 <= k < conditions.len() ==> self.holds(#[trigger] conditions@[k]),
                forall|branch: BranchId| #[trigger]
                    branches@.contains(branch) <==> some_constrains(
                        *self,
                        conditions@.take(i as int),
                        branch,
                    ),
                forall|n: usize| #[trigger]
                    visited@.contains(n) ==> n < self@.len() && forall|branch: BranchId|
                        #[trigger] path::constrains(arena::path_of(self@, n as int), branch)
                            ==> branches@.contains(branch),
            decreases conditions.len() - i,
        {
            let mut current: usize = conditions[i].node;
            let ghost entry = arena::path_of(self@, current as int);
            let ghost taken = conditions@.take(i as int);
            let mut trail: Vec<usize> = Vec::new();
            assert(self.holds(conditions@[i as int]));
            while current > 0 && !visited.contains(&current)
                invariant
                    self.wf(),
                    current < self@.len(),
                    forall|n: usize| #[trigger]
                        visited@.contains(n) ==> n < self@.len() && forall|branch: BranchId|
                            #[trigger] path::constrains(arena::path_of(self@, n as int), branch)
                                ==> branches@.contains(branch),
                    forall|k: int| 0 <= k < trail.len() ==> (#[trigger] trail@[k]) < self@.len() && forall|branch: BranchId|
                        #[trigger] path::constrains(arena::path_of(self@, trail@[k] as int), branch)
                            ==> path::constrains(entry, branch),
                    forall|branch: BranchId| #[trigger]
                        branches@.contains(branch) ==> some_constrains(*self, taken, branch)
                            || path::constrains(entry, branch),
                    forall|branch: BranchId|
                        some_constrains(*self, taken, branch) ==> #[trigger] branches@.contains(
                            branch,
                        ),
                    forall|branch: BranchId| #[trigger]
                        path::constrains(entry, branch) ==> branches@.contains(branch)
                            || path::constrains(arena::path_of(self@, current as int), branch),
                    forall|branch: BranchId| #[trigger]
                        path::constrains(arena::path_of(self@, current as int), branch)
                            ==> path::constrains(entry, branch),
                decreases current,
            {
                let branch = self.nodes[current].constraint.branch;
                let ghost before = branches@;
                let ghost longer = arena::path_of(self@, current as int);
                trail.push(current);
                branches.push(branch);
                proof {
                    assert(arena::node_wf(self@, current as int));
                    let shorter = arena::path_of(self@, self@[current as int].parent as int);
                    assert(longer == shorter.push(self@[current as int].constraint@));
                    path::lemma_push(shorter, self@[current as int].constraint@);
                    assert(path::constrains(longer, branch));
                    assert(path::constrains(entry, branch));
                    assert forall|b: BranchId| #[trigger] path::constrains(shorter, b) implies path::constrains(entry, b) by {
                        assert(path::constrains(longer, b));
                    }
                    assert forall|b: BranchId| #[trigger] branches@.contains(b) <==> before.contains(b) || b == branch by {
                        lemma_contains_push(before, branch, b);
                    }
                }
                current = self.nodes[current].parent;
            }
            proof {
                assert forall|branch: BranchId| #[trigger] path::constrains(entry, branch) implies branches@.contains(branch) by {
                    if !branches@.contains(branch) {
                        assert(path::constrains(arena::path_of(self@, current as int), branch));
                    }
                }
                let next = conditions@.take(i as int + 1);
                assert forall|branch: BranchId| #[trigger] branches@.contains(branch) <==> some_constrains(*self, next, branch) by {
                    if some_constrains(*self, taken, branch) {
                        let k = choose|k: int| 0 <= k < taken.len() && path::constrains(self.path(#[trigger] taken[k]), branch);
                        assert(next[k] == taken[k]);
                    }
                    assert(next[i as int] == conditions@[i as int]);
                    if some_constrains(*self, next, branch) {
                        let k = choose|k: int| 0 <= k < next.len() && path::constrains(self.path(#[trigger] next[k]), branch);
                        if k < i {
                            assert(taken[k] == next[k]);
                        } else {
                            assert(path::constrains(entry, branch));
                        }
                    }
                }
            }
            let mut t: usize = 0;
            while t < trail.len()
                invariant
                    t <= trail.len(),
                    forall|k: int| 0 <= k < trail.len() ==> (#[trigger] trail@[k]) < self@.len() && forall|branch: BranchId|
                        #[trigger] path::constrains(arena::path_of(self@, trail@[k] as int), branch)
                            ==> branches@.contains(branch),
                    forall|n: usize| #[trigger]
                        visited@.contains(n) ==> n < self@.len() && forall|branch: BranchId|
                            #[trigger] path::constrains(arena::path_of(self@, n as int), branch)
                                ==> branches@.contains(branch),
                decreases trail.len() - t,
            {
                assert(trail@[t as int] < self@.len());
                visited.insert(trail[t]);
                t = t + 1;
            }
            i = i + 1;
        }
        assert(conditions@.take(i as int) =~= conditions@);
        sort_dedup(&branches)
    }
}

/// The branch that stands for `branch` once renamed.
pub open spec fn renamed(mapping: Seq<(BranchId, BranchId)>, branch: BranchId) -> BranchId
    decreases mapping.len(),
{
    if mapping.len() == 0 {
        branch
    } else if mapping.last().0 == branch {
        mapping.last().1
    } else {
        renamed(mapping.drop_last(), branch)
    }
}

/// The path with every branch renamed.
pub open spec fn renamed_path(mapping: Seq<(BranchId, BranchId)>, path: Seq<Choice>) -> Seq<Choice> {
    Seq::new(
        path.len(),
        |i: int| Choice { branch: renamed(mapping, path[i].branch), allowed: path[i].allowed },
    )
}

/// Renaming keeps the branches of `path` in ascending order, each with its arms.
pub open spec fn keeps_order(mapping: Seq<(BranchId, BranchId)>, path: Seq<Choice>) -> bool {
    &&& forall|i: int, j: int|
        0 <= i < j < path.len() ==> renamed(mapping, (#[trigger] path[i]).branch).lt(
            renamed(mapping, (#[trigger] path[j]).branch),
        )
    &&& forall|i: int|
        0 <= i < path.len() ==> renamed(mapping, (#[trigger] path[i]).branch).arms
            == path[i].branch.arms
}

/// Renaming keeps the branches of `path` in ascending order, and each choice a real one among the arms that
/// the branch then has.
pub open spec fn keeps_choices(mapping: Seq<(BranchId, BranchId)>, path: Seq<Choice>) -> bool {
    &&& forall|i: int, j: int|
        0 <= i < j < path.len() ==> renamed(mapping, (#[trigger] path[i]).branch).lt(renamed(mapping, (#[trigger] path[j]).branch))
    &&& forall|i: int| 0 <= i < path.len() ==> path::choice_wf(Choice { branch: renamed(mapping, (#[trigger] path[i]).branch), allowed: path[i].allowed })
}

/// Where branches keep their arms, choices stay real ones.
pub proof fn lemma_keeps_choices(mapping: Seq<(BranchId, BranchId)>, path: Seq<Choice>)
    requires
        path::path_wf(path),
        keeps_order(mapping, path),
    ensures
        keeps_choices(mapping, path),
{
    assert forall|i: int| 0 <= i < path.len() implies path::choice_wf(
        Choice { branch: renamed(mapping, (#[trigger] path[i]).branch), allowed: path[i].allowed },
    ) by {
        assert(path::choice_wf(path[i]));
        let x = choose|x: int| 0 <= x < path[i].branch.arms && !#[trigger] arms::in_runs(path[i].allowed, x);
        assert(!arms::in_runs(path[i].allowed, x));
    }
}

/// A renamed path constrains exactly the new names of the branches that the path constrains, each to the same
/// arms, whatever number of arms the new names have.
pub proof fn renaming_keeps_the_allowed_arms(mapping: Seq<(BranchId, BranchId)>, path: Seq<Choice>, branch: BranchId, allowed: Seq<arms::Run>)
    requires
        path::path_wf(path),
        keeps_choices(mapping, path),
    ensures
        path::path_wf(renamed_path(mapping, path)),
        renamed_path(mapping, path).contains(Choice { branch, allowed }) <==> exists|old_name: BranchId| #[trigger]
            path.contains(Choice { branch: old_name, allowed }) && renamed(mapping, old_name) == branch,
{
    lemma_renamed_wf(mapping, path);
    let r = renamed_path(mapping, path);
    if r.contains(Choice { branch, allowed }) {
        let i = choose|i: int| 0 <= i < r.len() && r[i] == Choice { branch, allowed };
        let old_name = path[i].branch;
        assert(path[i] == Choice { branch: old_name, allowed });
        assert(path.contains(Choice { branch: old_name, allowed }));
    }
    if exists|old_name: BranchId| #[trigger] path.contains(Choice { branch: old_name, allowed }) && renamed(mapping, old_name) == branch {
        let old_name = choose|old_name: BranchId| #[trigger] path.contains(Choice { branch: old_name, allowed }) && renamed(mapping, old_name) == branch;
        let i = choose|i: int| 0 <= i < path.len() && path[i] == Choice { branch: old_name, allowed };
        assert(r[i] == Choice { branch, allowed });
    }
}

/// Renames branches and remembers which conditions it has renamed.
pub struct BranchRemapper {
    /// Pairs of a branch and its new name; the source branches ascend.
    pub mapping: Vec<(BranchId, BranchId)>,
    /// From a node to the node of its renamed path.
    pub cache: HashMap<usize, usize>,
}

impl BranchRemapper {
    pub open spec fn sorted(self) -> bool {
        forall|i: int, j: int|
            0 <= i < j < self.mapping@.len() ==> (#[trigger] self.mapping@[i]).0.lt(
                (#[trigger] self.mapping@[j]).0,
            )
    }

    /// What the cache holds is right for `arena`.
    pub open spec fn wf(self, arena: PathArena) -> bool {
        &&& self.sorted()
        &&& forall|n: usize| #[trigger]
            self.cache@.contains_key(n) ==> {
                &&& n < arena@.len()
                &&& self.cache@[n] < arena@.len()
                &&& arena::path_of(arena@, self.cache@[n] as int) == renamed_path(
                    self.mapping@,
                    arena::path_of(arena@, n as int),
                )
            }
    }

    /// A remapper for pairs whose source branches ascend.
    pub fn new(mapping: Vec<(BranchId, BranchId)>) -> (r: Self)
        ensures
            r.mapping == mapping,
            r.cache@ == Map::<usize, usize>::empty(),
    {
        BranchRemapper { mapping, cache: HashMap::new() }
    }

    /// The new name of one branch.
    fn lookup(&self, branch: BranchId) -> (r: BranchId)
        requires
            self.sorted(),
        ensures
            r == renamed(self.mapping@, branch),
    {
        let mut low: usize = 0;
        let mut high: usize = self.mapping.len();
        while low < high
            invariant
                low <= high <= self.mapping.len(),
                self.sorted(),
                forall|k: int| 0 <= k < low ==> (#[trigger] self.mapping@[k]).0.lt(branch),
                forall|k: int| high <= k < self.mapping.len() ==> branch.lt((#[trigger] self.mapping@[k]).0),
            decreases high - low,
        {
            let middle: usize = low + (high - low) / 2;
            let found = self.mapping[middle].0;
            if found.less(branch) {
                proof {
                    assert forall|k: int| 0 <= k < middle + 1 implies (#[trigger] self.mapping@[k]).0.lt(branch) by {
                        if k < middle {
                            BranchId::lt_transitive(self.mapping@[k].0, found, branch);
                        }
                    }
                }
                low = middle + 1;
            } else if branch.less(found) {
                proof {
                    assert forall|k: int| middle <= k < self.mapping.len() implies branch.lt((#[trigger] self.mapping@[k]).0) by {
                        if k > middle {
                            BranchId::lt_transitive(branch, found, self.mapping@[k].0);
                        }
                    }
                }
                high = middle;
            } else {
                proof {
                    BranchId::lt_total(found, branch);
                    lemma_renamed_at(self.mapping@, middle as int);
                }
                return self.mapping[middle].1;
            }
        }
        proof {
            assert forall|k: int| 0 <= k < self.mapping.len() implies (#[trigger] self.mapping@[k]).0 != branch by {
                BranchId::lt_irreflexive(branch);
            }
            lemma_renamed_none(self.mapping@, branch);
        }
        branch
    }

    /// The renamed condition. A prefix that was renamed before is looked up.
    pub fn remap(&mut self, arena: &mut PathArena, condition: PathCondition) -> (r: PathCondition)
        requires
            old(arena).wf(),
            old(arena).holds(condition),
            old(self).wf(*old(arena)),
            keeps_choices(old(self).mapping@, old(arena).path(condition)),
        ensures
            final(arena).wf(),
            arena::grows(old(arena)@, final(arena)@),
            final(arena).holds(r),
            final(self).wf(*final(arena)),
            final(self).mapping == old(self).mapping,
            final(arena).path(r) == renamed_path(
                old(self).mapping@,
                old(arena).path(condition),
            ),
            // Every node on the way to the root is cached, with the same answer as before.
            final(self).cache@.contains_key(condition.node),
            final(self).cache@[condition.node] == r.node,
            forall|n: usize| #[trigger]
                old(self).cache@.contains_key(n) ==> final(self).cache@.contains_key(n)
                    && final(self).cache@[n] == old(self).cache@[n],
            old(self).cache@.contains_key(condition.node) ==> *final(arena) == *old(arena)
                && *final(self) == *old(self),
            final(arena)@.len() - old(arena)@.len() <= old(arena).path(condition).len(),
            final(self).cache@.len() <= old(self).cache@.len() + old(arena).path(condition).len()
                + 1,
    {
        let ghost start = *arena;
        let ghost full = arena.path(condition);
        if let Some(n) = self.cache.get(&condition.node) {
            return PathCondition { node: *n };
        }
        let mut suffix: Vec<usize> = Vec::new();
        let mut current: usize = condition.node;
        proof {
            arena::arena_paths_wf(arena@, condition.node as int);
        }
        while current > 0 && !self.cache.contains_key(&current)
            invariant
                *self == *old(self),
                arena.wf(),
                *arena == start,
                full == start.path(condition),
                current < arena@.len(),
                arena::path_of(start@, current as int) == full.take(full.len() - suffix.len()),
                suffix.len() <= full.len(),
                forall|k: int| 0 <= k < suffix.len() ==> {
                    &&& 0 < (#[trigger] suffix@[k]) < start@.len()
                    &&& arena::path_of(start@, suffix@[k] as int) == full.take(full.len() - k)
                    &&& !old(self).cache@.contains_key(suffix@[k])
                    &&& suffix@[k] > current
                },
                forall|k: int, m: int| 0 <= k < m < suffix.len() ==> #[trigger] suffix@[k] > #[trigger] suffix@[m],
                suffix.len() == 0 ==> current == condition.node,
                suffix.len() > 0 ==> suffix@[0] == condition.node,
            decreases current,
        {
            proof {
                assert(arena::node_wf(arena@, current as int));
                arena::arena_paths_wf(arena@, current as int);
                let here = arena::path_of(arena@, current as int);
                let up = arena::path_of(arena@, arena@[current as int].parent as int);
                assert(up =~= here.drop_last());
                assert(full.take(full.len() - suffix.len()).drop_last() =~= full.take(full.len() - suffix.len() - 1));
            }
            suffix.push(current);
            current = arena.nodes[current].parent;
        }
        let mut renamed_to: PathCondition = PathCondition { node: 0 };
        match self.cache.get(&current) {
            Some(n) => {
                renamed_to = PathCondition { node: *n };
            },
            None => {
                self.cache.insert(0, 0);
                proof {
                    assert(current == 0);
                    assert(arena::path_of(start@, 0) =~= renamed_path(self.mapping@, arena::path_of(start@, 0)));
                }
            },
        }
        let mut left: usize = suffix.len();
        let ghost mapping = self.mapping@;
        proof {
            assert(renamed_path(mapping, full.take(full.len() - left)) =~= renamed_path(mapping, full).take(full.len() - left));
        }
        while left > 0
            invariant
                mapping == self.mapping@,
                self.mapping == old(self).mapping,
                left <= suffix.len() <= full.len(),
                start.wf(),
                start == *old(arena),
                full == start.path(condition),
                path::path_wf(full),
                keeps_choices(mapping, full),
                arena.wf(),
                arena::grows(start@, arena@),
                arena@.len() - start@.len() == suffix.len() - left,
                arena.holds(renamed_to),
                arena.path(renamed_to) == renamed_path(mapping, full).take(full.len() - left),
                self.wf(*arena),
                forall|k: int| 0 <= k < suffix.len() ==> {
                    &&& 0 < (#[trigger] suffix@[k]) < start@.len()
                    &&& arena::path_of(start@, suffix@[k] as int) == full.take(full.len() - k)
                    &&& !old(self).cache@.contains_key(suffix@[k])
                },
                forall|k: int, m: int| 0 <= k < m < suffix.len() ==> #[trigger] suffix@[k] > #[trigger] suffix@[m],
                forall|n: usize| #[trigger]
                    old(self).cache@.contains_key(n) ==> self.cache@.contains_key(n)
                        && self.cache@[n] == old(self).cache@[n],
                self.cache@.len() <= old(self).cache@.len() + 1 + suffix.len() - left,
                left < suffix.len() ==> self.cache@.contains_key(suffix@[left as int]) && self.cache@[suffix@[left as int]] == renamed_to.node,
                suffix.len() > 0 ==> suffix@[0] == condition.node,
                suffix.len() == 0 ==> self.cache@.contains_key(condition.node) && self.cache@[condition.node] == renamed_to.node,
            decreases left,
        {
            left = left - 1;
            let node: usize = suffix[left];
            let ghost position = full.len() - left - 1;
            let ghost before = *arena;
            proof {
                assert(start@[node as int] == arena@[node as int]);
                arena::arena_paths_wf(start@, node as int);
                assert(full.take(full.len() - left).last() == full[position]);
                assert(start@[node as int].constraint@ == full[position]);
            }
            let constraint = BranchConstraint {
                branch: self.lookup(arena.nodes[node].constraint.branch),
                allowed: arena.nodes[node].constraint.allowed.clone(),
            };
            proof {
                let goal = renamed_path(mapping, full);
                let shorter = goal.take(position);
                let longer = shorter.push(constraint@);
                assert(constraint@ == goal[position]);
                assert(longer =~= goal.take(position + 1));
                assert(arena::node_wf(start@, node as int));
                lemma_renamed_wf(mapping, full);
                lemma_prefix_wf(goal, position + 1);
            }
            let ghost known = self.cache@;
            renamed_to = arena.append_constraint(renamed_to, constraint);
            self.cache.insert(node, renamed_to.node);
            proof {
                arena::growth_is_transitive(start@, before@, arena@);
                arena::growth_keeps_paths(start@, arena@, node as int);
                assert(renamed_path(mapping, full.take(full.len() - left)) =~= renamed_path(mapping, full).take(full.len() - left));
                assert forall|n: usize| #[trigger] self.cache@.contains_key(n) implies {
                    &&& n < arena@.len()
                    &&& self.cache@[n] < arena@.len()
                    &&& arena::path_of(arena@, self.cache@[n] as int) == renamed_path(
                        self.mapping@,
                        arena::path_of(arena@, n as int),
                    )
                } by {
                    if n != node {
                        assert(known.contains_key(n));
                        arena::growth_keeps_paths(before@, arena@, n as int);
                        arena::growth_keeps_paths(before@, arena@, known[n] as int);
                    }
                }
                assert forall|n: usize| old(self).cache@.contains_key(n) implies n != node by {}
            }
        }
        proof {
            assert(renamed_path(mapping, full).take(full.len() as int) =~= renamed_path(mapping, full));
        }
        renamed_to
    }
}

/// A branch of the mapping is renamed to its image.
pub proof fn lemma_renamed_at(mapping: Seq<(BranchId, BranchId)>, i: int)
    requires
        0 <= i < mapping.len(),
        forall|i: int, j: int|
            0 <= i < j < mapping.len() ==> (#[trigger] mapping[i]).0.lt((#[trigger] mapping[j]).0),
    ensures
        renamed(mapping, mapping[i].0) == mapping[i].1,
    decreases mapping.len(),
{
    if i < mapping.len() - 1 {
        assert(mapping[i].0.lt(mapping.last().0));
        BranchId::lt_irreflexive(mapping[i].0);
        let shorter = mapping.drop_last();
        assert forall|i: int, j: int| 0 <= i < j < shorter.len() implies (#[trigger] shorter[i]).0.lt((#[trigger] shorter[j]).0) by {
            assert(mapping[i].0.lt(mapping[j].0));
        }
        lemma_renamed_at(shorter, i);
    }
}

proof fn lemma_renamed_none(mapping: Seq<(BranchId, BranchId)>, branch: BranchId)
    requires
        forall|k: int| 0 <= k < mapping.len() ==> (#[trigger] mapping[k]).0 != branch,
    ensures
        renamed(mapping, branch) == branch,
    decreases mapping.len(),
{
    if mapping.len() > 0 {
        assert(mapping[mapping.len() - 1].0 != branch);
        let shorter = mapping.drop_last();
        assert forall|k: int| 0 <= k < shorter.len() implies (#[trigger] shorter[k]).0 != branch by {
            assert(mapping[k].0 != branch);
        }
        lemma_renamed_none(shorter, branch);
    }
}

/// Order-preserving renaming keeps a path well formed.
pub proof fn lemma_renamed_wf(mapping: Seq<(BranchId, BranchId)>, path: Seq<Choice>)
    requires
        path::path_wf(path),
        keeps_choices(mapping, path),
    ensures
        path::path_wf(renamed_path(mapping, path)),
{
    let r = renamed_path(mapping, path);
    assert forall|i: int, j: int| 0 <= i < j < r.len() implies (#[trigger] r[i]).branch.lt((#[trigger] r[j]).branch) by {
        assert(renamed(mapping, path[i].branch).lt(renamed(mapping, path[j].branch)));
    }
    assert forall|i: int| 0 <= i < r.len() implies path::choice_wf(#[trigger] r[i]) by {
        assert(r[i] == Choice { branch: renamed(mapping, path[i].branch), allowed: path[i].allowed });
    }
}

pub(crate) proof fn lemma_prefix_wf(p: Seq<Choice>, n: int)
    requires
        path::path_wf(p),
        0 <= n <= p.len(),
    ensures
        path::path_wf(p.take(n)),
{
    let q = p.take(n);
    assert forall|i: int| 0 <= i < q.len() implies path::choice_wf(#[trigger] q[i]) by {
        assert(p[i] == q[i]);
    }
    assert forall|i: int, j: int| 0 <= i < j < q.len() implies (#[trigger] q[i]).branch.lt((#[trigger] q[j]).branch) by {
        assert(p[i].branch.lt(p[j].branch));
    }
}

pub(crate) proof fn lemma_contains_push<T>(s: Seq<T>, t: T, x: T)
    ensures
        s.push(t).contains(x) <==> s.contains(x) || t == x,
{
    let r = s.push(t);
    if s.contains(x) {
        let i = choose|i: int| 0 <= i < s.len() && s[i] == x;
        assert(r[i] == x);
    }
    if t == x {
        assert(r[s.len() as int] == x);
    }
    if r.contains(x) {
        let i = choose|i: int| 0 <= i < r.len() && r[i] == x;
        if i < s.len() {
            assert(s[i] == x);
        }
    }
}

} // verus!
