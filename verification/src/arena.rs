//! Path conditions that share their prefixes.
use vstd::prelude::*;
use crate::arms;
use crate::arms::{ArmSet, Run};
use crate::order::Ordered;
use crate::path;
use crate::path::{BranchConstraint, BranchId, Choice};

verus! {

/// One choice appended to a shorter path. The first node of an arena is the empty path.
pub struct PathNode {
    pub parent: usize,
    pub constraint: BranchConstraint,
    pub length: usize,
}

/// The paths built so far. Nodes are only ever added, so a condition keeps its meaning.
pub struct PathArena {
    pub nodes: Vec<PathNode>,
}

/// A Cartesian over-approximation of the branch choices that reach a program point.
///
/// Correlations between distinct branches are not retained; the arms left to one branch are.
#[derive(Clone, Copy, Debug, PartialEq, Eq, Hash, Structural)]
pub struct PathCondition {
    pub node: usize,
}

/// The choices from the root of the arena down to `node`.
pub open spec fn path_of(nodes: Seq<PathNode>, node: int) -> Seq<Choice>
    decreases node,
{
    if 0 < node < nodes.len() && nodes[node].parent < node {
        path_of(nodes, nodes[node].parent as int).push(nodes[node].constraint@)
    } else {
        Seq::empty()
    }
}

/// `ancestor` lies on the way from `node` to the root.
pub open spec fn on_chain(nodes: Seq<PathNode>, ancestor: int, node: int) -> bool
    decreases node,
{
    ancestor == node || (0 < node < nodes.len() && nodes[node].parent < node && on_chain(
        nodes,
        ancestor,
        nodes[node].parent as int,
    ))
}

pub open spec fn nodes_wf(nodes: Seq<PathNode>) -> bool {
    &&& nodes.len() > 0
    &&& nodes[0].length == 0
    &&& forall|i: int| 0 < i < nodes.len() ==> #[trigger] node_wf(nodes, i)
}

/// The node extends an earlier path by a later branch that keeps an arm.
pub open spec fn node_wf(nodes: Seq<PathNode>, i: int) -> bool {
    &&& nodes[i].parent < i
    &&& nodes[i].length == nodes[nodes[i].parent as int].length + 1
    &&& path::choice_wf(nodes[i].constraint@)
    &&& nodes[i].parent > 0 ==> nodes[nodes[i].parent as int].constraint.branch.lt(
        nodes[i].constraint.branch,
    )
}

/// `b` holds every node of `a` at the same place.
pub open spec fn grows(a: Seq<PathNode>, b: Seq<PathNode>) -> bool {
    a.len() <= b.len() && forall|i: int| 0 <= i < a.len() ==> #[trigger] a[i] == b[i]
}

/// Growing an arena changes no path that it already holds.
pub proof fn growth_keeps_paths(a: Seq<PathNode>, b: Seq<PathNode>, node: int)
    requires
        grows(a, b),
        0 <= node < a.len(),
    ensures
        path_of(b, node) == path_of(a, node),
    decreases node,
{
    if 0 < node && a[node].parent < node {
        growth_keeps_paths(a, b, a[node].parent as int);
    }
}

/// An arena that grows twice has grown.
pub proof fn growth_is_transitive(a: Seq<PathNode>, b: Seq<PathNode>, c: Seq<PathNode>)
    requires
        grows(a, b),
        grows(b, c),
    ensures
        grows(a, c),
{
    assert forall|i: int| 0 <= i < a.len() implies #[trigger] a[i] == c[i] by {
        assert(a[i] == b[i]);
    }
}

/// Every path of a well-formed arena is well formed and as long as its node says.
pub proof fn arena_paths_wf(nodes: Seq<PathNode>, node: int)
    requires
        nodes_wf(nodes),
        0 <= node < nodes.len(),
    ensures
        path::path_wf(path_of(nodes, node)),
        path_of(nodes, node).len() == nodes[node].length,
        node > 0 ==> path_of(nodes, node).len() > 0 && path_of(nodes, node).last()
            == nodes[node].constraint@,
    decreases node,
{
    if node > 0 {
        assert(node_wf(nodes, node));
        let parent = nodes[node].parent as int;
        arena_paths_wf(nodes, parent);
        let shorter = path_of(nodes, parent);
        let path = path_of(nodes, node);
        assert forall|i: int, j: int| 0 <= i < j < path.len() implies (#[trigger] path[i]).branch.lt(
            (#[trigger] path[j]).branch,
        ) by {
            if j == shorter.len() {
                if i < shorter.len() - 1 {
                    assert(shorter[i].branch.lt(shorter.last().branch));
                    BranchId::lt_transitive(
                        shorter[i].branch,
                        shorter.last().branch,
                        path[j].branch,
                    );
                }
            } else {
                assert(shorter[i].branch.lt(shorter[j].branch));
            }
        }
    }
}

/// The path of an ancestor is a prefix.
pub(crate) proof fn lemma_chain_prefix(nodes: Seq<PathNode>, ancestor: int, node: int)
    requires
        nodes_wf(nodes),
        0 <= ancestor < nodes.len(),
        0 <= node < nodes.len(),
        on_chain(nodes, ancestor, node),
    ensures
        path_of(nodes, ancestor).len() <= path_of(nodes, node).len(),
        path_of(nodes, ancestor) == path_of(nodes, node).take(path_of(nodes, ancestor).len() as int),
    decreases node,
{
    if ancestor == node {
        assert(path_of(nodes, ancestor) =~= path_of(nodes, node).take(
            path_of(nodes, ancestor).len() as int,
        ));
    } else {
        assert(node_wf(nodes, node));
        let parent = nodes[node].parent as int;
        lemma_chain_prefix(nodes, ancestor, parent);
        let n = path_of(nodes, ancestor).len() as int;
        assert(path_of(nodes, node).take(n) =~= path_of(nodes, parent).take(n));
    }
}

impl View for PathArena {
    type V = Seq<PathNode>;

    open spec fn view(&self) -> Seq<PathNode> {
        self.nodes@
    }
}

impl PathArena {
    pub open spec fn wf(self) -> bool {
        nodes_wf(self@)
    }

    /// `condition` belongs to this arena.
    pub open spec fn holds(self, condition: PathCondition) -> bool {
        condition.node < self@.len()
    }

    /// The choices of `condition`.
    pub open spec fn path(self, condition: PathCondition) -> Seq<Choice> {
        path_of(self@, condition.node as int)
    }

    /// An arena that holds only the empty path.
    pub fn new() -> (r: Self)
        ensures
            r.wf(),
            r@.len() == 1,
            r.path(PathCondition { node: 0 }) == Seq::<Choice>::empty(),
    {
        let mut nodes: Vec<PathNode> = Vec::new();
        let constraint = BranchConstraint {
            branch: BranchId::new(0, 0, 0),
            allowed: ArmSet::range(0, 0),
        };
        nodes.push(PathNode { parent: 0, constraint, length: 0 });
        PathArena { nodes }
    }

    /// How many paths the arena holds.
    pub fn len(&self) -> (r: usize)
        ensures
            r == self@.len(),
    {
        self.nodes.len()
    }
}


/// The place of `branch` in a list of constraints with ascending branches.
pub(crate) fn find_constraint(constraints: &Vec<BranchConstraint>, branch: BranchId) -> (r: Option<usize>)
    requires
        path::path_wf(path::choices(constraints@)),
    ensures
        r is Some <==> path::constrains(path::choices(constraints@), branch),
        r matches Some(i) ==> i < constraints.len() && constraints@[i as int].branch == branch,
{
    let ghost cs = path::choices(constraints@);
    let mut low: usize = 0;
    let mut high: usize = constraints.len();
    while low < high
        invariant
            low <= high <= constraints.len(),
            cs == path::choices(constraints@),
            path::path_wf(cs),
            forall|k: int| 0 <= k < low ==> (#[trigger] cs[k]).branch.lt(branch),
            forall|k: int| high <= k < cs.len() ==> branch.lt((#[trigger] cs[k]).branch),
        decreases high - low,
    {
        let middle: usize = low + (high - low) / 2;
        let found = constraints[middle].branch;
        assert(cs[middle as int].branch == found);
        if found.less(branch) {
            proof {
                assert forall|k: int| 0 <= k < middle + 1 implies (#[trigger] cs[k]).branch.lt(branch) by {
                    if k < middle {
                        BranchId::lt_transitive(cs[k].branch, found, branch);
                    }
                }
            }
            low = middle + 1;
        } else if branch.less(found) {
            proof {
                assert forall|k: int| middle <= k < cs.len() implies branch.lt((#[trigger] cs[k]).branch) by {
                    if k > middle {
                        BranchId::lt_transitive(branch, found, cs[k].branch);
                    }
                }
            }
            high = middle;
        } else {
            proof {
                BranchId::lt_total(found, branch);
            }
            return Some(middle);
        }
    }
    proof {
        assert forall|k: int| 0 <= k < cs.len() implies (#[trigger] cs[k]).branch != branch by {
            BranchId::lt_irreflexive(branch);
        }
    }
    None
}

impl PathArena {
    /// Adds one node. The new path is the old one with `constraint` behind it.
    pub(crate) fn append_constraint(
        &mut self,
        condition: PathCondition,
        constraint: BranchConstraint,
    ) -> (r: PathCondition)
        requires
            old(self).wf(),
            old(self).holds(condition),
            path::path_wf(old(self).path(condition).push(constraint@)),
        ensures
            final(self).wf(),
            grows(old(self)@, final(self)@),
            final(self)@.len() == old(self)@.len() + 1,
            r.node == old(self)@.len(),
            final(self).path(r) == old(self).path(condition).push(constraint@),
    {
        let ghost before = self@;
        let ghost added = constraint@;
        proof {
            arena_paths_wf(self@, condition.node as int);
            lemma_length_below(self@, condition.node as int);
            assert(old(self).path(condition).push(constraint@)[old(self).path(condition).len() as int] == constraint@);
            if condition.node > 0 {
                let path = self.path(condition);
                let longer = path.push(added);
                assert(longer[path.len() - 1].branch.lt(longer[path.len() as int].branch));
            }
        }
        let node = self.nodes.len();
        let length: usize = self.nodes[condition.node].length + 1;
        self.nodes.push(PathNode { parent: condition.node, constraint, length });
        proof {
            assert(grows(before, self@));
            growth_keeps_paths(before, self@, condition.node as int);
            assert forall|i: int| 0 < i < self@.len() implies #[trigger] node_wf(self@, i) by {
                if i < before.len() {
                    assert(node_wf(before, i));
                    assert(before[i] == self@[i]);
                    assert(before[before[i].parent as int] == self@[before[i].parent as int]);
                }
            }
        }
        PathCondition { node }
    }

    /// Builds the path with the given choices.
    pub fn from_constraints(&mut self, constraints: &Vec<BranchConstraint>) -> (r: PathCondition)
        requires
            old(self).wf(),
            path::path_wf(path::choices(constraints@)),
        ensures
            final(self).wf(),
            grows(old(self)@, final(self)@),
            final(self).holds(r),
            final(self).path(r) == path::choices(constraints@),
    {
        let ghost cs = path::choices(constraints@);
        let mut current = PathCondition { node: 0 };
        let mut i: usize = 0;
        assert(self.path(current) =~= cs.take(0));
        while i < constraints.len()
            invariant
                i <= constraints.len(),
                cs == path::choices(constraints@),
                path::path_wf(cs),
                self.wf(),
                grows(old(self)@, self@),
                self.holds(current),
                self.path(current) == cs.take(i as int),
            decreases constraints.len() - i,
        {
            let constraint = constraints[i].clone();
            proof {
                assert(cs[i as int] == constraint@);
                assert(cs.take(i as int).push(constraint@) =~= cs.take(i as int + 1));
            }
            let ghost mid = self@;
            current = self.append_constraint(current, constraint);
            proof {
                growth_is_transitive(old(self)@, mid, self@);
            }
            i = i + 1;
        }
        assert(cs.take(i as int) =~= cs);
        current
    }

    /// The choices of `condition` in order.
    pub fn constraints(&self, condition: PathCondition) -> (r: Vec<BranchConstraint>)
        requires
            self.wf(),
            self.holds(condition),
        ensures
            path::choices(r@) == self.path(condition),
    {
        let mut suffix: Vec<BranchConstraint> = Vec::new();
        let mut current: usize = condition.node;
        let ghost full = self.path(condition);
        assert(full =~= path_of(self@, current as int) + path::choices(suffix@.reverse()));
        while current > 0
            invariant
                self.wf(),
                current < self@.len(),
                full == path_of(self@, current as int) + path::choices(suffix@.reverse()),
            decreases current,
        {
            assert(node_wf(self@, current as int));
            let constraint = self.nodes[current].constraint.clone();
            let ghost before = suffix@;
            suffix.push(constraint);
            current = self.nodes[current].parent;
            proof {
                let rest = path::choices(suffix@.reverse());
                assert(suffix@.reverse() =~= seq![constraint] + before.reverse());
                assert(rest =~= seq![constraint@] + path::choices(before.reverse()));
                assert(full =~= path_of(self@, current as int) + rest);
            }
        }
        let mut r: Vec<BranchConstraint> = Vec::new();
        let mut left: usize = suffix.len();
        while left > 0
            invariant
                left <= suffix.len(),
                r.len() == suffix.len() - left,
                forall|k: int| 0 <= k < r.len() ==> (#[trigger] r@[k])@ == suffix@.reverse()[k]@,
            decreases left,
        {
            left = left - 1;
            r.push(suffix[left].clone());
        }
        assert(path_of(self@, 0) =~= Seq::<Choice>::empty());
        assert(path::choices(r@) =~= full);
        r
    }

    /// The arms that `condition` leaves to `branch`, where it says something about it.
    pub fn constraint_for(&self, condition: PathCondition, branch: BranchId) -> (r: Option<
        BranchConstraint,
    >)
        requires
            self.wf(),
            self.holds(condition),
        ensures
            r is Some <==> path::constrains(self.path(condition), branch),
            r matches Some(c) ==> self.path(condition).contains(c@) && c.branch == branch
                && c.allowed.wf(),
    {
        let mut current: usize = condition.node;
        let ghost full = self.path(condition);
        let ghost n = full.len() as int;
        proof {
            arena_paths_wf(self@, condition.node as int);
            assert(full.take(n) =~= full);
        }
        while current > 0
            invariant
                self.wf(),
                current < self@.len(),
                full == self.path(condition),
                path::path_wf(full),
                0 <= n <= full.len(),
                path_of(self@, current as int) == full.take(n),
                forall|k: int| n <= k < full.len() ==> branch.lt((#[trigger] full[k]).branch),
            decreases current,
        {
            assert(node_wf(self@, current as int));
            let constraint = &self.nodes[current].constraint;
            proof {
                arena_paths_wf(self@, current as int);
                assert(full.take(n).last() == constraint@);
                assert(full[n - 1] == constraint@);
            }
            if constraint.branch.less(branch) {
                proof {
                    assert forall|k: int| 0 <= k < full.len() implies (#[trigger] full[k]).branch != branch by {
                        BranchId::lt_irreflexive(branch);
                        if k < n - 1 {
                            BranchId::lt_transitive(
                                full[k].branch,
                                full[n - 1].branch,
                                branch,
                            );
                        }
                    }
                }
                return None;
            }
            if !branch.less(constraint.branch) {
                proof {
                    BranchId::lt_total(constraint.branch, branch);
                }
                return Some(constraint.clone());
            }
            current = self.nodes[current].parent;
            proof {
                assert(full.take(n).drop_last() =~= full.take(n - 1));
                n = n - 1;
            }
        }
        proof {
            assert(full.take(n).len() == 0);
            assert forall|k: int| 0 <= k < full.len() implies (#[trigger] full[k]).branch != branch by {
                BranchId::lt_irreflexive(branch);
            }
        }
        None
    }

    /// The only choice of `condition`, if it has exactly one.
    pub(crate) fn single_constraint(&self, condition: PathCondition) -> (r: Option<BranchConstraint>)
        requires
            self.wf(),
            self.holds(condition),
        ensures
            r is Some <==> self.path(condition).len() == 1,
            r matches Some(c) ==> self.path(condition) == seq![c@] && c.allowed.wf(),
    {
        proof {
            arena_paths_wf(self@, condition.node as int);
        }
        if condition.node > 0 && self.nodes[condition.node].length == 1 {
            assert(node_wf(self@, condition.node as int));
            let r = self.nodes[condition.node].constraint.clone();
            assert(self.path(condition) =~= seq![r@]);
            Some(r)
        } else {
            None
        }
    }

    /// `ancestor` lies on the chain of `descendant`, so its path is a prefix.
    pub fn ancestor_node(&self, ancestor: PathCondition, descendant: PathCondition) -> (r: bool)
        requires
            self.wf(),
            self.holds(ancestor),
            self.holds(descendant),
        ensures
            r == on_chain(self@, ancestor.node as int, descendant.node as int),
            r ==> self.path(ancestor) == self.path(descendant).take(
                self.path(ancestor).len() as int,
            ) && self.path(ancestor).len() <= self.path(descendant).len(),
    {
        let mut current: usize = descendant.node;
        while current > ancestor.node
            invariant
                self.wf(),
                current < self@.len(),
                on_chain(self@, ancestor.node as int, descendant.node as int) == on_chain(
                    self@,
                    ancestor.node as int,
                    current as int,
                ),
            decreases current,
        {
            assert(node_wf(self@, current as int));
            current = self.nodes[current].parent;
        }
        proof {
            if on_chain(self@, ancestor.node as int, current as int) {
                lemma_chain_below(self@, ancestor.node as int, current as int);
            }
            if current == ancestor.node {
                lemma_chain_prefix(self@, ancestor.node as int, descendant.node as int);
            }
        }
        current == ancestor.node
    }

    /// The condition holds on every path.
    pub fn is_unconditional(&self, condition: PathCondition) -> (r: bool)
        requires
            self.wf(),
            self.holds(condition),
        ensures
            r == (self.path(condition).len() == 0),
    {
        proof {
            arena_paths_wf(self@, condition.node as int);
        }
        self.nodes[condition.node].length == 0
    }
}

/// The list with `constraint` in the place of its branch, or without that branch.
fn replace_constraint(
    constraints: &Vec<BranchConstraint>,
    constraint: BranchConstraint,
    narrows: bool,
) -> (r: Vec<BranchConstraint>)
    requires
        path::path_wf(path::choices(constraints@)),
        narrows ==> path::choice_wf(constraint@),
    ensures
        path::path_wf(path::choices(r@)),
        forall|c: Choice| #[trigger]
            path::choices(r@).contains(c) <==> (c == constraint@ && narrows) || (c.branch
                != constraint.branch && path::choices(constraints@).contains(c)),
{
    let branch = constraint.branch;
    let ghost before = path::choices(constraints@);
    let ghost added = constraint@;
    let mut out: Vec<BranchConstraint> = Vec::new();
    let mut i: usize = 0;
    while i < constraints.len() && constraints[i].branch.less(branch)
        invariant
            i <= constraints.len(),
            path::choices(constraints@) == before,
            path::choices(out@) == before.take(i as int),
            forall|k: int| 0 <= k < i ==> (#[trigger] before[k]).branch.lt(branch),
        decreases constraints.len() - i,
    {
        assert(before[i as int] == constraints@[i as int]@);
        assert(before.take(i as int + 1) =~= before.take(i as int).push(before[i as int]));
        let ghost listed = out@;
        out.push(constraints[i].clone());
        assert(path::choices(out@) =~= path::choices(listed).push(before[i as int]));
        i = i + 1;
    }
    let ghost low = i as int;
    let ghost lower = before.take(low);
    if i < constraints.len() && !branch.less(constraints[i].branch) {
        proof {
            assert(before[i as int] == constraints@[i as int]@);
            BranchId::lt_total(before[i as int].branch, branch);
        }
        i = i + 1;
    }
    proof {
        BranchId::lt_irreflexive(branch);
        assert forall|k: int| i <= k < before.len() implies branch.lt((#[trigger] before[k]).branch) by {
            assert(before[low] == constraints@[low]@);
            if k > low {
                assert(before[low].branch.lt(before[k].branch));
                if branch.lt(before[low].branch) {
                    BranchId::lt_transitive(branch, before[low].branch, before[k].branch);
                }
            }
        }
    }
    let ghost middle = if narrows {
        seq![added]
    } else {
        Seq::<Choice>::empty()
    };
    if narrows {
        let ghost listed = out@;
        out.push(constraint);
        assert(path::choices(out@) =~= path::choices(listed).push(added));
    }
    let ghost high = i as int;
    assert(path::choices(out@) =~= lower + middle);
    assert(before.subrange(high, high) =~= Seq::<Choice>::empty());
    while i < constraints.len()
        invariant
            0 <= high <= i <= constraints.len(),
            path::choices(constraints@) == before,
            path::choices(out@) == lower + middle + before.subrange(high, i as int),
        decreases constraints.len() - i,
    {
        assert(before[i as int] == constraints@[i as int]@);
        assert(before.subrange(high, i as int + 1) =~= before.subrange(high, i as int).push(before[i as int]));
        let ghost listed = out@;
        out.push(constraints[i].clone());
        assert(path::choices(out@) =~= path::choices(listed).push(before[i as int]));
        i = i + 1;
    }
    proof {
        let after = path::choices(out@);
        let upper = before.subrange(high, before.len() as int);
        assert(after == lower + middle + upper);
        let n = low;
        let m = low + middle.len();
        assert forall|k: int| 0 <= k < after.len() implies #[trigger] after[k] == (if k < n {
            before[k]
        } else if k < m {
            added
        } else {
            before[k - m + high]
        }) by {}
        assert forall|k: int| 0 <= k < after.len() implies path::choice_wf(#[trigger] after[k]) by {}
        assert forall|k: int, j: int| 0 <= k < j < after.len() implies (#[trigger] after[k]).branch.lt(
            (#[trigger] after[j]).branch,
        ) by {
            if k < n && j >= m {
                assert(after[k].branch.lt(branch));
                assert(branch.lt(after[j].branch));
                BranchId::lt_transitive(after[k].branch, branch, after[j].branch);
            }
        }
        assert forall|c: Choice| #[trigger] after.contains(c) <==> (c.branch == branch
            && c.allowed == added.allowed && narrows) || (c.branch != branch && before.contains(c)) by {
            if after.contains(c) {
                let k = choose|k: int| 0 <= k < after.len() && after[k] == c;
                if k < n {
                    assert(before[k] == c);
                } else if k >= m {
                    assert(before[k - m + high] == c);
                }
            }
            if c.branch != branch && before.contains(c) {
                let k = choose|k: int| 0 <= k < before.len() && before[k] == c;
                if k < n {
                    assert(after[k] == c);
                } else {
                    assert(k >= high);
                    assert(after[k - high + m] == c);
                }
            }
            if narrows && c.branch == branch && c.allowed == added.allowed {
                assert(c == added);
                assert(after[n] == c);
            }
        }
    }
    out
}

impl PathArena {
    /// Leaves `branch` only the arms from `start` up to `end`, whatever was said of it before.
    /// Leaving it every arm says nothing of it.
    pub fn with_choice_range(
        &mut self,
        condition: PathCondition,
        branch: BranchId,
        start: usize,
        end: usize,
    ) -> (r: PathCondition)
        requires
            old(self).wf(),
            old(self).holds(condition),
            start < end <= branch.arms,
        ensures
            final(self).wf(),
            grows(old(self)@, final(self)@),
            final(self).holds(r),
            forall|c: Choice| #[trigger]
                final(self).path(r).contains(c) <==> (c.branch == branch && c.allowed == seq![
                    Run { start, end },
                ] && end - start < branch.arms) || (c.branch != branch && old(self).path(
                    condition,
                ).contains(c)),
            path::path_wf(final(self).path(r)),
    {
        let constraint = BranchConstraint { branch, allowed: ArmSet::range(start, end) };
        let ghost before = self.path(condition);
        let ghost added = constraint@;
        let narrows = start > 0 || end < branch.arms;
        proof {
            arena_paths_wf(self@, condition.node as int);
            assert(added.allowed =~= seq![Run { start, end }]);
            assert forall|x: int| #[trigger] arms::in_runs(added.allowed, x) <==> start <= x < end by {
                assert(constraint.allowed.has(x) <==> start <= x < end);
            }
            if narrows {
                assert(path::choice_wf(added)) by {
                    if start > 0 {
                        assert(!arms::in_runs(added.allowed, 0));
                    } else {
                        assert(!arms::in_runs(added.allowed, end as int));
                    }
                }
            }
        }
        let append = if condition.node == 0 {
            true
        } else {
            self.nodes[condition.node].constraint.branch.less(branch)
        };
        if append {
            proof {
                BranchId::lt_irreflexive(branch);
                assert forall|i: int| 0 <= i < before.len() implies (#[trigger] before[i]).branch.lt(branch) by {
                    if i < before.len() - 1 {
                        assert(before[i].branch.lt(before.last().branch));
                        BranchId::lt_transitive(before[i].branch, before.last().branch, branch);
                    }
                }
                assert forall|c: Choice| #[trigger] before.contains(c) implies c.branch != branch by {
                    let i = choose|i: int| 0 <= i < before.len() && before[i] == c;
                }
            }
            if !narrows {
                return condition;
            }
            proof {
                let longer = before.push(added);
                assert forall|i: int| 0 <= i < longer.len() implies path::choice_wf(#[trigger] longer[i]) by {
                    if i < before.len() {
                        assert(longer[i] == before[i]);
                    }
                }
                assert forall|c: Choice| #[trigger] longer.contains(c) <==> (c.branch == branch
                    && c.allowed == added.allowed) || (c.branch != branch && before.contains(c)) by {
                    if longer.contains(c) {
                        let i = choose|i: int| 0 <= i < longer.len() && longer[i] == c;
                        if i < before.len() {
                            assert(before[i] == c);
                        }
                    }
                    if before.contains(c) {
                        let i = choose|i: int| 0 <= i < before.len() && before[i] == c;
                        assert(longer[i] == c);
                    }
                    assert(longer[before.len() as int] == added);
                }
            }
            let r = self.append_constraint(condition, constraint);
            proof {
                arena_paths_wf(self@, r.node as int);
            }
            return r;
        }
        let constraints = self.constraints(condition);
        let out = replace_constraint(&constraints, constraint, narrows);
        self.from_constraints(&out)
    }

    /// Leaves `branch` only `arm`.
    pub fn with_choice(&mut self, condition: PathCondition, branch: BranchId, arm: usize) -> (r:
        PathCondition)
        requires
            old(self).wf(),
            old(self).holds(condition),
            arm < branch.arms,
        ensures
            final(self).wf(),
            grows(old(self)@, final(self)@),
            final(self).holds(r),
            forall|c: Choice| #[trigger]
                final(self).path(r).contains(c) <==> (c.branch == branch && c.allowed == seq![
                    Run { start: arm, end: (arm + 1) as usize },
                ] && branch.arms > 1) || (c.branch != branch && old(self).path(condition).contains(
                    c,
                )),
            path::path_wf(final(self).path(r)),
    {
        self.with_choice_range(condition, branch, arm, arm + 1)
    }

    /// The two conditions make the same choices.
    pub fn same(&self, a: PathCondition, b: PathCondition) -> (r: bool)
        requires
            self.wf(),
            self.holds(a),
            self.holds(b),
        ensures
            r <==> self.path(a) == self.path(b),
    {
        proof {
            arena_paths_wf(self@, a.node as int);
            arena_paths_wf(self@, b.node as int);
        }
        if a.node == b.node {
            return true;
        }
        if self.nodes[a.node].length != self.nodes[b.node].length {
            return false;
        }
        let mut left: usize = a.node;
        let mut right: usize = b.node;
        while left != right
            invariant
                self.wf(),
                left < self@.len(),
                right < self@.len(),
                self@[left as int].length == self@[right as int].length,
                self.path(a) == self.path(b) <==> path_of(self@, left as int) == path_of(
                    self@,
                    right as int,
                ),
            decreases left,
        {
            proof {
                arena_paths_wf(self@, left as int);
                arena_paths_wf(self@, right as int);
                if left > 0 {
                    assert(node_wf(self@, left as int));
                }
                if right > 0 {
                    assert(node_wf(self@, right as int));
                }
                lemma_zero_length(self@, left as int);
                lemma_zero_length(self@, right as int);
            }
            let x = &self.nodes[left].constraint;
            let y = &self.nodes[right].constraint;
            let ghost pl = path_of(self@, left as int);
            let ghost pr = path_of(self@, right as int);
            if x.branch != y.branch || !x.allowed.same(&y.allowed) {
                assert(pl.last() != pr.last());
                return false;
            }
            left = self.nodes[left].parent;
            right = self.nodes[right].parent;
            proof {
                assert(pl.drop_last() =~= path_of(self@, left as int));
                assert(pr.drop_last() =~= path_of(self@, right as int));
                if pl.drop_last() == pr.drop_last() {
                    assert(pl =~= pl.drop_last().push(pl.last()));
                    assert(pr =~= pr.drop_last().push(pr.last()));
                }
            }
        }
        true
    }
}

/// Only the root has the empty path.
pub(crate) proof fn lemma_zero_length(nodes: Seq<PathNode>, node: int)
    requires
        nodes_wf(nodes),
        0 <= node < nodes.len(),
    ensures
        nodes[node].length == 0 <==> node == 0,
{
    if node > 0 {
        assert(node_wf(nodes, node));
    }
}

/// A path is shorter than its node's place.
pub(crate) proof fn lemma_length_below(nodes: Seq<PathNode>, node: int)
    requires
        nodes_wf(nodes),
        0 <= node < nodes.len(),
    ensures
        nodes[node].length <= node,
    decreases node,
{
    if node > 0 {
        assert(node_wf(nodes, node));
        lemma_length_below(nodes, nodes[node].parent as int);
    }
}

/// Nothing on a chain lies above the node that it starts from.
pub(crate) proof fn lemma_chain_below(nodes: Seq<PathNode>, ancestor: int, node: int)
    requires
        nodes_wf(nodes),
        0 <= node < nodes.len(),
        on_chain(nodes, ancestor, node),
    ensures
        ancestor <= node,
    decreases node,
{
    if ancestor != node {
        assert(node_wf(nodes, node));
        lemma_chain_below(nodes, ancestor, nodes[node].parent as int);
    }
}

} // verus!
