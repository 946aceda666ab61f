//! Conjunction, disjunction and comparison of path conditions.
use vstd::prelude::*;
use crate::arena;
use crate::arena::{PathArena, PathCondition};
use crate::arms;
use crate::order::Ordered;
use crate::path;
use crate::path::{BranchConstraint, BranchId, Choice};

verus! {

/// The arms that a well-formed list leaves to the branch of its entry `i`.
proof fn lemma_entry(cs: Seq<BranchConstraint>, i: int)
    requires
        path::path_wf(path::choices(cs)),
        0 <= i < cs.len(),
    ensures
        path::constrains(path::choices(cs), cs[i].branch),
        forall|x: int| #[trigger]
            path::allows(path::choices(cs), cs[i].branch, x) <==> cs[i].allowed.has(x),
{
    path::lemma_at(path::choices(cs), i);
    assert(path::choices(cs)[i] == cs[i]@);
}

/// Extending a prefix by its next entry.
proof fn lemma_take_next(p: Seq<Choice>, i: int)
    requires
        0 <= i < p.len(),
    ensures
        p.take(i + 1) == p.take(i).push(p[i]),
{
    assert(p.take(i + 1) =~= p.take(i).push(p[i]));
}

pub(crate) proof fn lemma_wf_push(p: Seq<Choice>, c: Choice)
    requires
        path::path_wf(p),
        p.len() > 0 ==> p.last().branch.lt(c.branch),
        path::choice_wf(c),
    ensures
        path::path_wf(p.push(c)),
{
    let q = p.push(c);
    assert forall|i: int| 0 <= i < q.len() implies path::choice_wf(#[trigger] q[i]) by {
        if i < p.len() {
            assert(q[i] == p[i]);
        }
    }
    assert forall|i: int, j: int| 0 <= i < j < q.len() implies (#[trigger] q[i]).branch.lt((#[trigger] q[j]).branch) by {
        if j == p.len() && i < p.len() - 1 {
            BranchId::lt_transitive(p[i].branch, p.last().branch, c.branch);
        }
    }
}

/// What has been merged from the first `i` entries of `a` and the first `j` of `b`.
spec fn merged_upto(a: Seq<Choice>, i: int, b: Seq<Choice>, j: int, out: Seq<Choice>) -> bool {
    path::is_conjunction(a.take(i), b.take(j), out)
}

/// Every merged branch comes before the entries that are still to come.
spec fn merged_below(out: Seq<Choice>, rest: Seq<Choice>, from: int) -> bool {
    forall|k: int, m: int|
        0 <= k < out.len() && from <= m < rest.len() ==> (#[trigger] out[k]).branch.lt(
            (#[trigger] rest[m]).branch,
        )
}

proof fn lemma_below_push(out: Seq<Choice>, c: Choice, rest: Seq<Choice>, from: int)
    requires
        path::path_wf(rest),
        0 <= from <= rest.len(),
        merged_below(out, rest, from),
        from < rest.len() ==> c.branch.lt(rest[from].branch),
    ensures
        merged_below(out.push(c), rest, from),
{
    let next = out.push(c);
    assert forall|k: int, m: int| 0 <= k < next.len() && from <= m < rest.len() implies (#[trigger] next[k]).branch.lt(
        (#[trigger] rest[m]).branch,
    ) by {
        if k < out.len() {
            assert(out[k] == next[k]);
        } else if m > from {
            BranchId::lt_transitive(c.branch, rest[from].branch, rest[m].branch);
        }
    }
}

/// The shared prefix of a merge does not speak of a branch that is still to come.
proof fn lemma_fresh(a: Seq<Choice>, i: int, b: Seq<Choice>, j: int, out: Seq<Choice>, branch: BranchId)
    requires
        path::path_wf(out),
        merged_upto(a, i, b, j, out),
        forall|k: int| 0 <= k < out.len() ==> (#[trigger] out[k]).branch.lt(branch),
    ensures
        !path::constrains(a.take(i), branch),
        !path::constrains(b.take(j), branch),
        !path::constrains(out, branch),
{
    assert forall|k: int| 0 <= k < out.len() implies (#[trigger] out[k]).branch != branch by {
        BranchId::lt_irreflexive(branch);
    }
    assert(!path::constrains(out, branch));
    assert(path::constrains(out, branch) <==> path::constrains(a.take(i), branch) || path::constrains(b.take(j), branch));
}

/// Merges two lists of choices branch by branch.
fn merge_constraints(left: &Vec<BranchConstraint>, right: &Vec<BranchConstraint>) -> (r: Option<
    Vec<BranchConstraint>,
>)
    requires
        path::path_wf(path::choices(left@)),
        path::path_wf(path::choices(right@)),
    ensures
        r is None <==> path::conflict(path::choices(left@), path::choices(right@)),
        r matches Some(out) ==> path::path_wf(path::choices(out@)) && path::is_conjunction(
            path::choices(left@),
            path::choices(right@),
            path::choices(out@),
        ),
{
    let ghost a = path::choices(left@);
    let ghost b = path::choices(right@);
    let mut out: Vec<BranchConstraint> = Vec::new();
    let mut i: usize = 0;
    let mut j: usize = 0;
    proof {
        assert(path::choices(out@) =~= Seq::<Choice>::empty());
        assert(a.take(0) =~= Seq::<Choice>::empty());
        assert(b.take(0) =~= Seq::<Choice>::empty());
    }
    while i < left.len() || j < right.len()
        invariant
            i <= left.len(),
            j <= right.len(),
            a == path::choices(left@),
            b == path::choices(right@),
            path::path_wf(a),
            path::path_wf(b),
            path::path_wf(path::choices(out@)),
            merged_upto(a, i as int, b, j as int, path::choices(out@)),
            merged_below(path::choices(out@), a, i as int),
            merged_below(path::choices(out@), b, j as int),
        decreases left.len() - i + right.len() - j,
    {
        let ghost before = path::choices(out@);
        let take_left = if i < left.len() {
            if j < right.len() {
                !right[j].branch.less(left[i].branch)
            } else {
                true
            }
        } else {
            false
        };
        let take_right = if j < right.len() {
            if i < left.len() {
                !left[i].branch.less(right[j].branch)
            } else {
                true
            }
        } else {
            false
        };
        proof {
            if i < left.len() {
                assert(a[i as int] == left@[i as int]@);
                lemma_take_next(a, i as int);
                path::lemma_push(a.take(i as int), a[i as int]);
            }
            if j < right.len() {
                assert(b[j as int] == right@[j as int]@);
                lemma_take_next(b, j as int);
                path::lemma_push(b.take(j as int), b[j as int]);
            }
            if i < left.len() && j < right.len() {
                BranchId::lt_total(a[i as int].branch, b[j as int].branch);
                BranchId::lt_irreflexive(a[i as int].branch);
                if a[i as int].branch.lt(b[j as int].branch) && b[j as int].branch.lt(
                    a[i as int].branch,
                ) {
                    BranchId::lt_transitive(
                        a[i as int].branch,
                        b[j as int].branch,
                        a[i as int].branch,
                    );
                }
            }
        }
        let next = if take_left && take_right {
            let allowed = left[i].allowed.intersection(&right[j].allowed);
            if allowed.is_empty() {
                proof {
                    let branch = left@[i as int].branch;
                    lemma_entry(left@, i as int);
                    lemma_entry(right@, j as int);
                    assert(path::conflict_at(a, b, branch)) by {
                        assert forall|x: int| !(#[trigger] path::allows(a, branch, x) && path::allows(b, branch, x)) by {
                            assert(!allowed.has(x));
                        }
                    }
                }
                return None;
            }
            proof {
                assert forall|x: int| #[trigger] arms::in_runs(allowed@, x) <==> arms::in_runs(
                    a[i as int].allowed,
                    x,
                ) && arms::in_runs(b[j as int].allowed, x) by {
                    assert(allowed.has(x) <==> left@[i as int].allowed.has(x)
                        && right@[j as int].allowed.has(x));
                }
            }
            BranchConstraint { branch: left[i].branch, allowed }
        } else if take_left {
            left[i].clone()
        } else {
            right[j].clone()
        };
        let ghost added = next@;
        out.push(next);
        proof {
            let after = path::choices(out@);
            assert(after =~= before.push(added));
            if take_left {
                assert(path::choice_wf(a[i as int]));
            }
            if take_right {
                assert(path::choice_wf(b[j as int]));
            }
            if take_left && take_right {
                let x = choose|x: int| 0 <= x < added.branch.arms && !#[trigger] arms::in_runs(a[i as int].allowed, x);
                assert(!arms::in_runs(added.allowed, x));
            }
            assert(path::choice_wf(added));
            lemma_fresh_at(before, a, i as int, b, j as int, take_left, added.branch);
            lemma_fresh(a, i as int, b, j as int, before, added.branch);
            lemma_wf_push(before, added);
            path::lemma_push(before, added);
            let i2 = i as int + (if take_left {
                1int
            } else {
                0int
            });
            let j2 = j as int + (if take_right {
                1int
            } else {
                0int
            });
            lemma_merge_step(a, i as int, i2, b, j as int, j2, before, added);
            assert(merged_below(before, a, i2));
            assert(merged_below(before, b, j2));
            if i2 < a.len() {
                if take_left {
                    assert(a[i as int].branch.lt(a[i2].branch));
                }
            }
            if j2 < b.len() {
                if take_right {
                    assert(b[j as int].branch.lt(b[j2].branch));
                }
            }
            lemma_below_push(before, added, a, i2);
            lemma_below_push(before, added, b, j2);
        }
        if take_left {
            i = i + 1;
        }
        if take_right {
            j = j + 1;
        }
    }
    proof {
        assert(a.take(i as int) =~= a);
        assert(b.take(j as int) =~= b);
        let r = path::choices(out@);
        assert forall|branch: BranchId| !(#[trigger] path::conflict_at(a, b, branch)) by {
            if path::constrains(r, branch) {
                path::lemma_constrained(r, branch);
                let x = choose|x: int| path::allows(r, branch, x);
                assert(path::allows(a, branch, x) && path::allows(b, branch, x));
            } else {
                path::lemma_unconstrained(r, branch);
                assert(path::allows(r, branch, 0));
            }
        }
    }
    Some(out)
}

/// The next branch of a merge lies beyond everything merged.
proof fn lemma_fresh_at(out: Seq<Choice>, a: Seq<Choice>, i: int, b: Seq<Choice>, j: int, from_a: bool, branch: BranchId)
    requires
        merged_below(out, a, i),
        merged_below(out, b, j),
        0 <= i <= a.len(),
        0 <= j <= b.len(),
        from_a ==> i < a.len() && branch == a[i].branch,
        !from_a ==> j < b.len() && branch == b[j].branch,
    ensures
        forall|k: int| 0 <= k < out.len() ==> (#[trigger] out[k]).branch.lt(branch),
{
}

/// Pushing the next branch keeps the conjunction of what was consumed.
proof fn lemma_merge_step(
    a: Seq<Choice>,
    i: int,
    i2: int,
    b: Seq<Choice>,
    j: int,
    j2: int,
    out: Seq<Choice>,
    c: Choice,
)
    requires
        0 <= i <= i2 <= a.len(),
        0 <= j <= j2 <= b.len(),
        i2 <= i + 1,
        j2 <= j + 1,
        i2 > i || j2 > j,
        merged_upto(a, i, b, j, out),
        !path::constrains(a.take(i), c.branch),
        !path::constrains(b.take(j), c.branch),
        i2 > i ==> a[i].branch == c.branch,
        j2 > j ==> b[j].branch == c.branch,
        forall|x: int| #[trigger]
            arms::in_runs(c.allowed, x) <==> (i2 > i ==> arms::in_runs(a[i].allowed, x)) && (j2 > j
                ==> arms::in_runs(b[j].allowed, x)),
    ensures
        merged_upto(a, i2, b, j2, out.push(c)),
{
    if i2 > i {
        lemma_take_next(a, i);
        path::lemma_push(a.take(i), a[i]);
    }
    if j2 > j {
        lemma_take_next(b, j);
        path::lemma_push(b.take(j), b[j]);
    }
    path::lemma_push(out, c);
    let r = out.push(c);
    assert forall|branch: BranchId| #[trigger] path::constrains(r, branch) <==> path::constrains(
        a.take(i2),
        branch,
    ) || path::constrains(b.take(j2), branch) by {
        assert(path::constrains(out, branch) <==> path::constrains(a.take(i), branch)
            || path::constrains(b.take(j), branch));
    }
    assert forall|branch: BranchId, x: int| #[trigger] path::allows(r, branch, x) <==> path::allows(
        a.take(i2),
        branch,
        x,
    ) && path::allows(b.take(j2), branch, x) by {
        assert(path::allows(out, branch, x) <==> path::allows(a.take(i), branch, x) && path::allows(
            b.take(j),
            branch,
            x,
        ));
        path::lemma_unconstrained(a.take(i), c.branch);
        path::lemma_unconstrained(b.take(j), c.branch);
        assert(arms::in_runs(c.allowed, x) <==> (i2 > i ==> arms::in_runs(a[i].allowed, x)) && (j2
            > j ==> arms::in_runs(b[j].allowed, x)));
    }
}

/// A prefix of a path says nothing more than the path.
proof fn lemma_prefix(p: Seq<Choice>, n: int)
    requires
        path::path_wf(p),
        0 <= n <= p.len(),
    ensures
        forall|branch: BranchId| #[trigger] path::constrains(p.take(n), branch) ==> path::constrains(p, branch),
        forall|branch: BranchId, x: int| #[trigger] path::allows(p, branch, x) ==> path::allows(p.take(n), branch, x),
        path::path_wf(p.take(n)),
{
    let q = p.take(n);
    assert forall|branch: BranchId| #[trigger] path::constrains(q, branch) implies path::constrains(p, branch) by {
        let i = choose|i: int| 0 <= i < q.len() && (#[trigger] q[i]).branch == branch;
        assert(p[i].branch == branch);
    }
    assert forall|branch: BranchId, x: int| #[trigger] path::allows(p, branch, x) implies path::allows(q, branch, x) by {
        assert forall|i: int| 0 <= i < q.len() && (#[trigger] q[i]).branch == branch implies arms::in_runs(q[i].allowed, x) by {
            assert(p[i].branch == branch);
        }
    }
    assert forall|i: int| 0 <= i < q.len() implies path::choice_wf(#[trigger] q[i]) by {
        assert(p[i] == q[i]);
    }
    assert forall|i: int, j: int| 0 <= i < j < q.len() implies (#[trigger] q[i]).branch.lt((#[trigger] q[j]).branch) by {
        assert(p[i].branch.lt(p[j].branch));
    }
}

/// A well-formed path leaves every branch an arm.
proof fn lemma_some_arm(p: Seq<Choice>, branch: BranchId)
    requires
        path::path_wf(p),
    ensures
        exists|x: int| #[trigger] path::allows(p, branch, x),
{
    if path::constrains(p, branch) {
        path::lemma_constrained(p, branch);
    } else {
        path::lemma_unconstrained(p, branch);
        assert(path::allows(p, branch, 0));
    }
}

/// Where one path covers another and constrains no further branch, it allows whatever the other
/// does.
proof fn lemma_allows_more(a: Seq<Choice>, b: Seq<Choice>)
    requires
        path::path_wf(b),
        path::path_covers(a, b),
        forall|branch: BranchId| #[trigger] path::constrains(a, branch) ==> path::constrains(b, branch),
    ensures
        forall|branch: BranchId, x: int| #[trigger] path::allows(b, branch, x) ==> path::allows(a, branch, x),
{
    assert forall|branch: BranchId, x: int| #[trigger] path::allows(b, branch, x) implies path::allows(a, branch, x) by {
        if path::constrains(a, branch) {
            path::lemma_constrained(b, branch);
        } else {
            path::lemma_unconstrained(a, branch);
        }
    }
}

/// Where one path covers another and constrains no further branch, their conjunction is the latter.
proof fn lemma_covered(a: Seq<Choice>, b: Seq<Choice>)
    requires
        path::path_wf(b),
        path::path_covers(a, b),
        forall|branch: BranchId| #[trigger] path::constrains(a, branch) ==> path::constrains(b, branch),
    ensures
        path::is_conjunction(a, b, b),
        path::is_conjunction(b, a, b),
        !path::conflict(a, b),
        !path::conflict(b, a),
{
    lemma_allows_more(a, b);
    assert forall|branch: BranchId| !(#[trigger] path::conflict_at(a, b, branch)) by {
        lemma_some_arm(b, branch);
        let x = choose|x: int| path::allows(b, branch, x);
        assert(path::allows(a, branch, x));
    }
    assert forall|branch: BranchId| !(#[trigger] path::conflict_at(b, a, branch)) by {
        lemma_some_arm(b, branch);
        let x = choose|x: int| path::allows(b, branch, x);
        assert(path::allows(a, branch, x));
    }
}

impl PathArena {
    /// Both conditions at once, unless they exclude each other.
    pub fn conjoin_if_compatible(&mut self, a: PathCondition, b: PathCondition) -> (r: Option<
        PathCondition,
    >)
        requires
            old(self).wf(),
            old(self).holds(a),
            old(self).holds(b),
        ensures
            final(self).wf(),
            arena::grows(old(self)@, final(self)@),
            r is None <==> path::conflict(old(self).path(a), old(self).path(b)),
            r matches Some(c) ==> final(self).holds(c) && path::path_wf(final(self).path(c))
                && path::is_conjunction(
                old(self).path(a),
                old(self).path(b),
                final(self).path(c),
            ),
    {
        let ghost pa = self.path(a);
        let ghost pb = self.path(b);
        proof {
            arena::arena_paths_wf(self@, a.node as int);
            arena::arena_paths_wf(self@, b.node as int);
        }
        if self.is_unconditional(a) || self.ancestor_node(a, b) {
            proof {
                lemma_prefix(pb, pa.len() as int);
                assert(pa =~= pb.take(pa.len() as int));
                lemma_covered(pa, pb);
            }
            return Some(b);
        }
        if self.is_unconditional(b) || self.ancestor_node(b, a) {
            proof {
                lemma_prefix(pa, pb.len() as int);
                assert(pb =~= pa.take(pb.len() as int));
                lemma_covered(pb, pa);
            }
            return Some(a);
        }
        match self.absorbed_by(a, b) {
            Some(true) => {
                return Some(b);
            },
            Some(false) => {
                return None;
            },
            None => {},
        }
        match self.absorbed_by(b, a) {
            Some(true) => {
                return Some(a);
            },
            Some(false) => {
                proof {
                    let branch = choose|branch: BranchId| path::conflict_at(pb, pa, branch);
                    assert(path::conflict_at(pa, pb, branch));
                }
                return None;
            },
            None => {},
        }
        let left = self.constraints(a);
        let right = self.constraints(b);
        match merge_constraints(&left, &right) {
            None => None,
            Some(out) => {
                let r = self.from_constraints(&out);
                Some(r)
            },
        }
    }

    /// Decides a conjunction with a single choice `a` where `b` already speaks of that branch:
    /// `Some(true)` if it adds nothing to `b`, `Some(false)` if it excludes `b`; `None` if it narrows `b`,
    /// or if it is no such choice.
    fn absorbed_by(&self, a: PathCondition, b: PathCondition) -> (r: Option<bool>)
        requires
            self.wf(),
            self.holds(a),
            self.holds(b),
        ensures
            r matches Some(true) ==> path::is_conjunction(self.path(a), self.path(b), self.path(b))
                && path::is_conjunction(self.path(b), self.path(a), self.path(b))
                && !path::conflict(self.path(a), self.path(b))
                && !path::conflict(self.path(b), self.path(a)),
            r matches Some(false) ==> path::conflict(self.path(a), self.path(b)),
            r is Some <==> self.path(a).len() == 1 && path::constrains(self.path(b), self.path(a)[0].branch) && (path::conflict(
                self.path(a),
                self.path(b),
            ) || path::path_covers(self.path(a), self.path(b))),
    {
        let ghost pa = self.path(a);
        let ghost pb = self.path(b);
        proof {
            arena::arena_paths_wf(self@, a.node as int);
            arena::arena_paths_wf(self@, b.node as int);
        }
        match self.single_constraint(a) {
            None => None,
            Some(constraint) => match self.constraint_for(b, constraint.branch) {
                None => None,
                Some(existing) => {
                    let allowed = existing.allowed.intersection(&constraint.allowed);
                    proof {
                        let k = choose|k: int| 0 <= k < pb.len() && pb[k] == existing@;
                        path::lemma_at(pb, k);
                        path::lemma_at(pa, 0);
                    }
                    if allowed.is_empty() {
                        proof {
                            assert(path::conflict_at(pa, pb, constraint.branch)) by {
                                assert forall|x: int| !(#[trigger] path::allows(pa, constraint.branch, x) && path::allows(pb, constraint.branch, x)) by {
                                    assert(!allowed.has(x));
                                }
                            }
                        }
                        return Some(false);
                    }
                    if existing.allowed.is_subset_of(&constraint.allowed) {
                        proof {
                            assert forall|branch: BranchId| #[trigger] path::constrains(pa, branch) implies path::constrains(pb, branch) by {}
                            assert forall|branch: BranchId, x: int| #[trigger] path::allows(pb, branch, x) implies path::allows(pa, branch, x) by {
                                if branch == constraint.branch {
                                    assert(existing.allowed.has(x));
                                    assert(constraint.allowed.has(x));
                                } else {
                                    assert(!path::constrains(pa, branch));
                                    path::lemma_unconstrained(pa, branch);
                                }
                            }
                            lemma_covered(pa, pb);
                        }
                        return Some(true);
                    }
                    proof {
                        let branch = constraint.branch;
                        assert forall|other: BranchId| !(#[trigger] path::conflict_at(pa, pb, other)) by {
                            if other == branch {
                                let x = choose|x: int| allowed.has(x);
                                assert(existing.allowed.has(x) && constraint.allowed.has(x));
                                assert(path::allows(pa, branch, x) && path::allows(pb, branch, x));
                            } else {
                                path::lemma_unconstrained(pa, other);
                                lemma_some_arm(pb, other);
                                let x = choose|x: int| #[trigger] path::allows(pb, other, x);
                                assert(path::allows(pa, other, x));
                            }
                        }
                        let x = choose|x: int| existing.allowed.has(x) && !constraint.allowed.has(x);
                        let k = choose|k: int| 0 <= k < pb.len() && pb[k] == existing@;
                        assert(path::choice_wf(pb[k]));
                        assert(path::allows(pb, branch, x));
                        assert(!path::allows(pa, branch, x));
                        assert(0 <= x < branch.arms);
                    }
                    None
                },
            },
        }
    }

    /// Every choice left open by `b` is left open by `a`.
    pub fn covers(&self, a: PathCondition, b: PathCondition) -> (r: bool)
        requires
            self.wf(),
            self.holds(a),
            self.holds(b),
        ensures
            r <==> path::path_covers(self.path(a), self.path(b)),
    {
        let ghost pa = self.path(a);
        let ghost pb = self.path(b);
        proof {
            arena::arena_paths_wf(self@, a.node as int);
            arena::arena_paths_wf(self@, b.node as int);
        }
        if self.is_unconditional(a) || self.ancestor_node(a, b) {
            proof {
                lemma_prefix(pb, pa.len() as int);
                assert(pa =~= pb.take(pa.len() as int));
            }
            return true;
        }
        let mine = self.constraints(a);
        let other = self.constraints(b);
        let mut i: usize = 0;
        while i < mine.len()
            invariant
                i <= mine.len(),
                pa == self.path(a),
                pb == self.path(b),
                pa == path::choices(mine@),
                pb == path::choices(other@),
                path::path_wf(pa),
                path::path_wf(pb),
                forall|k: int, x: int|
                    0 <= k < i && #[trigger] path::allows(pb, pa[k].branch, x) ==> arms::in_runs(
                        (#[trigger] pa[k]).allowed,
                        x,
                    ),
            decreases mine.len() - i,
        {
            let branch = mine[i].branch;
            proof {
                lemma_entry(mine@, i as int);
                assert(pa[i as int] == mine@[i as int]@);
            }
            match arena::find_constraint(&other, branch) {
                None => {
                    proof {
                        path::lemma_unconstrained(pb, branch);
                        path::lemma_constrained(pa, branch);
                        let x = choose|x: int| 0 <= x < branch.arms && !#[trigger] path::allows(pa, branch, x);
                        assert(path::allows(pb, branch, x));
                    }
                    return false;
                },
                Some(index) => {
                    proof {
                        lemma_entry(other@, index as int);
                        assert(pb[index as int] == other@[index as int]@);
                    }
                    if !other[index].allowed.is_subset_of(&mine[i].allowed) {
                        proof {
                            let x = choose|x: int| other@[index as int].allowed.has(x) && !mine@[i as int].allowed.has(x);
                            assert(path::choice_wf(pb[index as int]));
                            assert(arms::in_runs(pb[index as int].allowed, x));
                            assert(path::allows(pb, branch, x));
                            assert(!path::allows(pa, branch, x));
                        }
                        return false;
                    }
                    proof {
                        assert forall|x: int| path::allows(pb, branch, x) implies arms::in_runs(pa[i as int].allowed, x) by {
                            assert(other@[index as int].allowed.has(x));
                            assert(mine@[i as int].allowed.has(x));
                        }
                    }
                },
            }
            i = i + 1;
        }
        true
    }
}

/// The first `i` entries of `a`, joined with `b`.
spec fn joined_upto(a: Seq<Choice>, i: int, b: Seq<Choice>, out: Seq<Choice>) -> bool {
    &&& forall|branch: BranchId| #[trigger]
        path::constrains(out, branch) <==> path::constrains(a.take(i), branch) && path::constrains(
            b,
            branch,
        ) && !path::jointly_all(a, b, branch)
    &&& forall|branch: BranchId, x: int|
        path::constrains(out, branch) ==> (#[trigger] path::allows(out, branch, x) <==> path::allows(
            a,
            branch,
            x,
        ) || path::allows(b, branch, x))
}

/// A completed join is the disjunction.
proof fn lemma_joined(a: Seq<Choice>, b: Seq<Choice>, out: Seq<Choice>)
    requires
        joined_upto(a, a.len() as int, b, out),
    ensures
        path::is_disjunction(a, b, out),
{
    assert(a.take(a.len() as int) =~= a);
    assert forall|branch: BranchId, arm: int| 0 <= arm < branch.arms implies (#[trigger] path::allows(out, branch, arm) <==> path::allows(a, branch, arm) || path::allows(b, branch, arm)) by {
        assert(path::constrains(out, branch) <==> path::constrains(a, branch) && path::constrains(b, branch) && !path::jointly_all(a, b, branch));
        if !path::constrains(out, branch) {
            path::lemma_unconstrained(out, branch);
            if !path::constrains(a, branch) {
                path::lemma_unconstrained(a, branch);
            } else if !path::constrains(b, branch) {
                path::lemma_unconstrained(b, branch);
            } else {
                assert(path::allows(a, branch, arm) || path::allows(b, branch, arm));
            }
        }
    }
}

/// A path joined with one that it covers is itself.
proof fn lemma_join_covering(a: Seq<Choice>, b: Seq<Choice>)
    requires
        path::path_wf(a),
        path::path_wf(b),
        path::path_covers(a, b),
        forall|branch: BranchId| #[trigger] path::constrains(a, branch) ==> path::constrains(b, branch),
    ensures
        path::is_disjunction(a, b, a),
        path::is_disjunction(b, a, a),
{
    lemma_allows_more(a, b);
    assert forall|branch: BranchId| #[trigger] path::constrains(a, branch) implies !path::jointly_all(a, b, branch) && !path::jointly_all(b, a, branch) by {
        path::lemma_constrained(a, branch);
        let x = choose|x: int| 0 <= x < branch.arms && !#[trigger] path::allows(a, branch, x);
        assert(!path::allows(b, branch, x));
    }
}

/// Joins two lists of choices branch by branch.
fn join_constraints(left: &Vec<BranchConstraint>, right: &Vec<BranchConstraint>) -> (r: Vec<
    BranchConstraint,
>)
    requires
        path::path_wf(path::choices(left@)),
        path::path_wf(path::choices(right@)),
    ensures
        path::path_wf(path::choices(r@)),
        path::is_disjunction(
            path::choices(left@),
            path::choices(right@),
            path::choices(r@),
        ),
{
    let ghost a = path::choices(left@);
    let ghost b = path::choices(right@);
    let mut out: Vec<BranchConstraint> = Vec::new();
    let mut i: usize = 0;
    proof {
        assert(path::choices(out@) =~= Seq::<Choice>::empty());
        assert(a.take(0) =~= Seq::<Choice>::empty());
    }
    while i < left.len()
        invariant
            i <= left.len(),
            a == path::choices(left@),
            b == path::choices(right@),
            path::path_wf(a),
            path::path_wf(b),
            path::path_wf(path::choices(out@)),
            joined_upto(a, i as int, b, path::choices(out@)),
            merged_below(path::choices(out@), a, i as int),
        decreases left.len() - i,
    {
        let branch = left[i].branch;
        let ghost before = path::choices(out@);
        proof {
            assert(a[i as int] == left@[i as int]@);
            lemma_take_next(a, i as int);
            path::lemma_push(a.take(i as int), a[i as int]);
            lemma_entry(left@, i as int);
        }
        let found = arena::find_constraint(right, branch);
        let mut pushed = false;
        if let Some(index) = found {
            proof {
                lemma_entry(right@, index as int);
                assert(b[index as int] == right@[index as int]@);
            }
            let allowed = left[i].allowed.union(&right[index].allowed);
            proof {
                assert forall|x: int| #[trigger] arms::in_runs(allowed@, x) <==> path::allows(a, branch, x) || path::allows(b, branch, x) by {
                    assert(allowed.has(x) <==> left@[i as int].allowed.has(x) || right@[index as int].allowed.has(x));
                }
                assert(left@[i as int].allowed.has(left@[i as int].allowed@[0].start as int));
                assert(allowed.has(left@[i as int].allowed@[0].start as int));
                assert(allowed@.len() > 0);
            }
            if !allowed.is_all(branch.arms) {
                let ghost runs = allowed@;
                proof {
                    path::lemma_constrained(a, branch);
                    path::lemma_constrained(b, branch);
                    if path::jointly_all(a, b, branch) {
                        assert forall|x: int| allowed.has(x) <==> 0 <= x < branch.arms by {
                            assert(arms::in_runs(allowed@, x) <==> path::allows(a, branch, x)
                                || path::allows(b, branch, x));
                        }
                        assert(branch.arms > 0);
                    }
                    let x = choose|x: int| 0 <= x < branch.arms && !(#[trigger] path::allows(a, branch, x) || path::allows(b, branch, x));
                    assert(!arms::in_runs(runs, x));
                    assert(path::choice_wf(Choice { branch, allowed: runs }));
                }
                pushed = true;
                out.push(BranchConstraint { branch, allowed });
                proof {
                    let added = Choice { branch, allowed: runs };
                    assert(path::choices(out@) =~= before.push(added));
                    path::lemma_push(before, added);
                    assert forall|k: int| 0 <= k < before.len() implies (#[trigger] before[k]).branch.lt(branch) by {
                        assert(before[k].branch.lt(a[i as int].branch));
                    }
                    lemma_wf_push(before, added);
                    if i + 1 < a.len() {
                        assert(a[i as int].branch.lt(a[i + 1].branch));
                    }
                    assert(merged_below(before, a, i as int + 1));
                    lemma_below_push(before, added, a, i as int + 1);
                }
            } else {
                proof {
                    assert(path::jointly_all(a, b, branch)) by {
                        assert forall|x: int| 0 <= x < branch.arms implies #[trigger] path::allows(a, branch, x) || path::allows(b, branch, x) by {
                            assert(allowed.has(x) <==> 0 <= x < branch.arms);
                            assert(arms::in_runs(allowed@, x) <==> path::allows(a, branch, x) || path::allows(b, branch, x));
                        }
                    }
                }
            }
        }
        proof {
            let after = path::choices(out@);
            if !pushed {
                assert(after == before);
                assert forall|k: int, m: int| 0 <= k < after.len() && i + 1 <= m < a.len() implies (#[trigger] after[k]).branch.lt((#[trigger] a[m]).branch) by {
                    assert(before[k].branch.lt(a[m].branch));
                }
            }
            assert forall|k: int| 0 <= k < before.len() implies (#[trigger] before[k]).branch != branch by {
                assert(before[k].branch.lt(a[i as int].branch));
                BranchId::lt_irreflexive(branch);
            }
            assert(!path::constrains(before, branch));
            assert forall|other: BranchId| #[trigger] path::constrains(after, other) <==> path::constrains(a.take(i as int + 1), other) && path::constrains(b, other) && !path::jointly_all(a, b, other) by {
                assert(path::constrains(before, other) <==> path::constrains(a.take(i as int), other) && path::constrains(b, other) && !path::jointly_all(a, b, other));
            }
            assert forall|other: BranchId, x: int| path::constrains(after, other) implies (#[trigger] path::allows(after, other, x) <==> path::allows(a, other, x) || path::allows(b, other, x)) by {
                if other == branch {
                    path::lemma_unconstrained(before, branch);
                    assert(path::allows(before, branch, x));
                } else {
                    assert(path::constrains(before, other));
                    assert(path::allows(before, other, x) <==> path::allows(a, other, x) || path::allows(b, other, x));
                }
            }
        }
        i = i + 1;
    }
    proof {
        lemma_joined(a, b, path::choices(out@));
    }
    out
}

impl PathArena {
    /// The least condition, branch by branch, that covers both.
    pub fn disjoin(&mut self, a: PathCondition, b: PathCondition) -> (r: PathCondition)
        requires
            old(self).wf(),
            old(self).holds(a),
            old(self).holds(b),
        ensures
            final(self).wf(),
            arena::grows(old(self)@, final(self)@),
            final(self).holds(r),
            path::path_wf(final(self).path(r)),
            path::is_disjunction(old(self).path(a), old(self).path(b), final(self).path(r)),
    {
        let ghost pa = self.path(a);
        let ghost pb = self.path(b);
        proof {
            arena::arena_paths_wf(self@, a.node as int);
            arena::arena_paths_wf(self@, b.node as int);
        }
        if self.is_unconditional(a) || self.ancestor_node(a, b) {
            proof {
                lemma_prefix(pb, pa.len() as int);
                assert(pa =~= pb.take(pa.len() as int));
                lemma_join_covering(pa, pb);
            }
            return a;
        }
        if self.is_unconditional(b) || self.ancestor_node(b, a) {
            proof {
                lemma_prefix(pa, pb.len() as int);
                assert(pb =~= pa.take(pb.len() as int));
                lemma_join_covering(pb, pa);
            }
            return b;
        }
        let left = self.constraints(a);
        let right = self.constraints(b);
        let out = join_constraints(&left, &right);
        let r = self.from_constraints(&out);
        r
    }
}

} // verus!
