//! Feasible branch choices on a control path.
use vstd::prelude::*;
use crate::arms;
use crate::arms::{ArmSet, Run};
use crate::order::Ordered;

verus! {

/// Where a branch was introduced.
#[derive(Clone, Copy, Debug, PartialEq, Eq, Hash, PartialOrd, Ord, Structural)]
pub enum BranchNamespace {
    Procedure(usize),
    Expression(usize),
    ExpressionCall { root: usize, call: usize },
}

/// One syntactic branch with a fixed number of arms.
#[derive(Clone, Copy, Debug, PartialEq, Eq, Hash, PartialOrd, Ord, Structural)]
pub struct BranchId {
    pub namespace: BranchNamespace,
    pub local: usize,
    pub arms: usize,
}

impl BranchNamespace {
    pub open spec fn kind(self) -> int {
        match self {
            BranchNamespace::Procedure(_) => 0,
            BranchNamespace::Expression(_) => 1,
            BranchNamespace::ExpressionCall { .. } => 2,
        }
    }

    pub open spec fn major(self) -> int {
        match self {
            BranchNamespace::Procedure(p) => p as int,
            BranchNamespace::Expression(r) => r as int,
            BranchNamespace::ExpressionCall { root, .. } => root as int,
        }
    }

    pub open spec fn minor(self) -> int {
        match self {
            BranchNamespace::ExpressionCall { call, .. } => call as int,
            _ => 0,
        }
    }

    fn parts(self) -> (r: (u8, usize, usize))
        ensures
            r.0 == self.kind(),
            r.1 == self.major(),
            r.2 == self.minor(),
    {
        match self {
            BranchNamespace::Procedure(p) => (0, p, 0),
            BranchNamespace::Expression(r) => (1, r, 0),
            BranchNamespace::ExpressionCall { root, call } => (2, root, call),
        }
    }
}

impl Ordered for BranchId {
    open spec fn lt(self, other: Self) -> bool {
        let a = self.namespace;
        let b = other.namespace;
        if a.kind() != b.kind() {
            a.kind() < b.kind()
        } else if a.major() != b.major() {
            a.major() < b.major()
        } else if a.minor() != b.minor() {
            a.minor() < b.minor()
        } else if self.local != other.local {
            self.local < other.local
        } else {
            self.arms < other.arms
        }
    }

    proof fn lt_irreflexive(a: Self) {
    }

    proof fn lt_transitive(a: Self, b: Self, c: Self) {
    }

    proof fn lt_total(a: Self, b: Self) {
    }

    fn less(self, other: Self) -> (r: bool) {
        let a = self.namespace.parts();
        let b = other.namespace.parts();
        if a.0 != b.0 {
            a.0 < b.0
        } else if a.1 != b.1 {
            a.1 < b.1
        } else if a.2 != b.2 {
            a.2 < b.2
        } else if self.local != other.local {
            self.local < other.local
        } else {
            self.arms < other.arms
        }
    }
}

impl BranchId {
    /// A branch of a procedure.
    pub fn new(procedure: usize, local: usize, arms: usize) -> (r: Self)
        ensures
            r == (BranchId { namespace: BranchNamespace::Procedure(procedure), local, arms }),
    {
        BranchId { namespace: BranchNamespace::Procedure(procedure), local, arms }
    }

    /// A branch of a top-level expression.
    pub fn expression(root: usize, local: usize, arms: usize) -> (r: Self)
        ensures
            r == (BranchId { namespace: BranchNamespace::Expression(root), local, arms }),
    {
        BranchId { namespace: BranchNamespace::Expression(root), local, arms }
    }

    /// A branch of a function called from a top-level expression.
    pub fn expression_call(root: usize, call: usize, local: usize, arms: usize) -> (r: Self)
        ensures
            r == (BranchId {
                namespace: BranchNamespace::ExpressionCall { root, call },
                local,
                arms,
            }),
    {
        BranchId { namespace: BranchNamespace::ExpressionCall { root, call }, local, arms }
    }

    /// The number of arms.
    pub fn arms(self) -> (r: usize)
        ensures
            r == self.arms,
    {
        self.arms
    }
}

/// The meaning of one constraint: the arms that a branch may still take.
pub struct Choice {
    pub branch: BranchId,
    pub allowed: Seq<Run>,
}

/// The arms that a branch may still take.
#[derive(Debug, PartialEq, Eq, Hash, PartialOrd, Ord)]
pub struct BranchConstraint {
    pub branch: BranchId,
    pub allowed: ArmSet,
}

impl View for BranchConstraint {
    type V = Choice;

    open spec fn view(&self) -> Choice {
        Choice { branch: self.branch, allowed: self.allowed@ }
    }
}

impl Clone for BranchConstraint {
    fn clone(&self) -> (r: Self)
        ensures
            r@ == self@,
    {
        BranchConstraint { branch: self.branch, allowed: self.allowed.clone() }
    }
}

/// The meanings of a list of constraints.
pub open spec fn choices(constraints: Seq<BranchConstraint>) -> Seq<Choice> {
    Seq::new(constraints.len(), |i: int| constraints[i]@)
}

/// The choice leaves the branch at least one of its arms and takes at least one away.
pub open spec fn choice_wf(c: Choice) -> bool {
    &&& arms::runs_normal(c.allowed)
    &&& c.allowed.len() > 0
    &&& forall|x: int| #[trigger] arms::in_runs(c.allowed, x) ==> 0 <= x < c.branch.arms
    &&& exists|x: int| 0 <= x < c.branch.arms && !#[trigger] arms::in_runs(c.allowed, x)
}

/// Branches ascend and every choice is a real one.
pub open spec fn path_wf(path: Seq<Choice>) -> bool {
    &&& forall|i: int, j: int|
        0 <= i < j < path.len() ==> (#[trigger] path[i]).branch.lt((#[trigger] path[j]).branch)
    &&& forall|i: int| 0 <= i < path.len() ==> choice_wf(#[trigger] path[i])
}

/// The path says something about `branch`.
pub open spec fn constrains(path: Seq<Choice>, branch: BranchId) -> bool {
    exists|i: int| 0 <= i < path.len() && (#[trigger] path[i]).branch == branch
}

/// The path leaves `arm` of `branch` open.
pub open spec fn allows(path: Seq<Choice>, branch: BranchId, arm: int) -> bool {
    forall|i: int|
        0 <= i < path.len() && (#[trigger] path[i]).branch == branch ==> arms::in_runs(
            path[i].allowed,
            arm,
        )
}

/// A choice of one arm for every branch.
pub type Valuation = spec_fn(BranchId) -> int;

/// The path can be taken under `valuation`.
pub open spec fn admits(path: Seq<Choice>, valuation: Valuation) -> bool {
    forall|i: int|
        0 <= i < path.len() ==> arms::in_runs((#[trigger] path[i]).allowed, valuation(path[i].branch))
}

/// The two paths leave no common arm to some branch.
pub open spec fn conflict(a: Seq<Choice>, b: Seq<Choice>) -> bool {
    exists|branch: BranchId| #[trigger] conflict_at(a, b, branch)
}

pub open spec fn conflict_at(a: Seq<Choice>, b: Seq<Choice>, branch: BranchId) -> bool {
    forall|arm: int| !(#[trigger] allows(a, branch, arm) && allows(b, branch, arm))
}

/// `r` is taken exactly where both `a` and `b` are.
pub open spec fn is_conjunction(a: Seq<Choice>, b: Seq<Choice>, r: Seq<Choice>) -> bool {
    &&& forall|branch: BranchId|
        #[trigger] constrains(r, branch) <==> constrains(a, branch) || constrains(b, branch)
    &&& forall|branch: BranchId, arm: int|
        #[trigger] allows(r, branch, arm) <==> allows(a, branch, arm) && allows(b, branch, arm)
}

/// Together the two paths leave every arm of `branch` open.
pub open spec fn jointly_all(a: Seq<Choice>, b: Seq<Choice>, branch: BranchId) -> bool {
    forall|arm: int|
        0 <= arm < branch.arms ==> #[trigger] allows(a, branch, arm) || allows(b, branch, arm)
}

/// `r` is the least condition, branch by branch, that covers `a` and `b`.
pub open spec fn is_disjunction(a: Seq<Choice>, b: Seq<Choice>, r: Seq<Choice>) -> bool {
    &&& forall|branch: BranchId| #[trigger]
        constrains(r, branch) <==> constrains(a, branch) && constrains(b, branch) && !jointly_all(
            a,
            b,
            branch,
        )
    &&& forall|branch: BranchId, arm: int|
        0 <= arm < branch.arms ==> (#[trigger] allows(r, branch, arm) <==> allows(a, branch, arm)
            || allows(b, branch, arm))
}

/// Every arm left open by `b` is left open by `a`.
pub open spec fn path_covers(a: Seq<Choice>, b: Seq<Choice>) -> bool {
    forall|branch: BranchId, arm: int|
        0 <= arm < branch.arms && #[trigger] allows(b, branch, arm) ==> allows(a, branch, arm)
}

pub(crate) proof fn lemma_push(s: Seq<Choice>, c: Choice)
    ensures
        forall|b: BranchId| #[trigger]
            constrains(s.push(c), b) <==> constrains(s, b) || c.branch == b,
        forall|b: BranchId, x: int| #[trigger]
            allows(s.push(c), b, x) <==> allows(s, b, x) && (c.branch == b ==> arms::in_runs(
                c.allowed,
                x,
            )),
{
    let t = s.push(c);
    assert forall|b: BranchId| #[trigger] constrains(t, b) <==> constrains(s, b) || c.branch == b by {
        if constrains(s, b) {
            let i = choose|i: int| 0 <= i < s.len() && (#[trigger] s[i]).branch == b;
            assert(t[i].branch == b);
        }
        if c.branch == b {
            assert(t[s.len() as int].branch == b);
        }
        if constrains(t, b) {
            let i = choose|i: int| 0 <= i < t.len() && (#[trigger] t[i]).branch == b;
            if i < s.len() {
                assert(s[i].branch == b);
            }
        }
    }
    assert forall|b: BranchId, x: int| #[trigger] allows(t, b, x) <==> allows(s, b, x) && (c.branch == b
        ==> arms::in_runs(c.allowed, x)) by {
        if allows(t, b, x) {
            assert forall|i: int| 0 <= i < s.len() && (#[trigger] s[i]).branch == b implies arms::in_runs(
                s[i].allowed,
                x,
            ) by {
                assert(t[i].branch == b);
            }
            assert(t[s.len() as int] == c);
        }
        if allows(s, b, x) && (c.branch == b ==> arms::in_runs(c.allowed, x)) {
            assert forall|i: int| 0 <= i < t.len() && (#[trigger] t[i]).branch == b implies arms::in_runs(
                t[i].allowed,
                x,
            ) by {
                if i < s.len() {
                    assert(s[i].branch == b);
                }
            }
        }
    }
}

/// On a well-formed path a branch that occurs is constrained by that one entry.
pub(crate) proof fn lemma_at(path: Seq<Choice>, i: int)
    requires
        path_wf(path),
        0 <= i < path.len(),
    ensures
        constrains(path, path[i].branch),
        forall|x: int| #[trigger]
            allows(path, path[i].branch, x) <==> arms::in_runs(path[i].allowed, x),
        exists|x: int| #[trigger] allows(path, path[i].branch, x),
{
    assert forall|x: int| #[trigger] allows(path, path[i].branch, x) <==> arms::in_runs(path[i].allowed, x) by {
        assert forall|j: int| 0 <= j < path.len() && (#[trigger] path[j]).branch == path[i].branch implies j == i by {
            BranchId::lt_irreflexive(path[i].branch);
            if j < i {
                assert(path[j].branch.lt(path[i].branch));
            } else if i < j {
                assert(path[i].branch.lt(path[j].branch));
            }
        }
    }
    let x = path[i].allowed[0].start as int;
    assert(arms::in_runs(path[i].allowed, x));
    assert(allows(path, path[i].branch, x));
}

pub(crate) proof fn lemma_unconstrained(path: Seq<Choice>, branch: BranchId)
    requires
        !constrains(path, branch),
    ensures
        forall|x: int| #[trigger] allows(path, branch, x),
{
}

/// A constrained branch keeps an arm and loses one.
pub(crate) proof fn lemma_constrained(path: Seq<Choice>, branch: BranchId)
    requires
        path_wf(path),
        constrains(path, branch),
    ensures
        exists|x: int| 0 <= x < branch.arms && #[trigger] allows(path, branch, x),
        exists|x: int| 0 <= x < branch.arms && !#[trigger] allows(path, branch, x),
        forall|x: int| #[trigger] allows(path, branch, x) ==> 0 <= x < branch.arms,
{
    let i = choose|i: int| 0 <= i < path.len() && (#[trigger] path[i]).branch == branch;
    lemma_at(path, i);
    assert(choice_wf(path[i]));
    let x = choose|x: int| 0 <= x < branch.arms && !#[trigger] arms::in_runs(path[i].allowed, x);
    assert(!allows(path, branch, x));
    let y = path[i].allowed[0].start as int;
    assert(arms::in_runs(path[i].allowed, y));
    assert(allows(path, branch, y));
}

/// A path is determined by the arms that it leaves open.
pub proof fn path_is_canonical(a: Seq<Choice>, b: Seq<Choice>)
    requires
        path_wf(a),
        path_wf(b),
        forall|branch: BranchId, arm: int|
            0 <= arm < branch.arms ==> (#[trigger] allows(a, branch, arm) <==> allows(
                b,
                branch,
                arm,
            )),
    ensures
        a == b,
{
    assert forall|branch: BranchId| constrains(a, branch) <==> constrains(b, branch) by {
        if constrains(a, branch) {
            lemma_constrained(a, branch);
            let x = choose|x: int| 0 <= x < branch.arms && !#[trigger] allows(a, branch, x);
            if !constrains(b, branch) {
                lemma_unconstrained(b, branch);
                assert(allows(b, branch, x));
            }
        }
        if constrains(b, branch) {
            lemma_constrained(b, branch);
            let x = choose|x: int| 0 <= x < branch.arms && !#[trigger] allows(b, branch, x);
            if !constrains(a, branch) {
                lemma_unconstrained(a, branch);
                assert(allows(a, branch, x));
            }
        }
    }
    let ab = Seq::new(a.len(), |i: int| a[i].branch);
    let bb = Seq::new(b.len(), |i: int| b[i].branch);
    assert forall|x: BranchId| #[trigger] ab.contains(x) <==> bb.contains(x) by {
        assert(constrains(a, x) <==> constrains(b, x));
        if ab.contains(x) {
            let i = choose|i: int| 0 <= i < ab.len() && ab[i] == x;
            assert(a[i].branch == x);
            assert(constrains(a, x));
            let j = choose|j: int| 0 <= j < b.len() && (#[trigger] b[j]).branch == x;
            assert(bb[j] == x);
        }
        if bb.contains(x) {
            let i = choose|i: int| 0 <= i < bb.len() && bb[i] == x;
            assert(b[i].branch == x);
            assert(constrains(b, x));
            let j = choose|j: int| 0 <= j < a.len() && (#[trigger] a[j]).branch == x;
            assert(ab[j] == x);
        }
    }
    assert forall|i: int, j: int| 0 <= i < j < ab.len() implies (#[trigger] ab[i]).lt(#[trigger] ab[j]) by {
        assert(a[i].branch.lt(a[j].branch));
    }
    assert forall|i: int, j: int| 0 <= i < j < bb.len() implies (#[trigger] bb[i]).lt(#[trigger] bb[j]) by {
        assert(b[i].branch.lt(b[j].branch));
    }
    crate::order::sorted_list_is_canonical(ab, bb);
    assert(a.len() == b.len());
    assert forall|i: int| 0 <= i < a.len() implies a[i] == b[i] by {
        assert(ab[i] == bb[i]);
        lemma_at(a, i);
        lemma_at(b, i);
        assert(choice_wf(a[i]) && choice_wf(b[i]));
        assert forall|x: int| arms::in_runs(a[i].allowed, x) <==> arms::in_runs(b[i].allowed, x) by {
            assert(allows(a, a[i].branch, x) <==> arms::in_runs(a[i].allowed, x));
            assert(allows(b, b[i].branch, x) <==> arms::in_runs(b[i].allowed, x));
        }
        arms::normal_runs_are_canonical(a[i].allowed, b[i].allowed);
    }
    assert(a =~= b);
}

/// A path is taken under a valuation when every branch is left its arm.
pub proof fn admits_by_branch(path: Seq<Choice>, valuation: Valuation)
    ensures
        admits(path, valuation) <==> forall|branch: BranchId| #[trigger]
            allows(path, branch, valuation(branch)),
{
    if admits(path, valuation) {
        assert forall|branch: BranchId| #[trigger] allows(path, branch, valuation(branch)) by {
            assert forall|i: int| 0 <= i < path.len() && (#[trigger] path[i]).branch == branch implies arms::in_runs(
                path[i].allowed,
                valuation(branch),
            ) by {
                assert(path[i].branch == branch);
            }
        }
    }
    if forall|branch: BranchId| #[trigger] allows(path, branch, valuation(branch)) {
        assert forall|i: int| 0 <= i < path.len() implies arms::in_runs(
            (#[trigger] path[i]).allowed,
            valuation(path[i].branch),
        ) by {
            assert(allows(path, path[i].branch, valuation(path[i].branch)));
        }
    }
}

/// A conjunction is taken exactly where both of its parts are.
pub proof fn conjunction_admits(
    a: Seq<Choice>,
    b: Seq<Choice>,
    r: Seq<Choice>,
    valuation: Valuation,
)
    requires
        is_conjunction(a, b, r),
    ensures
        admits(r, valuation) <==> admits(a, valuation) && admits(b, valuation),
{
    admits_by_branch(a, valuation);
    admits_by_branch(b, valuation);
    admits_by_branch(r, valuation);
    if admits(r, valuation) {
        assert forall|branch: BranchId| #[trigger] allows(a, branch, valuation(branch)) by {
            assert(allows(r, branch, valuation(branch)));
        }
        assert forall|branch: BranchId| #[trigger] allows(b, branch, valuation(branch)) by {
            assert(allows(r, branch, valuation(branch)));
        }
    }
    if admits(a, valuation) && admits(b, valuation) {
        assert forall|branch: BranchId| #[trigger] allows(r, branch, valuation(branch)) by {
            assert(allows(a, branch, valuation(branch)));
            assert(allows(b, branch, valuation(branch)));
        }
    }
}

/// Conflicting paths are never taken together.
pub proof fn conflict_excludes(a: Seq<Choice>, b: Seq<Choice>, valuation: Valuation)
    requires
        conflict(a, b),
    ensures
        !(admits(a, valuation) && admits(b, valuation)),
{
    admits_by_branch(a, valuation);
    admits_by_branch(b, valuation);
    let branch = choose|branch: BranchId| conflict_at(a, b, branch);
    assert(!(allows(a, branch, valuation(branch)) && allows(b, branch, valuation(branch))));
}

/// Paths without a conflict can be taken together.
pub proof fn compatible_paths_meet(a: Seq<Choice>, b: Seq<Choice>)
    requires
        !conflict(a, b),
    ensures
        exists|valuation: Valuation| admits(a, valuation) && admits(b, valuation),
{
    let valuation: Valuation = |branch: BranchId|
        choose|arm: int| allows(a, branch, arm) && allows(b, branch, arm);
    assert forall|branch: BranchId|
        #![trigger valuation(branch)]
        allows(a, branch, valuation(branch)) && allows(b, branch, valuation(branch)) by {
        assert(!conflict_at(a, b, branch));
        assert(exists|arm: int| allows(a, branch, arm) && allows(b, branch, arm));
    }
    admits_by_branch(a, valuation);
    admits_by_branch(b, valuation);
}

/// A disjunction is taken wherever one of its parts is.
pub proof fn disjunction_covers(
    a: Seq<Choice>,
    b: Seq<Choice>,
    r: Seq<Choice>,
    valuation: Valuation,
)
    requires
        path_wf(a),
        path_wf(b),
        is_disjunction(a, b, r),
        admits(a, valuation) || admits(b, valuation),
    ensures
        admits(r, valuation),
{
    admits_by_branch(a, valuation);
    admits_by_branch(b, valuation);
    admits_by_branch(r, valuation);
    assert forall|branch: BranchId| #[trigger] allows(r, branch, valuation(branch)) by {
        assert(allows(a, branch, valuation(branch)) || allows(b, branch, valuation(branch)));
        if constrains(r, branch) {
            lemma_constrained(a, branch);
            lemma_constrained(b, branch);
        } else {
            lemma_unconstrained(r, branch);
        }
    }
}

/// Any condition that covers both parts, on arms that exist, also covers the disjunction there.
pub proof fn disjunction_is_least(
    a: Seq<Choice>,
    b: Seq<Choice>,
    r: Seq<Choice>,
    upper: Seq<Choice>,
    branch: BranchId,
    arm: int,
)
    requires
        is_disjunction(a, b, r),
        path_covers(upper, a),
        path_covers(upper, b),
        0 <= arm < branch.arms,
        allows(r, branch, arm),
    ensures
        allows(upper, branch, arm),
{
    assert(allows(a, branch, arm) || allows(b, branch, arm));
}

/// Covering is exactly inclusion of the valuations under which a path is taken.
pub proof fn covers_is_inclusion(a: Seq<Choice>, b: Seq<Choice>)
    requires
        path_wf(a),
        path_wf(b),
    ensures
        path_covers(a, b) <==> forall|valuation: Valuation| #[trigger]
            admits(b, valuation) ==> admits(a, valuation),
{
    if path_covers(a, b) {
        assert forall|valuation: Valuation| #[trigger] admits(b, valuation) implies admits(
            a,
            valuation,
        ) by {
            admits_by_branch(a, valuation);
            admits_by_branch(b, valuation);
            assert forall|branch: BranchId| #[trigger] allows(a, branch, valuation(branch)) by {
                assert(allows(b, branch, valuation(branch)));
                if !constrains(a, branch) {
                    lemma_unconstrained(a, branch);
                } else if constrains(b, branch) {
                    lemma_constrained(b, branch);
                } else {
                    lemma_constrained(a, branch);
                    lemma_unconstrained(b, branch);
                    let x = choose|x: int| 0 <= x < branch.arms && !#[trigger] allows(a, branch, x);
                    assert(allows(b, branch, x));
                }
            }
        }
    }
    if forall|valuation: Valuation| #[trigger] admits(b, valuation) ==> admits(a, valuation) {
        assert forall|branch: BranchId, arm: int|
            0 <= arm < branch.arms && #[trigger] allows(b, branch, arm) implies allows(
            a,
            branch,
            arm,
        ) by {
            let valuation: Valuation = |other: BranchId|
                if other == branch {
                    arm
                } else {
                    choose|x: int| allows(b, other, x)
                };
            assert forall|other: BranchId| #[trigger] allows(b, other, valuation(other)) by {
                if other != branch {
                    if constrains(b, other) {
                        lemma_constrained(b, other);
                    } else {
                        lemma_unconstrained(b, other);
                        assert(allows(b, other, 0));
                    }
                }
            }
            admits_by_branch(b, valuation);
            admits_by_branch(a, valuation);
            assert(admits(b, valuation));
            assert(allows(a, branch, valuation(branch)));
        }
    }
}

} // verus!
