//! How a block of statements ends, as decisions over predicates.
use vstd::prelude::*;
use std::collections::HashMap;
use crate::arena;
use crate::arena::{PathArena, PathCondition, PathNode};
use crate::path;
use crate::path::Choice;

verus! {

/// How a statement ends.
#[derive(Clone, Copy, Debug, PartialEq, Eq, Hash, Structural)]
pub enum ProcedureFlow {
    Continue,
    Break,
    Return,
}

/// What a decision depends on: equal conditions have equal identities, and `controls` are the
/// versions that the condition reads.
pub struct FlowPredicate {
    pub identity: u64,
    pub controls: Vec<usize>,
}

/// A predicate as a value.
pub struct PredicateView {
    pub identity: u64,
    pub controls: Seq<usize>,
}

impl View for FlowPredicate {
    type V = PredicateView;

    open spec fn view(&self) -> PredicateView {
        PredicateView { identity: self.identity, controls: self.controls@ }
    }
}

impl FlowPredicate {
    /// A copy.
    pub fn copy(&self) -> (r: Self)
        ensures
            r@ == self@,
    {
        let mut controls: Vec<usize> = Vec::new();
        let mut i: usize = 0;
        while i < self.controls.len()
            invariant
                i <= self.controls@.len(),
                controls@ == self.controls@.take(i as int),
            decreases self.controls@.len() - i,
        {
            controls.push(self.controls[i]);
            i = i + 1;
            assert(controls@ =~= self.controls@.take(i as int));
        }
        assert(controls@ =~= self.controls@);
        FlowPredicate { identity: self.identity, controls }
    }

    fn same(&self, other: &Self) -> (r: bool)
        ensures
            r == (self@ == other@),
    {
        self.identity == other.identity && same_list(&self.controls, &other.controls)
    }
}

fn same_list(a: &Vec<usize>, b: &Vec<usize>) -> (r: bool)
    ensures
        r == (a@ == b@),
{
    if a.len() != b.len() {
        return false;
    }
    let mut i: usize = 0;
    while i < a.len()
        invariant
            i <= a@.len() == b@.len(),
            forall|k: int| 0 <= k < i ==> a@[k] == b@[k],
        decreases a@.len() - i,
    {
        if a[i] != b[i] {
            return false;
        }
        i = i + 1;
    }
    assert(a@ =~= b@);
    true
}

/// A tree in a store.
#[derive(Clone, Copy, Debug, PartialEq, Eq, Structural)]
pub struct FlowTree {
    pub index: usize,
}

/// One arm of a decision.
#[derive(Clone, Copy, Debug, PartialEq, Eq, Structural)]
pub struct FlowArm {
    pub condition: PathCondition,
    pub tree: FlowTree,
}

/// An end, or a decision between trees.
pub enum FlowTreeNode {
    Outcome(ProcedureFlow),
    Decision { predicate: FlowPredicate, arms: Vec<FlowArm> },
}

/// A tree, with what can be known of it at once.
pub struct FlowTreeData {
    pub node: FlowTreeNode,
    /// The number of the shape of the tree.
    pub continuation: usize,
    pub continues: bool,
    pub breaks: bool,
    pub leaves: bool,
}

/// A tree written out.
pub enum Plan {
    Outcome(ProcedureFlow),
    Decision(PredicateView, Seq<PlanArm>),
}

/// One arm of a decision written out.
pub struct PlanArm {
    pub condition: PathCondition,
    pub plan: Plan,
}

/// The tree with number `tree` written out.
pub open spec fn plan_of(trees: Seq<FlowTreeData>, tree: int) -> Plan
    decreases tree, 1int, 0int,
{
    match trees[tree].node {
        FlowTreeNode::Outcome(flow) => Plan::Outcome(flow),
        FlowTreeNode::Decision { predicate, arms } => Plan::Decision(
            predicate@,
            arms_of(trees, tree, arms@, arms@.len() as int),
        ),
    }
}

/// The first `count` arms of a tree written out.
pub open spec fn arms_of(
    trees: Seq<FlowTreeData>,
    tree: int,
    arms: Seq<FlowArm>,
    count: int,
) -> Seq<PlanArm>
    decreases tree, 0int, count,
{
    if count <= 0 {
        Seq::empty()
    } else {
        let arm = arms[count - 1];
        arms_of(trees, tree, arms, count - 1).push(
            PlanArm {
                condition: arm.condition,
                plan: if arm.tree.index < tree {
                    plan_of(trees, arm.tree.index as int)
                } else {
                    Plan::Outcome(ProcedureFlow::Return)
                },
            },
        )
    }
}

/// The plan may end with `flow`.
pub open spec fn can_end(plan: Plan, flow: ProcedureFlow) -> bool
    decreases plan,
{
    match plan {
        Plan::Outcome(f) => f == flow,
        Plan::Decision(_, arms) => some_can_end(arms, flow),
    }
}

pub open spec fn some_can_end(arms: Seq<PlanArm>, flow: ProcedureFlow) -> bool
    decreases arms,
{
    if arms.len() == 0 {
        false
    } else {
        can_end(arms.last().plan, flow) || some_can_end(arms.drop_last(), flow)
    }
}

/// The plan with `on_continue` in place of each end that continues, and `on_break` in place of each
/// that breaks.
pub open spec fn rewritten(plan: Plan, on_continue: Plan, on_break: Plan) -> Plan
    decreases plan,
{
    match plan {
        Plan::Outcome(ProcedureFlow::Continue) => on_continue,
        Plan::Outcome(ProcedureFlow::Break) => on_break,
        Plan::Outcome(ProcedureFlow::Return) => plan,
        Plan::Decision(predicate, arms) => Plan::Decision(
            predicate,
            rewritten_arms(arms, on_continue, on_break),
        ),
    }
}

pub open spec fn rewritten_arms(arms: Seq<PlanArm>, on_continue: Plan, on_break: Plan) -> Seq<
    PlanArm,
>
    decreases arms,
{
    if arms.len() == 0 {
        Seq::empty()
    } else {
        rewritten_arms(arms.drop_last(), on_continue, on_break).push(
            PlanArm {
                condition: arms.last().condition,
                plan: rewritten(arms.last().plan, on_continue, on_break),
            },
        )
    }
}

/// Which ends of a plan continue, and on what that depends. A decision whose arms all have one shape
/// is left out.
pub enum Shape {
    Outcome(bool),
    Decision(PredicateView, Seq<Shape>),
}

pub open spec fn shape(plan: Plan) -> Shape
    decreases plan,
{
    match plan {
        Plan::Outcome(flow) => Shape::Outcome(flow == ProcedureFlow::Continue),
        Plan::Decision(predicate, arms) => folded(predicate, arm_shapes(arms)),
    }
}

pub open spec fn arm_shapes(arms: Seq<PlanArm>) -> Seq<Shape>
    decreases arms,
{
    if arms.len() == 0 {
        Seq::empty()
    } else {
        arm_shapes(arms.drop_last()).push(shape(arms.last().plan))
    }
}

/// The shape of a decision between these shapes.
pub open spec fn folded(predicate: PredicateView, shapes: Seq<Shape>) -> Shape {
    if all_same(shapes) {
        shapes[0]
    } else {
        Shape::Decision(predicate, shapes)
    }
}

pub open spec fn all_same<T>(list: Seq<T>) -> bool {
    forall|i: int| 0 <= i < list.len() ==> #[trigger] list[i] == list[0]
}

/// The decision matters: its arms do not all have one shape.
pub open spec fn matters(arms: Seq<PlanArm>) -> bool {
    !all_same(arm_shapes(arms))
}

/// How a shape is kept: its arms by their numbers.
pub enum ContinuationKey {
    Outcome(bool),
    Decision { predicate: FlowPredicate, arms: Vec<usize> },
}

/// The key of a shape as a value.
pub enum KeyView {
    Outcome(bool),
    Decision(PredicateView, Seq<usize>),
}

impl View for ContinuationKey {
    type V = KeyView;

    open spec fn view(&self) -> KeyView {
        match self {
            ContinuationKey::Outcome(continues) => KeyView::Outcome(*continues),
            ContinuationKey::Decision { predicate, arms } => KeyView::Decision(predicate@, arms@),
        }
    }
}

/// The shape with number `id`.
pub open spec fn shape_at(keys: Seq<ContinuationKey>, id: int) -> Shape
    decreases id, 1int, 0int,
{
    match keys[id] {
        ContinuationKey::Outcome(continues) => Shape::Outcome(continues),
        ContinuationKey::Decision { predicate, arms } => Shape::Decision(
            predicate@,
            shapes_at(keys, id, arms@, arms@.len() as int),
        ),
    }
}

pub open spec fn shapes_at(
    keys: Seq<ContinuationKey>,
    id: int,
    arms: Seq<usize>,
    count: int,
) -> Seq<Shape>
    decreases id, 0int, count,
{
    if count <= 0 {
        Seq::empty()
    } else {
        shapes_at(keys, id, arms, count - 1).push(
            if arms[count - 1] < id {
                shape_at(keys, arms[count - 1] as int)
            } else {
                Shape::Outcome(false)
            },
        )
    }
}

/// Arms come before the shapes that they are part of, and no key occurs twice.
pub open spec fn keys_wf(keys: Seq<ContinuationKey>) -> bool {
    &&& forall|id: int| 0 <= id < keys.len() ==> #[trigger] key_wf(keys[id], id)
    &&& forall|a: int, b: int|
        0 <= a < b < keys.len() ==> (#[trigger] keys[a])@ != (#[trigger] keys[b])@
}

pub open spec fn key_wf(key: ContinuationKey, id: int) -> bool {
    key matches ContinuationKey::Decision { predicate, arms } ==> arms_below(arms@, id)
}

pub open spec fn arms_below(arms: Seq<usize>, id: int) -> bool {
    forall|i: int| 0 <= i < arms.len() ==> #[trigger] arms[i] < id
}

proof fn lemma_shapes_at(keys: Seq<ContinuationKey>, id: int, arms: Seq<usize>, count: int)
    requires
        0 <= count <= arms.len(),
        arms_below(arms, id),
    ensures
        shapes_at(keys, id, arms, count).len() == count,
        forall|i: int|
            0 <= i < count ==> #[trigger] shapes_at(keys, id, arms, count)[i] == shape_at(
                keys,
                arms[i] as int,
            ),
    decreases count,
{
    if count > 0 {
        lemma_shapes_at(keys, id, arms, count - 1);
    }
}

/// Shapes have one number each.
proof fn lemma_shape_is_once(keys: Seq<ContinuationKey>, a: int, b: int)
    requires
        keys_wf(keys),
        0 <= a < keys.len(),
        0 <= b < keys.len(),
        shape_at(keys, a) == shape_at(keys, b),
    ensures
        a == b,
    decreases a,
{
    assert(key_wf(keys[a], a));
    assert(key_wf(keys[b], b));
    if let ContinuationKey::Decision { predicate, arms } = keys[a] {
        if let ContinuationKey::Decision { predicate: other, arms: rest } = keys[b] {
            lemma_shapes_at(keys, a, arms@, arms@.len() as int);
            lemma_shapes_at(keys, b, rest@, rest@.len() as int);
            let x = shapes_at(keys, a, arms@, arms@.len() as int);
            let y = shapes_at(keys, b, rest@, rest@.len() as int);
            assert(x == y);
            assert forall|i: int| 0 <= i < arms@.len() implies #[trigger] arms@[i] == rest@[i] by {
                assert(x[i] == y[i]);
                lemma_shape_is_once(keys, arms@[i] as int, rest@[i] as int);
            }
            assert(arms@ =~= rest@);
        }
    }
    assert(keys[a]@ == keys[b]@);
    if a < b {
        assert(keys[a]@ != keys[b]@);
    } else if b < a {
        assert(keys[b]@ != keys[a]@);
    }
}

proof fn lemma_shape_kept(a: Seq<ContinuationKey>, b: Seq<ContinuationKey>, id: int)
    requires
        a.len() <= b.len(),
        forall|i: int| 0 <= i < a.len() ==> #[trigger] a[i] == b[i],
        0 <= id < a.len(),
        keys_wf(a),
    ensures
        shape_at(b, id) == shape_at(a, id),
    decreases id,
{
    assert(key_wf(a[id], id));
    assert(a[id] == b[id]);
    if let ContinuationKey::Decision { predicate, arms } = a[id] {
        let n = arms@.len() as int;
        lemma_shapes_at(a, id, arms@, n);
        lemma_shapes_at(b, id, arms@, n);
        assert forall|i: int| 0 <= i < n implies #[trigger] shapes_at(a, id, arms@, n)[i] == shapes_at(b, id, arms@, n)[i] by {
            lemma_shape_kept(a, b, arms@[i] as int);
        }
        assert(shapes_at(a, id, arms@, n) =~= shapes_at(b, id, arms@, n));
    }
}

/// Mixes a number into a hash.
pub open spec fn mixed(hash: u64, x: u64) -> u64 {
    hash.wrapping_mul(0x9E3779B97F4A7C15).wrapping_add(x)
}

pub open spec fn list_hash(hash: u64, list: Seq<usize>) -> u64
    decreases list.len(),
{
    if list.len() == 0 {
        hash
    } else {
        mixed(list_hash(hash, list.drop_last()), list.last() as u64)
    }
}

pub open spec fn key_hash(key: KeyView) -> u64 {
    match key {
        KeyView::Outcome(continues) => if continues {
            1
        } else {
            2
        },
        KeyView::Decision(predicate, arms) => list_hash(
            list_hash(mixed(3, predicate.identity), predicate.controls),
            arms,
        ),
    }
}

fn mix(hash: u64, x: u64) -> (r: u64)
    ensures
        r == mixed(hash, x),
{
    hash.wrapping_mul(0x9E3779B97F4A7C15).wrapping_add(x)
}

fn hash_list(hash: u64, list: &Vec<usize>) -> (r: u64)
    ensures
        r == list_hash(hash, list@),
{
    let mut r: u64 = hash;
    let mut i: usize = 0;
    while i < list.len()
        invariant
            i <= list@.len(),
            r == list_hash(hash, list@.take(i as int)),
        decreases list@.len() - i,
    {
        assert(list@.take(i + 1).drop_last() =~= list@.take(i as int));
        r = mix(r, list[i] as u64);
        i = i + 1;
    }
    assert(list@.take(i as int) =~= list@);
    r
}

fn hash_key(key: &ContinuationKey) -> (r: u64)
    ensures
        r == key_hash(key@),
{
    match key {
        ContinuationKey::Outcome(continues) => if *continues {
            1
        } else {
            2
        },
        ContinuationKey::Decision { predicate, arms } => {
            let start: u64 = mix(3, predicate.identity);
            let controls: u64 = hash_list(start, &predicate.controls);
            hash_list(controls, arms)
        },
    }
}

fn same_key(a: &ContinuationKey, b: &ContinuationKey) -> (r: bool)
    ensures
        r == (a@ == b@),
{
    match (a, b) {
        (ContinuationKey::Outcome(x), ContinuationKey::Outcome(y)) => *x == *y,
        (
            ContinuationKey::Decision { predicate, arms },
            ContinuationKey::Decision { predicate: other, arms: rest },
        ) => predicate.same(other) && same_list(arms, rest),
        _ => false,
    }
}

/// Trees of decisions, and their shapes with equal ones kept once.
pub struct FlowStore {
    pub trees: Vec<FlowTreeData>,
    pub continuations: Vec<ContinuationKey>,
    /// The numbers of the shapes by the hashes of their keys.
    pub buckets: HashMap<u64, Vec<usize>>,
}

/// The arms of a tree come before it.
pub open spec fn tree_wf(trees: Seq<FlowTreeData>, tree: int) -> bool {
    trees[tree].node matches FlowTreeNode::Decision { predicate, arms } ==> arms@.len() > 0
        && trees_below(arms@, tree)
}

pub open spec fn trees_below(arms: Seq<FlowArm>, tree: int) -> bool {
    forall|i: int| 0 <= i < arms.len() ==> (#[trigger] arms[i]).tree.index < tree
}

/// `b` holds every tree of `a` at the same place.
pub open spec fn extends(a: Seq<FlowTreeData>, b: Seq<FlowTreeData>) -> bool {
    a.len() <= b.len() && forall|i: int| 0 <= i < a.len() ==> #[trigger] a[i] == b[i]
}

/// The number of decisions in a plan.
pub open spec fn decisions_in(plan: Plan) -> nat
    decreases plan,
{
    match plan {
        Plan::Outcome(_) => 0,
        Plan::Decision(_, arms) => 1 + decisions_in_arms(arms),
    }
}

pub open spec fn decisions_in_arms(arms: Seq<PlanArm>) -> nat
    decreases arms,
{
    if arms.len() == 0 {
        0
    } else {
        decisions_in_arms(arms.drop_last()) + decisions_in(arms.last().plan)
    }
}

/// The decisions that a tree is made of.
spec fn parts(trees: Seq<FlowTreeData>, tree: int) -> Set<usize>
    decreases tree, 1int, 0int,
{
    match trees[tree].node {
        FlowTreeNode::Outcome(_) => Set::empty(),
        FlowTreeNode::Decision { predicate, arms } => arm_parts(trees, tree, arms@, arms@.len() as int).insert(tree as usize),
    }
}

spec fn arm_parts(trees: Seq<FlowTreeData>, tree: int, arms: Seq<FlowArm>, count: int) -> Set<usize>
    decreases tree, 0int, count,
{
    if count <= 0 {
        Set::empty()
    } else {
        let index = arms[count - 1].tree.index as int;
        arm_parts(trees, tree, arms, count - 1) + (if 0 <= index < tree {
            parts(trees, index)
        } else {
            Set::empty()
        })
    }
}

proof fn lemma_parts(trees: Seq<FlowTreeData>, tree: int)
    requires
        0 <= tree < trees.len() <= usize::MAX,
        forall|t: int| 0 <= t < trees.len() ==> #[trigger] tree_wf(trees, t),
    ensures
        parts(trees, tree).finite(),
        parts(trees, tree).len() <= decisions_in(plan_of(trees, tree)),
    decreases tree, 1int, 0int,
{
    assert(tree_wf(trees, tree));
    if let FlowTreeNode::Decision { predicate, arms } = trees[tree].node {
        lemma_arm_parts(trees, tree, arms@, arms@.len() as int);
        let inner = arm_parts(trees, tree, arms@, arms@.len() as int);
        if inner.contains(tree as usize) {
            assert(inner.insert(tree as usize) =~= inner);
        }
    }
}

proof fn lemma_arm_parts(trees: Seq<FlowTreeData>, tree: int, arms: Seq<FlowArm>, count: int)
    requires
        0 <= tree < trees.len() <= usize::MAX,
        0 <= count <= arms.len(),
        forall|t: int| 0 <= t < trees.len() ==> #[trigger] tree_wf(trees, t),
        trees_below(arms, tree),
    ensures
        arm_parts(trees, tree, arms, count).finite(),
        arm_parts(trees, tree, arms, count).len() <= decisions_in_arms(arms_of(trees, tree, arms, count)),
    decreases tree, 0int, count,
{
    if count > 0 {
        lemma_arm_parts(trees, tree, arms, count - 1);
        let index = arms[count - 1].tree.index as int;
        assert(arms[count - 1].tree.index < tree);
        lemma_parts(trees, index);
        let a = arm_parts(trees, tree, arms, count - 1);
        let b = parts(trees, index);
        vstd::set_lib::lemma_len_union(a, b);
        let list = arms_of(trees, tree, arms, count);
        assert(list.drop_last() =~= arms_of(trees, tree, arms, count - 1));
        assert(list.last().plan == plan_of(trees, index));
    }
}

proof fn lemma_part_of_arm(trees: Seq<FlowTreeData>, tree: int, arms: Seq<FlowArm>, count: int, i: int, part: usize)
    requires
        0 <= i < count <= arms.len(),
        trees_below(arms, tree),
        parts(trees, arms[i].tree.index as int).contains(part),
    ensures
        arm_parts(trees, tree, arms, count).contains(part),
    decreases count,
{
    assert(arms[i].tree.index < tree);
    if i < count - 1 {
        lemma_part_of_arm(trees, tree, arms, count - 1, i, part);
    }
}

/// The arms written out, each by its tree.
pub open spec fn written_out(trees: Seq<FlowTreeData>, arms: Seq<FlowArm>) -> Seq<PlanArm> {
    Seq::new(
        arms.len(),
        |i: int|
            PlanArm {
                condition: arms[i].condition,
                plan: plan_of(trees, arms[i].tree.index as int),
            },
    )
}

proof fn lemma_arms_of(trees: Seq<FlowTreeData>, tree: int, arms: Seq<FlowArm>, count: int)
    requires
        0 <= count <= arms.len(),
        trees_below(arms, tree),
    ensures
        arms_of(trees, tree, arms, count) == written_out(trees, arms.take(count)),
    decreases count,
{
    if count > 0 {
        lemma_arms_of(trees, tree, arms, count - 1);
    }
    assert(arms_of(trees, tree, arms, count) =~= written_out(trees, arms.take(count)));
}

proof fn lemma_plan(trees: Seq<FlowTreeData>, tree: int)
    requires
        tree_wf(trees, tree),
    ensures
        trees[tree].node matches FlowTreeNode::Decision { predicate, arms } ==> plan_of(trees, tree)
            == Plan::Decision(predicate@, written_out(trees, arms@)),
{
    if let FlowTreeNode::Decision { predicate, arms } = trees[tree].node {
        lemma_arms_of(trees, tree, arms@, arms@.len() as int);
        assert(arms@.take(arms@.len() as int) =~= arms@);
    }
}

/// Adding trees changes no plan.
pub proof fn growth_keeps_plans(a: Seq<FlowTreeData>, b: Seq<FlowTreeData>, tree: int)
    requires
        extends(a, b),
        0 <= tree < a.len(),
        forall|i: int| 0 <= i < a.len() ==> #[trigger] tree_wf(a, i),
    ensures
        plan_of(b, tree) == plan_of(a, tree),
    decreases tree,
{
    assert(a[tree] == b[tree]);
    assert(tree_wf(a, tree));
    assert(tree_wf(b, tree));
    lemma_plan(a, tree);
    lemma_plan(b, tree);
    if let FlowTreeNode::Decision { predicate, arms } = a[tree].node {
        assert forall|i: int| 0 <= i < arms@.len() implies #[trigger] written_out(a, arms@)[i]
            == written_out(b, arms@)[i] by {
            growth_keeps_plans(a, b, arms@[i].tree.index as int);
        }
        assert(written_out(a, arms@) =~= written_out(b, arms@));
    }
}

proof fn lemma_some_can_end(arms: Seq<PlanArm>, flow: ProcedureFlow)
    ensures
        some_can_end(arms, flow) <==> exists|i: int|
            0 <= i < arms.len() && can_end((#[trigger] arms[i]).plan, flow),
    decreases arms.len(),
{
    if arms.len() > 0 {
        let rest = arms.drop_last();
        lemma_some_can_end(rest, flow);
        if some_can_end(rest, flow) {
            let i = choose|i: int| 0 <= i < rest.len() && can_end((#[trigger] rest[i]).plan, flow);
            assert(can_end(arms[i].plan, flow));
        }
        if can_end(arms.last().plan, flow) {
            assert(can_end(arms[arms.len() - 1].plan, flow));
        }
        if exists|i: int| 0 <= i < arms.len() && can_end((#[trigger] arms[i]).plan, flow) {
            let i = choose|i: int| 0 <= i < arms.len() && can_end((#[trigger] arms[i]).plan, flow);
            if i < rest.len() {
                assert(can_end(rest[i].plan, flow));
            }
        }
    }
}

proof fn lemma_arm_shapes(arms: Seq<PlanArm>)
    ensures
        arm_shapes(arms).len() == arms.len(),
        forall|i: int|
            0 <= i < arms.len() ==> #[trigger] arm_shapes(arms)[i] == shape(arms[i].plan),
    decreases arms.len(),
{
    if arms.len() > 0 {
        lemma_arm_shapes(arms.drop_last());
    }
}

proof fn lemma_rewritten_arms(arms: Seq<PlanArm>, on_continue: Plan, on_break: Plan)
    ensures
        rewritten_arms(arms, on_continue, on_break) == Seq::new(
            arms.len(),
            |i: int|
                PlanArm {
                    condition: arms[i].condition,
                    plan: rewritten(arms[i].plan, on_continue, on_break),
                },
        ),
    decreases arms.len(),
{
    if arms.len() > 0 {
        lemma_rewritten_arms(arms.drop_last(), on_continue, on_break);
    }
    assert(rewritten_arms(arms, on_continue, on_break) =~= Seq::new(
        arms.len(),
        |i: int|
            PlanArm {
                condition: arms[i].condition,
                plan: rewritten(arms[i].plan, on_continue, on_break),
            },
    ));
}

/// A plan that never continues is left as it is by what follows.
pub proof fn following_needs_continuing(plan: Plan, next: Plan)
    requires
        !can_end(plan, ProcedureFlow::Continue),
    ensures
        rewritten(plan, next, Plan::Outcome(ProcedureFlow::Break)) == plan,
    decreases plan,
{
    if let Plan::Decision(predicate, arms) = plan {
        let kept = Plan::Outcome(ProcedureFlow::Break);
        lemma_rewritten_arms(arms, next, kept);
        lemma_some_can_end(arms, ProcedureFlow::Continue);
        assert forall|i: int| 0 <= i < arms.len() implies rewritten((#[trigger] arms[i]).plan, next, kept) == arms[i].plan by {
            following_needs_continuing(arms[i].plan, next);
        }
        assert(rewritten_arms(arms, next, kept) =~= arms);
    }
}

/// What follows a plan follows each of its ends that continues: following twice is following once by
/// what was followed.
pub proof fn following_is_associative(plan: Plan, first: Plan, second: Plan)
    ensures
        rewritten(
            rewritten(plan, first, Plan::Outcome(ProcedureFlow::Break)),
            second,
            Plan::Outcome(ProcedureFlow::Break),
        ) == rewritten(
            plan,
            rewritten(first, second, Plan::Outcome(ProcedureFlow::Break)),
            Plan::Outcome(ProcedureFlow::Break),
        ),
    decreases plan,
{
    let kept = Plan::Outcome(ProcedureFlow::Break);
    if let Plan::Decision(predicate, arms) = plan {
        let once = rewritten_arms(arms, first, kept);
        let both = rewritten(first, second, kept);
        lemma_rewritten_arms(arms, first, kept);
        lemma_rewritten_arms(once, second, kept);
        lemma_rewritten_arms(arms, both, kept);
        assert forall|i: int| 0 <= i < arms.len() implies rewritten(rewritten((#[trigger] arms[i]).plan, first, kept), second, kept)
            == rewritten(arms[i].plan, both, kept) by {
            following_is_associative(arms[i].plan, first, second);
        }
        assert(rewritten_arms(once, second, kept) =~= rewritten_arms(arms, both, kept));
    }
}

/// Outside a loop no plan breaks, and it continues where it continued or broke inside.
pub proof fn no_break_leaves_a_loop(plan: Plan, flow: ProcedureFlow)
    ensures
        can_end(
            rewritten(
                plan,
                Plan::Outcome(ProcedureFlow::Continue),
                Plan::Outcome(ProcedureFlow::Continue),
            ),
            flow,
        ) <==> match flow {
            ProcedureFlow::Continue => can_end(plan, ProcedureFlow::Continue) || can_end(
                plan,
                ProcedureFlow::Break,
            ),
            ProcedureFlow::Break => false,
            ProcedureFlow::Return => can_end(plan, ProcedureFlow::Return),
        },
    decreases plan,
{
    let go = Plan::Outcome(ProcedureFlow::Continue);
    if let Plan::Decision(predicate, arms) = plan {
        let out = rewritten_arms(arms, go, go);
        lemma_rewritten_arms(arms, go, go);
        lemma_some_can_end(out, flow);
        lemma_some_can_end(arms, ProcedureFlow::Continue);
        lemma_some_can_end(arms, ProcedureFlow::Break);
        lemma_some_can_end(arms, ProcedureFlow::Return);
        assert forall|i: int| 0 <= i < arms.len() implies (can_end((#[trigger] out[i]).plan, flow) <==> match flow {
            ProcedureFlow::Continue => can_end(arms[i].plan, ProcedureFlow::Continue) || can_end(arms[i].plan, ProcedureFlow::Break),
            ProcedureFlow::Break => false,
            ProcedureFlow::Return => can_end(arms[i].plan, ProcedureFlow::Return),
        }) by {
            no_break_leaves_a_loop(arms[i].plan, flow);
        }
        if some_can_end(out, flow) {
            let i = choose|i: int| 0 <= i < out.len() && can_end((#[trigger] out[i]).plan, flow);
            assert(can_end(arms[i].plan, flow) || can_end(arms[i].plan, ProcedureFlow::Break));
        }
        assert forall|i: int, f: ProcedureFlow| 0 <= i < arms.len() && #[trigger] can_end(arms[i].plan, f) && (match flow {
            ProcedureFlow::Continue => f != ProcedureFlow::Return,
            ProcedureFlow::Break => false,
            ProcedureFlow::Return => f == ProcedureFlow::Return,
        }) implies some_can_end(out, flow) by {
            assert(out[i].plan == rewritten(arms[i].plan, go, go));
            assert(can_end(out[i].plan, flow));
        }
    }
}

impl FlowStore {
    pub open spec fn wf(self) -> bool {
        &&& keys_wf(self.continuations@)
        &&& self.bucketed()
        &&& forall|tree: int|
            0 <= tree < self.trees@.len() ==> #[trigger] tree_wf(self.trees@, tree)
        &&& forall|tree: int| 0 <= tree < self.trees@.len() ==> #[trigger] self.described(tree)
    }

    /// Every shape stands in the bucket of its hash.
    pub open spec fn bucketed(self) -> bool {
        &&& forall|id: int|
            0 <= id < self.continuations@.len() ==> self.buckets@.dom().contains(
                key_hash((#[trigger] self.continuations@[id])@),
            ) && self.buckets@[key_hash(self.continuations@[id]@)]@.contains(id as usize)
        &&& forall|hash: u64, k: int|
            self.buckets@.dom().contains(hash) && 0 <= k < self.buckets@[hash]@.len() ==> (
            #[trigger] self.buckets@[hash]@[k]) < self.continuations@.len()
    }

    /// What is noted about a tree is true of it.
    pub open spec fn described(self, tree: int) -> bool {
        let data = self.trees@[tree];
        let plan = plan_of(self.trees@, tree);
        &&& data.continues == can_end(plan, ProcedureFlow::Continue)
        &&& data.breaks == can_end(plan, ProcedureFlow::Break)
        &&& data.leaves == can_end(plan, ProcedureFlow::Return)
        &&& data.continuation < self.continuations@.len()
        &&& shape_at(self.continuations@, data.continuation as int) == shape(plan)
    }

    pub open spec fn holds(self, tree: FlowTree) -> bool {
        tree.index < self.trees@.len()
    }

    /// The tree written out.
    pub open spec fn plan(self, tree: FlowTree) -> Plan {
        plan_of(self.trees@, tree.index as int)
    }

    /// The conditions of all arms belong to the arena.
    pub open spec fn held_by(self, arena: PathArena) -> bool {
        forall|tree: int| 0 <= tree < self.trees@.len() ==> #[trigger] arms_held(self.trees@[tree], arena)
    }

    /// A store without trees.
    pub fn new() -> (r: Self)
        ensures
            r.wf(),
            r.trees@.len() == 0,
            r.continuations@.len() == 0,
    {
        broadcast use vstd::std_specs::hash::group_hash_axioms;

        FlowStore { trees: Vec::new(), continuations: Vec::new(), buckets: HashMap::new() }
    }

    /// The number of the shape with this key.
    fn intern_continuation(&mut self, key: ContinuationKey) -> (r: usize)
        requires
            old(self).wf(),
            key_wf(key, old(self).continuations@.len() as int),
        ensures
            final(self).wf(),
            final(self).trees@ == old(self).trees@,
            old(self).continuations@.len() <= final(self).continuations@.len(),
            forall|i: int|
                0 <= i < old(self).continuations@.len() ==> #[trigger] final(self).continuations@[i]
                    == old(self).continuations@[i],
            r < final(self).continuations@.len(),
            final(self).continuations@[r as int]@ == key@,
    {
        broadcast use vstd::std_specs::hash::group_hash_axioms;

        let hash: u64 = hash_key(&key);
        let ghost before = *self;
        let mut bucket: Vec<usize> = match self.buckets.remove(&hash) {
            Some(bucket) => bucket,
            None => Vec::new(),
        };
        let ghost found = bucket@;
        proof {
            assert(forall|k: int| 0 <= k < found.len() ==> #[trigger] found[k] < before.continuations@.len());
        }
        let mut i: usize = 0;
        let mut hit: Option<usize> = None;
        while i < bucket.len() && hit.is_none()
            invariant
                i <= bucket@.len(),
                bucket@ == found,
                self.continuations@ == before.continuations@,
                forall|k: int| 0 <= k < found.len() ==> #[trigger] found[k] < before.continuations@.len(),
                match hit {
                    Some(id) => id < self.continuations@.len() && self.continuations@[id as int]@ == key@,
                    None => forall|k: int| 0 <= k < i ==> self.continuations@[(#[trigger] found[k]) as int]@ != key@,
                },
            decreases bucket@.len() - i,
        {
            if same_key(&self.continuations[bucket[i]], &key) {
                hit = Some(bucket[i]);
            }
            i = i + 1;
        }
        match hit {
            Some(id) => {
                self.buckets.insert(hash, bucket);
                proof {
                    assert(self.buckets@[hash]@ == found);
                    if !before.buckets@.dom().contains(hash) {
                        assert(before.buckets@.dom().contains(key_hash(before.continuations@[id as int]@)));
                    }
                    assert(self.buckets@ =~= before.buckets@.insert(hash, self.buckets@[hash]));
                    assert(self.bucketed());
                    self.lemma_kept(before);
                }
                id
            },
            None => {
                let id: usize = self.continuations.len();
                bucket.push(id);
                self.buckets.insert(hash, bucket);
                let ghost view = key@;
                let ghost entry = key;
                self.continuations.push(key);
                proof {
                    assert(self.buckets@[hash]@ == found.push(id));
                    assert(self.buckets@ =~= before.buckets@.insert(hash, self.buckets@[hash]));
                    assert(self.continuations@ == before.continuations@.push(entry));
                    assert forall|a: int| 0 <= a < id implies (#[trigger] before.continuations@[a])@ != view by {
                        if before.continuations@[a]@ == view {
                            assert(before.buckets@.dom().contains(hash));
                            assert(found.contains(a as usize));
                            let k = choose|k: int| 0 <= k < found.len() && found[k] == a as usize;
                            assert(self.continuations@[found[k] as int]@ != view);
                        }
                    }
                    assert forall|a: int| 0 <= a < self.continuations@.len() implies #[trigger] key_wf(self.continuations@[a], a) by {
                        if a < id {
                            assert(key_wf(before.continuations@[a], a));
                        }
                    }
                    assert(keys_wf(self.continuations@));
                    assert forall|a: int| 0 <= a < self.continuations@.len() implies self.buckets@.dom().contains(key_hash((#[trigger] self.continuations@[a])@))
                        && self.buckets@[key_hash(self.continuations@[a]@)]@.contains(a as usize) by {
                        if a < id {
                            let h = key_hash(before.continuations@[a]@);
                            assert(before.buckets@[h]@.contains(a as usize));
                            if h == hash {
                                let k = choose|k: int| 0 <= k < found.len() && found[k] == a as usize;
                                assert(self.buckets@[hash]@[k] == a as usize);
                            }
                        } else {
                            assert(self.buckets@[hash]@[found.len() as int] == id);
                        }
                    }
                    assert forall|h: u64, k: int| self.buckets@.dom().contains(h) && 0 <= k < self.buckets@[h]@.len() implies (#[trigger] self.buckets@[h]@[k]) < self.continuations@.len() by {
                        if h == hash {
                            if k < found.len() {
                                assert(found[k] < before.continuations@.len());
                            }
                        } else {
                            assert(before.buckets@[h]@[k] < before.continuations@.len());
                        }
                    }
                    assert(self.bucketed());
                    self.lemma_kept(before);
                }
                id
            },
        }
    }

    proof fn lemma_kept(self, before: Self)
        requires
            before.wf(),
            keys_wf(self.continuations@),
            self.bucketed(),
            self.trees@ == before.trees@,
            before.continuations@.len() <= self.continuations@.len(),
            forall|i: int|
                0 <= i < before.continuations@.len() ==> #[trigger] self.continuations@[i]
                    == before.continuations@[i],
        ensures
            self.wf(),
    {
        assert forall|tree: int| 0 <= tree < self.trees@.len() implies #[trigger] self.described(tree) by {
            assert(before.described(tree));
            lemma_shape_kept(before.continuations@, self.continuations@, before.trees@[tree].continuation as int);
        }
    }

    fn push_tree(&mut self, data: FlowTreeData) -> (r: FlowTree)
        requires
            old(self).wf(),
            tree_wf(old(self).trees@.push(data), old(self).trees@.len() as int),
            ({
                let plan = plan_of(old(self).trees@.push(data), old(self).trees@.len() as int);
                &&& data.continues == can_end(plan, ProcedureFlow::Continue)
                &&& data.breaks == can_end(plan, ProcedureFlow::Break)
                &&& data.leaves == can_end(plan, ProcedureFlow::Return)
                &&& data.continuation < old(self).continuations@.len()
                &&& shape_at(old(self).continuations@, data.continuation as int) == shape(plan)
            }),
        ensures
            final(self).wf(),
            final(self).trees@ == old(self).trees@.push(data),
            final(self).continuations@ == old(self).continuations@,
            r.index == old(self).trees@.len(),
    {
        let ghost before = *self;
        let tree = FlowTree { index: self.trees.len() };
        self.trees.push(data);
        proof {
            assert forall|t: int| 0 <= t < self.trees@.len() implies #[trigger] tree_wf(self.trees@, t) by {
                if t < before.trees@.len() {
                    assert(tree_wf(before.trees@, t));
                    assert(self.trees@[t] == before.trees@[t]);
                }
            }
            assert forall|t: int| 0 <= t < self.trees@.len() implies #[trigger] self.described(t) by {
                if t < before.trees@.len() {
                    assert(before.described(t));
                    growth_keeps_plans(before.trees@, self.trees@, t);
                }
            }
        }
        tree
    }

    /// A tree that ends in one way.
    pub fn outcome(&mut self, flow: ProcedureFlow) -> (r: FlowTree)
        requires
            old(self).wf(),
        ensures
            final(self).wf(),
            extends(old(self).trees@, final(self).trees@),
            final(self).trees@.len() == old(self).trees@.len() + 1,
            final(self).holds(r),
            final(self).plan(r) == Plan::Outcome(flow),
            forall|arena: PathArena| old(self).held_by(arena) ==> #[trigger] final(self).held_by(arena),
    {
        let ghost before = *self;
        let continues: bool = flow == ProcedureFlow::Continue;
        let continuation: usize = self.intern_continuation(ContinuationKey::Outcome(continues));
        proof {
            assert(self.continuations@[continuation as int]@ == KeyView::Outcome(continues));
        }
        let data = FlowTreeData {
            node: FlowTreeNode::Outcome(flow),
            continuation,
            continues,
            breaks: flow == ProcedureFlow::Break,
            leaves: flow == ProcedureFlow::Return,
        };
        let r = self.push_tree(data);
        proof {
            assert forall|arena: PathArena| before.held_by(arena) implies #[trigger] self.held_by(arena) by {
                assert forall|t: int| 0 <= t < self.trees@.len() implies #[trigger] arms_held(self.trees@[t], arena) by {
                    if t < before.trees@.len() {
                        assert(arms_held(before.trees@[t], arena));
                    }
                }
            }
        }
        r
    }

    /// A tree that decides between arms.
    pub fn decision(&mut self, predicate: FlowPredicate, arms: Vec<FlowArm>) -> (r: FlowTree)
        requires
            old(self).wf(),
            arms@.len() > 0,
            forall|i: int| 0 <= i < arms@.len() ==> old(self).holds((#[trigger] arms@[i]).tree),
        ensures
            final(self).wf(),
            extends(old(self).trees@, final(self).trees@),
            final(self).trees@.len() == old(self).trees@.len() + 1,
            final(self).holds(r),
            final(self).plan(r) == Plan::Decision(predicate@, written_out(old(self).trees@, arms@)),
            forall|arena: PathArena|
                old(self).held_by(arena) && (forall|i: int|
                    0 <= i < arms@.len() ==> arena.holds((#[trigger] arms@[i]).condition))
                    ==> #[trigger] final(self).held_by(arena),
    {
        let ghost before = *self;
        let ghost plans = written_out(self.trees@, arms@);
        let mut continues: bool = false;
        let mut breaks: bool = false;
        let mut leaves: bool = false;
        let mut shapes: Vec<usize> = Vec::new();
        let mut same: bool = true;
        let mut i: usize = 0;
        while i < arms.len()
            invariant
                i <= arms@.len(),
                *self == before,
                self.wf(),
                plans == written_out(self.trees@, arms@),
                forall|k: int| 0 <= k < arms@.len() ==> self.holds((#[trigger] arms@[k]).tree),
                continues == exists|k: int| 0 <= k < i && can_end((#[trigger] plans[k]).plan, ProcedureFlow::Continue),
                breaks == exists|k: int| 0 <= k < i && can_end((#[trigger] plans[k]).plan, ProcedureFlow::Break),
                leaves == exists|k: int| 0 <= k < i && can_end((#[trigger] plans[k]).plan, ProcedureFlow::Return),
                shapes@.len() == i,
                forall|k: int| 0 <= k < i ==> #[trigger] shapes@[k] == self.trees@[arms@[k].tree.index as int].continuation,
                same == forall|k: int| 0 <= k < i ==> #[trigger] shapes@[k] == shapes@[0],
            decreases arms@.len() - i,
        {
            let data = &self.trees[arms[i].tree.index];
            proof {
                assert(self.described(arms@[i as int].tree.index as int));
                assert(plans[i as int].plan == plan_of(self.trees@, arms@[i as int].tree.index as int));
            }
            let ghost shapes0 = shapes@;
            let ghost (c0, b0, r0) = (continues, breaks, leaves);
            continues = continues || data.continues;
            breaks = breaks || data.breaks;
            leaves = leaves || data.leaves;
            shapes.push(data.continuation);
            same = same && shapes[i] == shapes[0];
            proof {
                if same {
                    assert forall|k: int| 0 <= k < i + 1 implies #[trigger] shapes@[k] == shapes@[0] by {
                        if k < i {
                            assert(shapes0[k] == shapes0[0]);
                        }
                    }
                } else {
                    if shapes@[i as int] == shapes@[0] {
                        let k = choose|k: int| 0 <= k < i && #[trigger] shapes0[k] != shapes0[0];
                        assert(shapes@[k] != shapes@[0]);
                    }
                }
                if c0 {
                    let k = choose|k: int| 0 <= k < i && can_end((#[trigger] plans[k]).plan, ProcedureFlow::Continue);
                    assert(0 <= k < i + 1 && can_end(plans[k].plan, ProcedureFlow::Continue));
                }
                if b0 {
                    let k = choose|k: int| 0 <= k < i && can_end((#[trigger] plans[k]).plan, ProcedureFlow::Break);
                    assert(0 <= k < i + 1 && can_end(plans[k].plan, ProcedureFlow::Break));
                }
                if r0 {
                    let k = choose|k: int| 0 <= k < i && can_end((#[trigger] plans[k]).plan, ProcedureFlow::Return);
                    assert(0 <= k < i + 1 && can_end(plans[k].plan, ProcedureFlow::Return));
                }
            }
            i = i + 1;
        }
        let ghost shape_ids = shapes@;
        proof {
            lemma_some_can_end(plans, ProcedureFlow::Continue);
            lemma_some_can_end(plans, ProcedureFlow::Break);
            lemma_some_can_end(plans, ProcedureFlow::Return);
            lemma_arm_shapes(plans);
            assert forall|k: int| 0 <= k < shape_ids.len() implies (#[trigger] shape_ids[k]) < self.continuations@.len()
                && shape_at(self.continuations@, shape_ids[k] as int) == arm_shapes(plans)[k] by {
                assert(self.described(arms@[k].tree.index as int));
            }
        }
        let continuation: usize = if same {
            proof {
                assert forall|k: int| 0 <= k < plans.len() implies #[trigger] arm_shapes(plans)[k] == arm_shapes(plans)[0] by {
                    assert(shape_ids[k] == shape_ids[0]);
                }
                assert(all_same(arm_shapes(plans)));
            }
            shapes[0]
        } else {
            proof {
                let k = choose|k: int| 0 <= k < shape_ids.len() && #[trigger] shape_ids[k] != shape_ids[0];
                if all_same(arm_shapes(plans)) {
                    assert(arm_shapes(plans)[k] == arm_shapes(plans)[0]);
                    lemma_shape_is_once(self.continuations@, shape_ids[k] as int, shape_ids[0] as int);
                }
            }
            let key = ContinuationKey::Decision { predicate: predicate.copy(), arms: shapes };
            assert(key_wf(key, self.continuations@.len() as int));
            let id: usize = self.intern_continuation(key);
            proof {
                assert(self.continuations@[id as int]@ == KeyView::Decision(predicate@, shape_ids));
                assert(key_wf(self.continuations@[id as int], id as int));
                lemma_shapes_at(self.continuations@, id as int, shape_ids, shape_ids.len() as int);
                let list = shapes_at(self.continuations@, id as int, shape_ids, shape_ids.len() as int);
                assert forall|k: int| 0 <= k < list.len() implies #[trigger] list[k] == arm_shapes(plans)[k] by {
                    assert(shape_ids[k] < before.continuations@.len());
                    lemma_shape_kept(before.continuations@, self.continuations@, shape_ids[k] as int);
                }
                assert(list =~= arm_shapes(plans));
            }
            id
        };
        let ghost listed = arms@;
        let ghost view = predicate@;
        let data = FlowTreeData {
            node: FlowTreeNode::Decision { predicate, arms },
            continuation,
            continues,
            breaks,
            leaves,
        };
        proof {
            let after = self.trees@.push(data);
            let t = self.trees@.len() as int;
            assert(tree_wf(after, t));
            lemma_plan(after, t);
            assert forall|k: int| 0 <= k < listed.len() implies #[trigger] written_out(after, listed)[k] == plans[k] by {
                assert(before.holds(listed[k].tree));
                growth_keeps_plans(before.trees@, after, listed[k].tree.index as int);
            }
            assert(written_out(after, listed) =~= plans);
            assert(plan_of(after, t) == Plan::Decision(view, plans));
        }
        let r = self.push_tree(data);
        proof {
            assert forall|arena: PathArena| before.held_by(arena) && (forall|k: int| 0 <= k < listed.len() ==> arena.holds((#[trigger] listed[k]).condition)) implies #[trigger] self.held_by(arena) by {
                assert forall|t: int| 0 <= t < self.trees@.len() implies #[trigger] arms_held(self.trees@[t], arena) by {
                    if t < before.trees@.len() {
                        assert(arms_held(before.trees@[t], arena));
                    }
                }
            }
        }
        r
    }

    /// Whether the tree may end with `flow`.
    pub fn contains(&self, tree: FlowTree, flow: ProcedureFlow) -> (r: bool)
        requires
            self.wf(),
            self.holds(tree),
        ensures
            r == can_end(self.plan(tree), flow),
    {
        proof {
            assert(self.described(tree.index as int));
        }
        match flow {
            ProcedureFlow::Continue => self.trees[tree.index].continues,
            ProcedureFlow::Break => self.trees[tree.index].breaks,
            ProcedureFlow::Return => self.trees[tree.index].leaves,
        }
    }

    /// The way in which the tree ends that counts for what follows.
    pub fn aggregate(&self, tree: FlowTree) -> (r: ProcedureFlow)
        requires
            self.wf(),
            self.holds(tree),
        ensures
            r == aggregated(self.plan(tree)),
    {
        if self.contains(tree, ProcedureFlow::Continue) {
            ProcedureFlow::Continue
        } else if self.contains(tree, ProcedureFlow::Break) {
            ProcedureFlow::Break
        } else {
            ProcedureFlow::Return
        }
    }

    /// Whether the two trees continue in the same cases.
    pub fn same_continuation(&self, a: FlowTree, b: FlowTree) -> (r: bool)
        requires
            self.wf(),
            self.holds(a),
            self.holds(b),
        ensures
            r == (shape(self.plan(a)) == shape(self.plan(b))),
    {
        proof {
            assert(self.described(a.index as int));
            assert(self.described(b.index as int));
            if shape(self.plan(a)) == shape(self.plan(b)) {
                lemma_shape_is_once(self.continuations@, self.trees@[a.index as int].continuation as int, self.trees@[b.index as int].continuation as int);
            }
        }
        self.trees[a.index].continuation == self.trees[b.index].continuation
    }
}

/// Continuing counts before breaking, and breaking before returning.
pub open spec fn aggregated(plan: Plan) -> ProcedureFlow {
    if can_end(plan, ProcedureFlow::Continue) {
        ProcedureFlow::Continue
    } else if can_end(plan, ProcedureFlow::Break) {
        ProcedureFlow::Break
    } else {
        ProcedureFlow::Return
    }
}

/// The conditions of the arms belong to the arena.
pub open spec fn arms_held(data: FlowTreeData, arena: PathArena) -> bool {
    data.node matches FlowTreeNode::Decision { predicate, arms } ==> conditions_held(arms@, arena)
}

pub open spec fn conditions_held(arms: Seq<FlowArm>, arena: PathArena) -> bool {
    forall|i: int| 0 <= i < arms.len() ==> arena.holds((#[trigger] arms[i]).condition)
}

/// A tree still to be rewritten; `expanded` once its arms are on the way.
struct Work {
    tree: usize,
    expanded: bool,
}

/// What it takes to rewrite a tree.
spec fn weight(trees: Seq<FlowTreeData>, tree: int) -> nat
    decreases tree, 1int, 0int,
{
    match trees[tree].node {
        FlowTreeNode::Outcome(_) => 1,
        FlowTreeNode::Decision { predicate, arms } => 2 + arm_weights(
            trees,
            tree,
            arms@,
            arms@.len() as int,
        ),
    }
}

spec fn arm_weights(trees: Seq<FlowTreeData>, tree: int, arms: Seq<FlowArm>, count: int) -> nat
    decreases tree, 0int, count,
{
    if count <= 0 {
        0
    } else {
        arm_weights(trees, tree, arms, count - 1) + if arms[count - 1].tree.index < tree {
            weight(trees, arms[count - 1].tree.index as int)
        } else {
            0
        }
    }
}

spec fn work_left(trees: Seq<FlowTreeData>, work: Seq<Work>) -> nat
    decreases work.len(),
{
    if work.len() == 0 {
        0
    } else {
        work_left(trees, work.drop_last()) + if work.last().expanded {
            1
        } else {
            weight(trees, work.last().tree as int)
        }
    }
}

proof fn lemma_work_push(trees: Seq<FlowTreeData>, work: Seq<Work>, more: Work)
    ensures
        work_left(trees, work.push(more)) == work_left(trees, work) + if more.expanded {
            1
        } else {
            weight(trees, more.tree as int)
        },
{
    assert(work.push(more).drop_last() =~= work);
}

proof fn lemma_weight_positive(trees: Seq<FlowTreeData>, tree: int)
    ensures
        weight(trees, tree) > 0,
{
}

/// The tree is rewritten, or stands in the list at `from` or behind it.
spec fn awaited(work: Seq<Work>, done: Map<usize, usize>, from: int, tree: usize) -> bool {
    done.dom().contains(tree) || exists|q: int| from <= q < work.len() && (#[trigger] work[q]).tree == tree
}

/// The arms of an expanded tree are all awaited.
spec fn arms_awaited(trees: Seq<FlowTreeData>, work: Seq<Work>, done: Map<usize, usize>, p: int) -> bool {
    work[p].expanded ==> match trees[work[p].tree as int].node {
        FlowTreeNode::Decision { predicate, arms } => forall|i: int|
            0 <= i < arms@.len() ==> awaited(work, done, p + 1, (#[trigger] arms@[i]).tree.index),
        FlowTreeNode::Outcome(_) => false,
    }
}

/// What is rewritten so far is rewritten right.
spec fn done_right(
    before: Seq<FlowTreeData>,
    now: Seq<FlowTreeData>,
    done: Map<usize, usize>,
    on_continue: Plan,
    on_break: Plan,
) -> bool {
    forall|tree: usize| #[trigger]
        done.dom().contains(tree) ==> tree < before.len() && done[tree] < now.len() && plan_of(
            now,
            done[tree] as int,
        ) == rewritten(plan_of(before, tree as int), on_continue, on_break)
}

proof fn lemma_done_kept(
    before: Seq<FlowTreeData>,
    now: Seq<FlowTreeData>,
    later: Seq<FlowTreeData>,
    done: Map<usize, usize>,
    on_continue: Plan,
    on_break: Plan,
)
    requires
        done_right(before, now, done, on_continue, on_break),
        extends(now, later),
        forall|i: int| 0 <= i < now.len() ==> #[trigger] tree_wf(now, i),
    ensures
        done_right(before, later, done, on_continue, on_break),
{
    assert forall|tree: usize| #[trigger] done.dom().contains(tree) implies tree < before.len() && done[tree] < later.len()
        && plan_of(later, done[tree] as int) == rewritten(plan_of(before, tree as int), on_continue, on_break) by {
        growth_keeps_plans(now, later, done[tree] as int);
    }
}

/// The conditions of the arms are kept, and the trees are those that `done` gives.
spec fn arms_renamed(arms: Seq<FlowArm>, done: Map<usize, usize>, count: int) -> Seq<FlowArm> {
    Seq::new(
        count as nat,
        |i: int|
            FlowArm {
                condition: arms[i].condition,
                tree: FlowTree { index: done[arms[i].tree.index] },
            },
    )
}

impl FlowStore {
    /// Rewrites a tree: `on_continue` takes the place of each end that continues and, where it is
    /// given, `on_break` that of each end that breaks.
    ///
    /// What is still to be done stands in a list, so that a long plan takes no call depth.
    fn rewrite(&mut self, tree: FlowTree, on_continue: FlowTree, on_break: Option<FlowTree>) -> (r:
        FlowTree)
        requires
            old(self).wf(),
            old(self).holds(tree),
            old(self).holds(on_continue),
            on_break matches Some(b) ==> old(self).holds(b),
        ensures
            final(self).wf(),
            extends(old(self).trees@, final(self).trees@),
            final(self).holds(r),
            final(self).plan(r) == rewritten(
                old(self).plan(tree),
                old(self).plan(on_continue),
                match on_break {
                    Some(b) => old(self).plan(b),
                    None => Plan::Outcome(ProcedureFlow::Break),
                },
            ),
            final(self).trees@.len() <= old(self).trees@.len() + decisions_in(old(self).plan(tree)),
            forall|arena: PathArena| old(self).held_by(arena) ==> #[trigger] final(self).held_by(arena),
    {
        broadcast use vstd::std_specs::hash::group_hash_axioms;

        let ghost before = *self;
        let ghost first = self.trees@;
        let ghost go = self.plan(on_continue);
        let ghost stop = match on_break {
            Some(b) => self.plan(b),
            None => Plan::Outcome(ProcedureFlow::Break),
        };
        let mut done: HashMap<usize, usize> = HashMap::new();
        let mut work: Vec<Work> = Vec::new();
        work.push(Work { tree: tree.index, expanded: false });
        let ghost all = parts(first, tree.index as int);
        let ghost mut made: Set<usize> = Set::empty();
        proof {
            assert(work@[0].tree == tree.index);
            assert(self.trees@.len() == self.trees.len());
            lemma_parts(first, tree.index as int);
        }
        while work.len() > 0
            invariant
                before.wf(),
                first == before.trees@,
                self.wf(),
                extends(first, self.trees@),
                tree.index < first.len(),
                on_continue.index < first.len(),
                go == plan_of(first, on_continue.index as int),
                match on_break {
                    Some(b) => b.index < first.len() && stop == plan_of(first, b.index as int),
                    None => stop == Plan::Outcome(ProcedureFlow::Break),
                },
                done_right(first, self.trees@, done@, go, stop),
                forall|p: int| 0 <= p < work@.len() ==> (#[trigger] work@[p]).tree < first.len(),
                forall|p: int| 0 <= p < work@.len() ==> #[trigger] arms_awaited(first, work@, done@, p),
                awaited(work@, done@, 0, tree.index),
                all == parts(first, tree.index as int),
                all.finite(),
                forall|p: int, part: usize| 0 <= p < work@.len() && #[trigger] parts(first, work@[p].tree as int).contains(part) ==> all.contains(part),
                made.subset_of(all),
                forall|t: usize| #[trigger] made.contains(t) ==> done@.dom().contains(t),
                self.trees@.len() == first.len() + made.len(),
                made.finite(),
                forall|arena: PathArena| before.held_by(arena) ==> #[trigger] self.held_by(arena),
            decreases work_left(first, work@),
        {
            let ghost work0 = work@;
            let ghost done0 = done@;
            let ghost now = self.trees@;
            let item = work.pop().unwrap();
            let current: usize = item.tree;
            let ghost rest = work@;
            proof {
                assert(rest =~= work0.drop_last());
                lemma_weight_positive(first, current as int);
                assert(work0[work0.len() - 1].tree == current);
                assert(first[current as int] == self.trees@[current as int]);
                assert(tree_wf(first, current as int));
                lemma_plan(first, current as int);
                assert(arms_awaited(first, work0, done0, work0.len() - 1));
            }
            if done.contains_key(&current) {
                proof {
                    self.lemma_pop(first, work0, done0, done@, current, tree.index);
                }
                continue;
            }
            let mut leaf: Option<usize> = None;
            let mut open: bool = false;
            match &self.trees[current].node {
                FlowTreeNode::Outcome(ProcedureFlow::Continue) => {
                    leaf = Some(on_continue.index);
                },
                FlowTreeNode::Outcome(ProcedureFlow::Break) => {
                    leaf = match on_break {
                        Some(b) => Some(b.index),
                        None => Some(current),
                    };
                },
                FlowTreeNode::Outcome(ProcedureFlow::Return) => {
                    leaf = Some(current);
                },
                FlowTreeNode::Decision { predicate, arms } => {
                    if !item.expanded {
                        open = true;
                        work.push(Work { tree: current, expanded: true });
                        proof {
                            lemma_work_push(first, rest, work@.last());
                            assert(work@ =~= rest.push(work@.last()));
                        }
                        let ghost listed = arms@;
                        proof {
                            assert forall|part: usize| #[trigger] parts(first, current as int).contains(part) implies all.contains(part) by {
                                assert(parts(first, work0[work0.len() - 1].tree as int).contains(part));
                            }
                            assert forall|p: int, part: usize| 0 <= p < work@.len() && #[trigger] parts(first, work@[p].tree as int).contains(part) implies all.contains(part) by {
                                assert(parts(first, work0[p].tree as int).contains(part));
                            }
                        }
                        let mut i: usize = arms.len();
                        assert(arm_weights(first, current as int, listed, i as int) >= 0);
                        while i > 0
                            invariant
                                i <= arms@.len(),
                                listed == arms@,
                                current < first.len(),
                                trees_below(listed, current as int),
                                done@ == done0,
                                rest.len() < work@.len(),
                                forall|p: int| 0 <= p < rest.len() ==> #[trigger] work@[p] == rest[p],
                                work@[rest.len() as int].tree == current,
                                work@[rest.len() as int].expanded,
                                forall|p: int| rest.len() < p < work@.len() ==> !(#[trigger] work@[p]).expanded && work@[p].tree < first.len(),
                                listed == first[current as int].node->arms@ && first[current as int].node is Decision,
                                forall|part: usize| #[trigger] parts(first, current as int).contains(part) ==> all.contains(part),
                                forall|p: int, part: usize| 0 <= p < work@.len() && #[trigger] parts(first, work@[p].tree as int).contains(part) ==> all.contains(part),
                                forall|k: int| i <= k < listed.len() ==> awaited(work@, done0, rest.len() as int + 1, (#[trigger] listed[k]).tree.index),
                                work_left(first, work@) + arm_weights(first, current as int, listed, i as int) <= work_left(first, rest) + 1
                                    + arm_weights(first, current as int, listed, listed.len() as int),
                            decreases i,
                        {
                            i = i - 1;
                            let child: usize = arms[i].tree.index;
                            let ghost work1 = work@;
                            assert(listed[i as int].tree.index < current);
                            if !done.contains_key(&child) {
                                work.push(Work { tree: child, expanded: false });
                                proof {
                                    lemma_work_push(first, work1, work@.last());
                                    assert(work@ =~= work1.push(work@.last()));
                                    assert(work@[work1.len() as int].tree == child);
                                    assert forall|p: int, part: usize| 0 <= p < work@.len() && #[trigger] parts(first, work@[p].tree as int).contains(part) implies all.contains(part) by {
                                        if p < work1.len() {
                                            assert(parts(first, work1[p].tree as int).contains(part));
                                        } else {
                                            lemma_part_of_arm(first, current as int, listed, listed.len() as int, i as int, part);
                                            assert(parts(first, current as int).contains(part));
                                        }
                                    }
                                }
                            }
                            proof {
                                assert forall|k: int| i <= k < listed.len() implies awaited(work@, done0, rest.len() as int + 1, (#[trigger] listed[k]).tree.index) by {
                                    if k > i {
                                        let t = listed[k].tree.index;
                                        assert(awaited(work1, done0, rest.len() as int + 1, t));
                                        if !done0.dom().contains(t) {
                                            let q = choose|q: int| rest.len() + 1 <= q < work1.len() && (#[trigger] work1[q]).tree == t;
                                            assert(work@[q].tree == t);
                                        }
                                    }
                                }
                            }
                        }
                        proof {
                            assert forall|p: int| 0 <= p < work@.len() implies #[trigger] arms_awaited(first, work@, done@, p) by {
                                if p < rest.len() {
                                    lemma_awaited_grows(first, work0, work@, done0, p);
                                }
                            }
                            if !done0.dom().contains(tree.index) {
                                let q = choose|q: int| 0 <= q < work0.len() && (#[trigger] work0[q]).tree == tree.index;
                                assert(work@[q].tree == tree.index);
                            }
                        }
                    }
                },
            }
            if open {
                continue;
            }
            let image: usize = match leaf {
                Some(image) => {
                    proof {
                        if on_continue.index == image {
                            growth_keeps_plans(first, self.trees@, image as int);
                        }
                        growth_keeps_plans(first, self.trees@, image as int);
                    }
                    image
                },
                None => {
                    let mut arms: Vec<FlowArm> = Vec::new();
                    let mut predicate = FlowPredicate { identity: 0, controls: Vec::new() };
                    if let FlowTreeNode::Decision { predicate: decided, arms: old_arms } = &self.trees[current].node {
                        predicate = decided.copy();
                        let mut i: usize = 0;
                        while i < old_arms.len()
                            invariant
                                i <= old_arms@.len(),
                                done@ == done0,
                                forall|k: int| 0 <= k < old_arms@.len() ==> done0.dom().contains((#[trigger] old_arms@[k]).tree.index),
                                arms@ == arms_renamed(old_arms@, done0, i as int),
                            decreases old_arms@.len() - i,
                        {
                            let arm = old_arms[i];
                            assert(done0.dom().contains(old_arms@[i as int].tree.index));
                            let index: usize = *done.get(&arm.tree.index).unwrap();
                            arms.push(FlowArm { condition: arm.condition, tree: FlowTree { index } });
                            i = i + 1;
                            assert(arms@ =~= arms_renamed(old_arms@, done0, i as int));
                        }
                    }
                    let ghost listed = arms@;
                    let ghost view = predicate@;
                    proof {
                        let old_arms = self.trees@[current as int].node->arms@;
                        assert forall|k: int| 0 <= k < listed.len() implies self.holds((#[trigger] listed[k]).tree) by {
                            assert(done0.dom().contains(old_arms[k].tree.index));
                        }
                    }
                    let r = self.decision(predicate, arms);
                    proof {
                        assert(parts(first, work0[work0.len() - 1].tree as int).contains(current));
                        assert(!made.contains(current));
                        made = made.insert(current);
                        let old_arms = first[current as int].node->arms@;
                        let plans = written_out(first, old_arms);
                        lemma_rewritten_arms(plans, go, stop);
                        assert forall|k: int| 0 <= k < listed.len() implies #[trigger] written_out(now, listed)[k] == rewritten_arms(plans, go, stop)[k] by {
                            assert(done0.dom().contains(old_arms[k].tree.index));
                        }
                        assert(written_out(now, listed) =~= rewritten_arms(plans, go, stop));
                        lemma_done_kept(first, now, self.trees@, done0, go, stop);
                        assert forall|arena: PathArena| before.held_by(arena) implies #[trigger] self.held_by(arena) by {
                            assert(arms_held(before.trees@[current as int], arena));
                            assert forall|k: int| 0 <= k < listed.len() implies arena.holds((#[trigger] listed[k]).condition) by {
                                assert(arena.holds(old_arms[k].condition));
                            }
                        }
                    }
                    r.index
                },
            };
            done.insert(current, image);
            proof {
                assert(done_right(first, self.trees@, done@, go, stop));
                self.lemma_pop(first, work0, done0, done@, current, tree.index);
            }
        }
        proof {
            assert(done@.dom().contains(tree.index));
            vstd::set_lib::lemma_len_subset(made, all);
        }
        FlowTree { index: *done.get(&tree.index).unwrap() }
    }

    /// The last entry of the list is rewritten.
    proof fn lemma_pop(self, first: Seq<FlowTreeData>, work: Seq<Work>, done: Map<usize, usize>, after: Map<usize, usize>, current: usize, tree: usize)
        requires
            work.len() > 0,
            work.last().tree == current,
            after.dom().contains(current),
            forall|t: usize| #[trigger] done.dom().contains(t) ==> after.dom().contains(t),
            forall|p: int| 0 <= p < work.len() ==> #[trigger] arms_awaited(first, work, done, p),
            awaited(work, done, 0, tree),
        ensures
            forall|p: int| 0 <= p < work.len() - 1 ==> #[trigger] arms_awaited(first, work.drop_last(), after, p),
            awaited(work.drop_last(), after, 0, tree),
    {
        let rest = work.drop_last();
        assert forall|p: int| 0 <= p < work.len() - 1 implies #[trigger] arms_awaited(first, rest, after, p) by {
            assert(arms_awaited(first, work, done, p));
            assert(rest[p] == work[p]);
            if work[p].expanded {
                let arms = first[work[p].tree as int].node->arms@;
                assert forall|i: int| 0 <= i < arms.len() implies awaited(rest, after, p + 1, (#[trigger] arms[i]).tree.index) by {
                    let t = arms[i].tree.index;
                    assert(awaited(work, done, p + 1, t));
                    if !after.dom().contains(t) {
                        let q = choose|q: int| p + 1 <= q < work.len() && (#[trigger] work[q]).tree == t;
                        assert(q < work.len() - 1);
                        assert(rest[q].tree == t);
                    }
                }
            }
        }
        if !after.dom().contains(tree) {
            let q = choose|q: int| 0 <= q < work.len() && (#[trigger] work[q]).tree == tree;
            assert(rest[q].tree == tree);
        }
    }

    /// The tree with `next` in place of each end that continues.
    ///
    /// A block applies this from its last statement to its first, so that each call walks the plan
    /// of one statement only.
    pub fn bind(&mut self, tree: FlowTree, next: FlowTree) -> (r: FlowTree)
        requires
            old(self).wf(),
            old(self).holds(tree),
            old(self).holds(next),
        ensures
            final(self).wf(),
            extends(old(self).trees@, final(self).trees@),
            final(self).holds(r),
            final(self).plan(r) == rewritten(
                old(self).plan(tree),
                old(self).plan(next),
                Plan::Outcome(ProcedureFlow::Break),
            ),
            final(self).trees@.len() <= old(self).trees@.len() + decisions_in(old(self).plan(tree)),
            !can_end(old(self).plan(tree), ProcedureFlow::Continue) ==> r == tree && *final(self) == *old(self),
            forall|arena: PathArena| old(self).held_by(arena) ==> #[trigger] final(self).held_by(arena),
    {
        if !self.contains(tree, ProcedureFlow::Continue) {
            proof {
                following_needs_continuing(self.plan(tree), self.plan(next));
            }
            return tree;
        }
        self.rewrite(tree, next, None)
    }

    /// The tree as it looks outside a loop: to break is to continue there.
    pub fn leave_loop(&mut self, tree: FlowTree) -> (r: FlowTree)
        requires
            old(self).wf(),
            old(self).holds(tree),
        ensures
            final(self).wf(),
            extends(old(self).trees@, final(self).trees@),
            final(self).holds(r),
            final(self).plan(r) == rewritten(
                old(self).plan(tree),
                Plan::Outcome(ProcedureFlow::Continue),
                Plan::Outcome(ProcedureFlow::Continue),
            ),
            final(self).trees@.len() <= old(self).trees@.len() + 1 + decisions_in(old(self).plan(tree)),
            forall|arena: PathArena| old(self).held_by(arena) ==> #[trigger] final(self).held_by(arena),
    {
        let ghost before = *self;
        let outside = self.outcome(ProcedureFlow::Continue);
        let ghost middle = *self;
        proof {
            growth_keeps_plans(before.trees@, self.trees@, tree.index as int);
        }
        let r = self.rewrite(tree, outside, Some(outside));
        proof {
            assert forall|i: int| 0 <= i < before.trees@.len() implies #[trigger] before.trees@[i] == self.trees@[i] by {
                assert(before.trees@[i] == middle.trees@[i]);
            }
        }
        r
    }
}

proof fn lemma_awaited_grows(first: Seq<FlowTreeData>, work: Seq<Work>, after: Seq<Work>, done: Map<usize, usize>, p: int)
    requires
        0 <= p < work.len() - 1,
        arms_awaited(first, work, done, p),
        work.len() <= after.len(),
        forall|q: int| 0 <= q < work.len() - 1 ==> #[trigger] after[q] == work[q],
        after[work.len() - 1].tree == work[work.len() - 1].tree,
    ensures
        arms_awaited(first, after, done, p),
{
    assert(after[p] == work[p]);
    if work[p].expanded {
        let arms = first[work[p].tree as int].node->arms@;
        assert forall|i: int| 0 <= i < arms.len() implies awaited(after, done, p + 1, (#[trigger] arms[i]).tree.index) by {
            let t = arms[i].tree.index;
            assert(awaited(work, done, p + 1, t));
            if !done.dom().contains(t) {
                let q = choose|q: int| p + 1 <= q < work.len() && (#[trigger] work[q]).tree == t;
                assert(after[q].tree == t);
            }
        }
    }
}

/// The versions on which it depends whether the statements behind a decision are reached, under the
/// condition of one arm.
pub struct ContinuationControl {
    pub controls: Vec<usize>,
    pub condition: PathCondition,
}

/// The condition under which both hold.
pub open spec fn conjoined(a: Seq<Choice>, b: Seq<Choice>) -> Seq<Choice> {
    choose|r: Seq<Choice>| path::path_wf(r) && #[trigger] path::is_conjunction(a, b, r)
}

/// Below `inherited`, the plan makes its continuation depend on `controls` under `condition`: one of
/// its decisions matters, and reads the controls, and the arm may continue.
pub open spec fn depends(
    nodes: Seq<PathNode>,
    plan: Plan,
    inherited: Seq<Choice>,
    controls: Seq<usize>,
    condition: Seq<Choice>,
) -> bool
    decreases plan,
{
    match plan {
        Plan::Outcome(_) => false,
        Plan::Decision(predicate, arms) => some_depends(
            nodes,
            predicate,
            matters(arms),
            arms,
            inherited,
            controls,
            condition,
        ),
    }
}

pub open spec fn some_depends(
    nodes: Seq<PathNode>,
    predicate: PredicateView,
    matters: bool,
    arms: Seq<PlanArm>,
    inherited: Seq<Choice>,
    controls: Seq<usize>,
    condition: Seq<Choice>,
) -> bool
    decreases arms,
{
    if arms.len() == 0 {
        false
    } else {
        let arm = arms.last();
        let chosen = arena::path_of(nodes, arm.condition.node as int);
        ||| !path::conflict(inherited, chosen) && ((matters && can_end(
            arm.plan,
            ProcedureFlow::Continue,
        ) && predicate.controls.len() > 0 && controls == predicate.controls && condition
            == conjoined(inherited, chosen)) || depends(
            nodes,
            arm.plan,
            conjoined(inherited, chosen),
            controls,
            condition,
        ))
        ||| some_depends(
            nodes,
            predicate,
            matters,
            arms.drop_last(),
            inherited,
            controls,
            condition,
        )
    }
}

/// The list holds the controls under the condition, at `from` or behind it.
pub open spec fn lists_control(
    list: Seq<ContinuationControl>,
    nodes: Seq<PathNode>,
    from: int,
    controls: Seq<usize>,
    condition: Seq<Choice>,
) -> bool {
    exists|k: int|
        from <= k < list.len() && (#[trigger] list[k]).controls@ == controls && arena::path_of(
            nodes,
            list[k].condition.node as int,
        ) == condition
}

struct Pending {
    tree: usize,
    condition: PathCondition,
}

spec fn pending_depends(
    first: Seq<PathNode>,
    trees: Seq<FlowTreeData>,
    nodes: Seq<PathNode>,
    work: Seq<Pending>,
    controls: Seq<usize>,
    condition: Seq<Choice>,
) -> bool {
    exists|q: int|
        0 <= q < work.len() && #[trigger] depends(
            first,
            plan_of(trees, work[q].tree as int),
            arena::path_of(nodes, work[q].condition.node as int),
            controls,
            condition,
        )
}

spec fn pending_left(trees: Seq<FlowTreeData>, work: Seq<Pending>) -> nat
    decreases work.len(),
{
    if work.len() == 0 {
        0
    } else {
        pending_left(trees, work.drop_last()) + weight(trees, work.last().tree as int)
    }
}

proof fn lemma_conjoined(a: Seq<Choice>, b: Seq<Choice>, r: Seq<Choice>)
    requires
        path::path_wf(r),
        path::is_conjunction(a, b, r),
    ensures
        r == conjoined(a, b),
{
    let c = conjoined(a, b);
    assert(path::path_wf(c) && path::is_conjunction(a, b, c));
    path::path_is_canonical(r, c);
}

/// One arm of a decision makes the continuation depend on the controls.
spec fn arm_depends(
    nodes: Seq<PathNode>,
    predicate: PredicateView,
    matters: bool,
    arm: PlanArm,
    inherited: Seq<Choice>,
    controls: Seq<usize>,
    condition: Seq<Choice>,
) -> bool {
    let chosen = arena::path_of(nodes, arm.condition.node as int);
    !path::conflict(inherited, chosen) && ((matters && can_end(arm.plan, ProcedureFlow::Continue)
        && predicate.controls.len() > 0 && controls == predicate.controls && condition == conjoined(
        inherited,
        chosen,
    )) || depends(nodes, arm.plan, conjoined(inherited, chosen), controls, condition))
}

proof fn lemma_arm_depends(
    nodes: Seq<PathNode>,
    predicate: PredicateView,
    matters: bool,
    arms: Seq<PlanArm>,
    count: int,
    inherited: Seq<Choice>,
    controls: Seq<usize>,
    condition: Seq<Choice>,
)
    requires
        0 <= count < arms.len(),
    ensures
        some_depends(nodes, predicate, matters, arms.take(count + 1), inherited, controls, condition) <==> arm_depends(nodes, predicate, matters, arms[count], inherited, controls, condition)
            || some_depends(nodes, predicate, matters, arms.take(count), inherited, controls, condition),
{
    assert(arms.take(count + 1).drop_last() =~= arms.take(count));
    assert(arms.take(count + 1).last() == arms[count]);
}

proof fn lemma_pending_push(
    first: Seq<PathNode>,
    trees: Seq<FlowTreeData>,
    nodes: Seq<PathNode>,
    work: Seq<Pending>,
    more: Pending,
    controls: Seq<usize>,
    condition: Seq<Choice>,
)
    ensures
        pending_depends(first, trees, nodes, work.push(more), controls, condition) <==> pending_depends(first, trees, nodes, work, controls, condition) || depends(
            first,
            plan_of(trees, more.tree as int),
            arena::path_of(nodes, more.condition.node as int),
            controls,
            condition,
        ),
{
    let after = work.push(more);
    if pending_depends(first, trees, nodes, work, controls, condition) {
        let q = choose|q: int|
            0 <= q < work.len() && #[trigger] depends(
                first,
                plan_of(trees, work[q].tree as int),
                arena::path_of(nodes, work[q].condition.node as int),
                controls,
                condition,
            );
        assert(depends(first, plan_of(trees, after[q].tree as int), arena::path_of(nodes, after[q].condition.node as int), controls, condition));
    }
    if depends(first, plan_of(trees, more.tree as int), arena::path_of(nodes, more.condition.node as int), controls, condition) {
        let q = work.len() as int;
        assert(depends(first, plan_of(trees, after[q].tree as int), arena::path_of(nodes, after[q].condition.node as int), controls, condition));
    }
    if pending_depends(first, trees, nodes, after, controls, condition) {
        let q = choose|q: int|
            0 <= q < after.len() && #[trigger] depends(
                first,
                plan_of(trees, after[q].tree as int),
                arena::path_of(nodes, after[q].condition.node as int),
                controls,
                condition,
            );
        if q < work.len() {
            assert(depends(first, plan_of(trees, work[q].tree as int), arena::path_of(nodes, work[q].condition.node as int), controls, condition));
        }
    }
}

proof fn lemma_lists_control_push(
    list: Seq<ContinuationControl>,
    more: ContinuationControl,
    nodes: Seq<PathNode>,
    from: int,
    controls: Seq<usize>,
    condition: Seq<Choice>,
)
    requires
        0 <= from <= list.len(),
    ensures
        lists_control(list.push(more), nodes, from, controls, condition) <==> lists_control(list, nodes, from, controls, condition) || (more.controls@ == controls
            && arena::path_of(nodes, more.condition.node as int) == condition),
{
    let after = list.push(more);
    if lists_control(list, nodes, from, controls, condition) {
        let k = choose|k: int| from <= k < list.len() && (#[trigger] list[k]).controls@ == controls && arena::path_of(nodes, list[k].condition.node as int) == condition;
        assert(after[k].controls@ == controls);
    }
    if more.controls@ == controls && arena::path_of(nodes, more.condition.node as int) == condition {
        assert(after[list.len() as int].controls@ == controls);
    }
    if lists_control(after, nodes, from, controls, condition) {
        let k = choose|k: int| from <= k < after.len() && (#[trigger] after[k]).controls@ == controls && arena::path_of(nodes, after[k].condition.node as int) == condition;
        if k < list.len() {
            assert(list[k].controls@ == controls);
        }
    }
}

/// What the plan depends on is listed or still to be found.
spec fn accounted(
    first: Seq<PathNode>,
    plan: Plan,
    trees: Seq<FlowTreeData>,
    nodes: Seq<PathNode>,
    list: Seq<ContinuationControl>,
    from: int,
    work: Seq<Pending>,
    controls: Seq<usize>,
    condition: Seq<Choice>,
) -> bool {
    depends(first, plan, Seq::<Choice>::empty(), controls, condition) <==> lists_control(list, nodes, from, controls, condition) || pending_depends(
        first,
        trees,
        nodes,
        work,
        controls,
        condition,
    )
}

/// The arena may grow.
proof fn lemma_controls_kept(
    first: Seq<PathNode>,
    trees: Seq<FlowTreeData>,
    a: Seq<PathNode>,
    b: Seq<PathNode>,
    work: Seq<Pending>,
    list: Seq<ContinuationControl>,
    from: int,
    controls: Seq<usize>,
    condition: Seq<Choice>,
)
    requires
        0 <= from <= list.len(),
        arena::grows(a, b),
        forall|q: int| 0 <= q < work.len() ==> (#[trigger] work[q]).condition.node < a.len(),
        forall|k: int| from <= k < list.len() ==> (#[trigger] list[k]).condition.node < a.len(),
    ensures
        pending_depends(first, trees, b, work, controls, condition) <==> pending_depends(first, trees, a, work, controls, condition),
        lists_control(list, b, from, controls, condition) <==> lists_control(list, a, from, controls, condition),
{
    assert forall|q: int| 0 <= q < work.len() implies arena::path_of(b, (#[trigger] work[q]).condition.node as int) == arena::path_of(a, work[q].condition.node as int) by {
        arena::growth_keeps_paths(a, b, work[q].condition.node as int);
    }
    assert forall|k: int| from <= k < list.len() implies arena::path_of(b, (#[trigger] list[k]).condition.node as int) == arena::path_of(a, list[k].condition.node as int) by {
        arena::growth_keeps_paths(a, b, list[k].condition.node as int);
    }
    if pending_depends(first, trees, a, work, controls, condition) {
        let q = choose|q: int| 0 <= q < work.len() && #[trigger] depends(first, plan_of(trees, work[q].tree as int), arena::path_of(a, work[q].condition.node as int), controls, condition);
        assert(depends(first, plan_of(trees, work[q].tree as int), arena::path_of(b, work[q].condition.node as int), controls, condition));
    }
    if pending_depends(first, trees, b, work, controls, condition) {
        let q = choose|q: int| 0 <= q < work.len() && #[trigger] depends(first, plan_of(trees, work[q].tree as int), arena::path_of(b, work[q].condition.node as int), controls, condition);
        assert(depends(first, plan_of(trees, work[q].tree as int), arena::path_of(a, work[q].condition.node as int), controls, condition));
    }
}

impl FlowStore {
    /// Whether the arms of a decision do not all have one shape.
    fn decision_matters(&self, arms: &Vec<FlowArm>) -> (r: bool)
        requires
            self.wf(),
            arms@.len() > 0,
            forall|i: int| 0 <= i < arms@.len() ==> self.holds((#[trigger] arms@[i]).tree),
        ensures
            r == matters(written_out(self.trees@, arms@)),
    {
        let ghost plans = written_out(self.trees@, arms@);
        proof {
            lemma_arm_shapes(plans);
        }
        let mut i: usize = 1;
        while i < arms.len()
            invariant
                1 <= i <= arms@.len(),
                self.wf(),
                plans == written_out(self.trees@, arms@),
                arm_shapes(plans).len() == plans.len(),
                forall|k: int| 0 <= k < plans.len() ==> #[trigger] arm_shapes(plans)[k] == shape(plans[k].plan),
                forall|k: int| 0 <= k < arms@.len() ==> self.holds((#[trigger] arms@[k]).tree),
                forall|k: int| 0 <= k < i ==> #[trigger] arm_shapes(plans)[k] == arm_shapes(plans)[0],
            decreases arms@.len() - i,
        {
            assert(self.holds(arms@[0].tree) && self.holds(arms@[i as int].tree));
            if !self.same_continuation(arms[i].tree, arms[0].tree) {
                assert(arm_shapes(plans)[i as int] != arm_shapes(plans)[0]);
                return true;
            }
            assert(arm_shapes(plans)[i as int] == arm_shapes(plans)[0]);
            i = i + 1;
        }
        false
    }

    /// Collects what the continuation of a tree depends on, each under the condition of its arm.
    pub fn collect_continuation_controls(
        &self,
        arena: &mut PathArena,
        tree: FlowTree,
        controls: &mut Vec<ContinuationControl>,
    )
        requires
            self.wf(),
            self.holds(tree),
            old(arena).wf(),
            self.held_by(*old(arena)),
        ensures
            final(arena).wf(),
            arena::grows(old(arena)@, final(arena)@),
            old(controls)@.len() <= final(controls)@.len(),
            final(controls)@.take(old(controls)@.len() as int) == old(controls)@,
            forall|k: int|
                old(controls)@.len() <= k < final(controls)@.len() ==> final(arena).holds(
                    (#[trigger] final(controls)@[k]).condition,
                ),
            forall|versions: Seq<usize>, condition: Seq<Choice>| #[trigger]
                lists_control(
                    final(controls)@,
                    final(arena)@,
                    old(controls)@.len() as int,
                    versions,
                    condition,
                ) <==> depends(
                    old(arena)@,
                    self.plan(tree),
                    Seq::<Choice>::empty(),
                    versions,
                    condition,
                ),
    {
        let ghost first = arena@;
        let ghost start = controls@;
        let ghost from = controls@.len() as int;
        let ghost trees = self.trees@;
        let ghost plan = self.plan(tree);
        let mut work: Vec<Pending> = Vec::new();
        work.push(Pending { tree: tree.index, condition: PathCondition { node: 0 } });
        proof {
            assert forall|c: Seq<usize>, p: Seq<Choice>| #[trigger] accounted(first, plan, trees, arena@, controls@, from, work@, c, p) by {
                assert(arena::path_of(arena@, 0) == Seq::<Choice>::empty());
                lemma_pending_push(first, trees, arena@, Seq::empty(), work@[0], c, p);
                assert(Seq::<Pending>::empty().push(work@[0]) =~= work@);
                assert(!pending_depends(first, trees, arena@, Seq::empty(), c, p));
            }
            assert(controls@.take(from) =~= start);
            assert forall|t: int| 0 <= t < trees.len() implies #[trigger] arms_below_len(trees[t], first.len()) by {
                assert(arms_held(self.trees@[t], *arena));
                if let FlowTreeNode::Decision { predicate, arms } = trees[t].node {
                    assert forall|k: int| 0 <= k < arms@.len() implies (#[trigger] arms@[k]).condition.node < first.len() by {
                        assert(arena.holds(arms@[k].condition));
                    }
                }
            }
        }
        while work.len() > 0
            invariant
                self.wf(),
                trees == self.trees@,
                arena.wf(),
                arena::grows(first, arena@),
                forall|t: int| 0 <= t < trees.len() ==> #[trigger] arms_below_len(trees[t], first.len()),
                forall|q: int| 0 <= q < work@.len() ==> (#[trigger] work@[q]).tree < trees.len() && work@[q].condition.node < arena@.len(),
                0 <= from <= controls@.len(),
                controls@.take(from) == start,
                forall|k: int| from <= k < controls@.len() ==> (#[trigger] controls@[k]).condition.node < arena@.len(),
                forall|c: Seq<usize>, p: Seq<Choice>| #[trigger] accounted(first, plan, trees, arena@, controls@, from, work@, c, p),
            decreases pending_left(trees, work@),
        {
            let ghost work0 = work@;
            let item = work.pop().unwrap();
            let current: usize = item.tree;
            let ghost inherited = arena::path_of(arena@, item.condition.node as int);
            let ghost rest = work@;
            let ghost list0 = controls@;
            let ghost nodes0 = arena@;
            proof {
                assert(rest =~= work0.drop_last());
                assert(work0 =~= rest.push(item));
                assert(work0[work0.len() - 1] == item);
                lemma_weight_positive(trees, current as int);
                assert(tree_wf(trees, current as int));
                lemma_plan(trees, current as int);
                arena::arena_paths_wf(arena@, item.condition.node as int);
                assert forall|c: Seq<usize>, p: Seq<Choice>| depends(first, plan, Seq::<Choice>::empty(), c, p) <==> #[trigger] lists_control(controls@, arena@, from, c, p)
                    || pending_depends(first, trees, arena@, rest, c, p) || depends(first, plan_of(trees, current as int), inherited, c, p) by {
                    assert(accounted(first, plan, trees, arena@, controls@, from, work0, c, p));
                    lemma_pending_push(first, trees, arena@, rest, item, c, p);
                }
            }
            if let FlowTreeNode::Decision { predicate, arms } = &self.trees[current].node {
                let ghost plans = written_out(trees, arms@);
                proof {
                    assert forall|k: int| 0 <= k < arms@.len() implies self.holds((#[trigger] arms@[k]).tree) by {
                        assert(arms@[k].tree.index < current);
                    }
                    assert(arms_below_len(trees[current as int], first.len()));
                }
                let matters_here: bool = self.decision_matters(arms);
                let mut i: usize = arms.len();
                proof {
                    assert(plans.take(i as int) =~= plans);
                    assert forall|c: Seq<usize>, p: Seq<Choice>| depends(first, plan, Seq::<Choice>::empty(), c, p) <==> #[trigger] lists_control(controls@, arena@, from, c, p)
                        || pending_depends(first, trees, arena@, work@, c, p) || some_depends(first, predicate@, matters_here, plans.take(i as int), inherited, c, p) by {
                        let here = lists_control(controls@, arena@, from, c, p);
                        assert(depends(first, plan, Seq::<Choice>::empty(), c, p) <==> here || pending_depends(first, trees, arena@, rest, c, p) || depends(first, plan_of(trees, current as int), inherited, c, p));
                        assert(plan_of(trees, current as int) == Plan::Decision(predicate@, plans));
                        assert(depends(first, plan_of(trees, current as int), inherited, c, p) == some_depends(first, predicate@, matters(plans), plans, inherited, c, p));
                        assert(matters(plans) == matters_here);
                        assert(work@ == rest);
                    }
                }
                while i > 0
                    invariant
                        self.wf(),
                        trees == self.trees@,
                        i <= arms@.len(),
                        current < trees.len(),
                        trees_below(arms@, current as int),
                        plans == written_out(trees, arms@),
                        arena.wf(),
                        arena::grows(first, arena@),
                        arena::grows(nodes0, arena@),
                        item.condition.node < nodes0.len(),
                        inherited == arena::path_of(nodes0, item.condition.node as int),
                        path::path_wf(inherited),
                        conditions_below(arms@, first.len()),
                        forall|q: int| 0 <= q < work@.len() ==> (#[trigger] work@[q]).tree < trees.len() && work@[q].condition.node < arena@.len(),
                        0 <= from <= controls@.len(),
                        controls@.take(from) == start,
                        forall|k: int| from <= k < controls@.len() ==> (#[trigger] controls@[k]).condition.node < arena@.len(),
                        forall|c: Seq<usize>, p: Seq<Choice>| depends(first, plan, Seq::<Choice>::empty(), c, p) <==> #[trigger] lists_control(controls@, arena@, from, c, p)
                            || pending_depends(first, trees, arena@, work@, c, p) || some_depends(first, predicate@, matters_here, plans.take(i as int), inherited, c, p),
                        pending_left(trees, work@) + arm_weights(trees, current as int, arms@, i as int) <= pending_left(trees, rest)
                            + arm_weights(trees, current as int, arms@, arms@.len() as int),
                    decreases i,
                {
                    let ghost nodes1 = arena@;
                    let ghost work1 = work@;
                    let ghost list1 = controls@;
                    i = i - 1;
                    let arm = arms[i];
                    let ghost chosen = arena::path_of(first, arm.condition.node as int);
                    proof {
                        assert(arms@[i as int].condition.node < first.len());
                        arena::growth_keeps_paths(first, nodes1, arm.condition.node as int);
                        arena::growth_keeps_paths(nodes0, nodes1, item.condition.node as int);
                        assert(arms@[i as int].tree.index < current);
                        assert(self.holds(arm.tree));
                    }
                    let joined = arena.conjoin_if_compatible(item.condition, arm.condition);
                    proof {
                        arena::growth_is_transitive(first, nodes1, arena@);
                        arena::growth_is_transitive(nodes0, nodes1, arena@);
                        assert forall|c: Seq<usize>, p: Seq<Choice>| depends(first, plan, Seq::<Choice>::empty(), c, p) <==> #[trigger] lists_control(list1, arena@, from, c, p)
                            || pending_depends(first, trees, arena@, work1, c, p) || some_depends(first, predicate@, matters_here, plans.take(i + 1), inherited, c, p) by {
                            lemma_controls_kept(first, trees, nodes1, arena@, work1, list1, from, c, p);
                            assert(lists_control(list1, nodes1, from, c, p) || !lists_control(list1, nodes1, from, c, p));
                        }
                    }
                    match joined {
                        None => {
                            proof {
                                assert forall|c: Seq<usize>, p: Seq<Choice>| depends(first, plan, Seq::<Choice>::empty(), c, p) <==> #[trigger] lists_control(controls@, arena@, from, c, p)
                                    || pending_depends(first, trees, arena@, work@, c, p) || some_depends(first, predicate@, matters_here, plans.take(i as int), inherited, c, p) by {
                                    let here = lists_control(list1, arena@, from, c, p);
                                    assert(depends(first, plan, Seq::<Choice>::empty(), c, p) <==> here || pending_depends(first, trees, arena@, work1, c, p) || some_depends(first, predicate@, matters_here, plans.take(i + 1), inherited, c, p));
                                    lemma_arm_depends(first, predicate@, matters_here, plans, i as int, inherited, c, p);
                                }
                            }
                        },
                        Some(condition) => {
                            proof {
                                lemma_conjoined(inherited, chosen, arena.path(condition));
                            }
                            let continues: bool = self.contains(arm.tree, ProcedureFlow::Continue);
                            let emit: bool = matters_here && continues && predicate.controls.len() > 0;
                            if emit {
                                let copied = predicate.copy();
                                let entry = ContinuationControl { controls: copied.controls, condition };
                                controls.push(entry);
                                proof {
                                    assert(controls@ =~= list1.push(controls@.last()));
                                    assert(controls@.take(from) =~= list1.take(from));
                                }
                            }
                            let more = Pending { tree: arm.tree.index, condition };
                            work.push(more);
                            proof {
                                assert(work@ =~= work1.push(more));
                                assert(work@.drop_last() =~= work1);
                                assert forall|c: Seq<usize>, p: Seq<Choice>| depends(first, plan, Seq::<Choice>::empty(), c, p) <==> #[trigger] lists_control(controls@, arena@, from, c, p)
                                    || pending_depends(first, trees, arena@, work@, c, p) || some_depends(first, predicate@, matters_here, plans.take(i as int), inherited, c, p) by {
                                    let here = lists_control(list1, arena@, from, c, p);
                                    assert(depends(first, plan, Seq::<Choice>::empty(), c, p) <==> here || pending_depends(first, trees, arena@, work1, c, p) || some_depends(first, predicate@, matters_here, plans.take(i + 1), inherited, c, p));
                                    lemma_arm_depends(first, predicate@, matters_here, plans, i as int, inherited, c, p);
                                    assert(plans[i as int].plan == plan_of(trees, more.tree as int));
                                    lemma_pending_push(first, trees, arena@, work1, more, c, p);
                                    if emit {
                                        lemma_lists_control_push(list1, controls@.last(), arena@, from, c, p);
                                    }
                                }
                            }
                        },
                    }
                }
                proof {
                    assert(plans.take(0) =~= Seq::<PlanArm>::empty());
                    assert forall|c: Seq<usize>, p: Seq<Choice>| #[trigger] accounted(first, plan, trees, arena@, controls@, from, work@, c, p) by {
                        let here = lists_control(controls@, arena@, from, c, p);
                        assert(depends(first, plan, Seq::<Choice>::empty(), c, p) <==> here || pending_depends(first, trees, arena@, work@, c, p) || some_depends(first, predicate@, matters_here, plans.take(i as int), inherited, c, p));
                        assert(!some_depends(first, predicate@, matters_here, plans.take(0), inherited, c, p));
                    }
                }
            } else {
                proof {
                    assert(plan_of(trees, current as int) is Outcome);
                    assert forall|c: Seq<usize>, p: Seq<Choice>| #[trigger] accounted(first, plan, trees, arena@, controls@, from, work@, c, p) by {
                        let here = lists_control(controls@, arena@, from, c, p);
                        assert(depends(first, plan, Seq::<Choice>::empty(), c, p) <==> here || pending_depends(first, trees, arena@, rest, c, p) || depends(first, plan_of(trees, current as int), inherited, c, p));
                        assert(!depends(first, plan_of(trees, current as int), inherited, c, p));
                    }
                }
            }
        }
        proof {
            assert forall|c: Seq<usize>, p: Seq<Choice>| #[trigger] lists_control(controls@, arena@, from, c, p) <==> depends(first, plan, Seq::<Choice>::empty(), c, p) by {
                assert(accounted(first, plan, trees, arena@, controls@, from, work@, c, p));
                assert(!pending_depends(first, trees, arena@, work@, c, p));
            }
        }
    }
}

/// The conditions of the arms lie below `length`.
spec fn arms_below_len(data: FlowTreeData, length: nat) -> bool {
    data.node matches FlowTreeNode::Decision { predicate, arms } ==> conditions_below(arms@, length)
}

spec fn conditions_below(arms: Seq<FlowArm>, length: nat) -> bool {
    forall|i: int| 0 <= i < arms.len() ==> (#[trigger] arms[i]).condition.node < length
}

} // verus!
