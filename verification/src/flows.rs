//! What the bits of an expression depend on, found from what its evaluation has read.
use vstd::prelude::*;
use crate::ir::{BinaryOp, Expression, Node, Operand, Region, SystemCall, SystemKind};
use crate::layout;
use crate::layout::EvaluationCache;
use crate::partition::BitPartition;
use crate::affine::AffineIndex;
use crate::relation::{PositionDomain, PositionRelation};
use crate::span::{ArraySpan, PackedSpan};

verus! {

/// Where a value comes from: a version that was read, or a node that was made for it.
#[derive(Clone, Copy, Debug, PartialEq, Eq, Structural)]
pub enum Origin {
    Version(usize),
    Node(usize),
}

/// A source, with how its positions lead to those of the value.
#[derive(Clone, Copy, Debug, PartialEq, Eq, Structural)]
pub struct FlowRef {
    pub origin: Origin,
    pub relation: PositionRelation,
}

/// One arm of a choice that an expression makes.
#[derive(Clone, Copy, Debug, PartialEq, Eq, Structural)]
pub struct Decision {
    /// The occurrence of the expression.
    pub occurrence: usize,
    pub arm: usize,
}

/// A value that is made while an expression is looked at.
pub enum FlowNode {
    /// The result of a call, or a region of it.
    Call { occurrence: usize, request: Option<Region> },
    /// A value of which nothing is known.
    Opaque,
    /// A regular transfer.
    Repeated {
        source: Origin,
        initial: PositionRelation,
        step: PositionRelation,
        domain: PositionDomain,
    },
    /// A value that counts only where the choices are made so.
    Guarded { sources: Vec<FlowRef>, decisions: Vec<Decision> },
}

/// A node by what it holds.
pub enum FlowView {
    Call { occurrence: usize, request: Option<Region> },
    Opaque,
    Repeated {
        source: Origin,
        initial: PositionRelation,
        step: PositionRelation,
        domain: PositionDomain,
    },
    Guarded { sources: Seq<FlowRef>, decisions: Seq<Decision> },
}

impl FlowNode {
    pub open spec fn shown(self) -> FlowView {
        match self {
            FlowNode::Call { occurrence, request } => FlowView::Call { occurrence, request },
            FlowNode::Opaque => FlowView::Opaque,
            FlowNode::Repeated { source, initial, step, domain } => FlowView::Repeated {
                source,
                initial,
                step,
                domain,
            },
            FlowNode::Guarded { sources, decisions } => FlowView::Guarded {
                sources: sources@,
                decisions: decisions@,
            },
        }
    }
}

/// The nodes made so far, and whether something was missing.
pub struct Flows {
    pub nodes: Vec<FlowNode>,
    pub partial: bool,
}

/// What was made so far, as a value.
pub struct FlowState {
    pub nodes: Seq<FlowView>,
    pub partial: bool,
}

impl FlowState {
    /// One more node.
    pub open spec fn with(self, node: FlowView) -> FlowState {
        FlowState { nodes: self.nodes.push(node), partial: self.partial }
    }

    /// The node that is made next.
    pub open spec fn next(self) -> Origin {
        Origin::Node(self.nodes.len() as usize)
    }

    pub open spec fn missing(self) -> FlowState {
        FlowState { nodes: self.nodes, partial: true }
    }
}

impl Flows {
    pub open spec fn state(self) -> FlowState {
        FlowState { nodes: self.nodes@.map_values(|n: FlowNode| n.shown()), partial: self.partial }
    }

    /// Nothing made yet.
    pub fn new() -> (r: Self)
        ensures
            r.state() == (FlowState { nodes: Seq::empty(), partial: false }),
    {
        let r = Flows { nodes: Vec::new(), partial: false };
        assert(r.state().nodes =~= Seq::empty());
        r
    }

    /// Adds a value.
    pub fn push(&mut self, node: FlowNode) -> (r: Origin)
        ensures
            final(self).state() == old(self).state().with(node.shown()),
            r == old(self).state().next(),
    {
        let ghost before = *self;
        let at: usize = self.nodes.len();
        self.nodes.push(node);
        assert(self.state().nodes =~= before.state().with(node.shown()).nodes);
        Origin::Node(at)
    }

    /// Something is not known from now on.
    pub fn mark_partial(&mut self)
        ensures
            final(self).state() == old(self).state().missing(),
    {
        self.partial = true;
    }
}

/// The state after a step, and the sources that it found.
pub struct Found {
    pub state: FlowState,
    pub sources: Seq<FlowRef>,
}

/// The state after a step, and the origins that it found.
pub struct Origins {
    pub state: FlowState,
    pub origins: Seq<Origin>,
}

/// All positions of the origin.
pub open spec fn wide(origin: Origin) -> FlowRef {
    FlowRef { origin, relation: PositionRelation::anything() }
}

pub open spec fn all_wide(origins: Seq<Origin>) -> Seq<FlowRef> {
    origins.map_values(|o: Origin| wide(o))
}

pub open spec fn versions_of(versions: Seq<usize>) -> Seq<Origin> {
    versions.map_values(|v: usize| Origin::Version(v))
}

pub open spec fn read_versions(read: Seq<layout::KeyVersion>) -> Seq<Origin> {
    read.map_values(|v: layout::KeyVersion| Origin::Version(v.version))
}

/// Where an assignment writes, as far as it is known.
pub struct ProjectionContext<'a> {
    /// The position in the flattened array, as a sum of multiples of variables.
    pub destination_index: Option<&'a AffineIndex>,
    pub destination_array: Option<ArraySpan>,
    pub destination_array_offset: Option<isize>,
}

/// What expressions are looked at with.
pub struct Projector<'a> {
    pub cache: &'a EvaluationCache,
    pub partition: &'a BitPartition,
    pub projection: &'a ProjectionContext<'a>,
}

/// The truth of a constant.
pub open spec fn truth_of(expression: Expression) -> Option<bool> {
    match expression.facts.value {
        Some(value) => Some(value != 0),
        None => None,
    }
}

/// Whether a constant is true.
pub fn constant_truth(expression: &Expression) -> (r: Option<bool>)
    ensures
        r == truth_of(*expression),
{
    match expression.facts.value {
        Some(value) => Some(value != 0),
        None => None,
    }
}

/// Whether the right operand is evaluated; it depends on the left one where that is not known.
pub open spec fn evaluates_right(left: Expression, op: BinaryOp, prune: bool) -> Option<bool> {
    if !prune {
        Some(true)
    } else {
        match op {
            BinaryOp::LogicAnd => truth_of(left),
            BinaryOp::LogicOr => match truth_of(left) {
                Some(truth) => Some(!truth),
                None => None,
            },
            _ => Some(true),
        }
    }
}

/// Whether the right operand of a logical operator is surely evaluated, or surely not.
pub fn executes_right(left: &Expression, op: BinaryOp, prune: bool) -> (r: Option<bool>)
    ensures
        r == evaluates_right(*left, op, prune),
{
    if !prune {
        return Some(true);
    }
    match op {
        BinaryOp::LogicAnd => constant_truth(left),
        BinaryOp::LogicOr => match constant_truth(left) {
            Some(truth) => Some(!truth),
            None => None,
        },
        _ => Some(true),
    }
}

/// The choices with one more.
pub open spec fn deciding(decisions: Seq<Decision>, occurrence: usize, arm: usize) -> Seq<Decision> {
    decisions.push(Decision { occurrence, arm })
}

/// One value under choices, from all positions of the origins.
pub open spec fn guarded_whole(found: Origins, decisions: Seq<Decision>) -> Origins {
    Origins {
        state: found.state.with(
            FlowView::Guarded { sources: all_wide(found.origins), decisions },
        ),
        origins: seq![found.state.next()],
    }
}

pub open spec fn joined_origins(a: Origins, b: Origins) -> Origins {
    Origins { state: b.state, origins: a.origins + b.origins }
}

impl<'a> Projector<'a> {
    pub open spec fn wf(self) -> bool {
        &&& self.partition.wf()
        &&& forall|occurrence: usize| #[trigger]
            self.cache.variable_reads@.dom().contains(occurrence) ==> layout::keys_ascend(
                self.cache.variable_reads@[occurrence].versions@,
            )
    }

    /// What the read of a variable found.
    pub open spec fn variable_whole(self, state: FlowState, occurrence: usize) -> Origins {
        if self.cache.variable_reads@.dom().contains(occurrence) {
            let read = *self.cache.variable_reads@[occurrence];
            Origins {
                state,
                origins: versions_of(read.selectors@) + read_versions(read.versions@),
            }
        } else {
            Origins { state: state.missing(), origins: Seq::empty() }
        }
    }

    pub open spec fn call_whole(self, state: FlowState, occurrence: usize, request: Option<Region>) -> Origins {
        if self.cache.calls@.dom().contains(occurrence) {
            Origins {
                state: state.with(FlowView::Call { occurrence, request }),
                origins: seq![state.next()],
            }
        } else {
            Origins { state: state.missing(), origins: Seq::empty() }
        }
    }

    /// Everything that an expression depends on. Operands that constants leave out are not looked at
    /// where `prune` says so.
    pub open spec fn whole_of(
        self,
        state: FlowState,
        decisions: Seq<Decision>,
        expression: Expression,
        prune: bool,
    ) -> Origins
        decreases expression,
    {
        match expression.node {
            Node::Variable(_) => self.variable_whole(state, expression.occurrence),
            Node::Hierarchical(_) => Origins { state, origins: Seq::empty() },
            Node::Constant => Origins { state, origins: Seq::empty() },
            Node::Unknown => Origins {
                state: state.missing().with(FlowView::Opaque),
                origins: seq![state.next()],
            },
            Node::Call(_) => self.call_whole(state, expression.occurrence, None),
            Node::System(call) => self.system_whole(state, decisions, call),
            Node::Unary(_, operand) => self.whole_of(state, decisions, *operand, prune),
            Node::Binary(left, op, right) => {
                let l = self.whole_of(state, decisions, *left, prune);
                match evaluates_right(*left, op, prune) {
                    Some(false) => l,
                    Some(true) => joined_origins(
                        l,
                        self.whole_of(l.state, decisions, *right, prune),
                    ),
                    None => {
                        let inside = deciding(decisions, expression.occurrence, 0);
                        joined_origins(
                            l,
                            guarded_whole(self.whole_of(l.state, inside, *right, prune), inside),
                        )
                    },
                }
            },
            Node::Ternary(condition, yes, no) => {
                let c = self.whole_of(state, decisions, *condition, prune);
                match if prune { truth_of(*condition) } else { None } {
                    Some(true) => joined_origins(c, self.whole_of(c.state, decisions, *yes, prune)),
                    Some(false) => joined_origins(c, self.whole_of(c.state, decisions, *no, prune)),
                    None => {
                        let first = deciding(decisions, expression.occurrence, 0);
                        let second = deciding(decisions, expression.occurrence, 1);
                        let y = guarded_whole(self.whole_of(c.state, first, *yes, prune), first);
                        let n = guarded_whole(self.whole_of(y.state, second, *no, prune), second);
                        joined_origins(joined_origins(c, y), n)
                    },
                }
            },
            Node::Concatenation(parts) => self.operands_whole(state, decisions, parts@, prune),
            Node::ArrayLiteral(items) => self.operands_whole(state, decisions, items@, prune),
            Node::Struct(members) => self.operands_whole(state, decisions, members@, prune),
        }
    }

    pub open spec fn system_whole(self, state: FlowState, decisions: Seq<Decision>, call: SystemCall) -> Origins
        decreases call,
    {
        match call.kind {
            SystemKind::Onehot => self.inputs_whole(state, decisions, call.inputs@),
            SystemKind::Cast => self.inputs_whole(state, decisions, call.inputs@),
            _ => Origins { state, origins: Seq::empty() },
        }
    }

    pub open spec fn inputs_whole(self, state: FlowState, decisions: Seq<Decision>, list: Seq<Expression>) -> Origins
        decreases list,
    {
        if list.len() == 0 {
            Origins { state, origins: Seq::empty() }
        } else {
            let before = self.inputs_whole(state, decisions, list.drop_last());
            joined_origins(before, self.whole_of(before.state, decisions, list.last(), true))
        }
    }

    pub open spec fn operand_whole(self, state: FlowState, decisions: Seq<Decision>, operand: Operand, prune: bool) -> Origins
        decreases operand,
    {
        let value = self.whole_of(state, decisions, operand.value, prune);
        match operand.repeat {
            Some(repeat) => joined_origins(value, self.whole_of(value.state, decisions, repeat, prune)),
            None => value,
        }
    }

    pub open spec fn operands_whole(self, state: FlowState, decisions: Seq<Decision>, list: Seq<Operand>, prune: bool) -> Origins
        decreases list,
    {
        if list.len() == 0 {
            Origins { state, origins: Seq::empty() }
        } else {
            let before = self.operands_whole(state, decisions, list.drop_last(), prune);
            joined_origins(before, self.operand_whole(before.state, decisions, list.last(), prune))
        }
    }

    /// How often an operand is repeated depends on these.
    pub open spec fn repeat_whole(self, state: FlowState, decisions: Seq<Decision>, operand: Operand, prune: bool) -> Origins
        decreases operand,
    {
        match operand.repeat {
            Some(repeat) => self.whole_of(state, decisions, repeat, prune),
            None => Origins { state, origins: Seq::empty() },
        }
    }

    pub open spec fn repeats_whole(self, state: FlowState, decisions: Seq<Decision>, list: Seq<Operand>, prune: bool) -> Origins
        decreases list,
    {
        if list.len() == 0 {
            Origins { state, origins: Seq::empty() }
        } else {
            let before = self.repeats_whole(state, decisions, list.drop_last(), prune);
            joined_origins(before, self.repeat_whole(before.state, decisions, list.last(), prune))
        }
    }
}

/// Adds origins to a list.
pub fn extend_origins(list: &mut Vec<Origin>, more: &Vec<Origin>)
    ensures
        final(list)@ == old(list)@ + more@,
{
    let ghost before = list@;
    let mut i: usize = 0;
    while i < more.len()
        invariant
            i <= more@.len(),
            list@ == before + more@.take(i as int),
        decreases more@.len() - i,
    {
        list.push(more[i]);
        i = i + 1;
        assert(list@ =~= before + more@.take(i as int));
    }
    assert(more@.take(i as int) =~= more@);
}

/// The origins as sources of which no position is known.
pub fn to_wide(origins: &Vec<Origin>) -> (r: Vec<FlowRef>)
    ensures
        r@ == all_wide(origins@),
{
    let mut r: Vec<FlowRef> = Vec::new();
    let mut i: usize = 0;
    while i < origins.len()
        invariant
            i <= origins@.len(),
            r@ == all_wide(origins@.take(i as int)),
        decreases origins@.len() - i,
    {
        r.push(FlowRef { origin: origins[i], relation: PositionRelation::whole() });
        i = i + 1;
        assert(r@ =~= all_wide(origins@.take(i as int)));
    }
    assert(origins@.take(i as int) =~= origins@);
    r
}

/// The choices with one more.
pub fn decide(decisions: &Vec<Decision>, occurrence: usize, arm: usize) -> (r: Vec<Decision>)
    ensures
        r@ == deciding(decisions@, occurrence, arm),
{
    let mut r = copy_decisions(decisions);
    r.push(Decision { occurrence, arm });
    r
}

/// A copy of the decisions.
pub fn copy_decisions(decisions: &Vec<Decision>) -> (r: Vec<Decision>)
    ensures
        r@ == decisions@,
{
    let mut r: Vec<Decision> = Vec::new();
    let mut i: usize = 0;
    while i < decisions.len()
        invariant
            i <= decisions@.len(),
            r@ == decisions@.take(i as int),
        decreases decisions@.len() - i,
    {
        r.push(decisions[i]);
        i = i + 1;
        assert(r@ =~= decisions@.take(i as int));
    }
    assert(r@ =~= decisions@);
    r
}

impl<'a> Projector<'a> {
    /// The origins under the decisions.
    pub fn guard_whole(&self, flows: &mut Flows, origins: &Vec<Origin>, decisions: Vec<Decision>) -> (r: Origin)
        ensures
            final(flows).state() == guarded_whole(Origins { state: old(flows).state(), origins: origins@ }, decisions@).state,
            seq![r] == guarded_whole(Origins { state: old(flows).state(), origins: origins@ }, decisions@).origins,
    {
        let sources = to_wide(origins);
        flows.push(FlowNode::Guarded { sources, decisions })
    }

    /// The versions that the read of a variable found.
    pub fn eval_variable(&self, flows: &mut Flows, occurrence: usize) -> (r: Vec<Origin>)
        ensures
            final(flows).state() == self.variable_whole(old(flows).state(), occurrence).state,
            r@ == self.variable_whole(old(flows).state(), occurrence).origins,
    {
        broadcast use vstd::std_specs::hash::group_hash_axioms;

        let mut r: Vec<Origin> = Vec::new();
        match self.cache.variable_reads.get(&occurrence) {
            None => {
                flows.mark_partial();
            },
            Some(read) => {
                let ghost selectors = read.selectors@;
                let ghost versions = read.versions@;
                let mut i: usize = 0;
                while i < read.selectors.len()
                    invariant
                        i <= read.selectors@.len(),
                        r@ == versions_of(read.selectors@.take(i as int)),
                    decreases read.selectors@.len() - i,
                {
                    r.push(Origin::Version(read.selectors[i]));
                    i = i + 1;
                    assert(r@ =~= versions_of(read.selectors@.take(i as int)));
                }
                assert(read.selectors@.take(i as int) =~= selectors);
                let mut k: usize = 0;
                assert(r@ =~= versions_of(selectors) + read_versions(read.versions@.take(0)));
                while k < read.versions.len()
                    invariant
                        k <= read.versions@.len(),
                        r@ == versions_of(selectors) + read_versions(read.versions@.take(k as int)),
                    decreases read.versions@.len() - k,
                {
                    r.push(Origin::Version(read.versions[k].version));
                    k = k + 1;
                    assert(r@ =~= versions_of(selectors) + read_versions(read.versions@.take(k as int)));
                }
                assert(read.versions@.take(k as int) =~= versions);
            },
        }
        r
    }

    /// The result of a call that was evaluated.
    pub fn eval_call_result(&self, flows: &mut Flows, occurrence: usize, request: Option<Region>) -> (r: Vec<Origin>)
        ensures
            final(flows).state() == self.call_whole(old(flows).state(), occurrence, request).state,
            r@ == self.call_whole(old(flows).state(), occurrence, request).origins,
    {
        broadcast use vstd::std_specs::hash::group_hash_axioms;

        let mut r: Vec<Origin> = Vec::new();
        if self.cache.calls.contains_key(&occurrence) {
            r.push(flows.push(FlowNode::Call { occurrence, request }));
        } else {
            flows.mark_partial();
        }
        r
    }

    /// Everything that an expression depends on.
    pub fn eval_expr_inner(&self, flows: &mut Flows, decisions: &Vec<Decision>, expression: &Expression, prune: bool) -> (r: Vec<Origin>)
        ensures
            final(flows).state() == self.whole_of(old(flows).state(), decisions@, *expression, prune).state,
            r@ == self.whole_of(old(flows).state(), decisions@, *expression, prune).origins,
        decreases expression,
    {
        match &expression.node {
            Node::Variable(_) => self.eval_variable(flows, expression.occurrence),
            Node::Hierarchical(_) => Vec::new(),
            Node::Constant => Vec::new(),
            Node::Unknown => {
                flows.mark_partial();
                let mut r: Vec<Origin> = Vec::new();
                r.push(flows.push(FlowNode::Opaque));
                r
            },
            Node::Call(_) => self.eval_call_result(flows, expression.occurrence, None),
            Node::System(call) => self.eval_system_call(flows, decisions, call),
            Node::Unary(_, operand) => self.eval_expr_inner(flows, decisions, operand, prune),
            Node::Binary(left, op, right) => {
                let mut r = self.eval_expr_inner(flows, decisions, left, prune);
                match executes_right(left, *op, prune) {
                    Some(false) => {},
                    Some(true) => {
                        let more = self.eval_expr_inner(flows, decisions, right, prune);
                        extend_origins(&mut r, &more);
                    },
                    None => {
                        let inside = decide(decisions, expression.occurrence, 0);
                        let found = self.eval_expr_inner(flows, &inside, right, prune);
                        r.push(self.guard_whole(flows, &found, inside));
                    },
                }
                r
            },
            Node::Ternary(condition, yes, no) => {
                let mut r = self.eval_expr_inner(flows, decisions, condition, prune);
                let truth: Option<bool> = if prune { constant_truth(condition) } else { None };
                match truth {
                    Some(true) => {
                        let more = self.eval_expr_inner(flows, decisions, yes, prune);
                        extend_origins(&mut r, &more);
                    },
                    Some(false) => {
                        let more = self.eval_expr_inner(flows, decisions, no, prune);
                        extend_origins(&mut r, &more);
                    },
                    None => {
                        let first = decide(decisions, expression.occurrence, 0);
                        let found = self.eval_expr_inner(flows, &first, yes, prune);
                        r.push(self.guard_whole(flows, &found, first));
                        let second = decide(decisions, expression.occurrence, 1);
                        let found = self.eval_expr_inner(flows, &second, no, prune);
                        r.push(self.guard_whole(flows, &found, second));
                    },
                }
                r
            },
            Node::Concatenation(parts) => self.eval_operands(flows, decisions, parts, prune),
            Node::ArrayLiteral(items) => self.eval_operands(flows, decisions, items, prune),
            Node::Struct(members) => self.eval_operands(flows, decisions, members, prune),
        }
    }

    /// What a system call as a whole comes from.
    pub fn eval_system_call(&self, flows: &mut Flows, decisions: &Vec<Decision>, call: &SystemCall) -> (r: Vec<Origin>)
        ensures
            final(flows).state() == self.system_whole(old(flows).state(), decisions@, *call).state,
            r@ == self.system_whole(old(flows).state(), decisions@, *call).origins,
        decreases call,
    {
        match call.kind {
            SystemKind::Onehot => self.eval_inputs(flows, decisions, &call.inputs),
            SystemKind::Cast => self.eval_inputs(flows, decisions, &call.inputs),
            _ => Vec::new(),
        }
    }

    /// What the inputs of a call as a whole come from.
    pub fn eval_inputs(&self, flows: &mut Flows, decisions: &Vec<Decision>, list: &Vec<Expression>) -> (r: Vec<Origin>)
        ensures
            final(flows).state() == self.inputs_whole(old(flows).state(), decisions@, list@).state,
            r@ == self.inputs_whole(old(flows).state(), decisions@, list@).origins,
        decreases list,
    {
        let ghost start = flows.state();
        let mut r: Vec<Origin> = Vec::new();
        let mut i: usize = 0;
        while i < list.len()
            invariant
                i <= list@.len(),
                flows.state() == self.inputs_whole(start, decisions@, list@.take(i as int)).state,
                r@ == self.inputs_whole(start, decisions@, list@.take(i as int)).origins,
            decreases list.len() - i,
        {
            let more = self.eval_expr_inner(flows, decisions, &list[i], true);
            extend_origins(&mut r, &more);
            proof {
                assert(list@.take(i + 1).drop_last() =~= list@.take(i as int));
            }
            i = i + 1;
        }
        assert(list@.take(i as int) =~= list@);
        r
    }

    fn eval_operand(&self, flows: &mut Flows, decisions: &Vec<Decision>, operand: &Operand, prune: bool) -> (r: Vec<Origin>)
        ensures
            final(flows).state() == self.operand_whole(old(flows).state(), decisions@, *operand, prune).state,
            r@ == self.operand_whole(old(flows).state(), decisions@, *operand, prune).origins,
        decreases operand,
    {
        let mut r = self.eval_expr_inner(flows, decisions, &operand.value, prune);
        if let Some(repeat) = &operand.repeat {
            let more = self.eval_expr_inner(flows, decisions, repeat, prune);
            extend_origins(&mut r, &more);
        }
        r
    }

    /// What operands as a whole come from.
    pub fn eval_operands(&self, flows: &mut Flows, decisions: &Vec<Decision>, list: &Vec<Operand>, prune: bool) -> (r: Vec<Origin>)
        ensures
            final(flows).state() == self.operands_whole(old(flows).state(), decisions@, list@, prune).state,
            r@ == self.operands_whole(old(flows).state(), decisions@, list@, prune).origins,
        decreases list,
    {
        let ghost start = flows.state();
        let mut r: Vec<Origin> = Vec::new();
        let mut i: usize = 0;
        while i < list.len()
            invariant
                i <= list@.len(),
                flows.state() == self.operands_whole(start, decisions@, list@.take(i as int), prune).state,
                r@ == self.operands_whole(start, decisions@, list@.take(i as int), prune).origins,
            decreases list.len() - i,
        {
            let more = self.eval_operand(flows, decisions, &list[i], prune);
            extend_origins(&mut r, &more);
            proof {
                assert(list@.take(i + 1).drop_last() =~= list@.take(i as int));
            }
            i = i + 1;
        }
        assert(list@.take(i as int) =~= list@);
        r
    }

    /// What the repetitions of operands depend on.
    pub fn eval_repeats(&self, flows: &mut Flows, decisions: &Vec<Decision>, list: &Vec<Operand>, prune: bool) -> (r: Vec<Origin>)
        ensures
            final(flows).state() == self.repeats_whole(old(flows).state(), decisions@, list@, prune).state,
            r@ == self.repeats_whole(old(flows).state(), decisions@, list@, prune).origins,
        decreases list,
    {
        let ghost start = flows.state();
        let mut r: Vec<Origin> = Vec::new();
        let mut i: usize = 0;
        while i < list.len()
            invariant
                i <= list@.len(),
                flows.state() == self.repeats_whole(start, decisions@, list@.take(i as int), prune).state,
                r@ == self.repeats_whole(start, decisions@, list@.take(i as int), prune).origins,
            decreases list.len() - i,
        {
            let ghost before = r@;
            if let Some(repeat) = &list[i].repeat {
                let again = self.eval_expr_inner(flows, decisions, repeat, prune);
                extend_origins(&mut r, &again);
            }
            proof {
                assert(list@.take(i + 1).drop_last() =~= list@.take(i as int));
                assert(before + Seq::<Origin>::empty() =~= before);
            }
            i = i + 1;
        }
        assert(list@.take(i as int) =~= list@);
        r
    }
}

/// The sum of two offsets; nothing where one is missing or it does not fit.
pub open spec fn shifted_axis(a: Option<isize>, b: Option<isize>) -> Option<isize> {
    match (a, b) {
        (Some(a), Some(b)) => if isize::MIN <= a + b <= isize::MAX {
            Some((a + b) as isize)
        } else {
            None
        },
        _ => None,
    }
}

fn shift_axis(a: Option<isize>, b: Option<isize>) -> (r: Option<isize>)
    ensures
        r == shifted_axis(a, b),
{
    match (a, b) {
        (Some(a), Some(b)) => a.checked_add(b),
        _ => None,
    }
}

pub open spec fn shifted(relation: PositionRelation, offset: PositionRelation) -> PositionRelation {
    PositionRelation {
        array: shifted_axis(relation.array, offset.array),
        packed: shifted_axis(relation.packed, offset.packed),
    }
}

fn shift(relation: PositionRelation, offset: PositionRelation) -> (r: PositionRelation)
    ensures
        r == shifted(relation, offset),
{
    PositionRelation {
        array: shift_axis(relation.array, offset.array),
        packed: shift_axis(relation.packed, offset.packed),
    }
}

/// How the relations of sources are changed.
#[derive(Clone, Copy, Debug, PartialEq, Eq, Structural)]
pub enum Change {
    /// By adding an offset.
    Translate(PositionRelation),
    ForgetArray,
    ForgetPacked,
    Widen,
}

pub open spec fn changed(source: FlowRef, change: Change) -> FlowRef {
    FlowRef {
        origin: source.origin,
        relation: match change {
            Change::Translate(offset) => shifted(source.relation, offset),
            Change::ForgetArray => PositionRelation { array: None, packed: source.relation.packed },
            Change::ForgetPacked => PositionRelation { array: source.relation.array, packed: None },
            Change::Widen => PositionRelation::anything(),
        },
    }
}

pub open spec fn all_changed(sources: Seq<FlowRef>, change: Change) -> Seq<FlowRef> {
    sources.map_values(|s: FlowRef| changed(s, change))
}

/// Changes the relation of every source.
pub fn change_all(sources: &Vec<FlowRef>, change: Change) -> (r: Vec<FlowRef>)
    ensures
        r@ == all_changed(sources@, change),
{
    let mut r: Vec<FlowRef> = Vec::new();
    let mut i: usize = 0;
    while i < sources.len()
        invariant
            i <= sources@.len(),
            r@ == all_changed(sources@.take(i as int), change),
        decreases sources@.len() - i,
    {
        let source = sources[i];
        let relation = match change {
            Change::Translate(offset) => shift(source.relation, offset),
            Change::ForgetArray => PositionRelation { array: None, packed: source.relation.packed },
            Change::ForgetPacked => PositionRelation { array: source.relation.array, packed: None },
            Change::Widen => PositionRelation::whole(),
        };
        r.push(FlowRef { origin: source.origin, relation });
        i = i + 1;
        assert(r@ =~= all_changed(sources@.take(i as int), change));
    }
    assert(sources@.take(i as int) =~= sources@);
    r
}

/// The same place moved along the packed bits, as far as that is known.
pub open spec fn packed_move(by: int) -> Change {
    if isize::MIN <= by <= isize::MAX {
        Change::Translate(PositionRelation { array: Some(0), packed: Some(by as isize) })
    } else {
        Change::Widen
    }
}

/// The same place moved along the array elements, as far as that is known.
pub open spec fn array_move(by: int) -> Change {
    if isize::MIN <= by <= isize::MAX {
        Change::Translate(PositionRelation { array: Some(by as isize), packed: Some(0) })
    } else {
        Change::Widen
    }
}

/// Moves every source up by a number of bits.
pub fn move_packed(by: usize) -> (r: Change)
    ensures
        r == packed_move(by as int),
{
    if by <= isize::MAX as usize {
        Change::Translate(PositionRelation { array: Some(0), packed: Some(by as isize) })
    } else {
        Change::Widen
    }
}

/// Moves every source down by a number of bits.
pub fn move_packed_back(by: usize) -> (r: Change)
    ensures
        r == (if by <= isize::MAX {
            packed_move(-by)
        } else {
            Change::Widen
        }),
{
    if by <= isize::MAX as usize {
        Change::Translate(PositionRelation { array: Some(0), packed: Some(-(by as isize)) })
    } else {
        Change::Widen
    }
}

/// Moves every source by a number of elements.
pub fn move_array(by: usize) -> (r: Change)
    ensures
        r == array_move(by as int),
{
    if by <= isize::MAX as usize {
        Change::Translate(PositionRelation { array: Some(by as isize), packed: Some(0) })
    } else {
        Change::Widen
    }
}

/// Adds sources to a list.
pub fn extend(list: &mut Vec<FlowRef>, more: &Vec<FlowRef>)
    ensures
        final(list)@ == old(list)@ + more@,
{
    let ghost before = list@;
    let mut i: usize = 0;
    while i < more.len()
        invariant
            i <= more@.len(),
            list@ == before + more@.take(i as int),
        decreases more@.len() - i,
    {
        list.push(more[i]);
        i = i + 1;
        assert(list@ =~= before + more@.take(i as int));
    }
    assert(more@.take(i as int) =~= more@);
}

pub open spec fn none(state: FlowState) -> Found {
    Found { state, sources: Seq::empty() }
}

pub open spec fn wide_found(found: Origins) -> Found {
    Found { state: found.state, sources: all_wide(found.origins) }
}

pub open spec fn both(a: Found, b: Found) -> Found {
    Found { state: b.state, sources: a.sources + b.sources }
}

pub open spec fn change_found(found: Found, change: Change) -> Found {
    Found { state: found.state, sources: all_changed(found.sources, change) }
}

/// One value under choices, from the sources; nothing where there are none.
pub open spec fn guarded_found(found: Found, decisions: Seq<Decision>) -> Found {
    if found.sources.len() == 0 {
        found
    } else {
        Found {
            state: found.state.with(FlowView::Guarded { sources: found.sources, decisions }),
            sources: seq![
                FlowRef { origin: found.state.next(), relation: PositionRelation::identity() },
            ],
        }
    }
}

/// A regular transfer of each source.
pub open spec fn repeated_each(
    found: Found,
    initial: PositionRelation,
    step: PositionRelation,
    domain: PositionDomain,
) -> Found
    decreases found.sources.len(),
{
    if found.sources.len() == 0 {
        found
    } else {
        let before = repeated_each(
            Found { state: found.state, sources: found.sources.drop_last() },
            initial,
            step,
            domain,
        );
        let last = found.sources.last();
        Found {
            state: before.state.with(
                FlowView::Repeated {
                    source: last.origin,
                    initial: shifted(last.relation, initial),
                    step,
                    domain,
                },
            ),
            sources: before.sources.push(
                FlowRef { origin: before.state.next(), relation: PositionRelation::identity() },
            ),
        }
    }
}

pub open spec fn domain_of(array: ArraySpan, packed: PackedSpan) -> PositionDomain {
    PositionDomain {
        array_start: array.start,
        array_length: array.length,
        packed_start: packed.start,
        packed_length: packed.length,
    }
}

/// Copies of an item of `item_length` bits fill `output_length` bits from `output_start` on.
pub open spec fn packed_repeat(
    found: Found,
    array: ArraySpan,
    output_start: usize,
    output_length: usize,
    item_length: usize,
) -> Found {
    let span = PackedSpan { start: output_start, length: output_length };
    if output_start <= isize::MAX && item_length <= isize::MAX && span.wf() {
        repeated_each(
            found,
            PositionRelation { array: Some(0), packed: Some(output_start as isize) },
            PositionRelation { array: Some(0), packed: Some(item_length as isize) },
            domain_of(array, span),
        )
    } else {
        change_found(found, Change::ForgetPacked)
    }
}

/// Copies of an item of `item_length` elements fill `output_length` elements from `output_start` on.
pub open spec fn array_repeat(
    found: Found,
    packed: PackedSpan,
    output_start: usize,
    output_length: usize,
    item_length: usize,
) -> Found {
    if output_start <= isize::MAX && item_length <= isize::MAX {
        repeated_each(
            found,
            PositionRelation { array: Some(output_start as isize), packed: Some(0) },
            PositionRelation { array: Some(item_length as isize), packed: Some(0) },
            domain_of(ArraySpan { start: output_start, length: output_length }, packed),
        )
    } else {
        change_found(found, Change::ForgetArray)
    }
}

impl<'a> Projector<'a> {
    fn regular_transfer(
        &self,
        flows: &mut Flows,
        sources: &Vec<FlowRef>,
        initial: PositionRelation,
        step: PositionRelation,
        domain: PositionDomain,
    ) -> (r: Vec<FlowRef>)
        ensures
            final(flows).state() == repeated_each(Found { state: old(flows).state(), sources: sources@ }, initial, step, domain).state,
            r@ == repeated_each(Found { state: old(flows).state(), sources: sources@ }, initial, step, domain).sources,
    {
        let ghost start = flows.state();
        let mut r: Vec<FlowRef> = Vec::new();
        let mut i: usize = 0;
        while i < sources.len()
            invariant
                i <= sources@.len(),
                flows.state() == repeated_each(Found { state: start, sources: sources@.take(i as int) }, initial, step, domain).state,
                r@ == repeated_each(Found { state: start, sources: sources@.take(i as int) }, initial, step, domain).sources,
            decreases sources@.len() - i,
        {
            let source = sources[i];
            let node = flows.push(
                FlowNode::Repeated {
                    source: source.origin,
                    initial: shift(source.relation, initial),
                    step,
                    domain,
                },
            );
            r.push(FlowRef { origin: node, relation: PositionRelation::default() });
            proof {
                assert(sources@.take(i + 1).drop_last() =~= sources@.take(i as int));
            }
            i = i + 1;
        }
        assert(sources@.take(i as int) =~= sources@);
        r
    }

    /// Sources that repeat along the bits.
    pub fn regular_packed_repeat(
        &self,
        flows: &mut Flows,
        sources: &Vec<FlowRef>,
        array: ArraySpan,
        output_start: usize,
        output_length: usize,
        item_length: usize,
    ) -> (r: Vec<FlowRef>)
        ensures
            final(flows).state() == packed_repeat(Found { state: old(flows).state(), sources: sources@ }, array, output_start, output_length, item_length).state,
            r@ == packed_repeat(Found { state: old(flows).state(), sources: sources@ }, array, output_start, output_length, item_length).sources,
    {
        if output_start <= isize::MAX as usize && item_length <= isize::MAX as usize {
            if let Some(span) = PackedSpan::new(output_start, output_length) {
                return self.regular_transfer(
                    flows,
                    sources,
                    PositionRelation { array: Some(0), packed: Some(output_start as isize) },
                    PositionRelation { array: Some(0), packed: Some(item_length as isize) },
                    PositionDomain {
                        array_start: array.start,
                        array_length: array.length,
                        packed_start: span.start,
                        packed_length: span.length,
                    },
                );
            }
        }
        change_all(sources, Change::ForgetPacked)
    }

    /// Sources that repeat along the elements.
    pub fn regular_array_repeat(
        &self,
        flows: &mut Flows,
        sources: &Vec<FlowRef>,
        packed: PackedSpan,
        output_start: usize,
        output_length: usize,
        item_length: usize,
    ) -> (r: Vec<FlowRef>)
        ensures
            final(flows).state() == array_repeat(Found { state: old(flows).state(), sources: sources@ }, packed, output_start, output_length, item_length).state,
            r@ == array_repeat(Found { state: old(flows).state(), sources: sources@ }, packed, output_start, output_length, item_length).sources,
    {
        if output_start <= isize::MAX as usize && item_length <= isize::MAX as usize {
            return self.regular_transfer(
                flows,
                sources,
                PositionRelation { array: Some(output_start as isize), packed: Some(0) },
                PositionRelation { array: Some(item_length as isize), packed: Some(0) },
                PositionDomain {
                    array_start: output_start,
                    array_length: output_length,
                    packed_start: packed.start,
                    packed_length: packed.length,
                },
            );
        }
        change_all(sources, Change::ForgetArray)
    }

    /// The sources under the decisions.
    pub fn guard_expression_sources(&self, flows: &mut Flows, sources: Vec<FlowRef>, decisions: Vec<Decision>) -> (r: Vec<FlowRef>)
        ensures
            final(flows).state() == guarded_found(Found { state: old(flows).state(), sources: sources@ }, decisions@).state,
            r@ == guarded_found(Found { state: old(flows).state(), sources: sources@ }, decisions@).sources,
    {
        if sources.len() == 0 {
            return sources;
        }
        let node = flows.push(FlowNode::Guarded { sources, decisions });
        let mut r: Vec<FlowRef> = Vec::new();
        r.push(FlowRef { origin: node, relation: PositionRelation::default() });
        assert(r@ =~= seq![FlowRef { origin: node, relation: PositionRelation::identity() }]);
        r
    }
}

} // verus!
