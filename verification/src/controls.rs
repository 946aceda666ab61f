//! What decides on a statement decides on the values that it writes.
use vstd::prelude::*;
use crate::arena::PathCondition;
use crate::assign;
use crate::assigning;
use crate::assigning::Planned;
use crate::bounds::LoopPlan;
use crate::branches;
use crate::branches::Branch;
use crate::flow::{FlowTree, ProcedureFlow};
use crate::flows;
use crate::ir::{Access, CaseArm, Expression, Iterations, Node, Operand, Pattern, Statement, SystemCall, SystemKind};
use crate::layout::EvaluationCache;
use crate::machine;
use crate::machine::{Evaluated, Machine};
use crate::partition::NodeKey;
use crate::path::BranchId;
use crate::predicates;
use crate::procedure;
use crate::selection;
use crate::selection::CasePlan;
use crate::sequence;
use crate::sequence::FlowState;
use crate::ssa;
use crate::ssa::{Binding, BranchState, SsaStore, Version};
use crate::state;
use crate::steps;
use crate::targets::WriteKeys;
use crate::values;
use crate::values::Program;
use crate::writes;
use crate::writes::KeyWrite;

verus! {

/// The value of `v` is made from that of `w`.
pub open spec fn made_from(versions: Seq<Version>, v: usize, w: usize) -> bool {
    v < versions.len() && match versions[v as int] {
        Version::Definition { sources, condition } => exists|i: int| 0 <= i < sources@.len() && (#[trigger] sources@[i]).version == w,
        Version::Phi(list) => list@.contains(w),
        Version::Projected { source, domain } => source == w,
        Version::Repeated { source, initial, step, domain } => source == w,
        _ => false,
    }
}

pub open spec fn next_made_from(versions: Seq<Version>, chain: Seq<usize>, i: int) -> bool {
    made_from(versions, chain[i], chain[i + 1])
}

/// Each version of the chain is made from the next.
pub open spec fn leads_back(versions: Seq<Version>, chain: Seq<usize>, v: usize, w: usize) -> bool {
    &&& chain.len() > 0
    &&& chain[0] == v
    &&& chain.last() == w
    &&& forall|i: int| 0 <= i < chain.len() - 1 ==> #[trigger] next_made_from(versions, chain, i)
}

/// The value of `v` depends on that of `w`, over any number of others.
pub open spec fn depends_on(versions: Seq<Version>, v: usize, w: usize) -> bool {
    exists|chain: Seq<usize>| leads_back(versions, chain, v, w)
}

/// The value of `v` depends on all of the controls.
pub open spec fn depends_on_all(versions: Seq<Version>, v: usize, controls: Seq<usize>) -> bool {
    forall|c: usize| #[trigger] controls.contains(c) ==> depends_on(versions, v, c)
}

/// Every key has the version that it had, or one that depends on all of the controls.
pub open spec fn kept_or_controlled(versions: Seq<Version>, before: Map<u64, usize>, after: Map<u64, usize>, controls: Seq<usize>) -> bool {
    forall|key: u64| #[trigger]
        ssa::binding_of(after, key) == ssa::binding_of(before, key) || (ssa::binding_of(after, key) matches Some(v) && depends_on_all(versions, v, controls))
}

proof fn lemma_depends_self(versions: Seq<Version>, v: usize)
    ensures
        depends_on(versions, v, v),
{
    let chain = seq![v];
    assert(leads_back(versions, chain, v, v));
}

proof fn lemma_depends_step(versions: Seq<Version>, v: usize, w: usize, x: usize)
    requires
        made_from(versions, v, w),
        depends_on(versions, w, x),
    ensures
        depends_on(versions, v, x),
{
    let chain = choose|chain: Seq<usize>| leads_back(versions, chain, w, x);
    let longer = seq![v] + chain;
    assert forall|i: int| 0 <= i < longer.len() - 1 implies #[trigger] next_made_from(versions, longer, i) by {
        if i > 0 {
            assert(next_made_from(versions, chain, i - 1));
        }
    }
    assert(longer.last() == x);
    assert(leads_back(versions, longer, v, x));
}

proof fn lemma_depends_grows(a: Seq<Version>, b: Seq<Version>, v: usize, w: usize)
    requires
        ssa::versions_grow(a, b),
        depends_on(a, v, w),
    ensures
        depends_on(b, v, w),
{
    let chain = choose|chain: Seq<usize>| leads_back(a, chain, v, w);
    assert forall|i: int| 0 <= i < chain.len() - 1 implies #[trigger] next_made_from(b, chain, i) by {
        assert(next_made_from(a, chain, i));
        assert(a[chain[i] as int] == b[chain[i] as int]);
    }
    assert(leads_back(b, chain, v, w));
}

proof fn lemma_all_grows(a: Seq<Version>, b: Seq<Version>, v: usize, controls: Seq<usize>)
    requires
        ssa::versions_grow(a, b),
        depends_on_all(a, v, controls),
    ensures
        depends_on_all(b, v, controls),
{
    assert forall|c: usize| #[trigger] controls.contains(c) implies depends_on(b, v, c) by {
        lemma_depends_grows(a, b, v, c);
    }
}

/// The one list holds what the other does.
pub open spec fn holds_all(more: Seq<usize>, list: Seq<usize>) -> bool {
    forall|c: usize| #[trigger] list.contains(c) ==> more.contains(c)
}

proof fn lemma_holds_joined(a: Seq<usize>, b: Seq<usize>)
    ensures
        holds_all(a + b, a),
        holds_all(a + b, b),
{
    assert forall|c: usize| #[trigger] a.contains(c) implies (a + b).contains(c) by {
        let i = choose|i: int| 0 <= i < a.len() && a[i] == c;
        assert((a + b)[i] == c);
    }
    assert forall|c: usize| #[trigger] b.contains(c) implies (a + b).contains(c) by {
        let i = choose|i: int| 0 <= i < b.len() && b[i] == c;
        assert((a + b)[a.len() + i] == c);
    }
}

proof fn lemma_kept_grows(a: Seq<Version>, b: Seq<Version>, before: Map<u64, usize>, after: Map<u64, usize>, controls: Seq<usize>, fewer: Seq<usize>)
    requires
        ssa::versions_grow(a, b),
        kept_or_controlled(a, before, after, controls),
        holds_all(controls, fewer),
    ensures
        kept_or_controlled(b, before, after, fewer),
{
    assert forall|key: u64| #[trigger] ssa::binding_of(after, key) == ssa::binding_of(before, key) || (ssa::binding_of(after, key) matches Some(v)
        && depends_on_all(b, v, fewer)) by {
        if ssa::binding_of(after, key) != ssa::binding_of(before, key) {
            let v = ssa::binding_of(after, key)->0;
            lemma_all_grows(a, b, v, controls);
            assert forall|c: usize| #[trigger] fewer.contains(c) implies depends_on(b, v, c) by {
                assert(controls.contains(c));
            }
        }
    }
}

proof fn lemma_kept_twice(versions: Seq<Version>, a: Map<u64, usize>, b: Map<u64, usize>, c: Map<u64, usize>, controls: Seq<usize>)
    requires
        kept_or_controlled(versions, a, b, controls),
        kept_or_controlled(versions, b, c, controls),
    ensures
        kept_or_controlled(versions, a, c, controls),
{
    assert forall|key: u64| #[trigger] ssa::binding_of(c, key) == ssa::binding_of(a, key) || (ssa::binding_of(c, key) matches Some(v) && depends_on_all(
        versions,
        v,
        controls,
    )) by {
        assert(ssa::binding_of(b, key) == ssa::binding_of(a, key) || (ssa::binding_of(b, key) matches Some(v) && depends_on_all(versions, v, controls)));
    }
}

/// All keys have the versions that they had.
pub open spec fn same_bindings(a: Map<u64, usize>, b: Map<u64, usize>) -> bool {
    forall|key: u64| #[trigger] ssa::binding_of(b, key) == ssa::binding_of(a, key)
}

/// Versions were only added, what can be taken back is the same, and what was not known stays so.
pub open spec fn steady(a: Machine, b: Machine) -> bool {
    &&& ssa::versions_grow(a.store.versions@, b.store.versions@)
    &&& b.store.checkpoints@ == a.store.checkpoints@
    &&& ssa::saved_same(a.store, b.store, a.store.checkpoints@.len() as int)
    &&& b.complete ==> a.complete
}

proof fn lemma_steady_twice(a: Machine, b: Machine, c: Machine)
    requires
        steady(a, b),
        steady(b, c),
    ensures
        steady(a, c),
{
    assert forall|depth: int| 0 <= depth < a.store.checkpoints@.len() implies #[trigger] c.store.saved(depth) == a.store.saved(depth) by {
        assert(b.store.saved(depth) == a.store.saved(depth));
    }
}

/// Nothing but versions was added.
spec fn quiet(a: Machine, b: Machine) -> bool {
    &&& steady(a, b)
    &&& same_bindings(a.store.current@, b.store.current@)
    &&& b.loops == a.loops
}

proof fn lemma_quiet_twice(a: Machine, b: Machine, c: Machine)
    requires
        quiet(a, b),
        quiet(b, c),
    ensures
        quiet(a, c),
{
    lemma_steady_twice(a, b, c);
    assert forall|key: u64| #[trigger] ssa::binding_of(c.store.current@, key) == ssa::binding_of(a.store.current@, key) by {
        assert(ssa::binding_of(b.store.current@, key) == ssa::binding_of(a.store.current@, key));
    }
}

proof fn lemma_quiet_same(a: Machine, b: Machine)
    requires
        steps::same(a, b),
    ensures
        quiet(a, b),
{
}

/// Nothing is called in the expression, and nothing is loaded.
pub open spec fn calls_nothing(e: Expression) -> bool
    decreases e,
{
    match e.node {
        Node::Variable(access) => access_calls_nothing(access),
        Node::Call(_) => false,
        Node::System(call) => call.kind != SystemKind::Load && all_call_nothing(call.inputs@),
        Node::Unary(_, operand) => calls_nothing(*operand),
        Node::Binary(left, _, right) => calls_nothing(*left) && calls_nothing(*right),
        Node::Ternary(condition, yes, no) => calls_nothing(*condition) && calls_nothing(*yes) && calls_nothing(*no),
        Node::Concatenation(parts) => operands_call_nothing(parts@),
        Node::ArrayLiteral(parts) => operands_call_nothing(parts@),
        Node::Struct(parts) => operands_call_nothing(parts@),
        _ => true,
    }
}

pub open spec fn access_calls_nothing(access: Access) -> bool
    decreases access,
{
    all_call_nothing(access.index@) && all_call_nothing(access.select@)
}

pub open spec fn all_call_nothing(list: Seq<Expression>) -> bool
    decreases list,
{
    forall|i: int| 0 <= i < list.len() ==> calls_nothing(#[trigger] list[i])
}

pub open spec fn operand_calls_nothing(operand: Operand) -> bool
    decreases operand,
{
    calls_nothing(operand.value) && (operand.repeat matches Some(repeat) ==> calls_nothing(repeat))
}

pub open spec fn operands_call_nothing(list: Seq<Operand>) -> bool
    decreases list,
{
    forall|i: int| 0 <= i < list.len() ==> operand_calls_nothing(#[trigger] list[i])
}

pub open spec fn accesses_call_nothing(list: Seq<Access>) -> bool {
    forall|i: int| 0 <= i < list.len() ==> access_calls_nothing(#[trigger] list[i])
}

pub open spec fn pattern_calls_nothing(pattern: Pattern) -> bool {
    match pattern {
        Pattern::Equal(e) => calls_nothing(e),
        Pattern::Range { low, high, inclusive } => calls_nothing(low) && calls_nothing(high),
    }
}

pub open spec fn patterns_call_nothing(list: Seq<Pattern>) -> bool {
    forall|i: int| 0 <= i < list.len() ==> pattern_calls_nothing(#[trigger] list[i])
}

/// Nothing is called in the statement, and the iterations of its loops are known.
pub open spec fn runs_here(statement: Statement) -> bool
    decreases statement,
{
    match statement {
        Statement::Assign { destinations, value } => accesses_call_nothing(destinations@) && calls_nothing(value),
        Statement::If { condition, yes, no } => calls_nothing(condition) && all_run_here(yes@) && all_run_here(no@),
        Statement::Case { target, arms, otherwise, facts } => calls_nothing(target) && arms_run_here(arms@) && all_run_here(otherwise@),
        Statement::For { bounds, body, range, iterations } => all_call_nothing(bounds@) && match iterations {
            Iterations::Known(list) => blocks_run_here(list@),
            Iterations::TooMany => true,
            Iterations::Runtime(_) => procedure::loop_plan_of(range, iterations) != LoopPlan::Summarize,
        },
        Statement::Call(_) => false,
        Statement::System(call) => all_call_nothing(call.inputs@) && accesses_call_nothing(call.outputs@),
        _ => true,
    }
}

pub open spec fn all_run_here(list: Seq<Statement>) -> bool
    decreases list,
{
    forall|i: int| 0 <= i < list.len() ==> runs_here(#[trigger] list[i])
}

pub open spec fn arm_runs_here(arm: CaseArm) -> bool
    decreases arm,
{
    patterns_call_nothing(arm.patterns@) && all_run_here(arm.body@)
}

pub open spec fn arms_run_here(arms: Seq<CaseArm>) -> bool
    decreases arms,
{
    forall|i: int| 0 <= i < arms.len() ==> arm_runs_here(#[trigger] arms[i])
}

pub open spec fn blocks_run_here(list: Seq<Vec<Statement>>) -> bool
    decreases list,
{
    forall|i: int| 0 <= i < list.len() ==> all_run_here((#[trigger] list[i])@)
}

proof fn lemma_nothing_bound(bindings: Seq<Binding>, current: Map<u64, usize>, base: Map<u64, usize>, key: u64)
    requires
        state::lists_changes(bindings, current, base),
        same_bindings(base, current),
    ensures
        !ssa::binds(bindings, key),
{
    if ssa::binds(bindings, key) {
        let i = choose|i: int| 0 <= i < bindings.len() && (#[trigger] bindings[i]).key == key;
        let v = bindings[i].version;
        assert(bindings[i] == Binding { key, version: v });
        assert(ssa::bound(bindings, key, v));
        assert(ssa::binding_of(current, key) == ssa::binding_of(base, key));
    }
}

proof fn lemma_quiet_opened(a: Machine, opened: Machine, n: Machine, defined: SsaStore, b: Machine)
    requires
        ssa::scope_opened(a.store, opened.store),
        opened.loops == a.loops,
        opened.complete == a.complete,
        quiet(opened, n),
        ssa::versions_grow(n.store.versions@, defined.versions@),
        defined.current@ == n.store.current@,
        defined.undo@ == n.store.undo@,
        defined.checkpoints@ == n.store.checkpoints@,
        ssa::scope_closed(defined, b.store),
        b.store.current@ == a.store.current@,
        b.store.checkpoints@ == a.store.checkpoints@,
        b.loops == n.loops,
        b.complete == n.complete,
    ensures
        quiet(a, b),
{
    let count = a.store.checkpoints@.len() as int;
    assert forall|depth: int| 0 <= depth < count implies #[trigger] b.store.saved(depth) == a.store.saved(depth) by {
        assert(opened.store.saved(depth) == a.store.saved(depth));
        assert(n.store.saved(depth) == opened.store.saved(depth));
        assert(defined.saved(depth) == n.store.saved(depth));
    }
}

proof fn lemma_quiet_joined(a: Machine, b: Machine, states: Seq<BranchState>, parent: PathCondition)
    requires
        steps::arms_joined(a, b, states, parent),
        forall|key: u64| !#[trigger] state::some_binds(states, key),
    ensures
        quiet(a, b),
{
    assert forall|key: u64| #[trigger] ssa::binding_of(b.store.current@, key) == ssa::binding_of(a.store.current@, key) by {
        assert(!state::some_binds(states, key));
    }
}

proof fn lemma_quiet_arm<'a>(
    p: Program<'a>,
    depth: nat,
    e: Expression,
    branch: BranchId,
    arm: usize,
    parent: PathCondition,
    a: Machine,
    b: Machine,
    st: BranchState,
    versions: Seq<usize>,
)
    requires
        calls_nothing(e),
        procedure::ran_expr_arm(p, depth, e, branch, arm, parent, a, b, st, versions),
    ensures
        quiet(a, b),
        forall|key: u64| !#[trigger] ssa::binds(st.bindings@, key),
    decreases e, 1nat,
{
    let (opened, n, reads) = choose|opened: Machine, n: Machine, reads: Seq<usize>| #[trigger]
        procedure::way_arm(opened, n, reads) && machine::opens(a, opened, branch, arm, parent) && procedure::ran_expr(p, depth, e, opened, n, reads)
            && steps::arm_left_to(a, n, b, Some(reads), st, versions);
    lemma_quiet_expr(p, depth, e, opened, n, reads);
    let defined = choose|defined: SsaStore| #[trigger] steps::arm_left(a, n, defined, b, Some(reads), st, versions);
    lemma_quiet_opened(a, opened, n, defined, b);
    assert forall|key: u64| !#[trigger] ssa::binds(st.bindings@, key) by {
        lemma_nothing_bound(st.bindings@, n.store.current@, a.store.current@, key);
    }
}

proof fn lemma_quiet_skipped(branch: BranchId, arm: usize, parent: PathCondition, a: Machine, b: Machine, st: BranchState)
    requires
        procedure::skipped_arm(branch, arm, parent, a, b, st),
    ensures
        quiet(a, b),
        forall|key: u64| !#[trigger] ssa::binds(st.bindings@, key),
{
    let opened = choose|opened: Machine| #[trigger]
        machine::opens(a, opened, branch, arm, parent) && steps::arm_left_to(a, opened, b, None, st, Seq::empty());
    let defined = choose|defined: SsaStore| #[trigger] steps::arm_left(a, opened, defined, b, None, st, Seq::empty());
    lemma_quiet_opened(a, opened, opened, defined, b);
    assert forall|key: u64| !#[trigger] ssa::binds(st.bindings@, key) by {
        lemma_nothing_bound(st.bindings@, opened.store.current@, a.store.current@, key);
    }
}

proof fn lemma_none_binds(one: BranchState, two: BranchState, states: Seq<BranchState>)
    requires
        states == seq![one, two],
        forall|key: u64| !#[trigger] ssa::binds(one.bindings@, key),
        forall|key: u64| !#[trigger] ssa::binds(two.bindings@, key),
    ensures
        forall|key: u64| !#[trigger] state::some_binds(states, key),
{
    assert forall|key: u64| !#[trigger] state::some_binds(states, key) by {
        if state::some_binds(states, key) {
            let i = choose|i: int| 0 <= i < states.len() && ssa::binds((#[trigger] states[i]).bindings@, key);
            assert(states[i] == one || states[i] == two);
        }
    }
}

proof fn lemma_quiet_choice(m: Machine, n: Machine, occurrence: usize, branch: BranchId)
    requires
        steps::choice_numbered(m, n, occurrence, branch),
    ensures
        quiet(m, n),
{
}

/// Evaluating an expression that calls nothing binds nothing.
proof fn lemma_quiet_expr<'a>(p: Program<'a>, depth: nat, e: Expression, a: Machine, b: Machine, reads: Seq<usize>)
    requires
        calls_nothing(e),
        procedure::ran_expr(p, depth, e, a, b, reads),
    ensures
        quiet(a, b),
    decreases e, 0nat,
{
    match e.node {
        Node::Variable(access) => {
            if !values::was_read(a, e.occurrence) {
                let (m, first, n, second) = choose|m: Machine, first: Seq<usize>, n: Machine, second: Seq<usize>| #[trigger]
                    procedure::way_both(m, first, n, second) && procedure::ran_exprs(p, depth, access.index@, access.index@.len() as int, a, m, first)
                        && procedure::ran_exprs(p, depth, access.select@, access.select@.len() as int, m, n, second) && procedure::variable_read_by(
                        p,
                        access,
                        e.occurrence,
                        first + second,
                        n,
                        b,
                        reads,
                    );
                assert(access_calls_nothing(access));
                lemma_quiet_exprs(p, depth, access.index@, access.index@.len() as int, a, m, first);
                lemma_quiet_exprs(p, depth, access.select@, access.select@.len() as int, m, n, second);
                lemma_quiet_twice(a, m, n);
                lemma_quiet_twice(a, n, b);
            }
        },
        Node::Hierarchical(_) => {},
        Node::Constant => {},
        Node::Unknown => {},
        Node::Call(_) => {},
        Node::System(call) => {
            lemma_quiet_system(p, depth, call, a, b, reads);
        },
        Node::Unary(_, operand) => {
            lemma_quiet_expr(p, depth, *operand, a, b, reads);
        },
        Node::Binary(left, op, right) => {
            let (m, found, n, other) = choose|m: Machine, found: Seq<usize>, n: Machine, other: Seq<usize>| #[trigger]
                procedure::way_both(m, found, n, other) && procedure::ran_expr(p, depth, *left, a, m, found) && match flows::evaluates_right(*left, op, true) {
                    Some(false) => steps::same(m, b) && values::sorted_from(reads, found),
                    Some(true) => procedure::ran_expr(p, depth, *right, m, b, other) && values::sorted_from(reads, found + other),
                    None => exists|branch: BranchId, first: Machine, yes: BranchState, second: Machine, no: BranchState| #[trigger]
                        procedure::way_choice(n, branch, first, yes, other, second, no, Seq::empty()) && steps::choice_numbered(m, n, e.occurrence, branch)
                            && procedure::ran_expr_arm(p, depth, *right, branch, 0, m.condition, n, first, yes, other) && procedure::skipped_arm(
                            branch,
                            1,
                            m.condition,
                            first,
                            second,
                            no,
                        ) && steps::arms_joined(second, b, seq![yes, no], m.condition) && values::sorted_from(reads, found + other),
                };
            lemma_quiet_expr(p, depth, *left, a, m, found);
            match flows::evaluates_right(*left, op, true) {
                Some(false) => {
                    lemma_quiet_same(m, b);
                },
                Some(true) => {
                    lemma_quiet_expr(p, depth, *right, m, b, other);
                },
                None => {
                    let (branch, first, yes, second, no) = choose|branch: BranchId, first: Machine, yes: BranchState, second: Machine, no: BranchState| #[trigger]
                        procedure::way_choice(n, branch, first, yes, other, second, no, Seq::empty()) && steps::choice_numbered(m, n, e.occurrence, branch)
                            && procedure::ran_expr_arm(p, depth, *right, branch, 0, m.condition, n, first, yes, other) && procedure::skipped_arm(
                            branch,
                            1,
                            m.condition,
                            first,
                            second,
                            no,
                        ) && steps::arms_joined(second, b, seq![yes, no], m.condition) && values::sorted_from(reads, found + other);
                    lemma_quiet_choice(m, n, e.occurrence, branch);
                    lemma_quiet_arm(p, depth, *right, branch, 0, m.condition, n, first, yes, other);
                    lemma_quiet_skipped(branch, 1, m.condition, first, second, no);
                    lemma_none_binds(yes, no, seq![yes, no]);
                    lemma_quiet_joined(second, b, seq![yes, no], m.condition);
                    lemma_quiet_twice(m, n, first);
                    lemma_quiet_twice(m, first, second);
                    lemma_quiet_twice(m, second, b);
                },
            }
            lemma_quiet_twice(a, m, b);
        },
        Node::Ternary(condition, left, right) => {
            let (m, found, n, other) = choose|m: Machine, found: Seq<usize>, n: Machine, other: Seq<usize>| #[trigger]
                procedure::way_both(m, found, n, other) && procedure::ran_expr(p, depth, *condition, a, m, found) && match flows::truth_of(*condition) {
                    Some(true) => procedure::ran_expr(p, depth, *left, m, b, other) && values::sorted_from(reads, found + other),
                    Some(false) => procedure::ran_expr(p, depth, *right, m, b, other) && values::sorted_from(reads, found + other),
                    None => exists|branch: BranchId, first: Machine, yes: BranchState, second: Machine, no: BranchState, more: Seq<usize>| #[trigger]
                        procedure::way_choice(n, branch, first, yes, other, second, no, more) && steps::choice_numbered(m, n, e.occurrence, branch)
                            && procedure::ran_expr_arm(p, depth, *left, branch, 0, m.condition, n, first, yes, other) && procedure::ran_expr_arm(
                            p,
                            depth,
                            *right,
                            branch,
                            1,
                            m.condition,
                            first,
                            second,
                            no,
                            more,
                        ) && steps::arms_joined(second, b, seq![yes, no], m.condition) && values::sorted_from(reads, found + other + more),
                };
            lemma_quiet_expr(p, depth, *condition, a, m, found);
            match flows::truth_of(*condition) {
                Some(true) => {
                    lemma_quiet_expr(p, depth, *left, m, b, other);
                },
                Some(false) => {
                    lemma_quiet_expr(p, depth, *right, m, b, other);
                },
                None => {
                    let (branch, first, yes, second, no, more) = choose|
                        branch: BranchId,
                        first: Machine,
                        yes: BranchState,
                        second: Machine,
                        no: BranchState,
                        more: Seq<usize>,
                    | #[trigger]
                        procedure::way_choice(n, branch, first, yes, other, second, no, more) && steps::choice_numbered(m, n, e.occurrence, branch)
                            && procedure::ran_expr_arm(p, depth, *left, branch, 0, m.condition, n, first, yes, other) && procedure::ran_expr_arm(
                            p,
                            depth,
                            *right,
                            branch,
                            1,
                            m.condition,
                            first,
                            second,
                            no,
                            more,
                        ) && steps::arms_joined(second, b, seq![yes, no], m.condition) && values::sorted_from(reads, found + other + more);
                    lemma_quiet_choice(m, n, e.occurrence, branch);
                    lemma_quiet_arm(p, depth, *left, branch, 0, m.condition, n, first, yes, other);
                    lemma_quiet_arm(p, depth, *right, branch, 1, m.condition, first, second, no, more);
                    lemma_none_binds(yes, no, seq![yes, no]);
                    lemma_quiet_joined(second, b, seq![yes, no], m.condition);
                    lemma_quiet_twice(m, n, first);
                    lemma_quiet_twice(m, first, second);
                    lemma_quiet_twice(m, second, b);
                },
            }
            lemma_quiet_twice(a, m, b);
        },
        Node::Concatenation(parts) => {
            let found = choose|found: Seq<usize>| #[trigger]
                procedure::way(b, found, reads) && procedure::ran_operands(p, depth, parts@, parts@.len() as int, a, b, found) && values::sorted_from(reads, found);
            lemma_quiet_operands(p, depth, parts@, parts@.len() as int, a, b, found);
        },
        Node::ArrayLiteral(parts) => {
            let found = choose|found: Seq<usize>| #[trigger]
                procedure::way(b, found, reads) && procedure::ran_operands(p, depth, parts@, parts@.len() as int, a, b, found) && values::sorted_from(reads, found);
            lemma_quiet_operands(p, depth, parts@, parts@.len() as int, a, b, found);
        },
        Node::Struct(parts) => {
            let found = choose|found: Seq<usize>| #[trigger]
                procedure::way(b, found, reads) && procedure::ran_operands(p, depth, parts@, parts@.len() as int, a, b, found) && values::sorted_from(reads, found);
            lemma_quiet_operands(p, depth, parts@, parts@.len() as int, a, b, found);
        },
    }
}

proof fn lemma_quiet_exprs<'a>(p: Program<'a>, depth: nat, list: Seq<Expression>, count: int, a: Machine, b: Machine, reads: Seq<usize>)
    requires
        all_call_nothing(list),
        procedure::ran_exprs(p, depth, list, count, a, b, reads),
    ensures
        quiet(a, b),
    decreases list, count as nat,
{
    if count <= 0 || count > list.len() {
    } else {
        let (m, before, found) = choose|m: Machine, before: Seq<usize>, found: Seq<usize>| #[trigger]
            procedure::way(m, before, found) && procedure::ran_exprs(p, depth, list, count - 1, a, m, before) && procedure::ran_expr(p, depth, list[count - 1], m, b, found)
                && reads == before + found;
        lemma_quiet_exprs(p, depth, list, count - 1, a, m, before);
        assert(calls_nothing(list[count - 1]));
        lemma_quiet_expr(p, depth, list[count - 1], m, b, found);
        lemma_quiet_twice(a, m, b);
    }
}

proof fn lemma_quiet_operands<'a>(p: Program<'a>, depth: nat, list: Seq<Operand>, count: int, a: Machine, b: Machine, reads: Seq<usize>)
    requires
        operands_call_nothing(list),
        procedure::ran_operands(p, depth, list, count, a, b, reads),
    ensures
        quiet(a, b),
    decreases list, count as nat,
{
    if count <= 0 || count > list.len() {
    } else {
        let (m, before, n, found) = choose|m: Machine, before: Seq<usize>, n: Machine, found: Seq<usize>| #[trigger]
            procedure::way_both(m, before, n, found) && procedure::ran_operands(p, depth, list, count - 1, a, m, before) && procedure::ran_expr(
                p,
                depth,
                list[count - 1].value,
                m,
                n,
                found,
            ) && match list[count - 1].repeat {
                None => steps::same(n, b) && reads == before + found,
                Some(repeat) => exists|times: Seq<usize>| #[trigger]
                    procedure::way(b, found, times) && procedure::ran_expr(p, depth, repeat, n, b, times) && reads == before + found + times,
            };
        lemma_quiet_operands(p, depth, list, count - 1, a, m, before);
        let operand = list[count - 1];
        assert(operand_calls_nothing(operand));
        lemma_quiet_expr(p, depth, operand.value, m, n, found);
        match operand.repeat {
            None => {
                lemma_quiet_same(n, b);
            },
            Some(repeat) => {
                let times = choose|times: Seq<usize>| #[trigger]
                    procedure::way(b, found, times) && procedure::ran_expr(p, depth, repeat, n, b, times) && reads == before + found + times;
                lemma_quiet_expr(p, depth, repeat, n, b, times);
            },
        }
        lemma_quiet_twice(a, m, n);
        lemma_quiet_twice(a, n, b);
    }
}

proof fn lemma_quiet_system<'a>(p: Program<'a>, depth: nat, call: SystemCall, a: Machine, b: Machine, reads: Seq<usize>)
    requires
        call.kind != SystemKind::Load,
        all_call_nothing(call.inputs@),
        procedure::ran_system(p, depth, call, Seq::empty(), a, b, reads),
    ensures
        quiet(a, b),
    decreases call, 1nat,
{
    match call.kind {
        SystemKind::Query => {},
        SystemKind::Onehot | SystemKind::Cast => {
            let found = choose|found: Seq<usize>| #[trigger]
                procedure::way(b, found, reads) && procedure::ran_exprs(p, depth, call.inputs@, call.inputs@.len() as int, a, b, found) && values::sorted_from(reads, found);
            lemma_quiet_exprs(p, depth, call.inputs@, call.inputs@.len() as int, a, b, found);
        },
        SystemKind::Load => {},
        SystemKind::Effect => {
            let found = choose|found: Seq<usize>| #[trigger]
                procedure::way(b, found, reads) && procedure::ran_exprs(p, depth, call.inputs@, call.inputs@.len() as int, a, b, found);
            lemma_quiet_exprs(p, depth, call.inputs@, call.inputs@.len() as int, a, b, found);
        },
    }
}

/// What was written depends on all of the controls.
spec fn writes_controlled(a: Machine, b: Machine, controls: Seq<usize>) -> bool {
    &&& steady(a, b)
    &&& b.loops == a.loops
    &&& b.complete ==> kept_or_controlled(b.store.versions@, a.store.current@, b.store.current@, controls)
}

proof fn lemma_quiet_controlled(a: Machine, b: Machine, controls: Seq<usize>)
    requires
        quiet(a, b),
    ensures
        writes_controlled(a, b, controls),
{
    assert forall|key: u64| #[trigger] ssa::binding_of(b.store.current@, key) == ssa::binding_of(a.store.current@, key) by {}
}

proof fn lemma_controlled_twice(a: Machine, b: Machine, c: Machine, controls: Seq<usize>)
    requires
        writes_controlled(a, b, controls),
        writes_controlled(b, c, controls),
    ensures
        writes_controlled(a, c, controls),
{
    lemma_steady_twice(a, b, c);
    if c.complete {
        lemma_kept_grows(b.store.versions@, c.store.versions@, a.store.current@, b.store.current@, controls, controls);
        lemma_kept_twice(c.store.versions@, a.store.current@, b.store.current@, c.store.current@, controls);
    }
}

/// A key that is bound to a version that depends on the controls, or may be.
proof fn lemma_bound(before: SsaStore, after: SsaStore, key: u64, version: usize, weak: bool, controls: Seq<usize>)
    requires
        writes::is_bound(before, after, key, version, weak),
        depends_on_all(after.versions@, version, controls),
    ensures
        ssa::binding_of(after.current@, key) matches Some(v) && depends_on_all(after.versions@, v, controls),
{
    if weak {
        let v = after.current@[key];
        let inputs = if before.current@.contains_key(key) {
            set![before.current@[key], version]
        } else {
            set![after.entries@[key], version]
        };
        assert(inputs.contains(version));
        if exists|x: usize| inputs == set![x] {
            let x = choose|x: usize| inputs == set![x];
            assert(set![x].contains(v));
            assert(set![x].contains(version));
            assert(v == version);
        } else {
            assert(made_from(after.versions@, v, version));
            assert forall|c: usize| #[trigger] controls.contains(c) implies depends_on(after.versions@, v, c) by {
                lemma_depends_step(after.versions@, v, version, c);
            }
        }
    }
}

/// A definition depends on its sources.
proof fn lemma_defined(versions: Seq<Version>, version: usize, sources: Seq<crate::relation::SourceRef>, condition: PathCondition, i: int)
    requires
        writes::is_definition(versions, version as int, sources, condition),
        0 <= i < sources.len(),
    ensures
        made_from(versions, version, sources[i].version),
{
    if let Version::Definition { sources: list, condition: guard } = versions[version as int] {
        assert(sources.contains(sources[i]));
        assert(list@.contains(sources[i]));
        let k = choose|k: int| 0 <= k < list@.len() && list@[k] == sources[i];
        assert(list@[k].version == sources[i].version);
    }
}

/// A definition depends on everything that it is made from as a whole.
proof fn lemma_defined_by(versions: Seq<Version>, version: usize, list: Seq<usize>, condition: PathCondition, controls: Seq<usize>)
    requires
        writes::is_definition(versions, version as int, writes::whole_sources(list), condition),
        holds_all(list, controls),
    ensures
        depends_on_all(versions, version, controls),
{
    assert forall|c: usize| #[trigger] controls.contains(c) implies depends_on(versions, version, c) by {
        assert(list.contains(c));
        let i = choose|i: int| 0 <= i < list.len() && list[i] == c;
        lemma_defined(versions, version, writes::whole_sources(list), condition, i);
        lemma_depends_self(versions, c);
        lemma_depends_step(versions, version, c, c);
    }
}

proof fn lemma_destination_written<'a>(p: Program<'a>, access: Access, dependencies: Seq<usize>, a: Machine, b: Machine, controls: Seq<usize>)
    requires
        steps::destination_written(p, access, dependencies, a, b),
        holds_all(dependencies, controls),
        a.store.versions@.len() <= usize::MAX,
    ensures
        writes_controlled(a, b, controls),
{
    let (w, keys) = choose|w: WriteKeys, keys: Seq<u64>| #[trigger]
        steps::way_written(w, keys) && crate::targets::are_written(*p.partition, access, p.owned_of(access.id), w) && values::numbered(p.nodes@, w.keys@, keys)
            && machine::store_only(Machine { complete: a.complete && w.resolved, written: b.written, ..a }, b) && b.written@ == a.written@ + keys && steps::value_bound(
            a.store,
            b.store,
            keys,
            w.resolved,
            w.resolved && !steps::is_dynamic(access),
            dependencies,
            a.condition,
        );
    if b.complete {
        let version = a.store.versions@.len() as usize;
        lemma_defined_by(b.store.versions@, version, dependencies, a.condition, controls);
        assert forall|key: u64| #[trigger] ssa::binding_of(b.store.current@, key) == ssa::binding_of(a.store.current@, key) || (ssa::binding_of(b.store.current@, key) matches Some(v)
            && depends_on_all(b.store.versions@, v, controls)) by {
            if keys.contains(key) {
                let i = choose|i: int| 0 <= i < keys.len() && keys[i] == key;
                assert(writes::is_bound(a.store, b.store, keys[i], version, !(w.resolved && !steps::is_dynamic(access))));
                lemma_bound(a.store, b.store, key, version, !(w.resolved && !steps::is_dynamic(access)), controls);
            }
        }
    }
}

proof fn lemma_ran_writes<'a>(p: Program<'a>, depth: nat, list: Seq<Access>, count: int, sources: Seq<usize>, a: Machine, b: Machine, controls: Seq<usize>)
    requires
        accesses_call_nothing(list),
        procedure::ran_writes(p, depth, list, count, sources, a, b),
        holds_all(sources, controls),
    ensures
        writes_controlled(a, b, controls),
    decreases count,
{
    if count <= 0 || count > list.len() {
        lemma_quiet_same(a, b);
        lemma_quiet_controlled(a, b, controls);
    } else {
        let access = list[count - 1];
        let (m, n, first, o, second) = choose|m: Machine, n: Machine, first: Seq<usize>, o: Machine, second: Seq<usize>|
            #![trigger procedure::way(m, first, second), procedure::way_both(n, first, o, second)]
            procedure::way(m, first, second) && procedure::way_both(n, first, o, second) && procedure::ran_writes(p, depth, list, count - 1, sources, a, m)
                && procedure::ran_exprs(p, depth, access.index@, access.index@.len() as int, m, n, first) && procedure::ran_exprs(
                p,
                depth,
                access.select@,
                access.select@.len() as int,
                n,
                o,
                second,
            ) && steps::destination_written(p, access, sources + first + second, o, b);
        lemma_ran_writes(p, depth, list, count - 1, sources, a, m, controls);
        assert(access_calls_nothing(access));
        lemma_quiet_exprs(p, depth, access.index@, access.index@.len() as int, m, n, first);
        lemma_quiet_exprs(p, depth, access.select@, access.select@.len() as int, n, o, second);
        lemma_quiet_twice(m, n, o);
        lemma_quiet_controlled(m, o, controls);
        lemma_holds_joined(sources, first);
        lemma_holds_joined(sources + first, second);
        assert(o.store.versions@.len() == o.store.versions.len());
        lemma_destination_written(p, access, sources + first + second, o, b, controls);
        lemma_controlled_twice(a, m, o, controls);
        lemma_controlled_twice(a, o, b, controls);
    }
}

/// Each node of the destination has a value of its own, which is known where the nodes are.
spec fn is_planned(planned: Planned) -> bool {
    &&& planned.keys@.len() == planned.snapshots@.len()
    &&& forall|i: int| 0 <= i < planned.snapshots@.len() ==> (#[trigger] planned.snapshots@[i]).opaque == !planned.resolved
}

proof fn lemma_all_planned<'a>(
    p: Program<'a>,
    cache: &'a EvaluationCache,
    destinations: Seq<Access>,
    value: &'a Expression,
    count: int,
    st: flows::FlowState,
    list: Seq<Planned>,
)
    requires
        assigning::all_planned(p, cache, destinations, value, count, st, list),
    ensures
        forall|i: int| 0 <= i < list.len() ==> is_planned(#[trigger] list[i]),
        count >= 0 ==> list.len() == count,
    decreases count,
{
    if count > 0 {
        let before = choose|before: flows::FlowState| #[trigger]
            assigning::way_flows(before) && list.len() > 0 && assigning::all_planned(p, cache, destinations, value, count - 1, before, list.drop_last())
                && assigning::destination_planned(p, assigning::assignment_of(p, cache, destinations, value, count - 1), before, st, list.last());
        lemma_all_planned(p, cache, destinations, value, count - 1, before, list.drop_last());
        assert(is_planned(list.last()));
        assert forall|i: int| 0 <= i < list.len() implies is_planned(#[trigger] list[i]) by {
            if i < list.len() - 1 {
                assert(list[i] == list.drop_last()[i]);
            }
        }
    }
}

proof fn lemma_destination_assigned(access: Access, planned: Planned, images: Option<Seq<Seq<usize>>>, list: Seq<usize>, a: Machine, b: Machine, controls: Seq<usize>)
    requires
        assigning::destination_assigned(access, planned, images, list, a, b),
        is_planned(planned),
        holds_all(list, controls),
        a.store.versions@.len() <= usize::MAX,
    ensures
        writes_controlled(a, b, controls),
{
    match images {
        None => {
            lemma_quiet_same(a, b);
            lemma_quiet_controlled(a, b, controls);
        },
        Some(images) => {
            let (m, control) = choose|m: SsaStore, control: Option<usize>| #[trigger]
                assigning::control_aggregated(a.store, m, list, control) && if assign::snapshots_exist(planned.snapshots@, m.versions@.len() as int) {
                    assigning::values_assigned(access, planned, images, m, control, a, b)
                } else {
                    machine::store_only(Machine { fits: false, ..a }, b) && b.store == m
                };
            if assign::snapshots_exist(planned.snapshots@, m.versions@.len() as int) {
                assert(ssa::saved_same(a.store, b.store, a.store.checkpoints@.len() as int)) by {
                    assert forall|d: int| 0 <= d < a.store.checkpoints@.len() implies #[trigger] b.store.saved(d) == a.store.saved(d) by {
                        assert(m.saved(d) == a.store.saved(d));
                    }
                }
                if b.complete {
                    let writes_list = choose|l: Seq<KeyWrite>| #[trigger]
                        assigning::values_are(access, planned, images, control, l) && assign::all_wrote(m, b.store, l, a.condition);
                    lemma_values(access, planned, images, list, m, control, writes_list, a, b, controls);
                }
            } else {
                assert(same_bindings(a.store.current@, b.store.current@));
                lemma_quiet_controlled(a, b, controls);
            }
        },
    }
}

proof fn lemma_values(
    access: Access,
    planned: Planned,
    images: Seq<Seq<usize>>,
    list: Seq<usize>,
    m: SsaStore,
    control: Option<usize>,
    made: Seq<KeyWrite>,
    a: Machine,
    b: Machine,
    controls: Seq<usize>,
)
    requires
        assigning::control_aggregated(a.store, m, list, control),
        assigning::values_assigned(access, planned, images, m, control, a, b),
        assigning::values_are(access, planned, images, control, made),
        assign::all_wrote(m, b.store, made, a.condition),
        is_planned(planned),
        planned.resolved,
        holds_all(list, controls),
    ensures
        kept_or_controlled(b.store.versions@, a.store.current@, b.store.current@, controls),
{
    let versions = b.store.versions@;
    if let Some(c) = control {
        assert(depends_on_all(versions, c, controls)) by {
            if writes::all_same(list) {
                assert forall|x: usize| #[trigger] controls.contains(x) implies depends_on(versions, c, x) by {
                    assert(list.contains(x));
                    let i = choose|i: int| 0 <= i < list.len() && list[i] == x;
                    assert(list[i] == list[0]);
                    lemma_depends_self(versions, c);
                }
            } else {
                lemma_defined_by(m.versions@, c, list, PathCondition { node: 0 }, controls);
                lemma_all_grows(m.versions@, versions, c, controls);
            }
        }
    }
    assert forall|key: u64| #[trigger] ssa::binding_of(b.store.current@, key) == ssa::binding_of(a.store.current@, key) || (ssa::binding_of(b.store.current@, key) matches Some(v)
        && depends_on_all(versions, v, controls)) by {
        if planned.keys@.contains(key) {
            let i = choose|i: int| 0 <= i < planned.keys@.len() && planned.keys@[i] == key;
            let write = made[i];
            assert(assign::is_assignment(images, planned.snapshots@[i], planned.keys@[i], control, steps::is_dynamic(access), made[i]));
            assert(!planned.snapshots@[i].opaque);
            assert(writes::wrote(m, b.store, made[i], a.condition));
            let version = choose|version: usize|
                m.versions@.len() <= version && #[trigger] writes::is_value(versions, version, write, a.condition) && writes::is_bound(
                    m,
                    b.store,
                    write.key,
                    version,
                    write.dynamic || write.opaque,
                );
            assert(depends_on_all(versions, version, controls)) by {
                match control {
                    Some(c) => {
                        let at = write.sources@.len() - 1;
                        assert(write.sources@[at].version == c);
                        lemma_defined(versions, version, write.sources@, a.condition, at);
                        assert forall|x: usize| #[trigger] controls.contains(x) implies depends_on(versions, version, x) by {
                            lemma_depends_step(versions, version, c, x);
                        }
                    },
                    None => {
                        assert forall|x: usize| #[trigger] controls.contains(x) implies depends_on(versions, version, x) by {
                            assert(list.contains(x));
                        }
                    },
                }
            }
            lemma_bound(m, b.store, key, version, write.dynamic || write.opaque, controls);
        }
    }
}

proof fn lemma_ran_assigned<'a>(
    p: Program<'a>,
    depth: nat,
    destinations: Seq<Access>,
    list: Seq<Planned>,
    images: Option<Seq<Seq<usize>>>,
    controls: Seq<usize>,
    count: int,
    a: Machine,
    b: Machine,
)
    requires
        accesses_call_nothing(destinations),
        list.len() == destinations.len(),
        forall|i: int| 0 <= i < list.len() ==> is_planned(#[trigger] list[i]),
        procedure::ran_assigned(p, depth, destinations, list, images, controls, count, a, b),
    ensures
        writes_controlled(a, b, controls),
    decreases count,
{
    if count <= 0 || count > destinations.len() {
        lemma_quiet_same(a, b);
        lemma_quiet_controlled(a, b, controls);
    } else {
        let access = destinations[count - 1];
        let (m, n, first, o, second) = choose|m: Machine, n: Machine, first: Seq<usize>, o: Machine, second: Seq<usize>|
            #![trigger procedure::way(m, first, second), procedure::way_both(n, first, o, second)]
            procedure::way(m, first, second) && procedure::way_both(n, first, o, second) && procedure::ran_assigned(
                p,
                depth,
                destinations,
                list,
                images,
                controls,
                count - 1,
                a,
                m,
            ) && procedure::ran_exprs(p, depth, access.index@, access.index@.len() as int, m, n, first) && procedure::ran_exprs(
                p,
                depth,
                access.select@,
                access.select@.len() as int,
                n,
                o,
                second,
            ) && assigning::destination_assigned(access, list[count - 1], images, controls + first + second, o, b);
        lemma_ran_assigned(p, depth, destinations, list, images, controls, count - 1, a, m);
        assert(access_calls_nothing(access));
        lemma_quiet_exprs(p, depth, access.index@, access.index@.len() as int, m, n, first);
        lemma_quiet_exprs(p, depth, access.select@, access.select@.len() as int, n, o, second);
        lemma_quiet_twice(m, n, o);
        lemma_quiet_controlled(m, o, controls);
        lemma_holds_joined(controls, first);
        lemma_holds_joined(controls + first, second);
        assert(o.store.versions@.len() == o.store.versions.len());
        assert(is_planned(list[count - 1]));
        lemma_destination_assigned(access, list[count - 1], images, controls + first + second, o, b, controls);
        lemma_controlled_twice(a, m, o, controls);
        lemma_controlled_twice(a, o, b, controls);
    }
}

proof fn lemma_effects<'a>(p: Program<'a>, depth: nat, value: Expression, a: Machine, b: Machine, effects: BranchState)
    requires
        calls_nothing(value),
        procedure::effects_taken(p, depth, value, a, b, effects),
    ensures
        quiet(a, b),
        forall|key: u64| !#[trigger] ssa::binds(effects.bindings@, key),
{
    let (opened, n, reads) = choose|opened: Machine, n: Machine, reads: Seq<usize>| #[trigger]
        procedure::way_arm(opened, n, reads) && procedure::effects_opened(a, opened) && procedure::ran_expr(p, depth, value, opened, n, reads)
            && procedure::effects_left(a, n, b, effects);
    lemma_quiet_expr(p, depth, value, opened, n, reads);
    let entered = Machine { effects_only: true, ..a };
    let left = Machine { effects_only: true, ..b };
    let defined = choose|defined: SsaStore| #[trigger] steps::arm_left(entered, n, defined, left, None, effects, Seq::empty());
    lemma_quiet_opened(entered, opened, n, defined, left);
    assert forall|key: u64| !#[trigger] ssa::binds(effects.bindings@, key) by {
        lemma_nothing_bound(effects.bindings@, n.store.current@, a.store.current@, key);
    }
}

proof fn lemma_ran_assign<'a>(p: Program<'a>, depth: nat, statement: Statement, controls: Seq<usize>, a: Machine, b: Machine)
    requires
        statement is Assign,
        runs_here(statement),
        procedure::ran_assign(p, depth, statement, controls, a, b),
    ensures
        writes_controlled(a, b, controls),
{
    if let Statement::Assign { destinations, value } = statement {
        if !assigning::widths_known(destinations@) {
            let (m, found) = choose|m: Machine, found: Seq<usize>| #[trigger]
                procedure::way(m, found, found) && procedure::ran_expr(p, depth, value, a, m, found) && procedure::ran_writes(
                    p,
                    depth,
                    destinations@,
                    destinations@.len() as int,
                    found + controls,
                    m,
                    b,
                );
            lemma_quiet_expr(p, depth, value, a, m, found);
            lemma_quiet_controlled(a, m, controls);
            lemma_holds_joined(found, controls);
            lemma_ran_writes(p, depth, destinations@, destinations@.len() as int, found + controls, m, b, controls);
            lemma_controlled_twice(a, m, b, controls);
        } else if assigning::bits_from(destinations@, 0) > usize::MAX {
            lemma_quiet_same(Machine { fits: false, ..a }, b);
            assert(quiet(a, b));
            lemma_quiet_controlled(a, b, controls);
        } else {
            let (m, effects, n, list, images, joined) = choose|
                m: Machine,
                effects: BranchState,
                n: Machine,
                list: Seq<Planned>,
                images: Option<Seq<Seq<usize>>>,
                joined: Machine,
            | #[trigger]
                procedure::way_assign(m, effects, n, list, images, joined) && procedure::effects_taken(p, depth, value, a, m, effects) && assigning::assignment_planned(
                    p,
                    destinations@,
                    value,
                    m,
                    n,
                    list,
                    images,
                ) && steps::arms_joined(n, joined, seq![effects], a.condition) && procedure::ran_assigned(
                    p,
                    depth,
                    destinations@,
                    list,
                    images,
                    controls,
                    destinations@.len() as int,
                    joined,
                    b,
                );
            lemma_effects(p, depth, value, a, m, effects);
            let found = choose|found: flows::Flows|
                #![trigger found.state()]
                assigning::all_planned(p, &m.cache->0, destinations@, &value, destinations@.len() as int, found.state(), list) && assigning::flows_realized(
                    p,
                    m,
                    n,
                    found,
                    images,
                );
            lemma_all_planned(p, &m.cache->0, destinations@, &value, destinations@.len() as int, found.state(), list);
            assert(quiet(m, n));
            let states = seq![effects];
            assert forall|key: u64| !#[trigger] state::some_binds(states, key) by {
                if state::some_binds(states, key) {
                    let i = choose|i: int| 0 <= i < states.len() && ssa::binds((#[trigger] states[i]).bindings@, key);
                    assert(states[i] == effects);
                }
            }
            lemma_quiet_joined(n, joined, states, a.condition);
            lemma_quiet_twice(a, m, n);
            lemma_quiet_twice(a, n, joined);
            lemma_quiet_controlled(a, joined, controls);
            lemma_ran_assigned(p, depth, destinations@, list, images, controls, destinations@.len() as int, joined, b);
            lemma_controlled_twice(a, joined, b, controls);
        }
    }
}

/// Every binding of the list is one that there was, or depends on all of the controls.
spec fn state_controlled(versions: Seq<Version>, bindings: Seq<Binding>, base: Map<u64, usize>, controls: Seq<usize>) -> bool {
    forall|key: u64, v: usize| #[trigger]
        ssa::bound(bindings, key, v) ==> ssa::binding_of(base, key) == Some(v) || depends_on_all(versions, v, controls)
}

proof fn lemma_state_grows(a: Seq<Version>, b: Seq<Version>, bindings: Seq<Binding>, base: Map<u64, usize>, controls: Seq<usize>)
    requires
        ssa::versions_grow(a, b),
        state_controlled(a, bindings, base, controls),
    ensures
        state_controlled(b, bindings, base, controls),
{
    assert forall|key: u64, v: usize| #[trigger] ssa::bound(bindings, key, v) implies ssa::binding_of(base, key) == Some(v) || depends_on_all(b, v, controls) by {
        if ssa::binding_of(base, key) != Some(v) {
            lemma_all_grows(a, b, v, controls);
        }
    }
}

/// What was changed is listed, and so depends on the controls.
proof fn lemma_changes_controlled(versions: Seq<Version>, bindings: Seq<Binding>, current: Map<u64, usize>, base: Map<u64, usize>, controls: Seq<usize>)
    requires
        state::lists_changes(bindings, current, base),
        kept_or_controlled(versions, base, current, controls),
    ensures
        state_controlled(versions, bindings, base, controls),
{
    assert forall|key: u64, v: usize| #[trigger] ssa::bound(bindings, key, v) implies ssa::binding_of(base, key) == Some(v) || depends_on_all(versions, v, controls) by {
        assert(ssa::binding_of(current, key) == Some(v));
    }
}

proof fn lemma_merges(before: SsaStore, after: SsaStore, states: Seq<BranchState>, controls: Seq<usize>)
    requires
        branches::merges(before, after, states),
        forall|i: int| 0 <= i < states.len() ==> state_controlled(after.versions@, (#[trigger] states[i]).bindings@, before.current@, controls),
    ensures
        kept_or_controlled(after.versions@, before.current@, after.current@, controls),
{
    let versions = after.versions@;
    assert forall|key: u64| #[trigger] ssa::binding_of(after.current@, key) == ssa::binding_of(before.current@, key) || (ssa::binding_of(after.current@, key) matches Some(v)
        && depends_on_all(versions, v, controls)) by {
        if state::some_binds(states, key) {
            assert(state::merged_key(states, before.current@, after, key));
            let v = after.current@[key];
            let inputs = state::merge_inputs(states, before.current@, after.entries@, key);
            let i = choose|i: int| 0 <= i < states.len() && ssa::binds((#[trigger] states[i]).bindings@, key);
            let k = choose|k: int| 0 <= k < states[i].bindings@.len() && (#[trigger] states[i].bindings@[k]).key == key;
            let w = states[i].bindings@[k].version;
            assert(states[i].bindings@[k] == Binding { key, version: w });
            assert(ssa::bound(states[i].bindings@, key, w));
            assert(state::state_versions(states, key).contains(w));
            if exists|x: usize| inputs.contains(x) && #[trigger] depends_on_all(versions, x, controls) {
                let x = choose|x: usize| inputs.contains(x) && #[trigger] depends_on_all(versions, x, controls);
                if exists|y: usize| inputs == set![y] {
                    let y = choose|y: usize| inputs == set![y];
                    assert(set![y].contains(x) && set![y].contains(v));
                } else {
                    assert(made_from(versions, v, x));
                    assert forall|c: usize| #[trigger] controls.contains(c) implies depends_on(versions, v, c) by {
                        lemma_depends_step(versions, v, x, c);
                    }
                }
            } else {
                assert(inputs.contains(w));
                assert(ssa::binding_of(before.current@, key) == Some(w));
                assert forall|x: usize| #[trigger] inputs.contains(x) <==> set![w].contains(x) by {
                    if inputs.contains(x) && x != w {
                        assert(state::state_versions(states, key).contains(x));
                        let j = choose|j: int| 0 <= j < states.len() && ssa::bound((#[trigger] states[j]).bindings@, key, x);
                        assert(state_controlled(versions, states[j].bindings@, before.current@, controls));
                    }
                }
                assert(inputs =~= set![w]);
                assert(set![w].contains(v));
            }
        }
    }
}

/// The ways out of the innermost loop that were noted keep the bindings that there were before it,
/// or depend on its controls.
spec fn breaks_controlled(m: Machine, base: Map<u64, usize>, controls: Seq<usize>) -> bool {
    m.loops@.len() > 0 ==> forall|i: int|
        0 <= i < m.loops@.last().breaks@.len() ==> state_controlled(
            m.store.versions@,
            (#[trigger] m.loops@.last().breaks@[i]).state.bindings@,
            base,
            controls,
        )
}

/// Since the innermost loop was entered, what was written depends on its controls.
spec fn entered(m: Machine, base: Map<u64, usize>, controls: Seq<usize>) -> bool {
    m.complete ==> kept_or_controlled(m.store.versions@, base, m.store.current@, controls) && breaks_controlled(m, base, controls)
}

/// The open loops are the same, but for the ways out of the innermost one.
spec fn same_loops(a: Machine, b: Machine) -> bool {
    &&& b.loops@.len() == a.loops@.len()
    &&& a.loops@.len() > 0 ==> b.loops@.drop_last() == a.loops@.drop_last() && b.loops@.last().checkpoint == a.loops@.last().checkpoint
}

/// What was written depends on the controls, and so do the ways out.
spec fn controlled(a: Machine, b: Machine, controls: Seq<usize>, base: Map<u64, usize>, around: Seq<usize>) -> bool {
    &&& steady(a, b)
    &&& same_loops(a, b)
    &&& b.complete ==> kept_or_controlled(b.store.versions@, a.store.current@, b.store.current@, controls)
    &&& entered(b, base, around)
}

proof fn lemma_breaks_grow(a: Machine, b: Machine, base: Map<u64, usize>, around: Seq<usize>)
    requires
        breaks_controlled(a, base, around),
        ssa::versions_grow(a.store.versions@, b.store.versions@),
        b.loops@ == a.loops@,
    ensures
        breaks_controlled(b, base, around),
{
    if b.loops@.len() > 0 {
        assert forall|i: int| 0 <= i < b.loops@.last().breaks@.len() implies state_controlled(
            b.store.versions@,
            (#[trigger] b.loops@.last().breaks@[i]).state.bindings@,
            base,
            around,
        ) by {
            lemma_state_grows(a.store.versions@, b.store.versions@, a.loops@.last().breaks@[i].state.bindings@, base, around);
        }
    }
}

/// Where the loops stay as they are, only what is written counts.
proof fn lemma_controlled(a: Machine, b: Machine, controls: Seq<usize>, base: Map<u64, usize>, around: Seq<usize>)
    requires
        writes_controlled(a, b, controls),
        entered(a, base, around),
        holds_all(controls, around),
    ensures
        controlled(a, b, controls, base, around),
{
    if b.complete {
        lemma_breaks_grow(a, b, base, around);
        lemma_kept_grows(a.store.versions@, b.store.versions@, base, a.store.current@, around, around);
        lemma_kept_grows(b.store.versions@, b.store.versions@, a.store.current@, b.store.current@, controls, around);
        lemma_kept_twice(b.store.versions@, base, a.store.current@, b.store.current@, around);
    }
}

proof fn lemma_controlled_both(
    a: Machine,
    b: Machine,
    c: Machine,
    one: Seq<usize>,
    two: Seq<usize>,
    controls: Seq<usize>,
    base: Map<u64, usize>,
    around: Seq<usize>,
)
    requires
        controlled(a, b, one, base, around),
        controlled(b, c, two, base, around),
        holds_all(one, controls),
        holds_all(two, controls),
    ensures
        controlled(a, c, controls, base, around),
{
    lemma_steady_twice(a, b, c);
    if c.complete {
        lemma_kept_grows(b.store.versions@, c.store.versions@, a.store.current@, b.store.current@, one, controls);
        lemma_kept_grows(c.store.versions@, c.store.versions@, b.store.current@, c.store.current@, two, controls);
        lemma_kept_twice(c.store.versions@, a.store.current@, b.store.current@, c.store.current@, controls);
    }
}

/// The innermost loop and the bindings are as they were, and more versions may be there.
proof fn lemma_entered(a: Machine, b: Machine, base: Map<u64, usize>, around: Seq<usize>)
    requires
        entered(a, base, around),
        b.complete ==> a.complete,
        ssa::versions_grow(a.store.versions@, b.store.versions@),
        b.loops@ == a.loops@,
        same_bindings(a.store.current@, b.store.current@),
    ensures
        entered(b, base, around),
{
    if b.complete {
        lemma_breaks_grow(a, b, base, around);
        lemma_kept_grows(a.store.versions@, b.store.versions@, base, a.store.current@, around, around);
        assert forall|key: u64| #[trigger] ssa::binding_of(b.store.current@, key) == ssa::binding_of(base, key) || (ssa::binding_of(b.store.current@, key) matches Some(v)
            && depends_on_all(b.store.versions@, v, around)) by {
            assert(ssa::binding_of(b.store.current@, key) == ssa::binding_of(a.store.current@, key));
        }
    }
}

proof fn lemma_statements<'a>(
    p: Program<'a>,
    depth: nat,
    list: Seq<Statement>,
    count: int,
    controls: Seq<usize>,
    a: Machine,
    b: Machine,
    trees: Seq<FlowTree>,
    control: Option<usize>,
    base: Map<u64, usize>,
    around: Seq<usize>,
)
    requires
        all_run_here(list),
        procedure::ran_statements(p, depth, list, count, controls, a, b, trees, control),
        entered(a, base, around),
        holds_all(controls, around),
    ensures
        controlled(a, b, controls, base, around),
    decreases list, count as nat,
{
    if count <= 0 || count > list.len() {
        assert(quiet(a, b));
        lemma_quiet_controlled(a, b, controls);
        lemma_controlled(a, b, controls, base, around);
    } else {
        let (m, before, previous) = choose|m: Machine, before: Seq<FlowTree>, previous: Option<usize>| #[trigger]
            procedure::way_steps(m, before, previous) && procedure::ran_statements(p, depth, list, count - 1, controls, a, m, before, previous)
                && if machine::stopped(m.flows, before) {
                b == m && trees == before && control == previous
            } else {
                exists|n: Machine, r: Evaluated| #[trigger]
                    procedure::way_step(n, r) && procedure::ran_statement(p, depth, list[count - 1], machine::active(controls, previous), m, n, r) && trees
                        == before.push(r.tree) && machine::control_made(n, b, r.controls@, previous, control)
            };
        lemma_statements(p, depth, list, count - 1, controls, a, m, before, previous, base, around);
        if !machine::stopped(m.flows, before) {
            let now = machine::active(controls, previous);
            let (n, r) = choose|n: Machine, r: Evaluated| #[trigger]
                procedure::way_step(n, r) && procedure::ran_statement(p, depth, list[count - 1], now, m, n, r) && trees == before.push(r.tree)
                    && machine::control_made(n, b, r.controls@, previous, control);
            assert(holds_all(now, controls)) by {
                if let Some(c) = previous {
                    assert(now =~= controls + seq![c]);
                    lemma_holds_joined(controls, seq![c]);
                }
            }
            assert(runs_here(list[count - 1]));
            lemma_statement(p, depth, list[count - 1], now, m, n, r, base, around);
            lemma_controlled_both(a, m, n, controls, now, controls, base, around);
            assert(quiet(n, b));
            lemma_quiet_controlled(n, b, controls);
            lemma_controlled(n, b, controls, base, around);
            lemma_controlled_both(a, n, b, controls, controls, controls, base, around);
        }
    }
}

proof fn lemma_block<'a>(
    p: Program<'a>,
    depth: nat,
    list: Seq<Statement>,
    controls: Seq<usize>,
    a: Machine,
    b: Machine,
    r: Evaluated,
    base: Map<u64, usize>,
    around: Seq<usize>,
)
    requires
        all_run_here(list),
        procedure::ran_block(p, depth, list, controls, a, b, r),
        entered(a, base, around),
        holds_all(controls, around),
    ensures
        controlled(a, b, controls, base, around),
    decreases list, list.len() + 1,
{
    let (m, trees, control) = choose|m: Machine, trees: Seq<FlowTree>, control: Option<usize>| #[trigger]
        procedure::way_steps(m, trees, control) && procedure::ran_statements(p, depth, list, list.len() as int, controls, a, m, trees, control)
            && machine::finished(m, b, trees, control, r);
    lemma_statements(p, depth, list, list.len() as int, controls, a, m, trees, control, base, around);
    assert(quiet(m, b));
    lemma_quiet_controlled(m, b, controls);
    lemma_controlled(m, b, controls, base, around);
    lemma_controlled_both(a, m, b, controls, controls, controls, base, around);
}

/// A branch leaves the bindings as they were, and its changes depend on what decides on it.
spec fn branched(a: Machine, b: Machine, made: Branch, nested: Seq<usize>, base: Map<u64, usize>, around: Seq<usize>) -> bool {
    &&& steady(a, b)
    &&& same_loops(a, b)
    &&& b.store.current@ == a.store.current@
    &&& b.complete ==> state_controlled(b.store.versions@, made.state.bindings@, a.store.current@, nested)
    &&& entered(b, base, around)
}

proof fn lemma_branch<'a>(
    p: Program<'a>,
    depth: nat,
    body: Seq<Statement>,
    nested: Seq<usize>,
    branch: BranchId,
    arm: usize,
    parent: PathCondition,
    a: Machine,
    b: Machine,
    made: Branch,
    base: Map<u64, usize>,
    around: Seq<usize>,
)
    requires
        all_run_here(body),
        procedure::ran_branch(p, depth, body, nested, branch, arm, parent, a, b, made),
        entered(a, base, around),
        holds_all(nested, around),
    ensures
        branched(a, b, made, nested, base, around),
    decreases body, body.len() + 2,
{
    let (opened, closed, r) = choose|opened: Machine, closed: Machine, r: Evaluated| #[trigger]
        procedure::way_branch(opened, closed, r) && machine::opens(a, opened, branch, arm, parent) && procedure::ran_block(p, depth, body, nested, opened, closed, r)
            && machine::closes(a, closed, b, made, r);
    lemma_entered(a, opened, base, around);
    lemma_block(p, depth, body, nested, opened, closed, r, base, around);
    let count = a.store.checkpoints@.len() as int;
    assert forall|d: int| 0 <= d < count implies #[trigger] b.store.saved(d) == a.store.saved(d) by {
        assert(opened.store.saved(d) == a.store.saved(d));
        assert(closed.store.saved(d) == opened.store.saved(d));
    }
    if b.complete {
        lemma_changes_controlled(b.store.versions@, made.state.bindings@, closed.store.current@, a.store.current@, nested);
        lemma_breaks_grow(closed, b, base, around);
        lemma_kept_grows(a.store.versions@, b.store.versions@, base, a.store.current@, around, around);
    }
}

/// The branches of a decision so far.
spec fn all_branched(a: Machine, b: Machine, list: Seq<Branch>, nested: Seq<usize>, base: Map<u64, usize>, around: Seq<usize>) -> bool {
    &&& steady(a, b)
    &&& same_loops(a, b)
    &&& b.store.current@ == a.store.current@
    &&& b.complete ==> forall|i: int|
        0 <= i < list.len() ==> state_controlled(b.store.versions@, (#[trigger] list[i]).state.bindings@, a.store.current@, nested)
    &&& entered(b, base, around)
}

proof fn lemma_one_more(
    a: Machine,
    m: Machine,
    b: Machine,
    before: Seq<Branch>,
    list: Seq<Branch>,
    nested: Seq<usize>,
    base: Map<u64, usize>,
    around: Seq<usize>,
)
    requires
        all_branched(a, m, before, nested, base, around),
        list.len() == before.len() + 1,
        list.drop_last() == before,
        branched(m, b, list.last(), nested, base, around),
    ensures
        all_branched(a, b, list, nested, base, around),
{
    lemma_steady_twice(a, m, b);
    if b.complete {
        assert forall|i: int| 0 <= i < list.len() implies state_controlled(b.store.versions@, (#[trigger] list[i]).state.bindings@, a.store.current@, nested) by {
            if i < before.len() {
                assert(list[i] == before[i]);
                lemma_state_grows(m.store.versions@, b.store.versions@, before[i].state.bindings@, a.store.current@, nested);
            }
        }
    }
}

proof fn lemma_case_arms<'a>(
    p: Program<'a>,
    depth: nat,
    arms: Seq<CaseArm>,
    chosen: Seq<usize>,
    count: int,
    nested: Seq<usize>,
    branch: BranchId,
    parent: PathCondition,
    a: Machine,
    b: Machine,
    list: Seq<Branch>,
    base: Map<u64, usize>,
    around: Seq<usize>,
)
    requires
        arms_run_here(arms),
        procedure::ran_case_arms(p, depth, arms, chosen, count, nested, branch, parent, a, b, list),
        entered(a, base, around),
        holds_all(nested, around),
    ensures
        all_branched(a, b, list, nested, base, around),
    decreases arms, count as nat,
{
    if count <= 0 || count > chosen.len() {
    } else {
        let (m, before) = choose|m: Machine, before: Seq<Branch>| #[trigger]
            procedure::way_branches(m, before) && procedure::ran_case_arms(p, depth, arms, chosen, count - 1, nested, branch, parent, a, m, before) && if chosen[count
                - 1] < arms.len() {
                list.len() == before.len() + 1 && list.drop_last() == before && procedure::ran_branch(
                    p,
                    depth,
                    arms[chosen[count - 1] as int].body@,
                    nested,
                    branch,
                    chosen[count - 1],
                    parent,
                    m,
                    b,
                    list.last(),
                )
            } else {
                b == m && list == before
            };
        lemma_case_arms(p, depth, arms, chosen, count - 1, nested, branch, parent, a, m, before, base, around);
        if chosen[count - 1] < arms.len() {
            let arm = arms[chosen[count - 1] as int];
            assert(arm_runs_here(arm));
            lemma_branch(p, depth, arm.body@, nested, branch, chosen[count - 1], parent, m, b, list.last(), base, around);
            lemma_one_more(a, m, b, before, list, nested, base, around);
        }
    }
}

/// The branches come together.
proof fn lemma_came_together(
    a: Machine,
    o: Machine,
    t: Machine,
    b: Machine,
    predicate: crate::flow::PredicateView,
    list: Seq<Branch>,
    parent: PathCondition,
    r: Evaluated,
    nested: Seq<usize>,
    base: Map<u64, usize>,
    around: Seq<usize>,
)
    requires
        all_branched(a, o, list, nested, base, around),
        t == (Machine { table: t.table, ..o }),
        machine::came_together(t, b, predicate, list, parent, r),
        holds_all(nested, around),
    ensures
        controlled(a, b, nested, base, around),
{
    lemma_steady_twice(a, o, t);
    assert(steady(t, b));
    lemma_steady_twice(a, t, b);
    if b.complete {
        let going = branches::continuing(t.flows, list);
        let states = choose|states: Seq<BranchState>| #[trigger]
            branches::copies_states(going, states) && branches::merges(t.store, b.store, states);
        assert forall|i: int| 0 <= i < states.len() implies state_controlled(b.store.versions@, (#[trigger] states[i]).bindings@, t.store.current@, nested) by {
            assert(going.contains(going[i]));
            list.lemma_filter_contains_rev(|branch: Branch| branches::continues(t.flows, branch), going[i]);
            let k = choose|k: int| 0 <= k < list.len() && list[k] == going[i];
            assert(state_controlled(o.store.versions@, list[k].state.bindings@, a.store.current@, nested));
            lemma_state_grows(o.store.versions@, b.store.versions@, list[k].state.bindings@, a.store.current@, nested);
        }
        lemma_merges(t.store, b.store, states, nested);
        lemma_breaks_grow(o, b, base, around);
        lemma_kept_grows(o.store.versions@, b.store.versions@, base, o.store.current@, around, around);
        lemma_kept_grows(b.store.versions@, b.store.versions@, t.store.current@, b.store.current@, nested, around);
        lemma_kept_twice(b.store.versions@, base, t.store.current@, b.store.current@, around);
    }
}

proof fn lemma_patterns<'a>(p: Program<'a>, depth: nat, list: Seq<Pattern>, count: int, a: Machine, b: Machine, reads: Seq<usize>)
    requires
        patterns_call_nothing(list),
        procedure::ran_patterns(p, depth, list, count, a, b, reads),
    ensures
        quiet(a, b),
    decreases count,
{
    if count <= 0 || count > list.len() {
    } else {
        let (m, before, n, found) = choose|m: Machine, before: Seq<usize>, n: Machine, found: Seq<usize>| #[trigger]
            procedure::way_both(m, before, n, found) && procedure::ran_patterns(p, depth, list, count - 1, a, m, before) && match list[count - 1] {
                Pattern::Equal(e) => procedure::ran_expr(p, depth, e, m, b, found) && reads == before + found,
                Pattern::Range { low, high, .. } => exists|other: Seq<usize>| #[trigger]
                    procedure::way(b, found, other) && procedure::ran_expr(p, depth, low, m, n, found) && procedure::ran_expr(p, depth, high, n, b, other) && reads
                        == before + found + other,
            };
        lemma_patterns(p, depth, list, count - 1, a, m, before);
        assert(pattern_calls_nothing(list[count - 1]));
        match list[count - 1] {
            Pattern::Equal(e) => {
                lemma_quiet_expr(p, depth, e, m, b, found);
            },
            Pattern::Range { low, high, .. } => {
                let other = choose|other: Seq<usize>| #[trigger]
                    procedure::way(b, found, other) && procedure::ran_expr(p, depth, low, m, n, found) && procedure::ran_expr(p, depth, high, n, b, other) && reads
                        == before + found + other;
                lemma_quiet_expr(p, depth, low, m, n, found);
                lemma_quiet_expr(p, depth, high, n, b, other);
                lemma_quiet_twice(m, n, b);
            },
        }
        lemma_quiet_twice(a, m, b);
    }
}

proof fn lemma_all_patterns<'a>(p: Program<'a>, depth: nat, arms: Seq<CaseArm>, count: int, a: Machine, b: Machine, reads: Seq<usize>)
    requires
        arms_run_here(arms),
        procedure::ran_all_patterns(p, depth, arms, count, a, b, reads),
    ensures
        quiet(a, b),
    decreases count,
{
    if count <= 0 || count > arms.len() {
    } else {
        let (m, before, found) = choose|m: Machine, before: Seq<usize>, found: Seq<usize>| #[trigger]
            procedure::way(m, before, found) && procedure::ran_all_patterns(p, depth, arms, count - 1, a, m, before) && procedure::ran_patterns(
                p,
                depth,
                arms[count - 1].patterns@,
                arms[count - 1].patterns@.len() as int,
                m,
                b,
                found,
            ) && reads == before + found;
        lemma_all_patterns(p, depth, arms, count - 1, a, m, before);
        assert(arm_runs_here(arms[count - 1]));
        lemma_patterns(p, depth, arms[count - 1].patterns@, arms[count - 1].patterns@.len() as int, m, b, found);
        lemma_quiet_twice(a, m, b);
    }
}

proof fn lemma_case<'a>(
    p: Program<'a>,
    depth: nat,
    statement: Statement,
    controls: Seq<usize>,
    found: Seq<usize>,
    m: Machine,
    b: Machine,
    r: Evaluated,
    base: Map<u64, usize>,
    around: Seq<usize>,
)
    requires
        runs_here(statement),
        procedure::ran_case(p, depth, statement, controls, found, m, b, r),
        entered(m, base, around),
        holds_all(controls, around),
    ensures
        controlled(m, b, controls + found, base, around),
    decreases statement, 0nat,
{
    if let Statement::Case { target, arms, otherwise, facts } = statement {
        let nested = controls + found;
        lemma_holds_joined(controls, found);
        let count = procedure::case_count(arms@.len() as int);
        assert(arms_run_here(arms@));
        let plan = choose|plan: CasePlan| #[trigger]
            selection::case_planned(arms@.len() as usize, facts.selector, facts.patterns@, facts.answers, plan) && case_followed(
                p,
                depth,
                target,
                arms@,
                otherwise@,
                controls,
                found,
                m,
                b,
                r,
                plan,
            );
        match plan {
            CasePlan::Default => {
                lemma_block(p, depth, otherwise@, nested, m, b, r, base, around);
            },
            CasePlan::Arm(arm) => {
                if arm < arms@.len() {
                    assert(arm_runs_here(arms@[arm as int]));
                    lemma_block(p, depth, arms@[arm as int].body@, nested, m, b, r, base, around);
                } else {
                    lemma_block(p, depth, otherwise@, nested, m, b, r, base, around);
                }
            },
            CasePlan::Branch { arms: chosen, default } => {
                let (n, before, o, list, versions) = choose|n: Machine, before: Seq<Branch>, o: Machine, list: Seq<Branch>, versions: Seq<usize>|
                    #![trigger procedure::way_branches(n, before), procedure::way_branches(o, list), procedure::way(o, found, versions)]
                    procedure::way_branches(n, before) && procedure::way_branches(o, list) && procedure::way(o, found, versions) && values::sorted_from(versions, found)
                        && procedure::ran_case_arms(
                        p,
                        depth,
                        arms@,
                        chosen@,
                        chosen@.len() as int,
                        nested,
                        procedure::next_branch_of(m, count),
                        m.condition,
                        machine::taken_number(m),
                        n,
                        before,
                    ) && (if (default || before.len() == 0) && arms@.len() < count {
                        list.len() == before.len() + 1 && list.drop_last() == before && procedure::ran_branch(
                            p,
                            depth,
                            otherwise@,
                            nested,
                            procedure::next_branch_of(m, count),
                            arms@.len() as usize,
                            m.condition,
                            n,
                            o,
                            list.last(),
                        )
                    } else {
                        o == n && list == before
                    }) && (if list.len() == 0 {
                        machine::simple(o, b, ProcedureFlow::Continue, r) && b.store == o.store && b.loops == o.loops
                    } else {
                        exists|t: Machine, identity: usize| #[trigger]
                            procedure::way_identity(t, identity, versions) && machine::identified(o, t, predicates::Shape::Opaque(target.occurrence), identity)
                                && machine::came_together(t, b, procedure::predicate_of(identity, versions), list, m.condition, r)
                    });
                let taken = machine::taken_number(m);
                assert(quiet(m, taken));
                lemma_entered(m, taken, base, around);
                lemma_case_arms(
                    p,
                    depth,
                    arms@,
                    chosen@,
                    chosen@.len() as int,
                    nested,
                    procedure::next_branch_of(m, count),
                    m.condition,
                    taken,
                    n,
                    before,
                    base,
                    around,
                );
                if (default || before.len() == 0) && arms@.len() < count {
                    lemma_branch(
                        p,
                        depth,
                        otherwise@,
                        nested,
                        procedure::next_branch_of(m, count),
                        arms@.len() as usize,
                        m.condition,
                        n,
                        o,
                        list.last(),
                        base,
                        around,
                    );
                    lemma_one_more(taken, n, o, before, list, nested, base, around);
                }
                assert(all_branched(taken, o, list, nested, base, around));
                if list.len() == 0 {
                    assert(quiet(o, b));
                    assert(controlled(taken, o, nested, base, around)) by {
                        assert(kept_or_controlled(o.store.versions@, taken.store.current@, o.store.current@, nested));
                    }
                    lemma_quiet_controlled(o, b, nested);
                    lemma_controlled(o, b, nested, base, around);
                    lemma_controlled_both(taken, o, b, nested, nested, nested, base, around);
                } else {
                    let (t, identity) = choose|t: Machine, identity: usize| #[trigger]
                        procedure::way_identity(t, identity, versions) && machine::identified(o, t, predicates::Shape::Opaque(target.occurrence), identity)
                            && machine::came_together(t, b, procedure::predicate_of(identity, versions), list, m.condition, r);
                    lemma_came_together(taken, o, t, b, procedure::predicate_of(identity, versions), list, m.condition, r, nested, base, around);
                }
                lemma_quiet_controlled(m, taken, nested);
                lemma_controlled(m, taken, nested, base, around);
                lemma_controlled_both(m, taken, b, nested, nested, nested, base, around);
            },
        }
    }
}

/// A case whose plan is made was evaluated by it.
spec fn case_followed<'a>(
    p: Program<'a>,
    depth: nat,
    target: Expression,
    arms: Seq<CaseArm>,
    otherwise: Seq<Statement>,
    controls: Seq<usize>,
    found: Seq<usize>,
    m: Machine,
    b: Machine,
    r: Evaluated,
    plan: CasePlan,
) -> bool {
    let nested = controls + found;
    let count = procedure::case_count(arms.len() as int);
    match plan {
        CasePlan::Default => procedure::ran_block(p, depth, otherwise, nested, m, b, r),
        CasePlan::Arm(arm) => arm < arms.len() && procedure::ran_block(p, depth, arms[arm as int].body@, nested, m, b, r) || arm >= arms.len() && procedure::ran_block(
            p,
            depth,
            otherwise,
            nested,
            m,
            b,
            r,
        ),
        CasePlan::Branch { arms: chosen, default } => exists|n: Machine, before: Seq<Branch>, o: Machine, list: Seq<Branch>, versions: Seq<usize>|
            #![trigger procedure::way_branches(n, before), procedure::way_branches(o, list), procedure::way(o, found, versions)]
            procedure::way_branches(n, before) && procedure::way_branches(o, list) && procedure::way(o, found, versions) && values::sorted_from(versions, found)
                && procedure::ran_case_arms(
                p,
                depth,
                arms,
                chosen@,
                chosen@.len() as int,
                nested,
                procedure::next_branch_of(m, count),
                m.condition,
                machine::taken_number(m),
                n,
                before,
            ) && (if (default || before.len() == 0) && arms.len() < count {
                list.len() == before.len() + 1 && list.drop_last() == before && procedure::ran_branch(
                    p,
                    depth,
                    otherwise,
                    nested,
                    procedure::next_branch_of(m, count),
                    arms.len() as usize,
                    m.condition,
                    n,
                    o,
                    list.last(),
                )
            } else {
                o == n && list == before
            }) && (if list.len() == 0 {
                machine::simple(o, b, ProcedureFlow::Continue, r) && b.store == o.store && b.loops == o.loops
            } else {
                exists|t: Machine, identity: usize| #[trigger]
                    procedure::way_identity(t, identity, versions) && machine::identified(o, t, predicates::Shape::Opaque(target.occurrence), identity)
                        && machine::came_together(t, b, procedure::predicate_of(identity, versions), list, m.condition, r)
            }),
    }
}

proof fn lemma_holds_added(list: Seq<usize>, more: Seq<usize>)
    ensures
        holds_all(machine::added(list, more), list),
    decreases more.len(),
{
    if more.len() > 0 {
        lemma_holds_added(list, more.drop_last());
        let before = machine::added(list, more.drop_last());
        if !before.contains(more.last()) {
            assert(before.push(more.last()) =~= before + seq![more.last()]);
            lemma_holds_joined(before, seq![more.last()]);
        }
    }
}

proof fn lemma_iterations<'a>(
    p: Program<'a>,
    depth: nat,
    iterations: Seq<Vec<Statement>>,
    count: int,
    controls: Seq<usize>,
    a: Machine,
    b: Machine,
    trees: Seq<FlowTree>,
    now: Seq<usize>,
    base: Map<u64, usize>,
    around: Seq<usize>,
)
    requires
        blocks_run_here(iterations),
        procedure::ran_iterations(p, depth, iterations, count, controls, a, b, trees, now),
        entered(a, base, around),
        holds_all(controls, around),
    ensures
        controlled(a, b, controls, base, around),
        holds_all(now, controls),
    decreases iterations, count as nat,
{
    if count <= 0 || count > iterations.len() {
        assert(quiet(a, b));
        lemma_quiet_controlled(a, b, controls);
        lemma_controlled(a, b, controls, base, around);
    } else {
        let (m, before, previous, r) = choose|m: Machine, before: Seq<FlowTree>, previous: Seq<usize>, r: Evaluated| #[trigger]
            procedure::way_iteration(m, before, previous, r) && procedure::ran_iterations(p, depth, iterations, count - 1, controls, a, m, before, previous)
                && if machine::stopped(m.flows, before) {
                b == m && trees == before && now == previous
            } else {
                procedure::ran_block(p, depth, iterations[count - 1]@, previous, m, b, r) && trees == before.push(r.tree) && now == machine::added(previous, r.controls@)
            };
        lemma_iterations(p, depth, iterations, count - 1, controls, a, m, before, previous, base, around);
        if !machine::stopped(m.flows, before) {
            assert(all_run_here(iterations[count - 1]@));
            lemma_block(p, depth, iterations[count - 1]@, previous, m, b, r, base, around);
            lemma_holds_added(previous, r.controls@);
            lemma_controlled_both(a, m, b, controls, previous, controls, base, around);
        }
    }
}

/// A loop with known iterations: the ways out come together.
proof fn lemma_unrolled<'a>(
    p: Program<'a>,
    depth: nat,
    iterations: Seq<Vec<Statement>>,
    controls: Seq<usize>,
    m: Machine,
    opened: Machine,
    n: Machine,
    b: Machine,
    trees: Seq<FlowTree>,
    now: Seq<usize>,
    r: Evaluated,
    base: Map<u64, usize>,
    around: Seq<usize>,
)
    requires
        blocks_run_here(iterations),
        machine::loop_opened(m, opened),
        procedure::ran_iterations(p, depth, iterations, iterations.len() as int, controls, opened, n, trees, now),
        machine::loop_closed(m, n, b, trees, r),
        entered(m, base, around),
        holds_all(controls, around),
    ensures
        controlled(m, b, controls, base, around),
    decreases iterations, iterations.len() + 1,
{
    let start = m.store.current@;
    assert(entered(opened, start, controls));
    lemma_iterations(p, depth, iterations, iterations.len() as int, controls, opened, n, trees, now, start, controls);
    let plan = sequence::sequenced(sequence::plans_of(n.flows, trees));
    let goes_on = crate::flow::can_end(b.flows.plan(r.tree), ProcedureFlow::Continue);
    let falls = crate::flow::can_end(plan, ProcedureFlow::Continue);
    let top = n.loops@.last();
    let (rolled, exits) = choose|rolled: SsaStore, exits: Seq<FlowState>| #[trigger]
        sequence::loop_left(n.store, rolled, b.store, top.checkpoint.depth as int, top.breaks@, n.condition, falls, goes_on, exits);
    let last = m.store.checkpoints@.len() as int;
    assert(top.checkpoint.depth == last);
    assert(n.store.saved(last) == opened.store.saved(last));
    assert(rolled.current@ == start);
    assert(b.loops@ == m.loops@);
    assert(opened.store.checkpoints@.drop_last() =~= m.store.checkpoints@);
    assert forall|d: int| 0 <= d < m.store.checkpoints@.len() implies #[trigger] b.store.saved(d) == m.store.saved(d) by {
        assert(opened.store.saved(d) == m.store.saved(d));
        assert(n.store.saved(d) == opened.store.saved(d));
        assert(rolled.saved(d) == n.store.saved(d));
    }
    assert(steady(m, b));
    if b.complete {
        assert(n.complete);
        if goes_on {
            let states = choose|states: Seq<BranchState>| #[trigger]
                sequence::copies_exits(exits, states) && branches::merges(rolled, b.store, states);
            assert forall|i: int| 0 <= i < states.len() implies state_controlled(b.store.versions@, (#[trigger] states[i]).bindings@, rolled.current@, controls) by {
                if falls && i == exits.len() - 1 {
                    lemma_changes_controlled(n.store.versions@, exits.last().state.bindings@, n.store.current@, start, controls);
                } else {
                    if falls {
                        assert(exits.drop_last()[i] == exits[i]);
                    }
                    assert(exits[i] == n.loops@.last().breaks@[i]);
                    assert(state_controlled(n.store.versions@, n.loops@.last().breaks@[i].state.bindings@, start, controls));
                }
                lemma_state_grows(n.store.versions@, b.store.versions@, exits[i].state.bindings@, start, controls);
            }
            lemma_merges(rolled, b.store, states, controls);
        }
        assert(kept_or_controlled(b.store.versions@, start, b.store.current@, controls));
        lemma_breaks_grow(m, b, base, around);
        lemma_kept_grows(m.store.versions@, b.store.versions@, base, start, around, around);
        lemma_kept_grows(b.store.versions@, b.store.versions@, start, b.store.current@, controls, around);
        lemma_kept_twice(b.store.versions@, base, start, b.store.current@, around);
    }
}

proof fn lemma_for<'a>(
    p: Program<'a>,
    depth: nat,
    statement: Statement,
    range_controls: Seq<usize>,
    found: Seq<usize>,
    m: Machine,
    b: Machine,
    r: Evaluated,
    base: Map<u64, usize>,
    around: Seq<usize>,
)
    requires
        runs_here(statement),
        procedure::ran_for(p, depth, statement, range_controls, found, m, b, r),
        entered(m, base, around),
        holds_all(range_controls, around),
    ensures
        controlled(m, b, range_controls, base, around),
    decreases statement, 0nat,
{
    if let Statement::For { bounds, body, range, iterations } = statement {
        match (procedure::loop_plan_of(range, iterations), iterations) {
            (LoopPlan::Pass, _) => {
                assert(quiet(m, b));
                lemma_quiet_controlled(m, b, range_controls);
                lemma_controlled(m, b, range_controls, base, around);
            },
            (LoopPlan::Unroll, Iterations::Known(list)) => {
                let (opened, n, trees, now) = choose|opened: Machine, n: Machine, trees: Seq<FlowTree>, now: Seq<usize>| #[trigger]
                    procedure::way_loop(opened, n, trees, now) && machine::loop_opened(m, opened) && procedure::ran_iterations(
                        p,
                        depth,
                        list@,
                        list@.len() as int,
                        range_controls,
                        opened,
                        n,
                        trees,
                        now,
                    ) && machine::loop_closed(m, n, b, trees, r);
                lemma_unrolled(p, depth, list@, range_controls, m, opened, n, b, trees, now, r, base, around);
            },
            (LoopPlan::Forget { may_skip }, _) => {
                let (list, n) = choose|list: Seq<NodeKey>, n: Machine|
                    #![trigger procedure::way_nodes(list), procedure::way(n, Seq::empty(), Seq::empty())]
                    procedure::way_nodes(list) && procedure::way(n, Seq::empty(), Seq::empty()) && procedure::body_may_write(p, body@, list) && steps::nodes_forgotten(
                        p,
                        list,
                        may_skip,
                        m,
                        n,
                    ) && machine::simple(n, b, ProcedureFlow::Continue, r) && b.store == n.store && b.loops == n.loops;
                assert(!b.complete);
            },
            _ => {},
        }
    }
}

/// What a statement writes depends on everything that decides on the statement; so do the ways that
/// it notes out of the innermost loop.
proof fn lemma_statement<'a>(
    p: Program<'a>,
    depth: nat,
    statement: Statement,
    controls: Seq<usize>,
    a: Machine,
    b: Machine,
    r: Evaluated,
    base: Map<u64, usize>,
    around: Seq<usize>,
)
    requires
        runs_here(statement),
        procedure::ran_statement(p, depth, statement, controls, a, b, r),
        entered(a, base, around),
        holds_all(controls, around),
    ensures
        controlled(a, b, controls, base, around),
    decreases statement, 2nat,
{
    match statement {
        Statement::Assign { destinations, value } => {
            let (opened, n, m, o) = choose|opened: Machine, n: Machine, m: Machine, o: Machine|
                #![trigger procedure::way_arm(opened, n, Seq::empty()), procedure::way_arm(m, o, Seq::empty())]
                procedure::way_arm(opened, n, Seq::empty()) && procedure::way_arm(m, o, Seq::empty()) && procedure::expression_opened(a, opened)
                    && procedure::ran_assign(p, depth, statement, controls, opened, n) && procedure::expression_closed(a, n, m) && if procedure::is_return(
                    a.functions@,
                    destinations@,
                ) {
                    machine::return_recorded(m, o) && machine::simple(o, b, ProcedureFlow::Return, r) && b.store == o.store && b.loops == o.loops
                } else {
                    o == m && machine::simple(m, b, ProcedureFlow::Continue, r) && b.store == m.store && b.loops == m.loops
                };
            lemma_ran_assign(p, depth, statement, controls, opened, n);
            assert(writes_controlled(a, m, controls));
            if procedure::is_return(a.functions@, destinations@) {
                lemma_return(m, o);
            }
            assert(quiet(m, b));
            lemma_quiet_controlled(m, b, controls);
            lemma_controlled_twice(a, m, b, controls);
            lemma_controlled(a, b, controls, base, around);
        },
        Statement::If { condition, yes, no } => {
            lemma_if(p, depth, statement, controls, a, b, r, base, around);
        },
        Statement::Case { target, arms, otherwise, facts } => {
            lemma_whole_case(p, depth, statement, controls, a, b, r, base, around);
        },
        Statement::For { bounds, body, range, iterations } => {
            lemma_whole_for(p, depth, statement, controls, a, b, r, base, around);
        },
        Statement::Call(_) => {},
        Statement::System(call) => {
            let (m, found) = choose|m: Machine, found: Seq<usize>| #[trigger]
                procedure::way(m, found, found) && procedure::ran_system(p, depth, call, controls, a, m, found) && machine::simple(
                    m,
                    b,
                    ProcedureFlow::Continue,
                    r,
                ) && b.store == m.store && b.loops == m.loops;
            lemma_system(p, depth, call, controls, a, m, found);
            assert(quiet(m, b));
            lemma_quiet_controlled(m, b, controls);
            lemma_controlled_twice(a, m, b, controls);
            lemma_controlled(a, b, controls, base, around);
        },
        Statement::Break => {
            lemma_break(a, b, controls, base, around);
        },
        Statement::Unsupported => {
            let m = choose|m: Machine| #[trigger]
                procedure::way(m, Seq::empty(), Seq::empty()) && steps::nodes_forgotten(p, p.owned@, false, a, m) && machine::simple(
                    m,
                    b,
                    ProcedureFlow::Continue,
                    r,
                ) && b.store == m.store && b.loops == m.loops;
            assert(!b.complete);
        },
        Statement::IfReset { .. } => {
            assert(quiet(a, b));
            lemma_quiet_controlled(a, b, controls);
            lemma_controlled(a, b, controls, base, around);
        },
        Statement::Other => {
            assert(quiet(a, b));
            lemma_quiet_controlled(a, b, controls);
            lemma_controlled(a, b, controls, base, around);
        },
    }
}

proof fn lemma_return(a: Machine, b: Machine)
    requires
        machine::return_recorded(a, b),
    ensures
        quiet(a, b),
{
    if exists|at: int| crate::exits::capturing(a.captures@, at) {
        let at = choose|at: int| crate::exits::capturing(a.captures@, at);
        assert(crate::exits::exit_marked(a.store, b.store, (a.captures@[at]->0).revision.id));
    } else {
        assert(crate::exits::none_captures(a.captures@)) by {
            lemma_none_captures(a.captures@, a.captures@.len() as int);
        }
    }
}

proof fn lemma_none_captures(captures: Seq<Option<crate::exits::ReturnCapture>>, from: int)
    requires
        0 <= from <= captures.len(),
        forall|k: int| from <= k < captures.len() ==> (#[trigger] captures[k]) is None,
        !exists|at: int| crate::exits::capturing(captures, at),
    ensures
        crate::exits::none_captures(captures),
    decreases from,
{
    if from > 0 {
        if captures[from - 1] is Some {
            assert(crate::exits::capturing(captures, from - 1));
        }
        lemma_none_captures(captures, from - 1);
    }
}

proof fn lemma_break(a: Machine, b: Machine, controls: Seq<usize>, base: Map<u64, usize>, around: Seq<usize>)
    requires
        machine::rest_same(a, b),
        machine::break_recorded(a, b),
        entered(a, base, around),
    ensures
        controlled(a, b, controls, base, around),
{
    if b.complete && a.loops@.len() > 0 {
        let top = a.loops@.last();
        let now = b.loops@.last();
        assert forall|i: int| 0 <= i < now.breaks@.len() implies state_controlled(
            b.store.versions@,
            (#[trigger] now.breaks@[i]).state.bindings@,
            base,
            around,
        ) by {
            if i < top.breaks@.len() {
                assert(now.breaks@.drop_last()[i] == top.breaks@[i]);
            } else {
                assert(now.breaks@[i] == now.breaks@.last());
                assert forall|key: u64, v: usize| #[trigger] ssa::bound(now.breaks@.last().state.bindings@, key, v) implies ssa::binding_of(base, key) == Some(v)
                    || depends_on_all(b.store.versions@, v, around) by {
                    assert(ssa::binding_of(a.store.current@, key) == Some(v));
                }
            }
        }
    }
}

proof fn lemma_system<'a>(p: Program<'a>, depth: nat, call: SystemCall, controls: Seq<usize>, a: Machine, b: Machine, reads: Seq<usize>)
    requires
        all_call_nothing(call.inputs@),
        accesses_call_nothing(call.outputs@),
        procedure::ran_system(p, depth, call, controls, a, b, reads),
    ensures
        writes_controlled(a, b, controls),
{
    match call.kind {
        SystemKind::Query => {
            lemma_quiet_same(a, b);
            lemma_quiet_controlled(a, b, controls);
        },
        SystemKind::Onehot | SystemKind::Cast => {
            let found = choose|found: Seq<usize>| #[trigger]
                procedure::way(b, found, reads) && procedure::ran_exprs(p, depth, call.inputs@, call.inputs@.len() as int, a, b, found) && values::sorted_from(reads, found);
            lemma_quiet_exprs(p, depth, call.inputs@, call.inputs@.len() as int, a, b, found);
            lemma_quiet_controlled(a, b, controls);
        },
        SystemKind::Load => {
            let (m, found) = choose|m: Machine, found: Seq<usize>| #[trigger]
                procedure::way(m, found, found) && procedure::ran_exprs(p, depth, call.inputs@, call.inputs@.len() as int, a, m, found) && procedure::ran_writes(
                    p,
                    depth,
                    call.outputs@,
                    call.outputs@.len() as int,
                    found + controls,
                    m,
                    b,
                );
            lemma_quiet_exprs(p, depth, call.inputs@, call.inputs@.len() as int, a, m, found);
            lemma_quiet_controlled(a, m, controls);
            lemma_holds_joined(found, controls);
            lemma_ran_writes(p, depth, call.outputs@, call.outputs@.len() as int, found + controls, m, b, controls);
            lemma_controlled_twice(a, m, b, controls);
        },
        SystemKind::Effect => {
            let found = choose|found: Seq<usize>| #[trigger]
                procedure::way(b, found, reads) && procedure::ran_exprs(p, depth, call.inputs@, call.inputs@.len() as int, a, b, found);
            lemma_quiet_exprs(p, depth, call.inputs@, call.inputs@.len() as int, a, b, found);
            lemma_quiet_controlled(a, b, controls);
        },
    }
}

/// The condition was read as `found`, and what was written depends on it and on the controls.
spec fn decided<'a>(p: Program<'a>, depth: nat, condition: Expression, controls: Seq<usize>, a: Machine, b: Machine, base: Map<u64, usize>, around: Seq<usize>) -> bool {
    exists|m: Machine, found: Seq<usize>| #[trigger]
        procedure::ran_expr(p, depth, condition, a, m, found) && controlled(a, b, controls + found, base, around)
}

proof fn lemma_if<'a>(
    p: Program<'a>,
    depth: nat,
    statement: Statement,
    controls: Seq<usize>,
    a: Machine,
    b: Machine,
    r: Evaluated,
    base: Map<u64, usize>,
    around: Seq<usize>,
)
    requires
        statement is If,
        runs_here(statement),
        procedure::ran_statement(p, depth, statement, controls, a, b, r),
        entered(a, base, around),
        holds_all(controls, around),
    ensures
        controlled(a, b, controls, base, around),
        statement matches Statement::If { condition, yes, no } && decided(p, depth, condition, controls, a, b, base, around),
    decreases statement, 1nat,
{
    if let Statement::If { condition, yes, no } = statement {
        let (m, found) = choose|m: Machine, found: Seq<usize>| #[trigger]
            procedure::way(m, found, found) && procedure::ran_expr(p, depth, condition, a, m, found) && match flows::truth_of(condition) {
                Some(true) => procedure::ran_block(p, depth, yes@, controls + found, m, b, r),
                Some(false) => procedure::ran_block(p, depth, no@, controls + found, m, b, r),
                None => exists|n: Machine, o: Machine, list: Seq<Branch>, t: Machine, identity: usize, versions: Seq<usize>|
                    #![trigger procedure::way_branches(n, list), procedure::way_branches(o, list), procedure::way_identity(t, identity, versions)]
                    procedure::way_branches(n, list) && procedure::way_branches(o, list) && procedure::way_identity(t, identity, versions) && list.len() == 2
                        && procedure::ran_branch(
                        p,
                        depth,
                        yes@,
                        controls + found,
                        procedure::next_branch_of(m, 2),
                        0,
                        m.condition,
                        machine::taken_number(m),
                        n,
                        list[0],
                    ) && procedure::ran_branch(p, depth, no@, controls + found, procedure::next_branch_of(m, 2), 1, m.condition, n, o, list[1]) && machine::identified(
                        o,
                        t,
                        predicates::written(condition),
                        identity,
                    ) && values::sorted_from(versions, found) && machine::came_together(
                        t,
                        b,
                        procedure::predicate_of(identity, versions),
                        list,
                        m.condition,
                        r,
                    ),
            };
        let nested = controls + found;
        lemma_holds_joined(controls, found);
        lemma_quiet_expr(p, depth, condition, a, m, found);
        lemma_quiet_controlled(a, m, nested);
        lemma_controlled(a, m, nested, base, around);
        match flows::truth_of(condition) {
            Some(true) => {
                lemma_block(p, depth, yes@, nested, m, b, r, base, around);
            },
            Some(false) => {
                lemma_block(p, depth, no@, nested, m, b, r, base, around);
            },
            None => {
                let (n, o, list, t, identity, versions) = choose|n: Machine, o: Machine, list: Seq<Branch>, t: Machine, identity: usize, versions: Seq<usize>|
                    #![trigger procedure::way_branches(n, list), procedure::way_branches(o, list), procedure::way_identity(t, identity, versions)]
                    procedure::way_branches(n, list) && procedure::way_branches(o, list) && procedure::way_identity(t, identity, versions) && list.len() == 2
                        && procedure::ran_branch(
                        p,
                        depth,
                        yes@,
                        controls + found,
                        procedure::next_branch_of(m, 2),
                        0,
                        m.condition,
                        machine::taken_number(m),
                        n,
                        list[0],
                    ) && procedure::ran_branch(p, depth, no@, controls + found, procedure::next_branch_of(m, 2), 1, m.condition, n, o, list[1]) && machine::identified(
                        o,
                        t,
                        predicates::written(condition),
                        identity,
                    ) && values::sorted_from(versions, found) && machine::came_together(
                        t,
                        b,
                        procedure::predicate_of(identity, versions),
                        list,
                        m.condition,
                        r,
                    );
                let taken = machine::taken_number(m);
                assert(quiet(m, taken));
                lemma_entered(m, taken, base, around);
                lemma_branch(p, depth, yes@, nested, procedure::next_branch_of(m, 2), 0, m.condition, taken, n, list[0], base, around);
                lemma_branch(p, depth, no@, nested, procedure::next_branch_of(m, 2), 1, m.condition, n, o, list[1], base, around);
                let none = Seq::<Branch>::empty();
                let one = seq![list[0]];
                assert(all_branched(taken, taken, none, nested, base, around));
                assert(one.drop_last() =~= none);
                lemma_one_more(taken, taken, n, none, one, nested, base, around);
                assert(list.drop_last() =~= one);
                lemma_one_more(taken, n, o, one, list, nested, base, around);
                lemma_came_together(taken, o, t, b, procedure::predicate_of(identity, versions), list, m.condition, r, nested, base, around);
                lemma_quiet_controlled(m, taken, nested);
                lemma_controlled(m, taken, nested, base, around);
                lemma_controlled_both(m, taken, b, nested, nested, nested, base, around);
            },
        }
        lemma_controlled_both(a, m, b, nested, nested, nested, base, around);
        assert(procedure::ran_expr(p, depth, condition, a, m, found));
        lemma_fewer(a, b, nested, controls, base, around);
    }
}

proof fn lemma_fewer(a: Machine, b: Machine, controls: Seq<usize>, fewer: Seq<usize>, base: Map<u64, usize>, around: Seq<usize>)
    requires
        controlled(a, b, controls, base, around),
        holds_all(controls, fewer),
    ensures
        controlled(a, b, fewer, base, around),
{
    if b.complete {
        lemma_kept_grows(b.store.versions@, b.store.versions@, a.store.current@, b.store.current@, controls, fewer);
    }
}

/// The target of a case was read as `first`, and what was written depends on it and on the controls.
spec fn case_decided<'a>(p: Program<'a>, depth: nat, target: Expression, controls: Seq<usize>, a: Machine, b: Machine, base: Map<u64, usize>, around: Seq<usize>) -> bool {
    exists|m: Machine, first: Seq<usize>| #[trigger]
        procedure::ran_expr(p, depth, target, a, m, first) && controlled(a, b, controls + first, base, around)
}

proof fn lemma_whole_case<'a>(
    p: Program<'a>,
    depth: nat,
    statement: Statement,
    controls: Seq<usize>,
    a: Machine,
    b: Machine,
    r: Evaluated,
    base: Map<u64, usize>,
    around: Seq<usize>,
)
    requires
        statement is Case,
        runs_here(statement),
        procedure::ran_statement(p, depth, statement, controls, a, b, r),
        entered(a, base, around),
        holds_all(controls, around),
    ensures
        controlled(a, b, controls, base, around),
        statement matches Statement::Case { target, arms, otherwise, facts } && case_decided(p, depth, target, controls, a, b, base, around),
    decreases statement, 1nat,
{
    if let Statement::Case { target, arms, otherwise, facts } = statement {
        let (n, first, m, second) = choose|n: Machine, first: Seq<usize>, m: Machine, second: Seq<usize>| #[trigger]
            procedure::way_both(n, first, m, second) && procedure::ran_expr(p, depth, target, a, n, first) && procedure::ran_all_patterns(
                p,
                depth,
                arms@,
                arms@.len() as int,
                n,
                m,
                second,
            ) && procedure::ran_case(p, depth, statement, controls, first + second, m, b, r);
        let nested = controls + (first + second);
        lemma_holds_joined(controls, first + second);
        lemma_quiet_expr(p, depth, target, a, n, first);
        lemma_all_patterns(p, depth, arms@, arms@.len() as int, n, m, second);
        lemma_quiet_twice(a, n, m);
        lemma_quiet_controlled(a, m, nested);
        lemma_controlled(a, m, nested, base, around);
        lemma_case(p, depth, statement, controls, first + second, m, b, r, base, around);
        lemma_controlled_both(a, m, b, nested, nested, nested, base, around);
        lemma_holds_joined(controls + first, second);
        assert((controls + first) + second =~= nested);
        lemma_fewer(a, b, nested, controls + first, base, around);
        assert(procedure::ran_expr(p, depth, target, a, n, first));
        lemma_fewer(a, b, nested, controls, base, around);
    }
}

/// The bounds of a loop were read as `found`, and what was written depends on them and on the
/// controls.
spec fn loop_decided<'a>(p: Program<'a>, depth: nat, bounds: Seq<Expression>, controls: Seq<usize>, a: Machine, b: Machine, base: Map<u64, usize>, around: Seq<usize>) -> bool {
    exists|m: Machine, found: Seq<usize>| #[trigger]
        procedure::ran_exprs(p, depth, bounds, bounds.len() as int, a, m, found) && controlled(a, b, controls + found, base, around)
}

proof fn lemma_whole_for<'a>(
    p: Program<'a>,
    depth: nat,
    statement: Statement,
    controls: Seq<usize>,
    a: Machine,
    b: Machine,
    r: Evaluated,
    base: Map<u64, usize>,
    around: Seq<usize>,
)
    requires
        statement is For,
        runs_here(statement),
        procedure::ran_statement(p, depth, statement, controls, a, b, r),
        entered(a, base, around),
        holds_all(controls, around),
    ensures
        controlled(a, b, controls, base, around),
        statement matches Statement::For { bounds, body, range, iterations } && loop_decided(p, depth, bounds@, controls, a, b, base, around),
    decreases statement, 1nat,
{
    if let Statement::For { bounds, body, range, iterations } = statement {
        let (m, found, range_controls) = choose|m: Machine, found: Seq<usize>, range_controls: Seq<usize>|
            #![trigger procedure::way(m, found, range_controls)]
            procedure::way(m, found, range_controls) && procedure::ran_exprs(p, depth, bounds@, bounds@.len() as int, a, m, found) && values::sorted_from(
                range_controls,
                controls + found,
            ) && procedure::ran_for(p, depth, statement, range_controls, found, m, b, r);
        let nested = controls + found;
        lemma_holds_joined(controls, found);
        assert(holds_all(range_controls, nested));
        lemma_quiet_exprs(p, depth, bounds@, bounds@.len() as int, a, m, found);
        lemma_quiet_controlled(a, m, nested);
        lemma_controlled(a, m, nested, base, around);
        lemma_for(p, depth, statement, range_controls, found, m, b, r, base, around);
        lemma_controlled_both(a, m, b, nested, range_controls, nested, base, around);
        assert(procedure::ran_exprs(p, depth, bounds@, bounds@.len() as int, a, m, found));
        lemma_fewer(a, b, nested, controls, base, around);
    }
}

/// With no loop around it, a statement starts with nothing written.
proof fn lemma_fresh(a: Machine)
    ensures
        entered(a, a.store.current@, Seq::empty()),
{
    assert(kept_or_controlled(a.store.versions@, a.store.current@, a.store.current@, Seq::empty()));
}

/// Whatever a statement writes depends on every control that it was entered with, however deep the
/// write stands in conditions, cases and loops: a key has the version that it had before, or one whose
/// value depends, over any number of versions, on each control.
///
/// Nothing may be called in the statement: a call in an expression is evaluated without controls. The
/// iterations of its loops must be known, and nothing may be met of which nothing is known.
pub proof fn what_is_written_depends_on_its_controls<'a>(
    p: Program<'a>,
    depth: nat,
    statement: Statement,
    controls: Seq<usize>,
    a: Machine,
    b: Machine,
    r: Evaluated,
)
    requires
        procedure::ran_statement(p, depth, statement, controls, a, b, r),
        runs_here(statement),
        b.complete,
    ensures
        kept_or_controlled(b.store.versions@, a.store.current@, b.store.current@, controls),
{
    lemma_fresh(a);
    lemma_statement(p, depth, statement, controls, a, b, r, a.store.current@, Seq::empty());
}

/// As for a statement, so for a block.
pub proof fn what_a_block_writes_depends_on_its_controls<'a>(
    p: Program<'a>,
    depth: nat,
    list: Seq<Statement>,
    controls: Seq<usize>,
    a: Machine,
    b: Machine,
    r: Evaluated,
)
    requires
        procedure::ran_block(p, depth, list, controls, a, b, r),
        all_run_here(list),
        b.complete,
    ensures
        kept_or_controlled(b.store.versions@, a.store.current@, b.store.current@, controls),
{
    lemma_fresh(a);
    lemma_block(p, depth, list, controls, a, b, r, a.store.current@, Seq::empty());
}

/// Whatever stands under a condition depends on it: what an `if` writes depends on every version that
/// its condition reads, beside the controls that it was entered with.
pub proof fn what_an_if_writes_depends_on_its_condition<'a>(
    p: Program<'a>,
    depth: nat,
    statement: Statement,
    controls: Seq<usize>,
    a: Machine,
    b: Machine,
    r: Evaluated,
)
    requires
        procedure::ran_statement(p, depth, statement, controls, a, b, r),
        runs_here(statement),
        statement is If,
        b.complete,
    ensures
        statement matches Statement::If { condition, yes, no } && exists|m: Machine, found: Seq<usize>| #[trigger]
            procedure::ran_expr(p, depth, condition, a, m, found) && kept_or_controlled(
                b.store.versions@,
                a.store.current@,
                b.store.current@,
                controls + found,
            ),
{
    lemma_fresh(a);
    lemma_if(p, depth, statement, controls, a, b, r, a.store.current@, Seq::empty());
    if let Statement::If { condition, yes, no } = statement {
        let (m, found) = choose|m: Machine, found: Seq<usize>| #[trigger]
            procedure::ran_expr(p, depth, condition, a, m, found) && controlled(a, b, controls + found, a.store.current@, Seq::empty());
        assert(procedure::ran_expr(p, depth, condition, a, m, found));
    }
}

/// What a case writes depends on every version that its target reads, beside the controls that it was
/// entered with.
pub proof fn what_a_case_writes_depends_on_its_target<'a>(
    p: Program<'a>,
    depth: nat,
    statement: Statement,
    controls: Seq<usize>,
    a: Machine,
    b: Machine,
    r: Evaluated,
)
    requires
        procedure::ran_statement(p, depth, statement, controls, a, b, r),
        runs_here(statement),
        statement is Case,
        b.complete,
    ensures
        statement matches Statement::Case { target, arms, otherwise, facts } && exists|m: Machine, found: Seq<usize>| #[trigger]
            procedure::ran_expr(p, depth, target, a, m, found) && kept_or_controlled(
                b.store.versions@,
                a.store.current@,
                b.store.current@,
                controls + found,
            ),
{
    lemma_fresh(a);
    lemma_whole_case(p, depth, statement, controls, a, b, r, a.store.current@, Seq::empty());
    if let Statement::Case { target, arms, otherwise, facts } = statement {
        let (m, found) = choose|m: Machine, found: Seq<usize>| #[trigger]
            procedure::ran_expr(p, depth, target, a, m, found) && controlled(a, b, controls + found, a.store.current@, Seq::empty());
        assert(procedure::ran_expr(p, depth, target, a, m, found));
    }
}

/// What a loop writes depends on every version that its bounds read, beside the controls that it was
/// entered with.
pub proof fn what_a_loop_writes_depends_on_its_bounds<'a>(
    p: Program<'a>,
    depth: nat,
    statement: Statement,
    controls: Seq<usize>,
    a: Machine,
    b: Machine,
    r: Evaluated,
)
    requires
        procedure::ran_statement(p, depth, statement, controls, a, b, r),
        runs_here(statement),
        statement is For,
        b.complete,
    ensures
        statement matches Statement::For { bounds, body, range, iterations } && exists|m: Machine, found: Seq<usize>| #[trigger]
            procedure::ran_exprs(p, depth, bounds@, bounds@.len() as int, a, m, found) && kept_or_controlled(
                b.store.versions@,
                a.store.current@,
                b.store.current@,
                controls + found,
            ),
{
    lemma_fresh(a);
    lemma_whole_for(p, depth, statement, controls, a, b, r, a.store.current@, Seq::empty());
    if let Statement::For { bounds, body, range, iterations } = statement {
        let (m, found) = choose|m: Machine, found: Seq<usize>| #[trigger]
            procedure::ran_exprs(p, depth, bounds@, bounds@.len() as int, a, m, found) && controlled(
                a,
                b,
                controls + found,
                a.store.current@,
                Seq::empty(),
            );
        assert(procedure::ran_exprs(p, depth, bounds@, bounds@.len() as int, a, m, found));
    }
}

/// Where ways come together nothing is lost: what a key has then depends on each version that some way
/// leaves it with, and on the one that it had where some way leaves it alone; it is made from nothing
/// else. A key that no way changes is left alone.
pub proof fn nothing_is_lost_where_ways_meet(before: SsaStore, after: SsaStore, states: Seq<BranchState>, key: u64)
    requires
        branches::merges(before, after, states),
    ensures
        (forall|i: int| 0 <= i < states.len() ==> !ssa::binds((#[trigger] states[i]).bindings@, key)) ==> ssa::binding_of(after.current@, key) == ssa::binding_of(
            before.current@,
            key,
        ),
        forall|i: int, v: usize|
            0 <= i < states.len() && #[trigger] ssa::bound(states[i].bindings@, key, v) ==> (ssa::binding_of(after.current@, key) matches Some(w) && depends_on(
                after.versions@,
                w,
                v,
            )),
        forall|i: int, j: int, u: usize|
            0 <= i < states.len() && 0 <= j < states.len() && !#[trigger] ssa::binds(states[i].bindings@, key) && #[trigger] ssa::binds(states[j].bindings@, key)
                && #[trigger] had(before.current@, key, u) ==> (ssa::binding_of(after.current@, key) matches Some(w) && depends_on(after.versions@, w, u)),
        ssa::binding_of(after.current@, key) matches Some(w) ==> ssa::binding_of(before.current@, key) == Some(w) || left_by_some(states, before, after, key, w) || (
        after.versions@[w as int] is Phi && forall|x: usize| #[trigger]
            made_from(after.versions@, w, x) ==> left_by_some(states, before, after, key, x)),
{
    let versions = after.versions@;
    if state::some_binds(states, key) {
        assert(state::merged_key(states, before.current@, after, key));
        let w = after.current@[key];
        let inputs = state::merge_inputs(states, before.current@, after.entries@, key);
        assert forall|x: usize| #[trigger] inputs.contains(x) implies depends_on(versions, w, x) by {
            lemma_depends_self(versions, x);
            if exists|y: usize| inputs == set![y] {
                let y = choose|y: usize| inputs == set![y];
                assert(set![y].contains(x) && set![y].contains(w));
            } else {
                assert(made_from(versions, w, x));
                lemma_depends_step(versions, w, x, x);
            }
        }
        assert forall|i: int, v: usize| 0 <= i < states.len() && #[trigger] ssa::bound(states[i].bindings@, key, v) implies depends_on(versions, w, v) by {
            assert(ssa::bound(states[i].bindings@, key, v));
            assert(state::state_versions(states, key).contains(v));
            assert(inputs.contains(v));
        }
        assert forall|i: int, j: int, u: usize|
            0 <= i < states.len() && 0 <= j < states.len() && !#[trigger] ssa::binds(states[i].bindings@, key) && #[trigger] ssa::binds(states[j].bindings@, key)
                && #[trigger] had(before.current@, key, u) implies depends_on(versions, w, u) by {
            assert(!state::all_bind(states, key));
            assert(inputs.contains(u));
        }
        assert forall|x: usize| #[trigger] inputs.contains(x) implies left_by_some(states, before, after, key, x) by {
            if state::state_versions(states, key).contains(x) {
                let i = choose|i: int| 0 <= i < states.len() && ssa::bound((#[trigger] states[i]).bindings@, key, x);
                assert(ssa::bound(states[i].bindings@, key, x));
            } else {
                assert(!state::all_bind(states, key));
                let i = choose|i: int| 0 <= i < states.len() && !ssa::binds((#[trigger] states[i]).bindings@, key);
                assert(!ssa::binds(states[i].bindings@, key));
            }
        }
        if exists|y: usize| inputs == set![y] {
            assert(inputs.contains(w));
        }
        let i = choose|i: int| 0 <= i < states.len() && ssa::binds((#[trigger] states[i]).bindings@, key);
        assert(ssa::binds(states[i].bindings@, key));
    } else {
        assert forall|i: int, v: usize| 0 <= i < states.len() implies !#[trigger] ssa::bound(states[i].bindings@, key, v) by {
            if ssa::bound(states[i].bindings@, key, v) {
                let k = choose|k: int| 0 <= k < states[i].bindings@.len() && states[i].bindings@[k] == Binding { key, version: v };
                assert(states[i].bindings@[k].key == key);
                assert(ssa::binds(states[i].bindings@, key));
            }
        }
        assert forall|j: int| 0 <= j < states.len() implies !#[trigger] ssa::binds(states[j].bindings@, key) by {
            assert(!ssa::binds(states[j].bindings@, key));
        }
        assert(ssa::binding_of(after.current@, key) == ssa::binding_of(before.current@, key));
    }
}

/// The key had the version.
pub open spec fn had(current: Map<u64, usize>, key: u64, version: usize) -> bool {
    ssa::binding_of(current, key) == Some(version)
}

/// Some way leaves the key with the version: it bound it so, or left it as it was before.
pub open spec fn left_by_some(states: Seq<BranchState>, before: SsaStore, after: SsaStore, key: u64, version: usize) -> bool {
    exists|i: int|
        0 <= i < states.len() && (ssa::bound((#[trigger] states[i]).bindings@, key, version) || (!ssa::binds(states[i].bindings@, key) && match ssa::binding_of(
            before.current@,
            key,
        ) {
            Some(old) => version == old,
            None => after.entries@.contains_key(key) && version == after.entries@[key],
        }))
}

/// The statement before the end of a run of statements was reached in state `m`, by way of `previous`.
pub open spec fn reached<'a>(
    p: Program<'a>,
    depth: nat,
    list: Seq<Statement>,
    count: int,
    controls: Seq<usize>,
    a: Machine,
    m: Machine,
    before: Seq<FlowTree>,
    previous: Option<usize>,
) -> bool {
    procedure::ran_statements(p, depth, list, count - 1, controls, a, m, before, previous)
}

/// Whether a statement is reached decides on what it writes: where one before it may leave the block,
/// everything behind depends on what lets the run go on (`previous`), beside the controls of the block;
/// what the statement itself decides on is added for those behind it, and nothing is dropped. Behind a
/// statement that never goes on, nothing happens.
pub proof fn what_follows_depends_on_being_reached<'a>(
    p: Program<'a>,
    depth: nat,
    list: Seq<Statement>,
    count: int,
    controls: Seq<usize>,
    a: Machine,
    b: Machine,
    trees: Seq<FlowTree>,
    control: Option<usize>,
)
    requires
        procedure::ran_statements(p, depth, list, count, controls, a, b, trees, control),
        0 < count <= list.len(),
        all_run_here(list),
        b.complete,
    ensures
        exists|m: Machine, before: Seq<FlowTree>, previous: Option<usize>, r: Evaluated|
            #![trigger reached(p, depth, list, count, controls, a, m, before, previous), machine::stopped(m.flows, before), procedure::way_step(b, r)]
            reached(p, depth, list, count, controls, a, m, before, previous) && if machine::stopped(m.flows, before) {
                b == m && control == previous
            } else {
                &&& kept_or_controlled(b.store.versions@, m.store.current@, b.store.current@, controls)
                &&& previous matches Some(c) ==> kept_or_controlled(b.store.versions@, m.store.current@, b.store.current@, seq![c])
                &&& r.controls@.len() == 0 ==> control == previous
                &&& r.controls@.len() > 0 ==> (control matches Some(d) && depends_on_all(b.store.versions@, d, r.controls@) && (previous matches Some(c) ==> depends_on(
                    b.store.versions@,
                    d,
                    c,
                )))
                &&& trees == before.push(r.tree)
            },
{
    let (m, before, previous) = choose|m: Machine, before: Seq<FlowTree>, previous: Option<usize>| #[trigger]
        procedure::way_steps(m, before, previous) && procedure::ran_statements(p, depth, list, count - 1, controls, a, m, before, previous)
            && if machine::stopped(m.flows, before) {
            b == m && trees == before && control == previous
        } else {
            exists|n: Machine, r: Evaluated| #[trigger]
                procedure::way_step(n, r) && procedure::ran_statement(p, depth, list[count - 1], machine::active(controls, previous), m, n, r) && trees == before.push(
                    r.tree,
                ) && machine::control_made(n, b, r.controls@, previous, control)
        };
    assert(reached(p, depth, list, count, controls, a, m, before, previous));
    if machine::stopped(m.flows, before) {
        let r: Evaluated = arbitrary();
        assert(procedure::way_step(b, r));
    } else {
        let now = machine::active(controls, previous);
        let (n, r) = choose|n: Machine, r: Evaluated| #[trigger]
            procedure::way_step(n, r) && procedure::ran_statement(p, depth, list[count - 1], now, m, n, r) && trees == before.push(r.tree) && machine::control_made(
                n,
                b,
                r.controls@,
                previous,
                control,
            );
        assert(procedure::way_step(b, r));
        assert(runs_here(list[count - 1]));
        what_is_written_depends_on_its_controls(p, depth, list[count - 1], now, m, n, r);
        assert(holds_all(now, controls)) by {
            if let Some(c) = previous {
                assert(now =~= controls + seq![c]);
                lemma_holds_joined(controls, seq![c]);
            }
        }
        lemma_kept_grows(n.store.versions@, b.store.versions@, m.store.current@, n.store.current@, now, controls);
        if let Some(c) = previous {
            assert(now =~= controls + seq![c]);
            lemma_holds_joined(controls, seq![c]);
            lemma_kept_grows(n.store.versions@, b.store.versions@, m.store.current@, n.store.current@, now, seq![c]);
        }
        if r.controls@.len() > 0 {
            let found = r.controls@;
            let more = match previous {
                Some(previous) => seq![previous],
                None => Seq::empty(),
            };
            let d = control->0;
            lemma_holds_joined(found, more);
            assert(n.store.versions@.len() == n.store.versions.len());
            lemma_defined_by(b.store.versions@, d, found + more, PathCondition { node: 0 }, found);
            if let Some(c) = previous {
                lemma_defined_by(b.store.versions@, d, found + more, PathCondition { node: 0 }, more);
                assert(more[0] == c);
                assert(more.contains(c));
            }
        }
    }
}

/// The side of an `if` ends in this way only.
pub open spec fn side_ends(t: Machine, side: Branch, flow: ProcedureFlow) -> bool {
    t.flows.plan(side.tree) == crate::flow::Plan::Outcome(flow)
}

/// Where one side of an `if` goes on and the other leaves, what follows depends on the condition: some
/// version that stands for going on depends on everything that the condition reads.
pub proof fn going_on_behind_an_if_depends_on_its_condition<'a>(
    p: Program<'a>,
    depth: nat,
    statement: Statement,
    controls: Seq<usize>,
    a: Machine,
    b: Machine,
    r: Evaluated,
)
    requires
        procedure::ran_statement(p, depth, statement, controls, a, b, r),
        statement matches Statement::If { condition, yes, no } && flows::truth_of(condition) is None,
    ensures
        statement matches Statement::If { condition, yes, no } && exists|m: Machine, found: Seq<usize>, t: Machine, list: Seq<Branch>|
            #![trigger procedure::ran_expr(p, depth, condition, a, m, found), procedure::way_branches(t, list)]
            procedure::ran_expr(p, depth, condition, a, m, found) && procedure::way_branches(t, list) && list.len() == 2 && (forall|i: int, flow: ProcedureFlow|
                0 <= i < 2 && found.len() > 0 && side_ends(t, list[i], ProcedureFlow::Continue) && flow != ProcedureFlow::Continue && #[trigger] side_ends(
                    t,
                    list[1 - i],
                    flow,
                ) ==> exists|token: usize| #[trigger] r.controls@.contains(token) && depends_on_all(b.store.versions@, token, found)),
{
    if let Statement::If { condition, yes, no } = statement {
        let (m, found) = choose|m: Machine, found: Seq<usize>| #[trigger]
            procedure::way(m, found, found) && procedure::ran_expr(p, depth, condition, a, m, found) && match flows::truth_of(condition) {
                Some(true) => procedure::ran_block(p, depth, yes@, controls + found, m, b, r),
                Some(false) => procedure::ran_block(p, depth, no@, controls + found, m, b, r),
                None => exists|n: Machine, o: Machine, list: Seq<Branch>, t: Machine, identity: usize, versions: Seq<usize>|
                    #![trigger procedure::way_branches(n, list), procedure::way_branches(o, list), procedure::way_identity(t, identity, versions)]
                    procedure::way_branches(n, list) && procedure::way_branches(o, list) && procedure::way_identity(t, identity, versions) && list.len() == 2
                        && procedure::ran_branch(
                        p,
                        depth,
                        yes@,
                        controls + found,
                        procedure::next_branch_of(m, 2),
                        0,
                        m.condition,
                        machine::taken_number(m),
                        n,
                        list[0],
                    ) && procedure::ran_branch(p, depth, no@, controls + found, procedure::next_branch_of(m, 2), 1, m.condition, n, o, list[1]) && machine::identified(
                        o,
                        t,
                        predicates::written(condition),
                        identity,
                    ) && values::sorted_from(versions, found) && machine::came_together(
                        t,
                        b,
                        procedure::predicate_of(identity, versions),
                        list,
                        m.condition,
                        r,
                    ),
            };
        let (n, o, list, t, identity, versions) = choose|n: Machine, o: Machine, list: Seq<Branch>, t: Machine, identity: usize, versions: Seq<usize>|
            #![trigger procedure::way_branches(n, list), procedure::way_branches(o, list), procedure::way_identity(t, identity, versions)]
            procedure::way_branches(n, list) && procedure::way_branches(o, list) && procedure::way_identity(t, identity, versions) && list.len() == 2
                && procedure::ran_branch(
                p,
                depth,
                yes@,
                controls + found,
                procedure::next_branch_of(m, 2),
                0,
                m.condition,
                machine::taken_number(m),
                n,
                list[0],
            ) && procedure::ran_branch(p, depth, no@, controls + found, procedure::next_branch_of(m, 2), 1, m.condition, n, o, list[1]) && machine::identified(
                o,
                t,
                predicates::written(condition),
                identity,
            ) && values::sorted_from(versions, found) && machine::came_together(t, b, procedure::predicate_of(identity, versions), list, m.condition, r);
        assert(procedure::ran_expr(p, depth, condition, a, m, found));
        assert(procedure::way_branches(t, list));
        assert forall|i: int, flow: ProcedureFlow|
            0 <= i < 2 && found.len() > 0 && side_ends(t, list[i], ProcedureFlow::Continue) && flow != ProcedureFlow::Continue && #[trigger] side_ends(
                t,
                list[1 - i],
                flow,
            ) implies exists|token: usize| #[trigger] r.controls@.contains(token) && depends_on_all(b.store.versions@, token, found) by {
            lemma_token(t, b, procedure::predicate_of(identity, versions), list, m.condition, r, i, flow, found);
        }
    }
}

proof fn lemma_token(
    t: Machine,
    b: Machine,
    predicate: crate::flow::PredicateView,
    list: Seq<Branch>,
    parent: PathCondition,
    r: Evaluated,
    i: int,
    flow: ProcedureFlow,
    found: Seq<usize>,
)
    requires
        machine::came_together(t, b, predicate, list, parent, r),
        list.len() == 2,
        0 <= i < 2,
        side_ends(t, list[i], ProcedureFlow::Continue),
        flow != ProcedureFlow::Continue,
        side_ends(t, list[1 - i], flow),
        found.len() > 0,
        values::sorted_from(predicate.controls, found),
    ensures
        exists|token: usize| #[trigger] r.controls@.contains(token) && depends_on_all(b.store.versions@, token, found),
{
    let one = crate::flow::shape(t.flows.plan(list[0].tree));
    let two = crate::flow::shape(t.flows.plan(list[1].tree));
    assert(one != two);
    assert(branches::decision_matters(t.flows, list));
    let side = list[i];
    let all = branches::controls_of(side, predicate, true);
    lemma_holds_joined(side.controls@, predicate.controls);
    assert(found.contains(found[0]));
    assert(predicate.controls.contains(found[0]));
    assert(all.contains(found[0]));
    assert(branches::continues(t.flows, side));
    let pred = |branch: Branch| branches::continues(t.flows, branch) && branches::controls_of(branch, predicate, true).len() > 0;
    assert(pred(list[i]));
    list.lemma_filter_contains(pred, i);
    let deciding = branches::deciding(t.flows, list, predicate, true);
    assert(deciding =~= list.filter(pred));
    assert(deciding.contains(list[i]));
    let k = choose|k: int| 0 <= k < deciding.len() && deciding[k] == list[i];
    let token = r.controls@[k];
    assert(branches::is_token(b.store.versions@, b.arena@, deciding[k], predicate, true, parent, token));
    let condition = choose|condition: PathCondition| #[trigger]
        branches::is_local(b.arena@, side.condition, parent, condition) && writes::is_definition(
            b.store.versions@,
            token as int,
            writes::whole_sources(all),
            condition,
        );
    assert(holds_all(all, found)) by {
        assert forall|c: usize| #[trigger] found.contains(c) implies all.contains(c) by {
            assert(predicate.controls.contains(c));
        }
    }
    lemma_defined_by(b.store.versions@, token, all, condition, found);
    assert(r.controls@.contains(token));
}

/// What the statements of a function write, once they are run for a call, depends on everything that
/// decides on the call.
pub proof fn what_a_function_writes_depends_on_the_controls_of_its_call<'a>(
    p: Program<'a>,
    depth: nat,
    call: crate::ir::Call,
    controls: Seq<usize>,
    a: Machine,
    b: Machine,
    r: Evaluated,
)
    requires
        procedure::ran_statement(p, depth, Statement::Call(call), controls, a, b, r),
        procedure::enters(p, depth, call, a),
        call.callee < p.bodies@.len(),
        all_run_here(p.bodies@[call.callee as int]@),
        b.fits,
    ensures
        exists|opened: Machine, ended: Machine, e: Evaluated, under: Seq<usize>|
            #![trigger procedure::ran_block(p, (depth - 1) as nat, p.bodies@[call.callee as int]@, under, opened, ended, e)]
            procedure::ran_block(p, (depth - 1) as nat, p.bodies@[call.callee as int]@, under, opened, ended, e) && (ended.complete ==> kept_or_controlled(
                ended.store.versions@,
                opened.store.current@,
                ended.store.current@,
                controls,
            )),
{
    let (m, groups) = choose|m: Machine, groups: Seq<crate::layout::RegionGroup>| #[trigger]
        procedure::way_call(m, groups) && procedure::ran_call(p, depth, call, controls, a, m, groups) && machine::simple(m, b, ProcedureFlow::Continue, r) && b.store
            == m.store && b.loops == m.loops;
    assert(procedure::ran_in_place(p, depth, call, controls, a, m, groups));
    let function = p.functions@[call.callee as int];
    let (mm, inputs, n) = choose|mm: Machine, inputs: Seq<ssa::KeyBinding>, n: Machine|
        #![trigger procedure::way_inputs(mm, inputs), procedure::way(n, controls, controls)]
        procedure::way_inputs(mm, inputs) && procedure::way(n, controls, controls) && procedure::ran_inputs(
            p,
            depth,
            function,
            call.inputs@,
            call.inputs@.len() as int,
            a,
            mm,
            inputs,
        ) && crate::calling::function_entered(p, function, inputs, mm, n) && if n.store.next_revision_id == usize::MAX {
            steps::same(Machine { fits: false, ..n }, m) && groups.len() == 0
        } else {
            exists|opened: Machine, revision: ssa::StateRevision, ended: Machine, e: Evaluated, closed: Machine, g: Machine| #[trigger]
                procedure::way_body(opened, revision, ended, e, closed, g) && crate::calling::body_opened(n, opened, call.callee, function.result, revision)
                    && procedure::ran_block(p, (depth - 1) as nat, p.bodies@[call.callee as int]@, controls, opened, ended, e) && crate::calling::body_closed(
                    n,
                    ended,
                    closed,
                    revision,
                    e,
                ) && crate::calling::result_read(p, function.result, closed, g, groups) && procedure::ran_outputs(
                    p,
                    depth,
                    function,
                    call.outputs@,
                    call.outputs@.len() as int,
                    controls,
                    g,
                    m,
                )
        };
    assert(n.store.next_revision_id != usize::MAX);
    let (opened, revision, ended, e, closed, g) = choose|opened: Machine, revision: ssa::StateRevision, ended: Machine, e: Evaluated, closed: Machine, g: Machine| #[trigger]
        procedure::way_body(opened, revision, ended, e, closed, g) && crate::calling::body_opened(n, opened, call.callee, function.result, revision)
            && procedure::ran_block(p, (depth - 1) as nat, p.bodies@[call.callee as int]@, controls, opened, ended, e) && crate::calling::body_closed(
            n,
            ended,
            closed,
            revision,
            e,
        ) && crate::calling::result_read(p, function.result, closed, g, groups) && procedure::ran_outputs(
            p,
            depth,
            function,
            call.outputs@,
            call.outputs@.len() as int,
            controls,
            g,
            m,
        );
    if ended.complete {
        what_a_block_writes_depends_on_its_controls(p, (depth - 1) as nat, p.bodies@[call.callee as int]@, controls, opened, ended, e);
    }
}

/// What the body of a loop writes whose iterations are not known depends on everything that decides on
/// the loop, and on everything that its bounds read.
pub proof fn what_the_body_of_a_loop_writes_depends_on_its_controls<'a>(
    p: Program<'a>,
    depth: nat,
    statement: Statement,
    controls: Seq<usize>,
    a: Machine,
    b: Machine,
    r: Evaluated,
)
    requires
        procedure::ran_statement(p, depth, statement, controls, a, b, r),
        statement matches Statement::For { bounds, body, range, iterations } && procedure::loop_plan_of(range, iterations) == LoopPlan::Summarize && iterations is Runtime
            && all_run_here(body@),
        b.fits,
    ensures
        statement matches Statement::For { bounds, body, range, iterations } && exists|
            m: Machine,
            found: Seq<usize>,
            opened: Machine,
            n: Machine,
            e: Evaluated,
            under: Seq<usize>,
        |
            #![trigger procedure::ran_exprs(p, depth, bounds@, bounds@.len() as int, a, m, found), procedure::ran_block(p, depth, body@, under, opened, n, e)]
            procedure::ran_exprs(p, depth, bounds@, bounds@.len() as int, a, m, found) && procedure::ran_block(p, depth, body@, under, opened, n, e) && (n.complete
                ==> kept_or_controlled(n.store.versions@, opened.store.current@, n.store.current@, controls + found)),
{
    if let Statement::For { bounds, body, range, iterations } = statement {
        let (m, found, range_controls) = choose|m: Machine, found: Seq<usize>, range_controls: Seq<usize>|
            #![trigger procedure::way(m, found, range_controls)]
            procedure::way(m, found, range_controls) && procedure::ran_exprs(p, depth, bounds@, bounds@.len() as int, a, m, found) && values::sorted_from(
                range_controls,
                controls + found,
            ) && procedure::ran_for(p, depth, statement, range_controls, found, m, b, r);
        if let Iterations::Runtime(number) = iterations {
            let (opened, open, n, e, t, skip) = choose|
                opened: Machine,
                open: crate::looping::RuntimeLoop,
                n: Machine,
                e: Evaluated,
                t: Machine,
                skip: Option<crate::runtime::MaySkip>,
            | #[trigger]
                procedure::way_runtime(opened, open, n, e, t, skip) && crate::looping::runtime_opened(m, opened, procedure::may_skip(range), open) && procedure::ran_block(
                    p,
                    depth,
                    body@,
                    range_controls,
                    opened,
                    n,
                    e,
                ) && procedure::is_skip(range, number, found, open, n, t, skip) && crate::looping::runtime_closed(t, b, e, m.condition, skip, r);
            assert(procedure::ran_exprs(p, depth, bounds@, bounds@.len() as int, a, m, found));
            assert(procedure::ran_block(p, depth, body@, range_controls, opened, n, e));
            if n.complete {
                what_a_block_writes_depends_on_its_controls(p, depth, body@, range_controls, opened, n, e);
                lemma_kept_grows(
                    n.store.versions@,
                    n.store.versions@,
                    opened.store.current@,
                    n.store.current@,
                    range_controls,
                    controls + found,
                );
            }
        }
    }
}

proof fn lemma_realized(images: Seq<Seq<usize>>, refs: Seq<flows::FlowRef>, q: int, v: usize) -> (k: int)
    requires
        0 <= q < refs.len(),
        refs[q].origin == flows::Origin::Version(v),
    ensures
        0 <= k < crate::realize::realized(images, refs).len(),
        crate::realize::realized(images, refs)[k].version == v,
        crate::realize::realized(images, refs)[k].relation == refs[q].relation,
    decreases refs.len(),
{
    let before = crate::realize::realized(images, refs.drop_last());
    if q == refs.len() - 1 {
        before.len() as int
    } else {
        assert(refs.drop_last()[q] == refs[q]);
        lemma_realized(images, refs.drop_last(), q, v)
    }
}

/// What is assigned depends on what was read for it: the version that a node has after an assignment
/// depends on every version that was found for its bits.
pub proof fn an_assigned_node_depends_on_what_was_found_for_it(
    access: Access,
    planned: Planned,
    images: Seq<Seq<usize>>,
    controls: Seq<usize>,
    a: Machine,
    b: Machine,
    i: int,
    q: int,
    v: usize,
)
    requires
        assigning::destination_assigned(access, planned, Some(images), controls, a, b),
        b.fits,
        planned.keys@.len() == planned.snapshots@.len(),
        0 <= i < planned.keys@.len(),
        !planned.snapshots@[i].opaque,
        0 <= q < planned.snapshots@[i].sources@.len(),
        planned.snapshots@[i].sources@[q].origin == flows::Origin::Version(v),
    ensures
        ssa::binding_of(b.store.current@, planned.keys@[i]) matches Some(w) && depends_on(b.store.versions@, w, v),
{
    let (m, control) = choose|m: SsaStore, control: Option<usize>| #[trigger]
        assigning::control_aggregated(a.store, m, controls, control) && if assign::snapshots_exist(planned.snapshots@, m.versions@.len() as int) {
            assigning::values_assigned(access, planned, images, m, control, a, b)
        } else {
            machine::store_only(Machine { fits: false, ..a }, b) && b.store == m
        };
    let made = choose|l: Seq<KeyWrite>| #[trigger]
        assigning::values_are(access, planned, images, control, l) && assign::all_wrote(m, b.store, l, a.condition);
    let versions = b.store.versions@;
    let write = made[i];
    assert(assign::is_assignment(images, planned.snapshots@[i], planned.keys@[i], control, steps::is_dynamic(access), made[i]));
    assert(writes::wrote(m, b.store, made[i], a.condition));
    let version = choose|version: usize|
        m.versions@.len() <= version && #[trigger] writes::is_value(versions, version, write, a.condition) && writes::is_bound(
            m,
            b.store,
            write.key,
            version,
            write.dynamic || write.opaque,
        );
    let k = lemma_realized(images, planned.snapshots@[i].sources@, q, v);
    assert(write.sources@[k].version == v);
    lemma_defined(versions, version, write.sources@, a.condition, k);
    lemma_depends_self(versions, v);
    lemma_depends_step(versions, version, v, v);
    assert(depends_on_all(versions, version, seq![v])) by {
        assert forall|c: usize| #[trigger] seq![v].contains(c) implies depends_on(versions, version, c) by {}
    }
    lemma_bound(m, b.store, write.key, version, write.dynamic || write.opaque, seq![v]);
    assert(seq![v][0] == v);
    assert(seq![v].contains(v));
}

/// A destination that is written as a whole depends on everything that the value is made from.
pub proof fn a_destination_depends_on_what_is_written_to_it<'a>(p: Program<'a>, access: Access, dependencies: Seq<usize>, a: Machine, b: Machine)
    requires
        steps::destination_written(p, access, dependencies, a, b),
        b.complete,
    ensures
        kept_or_controlled(b.store.versions@, a.store.current@, b.store.current@, dependencies),
{
    assert(a.store.versions@.len() == a.store.versions.len());
    lemma_destination_written(p, access, dependencies, a, b, dependencies);
}

/// The version that a node has now is among those.
pub open spec fn read_of<'a>(p: Program<'a>, store: SsaStore, key: NodeKey, reads: Seq<usize>) -> bool {
    exists|number: u64, version: usize| #[trigger]
        crate::results::is_current(store, number, version) && number < p.nodes@.len() && p.nodes@[number as int] == key && reads.contains(version)
}

/// A variable that is read as a whole gives the version of every one of its nodes.
pub proof fn a_whole_read_gives_every_node<'a>(p: Program<'a>, depth: nat, e: Expression, a: Machine, b: Machine, reads: Seq<usize>, key: NodeKey)
    requires
        procedure::ran_expr(p, depth, e, a, b, reads),
        e.node matches Node::Variable(access) && crate::targets::is_whole(access) && crate::targets::node_of(*p.partition, access.id, key),
        !values::was_read(a, e.occurrence),
    ensures
        read_of(p, b.store, key, reads),
{
    if let Node::Variable(access) = e.node {
        let (m, first, n, second) = choose|m: Machine, first: Seq<usize>, n: Machine, second: Seq<usize>| #[trigger]
            procedure::way_both(m, first, n, second) && procedure::ran_exprs(p, depth, access.index@, access.index@.len() as int, a, m, first) && procedure::ran_exprs(
                p,
                depth,
                access.select@,
                access.select@.len() as int,
                m,
                n,
                second,
            ) && procedure::variable_read_by(p, access, e.occurrence, first + second, n, b, reads);
        let selectors = choose|selectors: Seq<usize>| #[trigger]
            values::sorted_from(selectors, first + second) && values::variable_read(p, access, e.occurrence, selectors, n, b, reads);
        let (selection, list, keys, found) = choose|
            selection: crate::projection::DestinationArraySelection,
            list: Seq<NodeKey>,
            keys: Seq<u64>,
            found: Seq<crate::layout::KeyVersion>,
        | #[trigger]
            values::way_read(selection, list, keys, found) && crate::projection::is_selection(access.shape, access.coordinates@, selection) && crate::targets::are_read(
                *p.partition,
                access,
                selection,
                list,
            ) && values::numbered(p.nodes@, list, keys) && values::reading(n, b) && writes::continues(n.store, b.store) && b.store.current@ == n.store.current@
                && values::versions_found(b.store, list, keys, found) && values::sorted_from(reads, selectors + values::versions_of(found)) && values::read_kept(
                n.cache,
                b.cache,
                e.occurrence,
                selectors,
                found,
            );
        assert(list.contains(key));
        let i = choose|i: int| 0 <= i < list.len() && list[i] == key;
        let version = found[i].version;
        assert(found[i].key == list[i]);
        let all = selectors + values::versions_of(found);
        assert(all[selectors.len() + i] == version);
        assert(all.contains(version));
        assert(reads.contains(version));
        assert(keys[i] < p.nodes@.len() && p.nodes@[keys[i] as int] == key);
        assert(crate::results::is_current(b.store, keys[i], version));
    }
}

/// An operator whose operands are both evaluated reads everything that they read.
pub proof fn an_operator_reads_what_its_operands_read<'a>(p: Program<'a>, depth: nat, e: Expression, a: Machine, b: Machine, reads: Seq<usize>)
    requires
        procedure::ran_expr(p, depth, e, a, b, reads),
        e.node matches Node::Binary(left, op, right) && op != crate::ir::BinaryOp::LogicAnd && op != crate::ir::BinaryOp::LogicOr,
    ensures
        e.node matches Node::Binary(left, op, right) && exists|m: Machine, one: Seq<usize>, two: Seq<usize>|
            #![trigger procedure::ran_expr(p, depth, *left, a, m, one), procedure::ran_expr(p, depth, *right, m, b, two)]
            procedure::ran_expr(p, depth, *left, a, m, one) && procedure::ran_expr(p, depth, *right, m, b, two) && holds_all(reads, one) && holds_all(reads, two)
                && holds_all(one + two, reads),
{
    if let Node::Binary(left, op, right) = e.node {
        assert(flows::evaluates_right(*left, op, true) == Some(true));
        let (m, one, n, two) = choose|m: Machine, found: Seq<usize>, n: Machine, other: Seq<usize>| #[trigger]
            procedure::way_both(m, found, n, other) && procedure::ran_expr(p, depth, *left, a, m, found) && match flows::evaluates_right(*left, op, true) {
                Some(false) => steps::same(m, b) && values::sorted_from(reads, found),
                Some(true) => procedure::ran_expr(p, depth, *right, m, b, other) && values::sorted_from(reads, found + other),
                None => exists|branch: BranchId, first: Machine, yes: BranchState, second: Machine, no: BranchState| #[trigger]
                    procedure::way_choice(n, branch, first, yes, other, second, no, Seq::empty()) && steps::choice_numbered(m, n, e.occurrence, branch)
                        && procedure::ran_expr_arm(p, depth, *right, branch, 0, m.condition, n, first, yes, other) && procedure::skipped_arm(
                        branch,
                        1,
                        m.condition,
                        first,
                        second,
                        no,
                    ) && steps::arms_joined(second, b, seq![yes, no], m.condition) && values::sorted_from(reads, found + other),
            };
        lemma_holds_joined(one, two);
        assert(procedure::ran_expr(p, depth, *left, a, m, one));
        assert(procedure::ran_expr(p, depth, *right, m, b, two));
        assert forall|c: usize| #[trigger] one.contains(c) implies reads.contains(c) by {
            assert((one + two).contains(c));
        }
        assert forall|c: usize| #[trigger] two.contains(c) implies reads.contains(c) by {
            assert((one + two).contains(c));
        }
    }
}

/// What an arm of an expression comes to depends on everything that was read in it.
proof fn lemma_arm_value<'a>(
    p: Program<'a>,
    depth: nat,
    e: Expression,
    branch: BranchId,
    arm: usize,
    parent: PathCondition,
    a: Machine,
    b: Machine,
    st: BranchState,
    versions: Seq<usize>,
)
    requires
        procedure::ran_expr_arm(p, depth, e, branch, arm, parent, a, b, st, versions),
    ensures
        arm_read(p, depth, e, b.store.versions@, versions),
{
    let (opened, n, reads) = choose|opened: Machine, n: Machine, reads: Seq<usize>| #[trigger]
        procedure::way_arm(opened, n, reads) && machine::opens(a, opened, branch, arm, parent) && procedure::ran_expr(p, depth, e, opened, n, reads)
            && steps::arm_left_to(a, n, b, Some(reads), st, versions);
    let defined = choose|defined: SsaStore| #[trigger] steps::arm_left(a, n, defined, b, Some(reads), st, versions);
    let version = versions[0];
    assert(n.store.versions@.len() == n.store.versions.len());
    assert(holds_all(reads, reads));
    lemma_defined_by(defined.versions@, version, reads, n.condition, reads);
    assert(versions.contains(version));
    assert(procedure::ran_expr(p, depth, e, opened, n, reads));
}

/// The expression was evaluated, and one of the versions depends on everything that it read.
pub open spec fn arm_read<'a>(p: Program<'a>, depth: nat, e: Expression, versions: Seq<Version>, values: Seq<usize>) -> bool {
    exists|opened: Machine, n: Machine, reads: Seq<usize>, version: usize|
        #![trigger procedure::ran_expr(p, depth, e, opened, n, reads), values.contains(version)]
        procedure::ran_expr(p, depth, e, opened, n, reads) && values.contains(version) && depends_on_all(versions, version, reads)
}

proof fn lemma_arm_grows<'a>(p: Program<'a>, depth: nat, e: Expression, a: Seq<Version>, b: Seq<Version>, some: Seq<usize>, all: Seq<usize>)
    requires
        arm_read(p, depth, e, a, some),
        ssa::versions_grow(a, b),
        holds_all(all, some),
    ensures
        arm_read(p, depth, e, b, all),
{
    let (opened, n, reads, version) = choose|opened: Machine, n: Machine, reads: Seq<usize>, version: usize|
        #![trigger procedure::ran_expr(p, depth, e, opened, n, reads), some.contains(version)]
        procedure::ran_expr(p, depth, e, opened, n, reads) && some.contains(version) && depends_on_all(a, version, reads);
    lemma_all_grows(a, b, version, reads);
    assert(all.contains(version));
    assert(procedure::ran_expr(p, depth, e, opened, n, reads));
}

/// A choice that is not decided reads what its condition reads, and its value depends on everything that
/// either side reads.
pub proof fn a_choice_reads_its_condition_and_both_sides<'a>(p: Program<'a>, depth: nat, e: Expression, a: Machine, b: Machine, reads: Seq<usize>)
    requires
        procedure::ran_expr(p, depth, e, a, b, reads),
        calls_nothing(e),
        e.node matches Node::Ternary(condition, left, right) && flows::truth_of(*condition) is None,
    ensures
        e.node matches Node::Ternary(condition, left, right) && (exists|m: Machine, found: Seq<usize>| #[trigger]
            procedure::ran_expr(p, depth, *condition, a, m, found) && holds_all(reads, found)) && arm_read(p, depth, *left, b.store.versions@, reads) && arm_read(
            p,
            depth,
            *right,
            b.store.versions@,
            reads,
        ),
{
    if let Node::Ternary(condition, left, right) = e.node {
        let (m, found, n, other) = choose|m: Machine, found: Seq<usize>, n: Machine, other: Seq<usize>| #[trigger]
            procedure::way_both(m, found, n, other) && procedure::ran_expr(p, depth, *condition, a, m, found) && match flows::truth_of(*condition) {
                Some(true) => procedure::ran_expr(p, depth, *left, m, b, other) && values::sorted_from(reads, found + other),
                Some(false) => procedure::ran_expr(p, depth, *right, m, b, other) && values::sorted_from(reads, found + other),
                None => exists|branch: BranchId, first: Machine, yes: BranchState, second: Machine, no: BranchState, more: Seq<usize>| #[trigger]
                    procedure::way_choice(n, branch, first, yes, other, second, no, more) && steps::choice_numbered(m, n, e.occurrence, branch)
                        && procedure::ran_expr_arm(p, depth, *left, branch, 0, m.condition, n, first, yes, other) && procedure::ran_expr_arm(
                        p,
                        depth,
                        *right,
                        branch,
                        1,
                        m.condition,
                        first,
                        second,
                        no,
                        more,
                    ) && steps::arms_joined(second, b, seq![yes, no], m.condition) && values::sorted_from(reads, found + other + more),
            };
        let (branch, first, yes, second, no, more) = choose|
            branch: BranchId,
            first: Machine,
            yes: BranchState,
            second: Machine,
            no: BranchState,
            more: Seq<usize>,
        | #[trigger]
            procedure::way_choice(n, branch, first, yes, other, second, no, more) && steps::choice_numbered(m, n, e.occurrence, branch) && procedure::ran_expr_arm(
                p,
                depth,
                *left,
                branch,
                0,
                m.condition,
                n,
                first,
                yes,
                other,
            ) && procedure::ran_expr_arm(p, depth, *right, branch, 1, m.condition, first, second, no, more) && steps::arms_joined(
                second,
                b,
                seq![yes, no],
                m.condition,
            ) && values::sorted_from(reads, found + other + more);
        lemma_arm_value(p, depth, *left, branch, 0, m.condition, n, first, yes, other);
        lemma_arm_value(p, depth, *right, branch, 1, m.condition, first, second, no, more);
        lemma_quiet_arm(p, depth, *right, branch, 1, m.condition, first, second, no, more);
        lemma_holds_joined(found, other);
        lemma_holds_joined(found + other, more);
        assert(holds_all(reads, found + other + more));
        lemma_arm_grows(p, depth, *left, first.store.versions@, b.store.versions@, other, reads);
        lemma_arm_grows(p, depth, *right, second.store.versions@, b.store.versions@, more, reads);
        assert(procedure::ran_expr(p, depth, *condition, a, m, found));
    }
}

/// The statement was evaluated from `m` on, and what it left is what there is in `b`.
pub open spec fn last_ran<'a>(p: Program<'a>, depth: nat, statement: Statement, m: Machine, b: Machine) -> bool {
    exists|n: Machine, e: Evaluated, now: Seq<usize>| #[trigger]
        procedure::ran_statement(p, depth, statement, now, m, n, e) && b.store.current@ == n.store.current@ && ssa::versions_grow(
            n.store.versions@,
            b.store.versions@,
        )
}

/// A block runs its statements in turn, and leaves out none: behind all but the last, either nothing goes
/// on, or the last one runs, and what it leaves is what the block leaves. An empty block does nothing.
pub proof fn a_block_runs_its_statements_in_turn<'a>(
    p: Program<'a>,
    depth: nat,
    list: Seq<Statement>,
    controls: Seq<usize>,
    a: Machine,
    b: Machine,
    r: Evaluated,
)
    requires
        procedure::ran_block(p, depth, list, controls, a, b, r),
    ensures
        list.len() == 0 ==> b.store == a.store,
        list.len() > 0 ==> exists|m: Machine, before: Seq<FlowTree>, previous: Option<usize>| #[trigger]
            reached(p, depth, list, list.len() as int, controls, a, m, before, previous) && if machine::stopped(m.flows, before) {
                b.store == m.store
            } else {
                last_ran(p, depth, list.last(), m, b)
            },
{
    let (o, trees, control) = choose|m: Machine, trees: Seq<FlowTree>, control: Option<usize>| #[trigger]
        procedure::way_steps(m, trees, control) && procedure::ran_statements(p, depth, list, list.len() as int, controls, a, m, trees, control)
            && machine::finished(m, b, trees, control, r);
    if list.len() > 0 {
        let count = list.len() as int;
        let (m, before, previous) = choose|m: Machine, before: Seq<FlowTree>, previous: Option<usize>| #[trigger]
            procedure::way_steps(m, before, previous) && procedure::ran_statements(p, depth, list, count - 1, controls, a, m, before, previous)
                && if machine::stopped(m.flows, before) {
                o == m && trees == before && control == previous
            } else {
                exists|n: Machine, r: Evaluated| #[trigger]
                    procedure::way_step(n, r) && procedure::ran_statement(p, depth, list[count - 1], machine::active(controls, previous), m, n, r) && trees
                        == before.push(r.tree) && machine::control_made(n, o, r.controls@, previous, control)
            };
        assert(reached(p, depth, list, count, controls, a, m, before, previous));
        let now = machine::active(controls, previous);
        if !machine::stopped(m.flows, before) {
            let (n, e) = choose|n: Machine, r: Evaluated| #[trigger]
                procedure::way_step(n, r) && procedure::ran_statement(p, depth, list[count - 1], now, m, n, r) && trees == before.push(r.tree)
                    && machine::control_made(n, o, r.controls@, previous, control);
            assert(procedure::ran_statement(p, depth, list.last(), now, m, n, e));
        }
    }
}

/// The side goes on with what follows.
pub open spec fn goes_on(t: Machine, side: Branch) -> bool {
    crate::flow::can_end(t.flows.plan(side.tree), ProcedureFlow::Continue)
}

/// What the sides of a decision that go on leave is kept: the version that a key has behind the decision
/// depends on each that such a side leaves it with, and on the one that it had where such a side leaves
/// it alone.
pub open spec fn sides_kept(t: Machine, b: Machine, list: Seq<Branch>) -> bool {
    &&& forall|i: int, key: u64, v: usize|
        0 <= i < list.len() && goes_on(t, list[i]) && #[trigger] ssa::bound(list[i].state.bindings@, key, v) ==> (ssa::binding_of(b.store.current@, key) matches Some(w)
            && depends_on(b.store.versions@, w, v))
    &&& forall|i: int, j: int, key: u64, u: usize|
        0 <= i < list.len() && 0 <= j < list.len() && goes_on(t, list[i]) && goes_on(t, list[j]) && !#[trigger] ssa::binds(list[i].state.bindings@, key)
            && #[trigger] ssa::binds(list[j].state.bindings@, key) && #[trigger] had(t.store.current@, key, u) ==> (ssa::binding_of(b.store.current@, key) matches Some(w)
            && depends_on(b.store.versions@, w, u))
}

proof fn lemma_sides_kept(t: Machine, b: Machine, predicate: crate::flow::PredicateView, list: Seq<Branch>, parent: PathCondition, r: Evaluated)
    requires
        machine::came_together(t, b, predicate, list, parent, r),
    ensures
        sides_kept(t, b, list),
{
    let going = branches::continuing(t.flows, list);
    let states = choose|states: Seq<BranchState>| #[trigger]
        branches::copies_states(going, states) && branches::merges(t.store, b.store, states);
    let pred = |branch: Branch| branches::continues(t.flows, branch);
    assert forall|i: int| 0 <= i < list.len() && goes_on(t, #[trigger] list[i]) implies exists|k: int|
        0 <= k < states.len() && (#[trigger] states[k]).bindings@ == list[i].state.bindings@ by {
        assert(pred(list[i]));
        list.lemma_filter_contains(pred, i);
        assert(going =~= list.filter(pred));
        assert(going.contains(list[i]));
        let k = choose|k: int| 0 <= k < going.len() && going[k] == list[i];
        assert(states[k].bindings@ == going[k].state.bindings@);
    }
    assert forall|i: int, key: u64, v: usize|
        0 <= i < list.len() && goes_on(t, list[i]) && #[trigger] ssa::bound(list[i].state.bindings@, key, v) implies (ssa::binding_of(b.store.current@, key) matches Some(w)
        && depends_on(b.store.versions@, w, v)) by {
        let k = choose|k: int| 0 <= k < states.len() && (#[trigger] states[k]).bindings@ == list[i].state.bindings@;
        nothing_is_lost_where_ways_meet(t.store, b.store, states, key);
        assert(ssa::bound(states[k].bindings@, key, v));
    }
    assert forall|i: int, j: int, key: u64, u: usize|
        0 <= i < list.len() && 0 <= j < list.len() && goes_on(t, list[i]) && goes_on(t, list[j]) && !#[trigger] ssa::binds(list[i].state.bindings@, key)
            && #[trigger] ssa::binds(list[j].state.bindings@, key) && #[trigger] had(t.store.current@, key, u) implies (ssa::binding_of(b.store.current@, key) matches Some(w)
        && depends_on(b.store.versions@, w, u)) by {
        let k = choose|k: int| 0 <= k < states.len() && (#[trigger] states[k]).bindings@ == list[i].state.bindings@;
        let l = choose|l: int| 0 <= l < states.len() && (#[trigger] states[l]).bindings@ == list[j].state.bindings@;
        nothing_is_lost_where_ways_meet(t.store, b.store, states, key);
        assert(!ssa::binds(states[k].bindings@, key));
        assert(ssa::binds(states[l].bindings@, key));
    }
}

/// The side was evaluated under some controls.
pub open spec fn side_ran<'a>(p: Program<'a>, depth: nat, body: Seq<Statement>, side: Branch) -> bool {
    exists|opened: Machine, closed: Machine, r: Evaluated, under: Seq<usize>|
        #![trigger procedure::ran_block(p, depth, body, under, opened, closed, r)]
        procedure::ran_block(p, depth, body, under, opened, closed, r) && state::lists_changes(
            side.state.bindings@,
            closed.store.current@,
            opened.store.current@,
        ) && side.tree == r.tree
}

proof fn lemma_side_ran<'a>(
    p: Program<'a>,
    depth: nat,
    body: Seq<Statement>,
    nested: Seq<usize>,
    branch: BranchId,
    arm: usize,
    parent: PathCondition,
    a: Machine,
    b: Machine,
    made: Branch,
)
    requires
        procedure::ran_branch(p, depth, body, nested, branch, arm, parent, a, b, made),
    ensures
        side_ran(p, depth, body, made),
        b.store.current@ == a.store.current@,
{
    let (opened, closed, r) = choose|opened: Machine, closed: Machine, r: Evaluated| #[trigger]
        procedure::way_branch(opened, closed, r) && machine::opens(a, opened, branch, arm, parent) && procedure::ran_block(p, depth, body, nested, opened, closed, r)
            && machine::closes(a, closed, b, made, r);
    assert(procedure::ran_block(p, depth, body, nested, opened, closed, r));
}

/// An `if` whose condition is not decided runs both of its sides, each from what there was before, and
/// keeps what they leave.
pub proof fn an_if_keeps_what_both_sides_leave<'a>(
    p: Program<'a>,
    depth: nat,
    statement: Statement,
    controls: Seq<usize>,
    a: Machine,
    b: Machine,
    r: Evaluated,
)
    requires
        procedure::ran_statement(p, depth, statement, controls, a, b, r),
        runs_here(statement),
        statement matches Statement::If { condition, yes, no } && flows::truth_of(condition) is None,
    ensures
        statement matches Statement::If { condition, yes, no } && exists|t: Machine, list: Seq<Branch>| #[trigger]
            sides_kept(t, b, list) && list.len() == 2 && side_ran(p, depth, yes@, list[0]) && side_ran(p, depth, no@, list[1]) && same_bindings(
                a.store.current@,
                t.store.current@,
            ),
{
    if let Statement::If { condition, yes, no } = statement {
        let (m, found) = choose|m: Machine, found: Seq<usize>| #[trigger]
            procedure::way(m, found, found) && procedure::ran_expr(p, depth, condition, a, m, found) && match flows::truth_of(condition) {
                Some(true) => procedure::ran_block(p, depth, yes@, controls + found, m, b, r),
                Some(false) => procedure::ran_block(p, depth, no@, controls + found, m, b, r),
                None => exists|n: Machine, o: Machine, list: Seq<Branch>, t: Machine, identity: usize, versions: Seq<usize>|
                    #![trigger procedure::way_branches(n, list), procedure::way_branches(o, list), procedure::way_identity(t, identity, versions)]
                    procedure::way_branches(n, list) && procedure::way_branches(o, list) && procedure::way_identity(t, identity, versions) && list.len() == 2
                        && procedure::ran_branch(
                        p,
                        depth,
                        yes@,
                        controls + found,
                        procedure::next_branch_of(m, 2),
                        0,
                        m.condition,
                        machine::taken_number(m),
                        n,
                        list[0],
                    ) && procedure::ran_branch(p, depth, no@, controls + found, procedure::next_branch_of(m, 2), 1, m.condition, n, o, list[1]) && machine::identified(
                        o,
                        t,
                        predicates::written(condition),
                        identity,
                    ) && values::sorted_from(versions, found) && machine::came_together(
                        t,
                        b,
                        procedure::predicate_of(identity, versions),
                        list,
                        m.condition,
                        r,
                    ),
            };
        let (n, o, list, t, identity, versions) = choose|n: Machine, o: Machine, list: Seq<Branch>, t: Machine, identity: usize, versions: Seq<usize>|
            #![trigger procedure::way_branches(n, list), procedure::way_branches(o, list), procedure::way_identity(t, identity, versions)]
            procedure::way_branches(n, list) && procedure::way_branches(o, list) && procedure::way_identity(t, identity, versions) && list.len() == 2
                && procedure::ran_branch(
                p,
                depth,
                yes@,
                controls + found,
                procedure::next_branch_of(m, 2),
                0,
                m.condition,
                machine::taken_number(m),
                n,
                list[0],
            ) && procedure::ran_branch(p, depth, no@, controls + found, procedure::next_branch_of(m, 2), 1, m.condition, n, o, list[1]) && machine::identified(
                o,
                t,
                predicates::written(condition),
                identity,
            ) && values::sorted_from(versions, found) && machine::came_together(t, b, procedure::predicate_of(identity, versions), list, m.condition, r);
        lemma_quiet_expr(p, depth, condition, a, m, found);
        lemma_side_ran(p, depth, yes@, controls + found, procedure::next_branch_of(m, 2), 0, m.condition, machine::taken_number(m), n, list[0]);
        lemma_side_ran(p, depth, no@, controls + found, procedure::next_branch_of(m, 2), 1, m.condition, n, o, list[1]);
        lemma_sides_kept(t, b, procedure::predicate_of(identity, versions), list, m.condition, r);
        assert(sides_kept(t, b, list));
    }
}

/// A loop with known iterations keeps what its ways out leave: where something goes on behind it, the
/// version that a key has depends on each that a noted way out leaves it with, and on the one at the end
/// of the last iteration, where that is reached.
pub proof fn a_loop_keeps_what_its_ways_out_leave(m: Machine, n: Machine, b: Machine, trees: Seq<FlowTree>, r: Evaluated, key: u64, v: usize)
    requires
        machine::loop_closed(m, n, b, trees, r),
        crate::flow::can_end(b.flows.plan(r.tree), ProcedureFlow::Continue),
        (exists|i: int| 0 <= i < n.loops@.last().breaks@.len() && ssa::bound((#[trigger] n.loops@.last().breaks@[i]).state.bindings@, key, v)) || (
        crate::flow::can_end(sequence::sequenced(sequence::plans_of(n.flows, trees)), ProcedureFlow::Continue) && ssa::binding_of(n.store.current@, key) == Some(v)
            && ssa::binding_of(n.store.saved(n.loops@.last().checkpoint.depth as int), key) != Some(v)),
    ensures
        ssa::binding_of(b.store.current@, key) matches Some(w) && depends_on(b.store.versions@, w, v),
{
    let plan = sequence::sequenced(sequence::plans_of(n.flows, trees));
    let falls = crate::flow::can_end(plan, ProcedureFlow::Continue);
    let top = n.loops@.last();
    let (rolled, exits) = choose|rolled: SsaStore, exits: Seq<FlowState>| #[trigger]
        sequence::loop_left(n.store, rolled, b.store, top.checkpoint.depth as int, top.breaks@, n.condition, falls, true, exits);
    let states = choose|states: Seq<BranchState>| #[trigger]
        sequence::copies_exits(exits, states) && branches::merges(rolled, b.store, states);
    nothing_is_lost_where_ways_meet(rolled, b.store, states, key);
    if exists|i: int| 0 <= i < top.breaks@.len() && ssa::bound((#[trigger] top.breaks@[i]).state.bindings@, key, v) {
        let i = choose|i: int| 0 <= i < top.breaks@.len() && ssa::bound((#[trigger] top.breaks@[i]).state.bindings@, key, v);
        if falls {
            assert(exits.drop_last()[i] == exits[i]);
        }
        assert(states[i].bindings@ == exits[i].state.bindings@);
        assert(ssa::bound(states[i].bindings@, key, v));
    } else {
        let i = exits.len() - 1;
        assert(ssa::bound(exits.last().state.bindings@, key, v));
        assert(states[i].bindings@ == exits[i].state.bindings@);
        assert(ssa::bound(states[i].bindings@, key, v));
    }
}

/// An `if` whose condition is constant runs the side that it chooses, and nothing of the other.
pub proof fn a_decided_if_runs_its_side<'a>(
    p: Program<'a>,
    depth: nat,
    statement: Statement,
    controls: Seq<usize>,
    a: Machine,
    b: Machine,
    r: Evaluated,
)
    requires
        procedure::ran_statement(p, depth, statement, controls, a, b, r),
        statement matches Statement::If { condition, yes, no } && condition.facts.value is Some,
    ensures
        statement matches Statement::If { condition, yes, no } && exists|m: Machine, found: Seq<usize>, under: Seq<usize>|
            #![trigger procedure::ran_expr(p, depth, condition, a, m, found), holds_all(under, controls)]
            procedure::ran_expr(p, depth, condition, a, m, found) && holds_all(under, controls) && holds_all(under, found) && (condition.facts.value->0 != 0
                ==> procedure::ran_block(p, depth, yes@, under, m, b, r)) && (condition.facts.value->0 == 0 ==> procedure::ran_block(
                p,
                depth,
                no@,
                under,
                m,
                b,
                r,
            )),
{
    if let Statement::If { condition, yes, no } = statement {
        let (m, found) = choose|m: Machine, found: Seq<usize>| #[trigger]
            procedure::way(m, found, found) && procedure::ran_expr(p, depth, condition, a, m, found) && match flows::truth_of(condition) {
                Some(true) => procedure::ran_block(p, depth, yes@, controls + found, m, b, r),
                Some(false) => procedure::ran_block(p, depth, no@, controls + found, m, b, r),
                None => exists|n: Machine, o: Machine, list: Seq<Branch>, t: Machine, identity: usize, versions: Seq<usize>|
                    #![trigger procedure::way_branches(n, list), procedure::way_branches(o, list), procedure::way_identity(t, identity, versions)]
                    procedure::way_branches(n, list) && procedure::way_branches(o, list) && procedure::way_identity(t, identity, versions) && list.len() == 2
                        && procedure::ran_branch(
                        p,
                        depth,
                        yes@,
                        controls + found,
                        procedure::next_branch_of(m, 2),
                        0,
                        m.condition,
                        machine::taken_number(m),
                        n,
                        list[0],
                    ) && procedure::ran_branch(p, depth, no@, controls + found, procedure::next_branch_of(m, 2), 1, m.condition, n, o, list[1]) && machine::identified(
                        o,
                        t,
                        predicates::written(condition),
                        identity,
                    ) && values::sorted_from(versions, found) && machine::came_together(
                        t,
                        b,
                        procedure::predicate_of(identity, versions),
                        list,
                        m.condition,
                        r,
                    ),
            };
        lemma_holds_joined(controls, found);
        assert(holds_all(controls + found, controls));
    }
}

/// The iteration was evaluated from `m` on.
pub open spec fn iteration_ran<'a>(p: Program<'a>, depth: nat, body: Seq<Statement>, m: Machine, b: Machine, controls: Seq<usize>) -> bool {
    exists|under: Seq<usize>, e: Evaluated| #[trigger] procedure::ran_block(p, depth, body, under, m, b, e) && holds_all(under, controls)
}

/// Iterations run in turn, and none is left out: behind all but the last, either nothing goes on, or the
/// last one runs, under all of the controls.
pub proof fn iterations_run_in_turn<'a>(
    p: Program<'a>,
    depth: nat,
    iterations: Seq<Vec<Statement>>,
    count: int,
    controls: Seq<usize>,
    a: Machine,
    b: Machine,
    trees: Seq<FlowTree>,
    now: Seq<usize>,
)
    requires
        procedure::ran_iterations(p, depth, iterations, count, controls, a, b, trees, now),
        0 < count <= iterations.len(),
    ensures
        exists|m: Machine, before: Seq<FlowTree>, previous: Seq<usize>| #[trigger]
            procedure::ran_iterations(p, depth, iterations, count - 1, controls, a, m, before, previous) && if machine::stopped(m.flows, before) {
                b == m
            } else {
                iteration_ran(p, depth, iterations[count - 1]@, m, b, controls)
            },
{
    let (m, before, previous, r) = choose|m: Machine, before: Seq<FlowTree>, previous: Seq<usize>, r: Evaluated| #[trigger]
        procedure::way_iteration(m, before, previous, r) && procedure::ran_iterations(p, depth, iterations, count - 1, controls, a, m, before, previous)
            && if machine::stopped(m.flows, before) {
            b == m && trees == before && now == previous
        } else {
            procedure::ran_block(p, depth, iterations[count - 1]@, previous, m, b, r) && trees == before.push(r.tree) && now == machine::added(previous, r.controls@)
        };
    assert(procedure::ran_iterations(p, depth, iterations, count - 1, controls, a, m, before, previous));
    if !machine::stopped(m.flows, before) {
        lemma_now_holds(p, depth, iterations, count - 1, controls, a, m, before, previous);
        assert(procedure::ran_block(p, depth, iterations[count - 1]@, previous, m, b, r));
    }
}

proof fn lemma_now_holds<'a>(
    p: Program<'a>,
    depth: nat,
    iterations: Seq<Vec<Statement>>,
    count: int,
    controls: Seq<usize>,
    a: Machine,
    b: Machine,
    trees: Seq<FlowTree>,
    now: Seq<usize>,
)
    requires
        procedure::ran_iterations(p, depth, iterations, count, controls, a, b, trees, now),
    ensures
        holds_all(now, controls),
    decreases count,
{
    if 0 < count <= iterations.len() {
        let (m, before, previous, r) = choose|m: Machine, before: Seq<FlowTree>, previous: Seq<usize>, r: Evaluated| #[trigger]
            procedure::way_iteration(m, before, previous, r) && procedure::ran_iterations(p, depth, iterations, count - 1, controls, a, m, before, previous)
                && if machine::stopped(m.flows, before) {
                b == m && trees == before && now == previous
            } else {
                procedure::ran_block(p, depth, iterations[count - 1]@, previous, m, b, r) && trees == before.push(r.tree) && now == machine::added(
                    previous,
                    r.controls@,
                )
            };
        lemma_now_holds(p, depth, iterations, count - 1, controls, a, m, before, previous);
        lemma_holds_added(previous, r.controls@);
    }
}

/// A loop that is unrolled runs all of its known iterations.
pub proof fn a_known_loop_runs_every_iteration<'a>(
    p: Program<'a>,
    depth: nat,
    statement: Statement,
    controls: Seq<usize>,
    a: Machine,
    b: Machine,
    r: Evaluated,
)
    requires
        procedure::ran_statement(p, depth, statement, controls, a, b, r),
        statement matches Statement::For { bounds, body, range, iterations } && iterations is Known && procedure::loop_plan_of(range, iterations) == LoopPlan::Unroll,
    ensures
        statement matches Statement::For { bounds, body, range, iterations } && (iterations matches Iterations::Known(list) && exists|
            opened: Machine,
            n: Machine,
            trees: Seq<FlowTree>,
            now: Seq<usize>,
            under: Seq<usize>,
        | #[trigger]
            procedure::ran_iterations(p, depth, list@, list@.len() as int, under, opened, n, trees, now) && holds_all(under, controls)),
{
    if let Statement::For { bounds, body, range, iterations } = statement {
        let (m, found, range_controls) = choose|m: Machine, found: Seq<usize>, range_controls: Seq<usize>|
            #![trigger procedure::way(m, found, range_controls)]
            procedure::way(m, found, range_controls) && procedure::ran_exprs(p, depth, bounds@, bounds@.len() as int, a, m, found) && values::sorted_from(
                range_controls,
                controls + found,
            ) && procedure::ran_for(p, depth, statement, range_controls, found, m, b, r);
        if let Iterations::Known(list) = iterations {
            let (opened, n, trees, now) = choose|opened: Machine, n: Machine, trees: Seq<FlowTree>, now: Seq<usize>| #[trigger]
                procedure::way_loop(opened, n, trees, now) && machine::loop_opened(m, opened) && procedure::ran_iterations(
                    p,
                    depth,
                    list@,
                    list@.len() as int,
                    range_controls,
                    opened,
                    n,
                    trees,
                    now,
                ) && machine::loop_closed(m, n, b, trees, r);
            assert(procedure::ran_iterations(p, depth, list@, list@.len() as int, range_controls, opened, n, trees, now));
            lemma_holds_joined(controls, found);
            assert forall|c: usize| #[trigger] controls.contains(c) implies range_controls.contains(c) by {
                assert((controls + found).contains(c));
            }
        }
    }
}

} // verus!
