//! The positions that expressions stand for, and the ranges of loops.
use vstd::prelude::*;
use crate::affine;
use crate::affine::{AffineIndex, Term};
use crate::order;
use crate::order::sort_dedup;

verus! {

/// An expression that indexes an array or bounds a loop.
pub enum IndexExpression {
    /// A variable, neither indexed nor selected from.
    Variable(u64),
    /// A constant, with its value where that is a position.
    Constant(Option<usize>),
    Plus(Box<IndexExpression>),
    Minus(Box<IndexExpression>),
    Sum(Box<IndexExpression>, Box<IndexExpression>),
    Difference(Box<IndexExpression>, Box<IndexExpression>),
    Product(Box<IndexExpression>, Box<IndexExpression>),
    /// A cast, which keeps the position.
    Cast(Box<IndexExpression>),
    /// Anything else.
    Other,
}

/// The value of an expression where `value` gives the values of the variables; of anything else and
/// of a constant without a value nothing is known.
pub open spec fn index_value(expression: IndexExpression, value: spec_fn(u64) -> int) -> int
    decreases expression,
{
    match expression {
        IndexExpression::Variable(id) => value(id),
        IndexExpression::Constant(Some(constant)) => constant as int,
        IndexExpression::Constant(None) => arbitrary(),
        IndexExpression::Plus(inner) => index_value(*inner, value),
        IndexExpression::Minus(inner) => -index_value(*inner, value),
        IndexExpression::Sum(left, right) => index_value(*left, value) + index_value(*right, value),
        IndexExpression::Difference(left, right) => index_value(*left, value) - index_value(*right, value),
        IndexExpression::Product(left, right) => index_value(*left, value) * index_value(*right, value),
        IndexExpression::Cast(inner) => index_value(*inner, value),
        IndexExpression::Other => arbitrary(),
    }
}

/// A sum of multiples of the variables that it lists, and a constant.
pub struct Linear {
    pub terms: Map<u64, int>,
    pub constant: int,
}

/// The number fits the type of coefficients.
pub open spec fn fits(x: int) -> bool {
    isize::MIN <= x <= isize::MAX
}

/// What a sum has of a variable.
pub open spec fn multiple_of(form: Linear, id: u64) -> int {
    if form.terms.dom().contains(id) {
        form.terms[id]
    } else {
        0
    }
}

/// `scale` times the sum, where all that it holds fits. A variable stays listed, also 0 times.
pub open spec fn scaled_form(form: Linear, scale: int) -> Option<Linear> {
    if fits(form.constant * scale) && forall|id: u64| #[trigger] form.terms.dom().contains(id) ==> fits(form.terms[id] * scale) {
        Some(Linear { terms: form.terms.map_values(|multiple: int| multiple * scale), constant: form.constant * scale })
    } else {
        None
    }
}

/// The variable is in the sum of the first and `scale` times the second.
pub open spec fn remains(first: Linear, second: Linear, scale: int, id: u64) -> bool {
    multiple_of(first, id) + multiple_of(second, id) * scale != 0
}

/// The first plus `scale` times the second, where all that is computed for it fits. It lists the
/// variables that remain.
pub open spec fn added_form(first: Linear, second: Linear, scale: int) -> Option<Linear> {
    if fits(second.constant * scale) && fits(first.constant + second.constant * scale) && forall|id: u64| #[trigger]
        second.terms.dom().contains(id) ==> fits(second.terms[id] * scale) && fits(
            multiple_of(first, id) + second.terms[id] * scale,
        ) {
        Some(
            Linear {
                terms: Map::new(
                    |id: u64| remains(first, second, scale, id),
                    |id: u64| multiple_of(first, id) + multiple_of(second, id) * scale,
                ),
                constant: first.constant + second.constant * scale,
            },
        )
    } else {
        None
    }
}

/// The constant as a sum, where it fits.
pub open spec fn constant_form(constant: Option<usize>) -> Option<Linear> {
    match constant {
        Some(constant) if constant <= isize::MAX => Some(Linear { terms: Map::empty(), constant: constant as int }),
        _ => None,
    }
}

/// The expression as a sum of multiples of variables, where it is one that fits.
pub open spec fn linear_form(expression: IndexExpression) -> Option<Linear>
    decreases expression,
{
    match expression {
        IndexExpression::Variable(id) => Some(Linear { terms: Map::empty().insert(id, 1int), constant: 0 }),
        IndexExpression::Constant(constant) => constant_form(constant),
        IndexExpression::Plus(inner) => linear_form(*inner),
        IndexExpression::Minus(inner) => match linear_form(*inner) {
            Some(form) => scaled_form(form, -1),
            None => None,
        },
        IndexExpression::Sum(left, right) => match (linear_form(*left), linear_form(*right)) {
            (Some(first), Some(second)) => added_form(first, second, 1),
            _ => None,
        },
        IndexExpression::Difference(left, right) => match (linear_form(*left), linear_form(*right)) {
            (Some(first), Some(second)) => added_form(first, second, -1),
            _ => None,
        },
        IndexExpression::Product(left, right) => match (linear_form(*left), linear_form(*right)) {
            (Some(first), Some(second)) => if first.terms.dom() =~= Set::empty() {
                scaled_form(second, first.constant)
            } else if second.terms.dom() =~= Set::empty() {
                scaled_form(first, second.constant)
            } else {
                None
            },
            _ => None,
        },
        IndexExpression::Cast(inner) => linear_form(*inner),
        IndexExpression::Other => None,
    }
}

/// The terms list the variable.
pub open spec fn lists(terms: Seq<Term>, id: u64) -> bool {
    exists|i: int| 0 <= i < terms.len() && (#[trigger] terms[i]).id == id
}

/// The sum that an index stands for.
pub open spec fn form_of(index: AffineIndex) -> Linear {
    Linear {
        terms: Map::new(|id: u64| lists(index.terms@, id), |id: u64| affine::coefficient_of(index.terms@, id)),
        constant: index.constant as int,
    }
}

proof fn lemma_unlisted(terms: Seq<Term>, id: u64)
    ensures
        !lists(terms, id) ==> affine::coefficient_of(terms, id) == 0,
    decreases terms.len(),
{
    if terms.len() > 0 {
        lemma_unlisted(terms.drop_last(), id);
        if lists(terms.drop_last(), id) {
            let i = choose|i: int| 0 <= i < terms.drop_last().len() && (#[trigger] terms.drop_last()[i]).id == id;
            assert(terms[i].id == id);
        }
        assert(terms.last() == terms[terms.len() - 1]);
    }
}

proof fn lemma_multiple(index: AffineIndex, id: u64)
    ensures
        multiple_of(form_of(index), id) == affine::coefficient_of(index.terms@, id),
{
    lemma_unlisted(index.terms@, id);
}

proof fn lemma_variable_form(index: AffineIndex, id: u64)
    requires
        index.terms@ == seq![Term { id, coefficient: 1isize }],
        index.constant == 0,
    ensures
        form_of(index) == (Linear { terms: Map::empty().insert(id, 1int), constant: 0 }),
{
    let terms = index.terms@;
    assert(terms[0].id == id);
    assert(affine::terms_ascend(terms));
    affine::lemma_coefficient(terms, 0);
    assert(form_of(index).terms =~= Map::empty().insert(id, 1int));
}

proof fn lemma_scaled_form(index: AffineIndex, scale: int, scaled: Option<AffineIndex>)
    requires
        index.wf(),
        scaled is Some <==> (isize::MIN <= index.constant * scale <= isize::MAX && forall|i: int|
            0 <= i < index.terms@.len() ==> isize::MIN <= (#[trigger] index.terms@[i]).coefficient * scale <= isize::MAX),
        scaled matches Some(s) ==> {
            &&& s.wf()
            &&& s.constant == index.constant * scale
            &&& s.terms@.len() == index.terms@.len()
            &&& forall|i: int|
                0 <= i < s.terms@.len() ==> (#[trigger] s.terms@[i]).id == index.terms@[i].id && s.terms@[i].coefficient
                    == index.terms@[i].coefficient * scale
        },
    ensures
        scaled is Some <==> scaled_form(form_of(index), scale) is Some,
        scaled matches Some(s) ==> form_of(s) == scaled_form(form_of(index), scale)->0,
{
    let form = form_of(index);
    assert forall|i: int| 0 <= i < index.terms@.len() implies form.terms.dom().contains((#[trigger] index.terms@[i]).id)
        && form.terms[index.terms@[i].id] == index.terms@[i].coefficient by {
        affine::lemma_coefficient(index.terms@, i);
    }
    assert forall|id: u64| #[trigger] form.terms.dom().contains(id) implies exists|i: int|
        0 <= i < index.terms@.len() && (#[trigger] index.terms@[i]).id == id && form.terms[id] == index.terms@[i].coefficient by {
        let i = choose|i: int| 0 <= i < index.terms@.len() && (#[trigger] index.terms@[i]).id == id;
        assert(form.terms[index.terms@[i].id] == index.terms@[i].coefficient);
    }
    if scaled_form(form, scale) is Some {
        assert forall|i: int| 0 <= i < index.terms@.len() implies isize::MIN <= (#[trigger] index.terms@[i]).coefficient * scale
            <= isize::MAX by {
            assert(form.terms.dom().contains(index.terms@[i].id));
        }
    }
    if let Some(s) = scaled {
        assert(scaled_form(form, scale) is Some);
        let expected = scaled_form(form, scale)->0;
        assert forall|id: u64| form_of(s).terms.dom().contains(id) <==> expected.terms.dom().contains(id) by {
            if lists(s.terms@, id) {
                let i = choose|i: int| 0 <= i < s.terms@.len() && (#[trigger] s.terms@[i]).id == id;
                assert(index.terms@[i].id == id);
            }
            if lists(index.terms@, id) {
                let i = choose|i: int| 0 <= i < index.terms@.len() && (#[trigger] index.terms@[i]).id == id;
                assert(s.terms@[i].id == id);
            }
        }
        assert forall|id: u64| #[trigger] form_of(s).terms.dom().contains(id) implies form_of(s).terms[id] == expected.terms[id] by {
            let i = choose|i: int| 0 <= i < s.terms@.len() && (#[trigger] s.terms@[i]).id == id;
            affine::lemma_coefficient(s.terms@, i);
            assert(index.terms@[i].id == id);
        }
        assert(form_of(s).terms =~= expected.terms);
    }
}


proof fn lemma_added_form(first: AffineIndex, second: AffineIndex, scale: int, sum: Option<AffineIndex>)
    requires
        first.wf(),
        second.wf(),
        sum is Some <==> affine::sum_fits(first, second, scale),
        sum matches Some(s) ==> {
            &&& s.wf()
            &&& s.constant == first.constant + second.constant * scale
            &&& forall|id: u64| #[trigger]
                affine::coefficient_of(s.terms@, id) == affine::coefficient_of(first.terms@, id) + affine::coefficient_of(
                    second.terms@,
                    id,
                ) * scale
            &&& forall|i: int| 0 <= i < s.terms@.len() ==> (#[trigger] s.terms@[i]).coefficient != 0
        },
    ensures
        sum is Some <==> added_form(form_of(first), form_of(second), scale) is Some,
        sum matches Some(s) ==> form_of(s) == added_form(form_of(first), form_of(second), scale)->0,
{
    let a = form_of(first);
    let b = form_of(second);
    assert forall|i: int| 0 <= i < second.terms@.len() implies b.terms.dom().contains((#[trigger] second.terms@[i]).id)
        && b.terms[second.terms@[i].id] == second.terms@[i].coefficient by {
        affine::lemma_coefficient(second.terms@, i);
    }
    if affine::sum_fits(first, second, scale) {
        assert forall|id: u64| #[trigger] b.terms.dom().contains(id) implies fits(b.terms[id] * scale) && fits(
            multiple_of(a, id) + b.terms[id] * scale,
        ) by {
            let i = choose|i: int| 0 <= i < second.terms@.len() && (#[trigger] second.terms@[i]).id == id;
            assert(affine::product_fits(second.terms@[i].coefficient as int, scale));
            assert(affine::sum_fits_at(first.terms@, second.terms@[i], scale));
            lemma_multiple(first, id);
        }
        assert(added_form(a, b, scale) is Some);
    }
    if added_form(a, b, scale) is Some {
        assert forall|k: int| 0 <= k < second.terms@.len() implies affine::product_fits(
            (#[trigger] second.terms@[k]).coefficient as int,
            scale,
        ) && affine::sum_fits_at(first.terms@, second.terms@[k], scale) by {
            assert(b.terms.dom().contains(second.terms@[k].id));
            lemma_multiple(first, second.terms@[k].id);
        }
    }
    if let Some(s) = sum {
        let expected = added_form(a, b, scale)->0;
        assert forall|id: u64| #[trigger] form_of(s).terms.dom().contains(id) <==> expected.terms.dom().contains(id) by {
            lemma_multiple(first, id);
            lemma_multiple(second, id);
            lemma_unlisted(s.terms@, id);
            if lists(s.terms@, id) {
                let i = choose|i: int| 0 <= i < s.terms@.len() && (#[trigger] s.terms@[i]).id == id;
                affine::lemma_coefficient(s.terms@, i);
            }
            assert(affine::coefficient_of(s.terms@, id) == multiple_of(a, id) + multiple_of(b, id) * scale);
        }
        assert forall|id: u64| #[trigger] form_of(s).terms.dom().contains(id) implies form_of(s).terms[id] == expected.terms[id] by {
            lemma_multiple(first, id);
            lemma_multiple(second, id);
        }
        assert(form_of(s).terms =~= expected.terms);
    }
}

proof fn lemma_no_terms(index: AffineIndex)
    ensures
        index.terms@.len() == 0 <==> form_of(index).terms.dom() =~= Set::empty(),
        index.terms@.len() == 0 ==> form_of(index).terms =~= Map::empty(),
        index.terms@.len() == 0 ==> forall|value: spec_fn(u64) -> int| #[trigger] index.at(value) == index.constant,
{
    if index.terms@.len() > 0 {
        assert(form_of(index).terms.dom().contains(index.terms@[0].id));
    }
}

/// A constant as a position, where it fits.
fn affine_constant(constant: Option<usize>) -> (r: Option<AffineIndex>)
    ensures
        r is Some <==> constant_form(constant) is Some,
        r matches Some(index) ==> index.wf() && form_of(index) == constant_form(constant)->0 && forall|
            value: spec_fn(u64) -> int,
        | #[trigger]
            index.at(value) == constant->0,
{
    let constant: usize = constant?;
    if constant > isize::MAX as usize {
        return None;
    }
    let r = AffineIndex::constant(constant as isize);
    proof {
        lemma_no_terms(r);
    }
    Some(r)
}

/// The expression as a sum of multiples of variables, which has the value of the expression whatever
/// the variables are; nothing where it is no such sum, or where a number of it does not fit.
pub fn affine_index(expression: &IndexExpression) -> (r: Option<AffineIndex>)
    ensures
        r is Some <==> linear_form(*expression) is Some,
        r matches Some(index) ==> index.wf() && form_of(index) == linear_form(*expression)->0 && forall|
            value: spec_fn(u64) -> int,
        | #[trigger]
            index.at(value) == index_value(*expression, value),
    decreases expression,
{
    match expression {
        IndexExpression::Variable(id) => {
            let r = AffineIndex::variable(*id);
            proof {
                lemma_variable_form(r, *id);
            }
            Some(r)
        },
        IndexExpression::Constant(constant) => affine_constant(*constant),
        IndexExpression::Plus(inner) => affine_index(inner),
        IndexExpression::Minus(inner) => {
            let index = affine_index(inner)?;
            let ghost before = index;
            let r = index.scaled(-1);
            proof {
                lemma_scaled_form(before, -1, r);
            }
            r
        },
        IndexExpression::Sum(left, right) => {
            let mut sum = affine_index(left)?;
            let second = affine_index(right)?;
            let ghost first = sum;
            let added = sum.add_scaled(&second, 1);
            proof {
                lemma_added_form(first, second, 1, if added is Some { Some(sum) } else { None });
            }
            added?;
            Some(sum)
        },
        IndexExpression::Difference(left, right) => {
            let mut sum = affine_index(left)?;
            let second = affine_index(right)?;
            let ghost first = sum;
            let added = sum.add_scaled(&second, -1);
            proof {
                lemma_added_form(first, second, -1, if added is Some { Some(sum) } else { None });
            }
            added?;
            Some(sum)
        },
        IndexExpression::Product(left, right) => {
            let first = affine_index(left)?;
            let second = affine_index(right)?;
            let ghost a = first;
            let ghost b = second;
            proof {
                lemma_no_terms(a);
                lemma_no_terms(b);
            }
            if first.terms.len() == 0 {
                let scale: isize = first.constant;
                let r = second.scaled(scale);
                proof {
                    lemma_scaled_form(b, scale as int, r);
                    assert forall|value: spec_fn(u64) -> int| r is Some implies #[trigger] (r->0).at(value) == index_value(*expression, value) by {
                        assert(a.at(value) == index_value(**left, value));
                        assert(b.at(value) == index_value(**right, value));
                        let x = b.at(value);
                        assert(x * scale == scale * x) by (nonlinear_arith);
                    }
                }
                r
            } else if second.terms.len() == 0 {
                let scale: isize = second.constant;
                let r = first.scaled(scale);
                proof {
                    lemma_scaled_form(a, scale as int, r);
                    assert forall|value: spec_fn(u64) -> int| r is Some implies #[trigger] (r->0).at(value) == index_value(*expression, value) by {
                        assert(a.at(value) == index_value(**left, value));
                        assert(b.at(value) == index_value(**right, value));
                    }
                }
                r
            } else {
                None
            }
        },
        IndexExpression::Cast(inner) => affine_index(inner),
        IndexExpression::Other => None,
    }
}


/// A bound of a loop.
pub enum ForBound {
    Constant(usize),
    /// An expression, with its value where that is known now, and with the versions that it reads.
    Expression { expression: IndexExpression, value: Option<usize>, versions: Vec<usize> },
}

/// The range that a loop runs over, in whatever direction and by whatever step.
pub struct ForRange {
    pub start: ForBound,
    pub end: ForBound,
    pub inclusive: bool,
}

/// The bound as a sum of multiples of variables.
pub open spec fn bound_form(bound: ForBound) -> Option<Linear> {
    match bound {
        ForBound::Constant(constant) => constant_form(Some(constant)),
        ForBound::Expression { expression, .. } => linear_form(expression),
    }
}

/// The bound where `value` gives the values of the variables.
pub open spec fn bound_value(bound: ForBound, value: spec_fn(u64) -> int) -> int {
    match bound {
        ForBound::Constant(constant) => constant as int,
        ForBound::Expression { expression, .. } => index_value(expression, value),
    }
}

/// The range holds the position where `value` gives the values of the variables.
pub open spec fn in_range(range: ForRange, value: spec_fn(u64) -> int, position: int) -> bool {
    let start = bound_value(range.start, value);
    let end = bound_value(range.end, value);
    start <= position && (position < end || range.inclusive && position == end)
}

/// The bound as a sum of multiples of variables, where it is one.
pub fn affine_bound(bound: &ForBound) -> (r: Option<AffineIndex>)
    ensures
        r is Some <==> bound_form(*bound) is Some,
        r matches Some(index) ==> index.wf() && form_of(index) == bound_form(*bound)->0 && forall|
            value: spec_fn(u64) -> int,
        | #[trigger]
            index.at(value) == bound_value(*bound, value),
{
    match bound {
        ForBound::Constant(constant) => affine_constant(Some(*constant)),
        ForBound::Expression { expression, .. } => affine_index(expression),
    }
}

/// Whether a bound is an expression.
pub fn for_range_has_dynamic_bounds(range: &ForRange) -> (r: bool)
    ensures
        r == (range.start is Expression || range.end is Expression),
{
    matches!(range.start, ForBound::Expression { .. }) || matches!(range.end, ForBound::Expression { .. })
}

spec fn variables(terms: Seq<Term>) -> Seq<u64> {
    terms.map_values(|term: Term| term.id)
}

proof fn lemma_form_decides(a: AffineIndex, b: AffineIndex)
    requires
        a.wf(),
        b.wf(),
        form_of(a) == form_of(b),
    ensures
        a.terms@ == b.terms@,
        a.constant == b.constant,
{
    let s = variables(a.terms@);
    let t = variables(b.terms@);
    assert forall|id: u64| #[trigger] s.contains(id) <==> t.contains(id) by {
        assert(form_of(a).terms.dom().contains(id) == lists(a.terms@, id));
        assert(form_of(b).terms.dom().contains(id) == lists(b.terms@, id));
        if s.contains(id) {
            let i = choose|i: int| 0 <= i < s.len() && s[i] == id;
            assert(a.terms@[i].id == id);
            let j = choose|j: int| 0 <= j < b.terms@.len() && (#[trigger] b.terms@[j]).id == id;
            assert(t[j] == id);
        }
        if t.contains(id) {
            let i = choose|i: int| 0 <= i < t.len() && t[i] == id;
            assert(b.terms@[i].id == id);
            let j = choose|j: int| 0 <= j < a.terms@.len() && (#[trigger] a.terms@[j]).id == id;
            assert(s[j] == id);
        }
    }
    assert(order::strictly_sorted(s)) by {
        assert forall|i: int, j: int| 0 <= i < j < s.len() implies order::Ordered::lt(#[trigger] s[i], #[trigger] s[j]) by {
            assert(a.terms@[i].id < a.terms@[j].id);
        }
    }
    assert(order::strictly_sorted(t)) by {
        assert forall|i: int, j: int| 0 <= i < j < t.len() implies order::Ordered::lt(#[trigger] t[i], #[trigger] t[j]) by {
            assert(b.terms@[i].id < b.terms@[j].id);
        }
    }
    order::sorted_list_is_canonical(s, t);
    assert forall|i: int| 0 <= i < a.terms@.len() implies a.terms@[i] == b.terms@[i] by {
        assert(s[i] == t[i]);
        let id = a.terms@[i].id;
        assert(b.terms@[i].id == id);
        affine::lemma_coefficient(a.terms@, i);
        affine::lemma_coefficient(b.terms@, i);
        assert(lists(a.terms@, id));
        assert(lists(b.terms@, id));
        assert(form_of(a).terms[id] == affine::coefficient_of(a.terms@, id));
        assert(form_of(b).terms[id] == affine::coefficient_of(b.terms@, id));
    }
    assert(a.terms@ =~= b.terms@);
}

/// Whether the bounds of an exclusive range are the same sum, so that it holds no position whatever
/// the variables are.
pub fn for_range_is_proven_empty(range: &ForRange) -> (r: bool)
    ensures
        r <==> !range.inclusive && bound_form(range.start) is Some && bound_form(range.start) == bound_form(range.end),
        r ==> forall|value: spec_fn(u64) -> int, position: int| !#[trigger] in_range(*range, value, position),
{
    if range.inclusive {
        return false;
    }
    let start = match affine_bound(&range.start) {
        Some(start) => start,
        None => {
            return false;
        },
    };
    let end = match affine_bound(&range.end) {
        Some(end) => end,
        None => {
            return false;
        },
    };
    let offset = end.destination_offset_from(&start);
    match offset {
        Some(offset) => {
            proof {
                if bound_form(range.start) == bound_form(range.end) {
                    lemma_form_decides(start, end);
                }
                if offset == 0 {
                    assert(form_of(start).terms =~= form_of(end).terms);
                    assert forall|value: spec_fn(u64) -> int, position: int| !#[trigger] in_range(*range, value, position) by {
                        assert(end.at(value) == start.at(value) + offset);
                        assert(start.at(value) == bound_value(range.start, value));
                        assert(end.at(value) == bound_value(range.end, value));
                    }
                }
            }
            offset == 0
        },
        None => {
            proof {
                if bound_form(range.start) == bound_form(range.end) {
                    lemma_form_decides(start, end);
                }
            }
            false
        },
    }
}

/// The value of a bound, where it is known now.
pub open spec fn known_bound(bound: ForBound) -> Option<usize> {
    match bound {
        ForBound::Constant(constant) => Some(constant),
        ForBound::Expression { value, .. } => value,
    }
}

fn bound_now(bound: &ForBound) -> (r: Option<usize>)
    ensures
        r == known_bound(*bound),
{
    match bound {
        ForBound::Constant(constant) => Some(*constant),
        ForBound::Expression { value, .. } => *value,
    }
}

/// The bounds are known, and there is a position between them.
pub open spec fn holds_a_position(range: ForRange) -> bool {
    match (known_bound(range.start), known_bound(range.end)) {
        (Some(start), Some(end)) => if range.inclusive {
            start <= end
        } else {
            start < end
        },
        _ => false,
    }
}

/// Whether the bounds are known and there is a position between them.
pub fn for_range_is_proven_nonempty(range: &ForRange) -> (r: bool)
    ensures
        r == holds_a_position(*range),
{
    match (bound_now(&range.start), bound_now(&range.end)) {
        (Some(start), Some(end)) => if range.inclusive {
            start <= end
        } else {
            start < end
        },
        _ => false,
    }
}

/// What a loop is decided by.
pub struct RangeControls {
    /// What its bounds read.
    pub bounds: Vec<usize>,
    /// That, and what decides on the loop itself.
    pub range: Vec<usize>,
}

/// The bound reads the version.
pub open spec fn bound_reads(bound: ForBound, version: usize) -> bool {
    match bound {
        ForBound::Constant(_) => false,
        ForBound::Expression { versions, .. } => versions@.contains(version),
    }
}

fn append_bound(bound: &ForBound, list: &mut Vec<usize>)
    ensures
        forall|version: usize| #[trigger] final(list)@.contains(version) <==> old(list)@.contains(version) || bound_reads(*bound, version),
{
    match bound {
        ForBound::Constant(_) => {},
        ForBound::Expression { versions, .. } => append(versions, list),
    }
}

fn append(versions: &Vec<usize>, list: &mut Vec<usize>)
    ensures
        forall|version: usize| #[trigger] final(list)@.contains(version) <==> old(list)@.contains(version) || versions@.contains(version),
{
    let ghost before = list@;
    let mut i: usize = 0;
    while i < versions.len()
        invariant
            i <= versions@.len(),
            list@ == before + versions@.take(i as int),
        decreases versions@.len() - i,
    {
        list.push(versions[i]);
        assert(versions@.take(i + 1) =~= versions@.take(i as int).push(versions@[i as int]));
        assert(list@ =~= before + versions@.take(i + 1));
        i = i + 1;
    }
    proof {
        assert(versions@.take(versions@.len() as int) =~= versions@);
        assert forall|version: usize| #[trigger] list@.contains(version) <==> before.contains(version) || versions@.contains(version) by {
            if before.contains(version) {
                let k = choose|k: int| 0 <= k < before.len() && before[k] == version;
                assert(list@[k] == version);
            }
            if versions@.contains(version) {
                let k = choose|k: int| 0 <= k < versions@.len() && versions@[k] == version;
                assert(list@[before.len() + k] == version);
            }
        }
    }
}

/// What the bounds read, and that with what decides on the loop, each in ascending order.
pub fn eval_for_range_controls(range: &ForRange, controls: &Vec<usize>) -> (r: RangeControls)
    ensures
        order::strictly_sorted(r.bounds@),
        forall|version: usize| #[trigger]
            r.bounds@.contains(version) <==> bound_reads(range.start, version) || bound_reads(range.end, version),
        order::strictly_sorted(r.range@),
        forall|version: usize| #[trigger]
            r.range@.contains(version) <==> controls@.contains(version) || bound_reads(range.start, version) || bound_reads(range.end, version),
{
    let mut read: Vec<usize> = Vec::new();
    append_bound(&range.start, &mut read);
    append_bound(&range.end, &mut read);
    let bounds = sort_dedup(&read);
    assert forall|version: usize| #[trigger]
        bounds@.contains(version) <==> bound_reads(range.start, version) || bound_reads(range.end, version) by {
        assert(bounds@.contains(version) <==> read@.contains(version));
    }
    let mut all: Vec<usize> = Vec::new();
    append(controls, &mut all);
    append(&bounds, &mut all);
    let whole = sort_dedup(&all);
    assert forall|version: usize| #[trigger]
        whole@.contains(version) <==> controls@.contains(version) || bound_reads(range.start, version) || bound_reads(range.end, version) by {
        assert(whole@.contains(version) <==> all@.contains(version));
        assert(bounds@.contains(version) <==> bound_reads(range.start, version) || bound_reads(range.end, version));
    }
    RangeControls { bounds, range: whole }
}

/// How a loop is evaluated.
#[derive(Clone, Copy, Debug, PartialEq, Eq, Structural)]
pub enum LoopPlan {
    /// Its body is never run.
    Pass,
    /// Each of its iterations is evaluated.
    Unroll,
    /// It has too many iterations: nothing is known of what its body writes.
    Forget { may_skip: bool },
    /// Its body is evaluated for any number of iterations.
    Summarize,
}

/// How a loop is evaluated whose iterations are known or not, and are too many or not.
pub open spec fn loop_plan(range: ForRange, enumerated: bool, over_limit: bool) -> LoopPlan {
    if !range.inclusive && bound_form(range.start) is Some && bound_form(range.start) == bound_form(range.end) {
        LoopPlan::Pass
    } else if enumerated {
        LoopPlan::Unroll
    } else if over_limit {
        LoopPlan::Forget { may_skip: !holds_a_position(range) }
    } else {
        LoopPlan::Summarize
    }
}

/// Decides how a loop is evaluated.
pub fn plan_loop(range: &ForRange, enumerated: bool, over_limit: bool) -> (r: LoopPlan)
    ensures
        r == loop_plan(*range, enumerated, over_limit),
        r is Pass ==> forall|value: spec_fn(u64) -> int, position: int| !#[trigger] in_range(*range, value, position),
{
    if for_range_is_proven_empty(range) {
        LoopPlan::Pass
    } else if enumerated {
        LoopPlan::Unroll
    } else if over_limit {
        LoopPlan::Forget { may_skip: !for_range_is_proven_nonempty(range) }
    } else {
        LoopPlan::Summarize
    }
}

/// A loop that is said not to be skipped runs over a position, where the variables are such that the
/// bounds have the values that are known of them.
pub proof fn loops_that_cannot_be_skipped_run(range: ForRange, enumerated: bool, over_limit: bool, value: spec_fn(u64) -> int)
    requires
        known_bound(range.start) matches Some(start) ==> bound_value(range.start, value) == start,
        known_bound(range.end) matches Some(end) ==> bound_value(range.end, value) == end,
        loop_plan(range, enumerated, over_limit) == (LoopPlan::Forget { may_skip: false }),
    ensures
        exists|position: int| #[trigger] in_range(range, value, position),
{
    assert(in_range(range, value, bound_value(range.start, value)));
}

} // verus!
