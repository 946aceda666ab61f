//! Indexes that are sums of multiples of variables, and repeated spans.
use vstd::prelude::*;

verus! {

/// A multiple of a variable.
#[derive(Clone, Copy, Debug, PartialEq, Eq, Structural)]
pub struct Term {
    pub id: u64,
    pub coefficient: isize,
}

/// A sum of multiples of variables and a constant.
#[derive(Debug)]
pub struct AffineIndex {
    pub terms: Vec<Term>,
    pub constant: isize,
}

/// The terms have ascending variables.
pub open spec fn terms_ascend(terms: Seq<Term>) -> bool {
    forall|i: int, j: int|
        0 <= i < j < terms.len() ==> (#[trigger] terms[i]).id < (#[trigger] terms[j]).id
}

/// The coefficient of a variable; 0 where it does not occur.
pub open spec fn coefficient_of(terms: Seq<Term>, id: u64) -> int
    decreases terms.len(),
{
    if terms.len() == 0 {
        0
    } else if terms.last().id == id {
        terms.last().coefficient as int
    } else {
        coefficient_of(terms.drop_last(), id)
    }
}

/// The sum of the terms where `value` gives the values of the variables.
pub open spec fn terms_value(terms: Seq<Term>, value: spec_fn(u64) -> int) -> int
    decreases terms.len(),
{
    if terms.len() == 0 {
        0
    } else {
        terms_value(terms.drop_last(), value) + terms.last().coefficient * value(terms.last().id)
    }
}

/// The sum where the terms are read from `from` on.
spec fn tail_value(terms: Seq<Term>, from: int, value: spec_fn(u64) -> int) -> int
    decreases terms.len() - from,
{
    if from >= terms.len() {
        0
    } else {
        terms[from].coefficient * value(terms[from].id) + tail_value(terms, from + 1, value)
    }
}

impl AffineIndex {
    /// The terms ascend.
    pub open spec fn wf(self) -> bool {
        terms_ascend(self.terms@)
    }

    /// The index where `value` gives the values of the variables.
    pub open spec fn at(self, value: spec_fn(u64) -> int) -> int {
        terms_value(self.terms@, value) + self.constant
    }

    /// A constant position.
    pub fn constant(constant: isize) -> (r: Self)
        ensures
            r.wf(),
            r.terms@.len() == 0,
            r.constant == constant,
            forall|value: spec_fn(u64) -> int| #[trigger] r.at(value) == constant,
    {
        AffineIndex { terms: Vec::new(), constant }
    }

    /// The value of a variable as a position.
    pub fn variable(id: u64) -> (r: Self)
        ensures
            r.wf(),
            r.terms@ == seq![Term { id, coefficient: 1isize }],
            r.constant == 0,
            forall|value: spec_fn(u64) -> int| #[trigger] r.at(value) == value(id),
    {
        let mut terms: Vec<Term> = Vec::new();
        terms.push(Term { id, coefficient: 1 });
        let r = AffineIndex { terms, constant: 0 };
        proof {
            assert forall|value: spec_fn(u64) -> int| #[trigger] r.at(value) == value(id) by {
                assert(r.terms@.drop_last() =~= Seq::<Term>::empty());
                assert(terms_value(r.terms@.drop_last(), value) == 0);
            }
        }
        r
    }

    /// `scale` times the index; nothing where a factor of it does not fit.
    pub fn scaled(self, scale: isize) -> (r: Option<Self>)
        requires
            self.wf(),
        ensures
            r is Some <==> (isize::MIN <= self.constant * scale <= isize::MAX && forall|i: int|
                0 <= i < self.terms@.len() ==> isize::MIN <= (
                #[trigger] self.terms@[i]).coefficient * scale <= isize::MAX),
            r matches Some(s) ==> {
                &&& s.wf()
                &&& s.constant == self.constant * scale
                &&& s.terms@.len() == self.terms@.len()
                &&& forall|i: int|
                    0 <= i < s.terms@.len() ==> (#[trigger] s.terms@[i]).id == self.terms@[i].id
                        && s.terms@[i].coefficient == self.terms@[i].coefficient * scale
                &&& forall|value: spec_fn(u64) -> int| #[trigger]
                    s.at(value) == self.at(value) * scale
            },
    {
        let constant: isize = match self.constant.checked_mul(scale) {
            Some(constant) => constant,
            None => {
                return None;
            },
        };
        let mut terms: Vec<Term> = Vec::new();
        let mut i: usize = 0;
        while i < self.terms.len()
            invariant
                i <= self.terms@.len(),
                terms@.len() == i,
                forall|k: int|
                    0 <= k < i ==> (#[trigger] terms@[k]).id == self.terms@[k].id
                        && terms@[k].coefficient == self.terms@[k].coefficient * scale,
            decreases self.terms@.len() - i,
        {
            let term = self.terms[i];
            match term.coefficient.checked_mul(scale) {
                Some(coefficient) => {
                    terms.push(Term { id: term.id, coefficient });
                },
                None => {
                    assert(!(isize::MIN <= self.terms@[i as int].coefficient * scale
                        <= isize::MAX));
                    return None;
                },
            }
            i = i + 1;
        }
        let r = AffineIndex { terms, constant };
        proof {
            assert forall|k: int| 0 <= k < self.terms@.len() implies isize::MIN <= (
            #[trigger] self.terms@[k]).coefficient * scale <= isize::MAX by {
                assert(r.terms@[k].coefficient == self.terms@[k].coefficient * scale);
            }
            assert forall|value: spec_fn(u64) -> int| #[trigger] r.at(value) == self.at(value)
                * scale by {
                lemma_scaled(self.terms@, r.terms@, scale as int, value);
                assert((terms_value(self.terms@, value) + self.constant) * scale == terms_value(
                    self.terms@,
                    value,
                ) * scale + self.constant * scale) by (nonlinear_arith);
            }
        }
        Some(r)
    }

    /// Adds `scale` times another index; nothing where a sum or product of it does not fit, which
    /// may leave part of it added.
    pub fn add_scaled(&mut self, other: &Self, scale: isize) -> (r: Option<()>)
        requires
            old(self).wf(),
            other.wf(),
        ensures
            r is Some <==> sum_fits(*old(self), *other, scale as int),
            r is Some ==> {
                &&& final(self).wf()
                &&& final(self).constant == old(self).constant + other.constant * scale
                &&& forall|id: u64| #[trigger]
                    coefficient_of(final(self).terms@, id) == coefficient_of(
                        old(self).terms@,
                        id,
                    ) + coefficient_of(other.terms@, id) * scale
                &&& forall|i: int|
                    0 <= i < final(self).terms@.len() ==> (
                    #[trigger] final(self).terms@[i]).coefficient != 0
                &&& forall|value: spec_fn(u64) -> int| #[trigger]
                    final(self).at(value) == old(self).at(value) + other.at(value) * scale
            },
    {
        let product: isize = match other.constant.checked_mul(scale) {
            Some(product) => product,
            None => {
                return None;
            },
        };
        let constant: isize = match self.constant.checked_add(product) {
            Some(constant) => constant,
            None => {
                return None;
            },
        };
        let ghost mine = self.terms@;
        let ghost theirs = other.terms@;
        let mut terms: Vec<Term> = Vec::new();
        let mut i: usize = 0;
        let mut j: usize = 0;
        proof {
            assert forall|value: spec_fn(u64) -> int| #[trigger] terms_value(terms@, value)
                + tail_value(mine, 0, value) + tail_value(theirs, 0, value) * scale == terms_value(
                mine,
                value,
            ) + terms_value(theirs, value) * scale by {
                lemma_tail(mine, 0, value);
                lemma_tail(theirs, 0, value);
                assert(mine.take(0) =~= Seq::<Term>::empty());
                assert(theirs.take(0) =~= Seq::<Term>::empty());
                assert(0 * scale == 0) by (nonlinear_arith);
            }
            assert(mine.take(0) =~= Seq::<Term>::empty());
            assert(theirs.take(0) =~= Seq::<Term>::empty());
            assert(0 * scale == 0) by (nonlinear_arith);
        }
        while i < self.terms.len() || j < other.terms.len()
            invariant
                mine == self.terms@,
                theirs == other.terms@,
                *self == *old(self),
                terms_ascend(mine),
                terms_ascend(theirs),
                i <= mine.len(),
                j <= theirs.len(),
                terms_ascend(terms@),
                forall|k: int|
                    0 <= k < terms@.len() ==> (#[trigger] terms@[k]).coefficient != 0 && (i
                        < mine.len() ==> terms@[k].id < mine[i as int].id) && (j < theirs.len()
                        ==> terms@[k].id < theirs[j as int].id),
                forall|id: u64| #[trigger]
                    coefficient_of(terms@, id) == coefficient_of(mine.take(i as int), id)
                        + coefficient_of(theirs.take(j as int), id) * scale,
                forall|k: int|
                    0 <= k < j ==> product_fits((#[trigger] theirs[k]).coefficient as int, scale as int)
                        && sum_fits_at(mine, theirs[k], scale as int),
                forall|k: int| 0 <= k < i && j < theirs.len() ==> (#[trigger] mine[k]).id < theirs[j as int].id,
                forall|k: int| 0 <= k < j && i < mine.len() ==> (#[trigger] theirs[k]).id < mine[i as int].id,
                forall|value: spec_fn(u64) -> int| #[trigger] terms_value(terms@, value)
                    + tail_value(mine, i as int, value) + tail_value(theirs, j as int, value)
                    * scale == terms_value(mine, value) + terms_value(theirs, value) * scale,
                isize::MIN <= other.constant * scale <= isize::MAX,
                isize::MIN <= self.constant + other.constant * scale <= isize::MAX,
            decreases mine.len() - i + theirs.len() - j,
        {
            let ghost before = terms@;
            let ghost i0 = i as int;
            let ghost j0 = j as int;
            let take_mine: bool = j >= other.terms.len() || (i < self.terms.len()
                && self.terms[i].id <= other.terms[j].id);
            let take_theirs: bool = i >= self.terms.len() || (j < other.terms.len()
                && other.terms[j].id <= self.terms[i].id);
            let id: u64 = if take_mine {
                self.terms[i].id
            } else {
                other.terms[j].id
            };
            let mut coefficient: isize = 0;
            if take_mine {
                coefficient = self.terms[i].coefficient;
            }
            if take_theirs {
                let scaled: Option<isize> = other.terms[j].coefficient.checked_mul(scale);
                proof {
                    if take_mine {
                        lemma_coefficient(mine, i0);
                    } else {
                        lemma_no_coefficient(mine, i0, id);
                    }
                }
                match scaled {
                    Some(product) => {
                        match coefficient.checked_add(product) {
                            Some(sum) => {
                                coefficient = sum;
                            },
                            None => {
                                assert(!sum_fits_at(mine, theirs[j0], scale as int));
                                return None;
                            },
                        }
                    },
                    None => {
                        assert(!product_fits(theirs[j0].coefficient as int, scale as int));
                        return None;
                    },
                }
            }
            if coefficient != 0 {
                terms.push(Term { id, coefficient });
            }
            if take_mine {
                i = i + 1;
            }
            if take_theirs {
                j = j + 1;
            }
            proof {
                let x: int = if take_mine { mine[i0].coefficient as int } else { 0 };
                let y: int = if take_theirs { theirs[j0].coefficient as int } else { 0 };
                assert(0 * scale == 0) by (nonlinear_arith);
                assert(coefficient == x + y * scale);
                assert forall|other_id: u64| #[trigger] coefficient_of(terms@, other_id) == coefficient_of(mine.take(i as int), other_id)
                    + coefficient_of(theirs.take(j as int), other_id) * scale by {
                    assert(coefficient_of(before, other_id) == coefficient_of(mine.take(i0), other_id)
                        + coefficient_of(theirs.take(j0), other_id) * scale);
                    if take_mine {
                        assert(mine.take(i0 + 1).drop_last() =~= mine.take(i0));
                    }
                    if take_theirs {
                        assert(theirs.take(j0 + 1).drop_last() =~= theirs.take(j0));
                    }
                    if coefficient != 0 {
                        assert(terms@.drop_last() =~= before);
                    }
                    if other_id == id {
                        lemma_no_coefficient_below(before, id);
                        lemma_no_coefficient_below(mine.take(i0), id);
                        lemma_no_coefficient_below(theirs.take(j0), id);
                    }
                }
                assert forall|value: spec_fn(u64) -> int| #[trigger] terms_value(terms@, value)
                    + tail_value(mine, i as int, value) + tail_value(theirs, j as int, value)
                    * scale == terms_value(mine, value) + terms_value(theirs, value) * scale by {
                    assert(terms_value(before, value) + tail_value(mine, i0, value) + tail_value(theirs, j0, value)
                        * scale == terms_value(mine, value) + terms_value(theirs, value) * scale);
                    let v = value(id);
                    assert((x + y * scale) * v == x * v + (y * v) * scale) by (nonlinear_arith);
                    assert(0 * v == 0) by (nonlinear_arith);
                    if coefficient != 0 {
                        assert(terms@.drop_last() =~= before);
                    }
                    assert(terms_value(terms@, value) == terms_value(before, value) + coefficient * v);
                    let rest = tail_value(theirs, j as int, value);
                    assert((y * v + rest) * scale == (y * v) * scale + rest * scale) by (nonlinear_arith);
                }
            }
        }
        self.constant = constant;
        self.terms = terms;
        proof {
            assert(mine.take(mine.len() as int) =~= mine);
            assert(theirs.take(theirs.len() as int) =~= theirs);
            assert forall|value: spec_fn(u64) -> int| #[trigger] self.at(value) == old(self).at(value) + other.at(value) * scale by {
                assert(terms_value(self.terms@, value) + tail_value(mine, i as int, value) + tail_value(theirs, j as int, value)
                    * scale == terms_value(mine, value) + terms_value(theirs, value) * scale);
                assert(0 * scale == 0) by (nonlinear_arith);
                let t = terms_value(theirs, value);
                let c = other.constant as int;
                assert((t + c) * scale == t * scale + c * scale) by (nonlinear_arith);
            }
        }
        Some(())
    }

    /// What is to be added to the position of the source for that of the destination, where both
    /// have the same terms.
    pub fn destination_offset_from(&self, source: &Self) -> (r: Option<isize>)
        ensures
            r is Some <==> self.terms@ == source.terms@ && isize::MIN <= self.constant
                - source.constant <= isize::MAX,
            r matches Some(offset) ==> offset == self.constant - source.constant && forall|
                value: spec_fn(u64) -> int,
            | #[trigger]
                self.at(value) == source.at(value) + offset,
    {
        if self.terms.len() != source.terms.len() {
            return None;
        }
        let mut i: usize = 0;
        while i < self.terms.len()
            invariant
                i <= self.terms@.len() == source.terms@.len(),
                forall|k: int| 0 <= k < i ==> self.terms@[k] == #[trigger] source.terms@[k],
            decreases self.terms@.len() - i,
        {
            if self.terms[i] != source.terms[i] {
                return None;
            }
            i = i + 1;
        }
        assert(self.terms@ =~= source.terms@);
        self.constant.checked_sub(source.constant)
    }
}

/// The product fits the type of coefficients.
pub open spec fn product_fits(coefficient: int, scale: int) -> bool {
    isize::MIN <= coefficient * scale <= isize::MAX
}

/// Adding the scaled term to what `terms` has of its variable fits.
pub open spec fn sum_fits_at(terms: Seq<Term>, term: Term, scale: int) -> bool {
    isize::MIN <= coefficient_of(terms, term.id) + term.coefficient * scale <= isize::MAX
}

/// Adding `scale` times the second index to the first fits.
pub open spec fn sum_fits(a: AffineIndex, b: AffineIndex, scale: int) -> bool {
    &&& product_fits(b.constant as int, scale)
    &&& isize::MIN <= a.constant + b.constant * scale <= isize::MAX
    &&& forall|k: int|
        0 <= k < b.terms@.len() ==> product_fits((#[trigger] b.terms@[k]).coefficient as int, scale)
            && sum_fits_at(a.terms@, b.terms@[k], scale)
}

proof fn lemma_scaled(a: Seq<Term>, b: Seq<Term>, scale: int, value: spec_fn(u64) -> int)
    requires
        a.len() == b.len(),
        forall|i: int|
            0 <= i < a.len() ==> (#[trigger] b[i]).id == a[i].id && b[i].coefficient
                == a[i].coefficient * scale,
    ensures
        terms_value(b, value) == terms_value(a, value) * scale,
    decreases a.len(),
{
    if a.len() > 0 {
        lemma_scaled(a.drop_last(), b.drop_last(), scale, value);
        let rest = terms_value(a.drop_last(), value);
        let x = a.last().coefficient as int;
        let v = value(a.last().id);
        assert(b.last().coefficient == x * scale);
        assert((rest + x * v) * scale == rest * scale + (x * scale) * v) by (nonlinear_arith);
    } else {
        assert(0 * scale == 0) by (nonlinear_arith);
    }
}

proof fn lemma_tail(terms: Seq<Term>, from: int, value: spec_fn(u64) -> int)
    requires
        0 <= from <= terms.len(),
    ensures
        terms_value(terms.take(from), value) + tail_value(terms, from, value) == terms_value(
            terms,
            value,
        ),
    decreases terms.len() - from,
{
    if from < terms.len() {
        lemma_tail(terms, from + 1, value);
        assert(terms.take(from + 1).drop_last() =~= terms.take(from));
    } else {
        assert(terms.take(from) =~= terms);
    }
}

/// The coefficient of a variable that occurs.
pub proof fn lemma_coefficient(terms: Seq<Term>, at: int)
    requires
        terms_ascend(terms),
        0 <= at < terms.len(),
    ensures
        coefficient_of(terms, terms[at].id) == terms[at].coefficient,
    decreases terms.len(),
{
    if at < terms.len() - 1 {
        assert(terms[at].id < terms[terms.len() - 1].id);
        lemma_coefficient(terms.drop_last(), at);
    }
}

proof fn lemma_no_coefficient(terms: Seq<Term>, at: int, id: u64)
    requires
        terms_ascend(terms),
        0 <= at <= terms.len(),
        forall|k: int| 0 <= k < at ==> (#[trigger] terms[k]).id < id,
        at < terms.len() ==> id < terms[at].id,
    ensures
        coefficient_of(terms, id) == 0,
    decreases terms.len(),
{
    if terms.len() > 0 {
        let last = terms.len() - 1;
        if at < last {
            assert(terms[at].id < terms[last].id);
        }
        if at <= last {
            lemma_no_coefficient(terms.drop_last(), at, id);
        } else {
            assert(terms[last].id < id);
            lemma_no_coefficient(terms.drop_last(), at - 1, id);
        }
    }
}

proof fn lemma_no_coefficient_below(terms: Seq<Term>, id: u64)
    requires
        forall|k: int| 0 <= k < terms.len() ==> (#[trigger] terms[k]).id < id,
    ensures
        coefficient_of(terms, id) == 0,
    decreases terms.len(),
{
    if terms.len() > 0 {
        assert(terms[terms.len() - 1].id < id);
        lemma_no_coefficient_below(terms.drop_last(), id);
    }
}

/// A part of one copy of an item that is repeated: positions `local_start .. local_start + length`
/// of the item, whose copy starts at `output_start`.
#[derive(Clone, Copy, Debug, PartialEq, Eq)]
pub struct RepeatedFragment {
    pub local_start: usize,
    pub length: usize,
    pub output_start: usize,
}

/// What a range selects of an item that is repeated.
#[derive(Clone, Copy, Debug, PartialEq, Eq)]
pub enum RepeatedProjection {
    /// Nothing.
    Empty,
    /// Parts of one or of two copies.
    Exact { first: RepeatedFragment, second: Option<RepeatedFragment> },
    /// Parts of more than two copies, or positions that do not fit.
    Periodic,
}

impl RepeatedFragment {
    /// The position is one that the fragment covers.
    pub open spec fn covers(self, position: int) -> bool {
        self.output_start + self.local_start <= position < self.output_start + self.local_start
            + self.length
    }

    /// The fragment lies in one copy of an item, that of number `copy`.
    pub open spec fn lies_in(self, output_start: int, item_length: int, copy: int) -> bool {
        &&& self.length > 0
        &&& self.local_start + self.length <= item_length
        &&& self.output_start == output_start + copy * item_length
    }
}

/// One of the parts covers the position.
pub open spec fn covered(
    first: RepeatedFragment,
    second: Option<RepeatedFragment>,
    position: int,
) -> bool {
    first.covers(position) || match second {
        Some(s) => s.covers(position),
        None => false,
    }
}

/// The first part lies in copy number `copy`, and the second in the next.
pub open spec fn parts_lie(
    output_start: int,
    item_length: int,
    repeat: int,
    first: RepeatedFragment,
    second: Option<RepeatedFragment>,
    copy: int,
) -> bool {
    &&& 0 <= copy < repeat
    &&& first.lies_in(output_start, item_length, copy)
    &&& match second {
        Some(s) => copy + 1 < repeat && s.lies_in(output_start, item_length, copy + 1),
        None => true,
    }
}

/// The position is requested and lies among the copies.
pub open spec fn requested(
    requested_start: int,
    requested_length: int,
    output_start: int,
    item_length: int,
    repeat: int,
    position: int,
) -> bool {
    &&& requested_start <= position < requested_start + requested_length
    &&& output_start <= position < output_start + item_length * repeat
}

/// The requested range and the copies fit the index type.
pub open spec fn repeated_fits(
    requested_start: int,
    requested_length: int,
    output_start: int,
    item_length: int,
    repeat: int,
) -> bool {
    &&& item_length * repeat <= usize::MAX
    &&& requested_start + requested_length <= usize::MAX
    &&& output_start + item_length * repeat <= usize::MAX
}

/// The range selects these parts of neighbouring copies.
pub open spec fn exact_parts(
    requested_start: int,
    requested_length: int,
    output_start: int,
    item_length: int,
    repeat: int,
    first: RepeatedFragment,
    second: Option<RepeatedFragment>,
) -> bool {
    &&& repeated_fits(requested_start, requested_length, output_start, item_length, repeat)
    &&& forall|position: int| #[trigger]
        requested(
            requested_start,
            requested_length,
            output_start,
            item_length,
            repeat,
            position,
        ) <==> covered(first, second, position)
    &&& exists|copy: int| #[trigger]
        parts_lie(output_start, item_length, repeat, first, second, copy)
}

/// What a range selects, by the first and the last copy that it touches.
pub open spec fn repeated_span_of(
    requested_start: usize,
    requested_length: usize,
    output_start: usize,
    item_length: usize,
    repeat: usize,
) -> RepeatedProjection {
    let requested_end = requested_start + requested_length;
    let output_end = output_start + item_length * repeat;
    let from = range_start(requested_start as int, output_start as int);
    let to = range_end(requested_end, output_end);
    if !repeated_fits(
        requested_start as int,
        requested_length as int,
        output_start as int,
        item_length as int,
        repeat as int,
    ) {
        RepeatedProjection::Periodic
    } else if item_length == 0 || from >= to {
        RepeatedProjection::Empty
    } else {
        let first = (from - output_start) / (item_length as int);
        let last = (to - output_start - 1) / (item_length as int);
        let local = (from - output_start) % (item_length as int);
        if first == last {
            RepeatedProjection::Exact {
                first: RepeatedFragment {
                    local_start: local as usize,
                    length: (to - from) as usize,
                    output_start: (output_start + first * item_length) as usize,
                },
                second: None,
            }
        } else if last == first + 1 {
            RepeatedProjection::Exact {
                first: RepeatedFragment {
                    local_start: local as usize,
                    length: (first * item_length + item_length - (from - output_start)) as usize,
                    output_start: (output_start + first * item_length) as usize,
                },
                second: Some(
                    RepeatedFragment {
                        local_start: 0,
                        length: (to - output_start - last * item_length) as usize,
                        output_start: (output_start + last * item_length) as usize,
                    },
                ),
            }
        } else {
            RepeatedProjection::Periodic
        }
    }
}

/// What a range selects of `repeat` copies of an item that start at `output_start`.
#[verifier::spinoff_prover]
#[verifier::rlimit(60)]
pub fn project_repeated_span(
    requested_start: usize,
    requested_length: usize,
    output_start: usize,
    item_length: usize,
    repeat: usize,
) -> (r: RepeatedProjection)
    ensures
        r == repeated_span_of(
            requested_start,
            requested_length,
            output_start,
            item_length,
            repeat,
        ),
{
    let output_length: usize = match item_length.checked_mul(repeat) {
        Some(length) => length,
        None => {
            return RepeatedProjection::Periodic;
        },
    };
    let requested_end: usize = match requested_start.checked_add(requested_length) {
        Some(end) => end,
        None => {
            return RepeatedProjection::Periodic;
        },
    };
    let output_end: usize = match output_start.checked_add(output_length) {
        Some(end) => end,
        None => {
            return RepeatedProjection::Periodic;
        },
    };
    let from: usize = if requested_start < output_start {
        output_start
    } else {
        requested_start
    };
    let to: usize = if requested_end < output_end {
        requested_end
    } else {
        output_end
    };
    if item_length == 0 || from >= to {
        return RepeatedProjection::Empty;
    }
    let relative_start: usize = from - output_start;
    let relative_end: usize = to - output_start;
    let first: usize = relative_start / item_length;
    let last: usize = (relative_end - 1) / item_length;
    proof {
        lemma_copy(relative_start as int, item_length as int, repeat as int);
        lemma_copy(relative_end - 1, item_length as int, repeat as int);
    }
    let ghost item = item_length as int;
    assert((first + 1) * item == first * item + item) by (nonlinear_arith);
    assert((last + 1) * item == last * item + item) by (nonlinear_arith);
    let first_output: usize = output_start + first * item_length;
    let local: usize = relative_start % item_length;
    if first == last {
        return RepeatedProjection::Exact {
            first: RepeatedFragment {
                local_start: local,
                length: to - from,
                output_start: first_output,
            },
            second: None,
        };
    }
    if last == first + 1 {
        return RepeatedProjection::Exact {
            first: RepeatedFragment {
                local_start: local,
                length: first * item_length + item_length - relative_start,
                output_start: first_output,
            },
            second: Some(
                RepeatedFragment {
                    local_start: 0,
                    length: relative_end - last * item_length,
                    output_start: output_start + last * item_length,
                },
            ),
        };
    }
    RepeatedProjection::Periodic
}

/// Where a range starts and ends among copies.
pub open spec fn range_start(requested_start: int, output_start: int) -> int {
    if requested_start < output_start {
        output_start
    } else {
        requested_start
    }
}

pub open spec fn range_end(requested_end: int, output_end: int) -> int {
    if requested_end < output_end {
        requested_end
    } else {
        output_end
    }
}

proof fn lemma_one_copy(s: int, n: int, out: int, item: int, count: int, copy: int, f: RepeatedFragment)
    requires
        repeated_fits(s, n, out, item, count),
        0 <= copy < count,
        range_start(s, out) < range_end(s + n, out + item * count),
        copy * item <= range_start(s, out) - out,
        range_end(s + n, out + item * count) - out <= copy * item + item,
        f.local_start == range_start(s, out) - out - copy * item,
        f.length == range_end(s + n, out + item * count) - range_start(s, out),
        f.output_start == out + copy * item,
    ensures
        exact_parts(s, n, out, item, count, f, None),
{
    assert(parts_lie(out, item, count, f, None, copy));
}

proof fn lemma_two_copies(
    s: int,
    n: int,
    out: int,
    item: int,
    count: int,
    copy: int,
    f: RepeatedFragment,
    g: RepeatedFragment,
)
    requires
        repeated_fits(s, n, out, item, count),
        0 <= copy,
        copy + 1 < count,
        copy * item <= range_start(s, out) - out < copy * item + item,
        copy * item + item < range_end(s + n, out + item * count) - out <= copy * item + item + item,
        f.local_start == range_start(s, out) - out - copy * item,
        f.length == copy * item + item - (range_start(s, out) - out),
        f.output_start == out + copy * item,
        g.local_start == 0,
        g.length == range_end(s + n, out + item * count) - out - (copy * item + item),
        g.output_start == out + copy * item + item,
    ensures
        exact_parts(s, n, out, item, count, f, Some(g)),
{
    assert((copy + 1) * item == copy * item + item) by (nonlinear_arith);
    assert(f.lies_in(out, item, copy));
    assert(g.lies_in(out, item, copy + 1));
    assert(parts_lie(out, item, count, f, Some(g), copy));
}

/// What a range selects of repeated copies: where parts are found they cover the selected positions
/// and no others, and lie in one copy or in two neighbours; else nothing is selected, or a position
/// does not fit, or copies are touched that are neither the same nor neighbours.
pub proof fn repeated_span_is_exact(
    requested_start: usize,
    requested_length: usize,
    output_start: usize,
    item_length: usize,
    repeat: usize,
)
    ensures
        match repeated_span_of(
            requested_start,
            requested_length,
            output_start,
            item_length,
            repeat,
        ) {
            RepeatedProjection::Empty => {
                &&& repeated_fits(
                    requested_start as int,
                    requested_length as int,
                    output_start as int,
                    item_length as int,
                    repeat as int,
                )
                &&& forall|position: int| !#[trigger]
                    requested(
                        requested_start as int,
                        requested_length as int,
                        output_start as int,
                        item_length as int,
                        repeat as int,
                        position,
                    )
            },
            RepeatedProjection::Exact { first, second } => exact_parts(
                requested_start as int,
                requested_length as int,
                output_start as int,
                item_length as int,
                repeat as int,
                first,
                second,
            ),
            RepeatedProjection::Periodic => repeated_fits(
                requested_start as int,
                requested_length as int,
                output_start as int,
                item_length as int,
                repeat as int,
            ) ==> touches_three(
                requested_start as int,
                requested_length as int,
                output_start as int,
                item_length as int,
                repeat as int,
            ),
        },
{
    let s = requested_start as int;
    let n = requested_length as int;
    let out = output_start as int;
    let item = item_length as int;
    let count = repeat as int;
    let from = range_start(s, out);
    let to = range_end(s + n, out + item * count);
    if repeated_fits(s, n, out, item, count) {
        if item == 0 {
            assert(item * count == 0) by (nonlinear_arith)
                requires
                    item == 0,
            ;
        } else if from < to {
            let first = (from - out) / item;
            let last = (to - out - 1) / item;
            lemma_copy(from - out, item, count);
            lemma_copy(to - out - 1, item, count);
            vstd::arithmetic::div_mod::lemma_div_is_ordered(from - out, to - out - 1, item);
            vstd::arithmetic::div_mod::lemma_fundamental_div_mod(from - out, item);
            assert((first + 1) * item == first * item + item) by (nonlinear_arith);
            assert((last + 1) * item == last * item + item) by (nonlinear_arith);
            assert(item * first == first * item) by (nonlinear_arith);
            let shown = repeated_span_of(
                requested_start,
                requested_length,
                output_start,
                item_length,
                repeat,
            );
            if first == last {
                let f = shown->first;
                assert(f.local_start == from - out - first * item);
                lemma_one_copy(s, n, out, item, count, first, f);
            } else if last == first + 1 {
                let f = shown->first;
                let g = shown->second->0;
                assert(f.local_start == from - out - first * item);
                lemma_two_copies(s, n, out, item, count, first, f, g);
            } else {
                assert(in_copy(out, item, first, from));
                assert(in_copy(out, item, last, to - 1));
                assert(requested(s, n, out, item, count, from));
                assert(requested(s, n, out, item, count, to - 1));
            }
        }
    }
}

/// The position lies in copy number `copy`.
pub open spec fn in_copy(output_start: int, item_length: int, copy: int, position: int) -> bool {
    output_start + copy * item_length <= position < output_start + copy * item_length + item_length
}

/// Requested positions lie in copies that are not the same and not neighbours.
pub open spec fn touches_three(
    requested_start: int,
    requested_length: int,
    output_start: int,
    item_length: int,
    repeat: int,
) -> bool {
    exists|a: int, b: int, x: int, y: int|
        {
            &&& a + 1 < b
            &&& #[trigger] in_copy(output_start, item_length, a, x)
            &&& #[trigger] in_copy(output_start, item_length, b, y)
            &&& requested(requested_start, requested_length, output_start, item_length, repeat, x)
            &&& requested(requested_start, requested_length, output_start, item_length, repeat, y)
        }
}

proof fn lemma_copy(position: int, item: int, repeat: int)
    requires
        item > 0,
        0 <= position < item * repeat,
    ensures
        0 <= position / item < repeat,
        (position / item) * item <= position < (position / item) * item + item,
        position % item == position - (position / item) * item,
{
    let q = position / item;
    vstd::arithmetic::div_mod::lemma_fundamental_div_mod(position, item);
    assert(item * q == q * item) by (nonlinear_arith);
    assert(q >= 0) by (nonlinear_arith)
        requires
            q * item + position % item == position,
            0 <= position % item < item,
            position >= 0,
    ;
    assert(q < repeat) by (nonlinear_arith)
        requires
            q * item <= position,
            position < item * repeat,
            item > 0,
    ;
}

} // verus!
