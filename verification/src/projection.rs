//! Which elements of an unpacked array a partly constant index selects.
//!
//! A constant coordinate selects a periodic band of the flattened array: the elements whose position
//! modulo `period` lies in `phase .. phase + extent`.
use vstd::prelude::*;
use crate::relation::PositionRelation;
use crate::span::{signed_difference, ArraySpan};

verus! {

/// The elements at some places of every period.
#[derive(Clone, Copy, Debug, PartialEq, Eq, Structural)]
pub struct PeriodicArrayFilter {
    pub period: usize,
    pub phase: usize,
    pub extent: usize,
}

impl PeriodicArrayFilter {
    /// The band lies within one period and is not empty.
    pub open spec fn wf(self) -> bool {
        &&& self.extent > 0
        &&& self.phase + self.extent <= self.period
    }

    /// The element lies in the band.
    pub open spec fn has(self, element: int) -> bool {
        self.phase <= element % (self.period as int) < self.phase + self.extent
    }

    /// Where the first run of the band starts that ends behind `start`.
    pub open spec fn first_run(self, start: int) -> int {
        if start % (self.period as int) < self.phase + self.extent {
            start - start % (self.period as int) + self.phase
        } else {
            start - start % (self.period as int) + self.period + self.phase
        }
    }

    /// Whether the filter tells anything about the span.
    pub open spec fn applies(self, span: ArraySpan) -> bool {
        self.wf() && span.bounded()
    }
}

/// The first run of a band behind `start`: it has its elements, and none lies before it or between
/// it and the next.
pub proof fn runs_of_a_band(filter: PeriodicArrayFilter, start: int, element: int)
    requires
        filter.wf(),
        start >= 0,
        start <= element < filter.first_run(start) + filter.period,
    ensures
        filter.has(element) <==> filter.first_run(start) <= element < filter.first_run(start)
            + filter.extent,
        filter.first_run(start) + filter.extent > start,
        filter.first_run(start) % (filter.period as int) == filter.phase,
{
    let p = filter.period as int;
    let q = start / p;
    let low = q * p;
    assert(start == low + start % p && 0 <= start % p < p) by (nonlinear_arith)
        requires
            low == (start / p) * p,
            p > 0,
    ;
    lemma_residue(q, p, filter.first_run(start));
    lemma_residue(q, p, element);
    lemma_residue(q + 1, p, element);
    lemma_residue(q + 1, p, filter.first_run(start));
    lemma_residue(q + 2, p, element);
    assert((q + 1) * p == low + p) by (nonlinear_arith)
        requires
            low == q * p,
    ;
    assert((q + 2) * p == low + 2 * p) by (nonlinear_arith)
        requires
            low == q * p,
    ;
    assert((q + 3) * p == low + 3 * p) by (nonlinear_arith)
        requires
            low == q * p,
    ;
}

proof fn lemma_residue(q: int, p: int, x: int)
    requires
        p > 0,
    ensures
        q * p <= x < (q + 1) * p ==> x % p == x - q * p,
{
    if q * p <= x < (q + 1) * p {
        let r = x - q * p;
        assert((q + 1) * p == q * p + p) by (nonlinear_arith);
        vstd::arithmetic::div_mod::lemma_fundamental_div_mod_converse(x, p, q, r);
    }
}

/// Where the first run of the band starts that ends behind `start`; nothing if that does not fit
/// the index type.
fn first_run(filter: PeriodicArrayFilter, start: usize) -> (r: Option<usize>)
    requires
        filter.wf(),
    ensures
        r is Some <==> filter.first_run(start as int) <= usize::MAX,
        r matches Some(run) ==> run == filter.first_run(start as int),
{
    let residue: usize = start % filter.period;
    let end: usize = filter.phase + filter.extent;
    assert(residue <= start) by (nonlinear_arith)
        requires
            residue == start % filter.period,
            filter.period > 0,
            start >= 0,
    ;
    if residue < filter.phase {
        start.checked_add(filter.phase - residue)
    } else if residue < end {
        Some(start - (residue - filter.phase))
    } else {
        match start.checked_add(filter.period - residue) {
            Some(next) => next.checked_add(filter.phase),
            None => None,
        }
    }
}

/// Whether the span may have an element of the band. A filter that is not well formed, or a span
/// whose end does not fit, excludes nothing.
pub fn periodic_array_filter_may_overlap(span: ArraySpan, filter: PeriodicArrayFilter) -> (r: bool)
    ensures
        r == (filter.applies(span) ==> filter.first_run(span.start as int) < span.start
            + span.length),
        filter.applies(span) && span.length > 0 ==> r == exists|element: int| #[trigger]
            span.has(element) && filter.has(element),
{
    let r: bool = match span.end() {
        None => true,
        Some(end) => {
            if filter.extent == 0 || filter.phase > filter.period || filter.extent > filter.period
                - filter.phase {
                true
            } else {
                match first_run(filter, span.start) {
                    None => false,
                    Some(run) => run < end,
                }
            }
        },
    };
    proof {
        if filter.applies(span) && span.length > 0 {
            let run = filter.first_run(span.start as int);
            assert forall|element: int| span.start <= element < run + filter.period implies (
            #[trigger] filter.has(element) <==> run <= element < run + filter.extent) by {
                runs_of_a_band(filter, span.start as int, element);
            }
            runs_of_a_band(filter, span.start as int, span.start as int);
            if run < span.start + span.length {
                let element = if run < span.start {
                    span.start as int
                } else {
                    run
                };
                assert(span.has(element) && filter.has(element));
            }
        }
    }
    r
}

/// Statically known coordinates of an otherwise dynamic access to an unpacked array.
pub struct StaticArrayFilters {
    pub filters: Vec<PeriodicArrayFilter>,
}

impl StaticArrayFilters {
    /// Whether no filter excludes the span.
    pub fn may_select(&self, span: ArraySpan) -> (r: bool)
        ensures
            r == forall|i: int|
                0 <= i < self.filters@.len() ==> may_overlap(span, #[trigger] self.filters@[i]),
    {
        let mut i: usize = 0;
        while i < self.filters.len()
            invariant
                i <= self.filters@.len(),
                forall|k: int| 0 <= k < i ==> may_overlap(span, #[trigger] self.filters@[k]),
            decreases self.filters@.len() - i,
        {
            if !periodic_array_filter_may_overlap(span, self.filters[i]) {
                assert(!may_overlap(span, self.filters@[i as int]));
                return false;
            }
            i = i + 1;
        }
        true
    }
}

/// The filter does not exclude the span.
pub open spec fn may_overlap(span: ArraySpan, filter: PeriodicArrayFilter) -> bool {
    filter.applies(span) ==> filter.first_run(span.start as int) < span.start + span.length
}

/// One index into an unpacked array.
#[derive(Clone, Copy, Debug, PartialEq, Eq)]
pub enum Coordinate {
    /// It is known at run time only.
    Dynamic,
    /// It is constant; the value is missing unless it is known and fits.
    Constant(Option<usize>),
}

/// The number of elements of the dimensions `from .. to`; nothing where a dimension is unknown or
/// the number does not fit.
pub open spec fn extent_of(shape: Seq<Option<usize>>, from: int, to: int) -> Option<int>
    decreases to - from,
{
    if from >= to {
        Some(1)
    } else {
        match (extent_of(shape, from, to - 1), shape[to - 1]) {
            (Some(before), Some(dimension)) => if before * dimension <= usize::MAX {
                Some(before * dimension)
            } else {
                None
            },
            _ => None,
        }
    }
}

fn extent(shape: &Vec<Option<usize>>, from: usize) -> (r: Option<usize>)
    requires
        from <= shape@.len(),
    ensures
        match r {
            Some(total) => extent_of(shape@, from as int, shape@.len() as int) == Some(
                total as int,
            ),
            None => extent_of(shape@, from as int, shape@.len() as int) is None,
        },
{
    let mut total: usize = 1;
    let mut i: usize = from;
    while i < shape.len()
        invariant
            from <= i <= shape@.len(),
            extent_of(shape@, from as int, i as int) == Some(total as int),
        decreases shape@.len() - i,
    {
        let next: Option<usize> = match shape[i] {
            Some(dimension) => total.checked_mul(dimension),
            None => None,
        };
        match next {
            Some(next) => {
                total = next;
            },
            None => {
                proof {
                    assert(extent_of(shape@, from as int, i + 1) is None);
                    lemma_extent_unknown(shape@, from as int, i + 1, shape@.len() as int);
                }
                return None;
            },
        }
        i = i + 1;
    }
    Some(total)
}

proof fn lemma_extent_unknown(shape: Seq<Option<usize>>, from: int, at: int, to: int)
    requires
        from < at <= to,
        extent_of(shape, from, at) is None,
    ensures
        extent_of(shape, from, to) is None,
    decreases to - at,
{
    if at < to {
        lemma_extent_unknown(shape, from, at, to - 1);
    }
}

/// The filter that a constant coordinate gives. A coordinate outside its dimension gives none, and
/// neither does one whose dimension has a single element.
pub open spec fn filter_of(
    shape: Seq<Option<usize>>,
    position: int,
    coordinate: Coordinate,
) -> Option<PeriodicArrayFilter> {
    if position >= shape.len() {
        None
    } else {
        match (coordinate, shape[position], extent_of(shape, position + 1, shape.len() as int)) {
            (
                Coordinate::Constant(Some(value)),
                Some(dimension),
                Some(stride),
            ) => if dimension != 1 && value < dimension && dimension * stride <= usize::MAX {
                Some(
                    PeriodicArrayFilter {
                        period: (dimension * stride) as usize,
                        phase: (value * stride) as usize,
                        extent: stride as usize,
                    },
                )
            } else {
                None
            },
            _ => None,
        }
    }
}

/// The filters that the first `count` coordinates give, in their order.
pub open spec fn filters_of(
    shape: Seq<Option<usize>>,
    index: Seq<Coordinate>,
    count: int,
) -> Seq<PeriodicArrayFilter>
    decreases count,
{
    if count <= 0 {
        Seq::empty()
    } else {
        match filter_of(shape, count - 1, index[count - 1]) {
            Some(filter) => filters_of(shape, index, count - 1).push(filter),
            None => filters_of(shape, index, count - 1),
        }
    }
}

/// The filters of an index into an array of this shape; nothing is filtered where the shape is
/// unknown.
pub fn static_filters(shape: &Vec<Option<usize>>, index: &Vec<Coordinate>) -> (r: Vec<
    PeriodicArrayFilter,
>)
    ensures
        r@ == filters_of(shape@, index@, index@.len() as int),
{
    let mut r: Vec<PeriodicArrayFilter> = Vec::new();
    let mut i: usize = 0;
    while i < index.len()
        invariant
            i <= index@.len(),
            r@ == filters_of(shape@, index@, i as int),
        decreases index@.len() - i,
    {
        if i < shape.len() {
            match (index[i], shape[i]) {
                (Coordinate::Constant(Some(value)), Some(dimension)) => {
                    if dimension != 1 && value < dimension {
                        if let Some(stride) = extent(shape, i + 1) {
                            assert(value * stride <= dimension * stride) by (nonlinear_arith)
                                requires
                                    value < dimension,
                                    stride >= 0,
                            ;
                            if let Some(period) = dimension.checked_mul(stride) {
                                let phase: usize = value * stride;
                                r.push(PeriodicArrayFilter { period, phase, extent: stride });
                            }
                        }
                    }
                },
                _ => {},
            }
        }
        i = i + 1;
    }
    r
}

/// A filter selects the elements with the constant coordinate, and no others.
pub proof fn filter_selects_its_coordinate(
    shape: Seq<Option<usize>>,
    position: int,
    value: usize,
    element: int,
)
    requires
        0 <= position < shape.len(),
        element >= 0,
        filter_of(shape, position, Coordinate::Constant(Some(value))) is Some,
        extent_of(shape, position + 1, shape.len() as int)->0 > 0,
    ensures
        filter_of(shape, position, Coordinate::Constant(Some(value)))->0.has(element) <==> (element
            / extent_of(shape, position + 1, shape.len() as int)->0) % (shape[position]->0 as int)
            == value,
        filter_of(shape, position, Coordinate::Constant(Some(value)))->0.wf(),
{
    let stride = extent_of(shape, position + 1, shape.len() as int)->0;
    let dimension = shape[position]->0 as int;
    let period = dimension * stride;
    let filter = filter_of(shape, position, Coordinate::Constant(Some(value)))->0;
    assert(0 <= value * stride && value * stride + stride <= period) by (nonlinear_arith)
        requires
            0 <= value < dimension,
            stride > 0,
            period == dimension * stride,
    ;
    assert(filter.period == period && filter.phase == value * stride && filter.extent == stride);
    let rest = element % period;
    vstd::arithmetic::div_mod::lemma_fundamental_div_mod(element, period);
    let coordinate = (element / stride) % dimension;
    vstd::arithmetic::div_mod::lemma_fundamental_div_mod(element, stride);
    vstd::arithmetic::div_mod::lemma_fundamental_div_mod(element / stride, dimension);
    let a = element / stride / dimension;
    let b = element % stride;
    assert(0 <= b < stride);
    assert(0 <= coordinate < dimension);
    assert(element == a * period + (coordinate * stride + b)) by (nonlinear_arith)
        requires
            element == stride * (element / stride) + b,
            element / stride == dimension * a + coordinate,
            period == dimension * stride,
    ;
    assert(0 <= coordinate * stride + b < period) by (nonlinear_arith)
        requires
            0 <= coordinate < dimension,
            0 <= b < stride,
            period == dimension * stride,
    ;
    vstd::arithmetic::div_mod::lemma_fundamental_div_mod_converse(
        element,
        period,
        a,
        coordinate * stride + b,
    );
    assert(value * stride <= coordinate * stride + b < value * stride + stride <==> coordinate
        == value) by (nonlinear_arith)
        requires
            0 <= b < stride,
            0 <= coordinate,
            0 <= value,
    ;
}

/// Where the value of an expression, given by positions of its own, lands in a destination.
#[derive(Clone, Copy, Debug, PartialEq, Eq)]
pub struct DestinationArrayProjection {
    pub destination: ArraySpan,
    pub source: ArraySpan,
    /// What leads from positions of the expression to those of the destination; missing where no
    /// single translation does.
    pub array_offset: Option<isize>,
}

impl DestinationArrayProjection {
    /// The relation from a packed position of the expression to one of the destination.
    pub fn position_offset(self, destination_packed: usize, source_packed: usize) -> (r: Option<
        PositionRelation,
    >)
        ensures
            r is Some <==> isize::MIN <= destination_packed - source_packed <= isize::MAX,
            r matches Some(relation) ==> relation.array == self.array_offset && relation.packed
                == Some((destination_packed - source_packed) as isize),
    {
        match signed_difference(destination_packed, source_packed) {
            Some(packed) => Some(PositionRelation { array: self.array_offset, packed: Some(packed) }),
            None => None,
        }
    }
}

/// What is known about the part of a destination that a band of it selects.
#[derive(Clone, Copy, Debug, PartialEq, Eq)]
pub enum PeriodicArrayProjection {
    Exact(Option<DestinationArrayProjection>),
    Unknown,
}

/// The number as an offset; nothing where it does not fit.
pub open spec fn as_offset(position: int) -> Option<isize> {
    if position <= isize::MAX {
        Some(position as isize)
    } else {
        None
    }
}

fn offset(position: usize) -> (r: Option<isize>)
    ensures
        r == as_offset(position as int),
{
    signed_difference(position, 0)
}

/// The projection of a destination of which one run of the band, starting at `run`, selects a part.
pub open spec fn projects_run(
    destination: ArraySpan,
    filter: PeriodicArrayFilter,
    run: int,
    p: DestinationArrayProjection,
) -> bool {
    &&& p.destination.bounded()
    &&& p.destination.length > 0
    &&& forall|element: int| #[trigger]
        p.destination.has(element) <==> destination.has(element) && filter.has(element)
    &&& p.source.length == p.destination.length
    &&& p.destination.start == run + p.source.start
    &&& p.source.start + p.source.length <= filter.extent
    &&& p.array_offset == as_offset(run)
}

/// What a band selects of a destination.
pub open spec fn projects_band(
    destination: ArraySpan,
    filter: PeriodicArrayFilter,
    r: PeriodicArrayProjection,
) -> bool {
    let run = filter.first_run(destination.start as int);
    let end = destination.start + destination.length;
    match r {
        PeriodicArrayProjection::Unknown => !filter.applies(destination) || (run < end && run
            + filter.extent > usize::MAX),
        PeriodicArrayProjection::Exact(None) => filter.applies(destination) && (run < end ==> run
            + filter.extent <= usize::MAX) && forall|element: int| #[trigger]
            destination.has(element) ==> !filter.has(element),
        PeriodicArrayProjection::Exact(Some(p)) => {
            &&& filter.applies(destination)
            &&& run < end
            &&& run + filter.extent <= usize::MAX
            &&& exists|element: int| #[trigger] destination.has(element) && filter.has(element)
            &&& if run + filter.period < end {
                &&& p.destination == destination
                &&& p.source.start == 0
                &&& p.source.length == filter.extent
                &&& p.array_offset is None
            } else {
                projects_run(destination, filter, run, p)
            }
        },
    }
}

/// What a band selects of a destination: if one run of the band does, exactly that part; if more
/// than one does, all of the destination, as a target of the whole band.
pub fn periodic_destination_array_projection(
    destination: ArraySpan,
    filter: PeriodicArrayFilter,
) -> (r: PeriodicArrayProjection)
    ensures
        projects_band(destination, filter, r),
{
    if filter.extent == 0 || filter.phase > filter.period || filter.extent > filter.period
        - filter.phase {
        return PeriodicArrayProjection::Unknown;
    }
    let end: usize = match destination.end() {
        Some(end) => end,
        None => {
            return PeriodicArrayProjection::Unknown;
        },
    };
    let ghost run0 = filter.first_run(destination.start as int);
    proof {
        assert forall|element: int| destination.start <= element < run0 + filter.period implies (
        #[trigger] filter.has(element) <==> run0 <= element < run0 + filter.extent) by {
            runs_of_a_band(filter, destination.start as int, element);
        }
        runs_of_a_band(filter, destination.start as int, destination.start as int);
    }
    let run: usize = match first_run(filter, destination.start) {
        Some(run) => run,
        None => {
            return PeriodicArrayProjection::Exact(None);
        },
    };
    if run >= end {
        return PeriodicArrayProjection::Exact(None);
    }
    let run_end: usize = match run.checked_add(filter.extent) {
        Some(run_end) => run_end,
        None => {
            return PeriodicArrayProjection::Unknown;
        },
    };
    let from: usize = if destination.start < run {
        run
    } else {
        destination.start
    };
    let to: usize = if end < run_end {
        end
    } else {
        run_end
    };
    if from >= to {
        return PeriodicArrayProjection::Exact(None);
    }
    assert(destination.has(from as int) && filter.has(from as int));
    let more: bool = match run.checked_add(filter.period) {
        Some(next) => next < end,
        None => false,
    };
    if more {
        return PeriodicArrayProjection::Exact(
            Some(
                DestinationArrayProjection {
                    destination,
                    source: ArraySpan { start: 0, length: filter.extent },
                    array_offset: None,
                },
            ),
        );
    }
    let p = DestinationArrayProjection {
        destination: ArraySpan { start: from, length: to - from },
        source: ArraySpan { start: from - run, length: to - from },
        array_offset: offset(run),
    };
    proof {
        assert forall|element: int| #[trigger] p.destination.has(element) <==> destination.has(element)
            && filter.has(element) by {
            if destination.has(element) {
                assert(destination.start <= element < run0 + filter.period);
                assert(filter.has(element) <==> run0 <= element < run0 + filter.extent);
            }
        }
    }
    PeriodicArrayProjection::Exact(Some(p))
}

/// How an assignment selects elements of an unpacked array.
pub struct DestinationArraySelection {
    pub dynamic: bool,
    /// The period of the elements selected behind the last dynamic index.
    pub period: Option<usize>,
    pub phase: usize,
    /// The number of elements that all the indexes together select.
    pub extent: Option<usize>,
    /// What every constant coordinate says.
    pub static_filters: Vec<PeriodicArrayFilter>,
}

/// The elements at which a destination takes the value where no band is known: positions are those
/// of the candidates modulo the extent.
pub open spec fn folded_source(
    destination: ArraySpan,
    candidates: ArraySpan,
    extent: Option<usize>,
) -> ArraySpan {
    match extent {
        Some(extent) => if extent == 0 {
            ArraySpan { start: 0, length: destination.length }
        } else {
            let start = (destination.start - candidates.start) % (extent as int);
            if destination.length >= extent || start + destination.length > extent {
                ArraySpan { start: 0, length: extent }
            } else {
                ArraySpan { start: start as usize, length: destination.length }
            }
        },
        None => ArraySpan { start: 0, length: destination.length },
    }
}

/// Some constant coordinate excludes all of the span.
pub open spec fn excluded(span: ArraySpan, filters: Seq<PeriodicArrayFilter>) -> bool {
    exists|i: int| 0 <= i < filters.len() && #[trigger] excludes(span, filters[i])
}

/// The constant coordinate excludes all of the span.
pub open spec fn excludes(span: ArraySpan, filter: PeriodicArrayFilter) -> bool {
    &&& filter.applies(span)
    &&& filter.first_run(span.start as int) < span.start + span.length ==> filter.first_run(
        span.start as int,
    ) + filter.extent <= usize::MAX
    &&& forall|element: int| #[trigger] span.has(element) ==> !filter.has(element)
}

/// The part `destination` of a key is selected as the projection says.
pub open spec fn projects_selection(
    destination: ArraySpan,
    candidates: ArraySpan,
    selection: DestinationArraySelection,
    r: Option<DestinationArrayProjection>,
) -> bool {
    if !selection.dynamic {
        r matches Some(p) && p.destination == destination && p.source.start == destination.start
            - candidates.start && p.source.length == destination.length && p.array_offset
            == as_offset(candidates.start as int)
    } else if excluded(destination, selection.static_filters@) {
        r is None
    } else {
        match (selection.period, selection.extent) {
            (Some(period), Some(extent)) => {
                let band = PeriodicArrayFilter { period, phase: selection.phase, extent };
                ||| projects_band(destination, band, PeriodicArrayProjection::Exact(r))
                ||| projects_band(destination, band, PeriodicArrayProjection::Unknown)
                    && folds(destination, candidates, selection.extent, r)
            },
            _ => folds(destination, candidates, selection.extent, r),
        }
    }
}

/// No band is known, so the whole destination may take any of the folded positions.
pub open spec fn folds(
    destination: ArraySpan,
    candidates: ArraySpan,
    extent: Option<usize>,
    r: Option<DestinationArrayProjection>,
) -> bool {
    r matches Some(p) && p.destination == destination && p.array_offset is None && p.source
        == folded_source(destination, candidates, extent)
}

/// How a value written to `candidates` reaches the elements `key`; nothing where it does not.
pub fn destination_array_projection(
    key: ArraySpan,
    candidates: ArraySpan,
    selection: &DestinationArraySelection,
) -> (r: Option<DestinationArrayProjection>)
    ensures
        !(key.bounded() && candidates.bounded() && exists|element: int| #[trigger]
            key.has(element) && candidates.has(element)) ==> r is None,
        forall|destination: ArraySpan|
            key.bounded() && candidates.bounded() && destination.length > 0
                && #[trigger] is_intersection(key, candidates, destination)
                ==> projects_selection(destination, candidates, *selection, r),
{
    let destination = match key.intersection(candidates) {
        Some(destination) => destination,
        None => {
            proof {
                assert forall|d: ArraySpan| key.bounded() && candidates.bounded() && d.length > 0
                    && #[trigger] is_intersection(key, candidates, d) implies false by {
                    assert(d.has(d.start as int));
                    assert(key.has(d.start as int));
                }
            }
            return None;
        },
    };
    proof {
        assert forall|d: ArraySpan| d.length > 0 && #[trigger] is_intersection(key, candidates, d)
            implies d == destination by {
            intersection_is_unique(key, candidates, d, destination);
        }
        assert(destination.has(destination.start as int));
        assert(candidates.has(destination.start as int));
    }
    if !selection.dynamic {
        return Some(
            DestinationArrayProjection {
                destination,
                source: ArraySpan {
                    start: destination.start - candidates.start,
                    length: destination.length,
                },
                array_offset: offset(candidates.start),
            },
        );
    }
    let mut i: usize = 0;
    while i < selection.static_filters.len()
        invariant
            i <= selection.static_filters@.len(),
            selection.dynamic,
            forall|d: ArraySpan|
                d.length > 0 && #[trigger] is_intersection(key, candidates, d) ==> d == destination,
            destination.length > 0,
            exists|element: int| #[trigger] key.has(element) && candidates.has(element),
            key.bounded() && candidates.bounded(),
            forall|k: int| 0 <= k < i ==> !#[trigger] excludes(destination, selection.static_filters@[k]),
        decreases selection.static_filters@.len() - i,
    {
        let filter = selection.static_filters[i];
        let p = periodic_destination_array_projection(destination, filter);
        if let PeriodicArrayProjection::Exact(None) = p {
            assert(excludes(destination, selection.static_filters@[i as int]));
            return None;
        }
        i = i + 1;
    }
    if let (Some(period), Some(extent)) = (selection.period, selection.extent) {
        let band = PeriodicArrayFilter { period, phase: selection.phase, extent };
        let p = periodic_destination_array_projection(destination, band);
        if let PeriodicArrayProjection::Exact(projection) = p {
            return projection;
        }
    }
    let source: ArraySpan = match selection.extent {
        Some(extent) => {
            if extent == 0 {
                ArraySpan { start: 0, length: destination.length }
            } else {
                let start: usize = (destination.start - candidates.start) % extent;
                if destination.length >= extent || start > extent - destination.length {
                    ArraySpan { start: 0, length: extent }
                } else {
                    ArraySpan { start, length: destination.length }
                }
            }
        },
        None => ArraySpan { start: 0, length: destination.length },
    };
    Some(DestinationArrayProjection { destination, source, array_offset: None })
}

/// `r` has the elements of both.
pub open spec fn is_intersection(a: ArraySpan, b: ArraySpan, r: ArraySpan) -> bool {
    r.bounded() && forall|element: int| #[trigger]
        r.has(element) <==> a.has(element) && b.has(element)
}

/// Two spans have one intersection.
pub proof fn intersection_is_unique(a: ArraySpan, b: ArraySpan, r: ArraySpan, s: ArraySpan)
    requires
        r.length > 0,
        s.length > 0,
        is_intersection(a, b, r),
        is_intersection(a, b, s),
    ensures
        r == s,
{
    assert(r.has(r.start as int));
    assert(s.has(s.start as int));
    assert(r.has(s.start as int));
    assert(s.has(r.start as int));
    assert(r.has(r.start + r.length - 1));
    assert(s.has(s.start + s.length - 1));
    assert(r.has(s.start + s.length - 1));
    assert(s.has(r.start + r.length - 1));
}

/// The number of the last dynamic coordinate among the first `count`.
pub open spec fn last_dynamic_of(index: Seq<Coordinate>, count: int) -> Option<int>
    decreases count,
{
    if count <= 0 {
        None
    } else if index[count - 1] is Dynamic {
        Some(count - 1)
    } else {
        last_dynamic_of(index, count - 1)
    }
}

/// The position that the constant coordinates `from .. to` select among those of their dimensions;
/// nothing where a value or a dimension is unknown, or a value lies outside its dimension.
pub open spec fn suffix_position(
    shape: Seq<Option<usize>>,
    index: Seq<Coordinate>,
    from: int,
    to: int,
) -> Option<int>
    decreases to - from,
{
    if from >= to {
        Some(0)
    } else {
        match (suffix_position(shape, index, from, to - 1), shape[to - 1], index[to - 1]) {
            (Some(before), Some(dimension), Coordinate::Constant(Some(value))) => if value
                < dimension && before * dimension + value <= usize::MAX {
                Some(before * dimension + value)
            } else {
                None
            },
            _ => None,
        }
    }
}

/// The period and the phase of what an index selects behind its last dynamic coordinate.
pub open spec fn periodic_suffix(shape: Seq<Option<usize>>, index: Seq<Coordinate>) -> Option<
    (int, int),
> {
    if index.len() > shape.len() {
        None
    } else {
        match (
            last_dynamic_of(index, index.len() as int),
            extent_of(shape, index.len() as int, shape.len() as int),
        ) {
            (Some(last), Some(extent)) => match (
                extent_of(shape, last + 1, shape.len() as int),
                suffix_position(shape, index, last + 1, index.len() as int),
            ) {
                (Some(period), Some(position)) => if position * extent <= usize::MAX {
                    Some((period, position * extent))
                } else {
                    None
                },
                _ => None,
            },
            _ => None,
        }
    }
}

pub fn last_dynamic(index: &Vec<Coordinate>) -> (r: Option<usize>)
    ensures
        match r {
            Some(last) => last < index@.len() && last_dynamic_of(index@, index@.len() as int)
                == Some(last as int),
            None => last_dynamic_of(index@, index@.len() as int) is None,
        },
{
    let mut i: usize = index.len();
    while i > 0
        invariant
            i <= index@.len(),
            last_dynamic_of(index@, index@.len() as int) == last_dynamic_of(index@, i as int),
        decreases i,
    {
        i = i - 1;
        if let Coordinate::Dynamic = index[i] {
            return Some(i);
        }
    }
    None
}

fn suffix(shape: &Vec<Option<usize>>, index: &Vec<Coordinate>, from: usize) -> (r: Option<usize>)
    requires
        from <= index@.len() <= shape@.len(),
    ensures
        match r {
            Some(position) => suffix_position(shape@, index@, from as int, index@.len() as int)
                == Some(position as int),
            None => suffix_position(shape@, index@, from as int, index@.len() as int) is None,
        },
{
    let mut position: usize = 0;
    let mut i: usize = from;
    while i < index.len()
        invariant
            from <= i <= index@.len() <= shape@.len(),
            suffix_position(shape@, index@, from as int, i as int) == Some(position as int),
        decreases index@.len() - i,
    {
        let mut next: Option<usize> = None;
        if let (Some(dimension), Coordinate::Constant(Some(value))) = (shape[i], index[i]) {
            if value < dimension {
                if let Some(product) = position.checked_mul(dimension) {
                    next = product.checked_add(value);
                }
            }
        }
        match next {
            Some(next) => {
                position = next;
            },
            None => {
                proof {
                    assert(suffix_position(shape@, index@, from as int, i + 1) is None);
                    lemma_suffix_unknown(
                        shape@,
                        index@,
                        from as int,
                        i + 1,
                        index@.len() as int,
                    );
                }
                return None;
            },
        }
        i = i + 1;
    }
    Some(position)
}

proof fn lemma_suffix_unknown(
    shape: Seq<Option<usize>>,
    index: Seq<Coordinate>,
    from: int,
    at: int,
    to: int,
)
    requires
        from < at <= to,
        suffix_position(shape, index, from, at) is None,
    ensures
        suffix_position(shape, index, from, to) is None,
    decreases to - at,
{
    if at < to {
        lemma_suffix_unknown(shape, index, from, at, to - 1);
    }
}

/// The shape behind a reference.
pub open spec fn shape_of(shape: Option<&Vec<Option<usize>>>) -> Option<Vec<Option<usize>>> {
    match shape {
        Some(shape) => Some(*shape),
        None => None,
    }
}

/// The selection is that of an index into an array; `shape` is missing where the array is not known.
pub open spec fn is_selection(shape: Option<Vec<Option<usize>>>, index: Seq<Coordinate>, r: DestinationArraySelection) -> bool {
    &&& r.dynamic == (last_dynamic_of(index, index.len() as int) is Some)
    &&& match shape {
        None => r.period is None && r.phase == 0 && r.extent is None && r.static_filters@.len()
            == 0,
        Some(shape) => {
            &&& match r.extent {
                Some(extent) => index.len() <= shape@.len() && extent_of(
                    shape@,
                    index.len() as int,
                    shape@.len() as int,
                ) == Some(extent as int),
                None => index.len() > shape@.len() || extent_of(
                    shape@,
                    index.len() as int,
                    shape@.len() as int,
                ) is None,
            }
            &&& match (r.period, periodic_suffix(shape@, index)) {
                (Some(period), Some(suffix)) => period == suffix.0 && r.phase == suffix.1,
                (None, None) => r.phase == 0,
                _ => false,
            }
            &&& r.static_filters@ == filters_of(shape@, index, index.len() as int)
        },
    }
}

/// How an index selects elements of an array; `shape` is missing where the array is not known.
pub fn destination_array_selection(
    shape: Option<&Vec<Option<usize>>>,
    index: &Vec<Coordinate>,
) -> (r: DestinationArraySelection)
    ensures
        is_selection(shape_of(shape), index@, r),
{
    let last = last_dynamic(index);
    let dynamic: bool = last.is_some();
    match shape {
        None => DestinationArraySelection {
            dynamic,
            period: None,
            phase: 0,
            extent: None,
            static_filters: Vec::new(),
        },
        Some(shape) => {
            let mut selected: Option<usize> = None;
            let mut period: Option<usize> = None;
            let mut phase: usize = 0;
            if index.len() <= shape.len() {
                selected = extent(shape, index.len());
                if let (Some(last), Some(count)) = (last, selected) {
                    if let (Some(whole), Some(position)) = (
                        extent(shape, last + 1),
                        suffix(shape, index, last + 1),
                    ) {
                        if let Some(product) = position.checked_mul(count) {
                            period = Some(whole);
                            phase = product;
                        }
                    }
                }
            }
            DestinationArraySelection {
                dynamic,
                period,
                phase,
                extent: selected,
                static_filters: static_filters(shape, index),
            }
        },
    }
}

} // verus!
