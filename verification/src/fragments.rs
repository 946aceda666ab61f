//! How the bits of a port of an instance correspond to those of what it is connected to.
use vstd::prelude::*;
use crate::order;
use crate::order::{sort_dedup, Ordered};
use crate::relation::PositionRelation;
use crate::span::{signed_difference, ArraySpan, PackedSpan};

verus! {

/// A region of a variable of the child.
#[derive(Clone, Copy, Debug, PartialEq, Eq, Hash, Structural)]
pub struct SummaryRegion {
    pub id: u64,
    pub array: ArraySpan,
    pub packed: PackedSpan,
}

/// What is known about a port.
#[derive(Clone, Copy, Debug, PartialEq, Eq)]
pub struct Port {
    pub array: Option<usize>,
    pub width: Option<usize>,
    pub signed: bool,
}

/// A contiguous range of a parent's variable that a port is connected to.
#[derive(Clone, Copy, Debug, PartialEq, Eq)]
pub struct PortActual {
    pub parent: u64,
    pub array_start: usize,
    pub array_length: usize,
    pub packed_start: usize,
    pub packed_length: usize,
    pub signed: bool,
}

/// A region of a port and the region of the parent to which it corresponds.
#[derive(Clone, Copy, Debug, PartialEq, Eq, Structural)]
pub struct ActualFragment {
    pub parent: u64,
    /// The number of the actual of which this is a part.
    pub actual: usize,
    pub child_array: ArraySpan,
    pub child_packed: PackedSpan,
    pub parent_array: ArraySpan,
    pub parent_packed: PackedSpan,
    /// What is added to a position of the child for that of the parent; missing where all positions
    /// correspond to all.
    pub offset: PositionRelation,
}

impl ActualFragment {
    pub open spec fn wf(self) -> bool {
        self.child_packed.wf() && self.parent_packed.wf()
    }
}

/// The difference of two positions, where it fits.
pub open spec fn difference(left: int, right: int) -> Option<isize> {
    if isize::MIN <= left - right <= isize::MAX {
        Some((left - right) as isize)
    } else {
        None
    }
}

/// The axis offset between runs of elements: the difference of the starts where they are equally
/// long, and none where they are not. Without a value where the difference does not fit.
pub open spec fn array_offset(parent: ArraySpan, child: ArraySpan) -> Option<Option<isize>> {
    if parent.length == child.length {
        match difference(parent.start as int, child.start as int) {
            Some(offset) => Some(Some(offset)),
            None => None,
        }
    } else {
        Some(None)
    }
}

/// A part of an actual and the bits of the parent that hold it.
pub struct Segment {
    pub packed: PackedSpan,
    pub offset: Option<isize>,
}

/// Where a part of an actual lies in the parent: at the same distance from the start where the
/// actual and what holds it have the same width, and anywhere where they have not.
pub open spec fn segment_of(
    part: PackedSpan,
    actual: PackedSpan,
    parent: PackedSpan,
) -> Option<Segment> {
    if parent.length == actual.length {
        let start = parent.start + (part.start - actual.start);
        if part.start >= actual.start && start + part.length <= usize::MAX {
            match difference(start, part.start as int) {
                Some(offset) => Some(
                    Segment {
                        packed: PackedSpan { start: start as usize, length: part.length },
                        offset: Some(offset),
                    },
                ),
                None => None,
            }
        } else {
            None
        }
    } else {
        Some(Segment { packed: parent, offset: None })
    }
}

fn segment(part: PackedSpan, actual: PackedSpan, parent: PackedSpan) -> (r: Option<Segment>)
    requires
        part.wf(),
        actual.wf(),
        parent.wf(),
    ensures
        r == segment_of(part, actual, parent),
        r matches Some(s) ==> s.packed.wf(),
{
    if parent.length != actual.length {
        return Some(Segment { packed: parent, offset: None });
    }
    if part.start < actual.start {
        return None;
    }
    let relative: usize = part.start - actual.start;
    match parent.start.checked_add(relative) {
        None => None,
        Some(start) => match PackedSpan::new(start, part.length) {
            None => None,
            Some(packed) => match signed_difference(packed.start, part.start) {
                None => None,
                Some(offset) => Some(Segment { packed, offset: Some(offset) }),
            },
        },
    }
}

/// Where an actual takes its bits from.
#[derive(Clone, Copy, Debug, PartialEq, Eq, Structural)]
pub struct Placement {
    pub parent: u64,
    pub actual: usize,
    pub child_array: ArraySpan,
    /// The bits of the concatenated actual.
    pub actual_packed: PackedSpan,
    pub parent_array: ArraySpan,
    pub parent_packed: PackedSpan,
}

/// The part of an actual that is copied from the port.
pub open spec fn copied_part(placement: Placement, width: usize) -> Option<PackedSpan> {
    placement.actual_packed.common(PackedSpan { start: 0, length: width })
}

/// The part of an actual that lies beyond the port, and takes the sign of a signed one.
pub open spec fn extended_part(placement: Placement, width: usize, signed: bool) -> Option<PackedSpan> {
    let end = placement.actual_packed.start + placement.actual_packed.length;
    if signed && end > width {
        placement.actual_packed.common(
            PackedSpan { start: width, length: (end - width) as usize },
        )
    } else {
        None
    }
}

/// The fragment for a part of an actual.
pub open spec fn fragment_of(
    placement: Placement,
    child_packed: PackedSpan,
    segment: Segment,
    array: Option<isize>,
    packed: Option<isize>,
) -> ActualFragment {
    ActualFragment {
        parent: placement.parent,
        actual: placement.actual,
        child_array: placement.child_array,
        child_packed,
        parent_array: placement.parent_array,
        parent_packed: segment.packed,
        offset: PositionRelation { array, packed },
    }
}

/// The fragments of an actual that a port of `width` bits drives: the bits in common as they are,
/// and the bits beyond by the sign bit of a signed port.
pub open spec fn coerced(placement: Placement, width: usize, signed: bool) -> Option<
    Seq<ActualFragment>,
> {
    if width == 0 {
        None
    } else {
        match (
            array_offset(placement.parent_array, placement.child_array),
            copied_fragments(placement, width),
            extended_fragments(placement, width, signed),
        ) {
            (Some(_), Some(copied), Some(extended)) => Some(copied + extended),
            _ => None,
        }
    }
}

pub open spec fn copied_fragments(placement: Placement, width: usize) -> Option<
    Seq<ActualFragment>,
> {
    match copied_part(placement, width) {
        None => Some(Seq::empty()),
        Some(part) => match segment_of(part, placement.actual_packed, placement.parent_packed) {
            None => None,
            Some(segment) => Some(
                seq![
                    fragment_of(
                        placement,
                        part,
                        segment,
                        array_offset(placement.parent_array, placement.child_array)->0,
                        segment.offset,
                    ),
                ],
            ),
        },
    }
}

pub open spec fn extended_fragments(placement: Placement, width: usize, signed: bool) -> Option<
    Seq<ActualFragment>,
> {
    match extended_part(placement, width, signed) {
        None => Some(Seq::empty()),
        Some(part) => match segment_of(part, placement.actual_packed, placement.parent_packed) {
            None => None,
            Some(segment) => Some(
                seq![
                    fragment_of(
                        placement,
                        PackedSpan { start: (width - 1) as usize, length: 1 },
                        segment,
                        array_offset(placement.parent_array, placement.child_array)->0,
                        None,
                    ),
                ],
            ),
        },
    }
}

pub open spec fn fragments_wf(fragments: Seq<ActualFragment>) -> bool {
    forall|i: int| 0 <= i < fragments.len() ==> (#[trigger] fragments[i]).wf()
}

/// Appends the fragments of an actual. Where one does not fit there is no answer, and part of them
/// may have been appended.
pub fn append_coerced_actual_fragments(
    fragments: &mut Vec<ActualFragment>,
    placement: Placement,
    width: usize,
    signed: bool,
) -> (r: Option<()>)
    requires
        placement.actual_packed.wf(),
        placement.parent_packed.wf(),
        fragments_wf(old(fragments)@),
    ensures
        fragments_wf(final(fragments)@),
        r is Some <==> coerced(placement, width, signed) is Some,
        r is Some ==> final(fragments)@ == old(fragments)@ + coerced(placement, width, signed)->0,
{
    let ghost before = fragments@;
    let array: Option<isize> = if placement.parent_array.length == placement.child_array.length {
        match signed_difference(placement.parent_array.start, placement.child_array.start) {
            Some(offset) => Some(offset),
            None => {
                return None;
            },
        }
    } else {
        None
    };
    if width == 0 {
        return None;
    }
    let end: usize = placement.actual_packed.end();
    let copied_width: usize = if width < end {
        width
    } else {
        end
    };
    let window = PackedSpan { start: 0, length: copied_width };
    let copied = placement.actual_packed.intersection(window);
    proof {
        assert(copied == copied_part(placement, width));
    }
    let ghost mut first: Seq<ActualFragment> = Seq::empty();
    if let Some(part) = copied {
        match segment(part, placement.actual_packed, placement.parent_packed) {
            None => {
                return None;
            },
            Some(held) => {
                let fragment = ActualFragment {
                    parent: placement.parent,
                    actual: placement.actual,
                    child_array: placement.child_array,
                    child_packed: part,
                    parent_array: placement.parent_array,
                    parent_packed: held.packed,
                    offset: PositionRelation { array, packed: held.offset },
                };
                fragments.push(fragment);
                proof {
                    first = seq![fragment];
                    assert(copied_fragments(placement, width) == Some(first));
                    assert(fragments@ =~= before + first);
                }
            },
        }
    } else {
        assert(fragments@ =~= before + first);
        assert(copied_fragments(placement, width) == Some(first));
    }
    if signed && end > width {
        let beyond = PackedSpan { start: width, length: end - width };
        let extension = placement.actual_packed.intersection(beyond);
        assert(extension == extended_part(placement, width, signed));
        if let Some(part) = extension {
            match segment(part, placement.actual_packed, placement.parent_packed) {
                None => {
                    return None;
                },
                Some(held) => {
                    let fragment = ActualFragment {
                        parent: placement.parent,
                        actual: placement.actual,
                        child_array: placement.child_array,
                        child_packed: PackedSpan { start: width - 1, length: 1 },
                        parent_array: placement.parent_array,
                        parent_packed: held.packed,
                        offset: PositionRelation { array, packed: None },
                    };
                    fragments.push(fragment);
                    proof {
                        assert(extended_fragments(placement, width, signed) == Some(seq![fragment]));
                        assert(fragments@ =~= before + (first + seq![fragment]));
                    }
                    return Some(());
                },
            }
        }
    }
    proof {
        assert(extended_part(placement, width, signed) is None);
        assert(first + Seq::<ActualFragment>::empty() =~= first);
    }
    Some(())
}

/// An actual of an output: the one region that it selects, with its size.
#[derive(Clone, Copy, Debug, PartialEq, Eq, Structural)]
pub struct OutputActual {
    pub parent: u64,
    pub array: ArraySpan,
    pub packed: PackedSpan,
    pub array_length: usize,
    pub packed_width: usize,
}

/// The number of elements of the first `count` actuals.
pub open spec fn total_length(actuals: Seq<OutputActual>, count: int) -> int
    decreases count,
{
    if count <= 0 {
        0
    } else {
        total_length(actuals, count - 1) + actuals[count - 1].array_length
    }
}

/// The number of bits of the actuals from `from` on.
pub open spec fn total_width(actuals: Seq<OutputActual>, from: int) -> int
    decreases actuals.len() - from,
{
    if from >= actuals.len() {
        0
    } else {
        total_width(actuals, from + 1) + actuals[from].packed_width
    }
}

/// Where an actual lies if the actuals follow each other in the array.
pub open spec fn array_placement(actuals: Seq<OutputActual>, i: int) -> Placement {
    Placement {
        parent: actuals[i].parent,
        actual: i as usize,
        child_array: ArraySpan {
            start: total_length(actuals, i) as usize,
            length: actuals[i].array_length,
        },
        actual_packed: PackedSpan { start: 0, length: actuals[i].packed_width },
        parent_array: actuals[i].array,
        parent_packed: actuals[i].packed,
    }
}

/// Where an actual lies if the actuals are concatenated, the last at the lowest bits.
pub open spec fn packed_placement(actuals: Seq<OutputActual>, i: int) -> Placement {
    Placement {
        parent: actuals[i].parent,
        actual: i as usize,
        child_array: ArraySpan { start: 0, length: 1 },
        actual_packed: PackedSpan {
            start: total_width(actuals, i + 1) as usize,
            length: actuals[i].packed_width,
        },
        parent_array: actuals[i].array,
        parent_packed: actuals[i].packed,
    }
}

/// The fragments of the first `count` actuals; nothing where one of them has none.
pub open spec fn fragments_of(
    actuals: Seq<OutputActual>,
    in_array: bool,
    width: usize,
    signed: bool,
    count: int,
) -> Option<Seq<ActualFragment>>
    decreases count,
{
    if count <= 0 {
        Some(Seq::empty())
    } else {
        let placement = if in_array {
            array_placement(actuals, count - 1)
        } else {
            packed_placement(actuals, count - 1)
        };
        match (
            fragments_of(actuals, in_array, width, signed, count - 1),
            if actuals[count - 1].packed_width == 0 {
                None
            } else {
                coerced(placement, width, signed)
            },
        ) {
            (Some(before), Some(more)) => Some(before + more),
            _ => None,
        }
    }
}

/// The actuals have one element each.
pub open spec fn all_single(actuals: Seq<OutputActual>) -> bool {
    forall|i: int| 0 <= i < actuals.len() ==> (#[trigger] actuals[i]).array_length == 1
}

/// The fragments of the actuals of an output port: they share out its elements, or, where it has one
/// element and each of them has one, its bits.
pub open spec fn actual_fragments_of(port: Port, actuals: Seq<OutputActual>) -> Option<
    Seq<ActualFragment>,
> {
    match (port.array, port.width) {
        (Some(length), Some(width)) => {
            let count = actuals.len() as int;
            if total_length(actuals, count) > usize::MAX {
                None
            } else if total_length(actuals, count) == length {
                fragments_of(actuals, true, width, port.signed, count)
            } else if total_width(actuals, 0) > usize::MAX || length != 1 || !all_single(actuals) {
                None
            } else {
                fragments_of(actuals, false, width, port.signed, count)
            }
        },
        _ => None,
    }
}

proof fn lemma_total_length(actuals: Seq<OutputActual>, a: int, b: int)
    requires
        0 <= a <= b <= actuals.len(),
    ensures
        0 <= total_length(actuals, a) <= total_length(actuals, b),
    decreases b,
{
    if b > 0 {
        if a < b {
            lemma_total_length(actuals, a, b - 1);
        } else {
            lemma_total_length(actuals, a - 1, b - 1);
        }
    }
}

proof fn lemma_total_width(actuals: Seq<OutputActual>, a: int, b: int)
    requires
        0 <= a <= b <= actuals.len(),
    ensures
        0 <= total_width(actuals, b) <= total_width(actuals, a),
    decreases actuals.len() - a,
{
    if a < actuals.len() {
        if a < b {
            lemma_total_width(actuals, a + 1, b);
        } else {
            lemma_total_width(actuals, a + 1, b + 1);
        }
    }
}

proof fn lemma_fragments_missing(
    actuals: Seq<OutputActual>,
    in_array: bool,
    width: usize,
    signed: bool,
    at: int,
    count: int,
)
    requires
        0 < at <= count,
        fragments_of(actuals, in_array, width, signed, at) is None,
    ensures
        fragments_of(actuals, in_array, width, signed, count) is None,
    decreases count - at,
{
    if at < count {
        lemma_fragments_missing(actuals, in_array, width, signed, at, count - 1);
    }
}

/// The fragments of the actuals of an output port.
pub fn actual_fragments(port: Port, actuals: &Vec<OutputActual>) -> (r: Option<Vec<ActualFragment>>)
    requires
        forall|i: int| 0 <= i < actuals@.len() ==> (#[trigger] actuals@[i]).packed.wf(),
    ensures
        match r {
            Some(list) => actual_fragments_of(port, actuals@) == Some(list@) && fragments_wf(list@),
            None => actual_fragments_of(port, actuals@) is None,
        },
{
    let (length, width) = match (port.array, port.width) {
        (Some(length), Some(width)) => (length, width),
        _ => {
            return None;
        },
    };
    let ghost count = actuals@.len() as int;
    let mut total: usize = 0;
    let mut single: bool = true;
    let mut i: usize = 0;
    while i < actuals.len()
        invariant
            i <= actuals@.len(),
            count == actuals@.len(),
            port.array == Some(length),
            port.width == Some(width),
            total == total_length(actuals@, i as int),
            single == forall|k: int| 0 <= k < i ==> (#[trigger] actuals@[k]).array_length == 1,
        decreases actuals@.len() - i,
    {
        match total.checked_add(actuals[i].array_length) {
            Some(next) => {
                total = next;
            },
            None => {
                proof {
                    lemma_total_length(actuals@, i + 1, count);
                }
                return None;
            },
        }
        if actuals[i].array_length != 1 {
            single = false;
        }
        i = i + 1;
    }
    let in_array: bool = total == length;
    let mut remaining: usize = 0;
    if !in_array {
        let mut j: usize = actuals.len();
        while j > 0
            invariant
                j <= actuals@.len(),
                count == actuals@.len(),
                port.array == Some(length),
                port.width == Some(width),
                total_length(actuals@, count) == total,
                total != length,
                remaining == total_width(actuals@, j as int),
            decreases j,
        {
            j = j - 1;
            match remaining.checked_add(actuals[j].packed_width) {
                Some(next) => {
                    remaining = next;
                },
                None => {
                    proof {
                        lemma_total_width(actuals@, 0, j as int);
                    }
                    return None;
                },
            }
        }
        if length != 1 || !single {
            return None;
        }
    }
    let mut fragments: Vec<ActualFragment> = Vec::new();
    let mut start: usize = 0;
    let mut k: usize = 0;
    while k < actuals.len()
        invariant
            k <= actuals@.len(),
            count == actuals@.len(),
            port.array == Some(length),
            port.width == Some(width),
            forall|i: int| 0 <= i < actuals@.len() ==> (#[trigger] actuals@[i]).packed.wf(),
            total_length(actuals@, count) <= usize::MAX,
            in_array == (total_length(actuals@, count) == length),
            !in_array ==> total_width(actuals@, 0) <= usize::MAX && length == 1 && all_single(actuals@),
            in_array ==> start == total_length(actuals@, k as int),
            !in_array ==> remaining == total_width(actuals@, k as int),
            fragments_wf(fragments@),
            fragments_of(actuals@, in_array, width, port.signed, k as int) == Some(fragments@),
        decreases actuals@.len() - k,
    {
        let actual = actuals[k];
        let ghost before = fragments@;
        proof {
            lemma_total_length(actuals@, k + 1, count);
            lemma_total_length(actuals@, k as int, count);
            lemma_total_width(actuals@, k as int, k + 1);
        }
        if actual.packed_width == 0 {
            proof {
                lemma_fragments_missing(actuals@, in_array, width, port.signed, k + 1, count);
            }
            return None;
        }
        if !in_array {
            remaining = remaining - actual.packed_width;
        }
        let child_array = if in_array {
            ArraySpan { start, length: actual.array_length }
        } else {
            ArraySpan { start: 0, length: 1 }
        };
        let actual_packed = if in_array {
            PackedSpan { start: 0, length: actual.packed_width }
        } else {
            PackedSpan { start: remaining, length: actual.packed_width }
        };
        let placement = Placement {
            parent: actual.parent,
            actual: k,
            child_array,
            actual_packed,
            parent_array: actual.array,
            parent_packed: actual.packed,
        };
        proof {
            if !in_array {
                lemma_total_width(actuals@, 0, k as int);
            }
            assert(placement.actual_packed.wf());
            assert(placement == (if in_array {
                array_placement(actuals@, k as int)
            } else {
                packed_placement(actuals@, k as int)
            }));
        }
        if append_coerced_actual_fragments(&mut fragments, placement, width, port.signed).is_none() {
            proof {
                lemma_fragments_missing(actuals@, in_array, width, port.signed, k + 1, count);
            }
            return None;
        }
        if in_array {
            start = start + actual.array_length;
        }
        k = k + 1;
    }
    Some(fragments)
}

/// The whole port as one fragment, where it has the size of the actual.
pub open spec fn contiguous_of(port: Port, actual: PortActual) -> Option<ActualFragment> {
    let packed = PackedSpan { start: actual.packed_start, length: actual.packed_length };
    match (
        difference(actual.array_start as int, 0),
        difference(actual.packed_start as int, 0),
    ) {
        (Some(array), Some(low)) => if port.array == Some(actual.array_length) && port.width == Some(
            actual.packed_length,
        ) && packed.wf() {
            Some(
                ActualFragment {
                    parent: actual.parent,
                    actual: 0,
                    child_array: ArraySpan { start: 0, length: actual.array_length },
                    child_packed: PackedSpan { start: 0, length: actual.packed_length },
                    parent_array: ArraySpan {
                        start: actual.array_start,
                        length: actual.array_length,
                    },
                    parent_packed: packed,
                    offset: PositionRelation { array: Some(array), packed: Some(low) },
                },
            )
        } else {
            None
        },
        _ => None,
    }
}

/// The whole port as one fragment, where it has the size of the actual.
pub fn contiguous_actual_fragment(port: Port, actual: PortActual) -> (r: Option<ActualFragment>)
    ensures
        r == contiguous_of(port, actual),
        r matches Some(fragment) ==> fragment.wf(),
{
    let (length, width) = match (port.array, port.width) {
        (Some(length), Some(width)) => (length, width),
        _ => {
            return None;
        },
    };
    if length != actual.array_length || width != actual.packed_length {
        return None;
    }
    let child_packed = match PackedSpan::whole(width) {
        Some(span) => span,
        None => {
            return None;
        },
    };
    let parent_packed = match PackedSpan::new(actual.packed_start, actual.packed_length) {
        Some(span) => span,
        None => {
            return None;
        },
    };
    match (signed_difference(actual.array_start, 0), signed_difference(actual.packed_start, 0)) {
        (Some(array), Some(packed)) => Some(
            ActualFragment {
                parent: actual.parent,
                actual: 0,
                child_array: ArraySpan { start: 0, length },
                child_packed,
                parent_array: ArraySpan { start: actual.array_start, length: actual.array_length },
                parent_packed,
                offset: PositionRelation { array: Some(array), packed: Some(packed) },
            },
        ),
        _ => None,
    }
}

/// Where a contiguous actual lies.
pub open spec fn contiguous_placement(actual: PortActual) -> Placement {
    Placement {
        parent: actual.parent,
        actual: 0,
        child_array: ArraySpan { start: 0, length: actual.array_length },
        actual_packed: PackedSpan { start: 0, length: actual.packed_length },
        parent_array: ArraySpan { start: actual.array_start, length: actual.array_length },
        parent_packed: PackedSpan { start: actual.packed_start, length: actual.packed_length },
    }
}

/// The fragments of a contiguous actual of an output port; they may have different widths.
pub fn coerced_contiguous_actual_fragments(port: Port, actual: PortActual) -> (r: Option<
    Vec<ActualFragment>,
>)
    ensures
        match r {
            Some(list) => {
                &&& port.array == Some(actual.array_length)
                &&& port.width is Some
                &&& contiguous_placement(actual).parent_packed.wf()
                &&& coerced(contiguous_placement(actual), port.width->0, port.signed) == Some(list@)
                &&& fragments_wf(list@)
            },
            None => {
                ||| port.array != Some(actual.array_length)
                ||| port.width is None
                ||| !contiguous_placement(actual).parent_packed.wf()
                ||| coerced(contiguous_placement(actual), port.width->0, port.signed) is None
            },
        },
{
    let (length, width) = match (port.array, port.width) {
        (Some(length), Some(width)) => (length, width),
        _ => {
            return None;
        },
    };
    if length != actual.array_length {
        return None;
    }
    let parent_packed = match PackedSpan::new(actual.packed_start, actual.packed_length) {
        Some(span) => span,
        None => {
            return None;
        },
    };
    let mut fragments: Vec<ActualFragment> = Vec::new();
    let placement = Placement {
        parent: actual.parent,
        actual: 0,
        child_array: ArraySpan { start: 0, length: actual.array_length },
        actual_packed: PackedSpan { start: 0, length: actual.packed_length },
        parent_array: ArraySpan { start: actual.array_start, length: actual.array_length },
        parent_packed,
    };
    match append_coerced_actual_fragments(&mut fragments, placement, width, port.signed) {
        Some(_) => {
            proof {
                assert(fragments@ =~= coerced(placement, width, port.signed)->0);
            }
            Some(fragments)
        },
        None => None,
    }
}

/// The fragments of a contiguous actual of an input port: the bits in common as they are, and the
/// bits of the port beyond by the sign bit of a signed actual.
pub open spec fn input_fragments_of(port: Port, actual: PortActual) -> Option<Seq<ActualFragment>> {
    match (port.array, port.width, difference(actual.array_start as int, 0)) {
        (Some(length), Some(width), Some(array)) => if length != actual.array_length {
            None
        } else {
            match (
                input_copied(actual, width, array),
                input_extended(actual, width, array),
            ) {
                (Some(copied), Some(extended)) => Some(copied + extended),
                _ => None,
            }
        },
        _ => None,
    }
}

/// The bits that an input port has in common with its actual.
pub open spec fn input_copied(actual: PortActual, width: usize, array: isize) -> Option<
    Seq<ActualFragment>,
> {
    let copied = if width < actual.packed_length {
        width
    } else {
        actual.packed_length
    };
    if copied == 0 {
        Some(Seq::empty())
    } else if actual.packed_start + copied > usize::MAX {
        None
    } else {
        match difference(actual.packed_start as int, 0) {
            None => None,
            Some(low) => Some(
                seq![
                    ActualFragment {
                        parent: actual.parent,
                        actual: 0,
                        child_array: ArraySpan { start: 0, length: actual.array_length },
                        child_packed: PackedSpan { start: 0, length: copied },
                        parent_array: ArraySpan {
                            start: actual.array_start,
                            length: actual.array_length,
                        },
                        parent_packed: PackedSpan { start: actual.packed_start, length: copied },
                        offset: PositionRelation { array: Some(array), packed: Some(low) },
                    },
                ],
            ),
        }
    }
}

/// The bits of an input port that take the sign of its actual.
pub open spec fn input_extended(actual: PortActual, width: usize, array: isize) -> Option<
    Seq<ActualFragment>,
> {
    if actual.signed && actual.packed_length != 0 && width > actual.packed_length {
        if actual.packed_start + actual.packed_length > usize::MAX {
            None
        } else {
            Some(
                seq![
                    ActualFragment {
                        parent: actual.parent,
                        actual: 0,
                        child_array: ArraySpan { start: 0, length: actual.array_length },
                        child_packed: PackedSpan {
                            start: actual.packed_length,
                            length: (width - actual.packed_length) as usize,
                        },
                        parent_array: ArraySpan {
                            start: actual.array_start,
                            length: actual.array_length,
                        },
                        parent_packed: PackedSpan {
                            start: (actual.packed_start + actual.packed_length - 1) as usize,
                            length: 1,
                        },
                        offset: PositionRelation { array: Some(array), packed: None },
                    },
                ],
            )
        }
    } else {
        Some(Seq::empty())
    }
}

/// The fragments of a contiguous actual of an input port.
pub fn coerced_input_contiguous_actual_fragments(port: Port, actual: PortActual) -> (r: Option<
    Vec<ActualFragment>,
>)
    ensures
        match r {
            Some(list) => input_fragments_of(port, actual) == Some(list@) && fragments_wf(list@),
            None => input_fragments_of(port, actual) is None,
        },
{
    let (length, width) = match (port.array, port.width) {
        (Some(length), Some(width)) => (length, width),
        _ => {
            return None;
        },
    };
    if length != actual.array_length {
        return None;
    }
    let array: isize = match signed_difference(actual.array_start, 0) {
        Some(array) => array,
        None => {
            return None;
        },
    };
    let child_array = ArraySpan { start: 0, length };
    let parent_array = ArraySpan { start: actual.array_start, length: actual.array_length };
    let mut fragments: Vec<ActualFragment> = Vec::new();
    let copied: usize = if width < actual.packed_length {
        width
    } else {
        actual.packed_length
    };
    if copied != 0 {
        let parent_packed = match PackedSpan::new(actual.packed_start, copied) {
            Some(span) => span,
            None => {
                return None;
            },
        };
        match signed_difference(actual.packed_start, 0) {
            Some(packed) => {
                fragments.push(
                    ActualFragment {
                        parent: actual.parent,
                        actual: 0,
                        child_array,
                        child_packed: PackedSpan { start: 0, length: copied },
                        parent_array,
                        parent_packed,
                        offset: PositionRelation { array: Some(array), packed: Some(packed) },
                    },
                );
            },
            None => {
                return None;
            },
        }
    }
    let ghost first = fragments@;
    proof {
        assert(input_copied(actual, width, array) is Some);
        assert(input_copied(actual, width, array)->0 =~= first);
    }
    if actual.signed && actual.packed_length != 0 && width > actual.packed_length {
        let sign: usize = match actual.packed_start.checked_add(actual.packed_length - 1) {
            Some(sign) => sign,
            None => {
                return None;
            },
        };
        let parent_packed = match PackedSpan::new(sign, 1) {
            Some(span) => span,
            None => {
                return None;
            },
        };
        fragments.push(
            ActualFragment {
                parent: actual.parent,
                actual: 0,
                child_array,
                child_packed: PackedSpan {
                    start: actual.packed_length,
                    length: width - actual.packed_length,
                },
                parent_array,
                parent_packed,
                offset: PositionRelation { array: Some(array), packed: None },
            },
        );
    }
    proof {
        assert(input_extended(actual, width, array) is Some);
        assert(fragments@ =~= first + input_extended(actual, width, array)->0);
    }
    Some(fragments)
}

/// A region of the parent that a region of the child corresponds to.
#[derive(Clone, Copy, Debug, PartialEq, Eq, Structural)]
pub struct TranslatedFragmentAccess {
    pub parent: u64,
    pub actual: usize,
    pub array: ArraySpan,
    pub packed: PackedSpan,
    pub offset: PositionRelation,
    pub child_domain: SummaryRegion,
}

/// The region has an element and a bit of the fragment.
pub open spec fn hits(region: SummaryRegion, fragment: ActualFragment) -> bool {
    region.array.common(fragment.child_array) is Some && region.packed.common(
        fragment.child_packed,
    ) is Some
}

/// The start of a part, seen from the parent.
pub open spec fn seen_from(part: usize, child: usize, parent: usize) -> int {
    part - child + parent
}

/// The part of a fragment that a region hits, with the corresponding region of the parent; nothing
/// where that does not fit.
pub open spec fn translation(region: SummaryRegion, fragment: ActualFragment) -> Option<
    TranslatedFragmentAccess,
> {
    let array = region.array.common(fragment.child_array)->0;
    let packed = region.packed.common(fragment.child_packed)->0;
    let array_start = seen_from(
        array.start,
        fragment.child_array.start,
        fragment.parent_array.start,
    );
    let packed_start = seen_from(
        packed.start,
        fragment.child_packed.start,
        fragment.parent_packed.start,
    );
    if fragment.offset.array is Some && array_start + array.length > usize::MAX {
        None
    } else if fragment.offset.packed is Some && packed_start + packed.length > usize::MAX {
        None
    } else {
        Some(
            TranslatedFragmentAccess {
                parent: fragment.parent,
                actual: fragment.actual,
                array: if fragment.offset.array is Some {
                    ArraySpan { start: array_start as usize, length: array.length }
                } else {
                    fragment.parent_array
                },
                packed: if fragment.offset.packed is Some {
                    PackedSpan { start: packed_start as usize, length: packed.length }
                } else {
                    fragment.parent_packed
                },
                offset: fragment.offset,
                child_domain: SummaryRegion { id: region.id, array, packed },
            },
        )
    }
}

/// What a region corresponds to through one fragment: nothing where it does not hit it.
fn translate_actual_fragment(region: SummaryRegion, fragment: ActualFragment) -> (r: Option<
    Option<TranslatedFragmentAccess>,
>)
    requires
        region.packed.wf(),
        fragment.wf(),
    ensures
        r is Some <==> hits(region, fragment),
        r matches Some(t) ==> t == translation(region, fragment),
        r matches Some(Some(t)) ==> t.packed.wf() && t.child_domain.packed.wf(),
{
    let array = match region.array.intersection(fragment.child_array) {
        Some(array) => array,
        None => {
            return None;
        },
    };
    let packed = match region.packed.intersection(fragment.child_packed) {
        Some(packed) => packed,
        None => {
            return None;
        },
    };
    let parent_array = if fragment.offset.array.is_some() {
        match array.translated(fragment.child_array.start, fragment.parent_array.start) {
            Some(span) => span,
            None => {
                return Some(None);
            },
        }
    } else {
        fragment.parent_array
    };
    let parent_packed = if fragment.offset.packed.is_some() {
        match packed.translated(fragment.child_packed.start, fragment.parent_packed.start) {
            Some(span) => span,
            None => {
                return Some(None);
            },
        }
    } else {
        fragment.parent_packed
    };
    Some(
        Some(
            TranslatedFragmentAccess {
                parent: fragment.parent,
                actual: fragment.actual,
                array: parent_array,
                packed: parent_packed,
                offset: fragment.offset,
                child_domain: SummaryRegion { id: region.id, array, packed },
            },
        ),
    )
}

/// What a region corresponds to through the first `count` fragments, in their order; nothing where
/// one of the translations does not fit.
pub open spec fn translations(
    region: SummaryRegion,
    fragments: Seq<ActualFragment>,
    count: int,
) -> Option<Seq<TranslatedFragmentAccess>>
    decreases count,
{
    if count <= 0 {
        Some(Seq::empty())
    } else {
        match translations(region, fragments, count - 1) {
            None => None,
            Some(before) => if !hits(region, fragments[count - 1]) {
                Some(before)
            } else {
                match translation(region, fragments[count - 1]) {
                    Some(access) => Some(before.push(access)),
                    None => None,
                }
            },
        }
    }
}

proof fn lemma_translations_missing(
    region: SummaryRegion,
    fragments: Seq<ActualFragment>,
    at: int,
    count: int,
)
    requires
        0 <= at <= count,
        translations(region, fragments, at) is None,
    ensures
        translations(region, fragments, count) is None,
    decreases count - at,
{
    if at < count {
        lemma_translations_missing(region, fragments, at, count - 1);
    }
}

pub open spec fn translated_wf(list: Seq<TranslatedFragmentAccess>) -> bool {
    forall|i: int|
        0 <= i < list.len() ==> (#[trigger] list[i]).packed.wf()
            && list[i].child_domain.packed.wf()
}

/// What a region corresponds to through fragments.
pub fn translate_actual_fragments(region: SummaryRegion, fragments: &Vec<ActualFragment>) -> (r:
    Option<Vec<TranslatedFragmentAccess>>)
    requires
        region.packed.wf(),
        fragments_wf(fragments@),
    ensures
        match r {
            Some(list) => translations(region, fragments@, fragments@.len() as int) == Some(list@)
                && translated_wf(list@),
            None => translations(region, fragments@, fragments@.len() as int) is None,
        },
{
    let mut list: Vec<TranslatedFragmentAccess> = Vec::new();
    let mut i: usize = 0;
    while i < fragments.len()
        invariant
            i <= fragments@.len(),
            region.packed.wf(),
            fragments_wf(fragments@),
            translated_wf(list@),
            translations(region, fragments@, i as int) == Some(list@),
        decreases fragments@.len() - i,
    {
        match translate_actual_fragment(region, fragments[i]) {
            None => {},
            Some(Some(access)) => {
                list.push(access);
            },
            Some(None) => {
                proof {
                    assert(translations(region, fragments@, i + 1) is None);
                    lemma_translations_missing(region, fragments@, i + 1, fragments@.len() as int);
                }
                return None;
            },
        }
        i = i + 1;
    }
    Some(list)
}

/// Where an interval starts, and whose it is.
#[derive(Clone, Copy, Debug, PartialEq, Eq, Structural)]
pub struct StartOf {
    pub start: usize,
    pub index: usize,
}

impl Ordered for StartOf {
    open spec fn lt(self, other: Self) -> bool {
        self.start < other.start || (self.start == other.start && self.index < other.index)
    }

    proof fn lt_irreflexive(a: Self) {
    }

    proof fn lt_transitive(a: Self, b: Self, c: Self) {
    }

    proof fn lt_total(a: Self, b: Self) {
    }

    fn less(self, other: Self) -> (r: bool) {
        self.start < other.start || (self.start == other.start && self.index < other.index)
    }
}

/// An interval.
#[derive(Clone, Copy, Debug, PartialEq, Eq, Structural)]
pub struct Ends {
    pub start: usize,
    pub end: usize,
}

/// Intervals by their starts, with the greatest end so far.
pub struct FragmentIntervalOrder {
    pub indices: Vec<StartOf>,
    pub prefix_max_end: Vec<usize>,
}

impl FragmentIntervalOrder {
    pub open spec fn wf(self, intervals: Seq<Ends>) -> bool {
        &&& order::strictly_sorted(self.indices@)
        &&& forall|s: StartOf| #[trigger]
            self.indices@.contains(s) <==> s.index < intervals.len() && intervals[s.index as int].start
                == s.start
        &&& self.prefix_max_end@.len() == self.indices@.len()
        &&& forall|i: int, k: int|
            0 <= k <= i < self.indices@.len() ==> intervals[(#[trigger] self.indices@[k]).index as int].end
                <= #[trigger] self.prefix_max_end@[i]
        &&& forall|i: int, k: int|
            0 <= i <= k < self.indices@.len() ==> #[trigger] self.prefix_max_end@[i]
                <= #[trigger] self.prefix_max_end@[k]
    }

    fn new(intervals: &Vec<Ends>) -> (r: Self)
        ensures
            r.wf(intervals@),
    {
        let mut starts: Vec<StartOf> = Vec::new();
        let mut i: usize = 0;
        while i < intervals.len()
            invariant
                i <= intervals@.len(),
                starts@.len() == i,
                forall|k: int| 0 <= k < i ==> (#[trigger] starts@[k]).index == k && starts@[k].start == intervals@[k].start,
            decreases intervals@.len() - i,
        {
            starts.push(StartOf { start: intervals[i].start, index: i });
            i = i + 1;
        }
        let indices = sort_dedup(&starts);
        proof {
            assert forall|s: StartOf| #[trigger] indices@.contains(s) <==> s.index < intervals@.len() && intervals@[s.index as int].start == s.start by {
                if indices@.contains(s) {
                    assert(starts@.contains(s));
                }
                if s.index < intervals@.len() && intervals@[s.index as int].start == s.start {
                    assert(starts@[s.index as int] == s);
                    assert(starts@.contains(s));
                }
            }
        }
        let mut ends: Vec<usize> = Vec::new();
        let mut top: usize = 0;
        let mut j: usize = 0;
        while j < indices.len()
            invariant
                j <= indices@.len(),
                ends@.len() == j,
                forall|s: StartOf| #[trigger]
                    indices@.contains(s) <==> s.index < intervals@.len() && intervals@[s.index as int].start == s.start,
                forall|k: int| 0 <= k < j ==> intervals@[(#[trigger] indices@[k]).index as int].end <= top,
                forall|i: int| 0 <= i < j ==> #[trigger] ends@[i] <= top,
                forall|i: int, k: int| 0 <= k <= i < j ==> intervals@[(#[trigger] indices@[k]).index as int].end <= #[trigger] ends@[i],
                forall|i: int, k: int| 0 <= i <= k < j ==> #[trigger] ends@[i] <= #[trigger] ends@[k],
            decreases indices@.len() - j,
        {
            assert(indices@.contains(indices@[j as int]));
            let end: usize = intervals[indices[j].index].end;
            if end > top {
                top = end;
            }
            ends.push(top);
            j = j + 1;
        }
        FragmentIntervalOrder { indices, prefix_max_end: ends }
    }

    /// The run of the order that holds every interval which has a position from `start` to `end`.
    fn candidate_range(&self, Ghost(intervals): Ghost<Seq<Ends>>, start: usize, end: usize) -> (r: (
        usize,
        usize,
    ))
        requires
            self.wf(intervals),
        ensures
            r.0 <= r.1 <= self.indices@.len(),
            forall|p: int|
                0 <= p < self.indices@.len() && (#[trigger] self.indices@[p]).start < end
                    && intervals[self.indices@[p].index as int].end > start ==> r.0 <= p < r.1,
    {
        let mut first: usize = 0;
        let mut high: usize = self.prefix_max_end.len();
        while first < high
            invariant
                self.wf(intervals),
                first <= high <= self.indices@.len(),
                forall|p: int| 0 <= p < first ==> #[trigger] self.prefix_max_end@[p] <= start,
            decreases high - first,
        {
            let middle: usize = first + (high - first) / 2;
            if self.prefix_max_end[middle] <= start {
                proof {
                    assert forall|p: int| 0 <= p < middle + 1 implies #[trigger] self.prefix_max_end@[p] <= start by {
                        assert(self.prefix_max_end@[p] <= self.prefix_max_end@[middle as int]);
                    }
                }
                first = middle + 1;
            } else {
                high = middle;
            }
        }
        let mut last: usize = 0;
        let mut top: usize = self.indices.len();
        while last < top
            invariant
                self.wf(intervals),
                last <= top <= self.indices@.len(),
                forall|p: int| top <= p < self.indices@.len() ==> (#[trigger] self.indices@[p]).start >= end,
            decreases top - last,
        {
            let middle: usize = last + (top - last) / 2;
            if self.indices[middle].start < end {
                last = middle + 1;
            } else {
                proof {
                    assert forall|p: int| middle <= p < self.indices@.len() implies (#[trigger] self.indices@[p]).start >= end by {
                        if p > middle {
                            assert(self.indices@[middle as int].lt(self.indices@[p]));
                        }
                    }
                }
                top = middle;
            }
        }
        let from: usize = if first < last {
            first
        } else {
            last
        };
        proof {
            assert forall|p: int| 0 <= p < self.indices@.len() && (#[trigger] self.indices@[p]).start < end
                && intervals[self.indices@[p].index as int].end > start implies from <= p < last by {
                if p < first {
                    assert(self.prefix_max_end@[p] <= start);
                    assert(intervals[self.indices@[p].index as int].end <= self.prefix_max_end@[p]);
                }
            }
        }
        (from, last)
    }
}

/// The fragments of an output port, in an order that finds those that a region hits.
pub struct ActualFragmentLayout {
    pub fragments: Vec<ActualFragment>,
    pub array: FragmentIntervalOrder,
    pub packed: FragmentIntervalOrder,
}

/// The elements of a fragment as an interval.
pub open spec fn array_ends(span: ArraySpan) -> Ends {
    Ends {
        start: span.start,
        end: if span.bounded() {
            (span.start + span.length) as usize
        } else {
            usize::MAX
        },
    }
}

pub open spec fn array_intervals(fragments: Seq<ActualFragment>) -> Seq<Ends> {
    Seq::new(fragments.len(), |i: int| array_ends(fragments[i].child_array))
}

pub open spec fn packed_intervals(fragments: Seq<ActualFragment>) -> Seq<Ends> {
    Seq::new(
        fragments.len(),
        |i: int|
            Ends {
                start: fragments[i].child_packed.start,
                end: (fragments[i].child_packed.start + fragments[i].child_packed.length) as usize,
            },
    )
}

/// Some fragment that the region hits gives this access.
pub open spec fn gives(
    region: SummaryRegion,
    fragments: Seq<ActualFragment>,
    access: TranslatedFragmentAccess,
) -> bool {
    exists|i: int|
        0 <= i < fragments.len() && #[trigger] hits(region, fragments[i]) && translation(
            region,
            fragments[i],
        ) == Some(access)
}

/// Some fragment that the region hits gives an access that does not fit.
pub open spec fn fails(region: SummaryRegion, fragments: Seq<ActualFragment>) -> bool {
    exists|i: int|
        0 <= i < fragments.len() && #[trigger] hits(region, fragments[i]) && translation(
            region,
            fragments[i],
        ) is None
}

impl ActualFragmentLayout {
    pub open spec fn wf(self) -> bool {
        &&& fragments_wf(self.fragments@)
        &&& self.array.wf(array_intervals(self.fragments@))
        &&& self.packed.wf(packed_intervals(self.fragments@))
    }

    /// Sorts fragments for the search by elements and by bits.
    pub fn new(fragments: Vec<ActualFragment>) -> (r: Self)
        requires
            fragments_wf(fragments@),
        ensures
            r.wf(),
            r.fragments == fragments,
    {
        let mut arrays: Vec<Ends> = Vec::new();
        let mut packs: Vec<Ends> = Vec::new();
        let mut i: usize = 0;
        while i < fragments.len()
            invariant
                i <= fragments@.len(),
                fragments_wf(fragments@),
                arrays@ == array_intervals(fragments@).take(i as int),
                packs@ == packed_intervals(fragments@).take(i as int),
            decreases fragments@.len() - i,
        {
            let fragment = fragments[i];
            let end: usize = match fragment.child_array.end() {
                Some(end) => end,
                None => usize::MAX,
            };
            assert(fragments@[i as int].wf());
            arrays.push(Ends { start: fragment.child_array.start, end });
            packs.push(Ends { start: fragment.child_packed.start, end: fragment.child_packed.end() });
            i = i + 1;
            assert(arrays@ =~= array_intervals(fragments@).take(i as int));
            assert(packs@ =~= packed_intervals(fragments@).take(i as int));
        }
        proof {
            assert(arrays@ =~= array_intervals(fragments@));
            assert(packs@ =~= packed_intervals(fragments@));
        }
        let array = FragmentIntervalOrder::new(&arrays);
        let packed = FragmentIntervalOrder::new(&packs);
        ActualFragmentLayout { fragments, array, packed }
    }

    /// What a region corresponds to; nothing where one of the translations does not fit.
    pub fn translate(&self, region: SummaryRegion) -> (r: Option<Vec<TranslatedFragmentAccess>>)
        requires
            self.wf(),
            region.packed.wf(),
        ensures
            r is None <==> fails(region, self.fragments@),
            r matches Some(list) ==> translated_wf(list@) && forall|access: TranslatedFragmentAccess| #[trigger]
                list@.contains(access) <==> gives(region, self.fragments@, access),
            match translations(region, self.fragments@, self.fragments@.len() as int) {
                Some(all) => r matches Some(list) && list@.to_multiset() == all.to_multiset(),
                None => r is None,
            },
    {
        let ghost fragments = self.fragments@;
        let ghost mut taken: Seq<int> = Seq::empty();
        let array_end: usize = match region.array.end() {
            Some(end) => end,
            None => usize::MAX,
        };
        let packed_end: usize = region.packed.end();
        let (array_first, array_last) = self.array.candidate_range(
            Ghost(array_intervals(fragments)),
            region.array.start,
            array_end,
        );
        let (packed_first, packed_last) = self.packed.candidate_range(
            Ghost(packed_intervals(fragments)),
            region.packed.start,
            packed_end,
        );
        let by_array: bool = array_last - array_first <= packed_last - packed_first;
        let order = if by_array {
            &self.array
        } else {
            &self.packed
        };
        let first: usize = if by_array {
            array_first
        } else {
            packed_first
        };
        let last: usize = if by_array {
            array_last
        } else {
            packed_last
        };
        let ghost listed = order.indices@;
        proof {
            assert forall|i: int| 0 <= i < fragments.len() && #[trigger] hits(region, fragments[i]) implies exists|p: int|
                first <= p < last && (#[trigger] listed[p]).index == i by {
                let wanted = StartOf {
                    start: if by_array { fragments[i].child_array.start } else { fragments[i].child_packed.start },
                    index: i as usize,
                };
                assert(i < self.fragments.len());
                assert(listed.contains(wanted));
                let p = choose|p: int| 0 <= p < listed.len() && listed[p] == wanted;
                assert(fragments[i].wf());
                assert(listed[p].index == i);
            }
            assert forall|p: int| 0 <= p < listed.len() implies (#[trigger] listed[p]).index < fragments.len() by {
                assert(listed.contains(listed[p]));
            }
            assert(order.wf(if by_array { array_intervals(fragments) } else { packed_intervals(fragments) }));
            assert(accesses_at(region, fragments, taken) =~= Seq::empty());
        }
        let mut list: Vec<TranslatedFragmentAccess> = Vec::new();
        let mut p: usize = first;
        while p < last
            invariant
                first <= p <= last <= order.indices@.len(),
                listed == order.indices@,
                fragments == self.fragments@,
                self.wf(),
                region.packed.wf(),
                forall|p: int| 0 <= p < listed.len() ==> (#[trigger] listed[p]).index < fragments.len(),
                translated_wf(list@),
                order::strictly_sorted(listed),
                forall|s: StartOf, t: StartOf| listed.contains(s) && listed.contains(t) && s.index == t.index ==> s == t,
                list@ =~= accesses_at(region, fragments, taken),
                taken.no_duplicates(),
                forall|i: int| #[trigger] taken.contains(i) <==> exists|q: int| first <= q < p && hits(region, fragments[i]) && (#[trigger] listed[q]).index == i,
                forall|access: TranslatedFragmentAccess| #[trigger]
                    list@.contains(access) <==> given_among(region, fragments, listed, first as int, p as int, access),
                forall|q: int| first <= q < p && hits(region, fragments[(#[trigger] listed[q]).index as int]) ==> translation(region, fragments[listed[q].index as int]) is Some,
            decreases last - p,
        {
            let index: usize = order.indices[p].index;
            let ghost before = list@;
            let ghost fewer = taken;
            assert(listed[p as int].index == index);
            assert(fragments[index as int].wf());
            match translate_actual_fragment(region, self.fragments[index]) {
                None => {},
                Some(Some(access)) => {
                    list.push(access);
                    proof {
                        assert(list@ =~= before.push(access));
                        taken = taken.push(index as int);
                        assert(!fewer.contains(index as int)) by {
                            if fewer.contains(index as int) {
                                let q = choose|q: int| first <= q < p && hits(region, fragments[index as int]) && (#[trigger] listed[q]).index == index;
                                assert(listed.contains(listed[q]) && listed.contains(listed[p as int]));
                                assert(listed[q].lt(listed[p as int]));
                            }
                        }
                        assert(list@ =~= accesses_at(region, fragments, taken));
                    }
                },
                Some(None) => {
                    assert(hits(region, fragments[index as int]));
                    proof {
                        lemma_all_accesses(region, fragments, fragments.len() as int);
                    }
                    return None;
                },
            }
            proof {
                assert forall|i: int| #[trigger] taken.contains(i) <==> exists|q: int| first <= q < p + 1 && hits(region, fragments[i]) && (#[trigger] listed[q]).index == i by {
                    if hits(region, fragments[index as int]) {
                        crate::partition::lemma_contains_push(fewer, index as int, i);
                        assert(taken =~= fewer.push(index as int));
                    } else {
                        assert(taken == fewer);
                    }
                    if fewer.contains(i) {
                        let q = choose|q: int| first <= q < p && hits(region, fragments[i]) && (#[trigger] listed[q]).index == i;
                        assert(listed[q].index == i);
                    }
                    if exists|q: int| first <= q < p + 1 && hits(region, fragments[i]) && (#[trigger] listed[q]).index == i {
                        let q = choose|q: int| first <= q < p + 1 && hits(region, fragments[i]) && (#[trigger] listed[q]).index == i;
                        if q < p {
                            assert(fewer.contains(i));
                        }
                    }
                }
                assert forall|access: TranslatedFragmentAccess| #[trigger] list@.contains(access) <==> given_among(region, fragments, listed, first as int, p + 1, access) by {
                    lemma_given_step(region, fragments, listed, first as int, p as int, access);
                    if hits(region, fragments[index as int]) {
                        crate::partition::lemma_contains_push(before, list@.last(), access);
                    }
                }
            }
            p = p + 1;
        }
        proof {
            assert forall|access: TranslatedFragmentAccess| #[trigger] list@.contains(access) <==> gives(region, fragments, access) by {
                if gives(region, fragments, access) {
                    let i = choose|i: int| 0 <= i < fragments.len() && #[trigger] hits(region, fragments[i]) && translation(region, fragments[i]) == Some(access);
                    let q = choose|q: int| first <= q < last && (#[trigger] listed[q]).index == i;
                    assert(first <= q < p && given_at(region, fragments, listed, q, access));
                }
                if given_among(region, fragments, listed, first as int, p as int, access) {
                    let q = choose|q: int| first <= q < p && given_at(region, fragments, listed, q, access);
                    assert(hits(region, fragments[listed[q].index as int]));
                }
            }
            if fails(region, fragments) {
                let i = choose|i: int| 0 <= i < fragments.len() && #[trigger] hits(region, fragments[i]) && translation(region, fragments[i]) is None;
                let q = choose|q: int| first <= q < last && (#[trigger] listed[q]).index == i;
                assert(translation(region, fragments[listed[q].index as int]) is Some);
            }
            let count = fragments.len() as int;
            lemma_all_accesses(region, fragments, count);
            let all = hit_indices(region, fragments, count);
            assert forall|i: int| #[trigger] taken.contains(i) <==> all.contains(i) by {
                if all.contains(i) {
                    assert(0 <= i < count && hits(region, fragments[i]));
                    let q = choose|q: int| first <= q < last && (#[trigger] listed[q]).index == i;
                    assert(first <= q < p);
                }
                if taken.contains(i) {
                    let q = choose|q: int| first <= q < p && hits(region, fragments[i]) && (#[trigger] listed[q]).index == i;
                    assert(listed[q].index < fragments.len());
                }
            }
            lemma_same_accesses(region, fragments, taken, all);
        }
        Some(list)
    }
}

/// The fragments that the region hits, in order.
pub open spec fn hit_indices(region: SummaryRegion, fragments: Seq<ActualFragment>, count: int) -> Seq<int>
    decreases count,
{
    if count <= 0 {
        Seq::empty()
    } else if hits(region, fragments[count - 1]) {
        hit_indices(region, fragments, count - 1).push(count - 1)
    } else {
        hit_indices(region, fragments, count - 1)
    }
}

spec fn accesses_at(region: SummaryRegion, fragments: Seq<ActualFragment>, indices: Seq<int>) -> Seq<TranslatedFragmentAccess> {
    indices.map_values(|i: int| translation(region, fragments[i])->0)
}

proof fn lemma_all_accesses(region: SummaryRegion, fragments: Seq<ActualFragment>, count: int)
    requires
        0 <= count <= fragments.len(),
    ensures
        hit_indices(region, fragments, count).no_duplicates(),
        forall|i: int| #[trigger] hit_indices(region, fragments, count).contains(i) <==> 0 <= i < count && hits(region, fragments[i]),
        translations(region, fragments, count) is None <==> exists|i: int|
            0 <= i < count && #[trigger] hits(region, fragments[i]) && translation(region, fragments[i]) is None,
        translations(region, fragments, count) matches Some(all) ==> all == accesses_at(region, fragments, hit_indices(region, fragments, count)),
    decreases count,
{
    if count > 0 {
        lemma_all_accesses(region, fragments, count - 1);
        let before = hit_indices(region, fragments, count - 1);
        let now = hit_indices(region, fragments, count);
        assert forall|i: int| #[trigger] now.contains(i) <==> 0 <= i < count && hits(region, fragments[i]) by {
            if hits(region, fragments[count - 1]) {
                crate::partition::lemma_contains_push(before, count - 1, i);
            }
            assert(before.contains(i) <==> 0 <= i < count - 1 && hits(region, fragments[i]));
        }
        if hits(region, fragments[count - 1]) {
            assert(!before.contains(count - 1));
            assert(accesses_at(region, fragments, now) =~= accesses_at(region, fragments, before).push(translation(region, fragments[count - 1])->0));
        }
    } else {
        assert(accesses_at(region, fragments, hit_indices(region, fragments, count)) =~= Seq::empty());
    }
}

proof fn lemma_same_accesses(region: SummaryRegion, fragments: Seq<ActualFragment>, a: Seq<int>, b: Seq<int>)
    requires
        a.no_duplicates(),
        b.no_duplicates(),
        forall|i: int| #[trigger] a.contains(i) <==> b.contains(i),
    ensures
        accesses_at(region, fragments, a).to_multiset() == accesses_at(region, fragments, b).to_multiset(),
    decreases a.len(),
{
    if a.len() == 0 {
        if b.len() > 0 {
            assert(b.contains(b[0]));
            assert(a.contains(b[0]));
        }
        assert(accesses_at(region, fragments, a) =~= accesses_at(region, fragments, b));
    } else {
        let x = a.last();
        assert(a.contains(x));
        let j = choose|j: int| 0 <= j < b.len() && b[j] == x;
        let fewer = a.drop_last();
        let rest = b.remove(j);
        assert forall|i: int| #[trigger] fewer.contains(i) <==> rest.contains(i) by {
            if fewer.contains(i) {
                let k = choose|k: int| 0 <= k < fewer.len() && fewer[k] == i;
                assert(a[k] == i);
                assert(a.contains(i));
                let m = choose|m: int| 0 <= m < b.len() && b[m] == i;
                assert(m != j);
                if m < j {
                    assert(rest[m] == i);
                } else {
                    assert(rest[m - 1] == i);
                }
            }
            if rest.contains(i) {
                let k = choose|k: int| 0 <= k < rest.len() && rest[k] == i;
                let m = if k < j { k } else { k + 1 };
                assert(b[m] == i && m != j);
                assert(b.contains(i));
                assert(a.contains(i));
                let n = choose|n: int| 0 <= n < a.len() && a[n] == i;
                assert(i != x);
                assert(fewer[n] == i);
            }
        }
        lemma_same_accesses(region, fragments, fewer, rest);
        let one = accesses_at(region, fragments, a);
        let two = accesses_at(region, fragments, b);
        let access = translation(region, fragments[x])->0;
        assert(one =~= accesses_at(region, fragments, fewer).push(access));
        assert(two.remove(j) =~= accesses_at(region, fragments, rest));
        vstd::seq_lib::to_multiset_build(accesses_at(region, fragments, fewer), access);
        vstd::seq_lib::to_multiset_remove(two, j);
        assert(two[j] == access);
        vstd::seq_lib::to_multiset_contains(two, access);
        assert(two.contains(access));
        assert(two.to_multiset() =~= two.to_multiset().remove(access).insert(access));
    }
}

spec fn given_at(region: SummaryRegion, fragments: Seq<ActualFragment>, listed: Seq<StartOf>, q: int, access: TranslatedFragmentAccess) -> bool {
    hits(region, fragments[listed[q].index as int]) && translation(region, fragments[listed[q].index as int]) == Some(access)
}

spec fn given_among(region: SummaryRegion, fragments: Seq<ActualFragment>, listed: Seq<StartOf>, first: int, last: int, access: TranslatedFragmentAccess) -> bool {
    exists|q: int| first <= q < last && #[trigger] given_at(region, fragments, listed, q, access)
}

proof fn lemma_given_step(region: SummaryRegion, fragments: Seq<ActualFragment>, listed: Seq<StartOf>, first: int, last: int, access: TranslatedFragmentAccess)
    requires
        first <= last,
    ensures
        given_among(region, fragments, listed, first, last + 1, access) <==> given_among(region, fragments, listed, first, last, access) || given_at(
            region,
            fragments,
            listed,
            last,
            access,
        ),
{
    if given_among(region, fragments, listed, first, last, access) {
        let q = choose|q: int| first <= q < last && #[trigger] given_at(region, fragments, listed, q, access);
        assert(first <= q < last + 1 && given_at(region, fragments, listed, q, access));
    }
}

} // verus!
