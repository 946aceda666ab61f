//! Runs of packed bits and of array elements.
use vstd::prelude::*;
use crate::order::Ordered;

verus! {

/// A nonempty run of packed bits.
#[derive(Clone, Copy, Debug, PartialEq, Eq, Hash, PartialOrd, Ord, Structural)]
pub struct PackedSpan {
    pub start: usize,
    pub length: usize,
}

impl PackedSpan {
    /// A span is present when it holds a bit and its end fits the index type.
    pub open spec fn wf(self) -> bool {
        self.length > 0 && self.start + self.length <= usize::MAX
    }

    pub open spec fn has(self, bit: int) -> bool {
        self.start <= bit < self.start + self.length
    }

    /// The bits in both.
    pub open spec fn common(self, other: Self) -> Option<Self> {
        let start = if self.start < other.start {
            other.start
        } else {
            self.start
        };
        let end = if self.start + self.length < other.start + other.length {
            self.start + self.length
        } else {
            other.start + other.length
        };
        if start < end {
            Some(PackedSpan { start, length: (end - start) as usize })
        } else {
            None
        }
    }

    /// The range, if it has a bit and its end fits.
    pub fn new(start: usize, length: usize) -> (r: Option<Self>)
        ensures
            r is Some <==> length > 0 && start + length <= usize::MAX,
            r matches Some(s) ==> s.start == start && s.length == length,
    {
        if length > 0 && start <= usize::MAX - length {
            Some(PackedSpan { start, length })
        } else {
            None
        }
    }

    /// The bits of a value of the given width.
    pub fn whole(width: usize) -> (r: Option<Self>)
        ensures
            r is Some <==> width > 0,
            r matches Some(s) ==> s == (PackedSpan { start: 0, length: width }),
    {
        PackedSpan::new(0, width)
    }

    /// Where the range ends.
    pub fn end(self) -> (r: usize)
        requires
            self.wf(),
        ensures
            r == self.start + self.length,
    {
        self.start + self.length
    }

    /// The bits in both.
    pub fn intersection(self, other: Self) -> (r: Option<Self>)
        requires
            self.wf(),
            other.wf(),
        ensures
            r == self.common(other),
            r is Some <==> exists|bit: int| #[trigger] self.has(bit) && other.has(bit),
            r matches Some(s) ==> s.wf() && forall|bit: int| #[trigger]
                s.has(bit) <==> self.has(bit) && other.has(bit),
    {
        let start: usize = if self.start < other.start {
            other.start
        } else {
            self.start
        };
        let end: usize = if self.end() < other.end() {
            self.end()
        } else {
            other.end()
        };
        if start < end {
            assert(self.has(start as int) && other.has(start as int));
            Some(PackedSpan { start, length: end - start })
        } else {
            None
        }
    }

    /// The ranges have a position in common.
    pub fn overlaps(self, other: Self) -> (r: bool)
        requires
            self.wf(),
            other.wf(),
        ensures
            r == exists|bit: int| #[trigger] self.has(bit) && other.has(bit),
    {
        let r = self.start < other.end() && other.start < self.end();
        proof {
            if r {
                let bit: int = if self.start < other.start {
                    other.start as int
                } else {
                    self.start as int
                };
                assert(self.has(bit) && other.has(bit));
            }
        }
        r
    }

    /// The span moved so that bit `from` becomes bit `to`, if it fits.
    pub fn translated(self, from: usize, to: usize) -> (r: Option<Self>)
        requires
            self.wf(),
        ensures
            r is Some <==> self.start >= from && self.start - from + to + self.length <= usize::MAX,
            r matches Some(s) ==> s.wf() && s.start == self.start - from + to && s.length == self.length,
    {
        if self.start < from {
            return None;
        }
        let offset: usize = self.start - from;
        if to > usize::MAX - offset {
            return None;
        }
        PackedSpan::new(offset + to, self.length)
    }
}

impl Ordered for PackedSpan {
    open spec fn lt(self, other: Self) -> bool {
        self.start < other.start || (self.start == other.start && self.length < other.length)
    }

    proof fn lt_irreflexive(a: Self) {
    }

    proof fn lt_transitive(a: Self, b: Self, c: Self) {
    }

    proof fn lt_total(a: Self, b: Self) {
    }

    fn less(self, other: Self) -> (r: bool) {
        self.start < other.start || (self.start == other.start && self.length < other.length)
    }
}

/// A run of array elements; it may be empty, and its end may lie beyond the index type.
#[derive(Clone, Copy, Debug, PartialEq, Eq, Hash, PartialOrd, Ord, Structural)]
pub struct ArraySpan {
    pub start: usize,
    pub length: usize,
}

impl ArraySpan {
    pub open spec fn has(self, element: int) -> bool {
        self.start <= element < self.start + self.length
    }

    /// The elements in both; nothing if there are none, or if an end does not fit.
    pub open spec fn common(self, other: Self) -> Option<Self> {
        let start = if self.start < other.start {
            other.start
        } else {
            self.start
        };
        let end = if self.start + self.length < other.start + other.length {
            self.start + self.length
        } else {
            other.start + other.length
        };
        if self.bounded() && other.bounded() && start < end {
            Some(ArraySpan { start, length: (end - start) as usize })
        } else {
            None
        }
    }

    /// The end of the span fits the index type.
    pub open spec fn bounded(self) -> bool {
        self.start + self.length <= usize::MAX
    }

    /// Where the range ends.
    pub fn end(self) -> (r: Option<usize>)
        ensures
            r is Some <==> self.bounded(),
            r matches Some(end) ==> end == self.start + self.length,
    {
        self.start.checked_add(self.length)
    }

    /// The elements in both; nothing if there are none, or if an end does not fit.
    pub fn intersection(self, other: Self) -> (r: Option<Self>)
        ensures
            r == self.common(other),
            r is Some <==> self.bounded() && other.bounded() && exists|element: int| #[trigger]
                self.has(element) && other.has(element),
            r matches Some(s) ==> s.bounded() && s.length > 0 && forall|element: int| #[trigger]
                s.has(element) <==> self.has(element) && other.has(element),
    {
        match (self.end(), other.end()) {
            (Some(a), Some(b)) => {
                let start: usize = if self.start < other.start {
                    other.start
                } else {
                    self.start
                };
                let end: usize = if a < b {
                    a
                } else {
                    b
                };
                if start < end {
                    assert(self.has(start as int) && other.has(start as int));
                    Some(ArraySpan { start, length: end - start })
                } else {
                    None
                }
            },
            _ => None,
        }
    }

    /// The ranges have a position in common.
    pub fn overlaps(self, other: Self) -> (r: bool)
        ensures
            r == (self.bounded() && other.bounded() && exists|element: int| #[trigger]
                self.has(element) && other.has(element)),
    {
        match self.intersection(other) {
            Some(_) => true,
            None => false,
        }
    }

    /// The span moved so that element `from` becomes element `to`, if it fits.
    pub fn translated(self, from: usize, to: usize) -> (r: Option<Self>)
        ensures
            r is Some <==> self.start >= from && self.start - from + to + self.length <= usize::MAX,
            r matches Some(s) ==> s.bounded() && s.start == self.start - from + to && s.length
                == self.length,
    {
        if self.start < from {
            return None;
        }
        let offset: usize = self.start - from;
        if to > usize::MAX - offset {
            return None;
        }
        let start: usize = offset + to;
        if start > usize::MAX - self.length {
            return None;
        }
        Some(ArraySpan { start, length: self.length })
    }
}

/// `left - right`, if it fits.
pub fn signed_difference(left: usize, right: usize) -> (r: Option<isize>)
    ensures
        r is Some <==> isize::MIN <= left - right <= isize::MAX,
        r matches Some(d) ==> d == left - right,
{
    let difference: i128 = left as i128 - right as i128;
    if isize::MIN as i128 <= difference && difference <= isize::MAX as i128 {
        Some(difference as isize)
    } else {
        None
    }
}

/// `position + offset`, if it is a position.
pub fn translate_position(position: usize, offset: isize) -> (r: Option<usize>)
    ensures
        r is Some <==> 0 <= position + offset <= usize::MAX,
        r matches Some(p) ==> p == position + offset,
{
    let moved: i128 = position as i128 + offset as i128;
    if 0 <= moved && moved <= usize::MAX as i128 {
        Some(moved as usize)
    } else {
        None
    }
}

/// The span moved by `offset`.
pub fn translate_array_span(span: ArraySpan, offset: isize) -> (r: Option<ArraySpan>)
    ensures
        r is Some <==> 0 <= span.start + offset <= usize::MAX,
        r matches Some(s) ==> s.start == span.start + offset && s.length == span.length,
{
    match translate_position(span.start, offset) {
        Some(start) => Some(ArraySpan { start, length: span.length }),
        None => None,
    }
}

/// The span moved by `offset`, if it fits.
pub fn translate_packed_span(span: PackedSpan, offset: isize) -> (r: Option<PackedSpan>)
    requires
        span.wf(),
    ensures
        r is Some <==> 0 <= span.start + offset && span.start + offset + span.length <= usize::MAX,
        r matches Some(s) ==> s.wf() && s.start == span.start + offset && s.length == span.length,
{
    match translate_position(span.start, offset) {
        Some(start) => PackedSpan::new(start, span.length),
        None => None,
    }
}

} // verus!
