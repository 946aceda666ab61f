//! Splitting variables into regions that every access takes whole or not at all.
use vstd::prelude::*;
use std::collections::HashMap;
use crate::order;
use crate::order::{sort_dedup, Ordered};
use crate::span::{ArraySpan, PackedSpan};

verus! {

/// Some span has `bit`.
pub open spec fn spans_have(spans: Seq<PackedSpan>, bit: int) -> bool {
    exists|i: int| 0 <= i < spans.len() && (#[trigger] spans[i]).has(bit)
}

/// A span starts or ends at `position`, or it is one of the given endpoints.
pub open spec fn is_boundary(spans: Seq<PackedSpan>, endpoints: Seq<usize>, position: int) -> bool {
    ||| exists|i: int|
        0 <= i < spans.len() && ((#[trigger] spans[i]).start == position || spans[i].start
            + spans[i].length == position)
    ||| exists|i: int| 0 <= i < endpoints.len() && #[trigger] endpoints[i] == position
}

pub open spec fn spans_wf(spans: Seq<PackedSpan>) -> bool {
    forall|i: int| 0 <= i < spans.len() ==> (#[trigger] spans[i]).wf()
}

/// The spans ascend without overlap.
pub open spec fn spans_ascend(spans: Seq<PackedSpan>) -> bool {
    &&& spans_wf(spans)
    &&& forall|i: int, j: int|
        0 <= i < j < spans.len() ==> (#[trigger] spans[i]).start + spans[i].length <= (
        #[trigger] spans[j]).start
}

/// The atoms of some spans: they have the same bits, and are cut at every boundary and nowhere
/// else.
pub open spec fn are_atoms(
    atoms: Seq<PackedSpan>,
    spans: Seq<PackedSpan>,
    endpoints: Seq<usize>,
) -> bool {
    &&& spans_ascend(atoms)
    &&& forall|bit: int| #[trigger] spans_have(atoms, bit) <==> spans_have(spans, bit)
    &&& forall|i: int|
        0 <= i < atoms.len() ==> is_boundary(
            spans,
            endpoints,
            (#[trigger] atoms[i]).start as int,
        ) && is_boundary(spans, endpoints, atoms[i].start + atoms[i].length)
    &&& forall|i: int, position: int|
        0 <= i < atoms.len() && (#[trigger] atoms[i]).start < position < atoms[i].start
            + atoms[i].length ==> !#[trigger] is_boundary(spans, endpoints, position)
}

/// Spans have one list of atoms.
pub proof fn atoms_are_unique(
    a: Seq<PackedSpan>,
    b: Seq<PackedSpan>,
    spans: Seq<PackedSpan>,
    endpoints: Seq<usize>,
)
    requires
        are_atoms(a, spans, endpoints),
        are_atoms(b, spans, endpoints),
    ensures
        a == b,
{
    assert forall|i: int| 0 <= i < a.len() implies b.contains(#[trigger] a[i]) by {
        lemma_atom_in(a, b, spans, endpoints, i);
    }
    assert forall|i: int| 0 <= i < b.len() implies a.contains(#[trigger] b[i]) by {
        lemma_atom_in(b, a, spans, endpoints, i);
    }
    assert forall|i: int, j: int| 0 <= i < j < a.len() implies (#[trigger] a[i]).lt(#[trigger] a[j]) by {
        assert(a[i].wf());
    }
    assert forall|i: int, j: int| 0 <= i < j < b.len() implies (#[trigger] b[i]).lt(#[trigger] b[j]) by {
        assert(b[i].wf());
    }
    assert forall|x: PackedSpan| #[trigger] a.contains(x) <==> b.contains(x) by {
        if a.contains(x) {
            let i = choose|i: int| 0 <= i < a.len() && a[i] == x;
            assert(b.contains(a[i]));
        }
        if b.contains(x) {
            let i = choose|i: int| 0 <= i < b.len() && b[i] == x;
            assert(a.contains(b[i]));
        }
    }
    order::sorted_list_is_canonical(a, b);
}

proof fn lemma_atom_in(a: Seq<PackedSpan>, b: Seq<PackedSpan>, spans: Seq<PackedSpan>, endpoints: Seq<usize>, i: int)
    requires
        are_atoms(a, spans, endpoints),
        are_atoms(b, spans, endpoints),
        0 <= i < a.len(),
    ensures
        b.contains(a[i]),
{
    let x = a[i];
    assert(x.wf());
    assert(x.has(x.start as int));
    assert(spans_have(a, x.start as int));
    assert(spans_have(b, x.start as int));
    let j = choose|j: int| 0 <= j < b.len() && (#[trigger] b[j]).has(x.start as int);
    let y = b[j];
    assert(is_boundary(spans, endpoints, x.start as int));
    assert(is_boundary(spans, endpoints, y.start + y.length));
    assert(is_boundary(spans, endpoints, x.start + x.length));
    assert(y.start == x.start);
    if x.length < y.length {
        assert(b[j].start < x.start + x.length < b[j].start + b[j].length);
    }
    if y.length < x.length {
        assert(a[i].start < y.start + y.length < a[i].start + a[i].length);
    }
    assert(y == x);
}

/// Collects the boundaries, ascending.
fn boundaries(spans: &Vec<PackedSpan>, endpoints: &Vec<usize>) -> (r: Vec<usize>)
    requires
        spans_wf(spans@),
    ensures
        order::strictly_sorted(r@),
        forall|x: usize| #[trigger] r@.contains(x) <==> is_boundary(spans@, endpoints@, x as int),
{
    let mut all: Vec<usize> = Vec::new();
    let mut i: usize = 0;
    while i < spans.len()
        invariant
            i <= spans.len(),
            spans_wf(spans@),
            forall|x: usize| #[trigger]
                all@.contains(x) <==> exists|k: int|
                    0 <= k < i && ((#[trigger] spans@[k]).start == x || spans@[k].start
                        + spans@[k].length == x),
        decreases spans.len() - i,
    {
        let ghost before = all@;
        assert(spans@[i as int].wf());
        let start: usize = spans[i].start;
        let end: usize = spans[i].end();
        all.push(start);
        all.push(end);
        proof {
            assert forall|x: usize| #[trigger] all@.contains(x) <==> exists|k: int| 0 <= k < i + 1 && ((#[trigger] spans@[k]).start == x || spans@[k].start + spans@[k].length == x) by {
                assert(all@ =~= before.push(start).push(end));
                lemma_contains_push(before, start, x);
                lemma_contains_push(before.push(start), end, x);
                if before.contains(x) {
                    let k = choose|k: int| 0 <= k < i && ((#[trigger] spans@[k]).start == x || spans@[k].start + spans@[k].length == x);
                    assert(spans@[k].start == x || spans@[k].start + spans@[k].length == x);
                }
                if x == start || x == end {
                    assert(spans@[i as int].start == x || spans@[i as int].start + spans@[i as int].length == x);
                }
                if exists|k: int| 0 <= k < i + 1 && ((#[trigger] spans@[k]).start == x || spans@[k].start + spans@[k].length == x) {
                    let k = choose|k: int| 0 <= k < i + 1 && ((#[trigger] spans@[k]).start == x || spans@[k].start + spans@[k].length == x);
                    if k < i {
                        assert(before.contains(x));
                    }
                }
            }
        }
        i = i + 1;
    }
    let ghost from_spans = all@;
    let mut j: usize = 0;
    while j < endpoints.len()
        invariant
            j <= endpoints.len(),
            all@ == from_spans + endpoints@.take(j as int),
        decreases endpoints.len() - j,
    {
        all.push(endpoints[j]);
        j = j + 1;
        assert(endpoints@.take(j as int) =~= endpoints@.take(j - 1).push(endpoints@[j - 1]));
        assert(all@ =~= from_spans + endpoints@.take(j as int));
    }
    let r = sort_dedup(&all);
    proof {
        assert(endpoints@.take(j as int) =~= endpoints@);
        assert forall|x: usize| #[trigger] r@.contains(x) <==> is_boundary(spans@, endpoints@, x as int) by {
            assert(r@.contains(x) <==> all@.contains(x));
            if all@.contains(x) {
                let k = choose|k: int| 0 <= k < all@.len() && all@[k] == x;
                if k < from_spans.len() {
                    assert(from_spans[k] == x);
                    assert(from_spans.contains(x));
                } else {
                    assert(endpoints@[k - from_spans.len()] == x);
                }
            }
            if from_spans.contains(x) {
                let k = choose|k: int| 0 <= k < from_spans.len() && from_spans[k] == x;
                assert(all@[k] == x);
            }
            if exists|k: int| 0 <= k < endpoints@.len() && #[trigger] endpoints@[k] == x {
                let k = choose|k: int| 0 <= k < endpoints@.len() && #[trigger] endpoints@[k] == x;
                assert(all@[from_spans.len() + k] == x);
            }
        }
    }
    r
}

pub(crate) proof fn lemma_contains_push<T>(list: Seq<T>, added: T, x: T)
    ensures
        list.push(added).contains(x) <==> list.contains(x) || x == added,
{
    let more = list.push(added);
    if list.contains(x) {
        let k = choose|k: int| 0 <= k < list.len() && list[k] == x;
        assert(more[k] == x);
    }
    if x == added {
        assert(more[list.len() as int] == x);
    }
    if more.contains(x) {
        let k = choose|k: int| 0 <= k < more.len() && more[k] == x;
        if k < list.len() {
            assert(list[k] == x);
        }
    }
}

/// The largest end among the first `count` spans; 0 if there are none.
spec fn reach(spans: Seq<PackedSpan>, count: int) -> int
    decreases count,
{
    if count <= 0 {
        0
    } else {
        let before = reach(spans, count - 1);
        let end = spans[count - 1].start + spans[count - 1].length;
        if end > before {
            end
        } else {
            before
        }
    }
}

proof fn lemma_reach(spans: Seq<PackedSpan>, count: int)
    requires
        0 <= count <= spans.len(),
    ensures
        forall|k: int| 0 <= k < count ==> (#[trigger] spans[k]).start + spans[k].length <= reach(spans, count),
        reach(spans, count) > 0 ==> exists|k: int| 0 <= k < count && (#[trigger] spans[k]).start + spans[k].length == reach(spans, count),
        reach(spans, count) >= 0,
    decreases count,
{
    if count > 0 {
        lemma_reach(spans, count - 1);
        let before = reach(spans, count - 1);
        let end = spans[count - 1].start + spans[count - 1].length;
        if end > before {
            assert(spans[count - 1].start + spans[count - 1].length == reach(spans, count));
        } else if before > 0 {
            let k = choose|k: int| 0 <= k < count - 1 && (#[trigger] spans[k]).start + spans[k].length == before;
            assert(spans[k].start + spans[k].length == reach(spans, count));
        }
    }
}

/// Splits spans at their ends, and at the given endpoints, but nowhere else.
///
/// What this takes depends on the number of spans, never on the highest bit.
pub fn atomic_ranges(spans: &Vec<PackedSpan>, endpoints: &Vec<usize>) -> (r: Vec<PackedSpan>)
    requires
        spans_wf(spans@),
    ensures
        are_atoms(r@, spans@, endpoints@),
{
    let cuts = boundaries(spans, endpoints);
    let sorted = sort_dedup(spans);
    proof {
        assert forall|k: int| 0 <= k < sorted@.len() implies (#[trigger] sorted@[k]).wf() by {
            assert(sorted@.contains(sorted@[k]));
            assert(spans@.contains(sorted@[k]));
            let m = choose|m: int| 0 <= m < spans@.len() && spans@[m] == sorted@[k];
            assert(spans@[m].wf());
        }
    }
    let mut atoms: Vec<PackedSpan> = Vec::new();
    let mut taken: usize = 0;
    let mut top: usize = 0;
    let mut i: usize = 0;
    while i < cuts.len()
        invariant
            i <= cuts@.len(),
            order::strictly_sorted(cuts@),
            spans_wf(spans@),
            spans_wf(sorted@),
            order::strictly_sorted(sorted@),
            order::same_elements(sorted@, spans@),
            forall|x: usize| #[trigger] cuts@.contains(x) <==> is_boundary(spans@, endpoints@, x as int),
            taken <= sorted@.len(),
            top == reach(sorted@, taken as int),
            forall|k: int| 0 <= k < taken ==> i > 0 && (#[trigger] sorted@[k]).start <= cuts@[i - 1],
            i > 0 ==> forall|k: int| taken <= k < sorted@.len() ==> (#[trigger] sorted@[k]).start > cuts@[i - 1],
            spans_ascend(atoms@),
            forall|k: int|
                0 <= k < atoms@.len() ==> is_boundary(
                    spans@,
                    endpoints@,
                    (#[trigger] atoms@[k]).start as int,
                ) && is_boundary(spans@, endpoints@, atoms@[k].start + atoms@[k].length),
            forall|k: int, position: int|
                0 <= k < atoms@.len() && (#[trigger] atoms@[k]).start < position < atoms@[k].start
                    + atoms@[k].length ==> !#[trigger] is_boundary(spans@, endpoints@, position),
            forall|k: int|
                0 <= k < atoms@.len() ==> (i < cuts@.len() ==> (#[trigger] atoms@[k]).start + atoms@[k].length
                    <= cuts@[i as int]),
            forall|bit: int|
                (i == 0 || (i < cuts@.len() && bit >= cuts@[i as int])) ==> !#[trigger] spans_have(atoms@, bit),
            forall|bit: int|
                i > 0 && (i == cuts@.len() || bit < cuts@[i as int]) ==> (#[trigger] spans_have(atoms@, bit)
                    <==> spans_have(spans@, bit)),
        decreases cuts@.len() - i,
    {
        let position: usize = cuts[i];
        let ghost before = atoms@;
        while taken < sorted.len() && sorted[taken].start <= position
            invariant
                taken <= sorted@.len(),
                spans_wf(sorted@),
                top == reach(sorted@, taken as int),
                forall|k: int| 0 <= k < taken ==> (#[trigger] sorted@[k]).start <= position,
            decreases sorted@.len() - taken,
        {
            assert(sorted@[taken as int].wf());
            let end: usize = sorted[taken].end();
            if end > top {
                top = end;
            }
            taken = taken + 1;
        }
        proof {
            assert forall|k: int| taken <= k < sorted@.len() implies (#[trigger] sorted@[k]).start > position by {
                if taken < k {
                    assert(sorted@[taken as int].lt(sorted@[k]));
                }
            }
            lemma_reach(sorted@, taken as int);
            assert((top > position) == spans_have(spans@, position as int)) by {
                if top > position {
                    let k = choose|k: int| 0 <= k < taken && (#[trigger] sorted@[k]).start + sorted@[k].length == top;
                    assert(sorted@[k].has(position as int));
                    assert(sorted@.contains(sorted@[k]));
                    assert(spans@.contains(sorted@[k]));
                    let m = choose|m: int| 0 <= m < spans@.len() && spans@[m] == sorted@[k];
                    assert(spans@[m].has(position as int));
                }
                if spans_have(spans@, position as int) {
                    let m = choose|m: int| 0 <= m < spans@.len() && (#[trigger] spans@[m]).has(position as int);
                    assert(spans@.contains(spans@[m]));
                    assert(sorted@.contains(spans@[m]));
                    let k = choose|k: int| 0 <= k < sorted@.len() && sorted@[k] == spans@[m];
                    assert(k < taken);
                    assert(sorted@[k].start + sorted@[k].length <= top);
                }
            }
        }
        if i + 1 < cuts.len() {
            let next: usize = cuts[i + 1];
            assert(cuts@[i as int].lt(cuts@[i + 1]));
            if top > position {
                atoms.push(PackedSpan { start: position, length: next - position });
            }
            proof {
                lemma_between_cuts(spans@, endpoints@, cuts@, i as int);
                assert forall|bit: int| position <= bit < next implies (spans_have(spans@, bit) == spans_have(spans@, position as int)) by {
                    lemma_constant_between(spans@, endpoints@, position as int, bit);
                }
                assert forall|bit: int| #[trigger] spans_have(atoms@, bit) <==> spans_have(before, bit) || (top > position && position <= bit < next) by {
                    if spans_have(before, bit) {
                        let k = choose|k: int| 0 <= k < before.len() && (#[trigger] before[k]).has(bit);
                        assert(atoms@[k].has(bit));
                    }
                    if top > position && position <= bit < next {
                        assert(atoms@[before.len() as int].has(bit));
                    }
                    if spans_have(atoms@, bit) {
                        let k = choose|k: int| 0 <= k < atoms@.len() && (#[trigger] atoms@[k]).has(bit);
                        if k < before.len() {
                            assert(before[k].has(bit));
                        }
                    }
                }
                assert forall|bit: int| bit >= next implies !#[trigger] spans_have(atoms@, bit) by {
                    if i == 0 {
                        assert(!spans_have(before, bit));
                    } else {
                        assert(!spans_have(before, bit));
                    }
                }
                assert forall|bit: int| bit < next implies (#[trigger] spans_have(atoms@, bit) <==> spans_have(spans@, bit)) by {
                    if bit < position {
                        if i == 0 {
                            lemma_before_first(spans@, endpoints@, cuts@, bit);
                            assert(!spans_have(before, bit));
                        } else {
                            assert(spans_have(before, bit) <==> spans_have(spans@, bit));
                        }
                    } else {
                        assert(!spans_have(before, bit));
                    }
                }
                assert(cuts@.contains(cuts@[i as int]));
                assert(cuts@.contains(cuts@[i + 1]));
            }
        } else {
            proof {
                assert forall|bit: int| #[trigger] spans_have(atoms@, bit) <==> spans_have(spans@, bit) by {
                    if bit < position {
                        if i == 0 {
                            lemma_before_first(spans@, endpoints@, cuts@, bit);
                        }
                    } else {
                        lemma_after_last(spans@, endpoints@, cuts@, bit);
                    }
                }
            }
        }
        i = i + 1;
    }
    proof {
        assert forall|bit: int| #[trigger] spans_have(atoms@, bit) <==> spans_have(spans@, bit) by {
            if cuts@.len() == 0 && spans_have(spans@, bit) {
                let m = choose|m: int| 0 <= m < spans@.len() && (#[trigger] spans@[m]).has(bit);
                assert(is_boundary(spans@, endpoints@, spans@[m].start as int));
                assert(cuts@.contains(spans@[m].start));
            }
        }
    }
    atoms
}

/// No boundary lies between two neighbouring cuts.
proof fn lemma_between_cuts(spans: Seq<PackedSpan>, endpoints: Seq<usize>, cuts: Seq<usize>, i: int)
    requires
        order::strictly_sorted(cuts),
        spans_wf(spans),
        forall|x: usize| #[trigger] cuts.contains(x) <==> is_boundary(spans, endpoints, x as int),
        0 <= i,
        i + 1 < cuts.len(),
    ensures
        forall|position: int| cuts[i] < position < cuts[i + 1] ==> !#[trigger] is_boundary(spans, endpoints, position),
{
    assert forall|position: int| cuts[i] < position < cuts[i + 1] implies !#[trigger] is_boundary(spans, endpoints, position) by {
        if is_boundary(spans, endpoints, position) {
            let x = position as usize;
            assert(cuts.contains(x));
            let k = choose|k: int| 0 <= k < cuts.len() && cuts[k] == x;
            if k <= i {
                if k < i {
                    assert(cuts[k].lt(cuts[i]));
                }
            } else if k > i + 1 {
                assert(cuts[i + 1].lt(cuts[k]));
            }
        }
    }
}

/// Whether a span has a bit changes at boundaries only.
proof fn lemma_constant_between(spans: Seq<PackedSpan>, endpoints: Seq<usize>, from: int, bit: int)
    requires
        from <= bit,
        forall|position: int| from < position <= bit ==> !#[trigger] is_boundary(spans, endpoints, position),
    ensures
        spans_have(spans, bit) == spans_have(spans, from),
{
    if spans_have(spans, bit) {
        let m = choose|m: int| 0 <= m < spans.len() && (#[trigger] spans[m]).has(bit);
        if spans[m].start > from {
            assert(is_boundary(spans, endpoints, spans[m].start as int));
        }
        assert(spans[m].has(from));
    }
    if spans_have(spans, from) {
        let m = choose|m: int| 0 <= m < spans.len() && (#[trigger] spans[m]).has(from);
        let end = spans[m].start + spans[m].length;
        if end <= bit {
            assert(is_boundary(spans, endpoints, end));
        }
        assert(spans[m].has(bit));
    }
}

proof fn lemma_before_first(spans: Seq<PackedSpan>, endpoints: Seq<usize>, cuts: Seq<usize>, bit: int)
    requires
        order::strictly_sorted(cuts),
        cuts.len() > 0,
        forall|x: usize| #[trigger] cuts.contains(x) <==> is_boundary(spans, endpoints, x as int),
        bit < cuts[0],
    ensures
        !spans_have(spans, bit),
{
    if spans_have(spans, bit) {
        let m = choose|m: int| 0 <= m < spans.len() && (#[trigger] spans[m]).has(bit);
        assert(is_boundary(spans, endpoints, spans[m].start as int));
        assert(cuts.contains(spans[m].start));
        let k = choose|k: int| 0 <= k < cuts.len() && cuts[k] == spans[m].start;
        if k > 0 {
            assert(cuts[0].lt(cuts[k]));
        }
    }
}

proof fn lemma_after_last(spans: Seq<PackedSpan>, endpoints: Seq<usize>, cuts: Seq<usize>, bit: int)
    requires
        order::strictly_sorted(cuts),
        spans_wf(spans),
        cuts.len() > 0,
        forall|x: usize| #[trigger] cuts.contains(x) <==> is_boundary(spans, endpoints, x as int),
        bit >= cuts[cuts.len() - 1],
    ensures
        !spans_have(spans, bit),
{
    if spans_have(spans, bit) {
        let m = choose|m: int| 0 <= m < spans.len() && (#[trigger] spans[m]).has(bit);
        assert(spans[m].wf());
        let end = (spans[m].start + spans[m].length) as usize;
        assert(is_boundary(spans, endpoints, end as int));
        assert(cuts.contains(end));
        let k = choose|k: int| 0 <= k < cuts.len() && cuts[k] == end;
        if k < cuts.len() - 1 {
            assert(cuts[k].lt(cuts[cuts.len() - 1]));
        }
    }
}

/// An access to packed bits of array elements of a variable.
#[derive(Clone, Copy, Debug, PartialEq, Eq, Hash, Structural)]
pub struct RegionAccess {
    pub id: u64,
    pub array: ArraySpan,
    pub packed: PackedSpan,
}

impl Ordered for RegionAccess {
    open spec fn lt(self, other: Self) -> bool {
        self.id < other.id || (self.id == other.id && (self.array.start < other.array.start || (
        self.array.start == other.array.start && (self.array.length < other.array.length || (
        self.array.length == other.array.length && self.packed.lt(other.packed))))))
    }

    proof fn lt_irreflexive(a: Self) {
    }

    proof fn lt_transitive(a: Self, b: Self, c: Self) {
    }

    proof fn lt_total(a: Self, b: Self) {
        PackedSpan::lt_total(a.packed, b.packed);
    }

    fn less(self, other: Self) -> (r: bool) {
        self.id < other.id || (self.id == other.id && (self.array.start < other.array.start || (
        self.array.start == other.array.start && (self.array.length < other.array.length || (
        self.array.length == other.array.length && self.packed.less(other.packed))))))
    }
}

/// The array elements of some access, with the packed ranges into which they are split.
pub struct IndexedRanges {
    pub id: u64,
    pub array: ArraySpan,
    pub packed: Vec<PackedSpan>,
}

/// The access touches an element, and its end fits.
pub open spec fn usable(access: RegionAccess) -> bool {
    access.array.length > 0 && access.array.bounded()
}

/// The access touches `element` of variable `id`.
pub open spec fn touches(access: RegionAccess, id: u64, element: int) -> bool {
    usable(access) && access.id == id && access.array.has(element)
}

/// The packed spans with which an element is accessed.
pub open spec fn packed_at(accesses: Seq<RegionAccess>, id: u64, element: int) -> Set<PackedSpan> {
    Set::new(
        |s: PackedSpan|
            exists|k: int|
                0 <= k < accesses.len() && touches(#[trigger] accesses[k], id, element)
                    && accesses[k].packed == s,
    )
}

/// The atoms of a set of spans.
pub open spec fn atoms_of(
    atoms: Seq<PackedSpan>,
    spans: Set<PackedSpan>,
    endpoints: Seq<usize>,
) -> bool {
    exists|list: Seq<PackedSpan>|
        (forall|x: PackedSpan| #[trigger] list.contains(x) <==> spans.contains(x))
            && #[trigger] are_atoms(atoms, list, endpoints)
}

/// The bits at which variable `id` is cut besides those where an access ends.
pub open spec fn endpoints_of(endpoints: Map<u64, Vec<usize>>, id: u64) -> Seq<usize> {
    if endpoints.dom().contains(id) {
        endpoints[id]@
    } else {
        Seq::empty()
    }
}

/// An access of variable `id` starts or ends at array element `position`.
pub open spec fn array_boundary(accesses: Seq<RegionAccess>, id: u64, position: int) -> bool {
    exists|k: int|
        0 <= k < accesses.len() && usable(#[trigger] accesses[k]) && accesses[k].id == id && (
        accesses[k].array.start == position || accesses[k].array.start + accesses[k].array.length
            == position)
}

/// Every access takes the region whole or not at all, and its packed bits are split into atoms.
pub open spec fn region_right(
    accesses: Seq<RegionAccess>,
    endpoints: Map<u64, Vec<usize>>,
    region: IndexedRanges,
) -> bool {
    &&& region.array.length > 0
    &&& region.array.bounded()
    &&& array_boundary(accesses, region.id, region.array.start as int)
    &&& array_boundary(accesses, region.id, region.array.start + region.array.length)
    &&& forall|k: int, element: int|
        0 <= k < accesses.len() && region.array.has(element) ==> (#[trigger] touches(
            accesses[k],
            region.id,
            element,
        ) <==> touches(accesses[k], region.id, region.array.start as int))
    &&& atoms_of(
        region.packed@,
        packed_at(accesses, region.id, region.array.start as int),
        endpoints_of(endpoints, region.id),
    )
}

/// The first region lies before the second.
pub open spec fn region_before(a: IndexedRanges, b: IndexedRanges) -> bool {
    a.id < b.id || (a.id == b.id && a.array.start + a.array.length <= b.array.start)
}

pub open spec fn regions_ascend(regions: Seq<IndexedRanges>) -> bool {
    forall|i: int, j: int|
        0 <= i < j < regions.len() ==> region_before(#[trigger] regions[i], #[trigger] regions[j])
}

/// Some access touches the element.
pub open spec fn accessed(accesses: Seq<RegionAccess>, id: u64, element: int) -> bool {
    exists|k: int| 0 <= k < accesses.len() && #[trigger] touches(accesses[k], id, element)
}

/// Some region has the element.
pub open spec fn in_regions(regions: Seq<IndexedRanges>, id: u64, element: int) -> bool {
    exists|i: int|
        0 <= i < regions.len() && (#[trigger] regions[i]).id == id && regions[i].array.has(element)
}

/// The regions into which accesses split their variables.
pub open spec fn splits(
    accesses: Seq<RegionAccess>,
    endpoints: Map<u64, Vec<usize>>,
    regions: Seq<IndexedRanges>,
) -> bool {
    &&& regions_ascend(regions)
    &&& forall|i: int| 0 <= i < regions.len() ==> region_right(accesses, endpoints, #[trigger] regions[i])
    &&& forall|id: u64, element: int| #[trigger]
        in_regions(regions, id, element) <==> accessed(accesses, id, element)
}

pub open spec fn accesses_wf(accesses: Seq<RegionAccess>) -> bool {
    forall|k: int| 0 <= k < accesses.len() ==> (#[trigger] accesses[k]).packed.wf()
}

/// The accesses that are active at `position`: `active` lists their numbers among the first
/// `taken`.
spec fn lists_active(group: Seq<RegionAccess>, active: Seq<usize>, taken: int, position: int) -> bool {
    forall|k: usize| #[trigger]
        active.contains(k) <==> k < taken && group[k as int].array.has(position)
}

/// Splits the array of one variable.
fn split_variable(
    group: &Vec<RegionAccess>,
    id: u64,
    points: &Vec<usize>,
    Ghost(accesses): Ghost<Seq<RegionAccess>>,
    Ghost(endpoints): Ghost<Map<u64, Vec<usize>>>,
    out: &mut Vec<IndexedRanges>,
)
    requires
        accesses_wf(group@),
        order::strictly_sorted(group@),
        group@.len() > 0,
        points@ == endpoints_of(endpoints, id),
        forall|x: RegionAccess| #[trigger] group@.contains(x) <==> accesses.contains(x) && x.id == id && usable(x),
        regions_ascend(old(out)@),
        forall|i: int| 0 <= i < old(out)@.len() ==> (#[trigger] old(out)@[i]).id < id,
    ensures
        old(out)@.len() <= final(out)@.len(),
        final(out)@.take(old(out)@.len() as int) == old(out)@,
        regions_ascend(final(out)@),
        forall|i: int|
            old(out)@.len() <= i < final(out)@.len() ==> region_right(accesses, endpoints, #[trigger] final(out)@[i])
                && final(out)@[i].id == id,
        forall|element: int| #[trigger]
            in_regions(final(out)@, id, element) <==> accessed(accesses, id, element),
{
    let ghost first = out@;
    let count: usize = group.len();
    let mut arrays: Vec<PackedSpan> = Vec::new();
    let mut k: usize = 0;
    while k < group.len()
        invariant
            k <= group@.len(),
            arrays@.len() == k,
            forall|x: RegionAccess| #[trigger] group@.contains(x) <==> accesses.contains(x) && x.id == id && usable(x),
            spans_wf(arrays@),
            forall|m: int|
                0 <= m < k ==> (#[trigger] arrays@[m]).start == group@[m].array.start && arrays@[m].length
                    == group@[m].array.length,
        decreases group@.len() - k,
    {
        assert(group@.contains(group@[k as int]));
        arrays.push(PackedSpan { start: group[k].array.start, length: group[k].array.length });
        k = k + 1;
    }
    let none: Vec<usize> = Vec::new();
    let cuts = boundaries(&arrays, &none);
    proof {
        assert forall|x: usize| #[trigger] cuts@.contains(x) <==> array_boundary(accesses, id, x as int) by {
            lemma_array_boundary(group@, arrays@, none@, accesses, id, x as int);
        }
        assert(first.take(first.len() as int) =~= first);
        lemma_in_regions_below(first, id);
    }
    let mut active: Vec<usize> = Vec::new();
    let mut taken: usize = 0;
    let mut i: usize = 0;
    while i < cuts.len()
        invariant
            i <= cuts@.len(),
            points@ == endpoints_of(endpoints, id),
            count == group@.len(),
            accesses_wf(group@),
            order::strictly_sorted(group@),
            order::strictly_sorted(cuts@),
            forall|x: RegionAccess| #[trigger] group@.contains(x) <==> accesses.contains(x) && x.id == id && usable(x),
            forall|x: usize| #[trigger] cuts@.contains(x) <==> array_boundary(accesses, id, x as int),
            taken <= group@.len(),
            forall|m: int| 0 <= m < taken ==> i > 0 && (#[trigger] group@[m]).array.start <= cuts@[i - 1],
            i > 0 ==> forall|m: int| taken <= m < group@.len() ==> (#[trigger] group@[m]).array.start > cuts@[i - 1],
            i > 0 ==> lists_active(group@, active@, taken as int, cuts@[i - 1] as int),
            i == 0 ==> active@.len() == 0,
            first.len() <= out@.len(),
            out@.take(first.len() as int) == first,
            regions_ascend(out@),
            forall|m: int| 0 <= m < first.len() ==> (#[trigger] first[m]).id < id,
            forall|m: int|
                first.len() <= m < out@.len() ==> region_right(accesses, endpoints, #[trigger] out@[m]) && out@[m].id == id
                    && (i < cuts@.len() ==> out@[m].array.start + out@[m].array.length <= cuts@[i as int]),
            forall|element: int|
                (i == 0 || (i < cuts@.len() && element >= cuts@[i as int])) ==> !#[trigger] in_regions(out@, id, element),
            forall|element: int|
                i > 0 && (i == cuts@.len() || element < cuts@[i as int]) ==> (#[trigger] in_regions(out@, id, element)
                    <==> accessed(accesses, id, element)),
        decreases cuts@.len() - i,
    {
        let position: usize = cuts[i];
        let ghost before = out@;
        let ghost active0 = active@;
        let ghost taken0 = taken as int;
        let mut now: Vec<usize> = Vec::new();
        let mut a: usize = 0;
        proof {
            if i > 0 {
                assert(cuts@[i - 1].lt(cuts@[i as int]));
            }
            assert forall|m: usize| #[trigger] active0.contains(m) implies m < taken0 by {
                if i == 0 {
                    let z = choose|z: int| 0 <= z < active0.len() && active0[z] == m;
                }
            }
        }
        while a < active.len()
            invariant
                a <= active@.len(),
                active@ == active0,
                forall|m: usize| #[trigger] active0.contains(m) ==> m < taken0,
                taken0 <= group@.len(),
                count == group@.len(),
                forall|x: RegionAccess| #[trigger] group@.contains(x) <==> accesses.contains(x) && x.id == id && usable(x),
                forall|m: usize| #[trigger]
                    now@.contains(m) <==> active0.take(a as int).contains(m) && group@[m as int].array.start
                        + group@[m as int].array.length > position,
            decreases active@.len() - a,
        {
            let m: usize = active[a];
            let ghost now0 = now@;
            assert(active0.contains(m));
            assert(group@.contains(group@[m as int]));
            let keep: bool = group[m].array.start + group[m].array.length > position;
            if keep {
                now.push(m);
            }
            proof {
                assert(active0.take(a as int + 1) =~= active0.take(a as int).push(m));
                assert forall|x: usize| #[trigger] now@.contains(x) <==> active0.take(a as int + 1).contains(x) && group@[x as int].array.start
                    + group@[x as int].array.length > position by {
                    lemma_contains_push(active0.take(a as int), m, x);
                    if keep {
                        lemma_contains_push(now0, m, x);
                        assert(now@ =~= now0.push(m));
                    }
                }
            }
            a = a + 1;
        }
        proof {
            assert(active0.take(a as int) =~= active0);
            assert(lists_active(group@, now@, taken0, position as int)) by {
                assert forall|m: usize| #[trigger] now@.contains(m) <==> m < taken0 && group@[m as int].array.has(position as int) by {
                    if m < taken0 && group@[m as int].array.has(position as int) {
                        assert(group@[m as int].array.start <= cuts@[i - 1]);
                        assert(group@[m as int].array.has(cuts@[i - 1] as int));
                        assert(active0.contains(m));
                    }
                    if now@.contains(m) {
                        assert(active0.contains(m));
                        assert(group@[m as int].array.has(cuts@[i - 1] as int));
                    }
                }
            }
        }
        while taken < group.len() && group[taken].array.start <= position
            invariant
                taken0 <= taken <= group@.len(),
                count == group@.len(),
                accesses_wf(group@),
                forall|x: RegionAccess| #[trigger] group@.contains(x) <==> accesses.contains(x) && x.id == id && usable(x),
                forall|m: int| 0 <= m < taken ==> (#[trigger] group@[m]).array.start <= position,
                lists_active(group@, now@, taken as int, position as int),
            decreases group@.len() - taken,
        {
            let ghost now0 = now@;
            assert(group@.contains(group@[taken as int]));
            let ends: usize = group[taken].array.start + group[taken].array.length;
            if ends > position {
                now.push(taken);
            }
            proof {
                assert forall|m: usize| #[trigger] now@.contains(m) <==> m < taken + 1 && group@[m as int].array.has(position as int) by {
                    if ends > position {
                        lemma_contains_push(now0, taken, m);
                        assert(now@ =~= now0.push(taken));
                    }
                    assert(now0.contains(m) <==> m < taken && group@[m as int].array.has(position as int));
                }
            }
            taken = taken + 1;
        }
        active = now;
        proof {
            assert forall|m: int| taken <= m < group@.len() implies (#[trigger] group@[m]).array.start > position by {
                if taken < m {
                    assert(group@[taken as int].lt(group@[m]));
                    assert(group@.contains(group@[taken as int]));
                    assert(group@.contains(group@[m]));
                }
            }
        }
        if i + 1 < cuts.len() {
            let next: usize = cuts[i + 1];
            assert(cuts@[i as int].lt(cuts@[i + 1]));
            proof {
                assert forall|element: int, x: RegionAccess| accesses.contains(x) && position <= element < next implies (#[trigger] touches(x, id, element)
                    <==> touches(x, id, position as int)) by {
                    lemma_touches_constant(accesses, id, cuts@, i as int, x, element);
                }
                assert((active@.len() > 0) == accessed(accesses, id, position as int)) by {
                    lemma_active_accessed(group@, active@, taken as int, accesses, id, position as int);
                }
            }
            if active.len() > 0 {
                let mut spans: Vec<PackedSpan> = Vec::new();
                let mut b: usize = 0;
                while b < active.len()
                    invariant
                        b <= active@.len(),
                        count == group@.len(),
                        accesses_wf(group@),
                        taken <= group@.len(),
                        lists_active(group@, active@, taken as int, position as int),
                        spans@.len() == b,
                        spans_wf(spans@),
                        forall|z: int| 0 <= z < b ==> #[trigger] spans@[z] == group@[active@[z] as int].packed,
                    decreases active@.len() - b,
                {
                    assert(active@.contains(active@[b as int]));
                    assert(group@[active@[b as int] as int].packed.wf());
                    spans.push(group[active[b]].packed);
                    b = b + 1;
                }
                let parts = atomic_ranges(&spans, points);
                proof {
                    assert forall|x: PackedSpan| #[trigger] spans@.contains(x) <==> packed_at(accesses, id, position as int).contains(x) by {
                        lemma_active_packed(group@, active@, taken as int, accesses, id, position as int, spans@, x, count);
                    }
                }
                out.push(IndexedRanges { id, array: ArraySpan { start: position, length: next - position }, packed: parts });
                proof {
                    let region = out@.last();
                    assert(are_atoms(region.packed@, spans@, points@));
                    assert(atoms_of(region.packed@, packed_at(accesses, id, position as int), points@));
                    assert(cuts@.contains(cuts@[i as int]));
                    assert(cuts@.contains(cuts@[i + 1]));
                    assert forall|m: int, element: int| 0 <= m < accesses.len() && region.array.has(element) implies (#[trigger] touches(accesses[m], id, element)
                        <==> touches(accesses[m], id, region.array.start as int)) by {
                        assert(accesses.contains(accesses[m]));
                    }
                    assert(region_right(accesses, endpoints, region));
                    assert(out@.take(first.len() as int) =~= before.take(first.len() as int));
                    assert forall|x: int, y: int| 0 <= x < y < out@.len() implies region_before(#[trigger] out@[x], #[trigger] out@[y]) by {
                        if y == out@.len() - 1 {
                            if x < first.len() {
                                assert(out@.take(first.len() as int)[x] == out@[x]);
                                assert(first[x].id < id);
                            } else {
                                assert(out@[x] == before[x]);
                            }
                        } else {
                            assert(region_before(before[x], before[y]));
                        }
                    }
                }
            }
            proof {
                assert forall|element: int| #[trigger] in_regions(out@, id, element) <==> in_regions(before, id, element) || (active@.len() > 0 && position <= element < next) by {
                    if in_regions(before, id, element) {
                        let z = choose|z: int| 0 <= z < before.len() && (#[trigger] before[z]).id == id && before[z].array.has(element);
                        assert(out@[z].id == id && out@[z].array.has(element));
                    }
                    if active@.len() > 0 && position <= element < next {
                        assert(out@[before.len() as int].id == id && out@[before.len() as int].array.has(element));
                    }
                    if in_regions(out@, id, element) {
                        let z = choose|z: int| 0 <= z < out@.len() && (#[trigger] out@[z]).id == id && out@[z].array.has(element);
                        if z < before.len() {
                            assert(before[z].id == id && before[z].array.has(element));
                        }
                    }
                }
                assert forall|element: int| element >= next implies !#[trigger] in_regions(out@, id, element) by {
                    assert(!in_regions(before, id, element));
                }
                assert forall|element: int| element < next implies (#[trigger] in_regions(out@, id, element) <==> accessed(accesses, id, element)) by {
                    if element < position {
                        if i == 0 {
                            lemma_array_before_first(accesses, id, cuts@, element);
                            assert(!in_regions(before, id, element));
                        } else {
                            assert(in_regions(before, id, element) <==> accessed(accesses, id, element));
                        }
                    } else {
                        assert(!in_regions(before, id, element));
                        if accessed(accesses, id, element) {
                            let z = choose|z: int| 0 <= z < accesses.len() && #[trigger] touches(accesses[z], id, element);
                            assert(accesses.contains(accesses[z]));
                            assert(touches(accesses[z], id, position as int));
                        }
                        if accessed(accesses, id, position as int) {
                            let z = choose|z: int| 0 <= z < accesses.len() && #[trigger] touches(accesses[z], id, position as int);
                            assert(accesses.contains(accesses[z]));
                            assert(touches(accesses[z], id, element));
                        }
                    }
                }
            }
        } else {
            proof {
                assert forall|element: int| #[trigger] in_regions(out@, id, element) <==> accessed(accesses, id, element) by {
                    if element < position {
                        if i == 0 {
                            lemma_array_before_first(accesses, id, cuts@, element);
                        }
                    } else {
                        lemma_array_after_last(accesses, id, cuts@, element);
                    }
                }
            }
        }
        i = i + 1;
    }
    proof {
        assert(group@.contains(group@[0]));
        assert(accesses.contains(group@[0]));
        let z = choose|z: int| 0 <= z < accesses.len() && accesses[z] == group@[0];
        assert(array_boundary(accesses, id, accesses[z].array.start as int));
        assert(cuts@.contains(accesses[z].array.start));
        assert(cuts@.len() > 0);
    }
}

proof fn lemma_in_regions_below(regions: Seq<IndexedRanges>, id: u64)
    requires
        forall|i: int| 0 <= i < regions.len() ==> (#[trigger] regions[i]).id < id,
    ensures
        forall|element: int| !#[trigger] in_regions(regions, id, element),
{
}

proof fn lemma_array_boundary(
    group: Seq<RegionAccess>,
    arrays: Seq<PackedSpan>,
    none: Seq<usize>,
    accesses: Seq<RegionAccess>,
    id: u64,
    position: int,
)
    requires
        none.len() == 0,
        arrays.len() == group.len(),
        forall|m: int| 0 <= m < group.len() ==> (#[trigger] arrays[m]).start == group[m].array.start && arrays[m].length == group[m].array.length,
        forall|x: RegionAccess| #[trigger] group.contains(x) <==> accesses.contains(x) && x.id == id && usable(x),
    ensures
        is_boundary(arrays, none, position) <==> array_boundary(accesses, id, position),
{
    if is_boundary(arrays, none, position) {
        let m = choose|m: int| 0 <= m < arrays.len() && ((#[trigger] arrays[m]).start == position || arrays[m].start + arrays[m].length == position);
        assert(group.contains(group[m]));
        let z = choose|z: int| 0 <= z < accesses.len() && accesses[z] == group[m];
        assert(usable(accesses[z]));
    }
    if array_boundary(accesses, id, position) {
        let z = choose|z: int| 0 <= z < accesses.len() && usable(#[trigger] accesses[z]) && accesses[z].id == id && (
        accesses[z].array.start == position || accesses[z].array.start + accesses[z].array.length == position);
        assert(accesses.contains(accesses[z]));
        assert(group.contains(accesses[z]));
        let m = choose|m: int| 0 <= m < group.len() && group[m] == accesses[z];
        assert(arrays[m].start == position || arrays[m].start + arrays[m].length == position);
    }
}

/// Whether an access touches an element changes at cuts only.
proof fn lemma_touches_constant(accesses: Seq<RegionAccess>, id: u64, cuts: Seq<usize>, i: int, x: RegionAccess, element: int)
    requires
        order::strictly_sorted(cuts),
        forall|c: usize| #[trigger] cuts.contains(c) <==> array_boundary(accesses, id, c as int),
        0 <= i,
        i + 1 < cuts.len(),
        accesses.contains(x),
        cuts[i] <= element < cuts[i + 1],
    ensures
        touches(x, id, element) <==> touches(x, id, cuts[i] as int),
{
    if usable(x) && x.id == id {
        let z = choose|z: int| 0 <= z < accesses.len() && accesses[z] == x;
        let end = (x.array.start + x.array.length) as usize;
        assert(usable(accesses[z]));
        assert(array_boundary(accesses, id, x.array.start as int));
        assert(array_boundary(accesses, id, end as int));
        assert(cuts.contains(x.array.start));
        assert(cuts.contains(end));
        let a = choose|a: int| 0 <= a < cuts.len() && cuts[a] == x.array.start;
        let b = choose|b: int| 0 <= b < cuts.len() && cuts[b] == end;
        if a <= i {
            if a < i {
                assert(cuts[a].lt(cuts[i]));
            }
        } else if a > i + 1 {
            assert(cuts[i + 1].lt(cuts[a]));
        }
        if b <= i {
            if b < i {
                assert(cuts[b].lt(cuts[i]));
            }
        } else if b > i + 1 {
            assert(cuts[i + 1].lt(cuts[b]));
        }
    }
}

proof fn lemma_active_accessed(group: Seq<RegionAccess>, active: Seq<usize>, taken: int, accesses: Seq<RegionAccess>, id: u64, position: int)
    requires
        lists_active(group, active, taken, position),
        0 <= taken <= group.len() <= usize::MAX,
        forall|m: int| taken <= m < group.len() ==> (#[trigger] group[m]).array.start > position,
        forall|x: RegionAccess| #[trigger] group.contains(x) <==> accesses.contains(x) && x.id == id && usable(x),
    ensures
        (active.len() > 0) == accessed(accesses, id, position),
{
    if active.len() > 0 {
        let m = active[0];
        assert(active.contains(m));
        assert(group.contains(group[m as int]));
        let z = choose|z: int| 0 <= z < accesses.len() && accesses[z] == group[m as int];
        assert(touches(accesses[z], id, position));
    }
    if accessed(accesses, id, position) {
        let z = choose|z: int| 0 <= z < accesses.len() && #[trigger] touches(accesses[z], id, position);
        assert(accesses.contains(accesses[z]));
        assert(group.contains(accesses[z]));
        let m = choose|m: int| 0 <= m < group.len() && group[m] == accesses[z];
        assert(m < taken);
        assert(active.contains(m as usize));
    }
}

proof fn lemma_active_packed(
    group: Seq<RegionAccess>,
    active: Seq<usize>,
    taken: int,
    accesses: Seq<RegionAccess>,
    id: u64,
    position: int,
    spans: Seq<PackedSpan>,
    x: PackedSpan,
    count: usize,
)
    requires
        lists_active(group, active, taken, position),
        0 <= taken <= group.len(),
        group.len() == count,
        forall|m: int| taken <= m < group.len() ==> (#[trigger] group[m]).array.start > position,
        forall|x: RegionAccess| #[trigger] group.contains(x) <==> accesses.contains(x) && x.id == id && usable(x),
        spans.len() == active.len(),
        forall|z: int| 0 <= z < spans.len() ==> #[trigger] spans[z] == group[active[z] as int].packed,
    ensures
        spans.contains(x) <==> packed_at(accesses, id, position).contains(x),
{
    if spans.contains(x) {
        let z = choose|z: int| 0 <= z < spans.len() && spans[z] == x;
        assert(active.contains(active[z]));
        let access = group[active[z] as int];
        assert(group.contains(access));
        let m = choose|m: int| 0 <= m < accesses.len() && accesses[m] == access;
        assert(touches(accesses[m], id, position) && accesses[m].packed == x);
    }
    if packed_at(accesses, id, position).contains(x) {
        let m = choose|m: int| 0 <= m < accesses.len() && touches(#[trigger] accesses[m], id, position) && accesses[m].packed == x;
        assert(accesses.contains(accesses[m]));
        assert(group.contains(accesses[m]));
        let g = choose|g: int| 0 <= g < group.len() && group[g] == accesses[m];
        assert(g < taken);
        assert(active.contains(g as usize));
        let z = choose|z: int| 0 <= z < active.len() && active[z] == g as usize;
        assert(spans[z] == x);
    }
}

proof fn lemma_array_before_first(accesses: Seq<RegionAccess>, id: u64, cuts: Seq<usize>, element: int)
    requires
        order::strictly_sorted(cuts),
        cuts.len() > 0,
        forall|c: usize| #[trigger] cuts.contains(c) <==> array_boundary(accesses, id, c as int),
        element < cuts[0],
    ensures
        !accessed(accesses, id, element),
{
    if accessed(accesses, id, element) {
        let z = choose|z: int| 0 <= z < accesses.len() && #[trigger] touches(accesses[z], id, element);
        assert(array_boundary(accesses, id, accesses[z].array.start as int));
        assert(cuts.contains(accesses[z].array.start));
        let k = choose|k: int| 0 <= k < cuts.len() && cuts[k] == accesses[z].array.start;
        if k > 0 {
            assert(cuts[0].lt(cuts[k]));
        }
    }
}

proof fn lemma_array_after_last(accesses: Seq<RegionAccess>, id: u64, cuts: Seq<usize>, element: int)
    requires
        order::strictly_sorted(cuts),
        cuts.len() > 0,
        forall|c: usize| #[trigger] cuts.contains(c) <==> array_boundary(accesses, id, c as int),
        element >= cuts[cuts.len() - 1],
    ensures
        !accessed(accesses, id, element),
{
    if accessed(accesses, id, element) {
        let z = choose|z: int| 0 <= z < accesses.len() && #[trigger] touches(accesses[z], id, element);
        let end = (accesses[z].array.start + accesses[z].array.length) as usize;
        assert(array_boundary(accesses, id, end as int));
        assert(cuts.contains(end));
        let k = choose|k: int| 0 <= k < cuts.len() && cuts[k] == end;
        if k < cuts.len() - 1 {
            assert(cuts[k].lt(cuts[cuts.len() - 1]));
        }
    }
}

/// Splits each variable where its accesses start and end: an array of elements is cut where the set
/// of accesses changes, and the packed bits of each part are cut into atoms.
///
/// An access without elements, or whose end does not fit the index type, counts for nothing.
pub fn split_array_spans(
    accesses: &Vec<RegionAccess>,
    endpoints: &HashMap<u64, Vec<usize>>,
) -> (r: Vec<IndexedRanges>)
    requires
        accesses_wf(accesses@),
    ensures
        splits(accesses@, endpoints@, r@),
{
    broadcast use vstd::std_specs::hash::group_hash_axioms;

    let sorted = sort_dedup(accesses);
    let none: Vec<usize> = Vec::new();
    let mut out: Vec<IndexedRanges> = Vec::new();
    let mut i: usize = 0;
    proof {
        assert forall|id: u64, element: int| (i == sorted@.len() || id < sorted@[i as int].id) implies (#[trigger] in_regions(out@, id, element)
            <==> accessed(accesses@, id, element)) by {
            lemma_no_access(accesses@, sorted@, i as int, id, element);
        }
    }
    while i < sorted.len()
        invariant
            i <= sorted@.len(),
            accesses_wf(accesses@),
            none@ == Seq::<usize>::empty(),
            0 < i < sorted@.len() ==> sorted@[i - 1].id < sorted@[i as int].id,
            order::strictly_sorted(sorted@),
            order::same_elements(sorted@, accesses@),
            regions_ascend(out@),
            forall|m: int|
                0 <= m < out@.len() ==> region_right(accesses@, endpoints@, #[trigger] out@[m]) && (i < sorted@.len() ==> out@[m].id
                    < sorted@[i as int].id),
            forall|id: u64, element: int|
                (i < sorted@.len() && id >= sorted@[i as int].id) ==> !#[trigger] in_regions(out@, id, element),
            forall|id: u64, element: int|
                (i == sorted@.len() || id < sorted@[i as int].id) ==> (#[trigger] in_regions(out@, id, element)
                    <==> accessed(accesses@, id, element)),
        decreases sorted@.len() - i,
    {
        let id: u64 = sorted[i].id;
        let first: usize = i;
        let ghost before = out@;
        let mut group: Vec<RegionAccess> = Vec::new();
        while i < sorted.len() && sorted[i].id == id
            invariant
                first <= i <= sorted@.len(),
                accesses_wf(accesses@),
                order::strictly_sorted(sorted@),
                order::same_elements(sorted@, accesses@),
                forall|m: int| first <= m < i ==> (#[trigger] sorted@[m]).id == id,
                accesses_wf(group@),
                order::strictly_sorted(group@),
                forall|x: RegionAccess| #[trigger] group@.contains(x) ==> i > first && (x.lt(sorted@[i - 1]) || x == sorted@[i - 1]),
                forall|x: RegionAccess| #[trigger]
                    group@.contains(x) <==> usable(x) && sorted@.subrange(first as int, i as int).contains(x),
            decreases sorted@.len() - i,
        {
            let access = sorted[i];
            let ghost group0 = group@;
            proof {
                assert(sorted@.contains(access));
                assert(accesses@.contains(access));
                let m = choose|m: int| 0 <= m < accesses@.len() && accesses@[m] == access;
                assert(accesses@[m].packed.wf());
                if i > first {
                    assert(sorted@[i - 1].lt(sorted@[i as int]));
                }
            }
            let take: bool = access.array.length > 0 && access.array.end().is_some();
            if take {
                group.push(access);
            }
            proof {
                assert(sorted@.subrange(first as int, i + 1) =~= sorted@.subrange(first as int, i as int).push(access));
                assert forall|x: RegionAccess| #[trigger] group@.contains(x) <==> usable(x) && sorted@.subrange(first as int, i + 1).contains(x) by {
                    lemma_contains_push(sorted@.subrange(first as int, i as int), access, x);
                    if take {
                        lemma_contains_push(group0, access, x);
                        assert(group@ =~= group0.push(access));
                    }
                }
                assert forall|x: RegionAccess| #[trigger] group@.contains(x) implies x.lt(access) || x == access by {
                    if take {
                        lemma_contains_push(group0, access, x);
                        assert(group@ =~= group0.push(access));
                    }
                    if group0.contains(x) && i > first && x.lt(sorted@[i - 1]) {
                        RegionAccess::lt_transitive(x, sorted@[i - 1], access);
                    }
                }
                assert forall|x: int, y: int| 0 <= x < y < group@.len() implies (#[trigger] group@[x]).lt(#[trigger] group@[y]) by {
                    if take && y == group@.len() - 1 {
                        assert(group0[x] == group@[x]);
                        assert(group0.contains(group@[x]));
                        if group@[x] != sorted@[i - 1] {
                            RegionAccess::lt_transitive(group@[x], sorted@[i - 1], access);
                        }
                    } else {
                        assert(group0[x].lt(group0[y]));
                    }
                }
            }
            i = i + 1;
        }
        proof {
            if i < sorted@.len() {
                assert(sorted@[first as int].lt(sorted@[i as int]));
            }
            assert forall|x: RegionAccess| #[trigger] group@.contains(x) <==> accesses@.contains(x) && x.id == id && usable(x) by {
                lemma_group(sorted@, first as int, i as int, id, x);
            }
        }
        if group.len() > 0 {
            match endpoints.get(&id) {
                Some(points) => {
                    split_variable(&group, id, points, Ghost(accesses@), Ghost(endpoints@), &mut out);
                },
                None => {
                    split_variable(&group, id, &none, Ghost(accesses@), Ghost(endpoints@), &mut out);
                },
            }
        } else {
            proof {
                assert forall|element: int| #[trigger] in_regions(out@, id, element) <==> accessed(accesses@, id, element) by {
                    if accessed(accesses@, id, element) {
                        let z = choose|z: int| 0 <= z < accesses@.len() && #[trigger] touches(accesses@[z], id, element);
                        assert(accesses@.contains(accesses@[z]));
                        assert(group@.contains(accesses@[z]));
                    }
                }
                assert(out@.take(before.len() as int) =~= before);
            }
        }
        proof {
            assert forall|m: int| 0 <= m < before.len() implies #[trigger] out@[m] == before[m] by {
                assert(out@.take(before.len() as int)[m] == out@[m]);
            }
            assert forall|m: int| 0 <= m < out@.len() implies region_right(accesses@, endpoints@, #[trigger] out@[m]) && (i < sorted@.len() ==> out@[m].id < sorted@[i as int].id) by {
                if m < before.len() {
                    assert(before[m] == out@[m]);
                }
            }
            assert forall|other: u64, element: int| other != id implies (#[trigger] in_regions(out@, other, element) <==> in_regions(before, other, element)) by {
                if in_regions(before, other, element) {
                    let z = choose|z: int| 0 <= z < before.len() && (#[trigger] before[z]).id == other && before[z].array.has(element);
                    assert(out@[z] == before[z]);
                }
                if in_regions(out@, other, element) {
                    let z = choose|z: int| 0 <= z < out@.len() && (#[trigger] out@[z]).id == other && out@[z].array.has(element);
                    assert(z < before.len());
                    assert(out@[z] == before[z]);
                }
            }
            assert forall|other: u64, element: int| (i == sorted@.len() || other < sorted@[i as int].id) implies (#[trigger] in_regions(out@, other, element)
                <==> accessed(accesses@, other, element)) by {
                if other > id {
                    lemma_no_access(accesses@, sorted@, i as int, other, element);
                    assert(!in_regions(before, other, element));
                } else if other < id {
                    assert(in_regions(before, other, element) <==> accessed(accesses@, other, element));
                }
            }
            assert forall|other: u64, element: int| (i < sorted@.len() && other >= sorted@[i as int].id) implies !#[trigger] in_regions(out@, other, element) by {
                assert(!in_regions(before, other, element));
            }
        }
    }
    out
}

/// The accesses of one variable are a run of the sorted list.
proof fn lemma_group(sorted: Seq<RegionAccess>, first: int, last: int, id: u64, x: RegionAccess)
    requires
        order::strictly_sorted(sorted),
        0 <= first < last <= sorted.len(),
        sorted[first].id == id,
        forall|m: int| first <= m < last ==> (#[trigger] sorted[m]).id == id,
        last < sorted.len() ==> sorted[last].id != id,
        first > 0 ==> sorted[first - 1].id < id,
    ensures
        sorted.subrange(first, last).contains(x) <==> sorted.contains(x) && x.id == id,
{
    let run = sorted.subrange(first, last);
    if run.contains(x) {
        let m = choose|m: int| 0 <= m < run.len() && run[m] == x;
        assert(sorted[first + m] == x);
    }
    if sorted.contains(x) && x.id == id {
        let m = choose|m: int| 0 <= m < sorted.len() && sorted[m] == x;
        if m < first {
            if m < first - 1 {
                assert(sorted[m].lt(sorted[first - 1]));
            }
        } else if m >= last {
            assert(sorted[first].lt(sorted[last]));
            if m > last {
                assert(sorted[last].lt(sorted[m]));
            }
        } else {
            assert(run[m - first] == x);
        }
    }
}

proof fn lemma_no_access(accesses: Seq<RegionAccess>, sorted: Seq<RegionAccess>, i: int, other: u64, element: int)
    requires
        order::strictly_sorted(sorted),
        order::same_elements(sorted, accesses),
        0 <= i <= sorted.len(),
        i > 0 ==> sorted[i - 1].id < other,
        i < sorted.len() ==> other < sorted[i].id,
    ensures
        !accessed(accesses, other, element),
{
    if accessed(accesses, other, element) {
        let z = choose|z: int| 0 <= z < accesses.len() && #[trigger] touches(accesses[z], other, element);
        assert(accesses.contains(accesses[z]));
        assert(sorted.contains(accesses[z]));
        let m = choose|m: int| 0 <= m < sorted.len() && sorted[m] == accesses[z];
        if m < i - 1 {
            assert(sorted[m].lt(sorted[i - 1]));
        } else if m > i {
            assert(sorted[i].lt(sorted[m]));
        }
    }
}

/// A node of a dependency graph: the elements `array` of variable `id`, and of their packed bits
/// the range with number `index`.
#[derive(Clone, Copy, Debug, PartialEq, Eq, Hash, Structural)]
pub struct NodeKey {
    pub id: u64,
    pub array: ArraySpan,
    pub index: usize,
}

impl Ordered for NodeKey {
    open spec fn lt(self, other: Self) -> bool {
        self.id < other.id || (self.id == other.id && (self.array.start < other.array.start || (
        self.array.start == other.array.start && (self.array.length < other.array.length || (
        self.array.length == other.array.length && self.index < other.index)))))
    }

    proof fn lt_irreflexive(a: Self) {
    }

    proof fn lt_transitive(a: Self, b: Self, c: Self) {
    }

    proof fn lt_total(a: Self, b: Self) {
    }

    fn less(self, other: Self) -> (r: bool) {
        self.id < other.id || (self.id == other.id && (self.array.start < other.array.start || (
        self.array.start == other.array.start && (self.array.length < other.array.length || (
        self.array.length == other.array.length && self.index < other.index)))))
    }
}

/// The regions into which the variables of a module are split.
pub struct BitPartition {
    pub regions: Vec<IndexedRanges>,
}

/// The two runs of elements have an element in common.
pub open spec fn arrays_meet(a: ArraySpan, b: ArraySpan) -> bool {
    &&& a.start < b.start + b.length
    &&& b.start < a.start + a.length
    &&& a.length > 0
    &&& b.length > 0
}

/// The two spans have a bit in common.
pub open spec fn spans_meet(a: PackedSpan, b: PackedSpan) -> bool {
    a.start < b.start + b.length && b.start < a.start + a.length
}

/// `spans` lists the elements of the regions of a variable, of which the first has number `first`.
pub open spec fn lists_arrays(
    regions: Seq<IndexedRanges>,
    id: u64,
    spans: Seq<ArraySpan>,
    first: int,
) -> bool {
    &&& 0 <= first <= regions.len() - spans.len()
    &&& forall|k: int|
        0 <= k < spans.len() ==> (#[trigger] spans[k]) == regions[first + k].array && regions[first
            + k].id == id
    &&& forall|i: int|
        0 <= i < regions.len() && (i < first || i >= first + spans.len()) ==> (
        #[trigger] regions[i]).id != id
}

impl BitPartition {
    pub open spec fn wf(self) -> bool {
        &&& regions_ascend(self.regions@)
        &&& forall|i: int|
            0 <= i < self.regions@.len() ==> (#[trigger] self.regions@[i]).array.length > 0
                && self.regions@[i].array.bounded() && spans_ascend(self.regions@[i].packed@)
    }

    /// The node with this key exists.
    pub open spec fn is_node(self, key: NodeKey) -> bool {
        exists|i: int|
            0 <= i < self.regions@.len() && (#[trigger] self.regions@[i]).id == key.id
                && self.regions@[i].array == key.array && key.index < self.regions@[i].packed@.len()
    }

    /// The node with this key exists, and has a bit of an element in common with the access.
    pub open spec fn selects(
        self,
        id: u64,
        array: ArraySpan,
        packed: PackedSpan,
        key: NodeKey,
    ) -> bool {
        key.id == id && exists|i: int|
            0 <= i < self.regions@.len() && (#[trigger] self.regions@[i]).id == id
                && self.regions@[i].array == key.array && arrays_meet(key.array, array) && key.index
                < self.regions@[i].packed@.len() && spans_meet(
                self.regions@[i].packed@[key.index as int],
                packed,
            )
    }

    /// Bit `bit` of element `element` belongs to the node.
    pub open spec fn node_has(self, key: NodeKey, element: int, bit: int) -> bool {
        exists|i: int|
            0 <= i < self.regions@.len() && (#[trigger] self.regions@[i]).id == key.id
                && self.regions@[i].array == key.array && key.index < self.regions@[i].packed@.len()
                && key.array.has(element) && self.regions@[i].packed@[key.index as int].has(bit)
    }

    /// A partition of the regions.
    pub fn new(regions: Vec<IndexedRanges>) -> (r: Self)
        ensures
            r.regions == regions,
    {
        BitPartition { regions }
    }

    /// The number of the first region that ends behind `element` of variable `id`.
    fn first_behind(&self, id: u64, element: usize) -> (r: usize)
        requires
            self.wf(),
        ensures
            r <= self.regions@.len(),
            forall|i: int|
                0 <= i < r ==> (#[trigger] self.regions@[i]).id < id || (self.regions@[i].id == id
                    && self.regions@[i].array.start + self.regions@[i].array.length <= element),
            forall|i: int|
                r <= i < self.regions@.len() ==> (#[trigger] self.regions@[i]).id > id || (
                self.regions@[i].id == id && self.regions@[i].array.start
                    + self.regions@[i].array.length > element),
    {
        let mut low: usize = 0;
        let mut high: usize = self.regions.len();
        while low < high
            invariant
                self.wf(),
                low <= high <= self.regions@.len(),
                forall|i: int|
                    0 <= i < low ==> (#[trigger] self.regions@[i]).id < id || (self.regions@[i].id
                        == id && self.regions@[i].array.start + self.regions@[i].array.length
                        <= element),
                forall|i: int|
                    high <= i < self.regions@.len() ==> (#[trigger] self.regions@[i]).id > id || (
                    self.regions@[i].id == id && self.regions@[i].array.start
                        + self.regions@[i].array.length > element),
            decreases high - low,
        {
            let middle: usize = low + (high - low) / 2;
            let ghost here = self.regions@[middle as int];
            let region = &self.regions[middle];
            let before: bool = region.id < id || (region.id == id && region.array.start
                + region.array.length <= element);
            proof {
                assert forall|i: int| 0 <= i < middle implies region_before(#[trigger] self.regions@[i], here) by {
                }
                assert forall|i: int| middle < i < self.regions@.len() implies region_before(here, #[trigger] self.regions@[i]) by {
                }
            }
            if before {
                low = middle + 1;
            } else {
                high = middle;
            }
        }
        low
    }

    /// The runs of elements into which the array of a variable is split, in ascending order.
    pub fn array_spans(&self, id: u64) -> (r: Vec<ArraySpan>)
        requires
            self.wf(),
        ensures
            exists|first: int| #[trigger] lists_arrays(self.regions@, id, r@, first),
    {
        let first: usize = self.first_behind(id, 0);
        let mut r: Vec<ArraySpan> = Vec::new();
        let mut i: usize = first;
        while i < self.regions.len() && self.regions[i].id == id
            invariant
                first <= i <= self.regions@.len(),
                r@.len() == i - first,
                forall|k: int|
                    0 <= k < r@.len() ==> (#[trigger] r@[k]) == self.regions@[first + k].array
                        && self.regions@[first + k].id == id,
            decreases self.regions@.len() - i,
        {
            r.push(self.regions[i].array);
            i = i + 1;
        }
        proof {
            assert forall|k: int| 0 <= k < self.regions@.len() && (k < first || k >= first + r@.len()) implies (#[trigger] self.regions@[k]).id != id by {
                if k > i {
                    assert(region_before(self.regions@[i as int], self.regions@[k]));
                }
            }
            assert(lists_arrays(self.regions@, id, r@, first as int));
        }
        r
    }

    /// The packed ranges of a region; nothing unless these elements are one.
    pub fn ranges_of(&self, id: u64, array: ArraySpan) -> (r: Option<&Vec<PackedSpan>>)
        requires
            self.wf(),
        ensures
            match r {
                Some(packed) => exists|i: int|
                    0 <= i < self.regions@.len() && (#[trigger] self.regions@[i]).id == id
                        && self.regions@[i].array == array && self.regions@[i].packed == *packed,
                None => forall|i: int|
                    0 <= i < self.regions@.len() ==> (#[trigger] self.regions@[i]).id != id
                        || self.regions@[i].array != array,
            },
    {
        let i: usize = self.first_behind(id, array.start);
        if i < self.regions.len() && self.regions[i].id == id && self.regions[i].array == array {
            Some(&self.regions[i].packed)
        } else {
            proof {
                assert forall|k: int| 0 <= k < self.regions@.len() implies (#[trigger] self.regions@[k]).id != id || self.regions@[k].array != array by {
                    if k > i {
                        assert(region_before(self.regions@[i as int], self.regions@[k]));
                    }
                }
            }
            None
        }
    }

    /// The nodes that an access touches, in ascending order.
    pub fn overlapping_access(&self, id: u64, array: ArraySpan, packed: PackedSpan) -> (r: Vec<
        NodeKey,
    >)
        requires
            self.wf(),
            packed.wf(),
        ensures
            order::strictly_sorted(r@),
            forall|key: NodeKey| #[trigger] r@.contains(key) <==> self.selects(id, array, packed, key),
    {
        let mut r: Vec<NodeKey> = Vec::new();
        let first: usize = self.first_behind(id, array.start);
        let mut i: usize = first;
        while i < self.regions.len() && self.regions[i].id == id && (self.regions[i].array.start
            <= array.start || self.regions[i].array.start - array.start < array.length)
            invariant
                first <= i <= self.regions@.len(),
                self.wf(),
                packed.wf(),
                forall|k: int|
                    first <= k < self.regions@.len() ==> (#[trigger] self.regions@[k]).id > id || (
                    self.regions@[k].id == id && self.regions@[k].array.start
                        + self.regions@[k].array.length > array.start),
                order::strictly_sorted(r@),
                forall|key: NodeKey| #[trigger]
                    r@.contains(key) ==> i > first && key.id == id && key.array.start <= self.regions@[i - 1].array.start,
                forall|key: NodeKey| #[trigger]
                    r@.contains(key) <==> self.selects_among(id, array, packed, key, first as int, i as int),
            decreases self.regions@.len() - i,
        {
            let ghost r0 = r@;
            proof {
                if i > first {
                    assert(region_before(self.regions@[i - 1], self.regions@[i as int]));
                }
                assert(spans_ascend(self.regions@[i as int].packed@));
            }
            if array.length > 0 {
                let ranges = &self.regions[i].packed;
                let mut j: usize = first_span_behind(ranges, packed.start);
                let ghost begin = j as int;
                while j < ranges.len() && ranges[j].start < packed.start + packed.length
                    invariant
                        begin <= j <= ranges@.len(),
                        i < self.regions@.len(),
                        self.regions@[i as int].id == id,
                        arrays_meet(self.regions@[i as int].array, array),
                        ranges@ == self.regions@[i as int].packed@,
                        packed.wf(),
                        spans_ascend(ranges@),
                        forall|k: int| begin <= k < ranges@.len() ==> (#[trigger] ranges@[k]).start + ranges@[k].length > packed.start,
                        order::strictly_sorted(r@),
                        forall|key: NodeKey| #[trigger] r0.contains(key) ==> key.id == id && key.array.start < self.regions@[i as int].array.start,
                        forall|key: NodeKey| #[trigger]
                            r@.contains(key) <==> r0.contains(key) || (key.id == id && key.array == self.regions@[i as int].array && begin
                                <= key.index < j),
                        forall|k: int| begin <= k < j ==> spans_meet(#[trigger] ranges@[k], packed),
                    decreases ranges@.len() - j,
                {
                    let ghost r1 = r@;
                    let key = NodeKey { id, array: self.regions[i].array, index: j };
                    assert(ranges@[j as int].wf());
                    r.push(key);
                    proof {
                        assert forall|x: int, y: int| 0 <= x < y < r@.len() implies (#[trigger] r@[x]).lt(#[trigger] r@[y]) by {
                            if y == r@.len() - 1 {
                                assert(r1[x] == r@[x]);
                                assert(r1.contains(r@[x]));
                            } else {
                                assert(r1[x].lt(r1[y]));
                            }
                        }
                        assert forall|k: NodeKey| #[trigger] r@.contains(k) <==> r0.contains(k) || (k.id == id && k.array == self.regions@[i as int].array && begin
                            <= k.index < j + 1) by {
                            lemma_contains_push(r1, key, k);
                            assert(r@ =~= r1.push(key));
                        }
                    }
                    j = j + 1;
                }
                proof {
                    assert forall|key: NodeKey| #[trigger] r@.contains(key) <==> self.selects_among(id, array, packed, key, first as int, i + 1) by {
                        self.lemma_selects_step(id, array, packed, key, first as int, i as int);
                        if key.id == id && key.array == self.regions@[i as int].array && key.index < ranges@.len() {
                            let k = key.index as int;
                            if spans_meet(ranges@[k], packed) {
                                if k >= j {
                                    if k > j {
                                        assert(ranges@[j as int].start + ranges@[j as int].length <= ranges@[k].start);
                                    }
                                }
                            }
                        }
                    }
                }
            } else {
                proof {
                    assert forall|key: NodeKey| #[trigger] r@.contains(key) <==> self.selects_among(id, array, packed, key, first as int, i + 1) by {
                        self.lemma_selects_step(id, array, packed, key, first as int, i as int);
                    }
                }
            }
            i = i + 1;
        }
        proof {
            assert forall|key: NodeKey| #[trigger] r@.contains(key) <==> self.selects(id, array, packed, key) by {
                if self.selects_among(id, array, packed, key, first as int, i as int) {
                    let k = choose|k: int| first <= k < i && self.selects_at(id, array, packed, key, k);
                    assert(self.regions@[k].id == id);
                }
                if self.selects(id, array, packed, key) {
                    let k = choose|k: int|
                        0 <= k < self.regions@.len() && (#[trigger] self.regions@[k]).id == id
                            && self.regions@[k].array == key.array && arrays_meet(key.array, array) && key.index
                            < self.regions@[k].packed@.len() && spans_meet(
                            self.regions@[k].packed@[key.index as int],
                            packed,
                        );
                    assert(k >= first);
                    if k >= i {
                        if k > i {
                            assert(region_before(self.regions@[i as int], self.regions@[k]));
                        }
                    }
                    assert(self.selects_at(id, array, packed, key, k));
                }
            }
        }
        r
    }

    spec fn selects_at(self, id: u64, array: ArraySpan, packed: PackedSpan, key: NodeKey, i: int) -> bool {
        key.id == id && self.regions@[i].id == id && self.regions@[i].array == key.array && arrays_meet(key.array, array) && key.index
            < self.regions@[i].packed@.len() && spans_meet(self.regions@[i].packed@[key.index as int], packed)
    }

    spec fn selects_among(self, id: u64, array: ArraySpan, packed: PackedSpan, key: NodeKey, first: int, last: int) -> bool {
        exists|i: int| first <= i < last && #[trigger] self.selects_at(id, array, packed, key, i)
    }

    proof fn lemma_selects_step(self, id: u64, array: ArraySpan, packed: PackedSpan, key: NodeKey, first: int, last: int)
        requires
            first <= last,
        ensures
            self.selects_among(id, array, packed, key, first, last + 1) <==> self.selects_among(id, array, packed, key, first, last)
                || self.selects_at(id, array, packed, key, last),
    {
        if self.selects_among(id, array, packed, key, first, last) {
            let k = choose|k: int| first <= k < last && self.selects_at(id, array, packed, key, k);
            assert(first <= k < last + 1 && self.selects_at(id, array, packed, key, k));
        }
    }
}

/// The number of the first span that ends behind `bit`.
fn first_span_behind(spans: &Vec<PackedSpan>, bit: usize) -> (r: usize)
    requires
        spans_ascend(spans@),
    ensures
        r <= spans@.len(),
        forall|i: int| 0 <= i < r ==> (#[trigger] spans@[i]).start + spans@[i].length <= bit,
        forall|i: int| r <= i < spans@.len() ==> (#[trigger] spans@[i]).start + spans@[i].length > bit,
{
    let mut low: usize = 0;
    let mut high: usize = spans.len();
    while low < high
        invariant
            spans_ascend(spans@),
            low <= high <= spans@.len(),
            forall|i: int| 0 <= i < low ==> (#[trigger] spans@[i]).start + spans@[i].length <= bit,
            forall|i: int| high <= i < spans@.len() ==> (#[trigger] spans@[i]).start + spans@[i].length > bit,
        decreases high - low,
    {
        let middle: usize = low + (high - low) / 2;
        assert(spans@[middle as int].wf());
        if spans[middle].end() <= bit {
            low = middle + 1;
        } else {
            high = middle;
        }
    }
    low
}

/// An access is the union of the nodes it touches: a node never holds a bit that the access has
/// beside one that it does not have.
pub proof fn access_is_a_union_of_nodes(
    accesses: Seq<RegionAccess>,
    endpoints: Map<u64, Vec<usize>>,
    partition: BitPartition,
    access: RegionAccess,
    element: int,
    bit: int,
)
    requires
        splits(accesses, endpoints, partition.regions@),
        accesses.contains(access),
        usable(access),
    ensures
        access.array.has(element) && access.packed.has(bit) <==> exists|key: NodeKey|
            partition.selects(access.id, access.array, access.packed, key) && #[trigger] partition.node_has(key, element, bit),
{
    let k = choose|k: int| 0 <= k < accesses.len() && accesses[k] == access;
    if access.array.has(element) && access.packed.has(bit) {
        assert(touches(accesses[k], access.id, element));
        assert(accessed(accesses, access.id, element));
        assert(in_regions(partition.regions@, access.id, element));
        let i = choose|i: int|
            0 <= i < partition.regions@.len() && (#[trigger] partition.regions@[i]).id == access.id && partition.regions@[i].array.has(element);
        let region = partition.regions@[i];
        assert(region_right(accesses, endpoints, region));
        assert(touches(accesses[k], access.id, region.array.start as int));
        let set = packed_at(accesses, region.id, region.array.start as int);
        let points = endpoints_of(endpoints, region.id);
        let list = choose|list: Seq<PackedSpan>| (forall|x: PackedSpan| #[trigger] list.contains(x) <==> set.contains(x)) && #[trigger] are_atoms(region.packed@, list, points);
        assert(set.contains(access.packed));
        assert(list.contains(access.packed));
        let m = choose|m: int| 0 <= m < list.len() && list[m] == access.packed;
        assert(spans_have(list, bit));
        assert(spans_have(region.packed@, bit));
        let j = choose|j: int| 0 <= j < region.packed@.len() && (#[trigger] region.packed@[j]).has(bit);
        assert(j < region.packed.len());
        let key = NodeKey { id: access.id, array: region.array, index: j as usize };
        assert(partition.regions@[i].packed@[key.index as int].has(bit));
        assert(partition.selects(access.id, access.array, access.packed, key));
        assert(partition.node_has(key, element, bit));
    }
    if exists|key: NodeKey| partition.selects(access.id, access.array, access.packed, key) && #[trigger] partition.node_has(key, element, bit) {
        let key = choose|key: NodeKey| partition.selects(access.id, access.array, access.packed, key) && #[trigger] partition.node_has(key, element, bit);
        let i = choose|i: int|
            0 <= i < partition.regions@.len() && (#[trigger] partition.regions@[i]).id == access.id
                && partition.regions@[i].array == key.array && arrays_meet(key.array, access.array) && key.index
                < partition.regions@[i].packed@.len() && spans_meet(partition.regions@[i].packed@[key.index as int], access.packed);
        let other = choose|i: int|
            0 <= i < partition.regions@.len() && (#[trigger] partition.regions@[i]).id == key.id
                && partition.regions@[i].array == key.array && key.index < partition.regions@[i].packed@.len()
                && key.array.has(element) && partition.regions@[i].packed@[key.index as int].has(bit);
        if i < other {
            assert(region_before(partition.regions@[i], partition.regions@[other]));
        } else if other < i {
            assert(region_before(partition.regions@[other], partition.regions@[i]));
        }
        let region = partition.regions@[i];
        assert(region_right(accesses, endpoints, region));
        let common = if region.array.start < access.array.start { access.array.start as int } else { region.array.start as int };
        assert(region.array.has(common));
        assert(touches(accesses[k], access.id, common));
        assert(touches(accesses[k], access.id, region.array.start as int));
        assert(touches(accesses[k], access.id, element));
        let set = packed_at(accesses, region.id, region.array.start as int);
        let points = endpoints_of(endpoints, region.id);
        let list = choose|list: Seq<PackedSpan>| (forall|x: PackedSpan| #[trigger] list.contains(x) <==> set.contains(x)) && #[trigger] are_atoms(region.packed@, list, points);
        assert(set.contains(access.packed));
        assert(list.contains(access.packed));
        let m = choose|m: int| 0 <= m < list.len() && list[m] == access.packed;
        let atom = region.packed@[key.index as int];
        assert(is_boundary(list, points, list[m].start as int));
        assert(is_boundary(list, points, list[m].start + list[m].length));
    }
}

/// No bit of an element belongs to two nodes.
pub proof fn nodes_are_disjoint(partition: BitPartition, a: NodeKey, b: NodeKey, element: int, bit: int)
    requires
        partition.wf(),
        a.id == b.id,
        partition.node_has(a, element, bit),
        partition.node_has(b, element, bit),
    ensures
        a == b,
{
    let i = choose|i: int|
        0 <= i < partition.regions@.len() && (#[trigger] partition.regions@[i]).id == a.id
            && partition.regions@[i].array == a.array && a.index < partition.regions@[i].packed@.len()
            && a.array.has(element) && partition.regions@[i].packed@[a.index as int].has(bit);
    let j = choose|i: int|
        0 <= i < partition.regions@.len() && (#[trigger] partition.regions@[i]).id == b.id
            && partition.regions@[i].array == b.array && b.index < partition.regions@[i].packed@.len()
            && b.array.has(element) && partition.regions@[i].packed@[b.index as int].has(bit);
    if i < j {
        assert(region_before(partition.regions@[i], partition.regions@[j]));
    } else if j < i {
        assert(region_before(partition.regions@[j], partition.regions@[i]));
    }
    let packed = partition.regions@[i].packed@;
    assert(spans_ascend(packed));
    if a.index < b.index {
        assert(packed[a.index as int].start + packed[a.index as int].length <= packed[b.index as int].start);
    } else if b.index < a.index {
        assert(packed[b.index as int].start + packed[b.index as int].length <= packed[a.index as int].start);
    }
}

/// Splitting accesses gives a well-formed partition.
pub proof fn splitting_gives_a_partition(
    accesses: Seq<RegionAccess>,
    endpoints: Map<u64, Vec<usize>>,
    partition: BitPartition,
)
    requires
        splits(accesses, endpoints, partition.regions@),
    ensures
        partition.wf(),
{
    assert forall|i: int| 0 <= i < partition.regions@.len() implies (#[trigger] partition.regions@[i]).array.length > 0
        && partition.regions@[i].array.bounded() && spans_ascend(partition.regions@[i].packed@) by {
        let region = partition.regions@[i];
        assert(region_right(accesses, endpoints, region));
        let set = packed_at(accesses, region.id, region.array.start as int);
        let points = endpoints_of(endpoints, region.id);
        let list = choose|list: Seq<PackedSpan>| (forall|x: PackedSpan| #[trigger] list.contains(x) <==> set.contains(x)) && #[trigger] are_atoms(region.packed@, list, points);
        assert(are_atoms(region.packed@, list, points));
    }
}

} // verus!
