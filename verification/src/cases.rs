//! Sets of values as disjoint intervals, for the arms of a `case` that earlier arms cover.
use vstd::prelude::*;

verus! {

/// The values from `low` to `high`, both of them too.
#[derive(Clone, Copy, Debug, PartialEq, Eq, Structural)]
pub struct Interval {
    pub low: usize,
    pub high: usize,
}

impl Interval {
    pub open spec fn wf(self) -> bool {
        self.low <= self.high
    }

    pub open spec fn has(self, value: int) -> bool {
        self.low <= value <= self.high
    }
}

/// The intervals ascend, and there is a gap between any two.
pub open spec fn normalized(covered: Seq<Interval>) -> bool {
    &&& forall|i: int| 0 <= i < covered.len() ==> (#[trigger] covered[i]).wf()
    &&& forall|i: int, j: int|
        0 <= i < j < covered.len() ==> (#[trigger] covered[i]).high + 1 < (
        #[trigger] covered[j]).low
}

/// Some interval has the value.
pub open spec fn holds(covered: Seq<Interval>, value: int) -> bool {
    exists|i: int| 0 <= i < covered.len() && (#[trigger] covered[i]).has(value)
}

/// Two normalized lists of intervals with the same values are the same list.
pub proof fn normalized_intervals_are_canonical(a: Seq<Interval>, b: Seq<Interval>)
    requires
        normalized(a),
        normalized(b),
        forall|value: int| #[trigger] holds(a, value) <==> holds(b, value),
    ensures
        a == b,
    decreases a.len(),
{
    if a.len() == 0 {
        if b.len() > 0 {
            assert(b[0].has(b[0].low as int));
            assert(holds(b, b[0].low as int));
            assert(holds(a, b[0].low as int));
        }
        assert(a =~= b);
    } else if b.len() == 0 {
        assert(a[0].has(a[0].low as int));
        assert(holds(a, a[0].low as int));
        assert(holds(b, a[0].low as int));
    } else {
        lemma_last_agrees(a, b);
        lemma_last_agrees(b, a);
        assert forall|value: int| #[trigger] holds(a.drop_last(), value) <==> holds(
            b.drop_last(),
            value,
        ) by {
            lemma_drop(a, value);
            lemma_drop(b, value);
        }
        normalized_intervals_are_canonical(a.drop_last(), b.drop_last());
        assert(a =~= a.drop_last().push(a.last()));
        assert(b =~= b.drop_last().push(b.last()));
    }
}

proof fn lemma_drop(a: Seq<Interval>, value: int)
    requires
        normalized(a),
        a.len() > 0,
    ensures
        holds(a.drop_last(), value) <==> holds(a, value) && !a.last().has(value),
{
    let rest = a.drop_last();
    if holds(rest, value) {
        let i = choose|i: int| 0 <= i < rest.len() && (#[trigger] rest[i]).has(value);
        assert(a[i].has(value));
        assert(a[i].high + 1 < a[a.len() - 1].low);
    }
    if holds(a, value) && !a.last().has(value) {
        let i = choose|i: int| 0 <= i < a.len() && (#[trigger] a[i]).has(value);
        assert(rest[i].has(value));
    }
}

/// The last interval of the one list is no longer, at either end, than that of the other.
proof fn lemma_last_agrees(a: Seq<Interval>, b: Seq<Interval>)
    requires
        normalized(a),
        normalized(b),
        a.len() > 0,
        b.len() > 0,
        forall|value: int| #[trigger] holds(a, value) <==> holds(b, value),
    ensures
        a.last().high <= b.last().high,
        a.last().high == b.last().high ==> a.last().low >= b.last().low,
{
    let top = a.last().high as int;
    assert(a[a.len() - 1].has(top));
    assert(holds(a, top));
    assert(holds(b, top));
    let i = choose|i: int| 0 <= i < b.len() && (#[trigger] b[i]).has(top);
    if i < b.len() - 1 {
        assert(b[i].high + 1 < b[b.len() - 1].low);
    }
    if a.last().high == b.last().high && a.last().low < b.last().low {
        let gap = b.last().low - 1;
        assert(a[a.len() - 1].has(gap));
        assert(holds(a, gap));
        assert(holds(b, gap));
        let j = choose|j: int| 0 <= j < b.len() && (#[trigger] b[j]).has(gap);
        if j < b.len() - 1 {
            assert(b[j].high + 1 < b[b.len() - 1].low);
        }
    }
}

/// The number of the first interval that ends at `value` or behind it.
fn first_from(covered: &Vec<Interval>, value: usize) -> (r: usize)
    requires
        normalized(covered@),
    ensures
        r <= covered@.len(),
        forall|i: int| 0 <= i < r ==> (#[trigger] covered@[i]).high < value,
        forall|i: int| r <= i < covered@.len() ==> (#[trigger] covered@[i]).high >= value,
{
    let mut from: usize = 0;
    let mut to: usize = covered.len();
    while from < to
        invariant
            normalized(covered@),
            from <= to <= covered@.len(),
            forall|i: int| 0 <= i < from ==> (#[trigger] covered@[i]).high < value,
            forall|i: int| to <= i < covered@.len() ==> (#[trigger] covered@[i]).high >= value,
        decreases to - from,
    {
        let middle: usize = from + (to - from) / 2;
        if covered[middle].high < value {
            proof {
                assert forall|i: int| 0 <= i < middle + 1 implies (#[trigger] covered@[i]).high
                    < value by {
                    if i < middle {
                        assert(covered@[i].high + 1 < covered@[middle as int].low);
                        assert(covered@[middle as int].wf());
                    }
                }
            }
            from = middle + 1;
        } else {
            proof {
                assert forall|i: int| middle <= i < covered@.len() implies (
                #[trigger] covered@[i]).high >= value by {
                    if i > middle {
                        assert(covered@[middle as int].high + 1 < covered@[i].low);
                        assert(covered@[i].wf());
                    }
                }
            }
            to = middle;
        }
    }
    from
}

/// Whether the set has all values of the interval.
pub fn case_interval_is_covered(covered: &Vec<Interval>, interval: Interval) -> (r: bool)
    requires
        normalized(covered@),
        interval.wf(),
    ensures
        r == forall|value: int| #[trigger] interval.has(value) ==> holds(covered@, value),
{
    let i: usize = first_from(covered, interval.low);
    let r: bool = i < covered.len() && covered[i].low <= interval.low && interval.high
        <= covered[i].high;
    proof {
        if r {
            assert forall|value: int| #[trigger] interval.has(value) implies holds(
                covered@,
                value,
            ) by {
                assert(covered@[i as int].has(value));
            }
        } else {
            assert(interval.has(interval.low as int));
            if holds(covered@, interval.low as int) {
                let k = choose|k: int|
                    0 <= k < covered@.len() && (#[trigger] covered@[k]).has(interval.low as int);
                assert(k >= i);
                if k > i {
                    assert(covered@[i as int].high + 1 < covered@[k].low);
                }
                let next = covered@[i as int].high + 1;
                assert(interval.has(next));
                if holds(covered@, next) {
                    let m = choose|m: int|
                        0 <= m < covered@.len() && (#[trigger] covered@[m]).has(next);
                    if m < i {
                        assert(covered@[m].high + 1 < covered@[i as int].low);
                    } else if m > i {
                        assert(covered@[i as int].high + 1 < covered@[m].low);
                    }
                }
            }
        }
    }
    r
}

/// Adds the values of an interval to the set.
pub fn insert_case_interval(covered: &mut Vec<Interval>, interval: Interval)
    requires
        normalized(old(covered)@),
        interval.wf(),
    ensures
        normalized(final(covered)@),
        forall|value: int| #[trigger]
            holds(final(covered)@, value) <==> holds(old(covered)@, value) || interval.has(value),
{
    let ghost before = covered@;
    let reach: usize = if interval.low == 0 {
        0
    } else {
        interval.low - 1
    };
    let i: usize = first_from(covered, reach);
    let mut low: usize = interval.low;
    let mut high: usize = interval.high;
    let ghost mut removed: int = 0;
    while i < covered.len() && (high == usize::MAX || covered[i].low <= high + 1)
        invariant
            i <= covered@.len(),
            0 <= removed,
            covered@.len() == before.len() - removed,
            normalized(before),
            interval.wf(),
            forall|k: int| 0 <= k < i ==> #[trigger] covered@[k] == before[k],
            forall|k: int| i <= k < covered@.len() ==> #[trigger] covered@[k] == before[k + removed],
            forall|k: int| 0 <= k < i ==> (#[trigger] before[k]).high + 1 < interval.low,
            forall|k: int| i <= k < before.len() ==> (#[trigger] before[k]).high + 1 >= interval.low,
            low <= interval.low,
            interval.high <= high,
            removed == 0 ==> low == interval.low,
            removed > 0 ==> low == interval.low || low == before[i as int].low,
            forall|k: int| i <= k < i + removed ==> low <= (#[trigger] before[k]).low && before[k].high <= high,
            forall|value: int| low <= value <= high ==> #[trigger] interval.has(value) || among(before, i as int, i + removed, value),
        decreases covered@.len(),
    {
        let ghost now = covered@;
        let ghost low0 = low;
        let ghost high0 = high;
        let next = covered[i];
        assert(next == before[i + removed]);
        assert(before[i + removed].wf());
        if next.low < low {
            low = next.low;
        }
        if next.high > high {
            high = next.high;
        }
        covered.remove(i);
        proof {
            if removed > 0 {
                assert(before[i as int].high + 1 < before[i + removed].low);
                assert(before[i as int].wf());
            }
            assert forall|k: int| i <= k < covered@.len() implies #[trigger] covered@[k] == before[k + removed + 1] by {
                assert(covered@[k] == now[k + 1]);
            }
            assert forall|value: int| low <= value <= high implies #[trigger] interval.has(value) || among(before, i as int, i + removed + 1, value) by {
                if low0 <= value <= high0 {
                    if !interval.has(value) {
                        lemma_among_grows(before, i as int, i + removed, value);
                    }
                } else {
                    assert(before[i + removed].has(value));
                }
            }
            removed = removed + 1;
        }
    }
    let ghost kept = covered@;
    let added = Interval { low, high };
    covered.insert(i, added);
    proof {
        assert forall|k: int| 0 <= k < covered@.len() implies #[trigger] covered@[k] == (if k < i { before[k] } else if k == i { added } else { before[k - 1 + removed] }) by {
            if k > i {
                assert(covered@[k] == kept[k - 1]);
            }
        }
        assert forall|k: int| i + removed <= k < before.len() implies high + 1 < (#[trigger] before[k]).low by {
            assert(kept[i as int] == before[i + removed]);
            if k > i + removed {
                assert(before[i + removed].high + 1 < before[k].low);
                assert(before[i + removed].wf());
            }
        }
        assert forall|k: int| 0 <= k < i implies (#[trigger] before[k]).high + 1 < low by {
            if removed > 0 {
                assert(before[k].high + 1 < before[i as int].low);
            }
        }
        assert forall|x: int, y: int| 0 <= x < y < covered@.len() implies (#[trigger] covered@[x]).high + 1 < (#[trigger] covered@[y]).low by {
        }
        assert forall|x: int| 0 <= x < covered@.len() implies (#[trigger] covered@[x]).wf() by {
        }
        assert forall|value: int| #[trigger] holds(covered@, value) <==> holds(before, value) || interval.has(value) by {
            if holds(before, value) {
                let k = choose|k: int| 0 <= k < before.len() && (#[trigger] before[k]).has(value);
                if k < i {
                    assert(covered@[k].has(value));
                } else if k < i + removed {
                    assert(covered@[i as int].has(value));
                } else {
                    assert(covered@[k - removed + 1].has(value));
                }
            }
            if interval.has(value) {
                assert(covered@[i as int].has(value));
            }
            if holds(covered@, value) {
                let k = choose|k: int| 0 <= k < covered@.len() && (#[trigger] covered@[k]).has(value);
                if k < i {
                    assert(before[k].has(value));
                } else if k > i {
                    assert(before[k - 1 + removed].has(value));
                } else {
                    if !interval.has(value) {
                        let m = choose|m: int| i <= m < i + removed && (#[trigger] before[m]).has(value);
                        assert(before[m].has(value));
                    }
                }
            }
        }
    }
}

/// One of the intervals `from .. to` has the value.
spec fn among(covered: Seq<Interval>, from: int, to: int, value: int) -> bool {
    exists|m: int| from <= m < to && (#[trigger] covered[m]).has(value)
}

proof fn lemma_among_grows(covered: Seq<Interval>, from: int, to: int, value: int)
    requires
        among(covered, from, to, value),
    ensures
        among(covered, from, to + 1, value),
{
    let m = choose|m: int| from <= m < to && (#[trigger] covered[m]).has(value);
    assert(from <= m < to + 1 && covered[m].has(value));
}

} // verus!
