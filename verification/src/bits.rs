//! Sets of packed bits kept as inclusive ranges.
use vstd::prelude::*;

verus! {

/// A compact packed-bit access. `Unknown` conservatively covers every bit.
#[derive(Clone, Copy, Debug, PartialEq, Eq, Hash, Structural)]
pub enum PackedMask {
    Range { high: usize, low: usize },
    Unknown,
}

impl PackedMask {
    /// The access covers `bit`. The ends of a range may be given in either order.
    pub open spec fn covers(self, bit: int) -> bool {
        match self {
            PackedMask::Range { high, low } => low <= bit <= high || high <= bit <= low,
            PackedMask::Unknown => 0 <= bit <= usize::MAX,
        }
    }

    /// The access of a known range `(high, low)`, or of every bit.
    pub fn from_range(range: Option<(usize, usize)>) -> (r: Self)
        ensures
            match range {
                Some((high, low)) => r == (PackedMask::Range { high, low }),
                None => r == PackedMask::Unknown,
            },
    {
        match range {
            Some((high, low)) => PackedMask::Range { high, low },
            None => PackedMask::Unknown,
        }
    }
}

/// The bits `low` to `high`, both among them.
#[derive(Clone, Copy, Debug, PartialEq, Eq, Hash, Structural)]
pub struct BitRange {
    pub low: usize,
    pub high: usize,
}

/// `bit` lies in one of the ranges.
pub open spec fn in_ranges(ranges: Seq<BitRange>, bit: int) -> bool {
    exists|i: int| 0 <= i < ranges.len() && (#[trigger] ranges[i]).low <= bit <= ranges[i].high
}

/// The ranges ascend, and there is a gap between any two.
pub open spec fn coalesced(ranges: Seq<BitRange>) -> bool {
    &&& forall|i: int| 0 <= i < ranges.len() ==> (#[trigger] ranges[i]).low <= ranges[i].high
    &&& forall|i: int, j: int|
        0 <= i < j < ranges.len() ==> (#[trigger] ranges[i]).high + 1 < (#[trigger] ranges[j]).low
}

/// The range meets `low` to `high` or is next to it.
pub open spec fn touches(range: BitRange, low: usize, high: usize) -> bool {
    range.high + 1 >= low && range.low <= high + 1
}

/// How many of the ranges meet `low` to `high` or are next to it.
pub open spec fn touching(ranges: Seq<BitRange>, low: usize, high: usize) -> nat
    decreases ranges.len(),
{
    if ranges.len() == 0 {
        0
    } else {
        touching(ranges.drop_last(), low, high) + (if touches(ranges.last(), low, high) {
            1nat
        } else {
            0nat
        })
    }
}

proof fn lemma_touching(ranges: Seq<BitRange>, low: usize, high: usize, from: int, to: int)
    requires
        0 <= from <= to <= ranges.len(),
        forall|k: int|
            0 <= k < ranges.len() ==> (touches(#[trigger] ranges[k], low, high) <==> from <= k < to),
    ensures
        touching(ranges, low, high) == to - from,
    decreases ranges.len(),
{
    if ranges.len() > 0 {
        let shorter = ranges.drop_last();
        let last = ranges.len() - 1;
        assert(touches(ranges[last], low, high) <==> from <= last < to);
        assert forall|k: int| 0 <= k < shorter.len() implies (touches(#[trigger] shorter[k], low, high) <==> from <= k < to) by {
            assert(shorter[k] == ranges[k]);
        }
        let bound = if to > last {
            last
        } else {
            to
        };
        let start = if from > last {
            last
        } else {
            from
        };
        assert forall|k: int| 0 <= k < shorter.len() implies (touches(#[trigger] shorter[k], low, high) <==> start <= k < bound) by {
            assert(touches(shorter[k], low, high) <==> from <= k < to);
        }
        lemma_touching(shorter, low, high, start, bound);
    }
}

proof fn lemma_splice(
    before: Seq<BitRange>,
    after: Seq<BitRange>,
    low: usize,
    high: usize,
    from: int,
    to: int,
    merged_low: usize,
    merged_high: usize,
)
    requires
        coalesced(before),
        low <= high,
        0 <= from <= to <= before.len(),
        forall|k: int|
            0 <= k < before.len() ==> (touches(#[trigger] before[k], low, high) <==> from <= k < to),
        forall|k: int| 0 <= k < from ==> (#[trigger] before[k]).high + 1 < low,
        forall|k: int| to <= k < before.len() ==> (#[trigger] before[k]).low > high + 1,
        after == before.take(from).push(BitRange { low: merged_low, high: merged_high }) + before.skip(to),
        from == to ==> merged_low == low && merged_high == high,
        from < to ==> merged_low == (if before[from].low < low {
            before[from].low
        } else {
            low
        }) && merged_high == (if before[to - 1].high > high {
            before[to - 1].high
        } else {
            high
        }),
    ensures
        coalesced(after),
        forall|bit: int| #[trigger] in_ranges(after, bit) <==> in_ranges(before, bit) || low <= bit <= high,
{
            let merged = BitRange { low: merged_low, high: merged_high };
            assert(after.len() == before.len() - (to - from) + 1);
            assert(forall|i: int| 0 <= i < from ==> #[trigger] after[i] == before[i]);
            assert(after[from] == merged);
            assert forall|i: int| from < i < after.len() implies #[trigger] after[i] == before[i + to - from - 1] by {}
            assert forall|i: int| from <= i < to implies merged_low <= (#[trigger] before[i]).low && before[i].high <= merged_high by {
                assert(touches(before[i], low, high));
                if from < i {
                    assert(before[from].high + 1 < before[i].low);
                    assert(before[from].low <= before[from].high);
                }
                if i < to - 1 {
                    assert(before[i].high + 1 < before[to - 1].low);
                    assert(before[to - 1].low <= before[to - 1].high);
                }
            }
            assert forall|i: int| 0 <= i < after.len() implies (#[trigger] after[i]).low <= after[i].high by {
                if i > from {
                    assert(after[i] == before[i + to - from - 1]);
                }
            }
            assert forall|i: int, j: int| 0 <= i < j < after.len() implies (#[trigger] after[i]).high + 1 < (#[trigger] after[j]).low by {
                if j < from {
                } else if j == from {
                    assert(before[i].high + 1 < low);
                    if from < to {
                        assert(before[i].high + 1 < before[from].low);
                    }
                } else {
                    assert(after[j] == before[j + to - from - 1]);
                    if i == from {
                        assert(before[j + to - from - 1].low > high + 1);
                        if from < to {
                            assert(before[to - 1].high + 1 < before[j + to - from - 1].low);
                        }
                    } else if i > from {
                        assert(after[i] == before[i + to - from - 1]);
                    }
                }
            }
            assert forall|bit: int| #[trigger] in_ranges(after, bit) <==> in_ranges(before, bit) || low <= bit <= high by {
                if low <= bit <= high {
                    assert(after[from].low <= bit <= after[from].high);
                }
                if in_ranges(before, bit) {
                    let i = choose|i: int| 0 <= i < before.len() && (#[trigger] before[i]).low <= bit <= before[i].high;
                    if i < from {
                        assert(after[i].low <= bit <= after[i].high);
                    } else if i < to {
                        assert(after[from].low <= bit <= after[from].high);
                    } else {
                        assert(after[i - (to - from) + 1] == before[i]);
                    }
                }
                if in_ranges(after, bit) {
                    let i = choose|i: int| 0 <= i < after.len() && (#[trigger] after[i]).low <= bit <= after[i].high;
                    if i < from {
                        assert(before[i].low <= bit <= before[i].high);
                    } else if i > from {
                        assert(before[i + to - from - 1].low <= bit <= before[i + to - from - 1].high);
                    } else if !(low <= bit <= high) {
                        assert(from < to);
                        assert(touches(before[from], low, high));
                        assert(touches(before[to - 1], low, high));
                        if bit < low {
                            assert(before[from].low <= bit <= before[from].high);
                        } else {
                            assert(before[to - 1].low <= bit <= before[to - 1].high);
                        }
                    }
                }
            }

}

/// What an insertion did.
pub struct RangeUndo {
    /// Where the inserted range is.
    pub at: usize,
    /// The ranges that it took the place of.
    pub removed: Vec<BitRange>,
}

/// Disjoint ranges of bits.
pub struct BitRanges {
    pub ranges: Vec<BitRange>,
}

impl BitRanges {
    pub open spec fn wf(self) -> bool {
        coalesced(self.ranges@)
    }

    pub open spec fn has(self, bit: int) -> bool {
        in_ranges(self.ranges@, bit)
    }

    /// No bit.
    pub fn empty() -> (r: Self)
        ensures
            r.ranges@.len() == 0,
            r.wf(),
    {
        BitRanges { ranges: Vec::new() }
    }

    /// The touched ranges are those from the first index up to the second.
    fn span(&self, low: usize, high: usize) -> (r: (usize, usize))
        requires
            self.wf(),
            low <= high,
        ensures
            r.0 <= r.1 <= self.ranges@.len(),
            forall|k: int|
                0 <= k < self.ranges@.len() ==> (touches(#[trigger] self.ranges@[k], low, high)
                    <==> r.0 <= k < r.1),
            forall|k: int| 0 <= k < r.0 ==> (#[trigger] self.ranges@[k]).high + 1 < low,
            forall|k: int|
                r.1 <= k < self.ranges@.len() ==> (#[trigger] self.ranges@[k]).low > high + 1,
    {
        let mut from: usize = 0;
        while from < self.ranges.len() && self.ranges[from].high < low && low
            - self.ranges[from].high > 1
            invariant
                from <= self.ranges.len(),
                forall|k: int| 0 <= k < from ==> (#[trigger] self.ranges@[k]).high + 1 < low,
            decreases self.ranges.len() - from,
        {
            from = from + 1;
        }
        let mut to: usize = from;
        while to < self.ranges.len() && (self.ranges[to].low <= high || self.ranges[to].low - high
            <= 1)
            invariant
                from <= to <= self.ranges.len(),
                forall|k: int| from <= k < to ==> (#[trigger] self.ranges@[k]).low <= high + 1,
            decreases self.ranges.len() - to,
        {
            to = to + 1;
        }
        proof {
            assert forall|k: int| 0 <= k < self.ranges@.len() implies (touches(#[trigger] self.ranges@[k], low, high) <==> from <= k < to) by {
                if from <= k {
                    if from < k {
                        assert(self.ranges@[from as int].high + 1 < self.ranges@[k].low);
                        assert(self.ranges@[from as int].low <= self.ranges@[from as int].high);
                    }
                    assert(self.ranges@[from as int].high + 1 >= low);
                    assert(self.ranges@[k].low <= self.ranges@[k].high);
                    if k >= to {
                        if to < k {
                            assert(self.ranges@[to as int].high + 1 < self.ranges@[k].low);
                            assert(self.ranges@[to as int].low <= self.ranges@[to as int].high);
                        }
                        assert(self.ranges@[to as int].low > high + 1);
                    }
                }
            }
            assert forall|k: int| to <= k < self.ranges@.len() implies (#[trigger] self.ranges@[k]).low > high + 1 by {
                if to < k {
                    assert(self.ranges@[to as int].high + 1 < self.ranges@[k].low);
                    assert(self.ranges@[to as int].low <= self.ranges@[to as int].high);
                }
                assert(self.ranges@[to as int].low > high + 1);
            }
        }
        (from, to)
    }

    /// Whether adding `low` to `high` would join more ranges than a merge is allowed to.
    pub fn merge_work_exceeds_limit(&self, low: usize, high: usize) -> (r: bool)
        requires
            self.wf(),
            low <= high,
        ensures
            r == (touching(self.ranges@, low, high) > MERGE_WORK_LIMIT),
    {
        let (from, to) = self.span(low, high);
        proof {
            lemma_touching(self.ranges@, low, high, from as int, to as int);
        }
        to - from > MERGE_WORK_LIMIT
    }

    /// Adds the bits `low` to `high`. Returns how to take them back, or nothing if they were
    /// there before.
    pub fn insert(&mut self, low: usize, high: usize) -> (r: Option<RangeUndo>)
        requires
            old(self).wf(),
            low <= high,
        ensures
            final(self).wf(),
            forall|bit: int| #[trigger]
                final(self).has(bit) <==> old(self).has(bit) || low <= bit <= high,
            r is None <==> exists|i: int|
                0 <= i < old(self).ranges@.len() && (#[trigger] old(self).ranges@[i]).low <= low
                    && high <= old(self).ranges@[i].high,
            r is None ==> final(self).ranges@ == old(self).ranges@,
            r matches Some(undo) ==> restores(undo, final(self).ranges@, old(self).ranges@),
    {
        let ghost before = self.ranges@;
        let (from, to) = self.span(low, high);
        if from < to && self.ranges[from].low <= low && high <= self.ranges[from].high {
            proof {
                assert forall|bit: int| #[trigger] self.has(bit) <==> old(self).has(bit) || low <= bit <= high by {
                    if low <= bit <= high {
                        assert(self.ranges@[from as int].low <= bit <= self.ranges@[from as int].high);
                    }
                }
            }
            return None;
        }
        proof {
            if exists|i: int| 0 <= i < before.len() && (#[trigger] before[i]).low <= low && high <= before[i].high {
                let i = choose|i: int| 0 <= i < before.len() && (#[trigger] before[i]).low <= low && high <= before[i].high;
                assert(touches(before[i], low, high));
                if from < i {
                    assert(before[from as int].high + 1 < before[i].low);
                    assert(touches(before[from as int], low, high));
                }
            }
        }
        let mut merged_low: usize = low;
        let mut merged_high: usize = high;
        if from < to {
            if self.ranges[from].low < merged_low {
                merged_low = self.ranges[from].low;
            }
            if self.ranges[to - 1].high > merged_high {
                merged_high = self.ranges[to - 1].high;
            }
        }
        let mut ranges: Vec<BitRange> = Vec::new();
        let mut removed: Vec<BitRange> = Vec::new();
        let mut k: usize = 0;
        while k < from
            invariant
                k <= from <= self.ranges.len(),
                self.ranges@ == before,
                ranges@ == before.take(k as int),
            decreases from - k,
        {
            ranges.push(self.ranges[k]);
            k = k + 1;
            assert(before.take(k as int) =~= before.take(k - 1).push(before[k - 1]));
        }
        ranges.push(BitRange { low: merged_low, high: merged_high });
        while k < to
            invariant
                from <= k <= to <= self.ranges.len(),
                self.ranges@ == before,
                removed@ == before.subrange(from as int, k as int),
            decreases to - k,
        {
            removed.push(self.ranges[k]);
            k = k + 1;
            assert(before.subrange(from as int, k as int) =~= before.subrange(from as int, k - 1).push(before[k - 1]));
        }
        let ghost head = ranges@;
        while k < self.ranges.len()
            invariant
                to <= k <= self.ranges.len(),
                self.ranges@ == before,
                ranges@ == head + before.subrange(to as int, k as int),
            decreases self.ranges.len() - k,
        {
            ranges.push(self.ranges[k]);
            k = k + 1;
            assert(before.subrange(to as int, k as int) =~= before.subrange(to as int, k - 1).push(before[k - 1]));
            assert(ranges@ =~= head + before.subrange(to as int, k as int));
        }
        self.ranges = ranges;
        proof {
            assert(head =~= before.take(from as int).push(BitRange { low: merged_low, high: merged_high }));
            assert(self.ranges@ =~= before.take(from as int).push(BitRange { low: merged_low, high: merged_high }) + before.skip(to as int));
            lemma_splice(before, self.ranges@, low, high, from as int, to as int, merged_low, merged_high);
            assert(self.ranges@.take(from as int) + removed@ + self.ranges@.skip(from as int + 1) =~= before);
        }
        Some(RangeUndo { at: from, removed })
    }

    /// Takes an insertion back.
    pub fn rollback(&mut self, undo: RangeUndo, Ghost(before): Ghost<Seq<BitRange>>)
        requires
            restores(undo, old(self).ranges@, before),
        ensures
            final(self).ranges@ == before,
    {
        let ghost given = self.ranges@;
        let mut ranges: Vec<BitRange> = Vec::new();
        let mut k: usize = 0;
        while k < undo.at
            invariant
                k <= undo.at < self.ranges.len(),
                self.ranges@ == given,
                ranges@ == given.take(k as int),
            decreases undo.at - k,
        {
            ranges.push(self.ranges[k]);
            k = k + 1;
            assert(given.take(k as int) =~= given.take(k - 1).push(given[k - 1]));
        }
        let ghost head = ranges@;
        let mut m: usize = 0;
        while m < undo.removed.len()
            invariant
                m <= undo.removed.len(),
                ranges@ == head + undo.removed@.take(m as int),
            decreases undo.removed.len() - m,
        {
            ranges.push(undo.removed[m]);
            m = m + 1;
            assert(undo.removed@.take(m as int) =~= undo.removed@.take(m - 1).push(undo.removed@[m - 1]));
            assert(ranges@ =~= head + undo.removed@.take(m as int));
        }
        assert(ranges@ =~= head + undo.removed@);
        let ghost middle = ranges@;
        k = undo.at + 1;
        while k < self.ranges.len()
            invariant
                undo.at + 1 <= k <= self.ranges.len(),
                self.ranges@ == given,
                ranges@ == middle + given.subrange(undo.at + 1, k as int),
            decreases self.ranges.len() - k,
        {
            ranges.push(self.ranges[k]);
            k = k + 1;
            assert(given.subrange(undo.at + 1, k as int) =~= given.subrange(undo.at + 1, k - 1).push(given[k - 1]));
            assert(ranges@ =~= middle + given.subrange(undo.at + 1, k as int));
        }
        assert(given.skip(undo.at + 1) =~= given.subrange(undo.at + 1, given.len() as int));
        assert(ranges@ =~= given.take(undo.at as int) + undo.removed@ + given.skip(undo.at + 1));
        self.ranges = ranges;
    }

    /// Whether some bit is in both.
    pub fn overlaps(&self, other: &Self) -> (r: bool)
        ensures
            r == exists|bit: int| #[trigger] self.has(bit) && other.has(bit),
    {
        let mut i: usize = 0;
        while i < self.ranges.len()
            invariant
                i <= self.ranges.len(),
                forall|a: int, b: int|
                    0 <= a < i && 0 <= b < other.ranges@.len() ==> apart(
                        #[trigger] self.ranges@[a],
                        #[trigger] other.ranges@[b],
                    ),
            decreases self.ranges.len() - i,
        {
            let x = self.ranges[i];
            let mut j: usize = 0;
            while j < other.ranges.len()
                invariant
                    i < self.ranges.len(),
                    x == self.ranges@[i as int],
                    j <= other.ranges.len(),
                    forall|b: int| 0 <= b < j ==> apart(x, #[trigger] other.ranges@[b]),
                decreases other.ranges.len() - j,
            {
                let y = other.ranges[j];
                let low: usize = if x.low < y.low {
                    y.low
                } else {
                    x.low
                };
                if low <= x.high && low <= y.high {
                    proof {
                        assert(self.ranges@[i as int].low <= low <= self.ranges@[i as int].high);
                        assert(other.ranges@[j as int].low <= low <= other.ranges@[j as int].high);
                        assert(self.has(low as int) && other.has(low as int));
                    }
                    return true;
                }
                j = j + 1;
            }
            i = i + 1;
        }
        proof {
            if exists|bit: int| #[trigger] self.has(bit) && other.has(bit) {
                let bit = choose|bit: int| #[trigger] self.has(bit) && other.has(bit);
                let a = choose|a: int| 0 <= a < self.ranges@.len() && (#[trigger] self.ranges@[a]).low <= bit <= self.ranges@[a].high;
                let b = choose|b: int| 0 <= b < other.ranges@.len() && (#[trigger] other.ranges@[b]).low <= bit <= other.ranges@[b].high;
                assert(apart(self.ranges@[a], other.ranges@[b]));
                assert(within(self.ranges@[a], bit) && within(other.ranges@[b], bit));
            }
        }
        false
    }

    /// A copy.
    pub fn copy(&self) -> (r: Self)
        ensures
            r.ranges@ == self.ranges@,
    {
        let mut ranges: Vec<BitRange> = Vec::new();
        let mut i: usize = 0;
        while i < self.ranges.len()
            invariant
                i <= self.ranges.len(),
                ranges@ == self.ranges@.take(i as int),
            decreases self.ranges.len() - i,
        {
            ranges.push(self.ranges[i]);
            i = i + 1;
            assert(self.ranges@.take(i as int) =~= self.ranges@.take(i - 1).push(self.ranges@[i - 1]));
        }
        assert(self.ranges@.take(i as int) =~= self.ranges@);
        BitRanges { ranges }
    }
}

/// No bit is in both ranges.
pub open spec fn apart(a: BitRange, b: BitRange) -> bool {
    forall|bit: int| !(#[trigger] within(a, bit) && within(b, bit))
}

pub open spec fn within(range: BitRange, bit: int) -> bool {
    range.low <= bit <= range.high
}

/// Undoing `after` gives `before`.
pub open spec fn restores(undo: RangeUndo, after: Seq<BitRange>, before: Seq<BitRange>) -> bool {
    &&& undo.at < after.len()
    &&& before == after.take(undo.at as int) + undo.removed@ + after.skip(undo.at + 1)
}

/// Merging through more fragments than this gives up on exact bits.
pub const MERGE_WORK_LIMIT: usize = 8;

/// Some bit between the two is not in the set.
pub open spec fn gap_between(set: Set<int>, a: int, b: int) -> bool {
    exists|gap: int| a < gap < b && !#[trigger] set.contains(gap)
}

/// Bits of the set in ascending order, with a gap between any two.
pub open spec fn separate(set: Set<int>, list: Seq<int>) -> bool {
    &&& forall|i: int| 0 <= i < list.len() ==> set.contains(#[trigger] list[i])
    &&& forall|i: int, j: int| 0 <= i < j < list.len() ==> gap_between(set, #[trigger] list[i], #[trigger] list[j])
}

/// More separate runs of the set than a merge may go through meet `low` to `high` or are next to it.
pub open spec fn fragmented(set: Set<int>, low: int, high: int) -> bool {
    exists|list: Seq<int>| #[trigger]
        separate(set, list) && list.len() > MERGE_WORK_LIMIT && forall|i: int| 0 <= i < list.len() ==> low - 1 <= #[trigger] list[i] <= high + 1
}

/// The ranges that touch `low` to `high` are separate runs.
proof fn lemma_runs(ranges: Seq<BitRange>, low: usize, high: usize) -> (list: Seq<int>)
    requires
        coalesced(ranges),
        low <= high,
    ensures
        separate(Set::new(|bit: int| in_ranges(ranges, bit)), list),
        list.len() == touching(ranges, low, high),
        forall|i: int| 0 <= i < list.len() ==> low - 1 <= #[trigger] list[i] <= high + 1,
    decreases ranges.len(),
{
    let all = Set::new(|bit: int| in_ranges(ranges, bit));
    if ranges.len() == 0 {
        Seq::empty()
    } else {
        let shorter = ranges.drop_last();
        let some = Set::new(|bit: int| in_ranges(shorter, bit));
        let last = ranges.last();
        let before = lemma_runs(shorter, low, high);
        assert forall|bit: int| in_ranges(shorter, bit) implies in_ranges(ranges, bit) && bit + 1 < last.low by {
            let k = choose|k: int| 0 <= k < shorter.len() && (#[trigger] shorter[k]).low <= bit <= shorter[k].high;
            assert(ranges[k].low <= bit <= ranges[k].high);
            assert(ranges[k].high + 1 < ranges[ranges.len() - 1].low);
        }
        assert forall|bit: int| in_ranges(ranges, bit) && bit < last.low implies in_ranges(shorter, bit) by {
            let k = choose|k: int| 0 <= k < ranges.len() && (#[trigger] ranges[k]).low <= bit <= ranges[k].high;
            assert(shorter[k].low <= bit <= shorter[k].high);
        }
        assert forall|i: int, j: int| 0 <= i < j < before.len() implies gap_between(all, #[trigger] before[i], #[trigger] before[j]) by {
            assert(gap_between(some, before[i], before[j]));
            let gap = choose|gap: int| before[i] < gap < before[j] && !#[trigger] some.contains(gap);
            assert(some.contains(before[j]));
            assert(!all.contains(gap));
        }
        assert forall|i: int| 0 <= i < before.len() implies all.contains(#[trigger] before[i]) && before[i] + 1 < last.low by {
            assert(some.contains(before[i]));
        }
        if touches(last, low, high) {
            let bit: int = if last.low >= low {
                last.low as int
            } else if last.high >= low {
                low as int
            } else {
                last.high as int
            };
            let list = before.push(bit);
            assert(ranges[ranges.len() - 1].low <= bit <= ranges[ranges.len() - 1].high);
            assert(in_ranges(ranges, bit));
            let edge = last.low - 1;
            assert(!in_ranges(ranges, edge)) by {
                if in_ranges(ranges, edge) {
                    assert(in_ranges(shorter, edge));
                }
            }
            assert forall|i: int, j: int| 0 <= i < j < list.len() implies gap_between(all, #[trigger] list[i], #[trigger] list[j]) by {
                if j == before.len() {
                    assert(before[i] + 1 < last.low);
                    assert(!all.contains(edge));
                }
            }
            list
        } else {
            before
        }
    }
}

/// Ranges that touch too many others are fragmented.
pub(crate) proof fn lemma_fragmented(ranges: Seq<BitRange>, set: Set<int>, low: usize, high: usize)
    requires
        coalesced(ranges),
        low <= high,
        touching(ranges, low, high) > MERGE_WORK_LIMIT,
        forall|bit: int| #[trigger] set.contains(bit) <==> in_ranges(ranges, bit),
    ensures
        fragmented(set, low as int, high as int),
{
    let list = lemma_runs(ranges, low, high);
    assert(set =~= Set::new(|bit: int| in_ranges(ranges, bit)));
}

/// A wider span is as fragmented.
pub(crate) proof fn lemma_fragmented_wider(set: Set<int>, low: int, high: int, from: int, to: int)
    requires
        fragmented(set, low, high),
        from <= low,
        high <= to,
    ensures
        fragmented(set, from, to),
{
    let list = choose|list: Seq<int>| #[trigger]
        separate(set, list) && list.len() > MERGE_WORK_LIMIT && forall|i: int| 0 <= i < list.len() ==> low - 1 <= #[trigger] list[i] <= high + 1;
    assert forall|i: int| 0 <= i < list.len() implies from - 1 <= #[trigger] list[i] <= to + 1 by {}
}

/// A span of bits that are all in the set is not fragmented.
pub proof fn whole_spans_are_not_fragmented(set: Set<int>, low: int, high: int)
    requires
        forall|bit: int| low <= bit <= high ==> #[trigger] set.contains(bit),
    ensures
        !fragmented(set, low, high),
{
    if fragmented(set, low, high) {
        let list = choose|list: Seq<int>| #[trigger]
            separate(set, list) && list.len() > MERGE_WORK_LIMIT && forall|i: int| 0 <= i < list.len() ==> low - 1 <= #[trigger] list[i] <= high + 1;
        assert(gap_between(set, list[0], list[1]));
        let gap = choose|gap: int| list[0] < gap < list[1] && !#[trigger] set.contains(gap);
        assert(set.contains(gap));
    }
}

/// Two lists of coalesced ranges with the same bits are the same list.
pub proof fn coalesced_ranges_are_canonical(a: Seq<BitRange>, b: Seq<BitRange>)
    requires
        coalesced(a),
        coalesced(b),
        forall|bit: int| in_ranges(a, bit) <==> in_ranges(b, bit),
    ensures
        a == b,
    decreases a.len(),
{
    if a.len() == 0 {
        if b.len() > 0 {
            assert(b[0].low <= b[0].low <= b[0].high);
            assert(in_ranges(b, b[0].low as int));
        }
        assert(a =~= b);
    } else {
        assert(a[0].low <= a[0].low <= a[0].high);
        assert(in_ranges(a, a[0].low as int));
        assert(b.len() > 0) by {
            if b.len() == 0 {
                assert(!in_ranges(b, a[0].low as int));
            }
        }
        let (x, y) = (a.last(), b.last());
        let (la, lb) = (a.len() - 1, b.len() - 1);
        lemma_last(a, b);
        lemma_last(b, a);
        assert(x == y);
        let (sa, sb) = (a.drop_last(), b.drop_last());
        assert forall|bit: int| in_ranges(sa, bit) <==> in_ranges(sb, bit) by {
            if in_ranges(sa, bit) {
                lemma_drop(a, b, bit);
            }
            if in_ranges(sb, bit) {
                lemma_drop(b, a, bit);
            }
        }
        coalesced_ranges_are_canonical(sa, sb);
        assert(a =~= sa.push(x));
        assert(b =~= sb.push(y));
    }
}

proof fn lemma_last(a: Seq<BitRange>, b: Seq<BitRange>)
    requires
        coalesced(a),
        coalesced(b),
        a.len() > 0,
        b.len() > 0,
        forall|bit: int| in_ranges(a, bit) <==> in_ranges(b, bit),
    ensures
        a.last().high <= b.last().high,
        a.last().high == b.last().high ==> a.last().low >= b.last().low,
{
    let (x, y) = (a.last(), b.last());
    assert(a[a.len() - 1].low <= x.high <= a[a.len() - 1].high);
    assert(in_ranges(a, x.high as int));
    let j = choose|j: int| 0 <= j < b.len() && (#[trigger] b[j]).low <= x.high <= b[j].high;
    if j < b.len() - 1 {
        assert(b[j].high + 1 < b[b.len() - 1].low);
    }
    if x.high == y.high && x.low < y.low {
        let bit = y.low - 1;
        assert(a[a.len() - 1].low <= bit <= a[a.len() - 1].high);
        assert(in_ranges(a, bit));
        let k = choose|k: int| 0 <= k < b.len() && (#[trigger] b[k]).low <= bit <= b[k].high;
        if k < b.len() - 1 {
            assert(b[k].high + 1 < b[b.len() - 1].low);
        }
    }
}

proof fn lemma_drop(a: Seq<BitRange>, b: Seq<BitRange>, bit: int)
    requires
        coalesced(a),
        coalesced(b),
        a.len() > 0,
        b.len() > 0,
        a.last() == b.last(),
        forall|bit: int| in_ranges(a, bit) <==> in_ranges(b, bit),
        in_ranges(a.drop_last(), bit),
    ensures
        in_ranges(b.drop_last(), bit),
{
    let sa = a.drop_last();
    let i = choose|i: int| 0 <= i < sa.len() && (#[trigger] sa[i]).low <= bit <= sa[i].high;
    assert(a[i].low <= bit <= a[i].high);
    assert(in_ranges(a, bit));
    assert(a[i].high + 1 < a[a.len() - 1].low);
    let j = choose|j: int| 0 <= j < b.len() && (#[trigger] b[j]).low <= bit <= b[j].high;
    assert(j < b.len() - 1);
    assert(b.drop_last()[j] == b[j]);
}

/// A set of packed bits, or all of them.
pub enum Mask {
    Ranges(BitRanges),
    All,
}

impl Mask {
    pub open spec fn wf(self) -> bool {
        self matches Mask::Ranges(ranges) ==> ranges.wf() && ranges.ranges@.len() > 0
    }

    pub open spec fn covers(self, bit: int) -> bool {
        match self {
            Mask::Ranges(ranges) => ranges.has(bit),
            Mask::All => 0 <= bit <= usize::MAX,
        }
    }

    /// Adding `other` would join too many fragments.
    pub open spec fn too_fragmented(self, other: Self) -> bool {
        self matches Mask::Ranges(ranges) && other matches Mask::Ranges(more) && exists|i: int|
            0 <= i < more.ranges@.len() && touching(
                ranges.ranges@,
                (#[trigger] more.ranges@[i]).low,
                more.ranges@[i].high,
            ) > MERGE_WORK_LIMIT
    }

    /// The bits of a packed range.
    pub fn from_packed(mask: PackedMask) -> (r: Self)
        ensures
            r.wf(),
            forall|bit: int| #[trigger] r.covers(bit) <==> mask.covers(bit),
            r is All <==> mask == PackedMask::Unknown,
    {
        match mask {
            PackedMask::Range { high, low } => {
                let mut ranges = BitRanges::empty();
                let (a, b): (usize, usize) = if low <= high {
                    (low, high)
                } else {
                    (high, low)
                };
                let _ = ranges.insert(a, b);
                proof {
                    assert(ranges.has(a as int));
                }
                Mask::Ranges(ranges)
            },
            PackedMask::Unknown => Mask::All,
        }
    }

    /// Whether some bit may be in both.
    pub fn overlaps(&self, other: &Self) -> (r: bool)
        requires
            self.wf(),
            other.wf(),
        ensures
            r == exists|bit: int| #[trigger] self.covers(bit) && other.covers(bit),
    {
        match (self, other) {
            (Mask::Ranges(left), Mask::Ranges(right)) => {
                let r = left.overlaps(right);
                proof {
                    if r {
                        let bit = choose|bit: int| #[trigger] left.has(bit) && right.has(bit);
                        assert(self.covers(bit) && other.covers(bit));
                    }
                    if exists|bit: int| #[trigger] self.covers(bit) && other.covers(bit) {
                        let bit = choose|bit: int| #[trigger] self.covers(bit) && other.covers(bit);
                        assert(left.has(bit) && right.has(bit));
                    }
                }
                r
            },
            _ => {
                proof {
                    let a = *self;
                    let b = *other;
                    let bit: int = match a {
                        Mask::Ranges(x) => x.ranges@[0].low as int,
                        Mask::All => match b {
                            Mask::Ranges(y) => y.ranges@[0].low as int,
                            Mask::All => 0,
                        },
                    };
                    assert(self.covers(bit) && other.covers(bit));
                }
                true
            },
        }
    }

    /// Adds the bits of `other`, or all bits if that would join too many fragments. Returns
    /// whether exact bits were given up.
    pub fn merge(&mut self, other: &Self) -> (widened: bool)
        requires
            old(self).wf(),
            other.wf(),
        ensures
            final(self).wf(),
            widened == old(self).too_fragmented(*other),
            widened ==> *final(self) is All,
            !widened ==> forall|bit: int| #[trigger]
                final(self).covers(bit) <==> old(self).covers(bit) || other.covers(bit),
            !widened && *other is Ranges && *old(self) is Ranges ==> *final(self) is Ranges,
    {
        let ghost before = *self;
        match other {
            Mask::All => {
                *self = Mask::All;
                proof {
                    assert forall|bit: int| before.covers(bit) implies 0 <= bit <= usize::MAX by {
                        lemma_covers_bits(before, bit);
                    }
                }
                false
            },
            Mask::Ranges(more) => {
                let widen: bool = match self {
                    Mask::All => {
                        proof {
                            assert forall|bit: int| other.covers(bit) implies 0 <= bit <= usize::MAX by {
                                lemma_covers_bits(*other, bit);
                            }
                        }
                        return false;
                    },
                    Mask::Ranges(ranges) => exceeds_limit(ranges, more),
                };
                if widen {
                    *self = Mask::All;
                    return true;
                }
                if let Mask::Ranges(ranges) = self {
                    add_ranges(ranges, more);
                }
                false
            },
        }
    }

    /// A copy.
    pub fn copy(&self) -> (r: Self)
        requires
            self.wf(),
        ensures
            r.wf(),
            r is All <==> *self is All,
            self matches Mask::Ranges(x) ==> (r matches Mask::Ranges(y) && y.ranges@ == x.ranges@),
            forall|bit: int| #[trigger] r.covers(bit) <==> self.covers(bit),
    {
        match self {
            Mask::All => Mask::All,
            Mask::Ranges(ranges) => Mask::Ranges(ranges.copy()),
        }
    }
}

proof fn lemma_covers_bits(mask: Mask, bit: int)
    requires
        mask.covers(bit),
    ensures
        0 <= bit <= usize::MAX,
{
    if let Mask::Ranges(ranges) = mask {
        let i = choose|i: int| 0 <= i < ranges.ranges@.len() && (#[trigger] ranges.ranges@[i]).low <= bit <= ranges.ranges@[i].high;
    }
}

/// Whether adding one of the ranges would join too many fragments.
pub(crate) fn exceeds_limit(ranges: &BitRanges, more: &BitRanges) -> (r: bool)
    requires
        ranges.wf(),
        more.wf(),
    ensures
        r == exists|i: int|
            0 <= i < more.ranges@.len() && touching(
                ranges.ranges@,
                (#[trigger] more.ranges@[i]).low,
                more.ranges@[i].high,
            ) > MERGE_WORK_LIMIT,
{
    let mut i: usize = 0;
    while i < more.ranges.len()
        invariant
            i <= more.ranges.len(),
            ranges.wf(),
            more.wf(),
            forall|k: int|
                0 <= k < i ==> touching(
                    ranges.ranges@,
                    (#[trigger] more.ranges@[k]).low,
                    more.ranges@[k].high,
                ) <= MERGE_WORK_LIMIT,
        decreases more.ranges.len() - i,
    {
        let range = more.ranges[i];
        if ranges.merge_work_exceeds_limit(range.low, range.high) {
            assert(touching(ranges.ranges@, more.ranges@[i as int].low, more.ranges@[i as int].high) > MERGE_WORK_LIMIT);
            return true;
        }
        i = i + 1;
    }
    false
}

fn add_ranges(ranges: &mut BitRanges, more: &BitRanges)
    requires
        old(ranges).wf(),
        more.wf(),
    ensures
        final(ranges).wf(),
        forall|bit: int| #[trigger]
            final(ranges).has(bit) <==> old(ranges).has(bit) || more.has(bit),
        old(ranges).ranges@.len() > 0 ==> final(ranges).ranges@.len() > 0,
{
    let ghost before = *ranges;
    let mut i: usize = 0;
    while i < more.ranges.len()
        invariant
            i <= more.ranges.len(),
            more.wf(),
            ranges.wf(),
            before == *old(ranges),
            forall|bit: int| #[trigger]
                ranges.has(bit) <==> before.has(bit) || in_ranges(more.ranges@.take(i as int), bit),
        decreases more.ranges.len() - i,
    {
        let ghost start = *ranges;
        let range = more.ranges[i];
        let _ = ranges.insert(range.low, range.high);
        proof {
            let taken = more.ranges@.take(i as int);
            let longer = more.ranges@.take(i as int + 1);
            assert forall|bit: int| #[trigger] ranges.has(bit) <==> before.has(bit) || in_ranges(longer, bit) by {
                assert(ranges.has(bit) <==> start.has(bit) || range.low <= bit <= range.high);
                if in_ranges(taken, bit) {
                    let k = choose|k: int| 0 <= k < taken.len() && (#[trigger] taken[k]).low <= bit <= taken[k].high;
                    assert(longer[k].low <= bit <= longer[k].high);
                }
                if range.low <= bit <= range.high {
                    assert(longer[i as int].low <= bit <= longer[i as int].high);
                }
                if in_ranges(longer, bit) {
                    let k = choose|k: int| 0 <= k < longer.len() && (#[trigger] longer[k]).low <= bit <= longer[k].high;
                    if k < i {
                        assert(taken[k].low <= bit <= taken[k].high);
                    }
                }
            }
        }
        i = i + 1;
    }
    proof {
        assert(more.ranges@.take(i as int) =~= more.ranges@);
        if before.ranges@.len() > 0 {
            let bit = before.ranges@[0].low as int;
            assert(before.has(bit));
            assert(ranges.has(bit));
        }
    }
}

} // verus!
