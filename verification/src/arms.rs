//! Sets of branch arms, held as sorted runs.
use vstd::prelude::*;
use crate::order;
use crate::order::{sort_dedup, Ordered};

verus! {

/// A half-open run of arm indices.
#[derive(Clone, Copy, Debug, PartialEq, Eq, Hash, PartialOrd, Ord, Structural)]
pub struct Run {
    pub start: usize,
    pub end: usize,
}

impl Ordered for Run {
    open spec fn lt(self, other: Self) -> bool {
        self.start < other.start || (self.start == other.start && self.end < other.end)
    }

    proof fn lt_irreflexive(a: Self) {
    }

    proof fn lt_transitive(a: Self, b: Self, c: Self) {
    }

    proof fn lt_total(a: Self, b: Self) {
    }

    fn less(self, other: Self) -> (r: bool) {
        self.start < other.start || (self.start == other.start && self.end < other.end)
    }
}

/// `x` lies in one of the half-open runs.
pub open spec fn in_runs(runs: Seq<Run>, x: int) -> bool {
    exists|i: int| 0 <= i < runs.len() && (#[trigger] runs[i]).start <= x < runs[i].end
}

/// The runs are nonempty, ascending, and separated by at least one gap.
pub open spec fn runs_normal(runs: Seq<Run>) -> bool {
    &&& forall|i: int| 0 <= i < runs.len() ==> (#[trigger] runs[i]).start < runs[i].end
    &&& forall|i: int, j: int|
        0 <= i < j < runs.len() ==> (#[trigger] runs[i]).end < (#[trigger] runs[j]).start
}

/// Normal runs are determined by the numbers that they hold.
pub proof fn normal_runs_are_canonical(a: Seq<Run>, b: Seq<Run>)
    requires
        runs_normal(a),
        runs_normal(b),
        forall|x: int| in_runs(a, x) <==> in_runs(b, x),
    ensures
        a == b,
    decreases a.len(),
{
    if a.len() == 0 {
        if b.len() > 0 {
            assert(b[0].start <= b[0].start as int && (b[0].start as int) < b[0].end);
            assert(in_runs(b, b[0].start as int));
            assert(in_runs(a, b[0].start as int));
        }
        assert(a =~= b);
    } else {
        let a0 = a[0].start as int;
        assert(in_runs(a, a0));
        assert(in_runs(b, a0));
        assert(b.len() > 0);
        let b0 = b[0].start as int;
        assert(in_runs(b, b0));
        assert(in_runs(a, b0));
        let i = choose|i: int| 0 <= i < b.len() && (#[trigger] b[i]).start <= a0 < b[i].end;
        let j = choose|j: int| 0 <= j < a.len() && (#[trigger] a[j]).start <= b0 < a[j].end;
        assert(a0 == b0);
        let ae = a[0].end as int;
        let be = b[0].end as int;
        if ae < be {
            assert(in_runs(b, ae));
            assert(in_runs(a, ae));
            let k = choose|k: int| 0 <= k < a.len() && (#[trigger] a[k]).start <= ae < a[k].end;
            assert(k == 0 || a[0].end < a[k].start);
            assert(false);
        }
        if be < ae {
            assert(in_runs(a, be));
            assert(in_runs(b, be));
            let k = choose|k: int| 0 <= k < b.len() && (#[trigger] b[k]).start <= be < b[k].end;
            assert(k == 0 || b[0].end < b[k].start);
            assert(false);
        }
        assert(a[0] == b[0]);
        let a2 = a.subrange(1, a.len() as int);
        let b2 = b.subrange(1, b.len() as int);
        assert forall|x: int| in_runs(a2, x) <==> in_runs(b2, x) by {
            if in_runs(a2, x) {
                let k = choose|k: int| 0 <= k < a2.len() && (#[trigger] a2[k]).start <= x < a2[k].end;
                assert(a[k + 1].start <= x < a[k + 1].end);
                assert(in_runs(a, x));
                let m = choose|m: int| 0 <= m < b.len() && (#[trigger] b[m]).start <= x < b[m].end;
                assert(a[0].end < a[k + 1].start);
                assert(m != 0);
                assert(b2[m - 1].start <= x < b2[m - 1].end);
            }
            if in_runs(b2, x) {
                let k = choose|k: int| 0 <= k < b2.len() && (#[trigger] b2[k]).start <= x < b2[k].end;
                assert(b[k + 1].start <= x < b[k + 1].end);
                assert(in_runs(b, x));
                let m = choose|m: int| 0 <= m < a.len() && (#[trigger] a[m]).start <= x < a[m].end;
                assert(b[0].end < b[k + 1].start);
                assert(m != 0);
                assert(a2[m - 1].start <= x < a2[m - 1].end);
            }
        }
        normal_runs_are_canonical(a2, b2);
        assert(a =~= seq![a[0]] + a2);
        assert(b =~= seq![b[0]] + b2);
    }
}

/// A finite set of arm indices.
#[derive(Debug, PartialEq, Eq, Hash, PartialOrd, Ord)]
pub struct ArmSet {
    pub ranges: Vec<Run>,
}

impl Clone for ArmSet {
    fn clone(&self) -> (r: Self)
        ensures
            r.ranges@ == self.ranges@,
    {
        let mut ranges: Vec<Run> = Vec::new();
        let mut i: usize = 0;
        while i < self.ranges.len()
            invariant
                i <= self.ranges.len(),
                ranges@ == self.ranges@.subrange(0, i as int),
            decreases self.ranges.len() - i,
        {
            ranges.push(self.ranges[i]);
            i = i + 1;
        }
        ArmSet { ranges }
    }
}

impl View for ArmSet {
    type V = Seq<Run>;

    open spec fn view(&self) -> Seq<Run> {
        self.ranges@
    }
}

impl ArmSet {
    /// The arm `x` is a member.
    pub open spec fn has(self, x: int) -> bool {
        in_runs(self@, x)
    }

    pub open spec fn wf(self) -> bool {
        runs_normal(self@)
    }

    /// The arms from `start` up to but not including `end`.
    pub fn range(start: usize, end: usize) -> (r: Self)
        ensures
            r.wf(),
            forall|x: int| r.has(x) <==> start <= x < end,
            r@ == (if start < end {
                seq![Run { start, end }]
            } else {
                seq![]
            }),
    {
        let mut ranges: Vec<Run> = Vec::new();
        if start < end {
            ranges.push(Run { start, end });
        }
        let r = ArmSet { ranges };
        assert forall|x: int| r.has(x) <==> start <= x < end by {
            if start <= x < end {
                assert(r@[0].start <= x < r@[0].end);
            }
        }
        r
    }

    /// The arms in both sets.
    pub fn intersection(&self, other: &Self) -> (r: Self)
        requires
            self.wf(),
            other.wf(),
        ensures
            r.wf(),
            forall|x: int| r.has(x) <==> self.has(x) && other.has(x),
    {
        let mut ranges: Vec<Run> = Vec::new();
        let mut left: usize = 0;
        let mut right: usize = 0;
        let ghost mut low: int = 0;
        while left < self.ranges.len() && right < other.ranges.len()
            invariant
                self.wf(),
                other.wf(),
                left <= self.ranges.len(),
                right <= other.ranges.len(),
                runs_normal(ranges@),
                // The runs that are still to come start after everything collected.
                forall|k: int|
                    0 <= k < ranges.len() ==> (#[trigger] ranges@[k]).end <= low,
                ranges.len() > 0 ==> (left >= self.ranges.len() || right >= other.ranges.len()
                    || low < self@[left as int].start || low < other@[right as int].start),
                low >= 0,
                left < self.ranges.len() ==> low <= self@[left as int].end,
                right < other.ranges.len() ==> low <= other@[right as int].end,
                forall|k: int| 0 <= k < left ==> (#[trigger] self@[k]).end <= low,
                forall|k: int| 0 <= k < right ==> (#[trigger] other@[k]).end <= low,
                forall|x: int| #[trigger]
                    in_runs(ranges@, x) ==> self.has(x) && other.has(x),
                forall|x: int|
                    #![trigger in_runs(ranges@, x)]
                    x < low && self.has(x) && other.has(x) ==> in_runs(ranges@, x),
                low == 0 || (left > 0 && low == self@[left - 1].end) || (right > 0 && low == other@[right - 1].end),
            decreases self.ranges.len() - left + other.ranges.len() - right,
        {
            let a = self.ranges[left];
            let b = other.ranges[right];
            let start: usize = if a.start > b.start {
                a.start
            } else {
                b.start
            };
            let end: usize = if a.end < b.end {
                a.end
            } else {
                b.end
            };
            let ghost before = ranges@;
            if start < end {
                ranges.push(Run { start, end });
            }
            proof {
                let lo2 = end as int;
                assert forall|x: int| #[trigger] in_runs(ranges@, x) implies self.has(x) && other.has(x) by {
                    let k = choose|k: int|
                        0 <= k < ranges.len() && (#[trigger] ranges@[k]).start <= x < ranges@[k].end;
                    if k < before.len() {
                        assert(before[k] == ranges@[k]);
                        assert(in_runs(before, x));
                    } else {
                        assert(self@[left as int].start <= x < self@[left as int].end);
                        assert(other@[right as int].start <= x < other@[right as int].end);
                    }
                }
                assert forall|x: int|
                    #![trigger in_runs(ranges@, x)]
                    x < lo2 && self.has(x) && other.has(x) implies in_runs(ranges@, x) by {
                    if x < low {
                        assert(in_runs(before, x));
                        let k = choose|k: int|
                            0 <= k < before.len() && (#[trigger] before[k]).start <= x < before[k].end;
                        assert(ranges@[k] == before[k]);
                    } else {
                        let k = choose|k: int|
                            0 <= k < self@.len() && (#[trigger] self@[k]).start <= x < self@[k].end;
                        let m = choose|m: int|
                            0 <= m < other@.len() && (#[trigger] other@[m]).start <= x < other@[m].end;
                        assert(k >= left);
                        assert(m >= right);
                        assert(k == left || self@[left as int].end < self@[k].start);
                        assert(m == right || other@[right as int].end < other@[m].start);
                        assert(start <= x < end);
                        assert(ranges@[before.len() as int].start <= x < ranges@[before.len() as int].end);
                    }
                }
                if start < end {
                    assert forall|k: int| 0 <= k < before.len() implies (#[trigger] before[k]).end < start by {
                        assert(before[k].end <= low);
                    }
                }
                assert(low <= end);
                low = lo2;
            }
            if a.end < b.end {
                left = left + 1;
            } else {
                right = right + 1;
            }
        }
        proof {
            assert forall|x: int| self.has(x) && other.has(x) implies in_runs(ranges@, x) by {
                let k = choose|k: int|
                    0 <= k < self@.len() && (#[trigger] self@[k]).start <= x < self@[k].end;
                let m = choose|m: int|
                    0 <= m < other@.len() && (#[trigger] other@[m]).start <= x < other@[m].end;
                assert(x < low);
            }
        }
        ArmSet { ranges }
    }

    /// The arms in either set.
    pub fn union(&self, other: &Self) -> (r: Self)
        requires
            self.wf(),
            other.wf(),
        ensures
            r.wf(),
            forall|x: int| r.has(x) <==> self.has(x) || other.has(x),
    {
        let mut all: Vec<Run> = Vec::new();
        let mut i: usize = 0;
        while i < self.ranges.len()
            invariant
                i <= self.ranges.len(),
                all@ == self@.subrange(0, i as int),
            decreases self.ranges.len() - i,
        {
            all.push(self.ranges[i]);
            i = i + 1;
        }
        let mut j: usize = 0;
        while j < other.ranges.len()
            invariant
                j <= other.ranges.len(),
                all@ == self@ + other@.subrange(0, j as int),
            decreases other.ranges.len() - j,
        {
            all.push(other.ranges[j]);
            j = j + 1;
        }
        assert(all@ =~= self@ + other@);
        let sorted = sort_dedup(&all);
        proof {
            assert forall|k: int| 0 <= k < sorted.len() implies (#[trigger] sorted@[k]).start < sorted@[k].end by {
                assert(sorted@.contains(sorted@[k]));
                assert(all@.contains(sorted@[k]));
                let m = choose|m: int| 0 <= m < all.len() && all@[m] == sorted@[k];
                if m < self@.len() {
                    assert(self@[m] == all@[m]);
                } else {
                    assert(other@[m - self@.len()] == all@[m]);
                }
            }
        }
        let mut merged: Vec<Run> = Vec::new();
        let mut k: usize = 0;
        while k < sorted.len()
            invariant
                k <= sorted.len(),
                order::strictly_sorted(sorted@),
                forall|m: int| 0 <= m < sorted.len() ==> (#[trigger] sorted@[m]).start < sorted@[m].end,
                runs_normal(merged@),
                merged.len() > 0 ==> forall|m: int|
                    k <= m < sorted.len() ==> merged@[merged.len() - 1].start <= (
                    #[trigger] sorted@[m]).start,
                forall|x: int|
                    #![trigger in_runs(merged@, x)]
                    in_runs(merged@, x) <==> in_runs(sorted@.subrange(0, k as int), x),
            decreases sorted.len() - k,
        {
            let range = sorted[k];
            let n = merged.len();
            let ghost before = merged@;
            let ghost done = sorted@.subrange(0, k as int);
            let ghost next = sorted@.subrange(0, k as int + 1);
            proof {
                assert(next =~= done.push(range));
                assert forall|x: int| #[trigger] in_runs(next, x) <==> in_runs(done, x) || (range.start <= x < range.end) by {
                    if in_runs(done, x) {
                        let m = choose|m: int| 0 <= m < done.len() && (#[trigger] done[m]).start <= x < done[m].end;
                        assert(next[m] == done[m]);
                    }
                    if range.start <= x < range.end {
                        assert(next[k as int] == range);
                    }
                    if in_runs(next, x) {
                        let m = choose|m: int| 0 <= m < next.len() && (#[trigger] next[m]).start <= x < next[m].end;
                        if m < k {
                            assert(done[m] == next[m]);
                        }
                    }
                }
            }
            if n > 0 && range.start <= merged[n - 1].end {
                let last = merged[n - 1];
                let end: usize = if last.end > range.end {
                    last.end
                } else {
                    range.end
                };
                merged.set(n - 1, Run { start: last.start, end });
                proof {
                    assert forall|x: int| #[trigger] in_runs(merged@, x) <==> in_runs(before, x) || (range.start <= x < range.end) by {
                        if in_runs(before, x) {
                            let m = choose|m: int| 0 <= m < before.len() && (#[trigger] before[m]).start <= x < before[m].end;
                            assert(merged@[m].start <= x < merged@[m].end);
                        }
                        if range.start <= x < range.end {
                            assert(merged@[n - 1].start <= x < merged@[n - 1].end);
                        }
                        if in_runs(merged@, x) {
                            let m = choose|m: int| 0 <= m < merged.len() && (#[trigger] merged@[m]).start <= x < merged@[m].end;
                            if m < n - 1 {
                                assert(before[m] == merged@[m]);
                            } else if x < last.end {
                                assert(before[n - 1].start <= x < before[n - 1].end);
                            }
                        }
                    }
                }
            } else {
                merged.push(range);
                proof {
                    assert forall|x: int| #[trigger] in_runs(merged@, x) <==> in_runs(before, x) || (range.start <= x < range.end) by {
                        if in_runs(before, x) {
                            let m = choose|m: int| 0 <= m < before.len() && (#[trigger] before[m]).start <= x < before[m].end;
                            assert(merged@[m].start <= x < merged@[m].end);
                        }
                        if range.start <= x < range.end {
                            assert(merged@[n as int].start <= x < merged@[n as int].end);
                        }
                        if in_runs(merged@, x) {
                            let m = choose|m: int| 0 <= m < merged.len() && (#[trigger] merged@[m]).start <= x < merged@[m].end;
                            if m < n {
                                assert(before[m] == merged@[m]);
                            }
                        }
                    }
                    assert forall|a: int| 0 <= a < n implies (#[trigger] merged@[a]).end < range.start by {
                        if a < n - 1 {
                            assert(before[a].end < before[n - 1].start);
                        }
                    }
                }
            }
            k = k + 1;
            proof {
                assert forall|x: int| #[trigger] in_runs(merged@, x) <==> in_runs(next, x) by {
                    assert(in_runs(before, x) <==> in_runs(done, x));
                }
            }
        }
        proof {
            assert(sorted@.subrange(0, k as int) =~= sorted@);
            assert forall|x: int| in_runs(merged@, x) <==> self.has(x) || other.has(x) by {
                if in_runs(sorted@, x) {
                    let m = choose|m: int| 0 <= m < sorted.len() && (#[trigger] sorted@[m]).start <= x < sorted@[m].end;
                    assert(sorted@.contains(sorted@[m]));
                    assert(all@.contains(sorted@[m]));
                    let p = choose|p: int| 0 <= p < all.len() && all@[p] == sorted@[m];
                    if p < self@.len() {
                        assert(self@[p] == all@[p]);
                    } else {
                        assert(other@[p - self@.len()] == all@[p]);
                    }
                }
                if self.has(x) {
                    let p = choose|p: int| 0 <= p < self@.len() && (#[trigger] self@[p]).start <= x < self@[p].end;
                    assert(all@[p] == self@[p]);
                    assert(all@.contains(self@[p]));
                    assert(sorted@.contains(self@[p]));
                    let m = choose|m: int| 0 <= m < sorted.len() && sorted@[m] == self@[p];
                    assert(sorted@[m].start <= x < sorted@[m].end);
                }
                if other.has(x) {
                    let p = choose|p: int| 0 <= p < other@.len() && (#[trigger] other@[p]).start <= x < other@[p].end;
                    assert(all@[p + self@.len()] == other@[p]);
                    assert(all@.contains(other@[p]));
                    assert(sorted@.contains(other@[p]));
                    let m = choose|m: int| 0 <= m < sorted.len() && sorted@[m] == other@[p];
                    assert(sorted@[m].start <= x < sorted@[m].end);
                }
            }
        }
        ArmSet { ranges: merged }
    }

    /// No arm is a member.
    pub fn is_empty(&self) -> (r: bool)
        requires
            self.wf(),
        ensures
            r == (self@.len() == 0),
            r <==> forall|x: int| !self.has(x),
    {
        if self.ranges.len() > 0 {
            assert(self.has(self@[0].start as int));
        }
        self.ranges.len() == 0
    }

    /// The set is exactly the arms below `arms`, and there is one.
    pub fn is_all(&self, arms: usize) -> (r: bool)
        requires
            self.wf(),
        ensures
            r <==> self@ == seq![Run { start: 0, end: arms }],
            r <==> arms > 0 && forall|x: int| self.has(x) <==> 0 <= x < arms,
    {
        let r = self.ranges.len() == 1 && self.ranges[0].start == 0 && self.ranges[0].end == arms;
        proof {
            if r {
                assert(self@ =~= seq![Run { start: 0, end: arms }]);
                assert forall|x: int| self.has(x) <==> 0 <= x < arms by {
                    if 0 <= x < arms {
                        assert(self@[0].start <= x < self@[0].end);
                    }
                }
            }
            if arms > 0 && forall|x: int| self.has(x) <==> 0 <= x < arms {
                let s = seq![Run { start: 0, end: arms }];
                assert forall|x: int| in_runs(self@, x) <==> in_runs(s, x) by {
                    assert(self.has(x) <==> 0 <= x < arms);
                    if 0 <= x < arms {
                        assert(s[0].start <= x < s[0].end);
                    }
                }
                normal_runs_are_canonical(self@, s);
                assert(self@[0] == (Run { start: 0, end: arms }));
            }
        }
        r
    }

    /// The two sets hold the same arms.
    pub fn same(&self, other: &Self) -> (r: bool)
        requires
            self.wf(),
            other.wf(),
        ensures
            r <==> self@ == other@,
            r <==> forall|x: int| self.has(x) <==> other.has(x),
    {
        proof {
            if forall|x: int| self.has(x) <==> other.has(x) {
                assert forall|x: int| in_runs(self@, x) <==> in_runs(other@, x) by {
                    assert(self.has(x) <==> other.has(x));
                }
                normal_runs_are_canonical(self@, other@);
            }
        }
        if self.ranges.len() != other.ranges.len() {
            return false;
        }
        let mut i: usize = 0;
        while i < self.ranges.len()
            invariant
                i <= self.ranges.len(),
                self.ranges.len() == other.ranges.len(),
                forall|k: int| 0 <= k < i ==> self@[k] == other@[k],
                (forall|x: int| self.has(x) <==> other.has(x)) ==> self@ == other@,
            decreases self.ranges.len() - i,
        {
            if self.ranges[i].start != other.ranges[i].start || self.ranges[i].end != other.ranges[i].end {
                assert(self@[i as int] != other@[i as int]);
                return false;
            }
            i = i + 1;
        }
        assert(self@ =~= other@);
        true
    }

    /// Every arm of `self` is an arm of `other`.
    pub fn is_subset_of(&self, other: &Self) -> (r: bool)
        requires
            self.wf(),
            other.wf(),
        ensures
            r <==> forall|x: int| self.has(x) ==> other.has(x),
    {
        let both = self.intersection(other);
        let r = both.same(self);
        proof {
            if r {
                assert forall|x: int| self.has(x) implies other.has(x) by {
                    assert(both.has(x) <==> self.has(x));
                }
            }
            if forall|x: int| self.has(x) ==> other.has(x) {
                assert forall|x: int| both.has(x) <==> self.has(x) by {}
            }
        }
        r
    }
}

} // verus!
