//! Total orders and canonical sorted lists.
use vstd::prelude::*;

verus! {

/// A value with a strict total order.
pub trait Ordered: Copy + Sized {
    /// The strict order.
    spec fn lt(self, other: Self) -> bool;

    proof fn lt_irreflexive(a: Self)
        ensures
            !a.lt(a),
    ;

    proof fn lt_transitive(a: Self, b: Self, c: Self)
        requires
            a.lt(b),
            b.lt(c),
        ensures
            a.lt(c),
    ;

    proof fn lt_total(a: Self, b: Self)
        ensures
            a.lt(b) || b.lt(a) || a == b,
    ;

    fn less(self, other: Self) -> (r: bool)
        ensures
            r == self.lt(other),
    ;
}

impl Ordered for usize {
    open spec fn lt(self, other: Self) -> bool {
        self < other
    }

    proof fn lt_irreflexive(a: Self) {
    }

    proof fn lt_transitive(a: Self, b: Self, c: Self) {
    }

    proof fn lt_total(a: Self, b: Self) {
    }

    fn less(self, other: Self) -> (r: bool) {
        self < other
    }
}

impl Ordered for u64 {
    open spec fn lt(self, other: Self) -> bool {
        self < other
    }

    proof fn lt_irreflexive(a: Self) {
    }

    proof fn lt_transitive(a: Self, b: Self, c: Self) {
    }

    proof fn lt_total(a: Self, b: Self) {
    }

    fn less(self, other: Self) -> (r: bool) {
        self < other
    }
}

/// Every element is strictly before the ones that follow it.
pub open spec fn strictly_sorted<T: Ordered>(s: Seq<T>) -> bool {
    forall|i: int, j: int| 0 <= i < j < s.len() ==> (#[trigger] s[i]).lt(#[trigger] s[j])
}

/// `s` and `t` hold the same elements.
pub open spec fn same_elements<T>(s: Seq<T>, t: Seq<T>) -> bool {
    forall|x: T| #[trigger] s.contains(x) <==> t.contains(x)
}

/// A strictly sorted list is determined by the elements that it holds.
pub proof fn sorted_list_is_canonical<T: Ordered>(s: Seq<T>, t: Seq<T>)
    requires
        strictly_sorted(s),
        strictly_sorted(t),
        same_elements(s, t),
    ensures
        s == t,
    decreases s.len(),
{
    if s.len() == 0 {
        if t.len() > 0 {
            assert(t.contains(t[0]));
            assert(s.contains(t[0]));
        }
        assert(s =~= t);
    } else {
        assert(s.contains(s[0]));
        assert(t.contains(s[0]));
        assert(t.contains(t[0]));
        assert(s.contains(t[0]));
        let i = choose|i: int| 0 <= i < t.len() && t[i] == s[0];
        let j = choose|j: int| 0 <= j < s.len() && s[j] == t[0];
        if i != 0 && j != 0 {
            assert(t[0].lt(t[i]));
            assert(s[0].lt(s[j]));
            T::lt_transitive(s[0], t[0], s[0]);
            T::lt_irreflexive(s[0]);
        }
        assert(s[0] == t[0]);
        let s2 = s.subrange(1, s.len() as int);
        let t2 = t.subrange(1, t.len() as int);
        assert forall|x: T| #[trigger] s2.contains(x) implies t2.contains(x) by {
            let k = choose|k: int| 0 <= k < s2.len() && s2[k] == x;
            assert(s[k + 1] == x);
            assert(s.contains(x));
            assert(t.contains(x));
            let m = choose|m: int| 0 <= m < t.len() && t[m] == x;
            assert(s[0].lt(s[k + 1]));
            T::lt_irreflexive(x);
            assert(m != 0);
            assert(t2[m - 1] == x);
        }
        assert forall|x: T| #[trigger] t2.contains(x) implies s2.contains(x) by {
            let k = choose|k: int| 0 <= k < t2.len() && t2[k] == x;
            assert(t[k + 1] == x);
            assert(t.contains(x));
            assert(s.contains(x));
            let m = choose|m: int| 0 <= m < s.len() && s[m] == x;
            assert(t[0].lt(t[k + 1]));
            T::lt_irreflexive(x);
            assert(m != 0);
            assert(s2[m - 1] == x);
        }
        sorted_list_is_canonical(s2, t2);
        assert(s =~= seq![s[0]] + s2);
        assert(t =~= seq![t[0]] + t2);
    }
}

/// The union of two strictly sorted lists, strictly sorted.
pub fn merge_sorted<T: Ordered>(a: &Vec<T>, b: &Vec<T>) -> (r: Vec<T>)
    requires
        strictly_sorted(a@),
        strictly_sorted(b@),
    ensures
        strictly_sorted(r@),
        forall|x: T| #[trigger] r@.contains(x) <==> a@.contains(x) || b@.contains(x),
{
    let mut r: Vec<T> = Vec::new();
    let mut i: usize = 0;
    let mut j: usize = 0;
    while i < a.len() || j < b.len()
        invariant
            i <= a.len(),
            j <= b.len(),
            strictly_sorted(a@),
            strictly_sorted(b@),
            strictly_sorted(r@),
            forall|x: T| #[trigger] r@.contains(x) ==> a@.contains(x) || b@.contains(x),
            forall|k: int| 0 <= k < i ==> r@.contains(#[trigger] a@[k]),
            forall|k: int| 0 <= k < j ==> r@.contains(#[trigger] b@[k]),
            forall|k: int, m: int|
                0 <= k < r.len() && i <= m < a.len() ==> (#[trigger] r@[k]).lt(#[trigger] a@[m]),
            forall|k: int, m: int|
                0 <= k < r.len() && j <= m < b.len() ==> (#[trigger] r@[k]).lt(#[trigger] b@[m]),
        decreases a.len() - i + b.len() - j,
    {
        let take_a = if i < a.len() {
            if j < b.len() {
                !b[j].less(a[i])
            } else {
                true
            }
        } else {
            false
        };
        let take_b = if j < b.len() {
            if i < a.len() {
                !a[i].less(b[j])
            } else {
                true
            }
        } else {
            false
        };
        proof {
            if i < a.len() && j < b.len() {
                T::lt_total(a@[i as int], b@[j as int]);
                T::lt_irreflexive(a@[i as int]);
                if a@[i as int].lt(b@[j as int]) && b@[j as int].lt(a@[i as int]) {
                    T::lt_transitive(a@[i as int], b@[j as int], a@[i as int]);
                }
            }
        }
        let next = if take_a {
            a[i]
        } else {
            b[j]
        };
        let ghost before = r@;
        r.push(next);
        proof {
            assert forall|x: T| #[trigger] before.contains(x) implies r@.contains(x) by {
                let k = choose|k: int| 0 <= k < before.len() && before[k] == x;
                assert(r@[k] == x);
            }
            assert(r@[before.len() as int] == next);
            assert(r@.contains(next));
            assert forall|x: T| #[trigger] r@.contains(x) implies a@.contains(x) || b@.contains(x) by {
                let k = choose|k: int| 0 <= k < r@.len() && r@[k] == x;
                if k < before.len() {
                    assert(before.contains(x));
                }
            }
            if take_a {
                assert forall|m: int| j + (if take_b { 1int } else { 0 }) <= m < b.len() implies next.lt(
                    #[trigger] b@[m],
                ) by {
                    if j < m {
                        assert(b@[j as int].lt(b@[m]));
                        if a@[i as int].lt(b@[j as int]) {
                            T::lt_transitive(next, b@[j as int], b@[m]);
                        }
                    }
                }
            } else {
                assert forall|m: int| i <= m < a.len() implies next.lt(#[trigger] a@[m]) by {
                    if i < m {
                        assert(a@[i as int].lt(a@[m]));
                        T::lt_transitive(next, a@[i as int], a@[m]);
                    }
                }
            }
        }
        if take_a {
            i = i + 1;
        }
        if take_b {
            j = j + 1;
        }
    }
    r
}

fn sort_range<T: Ordered>(v: &Vec<T>, low: usize, high: usize) -> (r: Vec<T>)
    requires
        low <= high <= v.len(),
    ensures
        strictly_sorted(r@),
        same_elements(r@, v@.subrange(low as int, high as int)),
    decreases high - low,
{
    let ghost part = v@.subrange(low as int, high as int);
    if high - low == 0 {
        return Vec::new();
    }
    if high - low == 1 {
        let mut r: Vec<T> = Vec::new();
        r.push(v[low]);
        assert(r@ =~= part);
        return r;
    }
    let middle: usize = low + (high - low) / 2;
    let left = sort_range(v, low, middle);
    let right = sort_range(v, middle, high);
    let r = merge_sorted(&left, &right);
    proof {
        let lp = v@.subrange(low as int, middle as int);
        let rp = v@.subrange(middle as int, high as int);
        assert(part =~= lp + rp);
        assert forall|x: T| #[trigger] part.contains(x) <==> lp.contains(x) || rp.contains(x) by {
            if lp.contains(x) {
                let k = choose|k: int| 0 <= k < lp.len() && lp[k] == x;
                assert(part[k] == x);
            }
            if rp.contains(x) {
                let k = choose|k: int| 0 <= k < rp.len() && rp[k] == x;
                assert(part[k + lp.len()] == x);
            }
            if part.contains(x) {
                let k = choose|k: int| 0 <= k < part.len() && part[k] == x;
                if k < lp.len() {
                    assert(lp[k] == x);
                } else {
                    assert(rp[k - lp.len()] == x);
                }
            }
        }
    }
    r
}

/// The elements of `v` in ascending order, each once.
pub fn sort_dedup<T: Ordered>(v: &Vec<T>) -> (r: Vec<T>)
    ensures
        strictly_sorted(r@),
        same_elements(r@, v@),
{
    let r = sort_range(v, 0, v.len());
    assert(v@.subrange(0, v.len() as int) =~= v@);
    r
}

/// Adds `x` to an ascending list, unless it is there.
pub fn insert_ascending(list: &mut Vec<usize>, x: usize)
    requires
        strictly_sorted(old(list)@),
    ensures
        strictly_sorted(final(list)@),
        forall|y: usize| #[trigger]
            final(list)@.contains(y) <==> old(list)@.contains(y) || y == x,
{
    let ghost before = list@;
    let mut position: usize = list.len();
    while position > 0 && list[position - 1] > x
        invariant
            position <= list.len(),
            list@ == before,
            forall|k: int| position <= k < list@.len() ==> #[trigger] list@[k] > x,
        decreases position,
    {
        position = position - 1;
    }
    if position > 0 && list[position - 1] == x {
        assert(list@.contains(x));
        return;
    }
    list.insert(position, x);
    proof {
        let after = list@;
        assert forall|y: usize| #[trigger] after.contains(y) <==> before.contains(y) || y == x by {
            if after.contains(y) {
                let k = choose|k: int| 0 <= k < after.len() && after[k] == y;
                if k < position {
                    assert(before[k] == y);
                } else if k > position {
                    assert(before[k - 1] == y);
                }
            }
            if before.contains(y) {
                let k = choose|k: int| 0 <= k < before.len() && before[k] == y;
                if k < position {
                    assert(after[k] == y);
                } else {
                    assert(after[k + 1] == y);
                }
            }
            assert(after[position as int] == x);
        }
        if position > 0 {
            assert(before[position - 1] < x);
        }
        assert forall|i: int, j: int| 0 <= i < j < after.len() implies (#[trigger] after[i]).lt(#[trigger] after[j]) by {
            if j < position {
                assert(before[i].lt(before[j]));
            } else if i < position && j == position {
                if i < position - 1 {
                    assert(before[i].lt(before[position - 1]));
                }
            } else if i < position && j > position {
                assert(before[i].lt(before[j - 1]));
            } else if i == position {
                assert(before[j - 1] > x);
            } else {
                assert(before[i - 1].lt(before[j - 1]));
            }
        }
    }
}

/// A list of distinct numbers below `n` has at most `n` of them.
pub proof fn distinct_below(s: Seq<usize>, n: nat)
    requires
        forall|i: int, j: int| 0 <= i < j < s.len() ==> s[i] != s[j],
        forall|i: int| 0 <= i < s.len() ==> (#[trigger] s[i]) < n,
    ensures
        s.len() <= n,
    decreases n,
{
    if n == 0 {
        if s.len() > 0 {
            assert(s[0] < n);
        }
    } else if exists|k: int| 0 <= k < s.len() && s[k] == n - 1 {
        let k = choose|k: int| 0 <= k < s.len() && s[k] == n - 1;
        let t = s.remove(k);
        assert forall|i: int, j: int| 0 <= i < j < t.len() implies t[i] != t[j] by {
            let a = if i < k { i } else { i + 1 };
            let b = if j < k { j } else { j + 1 };
            assert(s[a] != s[b]);
        }
        assert forall|i: int| 0 <= i < t.len() implies (#[trigger] t[i]) < (n - 1) as nat by {
            let a = if i < k { i } else { i + 1 };
            assert(s[a] < n);
            if a < k {
                assert(s[a] != s[k]);
            } else {
                assert(s[k] != s[a]);
            }
        }
        distinct_below(t, (n - 1) as nat);
    } else {
        assert forall|i: int| 0 <= i < s.len() implies (#[trigger] s[i]) < (n - 1) as nat by {
            assert(s[i] < n);
            assert(s[i] != n - 1);
        }
        distinct_below(s, (n - 1) as nat);
    }
}

} // verus!
