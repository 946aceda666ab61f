//! Which arms of an ordered case can be taken.
use vstd::prelude::*;
use vstd::arithmetic::power2::pow2;
use crate::cases;
use crate::cases::{case_interval_is_covered, insert_case_interval, Interval};

verus! {

/// A constant of a pattern.
#[derive(Clone, Copy, Debug, PartialEq, Eq)]
pub struct Constant {
    /// The bits as a number, where it fits.
    pub value: Option<usize>,
    /// Zero for a literal that takes its width from where it stands.
    pub width: usize,
    pub signed: bool,
    /// The highest bit is set.
    pub high_bit: bool,
    /// Some bit is neither zero nor one.
    pub unknown: bool,
}

/// A pattern of an arm. What is no constant is left out.
#[derive(Clone, Copy, Debug, PartialEq, Eq)]
pub enum CasePattern {
    Eq(Option<Constant>),
    Range { low: Option<Constant>, high: Option<Constant>, inclusive: bool },
}

/// The type of what is selected on.
#[derive(Clone, Copy, Debug, PartialEq, Eq)]
pub struct SelectorType {
    /// Bits of two states, no array.
    pub plain: bool,
    pub width: Option<usize>,
    pub signed: bool,
}

/// What is known of a pattern: nothing, or the values that it has, if it has any.
#[derive(Clone, Copy, Debug, PartialEq, Eq)]
pub enum PatternValues {
    Unknown,
    Empty,
    Values(Interval),
}

/// The number that a constant stands for beside a selector without sign.
pub open spec fn bound_of(constant: Option<Constant>) -> Option<usize> {
    match constant {
        Some(c) => if c.unknown || c.width == 0 || (c.signed && c.high_bit) {
            None
        } else {
            c.value
        },
        None => None,
    }
}

fn find_bound(constant: Option<Constant>) -> (r: Option<usize>)
    ensures
        r == bound_of(constant),
{
    match constant {
        Some(c) => {
            if c.unknown || c.width == 0 || (c.signed && c.high_bit) {
                None
            } else {
                c.value
            }
        },
        None => None,
    }
}

/// The number that a constant stands for beside a selector with a sign: only one of the same width can
/// be compared bit by bit.
pub open spec fn signed_value(constant: Option<Constant>, width: usize) -> Option<usize> {
    match constant {
        Some(c) => if c.unknown || c.width == 0 || c.width != width {
            None
        } else {
            c.value
        },
        None => None,
    }
}

/// The values of a pattern are known.
pub open spec fn is_known(pattern: CasePattern, width: usize, signed: bool) -> bool {
    match pattern {
        CasePattern::Eq(constant) => if signed {
            signed_value(constant, width) is Some
        } else {
            bound_of(constant) is Some
        },
        CasePattern::Range { low, high, .. } => !signed && bound_of(low) is Some && bound_of(high) is Some,
    }
}

/// The pattern has the value of the selector.
pub open spec fn has_value(pattern: CasePattern, width: usize, signed: bool, value: int) -> bool {
    match pattern {
        CasePattern::Eq(constant) => if signed {
            signed_value(constant, width) matches Some(v) && v == value
        } else {
            bound_of(constant) matches Some(v) && v == value
        },
        CasePattern::Range { low, high, inclusive } => bound_of(low) matches Some(l) && bound_of(high) matches Some(h) && l <= value && if inclusive {
            value <= h
        } else {
            value < h
        },
    }
}

/// The values of a pattern that the selector can have. One that has a sign keeps the constant as it
/// is: it has the width of the selector.
pub fn case_pattern_interval(pattern: CasePattern, domain_high: usize, width: usize, signed: bool) -> (r: PatternValues)
    ensures
        r is Unknown <==> !is_known(pattern, width, signed),
        r matches PatternValues::Values(interval) ==> interval.wf(),
        !signed ==> (r matches PatternValues::Values(interval) ==> interval.high <= domain_high),
        !signed ==> (r is Empty ==> forall|value: int| 0 <= value <= domain_high ==> !#[trigger] has_value(pattern, width, signed, value)),
        !signed ==> (r matches PatternValues::Values(interval) ==> forall|value: int|
            0 <= value <= domain_high ==> (#[trigger] has_value(pattern, width, signed, value) <==> interval.has(value))),
        signed ==> !(r is Empty),
        signed ==> (r matches PatternValues::Values(interval) ==> forall|value: int| #[trigger] has_value(pattern, width, signed, value) <==> interval.has(value)),
{
    if signed {
        return match pattern {
            CasePattern::Eq(constant) => match constant {
                Some(c) => {
                    if c.unknown || c.width == 0 || c.width != width {
                        PatternValues::Unknown
                    } else {
                        match c.value {
                            Some(value) => PatternValues::Values(Interval { low: value, high: value }),
                            None => PatternValues::Unknown,
                        }
                    }
                },
                None => PatternValues::Unknown,
            },
            _ => PatternValues::Unknown,
        };
    }
    match pattern {
        CasePattern::Eq(constant) => match find_bound(constant) {
            Some(value) => {
                if value <= domain_high {
                    PatternValues::Values(Interval { low: value, high: value })
                } else {
                    PatternValues::Empty
                }
            },
            None => PatternValues::Unknown,
        },
        CasePattern::Range { low, high, inclusive } => match (find_bound(low), find_bound(high)) {
            (Some(low), Some(high)) => {
                if !inclusive && high == 0 {
                    return PatternValues::Empty;
                }
                let last: usize = if inclusive {
                    high
                } else {
                    high - 1
                };
                if low > last || low > domain_high {
                    PatternValues::Empty
                } else {
                    PatternValues::Values(
                        Interval {
                            low,
                            high: if last < domain_high {
                                last
                            } else {
                                domain_high
                            },
                        },
                    )
                }
            },
            _ => PatternValues::Unknown,
        },
    }
}

/// The highest value of a selector, where all its values fit.
pub fn domain_high(width: usize) -> (r: Option<usize>)
    ensures
        r matches Some(high) ==> width > 0 && high == pow2(width as nat) - 1,
        r is None ==> width == 0 || pow2(width as nat) - 1 > usize::MAX,
{
    if width == 0 {
        return None;
    }
    let mut high: usize = 0;
    let mut bits: usize = 0;
    proof {
        vstd::arithmetic::power2::lemma2_to64();
    }
    while bits < width
        invariant
            bits <= width,
            high == pow2(bits as nat) - 1,
        decreases width - bits,
    {
        proof {
            vstd::arithmetic::power2::lemma_pow2_unfold((bits + 1) as nat);
        }
        if high > (usize::MAX - 1) / 2 {
            proof {
                if bits + 1 < width {
                    vstd::arithmetic::power2::lemma_pow2_strictly_increases((bits + 1) as nat, width as nat);
                }
            }
            return None;
        }
        high = high * 2 + 1;
        bits = bits + 1;
    }
    Some(high)
}

/// All patterns of the arms are known.
pub open spec fn all_known(arms: Seq<Vec<CasePattern>>, width: usize, signed: bool) -> bool {
    forall|a: int, p: int| 0 <= a < arms.len() && 0 <= p < arms[a]@.len() ==> is_known(#[trigger] arms[a]@[p], width, signed)
}

/// Some pattern has the value.
pub open spec fn arm_has(patterns: Seq<CasePattern>, width: usize, signed: bool, value: int) -> bool {
    exists|p: int| 0 <= p < patterns.len() && has_value(#[trigger] patterns[p], width, signed, value)
}

/// The arm takes the value: it has it, and no arm before it does.
pub open spec fn takes(arms: Seq<Vec<CasePattern>>, width: usize, signed: bool, arm: int, value: int) -> bool {
    &&& 0 <= arm < arms.len()
    &&& arm_has(arms[arm]@, width, signed, value)
    &&& forall|a: int| 0 <= a < arm ==> !arm_has((#[trigger] arms[a])@, width, signed, value)
}

/// No arm has the value.
pub open spec fn falls_through(arms: Seq<Vec<CasePattern>>, width: usize, signed: bool, value: int) -> bool {
    forall|a: int| 0 <= a < arms.len() ==> !arm_has((#[trigger] arms[a])@, width, signed, value)
}

/// The arms that can be taken, and whether the default can.
pub struct Reachable {
    pub arms: Vec<usize>,
    pub default: bool,
}

/// The type is one whose values can be listed as intervals.
pub open spec fn is_finite(selector: SelectorType) -> bool {
    selector.plain && (selector.width matches Some(width) && width > 0 && pow2(width as nat) - 1 <= usize::MAX)
}

/// A constant that has as many bits as it says.
pub open spec fn constant_fits(constant: Option<Constant>) -> bool {
    constant matches Some(c) ==> (c.value matches Some(v) ==> c.width > 0 ==> v < pow2(c.width as nat))
}

/// All constants of the arms have as many bits as they say.
pub open spec fn constants_fit(arms: Seq<Vec<CasePattern>>) -> bool {
    forall|a: int, p: int|
        0 <= a < arms.len() && 0 <= p < arms[a]@.len() ==> match #[trigger] arms[a]@[p] {
            CasePattern::Eq(constant) => constant_fits(constant),
            CasePattern::Range { low, high, .. } => constant_fits(low) && constant_fits(high),
        }
}

/// The intervals of one arm.
struct ArmValues {
    intervals: Vec<Interval>,
}

/// The intervals have the values of the first `count` patterns.
spec fn lists_values(patterns: Seq<CasePattern>, count: int, high: usize, width: usize, signed: bool, intervals: Seq<Interval>) -> bool {
    &&& forall|i: int| 0 <= i < intervals.len() ==> (#[trigger] intervals[i]).wf() && intervals[i].high <= high
    &&& forall|value: int| 0 <= value <= high ==> (#[trigger] cases::holds(intervals, value) <==> arm_has(patterns.take(count), width, signed, value))
}

fn arm_intervals(patterns: &Vec<CasePattern>, high: usize, width: usize, signed: bool) -> (r: Option<ArmValues>)
    requires
        high == pow2(width as nat) - 1,
        forall|p: int|
            0 <= p < patterns@.len() ==> match #[trigger] patterns@[p] {
                CasePattern::Eq(constant) => constant_fits(constant),
                CasePattern::Range { low, high, .. } => constant_fits(low) && constant_fits(high),
            },
    ensures
        r is Some <==> forall|p: int| 0 <= p < patterns@.len() ==> is_known(#[trigger] patterns@[p], width, signed),
        r matches Some(list) ==> lists_values(patterns@, patterns@.len() as int, high, width, signed, list.intervals@),
{
    let mut intervals: Vec<Interval> = Vec::new();
    let mut i: usize = 0;
    while i < patterns.len()
        invariant
            i <= patterns@.len(),
            high == pow2(width as nat) - 1,
            forall|p: int|
                0 <= p < patterns@.len() ==> match #[trigger] patterns@[p] {
                    CasePattern::Eq(constant) => constant_fits(constant),
                    CasePattern::Range { low, high, .. } => constant_fits(low) && constant_fits(high),
                },
            forall|p: int| 0 <= p < i ==> is_known(#[trigger] patterns@[p], width, signed),
            lists_values(patterns@, i as int, high, width, signed, intervals@),
        decreases patterns@.len() - i,
    {
        let pattern = patterns[i];
        let ghost before = intervals@;
        proof {
            assert(patterns@[i as int] == pattern);
            if let CasePattern::Eq(constant) = pattern {
                assert(constant_fits(constant));
            }
        }
        let found = case_pattern_interval(pattern, high, width, signed);
        match found {
            PatternValues::Unknown => {
                assert(!is_known(patterns@[i as int], width, signed));
                return None;
            },
            PatternValues::Empty => {},
            PatternValues::Values(interval) => {
                intervals.push(interval);
                proof {
                    if signed {
                        assert(interval.has(interval.low as int));
                        assert(has_value(pattern, width, signed, interval.low as int));
                        assert(interval.has(interval.high as int));
                        assert(has_value(pattern, width, signed, interval.high as int));
                    }
                    assert(interval.high <= high);
                }
            },
        }
        proof {
            let taken = patterns@.take(i as int);
            let longer = patterns@.take(i + 1);
            assert(longer[i as int] == pattern);
            assert forall|value: int| 0 <= value <= high implies (#[trigger] cases::holds(intervals@, value) <==> arm_has(longer, width, signed, value)) by {
                assert(cases::holds(before, value) <==> arm_has(taken, width, signed, value));
                if cases::holds(intervals@, value) {
                    let k = choose|k: int| 0 <= k < intervals@.len() && (#[trigger] intervals@[k]).has(value);
                    if k < before.len() {
                        assert(before[k].has(value));
                        let p = choose|p: int| 0 <= p < taken.len() && has_value(#[trigger] taken[p], width, signed, value);
                        assert(longer[p] == taken[p]);
                    } else {
                        assert(has_value(pattern, width, signed, value));
                        assert(has_value(longer[i as int], width, signed, value));
                    }
                }
                if arm_has(longer, width, signed, value) {
                    let p = choose|p: int| 0 <= p < longer.len() && has_value(#[trigger] longer[p], width, signed, value);
                    if p < i {
                        assert(taken[p] == longer[p]);
                        let k = choose|k: int| 0 <= k < before.len() && (#[trigger] before[k]).has(value);
                        assert(intervals@[k].has(value));
                    } else {
                        assert(has_value(pattern, width, signed, value));
                        assert(intervals@[before.len() as int].has(value));
                    }
                }
            }
        }
        i = i + 1;
    }
    assert(patterns@.take(i as int) =~= patterns@);
    Some(ArmValues { intervals })
}

/// The arms that can win an ordered case, and whether its default can be reached. There is no answer
/// where some value of a pattern or of the selector is not known.
pub fn ordered_case_reachability(selector: SelectorType, arms: &Vec<Vec<CasePattern>>) -> (r: Option<Reachable>)
    requires
        constants_fit(arms@),
    ensures
        r is Some <==> is_finite(selector) && all_known(arms@, selector.width->0, selector.signed),
        r matches Some(reachable) ==> {
            &&& forall|i: int, j: int| 0 <= i < j < reachable.arms@.len() ==> (#[trigger] reachable.arms@[i]) < (#[trigger] reachable.arms@[j])
            &&& forall|arm: usize| #[trigger]
                reachable.arms@.contains(arm) <==> exists|value: int|
                    0 <= value < pow2(selector.width->0 as nat) && #[trigger] takes(arms@, selector.width->0, selector.signed, arm as int, value)
            &&& reachable.default <==> exists|value: int|
                0 <= value < pow2(selector.width->0 as nat) && #[trigger] falls_through(arms@, selector.width->0, selector.signed, value)
        },
{
    if !selector.plain {
        return None;
    }
    let width: usize = match selector.width {
        Some(width) => width,
        None => {
            return None;
        },
    };
    let high: usize = match domain_high(width) {
        Some(high) => high,
        None => {
            return None;
        },
    };
    let signed = selector.signed;
    let mut covered: Vec<Interval> = Vec::new();
    let mut reachable: Vec<usize> = Vec::new();
    let mut i: usize = 0;
    while i < arms.len()
        invariant
            i <= arms@.len(),
            is_finite(selector),
            selector.width == Some(width),
            selector.signed == signed,
            high == pow2(width as nat) - 1,
            constants_fit(arms@),
            cases::normalized(covered@),
            forall|a: int, p: int| 0 <= a < i && 0 <= p < arms@[a]@.len() ==> is_known(#[trigger] arms@[a]@[p], width, signed),
            forall|value: int| 0 <= value <= high ==> (#[trigger] cases::holds(covered@, value) <==> !falls_through(arms@.take(i as int), width, signed, value)),
            forall|k: int| 0 <= k < reachable@.len() ==> (#[trigger] reachable@[k]) < i,
            forall|a: int, b: int| 0 <= a < b < reachable@.len() ==> (#[trigger] reachable@[a]) < (#[trigger] reachable@[b]),
            forall|arm: usize|
                arm < i ==> (#[trigger] reachable@.contains(arm) <==> exists|value: int| 0 <= value <= high && #[trigger] takes(arms@, width, signed, arm as int, value)),
        decreases arms@.len() - i,
    {
        let patterns = &arms[i];
        proof {
            assert forall|p: int| 0 <= p < patterns@.len() implies match #[trigger] patterns@[p] {
                CasePattern::Eq(constant) => constant_fits(constant),
                CasePattern::Range { low, high, .. } => constant_fits(low) && constant_fits(high),
            } by {
                assert(arms@[i as int]@[p] == patterns@[p]);
            }
        }
        let list = match arm_intervals(patterns, high, width, signed) {
            Some(list) => list,
            None => {
                proof {
                    let p = choose|p: int| 0 <= p < patterns@.len() && !is_known(#[trigger] patterns@[p], width, signed);
                    assert(!is_known(arms@[i as int]@[p], width, signed));
                }
                return None;
            },
        };
        let intervals = list.intervals;
        assert(patterns@.take(patterns@.len() as int) =~= patterns@);
        let ghost taken = arms@.take(i as int);
        let mut open = false;
        let mut k: usize = 0;
        while k < intervals.len()
            invariant
                k <= intervals@.len(),
                cases::normalized(covered@),
                forall|m: int| 0 <= m < intervals@.len() ==> (#[trigger] intervals@[m]).wf() && intervals@[m].high <= high,
                open == exists|value: int| 0 <= value <= high && #[trigger] cases::holds(intervals@.take(k as int), value) && !cases::holds(covered@, value),
            decreases intervals@.len() - k,
        {
            let interval = intervals[k];
            let ghost listed = intervals@.take(k as int);
            let ghost longer = intervals@.take(k + 1);
            assert(longer[k as int] == interval);
            let hidden = case_interval_is_covered(&covered, interval);
            proof {
                if open {
                    let value = choose|value: int| 0 <= value <= high && #[trigger] cases::holds(listed, value) && !cases::holds(covered@, value);
                    let m = choose|m: int| 0 <= m < listed.len() && (#[trigger] listed[m]).has(value);
                    assert(longer[m].has(value));
                    assert(cases::holds(longer, value));
                }
                if !hidden {
                    let value = choose|value: int| #[trigger] interval.has(value) && !cases::holds(covered@, value);
                    assert(longer[k as int].has(value));
                    assert(cases::holds(longer, value));
                }
                if !open && hidden {
                    assert forall|value: int| 0 <= value <= high && #[trigger] cases::holds(longer, value) implies cases::holds(covered@, value) by {
                        let m = choose|m: int| 0 <= m < longer.len() && (#[trigger] longer[m]).has(value);
                        if m < k {
                            assert(listed[m].has(value));
                            assert(cases::holds(listed, value));
                        } else {
                            assert(interval.has(value));
                        }
                    }
                }
            }
            if !hidden {
                open = true;
            }
            k = k + 1;
        }
        assert(intervals@.take(k as int) =~= intervals@);
        proof {
            assert forall|value: int| 0 <= value <= high implies (#[trigger] takes(arms@, width, signed, i as int, value) <==> cases::holds(intervals@, value)
                && !cases::holds(covered@, value)) by {
                lemma_falls(arms@, width, signed, i as int, value);
                assert(cases::holds(covered@, value) <==> !falls_through(taken, width, signed, value));
                assert(cases::holds(intervals@, value) <==> arm_has(patterns@, width, signed, value));
            }
        }
        let ghost found = reachable@;
        if open {
            reachable.push(i);
        }
        proof {
            assert forall|arm: usize| arm < i + 1 implies (#[trigger] reachable@.contains(arm) <==> exists|value: int|
                0 <= value <= high && #[trigger] takes(arms@, width, signed, arm as int, value)) by {
                if arm < i {
                    assert(found.contains(arm) <==> exists|value: int| 0 <= value <= high && #[trigger] takes(arms@, width, signed, arm as int, value));
                    if found.contains(arm) {
                        let at = choose|at: int| 0 <= at < found.len() && found[at] == arm;
                        assert(reachable@[at] == arm);
                    }
                    if reachable@.contains(arm) {
                        let at = choose|at: int| 0 <= at < reachable@.len() && reachable@[at] == arm;
                        assert(at < found.len());
                        assert(found[at] == arm);
                    }
                } else {
                    if open {
                        assert(reachable@[found.len() as int] == arm);
                        let value = choose|value: int| 0 <= value <= high && #[trigger] cases::holds(intervals@, value) && !cases::holds(covered@, value);
                        assert(takes(arms@, width, signed, i as int, value));
                    } else {
                        assert(!reachable@.contains(arm)) by {
                            if reachable@.contains(arm) {
                                let at = choose|at: int| 0 <= at < reachable@.len() && reachable@[at] == arm;
                                assert(found[at] < i);
                            }
                        }
                        if exists|value: int| 0 <= value <= high && #[trigger] takes(arms@, width, signed, arm as int, value) {
                            let value = choose|value: int| 0 <= value <= high && #[trigger] takes(arms@, width, signed, arm as int, value);
                            assert(cases::holds(intervals@, value) && !cases::holds(covered@, value));
                        }
                    }
                }
            }
        }
        let ghost covered_before = covered@;
        k = 0;
        while k < intervals.len()
            invariant
                k <= intervals@.len(),
                cases::normalized(covered@),
                forall|m: int| 0 <= m < intervals@.len() ==> (#[trigger] intervals@[m]).wf() && intervals@[m].high <= high,
                forall|value: int| #[trigger] cases::holds(covered@, value) <==> cases::holds(covered_before, value) || cases::holds(intervals@.take(k as int), value),
            decreases intervals@.len() - k,
        {
            let interval = intervals[k];
            let ghost known = covered@;
            let ghost listed = intervals@.take(k as int);
            let ghost longer = intervals@.take(k + 1);
            insert_case_interval(&mut covered, interval);
            proof {
                assert(longer[k as int] == interval);
                assert forall|value: int| #[trigger] cases::holds(covered@, value) <==> cases::holds(covered_before, value) || cases::holds(longer, value) by {
                    assert(cases::holds(known, value) <==> cases::holds(covered_before, value) || cases::holds(listed, value));
                    if cases::holds(listed, value) {
                        let m = choose|m: int| 0 <= m < listed.len() && (#[trigger] listed[m]).has(value);
                        assert(longer[m].has(value));
                    }
                    if cases::holds(longer, value) {
                        let m = choose|m: int| 0 <= m < longer.len() && (#[trigger] longer[m]).has(value);
                        if m < k {
                            assert(listed[m].has(value));
                        }
                    }
                }
            }
            k = k + 1;
        }
        proof {
            assert(intervals@.take(k as int) =~= intervals@);
            let longer = arms@.take(i + 1);
            assert forall|value: int| 0 <= value <= high implies (#[trigger] cases::holds(covered@, value) <==> !falls_through(longer, width, signed, value)) by {
                assert(cases::holds(covered_before, value) <==> !falls_through(taken, width, signed, value));
                assert(cases::holds(intervals@, value) <==> arm_has(patterns@, width, signed, value));
                lemma_falls_next(arms@, width, signed, i as int, value);
            }
            assert forall|a: int, p: int| 0 <= a < i + 1 && 0 <= p < arms@[a]@.len() implies is_known(#[trigger] arms@[a]@[p], width, signed) by {
                if a == i {
                    assert(is_known(patterns@[p], width, signed));
                }
            }
        }
        i = i + 1;
    }
    assert(arms@.take(i as int) =~= arms@);
    let hidden = case_interval_is_covered(&covered, Interval { low: 0, high });
    proof {
        let whole = Interval { low: 0, high };
        if !hidden {
            let value = choose|value: int| #[trigger] whole.has(value) && !cases::holds(covered@, value);
            assert(falls_through(arms@, width, signed, value));
        } else {
            assert forall|value: int| 0 <= value < pow2(width as nat) implies !#[trigger] falls_through(arms@, width, signed, value) by {
                assert(whole.has(value));
                assert(cases::holds(covered@, value));
            }
        }
        assert forall|arm: usize| #[trigger] reachable@.contains(arm) <==> exists|value: int|
            0 <= value < pow2(width as nat) && #[trigger] takes(arms@, width, signed, arm as int, value) by {
            if arm < arms@.len() {
                if reachable@.contains(arm) {
                    let value = choose|value: int| 0 <= value <= high && #[trigger] takes(arms@, width, signed, arm as int, value);
                    assert(takes(arms@, width, signed, arm as int, value));
                }
                if exists|value: int| 0 <= value < pow2(width as nat) && #[trigger] takes(arms@, width, signed, arm as int, value) {
                    let value = choose|value: int| 0 <= value < pow2(width as nat) && #[trigger] takes(arms@, width, signed, arm as int, value);
                    assert(0 <= value <= high && takes(arms@, width, signed, arm as int, value));
                }
            } else if reachable@.contains(arm) {
                let at = choose|at: int| 0 <= at < reachable@.len() && reachable@[at] == arm;
                assert(reachable@[at] < i);
            }
        }
    }
    Some(Reachable { arms: reachable, default: !hidden })
}

proof fn lemma_falls(arms: Seq<Vec<CasePattern>>, width: usize, signed: bool, arm: int, value: int)
    requires
        0 <= arm < arms.len(),
    ensures
        takes(arms, width, signed, arm, value) <==> arm_has(arms[arm]@, width, signed, value) && falls_through(arms.take(arm), width, signed, value),
{
    let taken = arms.take(arm);
    assert forall|a: int| 0 <= a < arm implies #[trigger] arms[a] == taken[a] by {}
    if falls_through(taken, width, signed, value) {
        assert forall|a: int| 0 <= a < arm implies !arm_has((#[trigger] arms[a])@, width, signed, value) by {
            assert(taken[a] == arms[a]);
        }
    }
}

proof fn lemma_falls_next(arms: Seq<Vec<CasePattern>>, width: usize, signed: bool, arm: int, value: int)
    requires
        0 <= arm < arms.len(),
    ensures
        falls_through(arms.take(arm + 1), width, signed, value) <==> falls_through(arms.take(arm), width, signed, value) && !arm_has(
            arms[arm]@,
            width,
            signed,
            value,
        ),
{
    let taken = arms.take(arm);
    let longer = arms.take(arm + 1);
    assert(longer[arm] == arms[arm]);
    if falls_through(longer, width, signed, value) {
        assert forall|a: int| 0 <= a < taken.len() implies !arm_has((#[trigger] taken[a])@, width, signed, value) by {
            assert(longer[a] == taken[a]);
        }
    }
    if falls_through(taken, width, signed, value) && !arm_has(arms[arm]@, width, signed, value) {
        assert forall|a: int| 0 <= a < longer.len() implies !arm_has((#[trigger] longer[a])@, width, signed, value) by {
            if a < arm {
                assert(longer[a] == taken[a]);
            }
        }
    }
}

/// For every value of the selector exactly one is true: it falls through, or one arm takes it, and
/// that arm only.
pub proof fn every_value_goes_one_way(arms: Seq<Vec<CasePattern>>, width: usize, signed: bool, value: int)
    ensures
        falls_through(arms, width, signed, value) <==> forall|arm: int| !#[trigger] takes(arms, width, signed, arm, value),
        forall|a: int, b: int| #[trigger] takes(arms, width, signed, a, value) && #[trigger] takes(arms, width, signed, b, value) ==> a == b,
{
    if !falls_through(arms, width, signed, value) {
        let a = choose|a: int| 0 <= a < arms.len() && arm_has((#[trigger] arms[a])@, width, signed, value);
        lemma_first(arms, width, signed, a, value);
        let arm = choose|arm: int| #[trigger] takes(arms, width, signed, arm, value);
        assert(takes(arms, width, signed, arm, value));
    }
    assert forall|a: int, b: int| #[trigger] takes(arms, width, signed, a, value) && #[trigger] takes(arms, width, signed, b, value) implies a == b by {
        if a < b {
            assert(!arm_has(arms[a]@, width, signed, value));
        }
        if b < a {
            assert(!arm_has(arms[b]@, width, signed, value));
        }
    }
}

proof fn lemma_first(arms: Seq<Vec<CasePattern>>, width: usize, signed: bool, a: int, value: int)
    requires
        0 <= a < arms.len(),
        arm_has(arms[a]@, width, signed, value),
    ensures
        exists|arm: int| #[trigger] takes(arms, width, signed, arm, value),
    decreases a,
{
    if exists|b: int| 0 <= b < a && arm_has((#[trigger] arms[b])@, width, signed, value) {
        let b = choose|b: int| 0 <= b < a && arm_has((#[trigger] arms[b])@, width, signed, value);
        lemma_first(arms, width, signed, b, value);
    } else {
        assert(takes(arms, width, signed, a, value));
    }
}

/// The arms that a selector of a known value may take, and whether one surely takes it.
pub struct Candidates {
    pub arms: Vec<usize>,
    pub certain: bool,
}

/// Some pattern of the arm surely has the value.
pub open spec fn surely(answers: Seq<Option<bool>>) -> bool {
    exists|p: int| 0 <= p < answers.len() && (#[trigger] answers[p]) == Some(true)
}

/// The arm may have the value.
pub open spec fn maybe(answers: Seq<Option<bool>>) -> bool {
    surely(answers) || exists|p: int| 0 <= p < answers.len() && (#[trigger] answers[p]) is None
}

/// No arm before has the value for sure.
pub open spec fn open_until(answers: Seq<Vec<Option<bool>>>, arm: int) -> bool {
    forall|a: int| 0 <= a < arm ==> !surely((#[trigger] answers[a])@)
}

/// The arms that a selector of a known value may take, where `answers` says of each pattern whether it
/// has the value, as far as that is known. What follows an arm that surely has it is not taken.
pub fn known_case_arms(answers: &Vec<Vec<Option<bool>>>) -> (r: Candidates)
    ensures
        forall|i: int, j: int| 0 <= i < j < r.arms@.len() ==> (#[trigger] r.arms@[i]) < (#[trigger] r.arms@[j]),
        forall|arm: usize| #[trigger]
            r.arms@.contains(arm) <==> arm < answers@.len() && open_until(answers@, arm as int) && maybe(answers@[arm as int]@),
        r.certain == !open_until(answers@, answers@.len() as int),
{
    let mut arms: Vec<usize> = Vec::new();
    let mut i: usize = 0;
    while i < answers.len()
        invariant
            i <= answers@.len(),
            open_until(answers@, i as int),
            forall|k: int| 0 <= k < arms@.len() ==> (#[trigger] arms@[k]) < i,
            forall|a: int, b: int| 0 <= a < b < arms@.len() ==> (#[trigger] arms@[a]) < (#[trigger] arms@[b]),
            forall|arm: usize| #[trigger] arms@.contains(arm) <==> arm < i && maybe(answers@[arm as int]@),
        decreases answers@.len() - i,
    {
        let list = &answers[i];
        let mut sure = false;
        let mut unsure = false;
        let mut p: usize = 0;
        while p < list.len() && !sure
            invariant
                p <= list@.len(),
                sure == exists|k: int| 0 <= k < p && (#[trigger] list@[k]) == Some(true),
                unsure == exists|k: int| 0 <= k < p && (#[trigger] list@[k]) is None,
            decreases list@.len() - p,
        {
            match list[p] {
                Some(true) => {
                    assert(list@[p as int] == Some(true));
                    sure = true;
                },
                Some(false) => {},
                None => {
                    assert(list@[p as int] is None);
                    unsure = true;
                },
            }
            p = p + 1;
        }
        let ghost known = arms@;
        assert(sure == surely(list@));
        if sure || unsure {
            arms.push(i);
        }
        proof {
            assert((sure || unsure) == maybe(list@));
            assert forall|arm: usize| #[trigger] arms@.contains(arm) <==> arm < i + 1 && maybe(answers@[arm as int]@) by {
                assert(known.contains(arm) <==> arm < i && maybe(answers@[arm as int]@));
                if arms@.contains(arm) {
                    let k = choose|k: int| 0 <= k < arms@.len() && arms@[k] == arm;
                    if k < known.len() {
                        assert(known[k] == arm);
                    }
                }
                if known.contains(arm) {
                    let k = choose|k: int| 0 <= k < known.len() && known[k] == arm;
                    assert(arms@[k] == arm);
                }
                if arm == i && maybe(list@) {
                    assert(arms@[known.len() as int] == arm);
                }
            }
        }
        if sure {
            proof {
                assert forall|arm: usize| #[trigger] arms@.contains(arm) <==> arm < answers@.len() && open_until(answers@, arm as int) && maybe(
                    answers@[arm as int]@,
                ) by {
                    if arm > i {
                        assert(surely(answers@[i as int]@));
                    }
                }
            }
            return Candidates { arms, certain: true };
        }
        i = i + 1;
    }
    Candidates { arms, certain: false }
}


/// How a case is evaluated.
#[derive(Clone, Debug, PartialEq, Eq)]
pub enum CasePlan {
    /// The default is taken.
    Default,
    /// One arm is taken.
    Arm(usize),
    /// One of these arms is taken, or the default where it is among them.
    Branch { arms: Vec<usize>, default: bool },
}

/// How a case on a selector of a known value is evaluated.
pub fn plan_known_case(candidates: Candidates) -> (r: CasePlan)
    ensures
        candidates.arms@.len() == 0 ==> r == CasePlan::Default,
        candidates.arms@.len() == 1 && candidates.certain ==> r == CasePlan::Arm(candidates.arms@[0]),
        candidates.arms@.len() > 1 || (candidates.arms@.len() == 1 && !candidates.certain) ==> (r matches CasePlan::Branch { arms, default } && arms
            == candidates.arms && default == !candidates.certain),
{
    if candidates.arms.len() == 0 {
        return CasePlan::Default;
    }
    if candidates.arms.len() == 1 && candidates.certain {
        return CasePlan::Arm(candidates.arms[0]);
    }
    CasePlan::Branch { arms: candidates.arms, default: !candidates.certain }
}

/// How a case on a selector of an unknown value is evaluated: all arms and the default, less what is
/// known not to be reached.
pub fn plan_unknown_case(count: usize, reachable: Option<Reachable>) -> (r: CasePlan)
    ensures
        r matches CasePlan::Branch { arms, default } && match reachable {
            Some(found) => arms == found.arms && default == found.default,
            None => arms@ == Seq::new(count as nat, |i: int| i as usize) && default,
        },
{
    match reachable {
        Some(found) => CasePlan::Branch { arms: found.arms, default: found.default },
        None => {
            let mut arms: Vec<usize> = Vec::new();
            let mut i: usize = 0;
            while i < count
                invariant
                    i <= count,
                    arms@ == Seq::new(i as nat, |k: int| k as usize),
                decreases count - i,
            {
                arms.push(i);
                i = i + 1;
                assert(arms@ =~= Seq::new(i as nat, |k: int| k as usize));
            }
            CasePlan::Branch { arms, default: true }
        },
    }
}

/// What is certain of a known value needs no default: some arm of the plan takes it.
pub proof fn certain_cases_have_an_arm(answers: Seq<Vec<Option<bool>>>)
    requires
        !open_until(answers, answers.len() as int),
    ensures
        exists|arm: int| 0 <= arm < answers.len() && #[trigger] open_until(answers, arm) && surely(answers[arm]@),
{
    let a = choose|a: int| 0 <= a < answers.len() && surely((#[trigger] answers[a])@);
    lemma_first_sure(answers, a);
}

proof fn lemma_first_sure(answers: Seq<Vec<Option<bool>>>, a: int)
    requires
        0 <= a < answers.len(),
        surely(answers[a]@),
    ensures
        exists|arm: int| 0 <= arm < answers.len() && #[trigger] open_until(answers, arm) && surely(answers[arm]@),
    decreases a,
{
    if open_until(answers, a) {
    } else {
        let b = choose|b: int| 0 <= b < a && surely((#[trigger] answers[b])@);
        lemma_first_sure(answers, b);
    }
}


/// The constant has as many bits as it says.
fn constant_is_small(constant: Option<Constant>) -> (r: bool)
    ensures
        r == constant_fits(constant),
{
    match constant {
        Some(c) => match c.value {
            Some(value) => {
                if c.width == 0 {
                    true
                } else {
                    match domain_high(c.width) {
                        Some(high) => value <= high,
                        None => true,
                    }
                }
            },
            None => true,
        },
        None => true,
    }
}

/// Whether all constants of the arms have as many bits as they say.
pub fn constants_are_small(arms: &Vec<Vec<CasePattern>>) -> (r: bool)
    ensures
        r == constants_fit(arms@),
{
    let mut i: usize = 0;
    while i < arms.len()
        invariant
            i <= arms@.len(),
            constants_fit(arms@.take(i as int)),
        decreases arms@.len() - i,
    {
        let list = &arms[i];
        let mut k: usize = 0;
        while k < list.len()
            invariant
                i < arms@.len(),
                *list == arms@[i as int],
                k <= list@.len(),
                forall|p: int| 0 <= p < k ==> match #[trigger] list@[p] {
                    CasePattern::Eq(constant) => constant_fits(constant),
                    CasePattern::Range { low, high, .. } => constant_fits(low) && constant_fits(high),
                },
            decreases list@.len() - k,
        {
            let small = match list[k] {
                CasePattern::Eq(constant) => constant_is_small(constant),
                CasePattern::Range { low, high, .. } => constant_is_small(low) && constant_is_small(high),
            };
            if !small {
                assert(arms@[i as int]@[k as int] == list@[k as int]);
                return false;
            }
            k = k + 1;
        }
        proof {
            let taken = arms@.take(i as int);
            let longer = arms@.take(i + 1);
            assert forall|a: int, p: int| 0 <= a < longer.len() && 0 <= p < longer[a]@.len() implies match #[trigger] longer[a]@[p] {
                CasePattern::Eq(constant) => constant_fits(constant),
                CasePattern::Range { low, high, .. } => constant_fits(low) && constant_fits(high),
            } by {
                if a < i {
                    assert(taken[a]@[p] == longer[a]@[p]);
                } else {
                    assert(list@[p] == longer[a]@[p]);
                }
            }
        }
        i = i + 1;
    }
    assert(arms@.take(i as int) =~= arms@);
    true
}

/// The arms of a case that are evaluated, by what is known of it.
pub open spec fn case_planned(count: usize, selector: SelectorType, patterns: Seq<Vec<CasePattern>>, answers: Option<Vec<Vec<Option<bool>>>>, plan: CasePlan) -> bool {
    match answers {
        Some(answers) => exists|candidates: Candidates| #[trigger] are_candidates(answers@, candidates) && plans_known(candidates, plan),
        None => if constants_fit(patterns) && is_finite(selector) && all_known(patterns, selector.width->0, selector.signed) {
            plan matches CasePlan::Branch { arms, default } && (forall|i: int, j: int| 0 <= i < j < arms@.len() ==> (#[trigger] arms@[i]) < (#[trigger] arms@[j])) && (forall|
                arm: usize,
            | #[trigger]
                arms@.contains(arm) <==> exists|value: int|
                    0 <= value < pow2(selector.width->0 as nat) && #[trigger] takes(patterns, selector.width->0, selector.signed, arm as int, value)) && (default
                <==> exists|value: int|
                0 <= value < pow2(selector.width->0 as nat) && #[trigger] falls_through(patterns, selector.width->0, selector.signed, value))
        } else {
            plan matches CasePlan::Branch { arms, default } && arms@ == Seq::new(count as nat, |i: int| i as usize) && default
        },
    }
}

pub open spec fn are_candidates(answers: Seq<Vec<Option<bool>>>, r: Candidates) -> bool {
    &&& forall|i: int, j: int| 0 <= i < j < r.arms@.len() ==> (#[trigger] r.arms@[i]) < (#[trigger] r.arms@[j])
    &&& forall|arm: usize| #[trigger]
        r.arms@.contains(arm) <==> arm < answers.len() && open_until(answers, arm as int) && maybe(answers[arm as int]@)
    &&& r.certain == !open_until(answers, answers.len() as int)
}

pub open spec fn plans_known(candidates: Candidates, r: CasePlan) -> bool {
    &&& candidates.arms@.len() == 0 ==> r == CasePlan::Default
    &&& candidates.arms@.len() == 1 && candidates.certain ==> r == CasePlan::Arm(candidates.arms@[0])
    &&& candidates.arms@.len() > 1 || (candidates.arms@.len() == 1 && !candidates.certain) ==> (r matches CasePlan::Branch { arms, default } && arms
        == candidates.arms && default == !candidates.certain)
}

/// How a case is evaluated.
pub fn plan_case(count: usize, selector: SelectorType, patterns: &Vec<Vec<CasePattern>>, answers: &Option<Vec<Vec<Option<bool>>>>) -> (r: CasePlan)
    ensures
        case_planned(count, selector, patterns@, *answers, r),
{
    match answers {
        Some(answers) => {
            let candidates = known_case_arms(answers);
            assert(are_candidates(answers@, candidates));
            plan_known_case(candidates)
        },
        None => {
            let reachable = if constants_are_small(patterns) {
                ordered_case_reachability(selector, patterns)
            } else {
                None
            };
            plan_unknown_case(count, reachable)
        },
    }
}

} // verus!
