use veryl_analyzer::cases::Interval;
use veryl_analyzer::selection::{
    case_pattern_interval, domain_high, known_case_arms, ordered_case_reachability,
    plan_known_case, plan_unknown_case, Candidates, CasePattern, CasePlan, Constant, PatternValues,
    Reachable, SelectorType,
};

fn number(value: usize, width: usize) -> Option<Constant> {
    Some(Constant {
        value: Some(value),
        width,
        signed: false,
        high_bit: value >> (width - 1) & 1 == 1,
        unknown: false,
    })
}

fn equal(value: usize) -> CasePattern {
    CasePattern::Eq(number(value, 8))
}

fn range(low: usize, high: usize, inclusive: bool) -> CasePattern {
    CasePattern::Range {
        low: number(low, 8),
        high: number(high, 8),
        inclusive,
    }
}

fn plain(width: usize) -> SelectorType {
    SelectorType {
        plain: true,
        width: Some(width),
        signed: false,
    }
}

#[test]
fn highest_value_of_a_selector() {
    assert_eq!(domain_high(0), None);
    assert_eq!(domain_high(1), Some(1));
    assert_eq!(domain_high(3), Some(7));
    assert_eq!(domain_high(64), Some(usize::MAX));
    assert_eq!(domain_high(65), None);
}

#[test]
fn pattern_values_stay_inside_the_domain() {
    let values = |low, high| PatternValues::Values(Interval { low, high });
    assert_eq!(case_pattern_interval(equal(3), 7, 3, false), values(3, 3));
    assert_eq!(case_pattern_interval(equal(8), 7, 3, false), PatternValues::Empty);
    assert_eq!(case_pattern_interval(range(2, 200, true), 7, 3, false), values(2, 7));
    assert_eq!(case_pattern_interval(range(2, 5, false), 7, 3, false), values(2, 4));
    assert_eq!(case_pattern_interval(range(2, 2, false), 7, 3, false), PatternValues::Empty);
    assert_eq!(case_pattern_interval(range(0, 0, false), 7, 3, false), PatternValues::Empty);
    assert_eq!(case_pattern_interval(range(5, 2, true), 7, 3, false), PatternValues::Empty);
    assert_eq!(case_pattern_interval(CasePattern::Eq(None), 7, 3, false), PatternValues::Unknown);
}

#[test]
fn a_signed_selector_takes_constants_of_its_own_width_only() {
    let negative = Some(Constant {
        value: Some(6),
        width: 3,
        signed: true,
        high_bit: true,
        unknown: false,
    });
    assert_eq!(
        case_pattern_interval(CasePattern::Eq(negative), 7, 3, true),
        PatternValues::Values(Interval { low: 6, high: 6 })
    );
    // Without a sign, a negative constant is no bound.
    assert_eq!(
        case_pattern_interval(CasePattern::Eq(negative), 7, 3, false),
        PatternValues::Unknown
    );
    assert_eq!(case_pattern_interval(equal(6), 7, 3, true), PatternValues::Unknown);
    assert_eq!(case_pattern_interval(range(0, 1, true), 7, 3, true), PatternValues::Unknown);
}

#[test]
fn unknown_bits_and_literals_without_width_are_no_bounds() {
    let mut constant = number(1, 8).unwrap();
    constant.unknown = true;
    assert_eq!(
        case_pattern_interval(CasePattern::Eq(Some(constant)), 7, 3, false),
        PatternValues::Unknown
    );
    constant.unknown = false;
    constant.width = 0;
    assert_eq!(
        case_pattern_interval(CasePattern::Eq(Some(constant)), 7, 3, false),
        PatternValues::Unknown
    );
}

#[test]
fn an_arm_behind_covering_arms_is_not_reached() {
    let arms = vec![
        vec![equal(0), equal(1)],
        vec![range(2, 3, true)],
        vec![range(1, 2, true)],
    ];
    let reachable = ordered_case_reachability(plain(2), &arms).unwrap();
    assert_eq!(reachable.arms, vec![0, 1]);
    assert!(!reachable.default);
}

#[test]
fn the_default_stays_where_a_value_is_left() {
    let arms = vec![vec![range(0, 2, true)], vec![equal(2)]];
    let reachable = ordered_case_reachability(plain(2), &arms).unwrap();
    assert_eq!(reachable.arms, vec![0]);
    assert!(reachable.default);
    let none = ordered_case_reachability(plain(2), &Vec::new()).unwrap();
    assert!(none.arms.is_empty());
    assert!(none.default);
}

#[test]
fn no_answer_for_selectors_and_patterns_that_are_not_known() {
    let arms = vec![vec![equal(0)]];
    let mut selector = plain(2);
    selector.plain = false;
    assert!(ordered_case_reachability(selector, &arms).is_none());
    selector = plain(0);
    assert!(ordered_case_reachability(selector, &arms).is_none());
    selector.width = None;
    assert!(ordered_case_reachability(selector, &arms).is_none());
    assert!(ordered_case_reachability(plain(65), &arms).is_none());
    assert!(ordered_case_reachability(plain(2), &vec![vec![CasePattern::Eq(None)]]).is_none());
}

#[test]
fn a_sure_match_ends_the_search() {
    let found = known_case_arms(&vec![
        vec![Some(false)],
        vec![None, Some(false)],
        vec![Some(false), Some(true)],
        vec![None],
    ]);
    assert_eq!(found.arms, vec![1, 2]);
    assert!(found.certain);
    let unsure = known_case_arms(&vec![vec![Some(false)], vec![None]]);
    assert_eq!(unsure.arms, vec![1]);
    assert!(!unsure.certain);
    assert!(known_case_arms(&vec![vec![Some(false)], Vec::new()]).arms.is_empty());
}

#[test]
fn every_value_goes_to_one_arm_or_to_the_default() {
    // All values of two bits: each arm that is listed wins for some value.
    let arms = vec![vec![equal(3)], vec![range(1, 3, true)], vec![equal(1)]];
    let reachable = ordered_case_reachability(plain(2), &arms).unwrap();
    assert_eq!(reachable.arms, vec![0, 1]);
    assert!(reachable.default);
}

#[test]
fn a_case_on_a_known_value_takes_what_it_must() {
    let plan = |arms: Vec<usize>, certain| plan_known_case(Candidates { arms, certain });
    assert_eq!(plan(Vec::new(), false), CasePlan::Default);
    assert_eq!(plan(vec![2], true), CasePlan::Arm(2));
    assert_eq!(plan(vec![2], false), CasePlan::Branch { arms: vec![2], default: true });
    assert_eq!(plan(vec![0, 2], true), CasePlan::Branch { arms: vec![0, 2], default: false });
}

#[test]
fn a_case_on_an_unknown_value_keeps_what_can_be_reached() {
    assert_eq!(
        plan_unknown_case(3, None),
        CasePlan::Branch { arms: vec![0, 1, 2], default: true }
    );
    assert_eq!(
        plan_unknown_case(3, Some(Reachable { arms: vec![1], default: false })),
        CasePlan::Branch { arms: vec![1], default: false }
    );
}
