use veryl_analyzer::predicates::{
    same_expression, PredicateExpression, PredicateMember, PredicatePart, PredicateRange, PredicateTable,
};

fn variable(id: u64) -> PredicateExpression {
    PredicateExpression::Variable { id, index: Vec::new(), select: Vec::new(), range: None }
}

fn selected(id: u64, op: u8, end: u64) -> PredicateExpression {
    PredicateExpression::Variable {
        id,
        index: vec![variable(9)],
        select: vec![PredicateExpression::Value(3)],
        range: Some(PredicateRange { op, end: Box::new(PredicateExpression::Value(end)) }),
    }
}

fn equals(left: PredicateExpression, right: PredicateExpression) -> PredicateExpression {
    PredicateExpression::Binary(Box::new(left), 1, Box::new(right))
}

fn part(value: PredicateExpression, repeat: Option<PredicateExpression>) -> PredicatePart {
    PredicatePart { value, repeat: repeat.map(Box::new) }
}

#[test]
fn conditions_are_alike_where_they_are_written_alike() {
    assert!(same_expression(&selected(1, 0, 2), &selected(1, 0, 2)));
    assert!(!same_expression(&selected(1, 0, 2), &selected(2, 0, 2)));
    assert!(!same_expression(&selected(1, 0, 2), &selected(1, 1, 2)));
    assert!(!same_expression(&selected(1, 0, 2), &selected(1, 0, 3)));
    assert!(!same_expression(&selected(1, 0, 2), &variable(1)));
    assert!(!same_expression(&equals(variable(1), variable(2)), &equals(variable(2), variable(1))));
    let unary = |op: u64| PredicateExpression::Unary(op, Box::new(variable(1)));
    assert!(same_expression(&unary(4), &unary(4)));
    assert!(!same_expression(&unary(4), &unary(5)));
    let ternary = |id: u64| {
        PredicateExpression::Ternary(Box::new(variable(1)), Box::new(variable(2)), Box::new(variable(id)))
    };
    assert!(same_expression(&ternary(3), &ternary(3)));
    assert!(!same_expression(&ternary(3), &ternary(4)));
}

#[test]
fn literals_are_compared_part_by_part() {
    let parts = |repeat: Option<PredicateExpression>| vec![part(variable(1), None), part(variable(2), repeat)];
    let twice = || Some(PredicateExpression::Value(2));
    let concatenation = PredicateExpression::Concatenation(parts(twice()));
    assert!(same_expression(&concatenation, &PredicateExpression::Concatenation(parts(twice()))));
    assert!(!same_expression(&concatenation, &PredicateExpression::Concatenation(parts(None))));
    assert!(!same_expression(&concatenation, &PredicateExpression::ArrayLiteral(parts(twice()))));
    let members = |name: u64| {
        PredicateExpression::StructConstructor(vec![PredicateMember { name, value: variable(1) }])
    };
    assert!(same_expression(&members(1), &members(1)));
    assert!(!same_expression(&members(1), &members(2)));
}

#[test]
fn opaque_conditions_are_like_themselves_only() {
    assert!(same_expression(&PredicateExpression::Opaque(1), &PredicateExpression::Opaque(1)));
    assert!(!same_expression(&PredicateExpression::Opaque(1), &PredicateExpression::Opaque(2)));
}

#[test]
fn like_conditions_share_an_identity() {
    let mut table = PredicateTable::new();
    let first = table.identity(equals(variable(1), variable(2)));
    let second = table.identity(equals(variable(2), variable(1)));
    let third = table.identity(equals(variable(1), variable(2)));
    assert_eq!(third, first);
    assert_ne!(second, first);
    assert_eq!(table.known.len(), 2);
}
