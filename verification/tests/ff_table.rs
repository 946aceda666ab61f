use veryl_analyzer::bits::PackedMask;
use veryl_analyzer::ff_table::{AssignTarget, FfTable};
use veryl_analyzer::self_reads::unsafe_self_reads;
use veryl_analyzer::write_count::{Access, Declaration, Expression, Location, Statement, StorageKind};
use veryl_analyzer::written::Element;

#[test]
fn unknown_array_candidates_conservatively_retain_ff() {
    let read_id = 1;
    let assigned_id = 2;
    let comb_id = 3;
    let mut table = FfTable::default();

    table.insert_assigned(read_id, 7, 0);
    table.insert_unknown_reference(read_id, true);
    assert!(table.is_ff(read_id, 7));

    table.insert_unknown_assignment(assigned_id, false);
    assert!(table.is_ff(assigned_id, 0));
    assert!(table.is_ff(assigned_id, usize::MAX));

    table.insert_unknown_assignment(comb_id, true);
    assert!(!table.is_ff(comb_id, 0));
}

fn whole(id: u64) -> Access {
    bits(id, None)
}

fn bits(id: u64, range: Option<(usize, usize)>) -> Access {
    Access {
        coordinates: Vec::new(),
        location: Some(Location { id, kind: StorageKind::Shared, candidates: Some(vec![0]), range }),
    }
}

fn assign(to: Access, from: Access) -> Statement {
    Statement::Assign { expression: Expression::Variable(from), destinations: vec![to] }
}

fn target(id: u64) -> Option<AssignTarget> {
    Some(AssignTarget { id, index: Some(0), mask: PackedMask::Unknown })
}

/// Element 0 of variable 1, which declaration 0 assigns and reads.
fn self_reading() -> FfTable {
    let mut table = FfTable::default();
    table.insert_assigned(1, 0, 0);
    table.insert_refered(1, 0, 0, target(1), PackedMask::Unknown, true);
    table
}

#[test]
fn a_read_before_the_write_needs_no_register() {
    let decls = vec![Declaration::Ff(vec![assign(whole(1), whole(1))])];
    let reads = unsafe_self_reads(&decls);
    assert!(!reads.contains(0, Element { id: 1, index: 0 }));
    let mut table = self_reading();
    table.update_is_ff(&decls);
    assert!(!table.is_ff(1, 0));
}

#[test]
fn a_read_behind_the_write_needs_a_register() {
    let decls = vec![Declaration::Ff(vec![assign(whole(1), whole(2)), assign(whole(1), whole(1))])];
    let reads = unsafe_self_reads(&decls);
    assert!(reads.contains(0, Element { id: 1, index: 0 }));
    assert!(!reads.contains(1, Element { id: 1, index: 0 }));
    let mut table = self_reading();
    table.update_is_ff(&decls);
    assert!(table.is_ff(1, 0));
    // Classifying it again changes nothing.
    table.update_is_ff(&decls);
    assert!(table.is_ff(1, 0));
}

#[test]
fn writes_of_other_bits_leave_a_read_safe() {
    let decls = |read: (usize, usize)| {
        vec![Declaration::Ff(vec![
            assign(bits(1, Some((3, 0))), whole(2)),
            assign(bits(1, Some(read)), bits(1, Some(read))),
        ])]
    };
    let element = Element { id: 1, index: 0 };
    assert!(!unsafe_self_reads(&decls((7, 4))).contains(0, element));
    assert!(unsafe_self_reads(&decls((4, 3))).contains(0, element));
}

#[test]
fn writes_of_either_branch_are_seen_behind_it() {
    let decls = vec![Declaration::Ff(vec![
        Statement::If {
            condition: Expression::Value,
            yes: Vec::new(),
            no: vec![assign(whole(1), whole(2))],
        },
        assign(whole(1), whole(1)),
    ])];
    assert!(unsafe_self_reads(&decls).contains(0, Element { id: 1, index: 0 }));
}

#[test]
fn reads_by_another_declaration_need_a_register() {
    let decls = vec![Declaration::Ff(Vec::new()), Declaration::Ff(Vec::new())];
    let mut table = FfTable::default();
    table.insert_assigned(1, 0, 0);
    table.insert_refered(1, 0, 1, target(1), PackedMask::Unknown, true);
    table.update_is_ff(&decls);
    assert!(table.is_ff(1, 0));
    // A read from outside the clocked blocks does not.
    let mut other = FfTable::default();
    other.insert_assigned(1, 0, 0);
    other.insert_refered(1, 0, 1, target(1), PackedMask::Unknown, false);
    other.update_is_ff(&decls);
    assert!(!other.is_ff(1, 0));
}

#[test]
fn elements_with_two_kinds_of_assignments_are_reported() {
    let mut table = FfTable::default();
    table.insert_assigned(1, 0, 2);
    table.insert_assigned_comb(1, 1, 3);
    assert!(table.validate().is_empty());
    table.insert_assigned_candidates(1, &vec![0, 4], 5, true);
    let conflicts = table.validate();
    assert_eq!(conflicts.len(), 1);
    assert_eq!(conflicts[0].element, Element { id: 1, index: 0 });
    assert_eq!(conflicts[0].ff_decl, 2);
    assert_eq!(conflicts[0].comb_decl, 5);
}

#[test]
fn forcing_makes_every_assigned_element_a_register() {
    let mut table = FfTable::default();
    table.insert_refered_candidates(1, &vec![0, 1], 0, None, PackedMask::Unknown, true);
    table.insert_assigned(1, 0, 0);
    table.insert_assigned_comb(3, 0, 1);
    assert!(!table.is_ff(1, 0));
    table.force_all_ff();
    assert!(table.is_ff(1, 0));
    assert!(!table.is_ff(1, 1));
    assert!(!table.is_ff(3, 0));
    table.insert_assigned(2, 0, 0);
    assert!(!table.is_ff(2, 0));
}
