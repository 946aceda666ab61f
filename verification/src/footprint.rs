//! What statements may write.
use vstd::prelude::*;
use crate::collect;
use crate::collect::{collect_call, collect_called_function_body_spans, collect_statement_spans, Collected, Found};
use crate::ir::{Call, CaseArm, Statement};
use crate::masks;
use crate::masks::{add_marked, AssignedMasks};
use crate::order;
use crate::order::sort_dedup;
use crate::partition::{BitPartition, NodeKey, RegionAccess};
use crate::span::PackedSpan;

verus! {

/// The regions that are written, with those that the functions called write.
pub open spec fn all_written(bodies: Seq<Vec<Statement>>, found: Found) -> Set<RegionAccess> {
    found.accesses.union(collect::called_accesses(false, bodies, found.callees))
}

/// The regions of a list.
pub open spec fn listed(accesses: Seq<RegionAccess>) -> Set<RegionAccess> {
    Set::new(|a: RegionAccess| accesses.contains(a))
}

/// Some of the regions meets the node.
pub open spec fn touches(partition: BitPartition, accesses: Set<RegionAccess>, key: NodeKey) -> bool {
    exists|a: RegionAccess| #[trigger] accesses.contains(a) && a.packed.wf() && partition.selects(a.id, a.array, a.packed, key)
}

fn append_keys(list: &mut Vec<NodeKey>, more: &Vec<NodeKey>)
    ensures
        final(list)@ == old(list)@ + more@,
{
    let ghost before = list@;
    let mut i: usize = 0;
    while i < more.len()
        invariant
            i <= more@.len(),
            list@ == before + more@.take(i as int),
        decreases more@.len() - i,
    {
        list.push(more[i]);
        i = i + 1;
        assert(list@ =~= before + more@.take(i as int));
    }
    assert(more@.take(i as int) =~= more@);
}

/// Adds the nodes that the regions meet.
fn add_touched(partition: &BitPartition, accesses: &Vec<RegionAccess>, list: &mut Vec<NodeKey>)
    requires
        partition.wf(),
    ensures
        forall|key: NodeKey| #[trigger]
            final(list)@.contains(key) <==> old(list)@.contains(key) || touches(*partition, listed(accesses@), key),
{
    let ghost start = list@;
    let mut i: usize = 0;
    while i < accesses.len()
        invariant
            i <= accesses@.len(),
            partition.wf(),
            forall|key: NodeKey| #[trigger] list@.contains(key) <==> start.contains(key) || touched_before(*partition, accesses@, i as int, key),
        decreases accesses@.len() - i,
    {
        let access = accesses[i];
        let ghost before = list@;
        let mut more: Vec<NodeKey> = Vec::new();
        if let Some(packed) = PackedSpan::new(access.packed.start, access.packed.length) {
            more = partition.overlapping_access(access.id, access.array, packed);
            assert(packed == access.packed);
        }
        append_keys(list, &more);
        proof {
            assert forall|key: NodeKey| #[trigger] list@.contains(key) <==> start.contains(key) || touched_before(*partition, accesses@, i + 1, key) by {
                assert(before.contains(key) <==> start.contains(key) || touched_before(*partition, accesses@, i as int, key));
                lemma_contains_both(before, more@, key);
                assert(more@.contains(key) <==> access.packed.wf() && partition.selects(access.id, access.array, access.packed, key));
                if touched_before(*partition, accesses@, i + 1, key) {
                    let k = choose|k: int|
                        0 <= k < i + 1 && (#[trigger] accesses@[k]).packed.wf() && partition.selects(accesses@[k].id, accesses@[k].array, accesses@[k].packed, key);
                    if k < i {
                        assert(touched_before(*partition, accesses@, i as int, key));
                    }
                }
                if more@.contains(key) {
                    assert(accesses@[i as int] == access);
                    assert(touched_before(*partition, accesses@, i + 1, key));
                }
                if touched_before(*partition, accesses@, i as int, key) {
                    let k = choose|k: int|
                        0 <= k < i && (#[trigger] accesses@[k]).packed.wf() && partition.selects(accesses@[k].id, accesses@[k].array, accesses@[k].packed, key);
                    assert(touched_before(*partition, accesses@, i + 1, key));
                }
            }
        }
        i = i + 1;
    }
    proof {
        let set = listed(accesses@);
        assert forall|key: NodeKey| touched_before(*partition, accesses@, i as int, key) <==> #[trigger] touches(*partition, set, key) by {
            if touched_before(*partition, accesses@, i as int, key) {
                let k = choose|k: int|
                    0 <= k < i && (#[trigger] accesses@[k]).packed.wf() && partition.selects(accesses@[k].id, accesses@[k].array, accesses@[k].packed, key);
                assert(set.contains(accesses@[k]));
            }
            if touches(*partition, set, key) {
                let a = choose|a: RegionAccess| #[trigger] set.contains(a) && a.packed.wf() && partition.selects(a.id, a.array, a.packed, key);
                let k = choose|k: int| 0 <= k < accesses@.len() && accesses@[k] == a;
                assert(accesses@[k].packed.wf());
            }
        }
        assert forall|key: NodeKey| #[trigger] list@.contains(key) <==> start.contains(key) || touches(*partition, set, key) by {
            assert(touches(*partition, set, key) <==> touched_before(*partition, accesses@, i as int, key));
        }
    }
}

spec fn touched_before(partition: BitPartition, accesses: Seq<RegionAccess>, count: int, key: NodeKey) -> bool {
    exists|k: int|
        0 <= k < count && (#[trigger] accesses[k]).packed.wf() && partition.selects(accesses[k].id, accesses[k].array, accesses[k].packed, key)
}

proof fn lemma_contains_both(a: Seq<NodeKey>, b: Seq<NodeKey>, key: NodeKey)
    ensures
        (a + b).contains(key) <==> a.contains(key) || b.contains(key),
{
    if a.contains(key) {
        let k = choose|k: int| 0 <= k < a.len() && a[k] == key;
        assert((a + b)[k] == key);
    }
    if b.contains(key) {
        let k = choose|k: int| 0 <= k < b.len() && b[k] == key;
        assert((a + b)[a.len() + k] == key);
    }
    if (a + b).contains(key) {
        let k = choose|k: int| 0 <= k < (a + b).len() && (a + b)[k] == key;
        if k < a.len() {
            assert(a[k] == key);
        } else {
            assert(b[k - a.len()] == key);
        }
    }
}

proof fn lemma_touches_union(partition: BitPartition, a: Set<RegionAccess>, b: Set<RegionAccess>, key: NodeKey)
    ensures
        touches(partition, a.union(b), key) <==> touches(partition, a, key) || touches(partition, b, key),
{
    if touches(partition, a, key) {
        let x = choose|x: RegionAccess| #[trigger] a.contains(x) && x.packed.wf() && partition.selects(x.id, x.array, x.packed, key);
        assert(a.union(b).contains(x));
    }
    if touches(partition, b, key) {
        let x = choose|x: RegionAccess| #[trigger] b.contains(x) && x.packed.wf() && partition.selects(x.id, x.array, x.packed, key);
        assert(a.union(b).contains(x));
    }
    if touches(partition, a.union(b), key) {
        let x = choose|x: RegionAccess| #[trigger] a.union(b).contains(x) && x.packed.wf() && partition.selects(x.id, x.array, x.packed, key);
        assert(a.contains(x) || b.contains(x));
    }
}

/// The nodes that what was collected may write.
fn footprint_of(partition: &BitPartition, bodies: &Vec<Vec<Statement>>, collected: Collected) -> (r: Vec<NodeKey>)
    requires
        partition.wf(),
    ensures
        order::strictly_sorted(r@),
        forall|key: NodeKey| #[trigger] r@.contains(key) <==> touches(*partition, all_written(bodies@, collected.found()), key),
{
    let mut list: Vec<NodeKey> = Vec::new();
    add_touched(partition, &collected.accesses, &mut list);
    let ghost own = list@;
    let ghost found = collected.found();
    let ghost roots = collected.callees@;
    let called = collect_called_function_body_spans(false, bodies, collected.callees);
    add_touched(partition, &called, &mut list);
    let r = sort_dedup(&list);
    proof {
        let first = listed(collected.accesses@);
        let second = listed(called@);
        assert(first =~= found.accesses);
        assert(Set::new(|c: u64| roots.contains(c)) =~= found.callees);
        assert(second =~= collect::called_accesses(false, bodies@, found.callees)) by {
            assert forall|a: RegionAccess| #[trigger] second.contains(a) <==> collect::called_accesses(false, bodies@, found.callees).contains(a) by {
                assert(called@.contains(a) <==> second.contains(a));
            }
        }
        assert forall|key: NodeKey| #[trigger] r@.contains(key) <==> touches(*partition, all_written(bodies@, found), key) by {
            assert(r@.contains(key) <==> list@.contains(key));
            assert(list@.contains(key) <==> own.contains(key) || touches(*partition, second, key));
            assert(own.contains(key) <==> touches(*partition, first, key));
            lemma_touches_union(*partition, found.accesses, second, key);
        }
    }
    r
}

/// The nodes that statements, and the functions that they call, may write.
pub fn statement_write_footprint(partition: &BitPartition, bodies: &Vec<Vec<Statement>>, statements: &Vec<Statement>) -> (r: Vec<NodeKey>)
    requires
        partition.wf(),
    ensures
        order::strictly_sorted(r@),
        forall|key: NodeKey| #[trigger]
            r@.contains(key) <==> touches(*partition, all_written(bodies@, collect::statements_found(false, statements@)), key),
{
    let mut collected = Collected::new();
    let ghost start = collected;
    collect_statement_spans(false, statements, &mut collected);
    assert(collect::plus(start.found(), collect::statements_found(false, statements@)) =~= collect::statements_found(false, statements@));
    footprint_of(partition, bodies, collected)
}

/// Some of the masks marks the node.
pub open spec fn owns(partition: BitPartition, owned: Seq<AssignedMasks>, key: NodeKey) -> bool {
    exists|i: int| 0 <= i < owned.len() && masks::marked(partition, #[trigger] owned[i], key)
}

/// The nodes that a procedure may write: those of its statements, and those that the declaration
/// assigns by the masks that are kept of it.
pub fn process_write_footprint(
    partition: &BitPartition,
    bodies: &Vec<Vec<Statement>>,
    statements: &Vec<Statement>,
    owned: &Vec<AssignedMasks>,
) -> (r: Vec<NodeKey>)
    requires
        partition.wf(),
    ensures
        order::strictly_sorted(r@),
        forall|key: NodeKey| #[trigger]
            r@.contains(key) <==> touches(*partition, all_written(bodies@, collect::statements_found(false, statements@)), key) || owns(
                *partition,
                owned@,
                key,
            ),
{
    let mut list = statement_write_footprint(partition, bodies, statements);
    let ghost start = list@;
    let mut i: usize = 0;
    while i < owned.len()
        invariant
            partition.wf(),
            i <= owned@.len(),
            forall|key: NodeKey| #[trigger] list@.contains(key) <==> start.contains(key) || owns(*partition, owned@.take(i as int), key),
        decreases owned@.len() - i,
    {
        let ghost before = list@;
        add_marked(partition, &owned[i], &mut list);
        proof {
            assert forall|key: NodeKey| #[trigger] list@.contains(key) <==> start.contains(key) || owns(*partition, owned@.take(i + 1), key) by {
                assert(before.contains(key) <==> start.contains(key) || owns(*partition, owned@.take(i as int), key));
                lemma_owns_next(*partition, owned@, i as int, key);
            }
        }
        i = i + 1;
    }
    assert(owned@.take(i as int) =~= owned@);
    let r = sort_dedup(&list);
    proof {
        assert forall|key: NodeKey| #[trigger]
            r@.contains(key) <==> touches(*partition, all_written(bodies@, collect::statements_found(false, statements@)), key) || owns(*partition, owned@, key) by {
            assert(r@.contains(key) <==> list@.contains(key));
            assert(start.contains(key) <==> touches(*partition, all_written(bodies@, collect::statements_found(false, statements@)), key));
        }
    }
    r
}

proof fn lemma_owns_next(partition: BitPartition, owned: Seq<AssignedMasks>, i: int, key: NodeKey)
    requires
        0 <= i < owned.len(),
    ensures
        owns(partition, owned.take(i + 1), key) <==> owns(partition, owned.take(i), key) || masks::marked(partition, owned[i], key),
{
    let more = owned.take(i + 1);
    let less = owned.take(i);
    if owns(partition, more, key) {
        let k = choose|k: int| 0 <= k < more.len() && masks::marked(partition, #[trigger] more[k], key);
        if k < i {
            assert(less[k] == more[k]);
        }
    }
    if owns(partition, less, key) {
        let k = choose|k: int| 0 <= k < less.len() && masks::marked(partition, #[trigger] less[k], key);
        assert(more[k] == less[k]);
    }
    assert(more[i] == owned[i]);
}

/// The nodes that a call may write: by its arguments, by its outputs, and in the function called.
pub fn function_call_write_footprint(partition: &BitPartition, bodies: &Vec<Vec<Statement>>, call: &Call) -> (r: Vec<NodeKey>)
    requires
        partition.wf(),
    ensures
        order::strictly_sorted(r@),
        forall|key: NodeKey| #[trigger] r@.contains(key) <==> touches(*partition, all_written(bodies@, collect::call_found(false, *call)), key),
{
    let mut collected = Collected::new();
    let ghost start = collected;
    collect_call(false, call, &mut collected);
    assert(collect::plus(start.found(), collect::call_found(false, *call)) =~= collect::call_found(false, *call));
    footprint_of(partition, bodies, collected)
}

/// Some statement, at any depth, is one of which nothing is known.
pub open spec fn has_unsupported(list: Seq<Statement>) -> bool
    decreases list,
{
    list.len() > 0 && (has_unsupported(list.drop_last()) || is_unsupported(list.last()))
}

pub open spec fn is_unsupported(statement: Statement) -> bool
    decreases statement,
{
    match statement {
        Statement::If { condition, yes, no } => has_unsupported(yes@) || has_unsupported(no@),
        Statement::IfReset { yes, no } => has_unsupported(yes@) || has_unsupported(no@),
        Statement::Case { target, arms, otherwise, .. } => arms_unsupported(arms@) || has_unsupported(otherwise@),
        Statement::For { bounds, body, .. } => has_unsupported(body@),
        Statement::Unsupported => true,
        _ => false,
    }
}

pub open spec fn arms_unsupported(list: Seq<CaseArm>) -> bool
    decreases list,
{
    list.len() > 0 && (arms_unsupported(list.drop_last()) || has_unsupported(list.last().body@))
}

/// Whether some statement, at any depth, is one of which nothing is known.
pub fn statements_have_unsupported(list: &Vec<Statement>) -> (r: bool)
    ensures
        r == has_unsupported(list@),
    decreases list,
{
    let mut i: usize = 0;
    while i < list.len()
        invariant
            i <= list@.len(),
            !has_unsupported(list@.take(i as int)),
        decreases list@.len() - i,
    {
        assert(list@.take(i + 1).drop_last() =~= list@.take(i as int));
        let found = statement_unsupported(&list[i]);
        if found {
            assert(has_unsupported(list@.take(i + 1)));
            proof {
                lemma_prefix_unsupported(list@, i + 1);
            }
            return true;
        }
        i = i + 1;
    }
    assert(list@.take(i as int) =~= list@);
    false
}

proof fn lemma_prefix_unsupported(list: Seq<Statement>, count: int)
    requires
        0 <= count <= list.len(),
        has_unsupported(list.take(count)),
    ensures
        has_unsupported(list),
    decreases list.len() - count,
{
    if count < list.len() {
        assert(list.take(count + 1).drop_last() =~= list.take(count));
        lemma_prefix_unsupported(list, count + 1);
    } else {
        assert(list.take(count) =~= list);
    }
}

fn statement_unsupported(statement: &Statement) -> (r: bool)
    ensures
        r == is_unsupported(*statement),
    decreases statement,
{
    match statement {
        Statement::If { condition: _, yes, no } => statements_have_unsupported(yes) || statements_have_unsupported(no),
        Statement::IfReset { yes, no } => statements_have_unsupported(yes) || statements_have_unsupported(no),
        Statement::Case { arms, otherwise, .. } => arms_have_unsupported(arms) || statements_have_unsupported(otherwise),
        Statement::For { body, .. } => statements_have_unsupported(body),
        Statement::Unsupported => true,
        _ => false,
    }
}

fn arms_have_unsupported(list: &Vec<CaseArm>) -> (r: bool)
    ensures
        r == arms_unsupported(list@),
    decreases list,
{
    let mut found = false;
    let mut i: usize = 0;
    while i < list.len()
        invariant
            i <= list@.len(),
            found == arms_unsupported(list@.take(i as int)),
        decreases list@.len() - i,
    {
        assert(list@.take(i + 1).drop_last() =~= list@.take(i as int));
        if statements_have_unsupported(&list[i].body) {
            found = true;
        }
        i = i + 1;
    }
    assert(list@.take(i as int) =~= list@);
    found
}

} // verus!
