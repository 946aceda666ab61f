//! What the actuals of an instance read.
use vstd::prelude::*;
use crate::arena::PathCondition;
use crate::instance::{MappedNode, RegionSource};
use crate::ir::{Access, Expression, Node, Operand, SystemKind};
use crate::occurrences;
use crate::order;
use crate::order::sort_dedup;
use crate::partition::{BitPartition, NodeKey};
use crate::relation::PositionRelation;
use crate::requests::whole_sources;
use crate::span::PackedSpan;

verus! {

/// The nodes that the regions of an access meet.
pub open spec fn access_nodes(partition: BitPartition, access: Access) -> Set<NodeKey> {
    Set::new(|key: NodeKey| meets_region(partition, access, key))
}

pub open spec fn meets_region(partition: BitPartition, access: Access, key: NodeKey) -> bool {
    exists|i: int|
        0 <= i < access.regions@.len() && (#[trigger] access.regions@[i]).packed.wf() && partition.selects(
            access.id,
            access.regions@[i].array,
            access.regions@[i].packed,
            key,
        )
}

/// The nodes that an expression without decisions and calls reads.
pub open spec fn unguarded_reads(partition: BitPartition, expression: Expression) -> Set<NodeKey>
    decreases expression,
{
    match expression.node {
        Node::Variable(access) => list_reads(partition, access.index@).union(list_reads(partition, access.select@)).union(access_nodes(partition, access)),
        Node::System(call) => match call.kind {
            SystemKind::Onehot => list_reads(partition, call.inputs@),
            SystemKind::Cast => list_reads(partition, call.inputs@),
            SystemKind::Load => list_reads(partition, call.inputs@),
            SystemKind::Query => Set::empty(),
            SystemKind::Effect => Set::empty(),
        },
        Node::Unary(_, operand) => unguarded_reads(partition, *operand),
        Node::Binary(left, _, right) => unguarded_reads(partition, *left).union(unguarded_reads(partition, *right)),
        Node::Concatenation(operands) => operands_reads(partition, operands@),
        Node::ArrayLiteral(operands) => operands_reads(partition, operands@),
        Node::Struct(operands) => operands_reads(partition, operands@),
        _ => Set::empty(),
    }
}

pub open spec fn list_reads(partition: BitPartition, list: Seq<Expression>) -> Set<NodeKey>
    decreases list,
{
    if list.len() == 0 {
        Set::empty()
    } else {
        list_reads(partition, list.drop_last()).union(unguarded_reads(partition, list.last()))
    }
}

pub open spec fn operand_reads(partition: BitPartition, operand: Operand) -> Set<NodeKey>
    decreases operand,
{
    match operand.repeat {
        Some(repeat) => unguarded_reads(partition, operand.value).union(unguarded_reads(partition, repeat)),
        None => unguarded_reads(partition, operand.value),
    }
}

pub open spec fn operands_reads(partition: BitPartition, list: Seq<Operand>) -> Set<NodeKey>
    decreases list,
{
    if list.len() == 0 {
        Set::empty()
    } else {
        operands_reads(partition, list.drop_last()).union(operand_reads(partition, list.last()))
    }
}

/// The nodes of a list.
pub open spec fn listed(keys: Seq<NodeKey>) -> Set<NodeKey> {
    Set::new(|key: NodeKey| keys.contains(key))
}

proof fn lemma_listed_joined(a: Seq<NodeKey>, b: Seq<NodeKey>)
    ensures
        listed(a + b) == listed(a).union(listed(b)),
{
    assert forall|key: NodeKey| #[trigger] listed(a + b).contains(key) <==> listed(a).union(listed(b)).contains(key) by {
        if a.contains(key) {
            let k = choose|k: int| 0 <= k < a.len() && a[k] == key;
            assert((a + b)[k] == key);
        }
        if b.contains(key) {
            let k = choose|k: int| 0 <= k < b.len() && b[k] == key;
            assert((a + b)[a.len() + k] == key);
        }
        if (a + b).contains(key) {
            let k = choose|k: int| 0 <= k < (a + b).len() && (a + b)[k] == key;
            if k < a.len() {
                assert(a[k] == key);
            } else {
                assert(b[k - a.len()] == key);
            }
        }
    }
    assert(listed(a + b) =~= listed(a).union(listed(b)));
}

fn append(list: &mut Vec<NodeKey>, more: &Vec<NodeKey>)
    ensures
        listed(final(list)@) == listed(old(list)@).union(listed(more@)),
{
    let ghost before = list@;
    let mut i: usize = 0;
    while i < more.len()
        invariant
            i <= more@.len(),
            list@ == before + more@.take(i as int),
        decreases more@.len() - i,
    {
        list.push(more[i]);
        i = i + 1;
        assert(list@ =~= before + more@.take(i as int));
    }
    proof {
        assert(more@.take(i as int) =~= more@);
        lemma_listed_joined(before, more@);
    }
}

/// Adds the nodes that an access reads.
fn collect_access_nodes(partition: &BitPartition, access: &Access, reads: &mut Vec<NodeKey>)
    requires
        partition.wf(),
    ensures
        listed(final(reads)@) == listed(old(reads)@).union(access_nodes(*partition, *access)),
{
    let ghost start = listed(reads@);
    let mut i: usize = 0;
    while i < access.regions.len()
        invariant
            i <= access.regions@.len(),
            partition.wf(),
            forall|key: NodeKey| #[trigger] listed(reads@).contains(key) <==> start.contains(key) || met_before(*partition, *access, i as int, key),
        decreases access.regions@.len() - i,
    {
        let region = access.regions[i];
        let ghost before = listed(reads@);
        let mut more: Vec<NodeKey> = Vec::new();
        if let Some(packed) = PackedSpan::new(region.packed.start, region.packed.length) {
            more = partition.overlapping_access(access.id, region.array, packed);
            assert(packed == region.packed);
        }
        append(reads, &more);
        proof {
            assert forall|key: NodeKey| #[trigger] listed(reads@).contains(key) <==> start.contains(key) || met_before(*partition, *access, i + 1, key) by {
                assert(before.contains(key) <==> start.contains(key) || met_before(*partition, *access, i as int, key));
                assert(listed(more@).contains(key) <==> more@.contains(key));
                assert(more@.contains(key) <==> region.packed.wf() && partition.selects(access.id, region.array, region.packed, key));
                assert(access.regions@[i as int] == region);
                if met_before(*partition, *access, i + 1, key) {
                    let k = choose|k: int|
                        0 <= k < i + 1 && (#[trigger] access.regions@[k]).packed.wf() && partition.selects(
                            access.id,
                            access.regions@[k].array,
                            access.regions@[k].packed,
                            key,
                        );
                    if k < i {
                        assert(met_before(*partition, *access, i as int, key));
                    }
                }
                if met_before(*partition, *access, i as int, key) {
                    let k = choose|k: int|
                        0 <= k < i && (#[trigger] access.regions@[k]).packed.wf() && partition.selects(
                            access.id,
                            access.regions@[k].array,
                            access.regions@[k].packed,
                            key,
                        );
                    assert(met_before(*partition, *access, i + 1, key));
                }
            }
        }
        i = i + 1;
    }
    assert(listed(reads@) =~= start.union(access_nodes(*partition, *access)));
}

spec fn met_before(partition: BitPartition, access: Access, count: int, key: NodeKey) -> bool {
    exists|k: int|
        0 <= k < count && (#[trigger] access.regions@[k]).packed.wf() && partition.selects(access.id, access.regions@[k].array, access.regions@[k].packed, key)
}

/// Adds the nodes that an expression without decisions and calls reads.
fn eval_unguarded(partition: &BitPartition, expression: &Expression, reads: &mut Vec<NodeKey>)
    requires
        partition.wf(),
    ensures
        listed(final(reads)@) == listed(old(reads)@).union(unguarded_reads(*partition, *expression)),
    decreases expression,
{
    let ghost start = listed(reads@);
    assert(start.union(Set::empty()) =~= start);
    match &expression.node {
        Node::Variable(access) => {
            eval_list(partition, &access.index, reads);
            eval_list(partition, &access.select, reads);
            collect_access_nodes(partition, access, reads);
            assert(listed(reads@) =~= start.union(unguarded_reads(*partition, *expression)));
        },
        Node::System(call) => {
            match call.kind {
                SystemKind::Onehot => {
                    eval_list(partition, &call.inputs, reads);
                },
                SystemKind::Cast => {
                    eval_list(partition, &call.inputs, reads);
                },
                SystemKind::Load => {
                    eval_list(partition, &call.inputs, reads);
                },
                SystemKind::Query => {},
                SystemKind::Effect => {},
            }
        },
        Node::Unary(_, operand) => {
            eval_unguarded(partition, operand, reads);
        },
        Node::Binary(left, _, right) => {
            eval_unguarded(partition, left, reads);
            eval_unguarded(partition, right, reads);
            assert(listed(reads@) =~= start.union(unguarded_reads(*partition, *expression)));
        },
        Node::Concatenation(operands) => {
            eval_operands(partition, operands, reads);
        },
        Node::ArrayLiteral(operands) => {
            eval_operands(partition, operands, reads);
        },
        Node::Struct(operands) => {
            eval_operands(partition, operands, reads);
        },
        _ => {},
    }
}

fn eval_list(partition: &BitPartition, list: &Vec<Expression>, reads: &mut Vec<NodeKey>)
    requires
        partition.wf(),
    ensures
        listed(final(reads)@) == listed(old(reads)@).union(list_reads(*partition, list@)),
    decreases list,
{
    let ghost start = listed(reads@);
    assert(start.union(Set::empty()) =~= start);
    let mut i: usize = 0;
    while i < list.len()
        invariant
            i <= list@.len(),
            partition.wf(),
            listed(reads@) == start.union(list_reads(*partition, list@.take(i as int))),
        decreases list.len() - i,
    {
        eval_unguarded(partition, &list[i], reads);
        proof {
            assert(list@.take(i + 1).drop_last() =~= list@.take(i as int));
            assert(listed(reads@) =~= start.union(list_reads(*partition, list@.take(i + 1))));
        }
        i = i + 1;
    }
    assert(list@.take(i as int) =~= list@);
}

fn eval_operand(partition: &BitPartition, operand: &Operand, reads: &mut Vec<NodeKey>)
    requires
        partition.wf(),
    ensures
        listed(final(reads)@) == listed(old(reads)@).union(operand_reads(*partition, *operand)),
    decreases operand,
{
    let ghost start = listed(reads@);
    eval_unguarded(partition, &operand.value, reads);
    if let Some(repeat) = &operand.repeat {
        eval_unguarded(partition, repeat, reads);
    }
    assert(listed(reads@) =~= start.union(operand_reads(*partition, *operand)));
}

fn eval_operands(partition: &BitPartition, list: &Vec<Operand>, reads: &mut Vec<NodeKey>)
    requires
        partition.wf(),
    ensures
        listed(final(reads)@) == listed(old(reads)@).union(operands_reads(*partition, list@)),
    decreases list,
{
    let ghost start = listed(reads@);
    assert(start.union(Set::empty()) =~= start);
    let mut i: usize = 0;
    while i < list.len()
        invariant
            i <= list@.len(),
            partition.wf(),
            listed(reads@) == start.union(operands_reads(*partition, list@.take(i as int))),
        decreases list.len() - i,
    {
        eval_operand(partition, &list[i], reads);
        proof {
            assert(list@.take(i + 1).drop_last() =~= list@.take(i as int));
            assert(listed(reads@) =~= start.union(operands_reads(*partition, list@.take(i + 1))));
        }
        i = i + 1;
    }
    assert(list@.take(i as int) =~= list@);
}

/// What an actual without decisions and calls reads, each node once and as a whole. There is no answer
/// for an actual that has to be analysed path by path.
pub fn analyze_instance_actual(partition: &BitPartition, expression: &Expression) -> (r: Option<Vec<RegionSource>>)
    requires
        partition.wf(),
    ensures
        r is None <==> occurrences::is_guarded(*expression),
        r matches Some(list) ==> exists|keys: Seq<NodeKey>| #[trigger]
            order::strictly_sorted(keys) && listed(keys) == unguarded_reads(*partition, *expression) && list@.len() == keys.len() && forall|i: int|
            0 <= i < keys.len() ==> (#[trigger] list@[i]) == (RegionSource { key: keys[i], offset: None, condition: PathCondition { node: 0 } }),
{
    if occurrences::requires_guarded_expression_analysis(expression) {
        return None;
    }
    let mut reads: Vec<NodeKey> = Vec::new();
    eval_unguarded(partition, expression, &mut reads);
    let keys = sort_dedup(&reads);
    proof {
        let none: Seq<NodeKey> = Seq::empty();
        assert(listed(none).union(unguarded_reads(*partition, *expression)) =~= unguarded_reads(*partition, *expression));
        assert(listed(keys@) =~= listed(reads@)) by {
            assert forall|key: NodeKey| #[trigger] listed(keys@).contains(key) <==> listed(reads@).contains(key) by {
                assert(keys@.contains(key) <==> reads@.contains(key));
            }
        }
    }
    let r = whole_sources(&keys);
    assert(order::strictly_sorted(keys@) && listed(keys@) == unguarded_reads(*partition, *expression));
    Some(r)
}

/// The node of the parent for a source of a region of an actual.
pub open spec fn mapped_source(source: RegionSource) -> MappedNode {
    MappedNode {
        key: source.key,
        offset: match source.offset {
            Some(offset) => PositionRelation { array: Some(offset.array), packed: Some(offset.packed) },
            None => PositionRelation { array: None, packed: None },
        },
        child_domain: None,
        condition: source.condition,
    }
}

/// The nodes of the parent for the sources of a region of an actual.
pub fn map_actual_sources(sources: &Vec<RegionSource>) -> (r: Vec<MappedNode>)
    ensures
        r@ == sources@.map_values(|source: RegionSource| mapped_source(source)),
{
    let mut r: Vec<MappedNode> = Vec::new();
    let mut i: usize = 0;
    while i < sources.len()
        invariant
            i <= sources@.len(),
            r@.len() == i,
            forall|k: int| 0 <= k < i ==> #[trigger] r@[k] == mapped_source(sources@[k]),
        decreases sources@.len() - i,
    {
        let source = sources[i];
        let offset = match source.offset {
            Some(offset) => PositionRelation { array: Some(offset.array), packed: Some(offset.packed) },
            None => PositionRelation { array: None, packed: None },
        };
        r.push(MappedNode { key: source.key, offset, child_domain: None, condition: source.condition });
        i = i + 1;
    }
    assert(r@ =~= sources@.map_values(|source: RegionSource| mapped_source(source)));
    r
}

/// The nodes that an access touches, each once and in order.
pub fn access_node_list(partition: &BitPartition, access: &Access) -> (r: Vec<NodeKey>)
    requires
        partition.wf(),
    ensures
        order::strictly_sorted(r@),
        listed(r@) == access_nodes(*partition, *access),
{
    let mut list: Vec<NodeKey> = Vec::new();
    collect_access_nodes(partition, access, &mut list);
    let r = sort_dedup(&list);
    proof {
        let none: Seq<NodeKey> = Seq::empty();
        assert(listed(none).union(access_nodes(*partition, *access)) =~= access_nodes(*partition, *access));
        assert(listed(r@) =~= listed(list@)) by {
            assert forall|key: NodeKey| #[trigger] listed(r@).contains(key) <==> listed(list@).contains(key) by {
                assert(r@.contains(key) <==> list@.contains(key));
            }
        }
    }
    r
}

} // verus!
