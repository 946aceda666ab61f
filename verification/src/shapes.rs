//! Where the operands of concatenations, literals and constructors lie in the value.
use vstd::prelude::*;
use crate::ir::{Expression, Node, Operand};
use crate::layout::PackedProjectionFragment;

verus! {

/// The number of elements of some items.
#[derive(Clone, Copy, Debug, PartialEq, Eq, Structural)]
pub enum ItemsExtent {
    Unknown,
    /// One of the items fills up the rest.
    Rest,
    Total(usize),
}

/// How often an operand is repeated.
pub open spec fn count_of(operand: Operand) -> Option<usize> {
    match operand.repeat {
        Some(repeat) => repeat.facts.value,
        None => Some(1),
    }
}

fn repeat_count(operand: &Operand) -> (r: Option<usize>)
    ensures
        r == count_of(*operand),
{
    match &operand.repeat {
        Some(repeat) => repeat.facts.value,
        None => Some(1),
    }
}

/// `start + length * count`, where that and the product fit.
pub open spec fn behind(start: usize, length: usize, count: usize) -> Option<usize> {
    if length * count <= usize::MAX && start + length * count <= usize::MAX {
        Some((start + length * count) as usize)
    } else {
        None
    }
}

fn step_behind(start: usize, length: usize, count: usize) -> (r: Option<usize>)
    ensures
        r == behind(start, length, count),
{
    match length.checked_mul(count) {
        Some(product) => start.checked_add(product),
        None => None,
    }
}

/// The number of elements with one more item.
pub open spec fn with_item(total: usize, extent: Option<usize>, count: Option<usize>) -> ItemsExtent {
    match (extent, count) {
        (Some(extent), Some(count)) => match behind(total, extent, count) {
            Some(total) => ItemsExtent::Total(total),
            None => ItemsExtent::Unknown,
        },
        _ => ItemsExtent::Unknown,
    }
}

pub open spec fn items_extent(list: Seq<Operand>) -> ItemsExtent
    decreases list,
{
    if list.len() == 0 {
        ItemsExtent::Total(0)
    } else {
        match items_extent(list.drop_last()) {
            ItemsExtent::Total(total) => if list.last().rest {
                ItemsExtent::Rest
            } else {
                with_item(total, operand_extent(list.last()), count_of(list.last()))
            },
            found => found,
        }
    }
}

pub open spec fn operand_extent(operand: Operand) -> Option<usize>
    decreases operand,
{
    extent_of(operand.value)
}

/// The number of array elements of an expression: that of its items where it is a literal, else that
/// of its type, and one where that has none.
pub open spec fn extent_of(expression: Expression) -> Option<usize>
    decreases expression,
{
    match expression.node {
        Node::ArrayLiteral(items) => if items@.len() > 0 {
            match items_extent(items@) {
                ItemsExtent::Total(total) => Some(total),
                ItemsExtent::Rest => expression.facts.array,
                ItemsExtent::Unknown => None,
            }
        } else {
            declared_extent(expression)
        },
        _ => declared_extent(expression),
    }
}

pub open spec fn declared_extent(expression: Expression) -> Option<usize> {
    match expression.facts.array {
        Some(extent) => Some(extent),
        None => Some(1),
    }
}

/// The number of array elements of an expression.
pub fn expression_array_extent(expression: &Expression) -> (r: Option<usize>)
    ensures
        r == extent_of(*expression),
    decreases expression,
{
    match &expression.node {
        Node::ArrayLiteral(items) => {
            if items.len() > 0 {
                return match items_array_extent(items) {
                    ItemsExtent::Total(total) => Some(total),
                    ItemsExtent::Rest => expression.facts.array,
                    ItemsExtent::Unknown => None,
                };
            }
        },
        _ => {},
    }
    match expression.facts.array {
        Some(extent) => Some(extent),
        None => Some(1),
    }
}

fn operand_array_extent(operand: &Operand) -> (r: Option<usize>)
    ensures
        r == operand_extent(*operand),
    decreases operand,
{
    expression_array_extent(&operand.value)
}

fn items_array_extent(list: &Vec<Operand>) -> (r: ItemsExtent)
    ensures
        r == items_extent(list@),
    decreases list,
{
    let mut found = ItemsExtent::Total(0);
    let mut i: usize = 0;
    while i < list.len()
        invariant
            i <= list@.len(),
            found == items_extent(list@.take(i as int)),
        decreases list.len() - i,
    {
        proof {
            assert(list@.take(i + 1).drop_last() =~= list@.take(i as int));
        }
        if let ItemsExtent::Total(total) = found {
            if list[i].rest {
                found = ItemsExtent::Rest;
            } else {
                let extent = operand_array_extent(&list[i]);
                found = match (extent, repeat_count(&list[i])) {
                    (Some(extent), Some(count)) => match step_behind(total, extent, count) {
                        Some(total) => ItemsExtent::Total(total),
                        None => ItemsExtent::Unknown,
                    },
                    _ => ItemsExtent::Unknown,
                };
            }
        }
        i = i + 1;
    }
    assert(list@.take(i as int) =~= list@);
    found
}

/// Parts from the last one on, which lies lowest.
pub struct PackedParts {
    pub fragments: Seq<PackedProjectionFragment>,
    pub end: usize,
}

/// The width of a part: that of its value, or that of a member.
pub open spec fn part_width(part: Operand, members: bool) -> Option<usize> {
    if members {
        part.width
    } else {
        part.value.facts.width
    }
}

pub open spec fn part_count(part: Operand, members: bool) -> Option<usize> {
    if members {
        Some(1)
    } else {
        count_of(part)
    }
}

/// Where the parts from number `i` on lie; nothing where that is not known or does not fit.
pub open spec fn packed_from(parts: Seq<Operand>, members: bool, i: int) -> Option<PackedParts>
    decreases parts.len() - i,
{
    if i < 0 || i >= parts.len() {
        Some(PackedParts { fragments: Seq::empty(), end: 0 })
    } else {
        match packed_from(parts, members, i + 1) {
            None => None,
            Some(lower) => match (part_width(parts[i], members), part_count(parts[i], members)) {
                (Some(width), Some(count)) => match behind(lower.end, width, count) {
                    Some(end) => Some(
                        PackedParts {
                            fragments: lower.fragments.push(
                                PackedProjectionFragment {
                                    part: i as usize,
                                    output_start: lower.end,
                                    item_width: width,
                                    repeat: count,
                                },
                            ),
                            end,
                        },
                    ),
                    None => None,
                },
                _ => None,
            },
        }
    }
}

pub open spec fn packed_layout_of(parts: Seq<Operand>, members: bool) -> Option<Seq<PackedProjectionFragment>> {
    match packed_from(parts, members, 0) {
        Some(found) => Some(found.fragments),
        None => None,
    }
}

pub open spec fn parts_in(fragments: Seq<PackedProjectionFragment>, count: int) -> bool {
    forall|k: int| 0 <= k < fragments.len() ==> (#[trigger] fragments[k]).part < count
}

proof fn lemma_packed_missing(parts: Seq<Operand>, members: bool, i: int)
    requires
        0 <= i <= parts.len(),
        packed_from(parts, members, i) is None,
    ensures
        packed_from(parts, members, 0) is None,
    decreases i,
{
    if i > 0 {
        lemma_packed_missing(parts, members, i - 1);
    }
}

/// Where the parts of a concatenation or the members of a struct lie.
pub fn packed_projection_layout(parts: &Vec<Operand>, members: bool) -> (r: Option<Vec<PackedProjectionFragment>>)
    ensures
        match r {
            Some(list) => packed_layout_of(parts@, members) == Some(list@) && parts_in(list@, parts@.len() as int),
            None => packed_layout_of(parts@, members) is None,
        },
{
    let mut fragments: Vec<PackedProjectionFragment> = Vec::new();
    let mut end: usize = 0;
    let mut i: usize = parts.len();
    while i > 0
        invariant
            i <= parts@.len(),
            packed_from(parts@, members, i as int) == Some(PackedParts { fragments: fragments@, end }),
            parts_in(fragments@, parts@.len() as int),
        decreases i,
    {
        let part = &parts[i - 1];
        let width: Option<usize> = if members { part.width } else { part.value.facts.width };
        let count: Option<usize> = if members { Some(1) } else { repeat_count(part) };
        let (width, count) = match (width, count) {
            (Some(width), Some(count)) => (width, count),
            _ => {
                proof {
                    lemma_packed_missing(parts@, members, i - 1);
                }
                return None;
            },
        };
        let next: usize = match step_behind(end, width, count) {
            Some(next) => next,
            None => {
                proof {
                    lemma_packed_missing(parts@, members, i - 1);
                }
                return None;
            },
        };
        fragments.push(PackedProjectionFragment { part: i - 1, output_start: end, item_width: width, repeat: count });
        end = next;
        i = i - 1;
    }
    Some(fragments)
}

/// One item of an array literal: `repeat` copies of `item_length` elements.
#[derive(Clone, Copy, Debug, PartialEq, Eq, Structural)]
pub struct LiteralFragment {
    pub item: usize,
    pub start: usize,
    pub item_length: usize,
    pub repeat: usize,
    /// The number of elements that the copies fill, where it fits.
    pub length: Option<usize>,
}

/// The items of an array literal.
pub struct LiteralItems {
    pub fragments: Seq<LiteralFragment>,
    pub end: usize,
    pub rest: Option<usize>,
}

/// The number of elements of an item. It has to be known and not 0 for a strict layout.
pub open spec fn item_extent(item: Operand, strict: bool) -> Option<usize> {
    match extent_of(item.value) {
        Some(extent) => if strict && extent == 0 {
            None
        } else {
            Some(extent)
        },
        None => if strict {
            None
        } else {
            Some(1)
        },
    }
}

fn item_array_extent(item: &Operand, strict: bool) -> (r: Option<usize>)
    ensures
        r == item_extent(*item, strict),
{
    match expression_array_extent(&item.value) {
        Some(extent) => if strict && extent == 0 {
            None
        } else {
            Some(extent)
        },
        None => if strict {
            None
        } else {
            Some(1)
        },
    }
}

/// Where the first `count` items lie.
pub open spec fn literal_items(items: Seq<Operand>, strict: bool, count: int) -> Option<LiteralItems>
    decreases count,
{
    if count <= 0 {
        Some(LiteralItems { fragments: Seq::empty(), end: 0, rest: None })
    } else {
        let item = items[count - 1];
        match literal_items(items, strict, count - 1) {
            None => None,
            Some(before) => if item.rest {
                Some(LiteralItems { fragments: before.fragments, end: before.end, rest: Some((count - 1) as usize) })
            } else {
                match (item_extent(item, strict), count_of(item)) {
                    (Some(length), Some(repeat)) => match behind(before.end, length, repeat) {
                        Some(end) => Some(
                            LiteralItems {
                                fragments: before.fragments.push(
                                    LiteralFragment {
                                        item: (count - 1) as usize,
                                        start: before.end,
                                        item_length: length,
                                        repeat,
                                        length: Some((length * repeat) as usize),
                                    },
                                ),
                                end,
                                rest: before.rest,
                            },
                        ),
                        None => None,
                    },
                    _ => None,
                }
            },
        }
    }
}

/// How many copies of `item` are needed for `length` elements.
pub open spec fn copies_for(length: usize, item: usize) -> int {
    if item == 0 {
        0
    } else if length as int % item as int == 0 {
        length as int / item as int
    } else {
        length as int / item as int + 1
    }
}

/// The copies that fill up the rest.
pub open spec fn rest_fragment(items: Seq<Operand>, strict: bool, found: LiteralItems, total: usize) -> Option<LiteralFragment> {
    match item_extent(items[found.rest->0 as int], strict) {
        Some(length) => {
            let remaining = (total - found.end) as usize;
            let repeat = copies_for(remaining, length);
            Some(
                LiteralFragment {
                    item: found.rest->0,
                    start: found.end,
                    item_length: length,
                    repeat: repeat as usize,
                    length: if strict || length * repeat <= usize::MAX {
                        Some(remaining)
                    } else {
                        None
                    },
                },
            )
        },
        None => None,
    }
}

/// Where the items of an array literal of `total` elements lie.
pub open spec fn literal_layout_of(items: Seq<Operand>, strict: bool, total: usize) -> Option<Seq<LiteralFragment>> {
    match literal_items(items, strict, items.len() as int) {
        None => None,
        Some(found) => if found.rest is Some && found.end < total {
            match rest_fragment(items, strict, found, total) {
                Some(rest) => Some(found.fragments.push(rest)),
                None => None,
            }
        } else {
            Some(found.fragments)
        },
    }
}

pub open spec fn items_in(fragments: Seq<LiteralFragment>, count: int) -> bool {
    forall|k: int| 0 <= k < fragments.len() ==> (#[trigger] fragments[k]).item < count
}

proof fn lemma_literal_missing(items: Seq<Operand>, strict: bool, at: int, count: int)
    requires
        0 <= at <= count,
        literal_items(items, strict, at) is None,
    ensures
        literal_items(items, strict, count) is None,
    decreases count - at,
{
    if at < count {
        lemma_literal_missing(items, strict, at, count - 1);
    }
}

/// Where the items of an array literal lie.
pub fn array_projection_layout(items: &Vec<Operand>, strict: bool, total: usize) -> (r: Option<Vec<LiteralFragment>>)
    ensures
        match r {
            Some(list) => literal_layout_of(items@, strict, total) == Some(list@) && items_in(list@, items@.len() as int),
            None => literal_layout_of(items@, strict, total) is None,
        },
{
    let mut fragments: Vec<LiteralFragment> = Vec::new();
    let mut end: usize = 0;
    let mut rest: Option<usize> = None;
    let mut i: usize = 0;
    while i < items.len()
        invariant
            i <= items@.len(),
            literal_items(items@, strict, i as int) == Some(LiteralItems { fragments: fragments@, end, rest }),
            items_in(fragments@, items@.len() as int),
            rest matches Some(k) ==> k < items@.len(),
        decreases items@.len() - i,
    {
        let item = &items[i];
        if item.rest {
            rest = Some(i);
        } else {
            let (length, repeat) = match (item_array_extent(item, strict), repeat_count(item)) {
                (Some(length), Some(repeat)) => (length, repeat),
                _ => {
                    proof {
                        lemma_literal_missing(items@, strict, i + 1, items@.len() as int);
                    }
                    return None;
                },
            };
            let next: usize = match step_behind(end, length, repeat) {
                Some(next) => next,
                None => {
                    proof {
                        lemma_literal_missing(items@, strict, i + 1, items@.len() as int);
                    }
                    return None;
                },
            };
            fragments.push(LiteralFragment { item: i, start: end, item_length: length, repeat, length: Some(length * repeat) });
            end = next;
        }
        i = i + 1;
    }
    if let Some(k) = rest {
        if end < total {
            let length: usize = match item_array_extent(&items[k], strict) {
                Some(length) => length,
                None => {
                    return None;
                },
            };
            let remaining: usize = total - end;
            let mut repeat: usize = 0;
            if length > 0 {
                repeat = remaining / length;
                if remaining % length != 0 {
                    proof {
                        assert(length > 1) by {
                            if length == 1 {
                                assert(remaining as int % 1 == 0);
                            }
                        }
                        assert(remaining as int / length as int <= remaining as int / 2) by (nonlinear_arith)
                            requires
                                length >= 2,
                                remaining >= 0,
                        ;
                    }
                    repeat = repeat + 1;
                }
            }
            let filled: Option<usize> = if strict || length.checked_mul(repeat).is_some() { Some(remaining) } else { None };
            fragments.push(LiteralFragment { item: k, start: end, item_length: length, repeat, length: filled });
        }
    }
    Some(fragments)
}

} // verus!
