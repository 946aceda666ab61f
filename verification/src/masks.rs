//! Masks of packed bits, and the nodes that they mark.
use vstd::prelude::*;
use crate::instance;
use crate::instance::key_span;
use crate::partition;
use crate::partition::{BitPartition, NodeKey};
use crate::span::{ArraySpan, PackedSpan};
use crate::targets;

verus! {

/// The bit of a word.
pub open spec fn word_bit(word: u64, bit: u64) -> bool {
    (word >> bit) & 1 == 1
}

/// The bit of a mask that is given by words, the lowest first.
pub open spec fn mask_bit(mask: Seq<u64>, bit: int) -> bool {
    0 <= bit && bit / 64 < mask.len() && word_bit(mask[bit / 64], (bit % 64) as u64)
}

proof fn lemma_from(word: u64, low: u64, bit: u64)
    requires
        low < 64,
        bit < 64,
    ensures
        word_bit(word & (u64::MAX << low), bit) == (word_bit(word, bit) && low <= bit),
{
    assert((((word & (0xffff_ffff_ffff_ffffu64 << low)) >> bit) & 1 == 1) == ((word >> bit) & 1 == 1 && low <= bit)) by (bit_vector)
        requires
            low < 64,
            bit < 64,
    ;
}

proof fn lemma_below(word: u64, end: u64, bit: u64)
    requires
        end < 64,
        bit < 64,
    ensures
        1u64 << end >= 1,
        word_bit(word & ((1u64 << end) - 1) as u64, bit) == (word_bit(word, bit) && bit < end),
{
    assert(1u64 << end >= 1) by (bit_vector)
        requires
            end < 64,
    ;
    assert((((word & ((1u64 << end) - 1) as u64) >> bit) & 1 == 1) == ((word >> bit) & 1 == 1 && bit < end)) by (bit_vector)
        requires
            end < 64,
            bit < 64,
    ;
}

/// A word with a bit is not 0.
proof fn lemma_set_bit(word: u64, bit: u64)
    requires
        bit < 64,
        word_bit(word, bit),
    ensures
        word != 0,
{
    assert((0u64 >> bit) & 1 == 0) by (bit_vector);
}

/// A word that is not 0 has a bit.
proof fn lemma_some_bit(word: u64) -> (bit: u64)
    requires
        word != 0,
    ensures
        bit < 64,
        word_bit(word, bit),
    decreases word,
{
    if word & 1 == 1 {
        assert((word >> 0) & 1 == word & 1) by (bit_vector);
        0
    } else {
        assert(word & 1 != 1 && word != 0 ==> word >> 1 != 0 && word >> 1 < word) by (bit_vector);
        let bit = lemma_some_bit(word >> 1);
        assert(bit < 64 && ((word >> 1) >> bit) & 1 == 1 ==> bit < 63 && (word >> ((bit + 1) as u64)) & 1 == 1) by (bit_vector);
        (bit + 1) as u64
    }
}

/// The mask has a bit in the span.
pub open spec fn meets(mask: Seq<u64>, span: PackedSpan) -> bool {
    exists|bit: int| span.start <= bit < span.start + span.length && #[trigger] mask_bit(mask, bit)
}

/// Whether the mask has a bit in the span.
pub fn packed_mask_overlaps(mask: &Vec<u64>, span: PackedSpan) -> (r: bool)
    requires
        span.wf(),
    ensures
        r == meets(mask@, span),
{
    let end: usize = span.end();
    let first: usize = span.start / 64;
    let last: usize = (end - 1) / 64;
    let mut at: usize = first;
    while at <= last && at < mask.len()
        invariant
            span.wf(),
            end == span.start + span.length,
            first == span.start / 64,
            last == (end - 1) / 64,
            first <= at <= last + 1,
            forall|bit: int| span.start <= bit < end && bit < 64 * at ==> !#[trigger] mask_bit(mask@, bit),
        decreases last + 1 - at,
    {
        let mut word: u64 = mask[at];
        if at == first {
            word = word & (u64::MAX << ((span.start % 64) as u64));
        }
        let end_bit: usize = end % 64;
        if at == last && end_bit != 0 {
            proof {
                lemma_below(word, end_bit as u64, 0);
            }
            word = word & ((1u64 << (end_bit as u64)) - 1);
        }
        proof {
            assert forall|b: u64| b < 64 implies #[trigger] word_bit(word, b) == (span.start <= 64 * at + b < end && word_bit(mask@[at as int], b)) by {
                let whole = mask@[at as int];
                lemma_from(whole, (span.start % 64) as u64, b);
                lemma_below(whole, end_bit as u64, b);
                lemma_below(whole & (u64::MAX << ((span.start % 64) as u64)), end_bit as u64, b);
            }
        }
        if word != 0 {
            proof {
                let b = lemma_some_bit(word);
                let bit = 64 * at + b;
                assert(bit / 64 == at && bit % 64 == b);
                assert(mask_bit(mask@, bit));
            }
            return true;
        }
        proof {
            assert forall|bit: int| span.start <= bit < end && bit < 64 * (at + 1) implies !#[trigger] mask_bit(mask@, bit) by {
                if 64 * at <= bit && mask_bit(mask@, bit) {
                    let b = (bit % 64) as u64;
                    assert(bit / 64 == at);
                    assert(bit == 64 * at + b);
                    assert(word_bit(word, b));
                    lemma_set_bit(word, b);
                }
            }
        }
        at = at + 1;
    }
    proof {
        assert forall|bit: int| span.start <= bit < end implies !#[trigger] mask_bit(mask@, bit) by {
            if bit >= 64 * at {
                assert(bit / 64 >= at);
                assert(bit / 64 <= last);
            }
        }
    }
    false
}


/// What a declaration assigns of a variable: for each of its elements, a mask of the bits.
pub struct AssignedMasks {
    pub id: u64,
    pub masks: Vec<Vec<u64>>,
}

/// Some element of the span is assigned in the packed bits.
pub open spec fn marks(masks: Seq<Vec<u64>>, array: ArraySpan, packed: PackedSpan) -> bool {
    array.bounded() && exists|element: int|
        array.start <= element < array.start + array.length && element < masks.len() && meets((#[trigger] masks[element])@, packed)
}

/// The node is one of the variable, and some bit of it is assigned.
pub open spec fn marked(partition: BitPartition, owned: AssignedMasks, key: NodeKey) -> bool {
    key.id == owned.id && (instance::key_span_of(partition, key) matches Some(packed) && marks(owned.masks@, key.array, packed))
}

/// Whether some element of the span is assigned in the packed bits.
fn masks_mark(masks: &Vec<Vec<u64>>, array: ArraySpan, packed: PackedSpan) -> (r: bool)
    requires
        packed.wf(),
    ensures
        r == marks(masks@, array, packed),
{
    let end: usize = match array.end() {
        Some(end) => end,
        None => {
            return false;
        },
    };
    let mut element: usize = array.start;
    while element < end && element < masks.len()
        invariant
            packed.wf(),
            array.bounded(),
            end == array.start + array.length,
            array.start <= element <= end,
            forall|k: int| array.start <= k < element && k < masks@.len() ==> !meets((#[trigger] masks@[k])@, packed),
        decreases end - element,
    {
        if packed_mask_overlaps(&masks[element], packed) {
            assert(meets(masks@[element as int]@, packed));
            return true;
        }
        element = element + 1;
    }
    false
}

/// Adds the nodes of which some bit is assigned.
pub fn add_marked(partition: &BitPartition, owned: &AssignedMasks, list: &mut Vec<NodeKey>)
    requires
        partition.wf(),
    ensures
        forall|key: NodeKey| #[trigger] final(list)@.contains(key) <==> old(list)@.contains(key) || marked(*partition, *owned, key),
{
    let keys = targets::keys_for_id(partition, owned.id);
    let ghost start = list@;
    let mut i: usize = 0;
    while i < keys.len()
        invariant
            partition.wf(),
            i <= keys@.len(),
            forall|key: NodeKey| #[trigger] keys@.contains(key) <==> targets::node_of(*partition, owned.id, key),
            forall|key: NodeKey| #[trigger]
                list@.contains(key) <==> start.contains(key) || keys@.take(i as int).contains(key) && marked(*partition, *owned, key),
        decreases keys@.len() - i,
    {
        let key = keys[i];
        let ghost before = list@;
        let taken = match key_span(partition, key) {
            Some(packed) => masks_mark(&owned.masks, key.array, packed),
            None => false,
        };
        assert(keys@.contains(key));
        assert(targets::node_of(*partition, owned.id, key));
        assert(taken == marked(*partition, *owned, key));
        if taken {
            list.push(key);
        }
        proof {
            assert(keys@.take(i + 1) =~= keys@.take(i as int).push(key));
            assert forall|other: NodeKey| #[trigger]
                list@.contains(other) <==> start.contains(other) || keys@.take(i + 1).contains(other) && marked(*partition, *owned, other) by {
                partition::lemma_contains_push(before, key, other);
                partition::lemma_contains_push(keys@.take(i as int), key, other);
                assert(before.contains(other) <==> start.contains(other) || keys@.take(i as int).contains(other) && marked(*partition, *owned, other));
            }
        }
        i = i + 1;
    }
    proof {
        assert(keys@.take(i as int) =~= keys@);
        assert forall|key: NodeKey| #[trigger] list@.contains(key) <==> start.contains(key) || marked(*partition, *owned, key) by {
            assert(keys@.contains(key) <==> targets::node_of(*partition, owned.id, key));
        }
    }
}

} // verus!
