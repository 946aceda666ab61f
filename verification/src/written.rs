//! Which elements a block may have written so far, with a journal to take writes back.
use vstd::prelude::*;
use std::collections::HashMap;
use crate::bits;
use crate::bits::{exceeds_limit, BitRange, BitRanges, Mask, PackedMask, RangeUndo};

verus! {

/// One element of an unpacked array, or a variable that is none.
#[derive(Clone, Copy, Debug, PartialEq, Eq, Hash, Structural)]
pub struct Element {
    pub id: u64,
    pub index: usize,
}

impl Element {
    /// A number that no other element has.
    pub open spec fn number(self) -> u128 {
        (self.id * 0x1_0000_0000_0000_0000 + self.index) as u128
    }

    /// The element as one number.
    pub fn code(self) -> (r: u128)
        ensures
            r == self.number(),
    {
        self.id as u128 * 0x1_0000_0000_0000_0000u128 + self.index as u128
    }
}

/// Different elements have different numbers.
pub proof fn element_numbers_differ(a: Element, b: Element)
    ensures
        a.number() == b.number() ==> a == b,
{
    assert(usize::MAX <= 0xffff_ffff_ffff_ffff);
}

/// Array elements that are accessed with the same packed mask.
pub struct DestinationGroup {
    pub id: u64,
    pub candidates: Vec<usize>,
    pub mask: PackedMask,
}

/// What a group is: its elements, as they are listed, and its mask.
pub struct Mark {
    pub id: u64,
    pub candidates: Seq<usize>,
    pub mask: PackedMask,
}

impl Mark {
    pub open spec fn holds(self, element: Element) -> bool {
        element.id == self.id && self.candidates.contains(element.index)
    }

    /// The bits of the group, or, coarsely, all bits of its elements.
    pub open spec fn bits(self, coarse: bool) -> Set<(Element, int)> {
        Set::new(
            |p: (Element, int)|
                self.holds(p.0) && 0 <= p.1 <= usize::MAX && (coarse || self.mask.covers(p.1)),
        )
    }
}

/// The bits of one element.
pub open spec fn bits_at(bits: Set<(Element, int)>, element: Element) -> Set<int> {
    Set::new(|bit: int| bits.contains((element, bit)))
}

/// Adding the group to the bits would go through too many fragments of one element.
pub open spec fn crowds(bits: Set<(Element, int)>, mark: Mark) -> bool {
    mark.mask matches PackedMask::Range { high, low } && exists|x: Element| #[trigger]
        mark.holds(x) && bits::fragmented(bits_at(bits, x), if low <= high {
            low as int
        } else {
            high as int
        }, if low <= high {
            high as int
        } else {
            low as int
        })
}

/// The bits of the groups of a list.
pub open spec fn marked_bits(marks: Seq<Mark>, coarse: bool) -> Set<(Element, int)> {
    Set::new(|p: (Element, int)| exists|i: int| 0 <= i < marks.len() && (#[trigger] marks[i]).bits(coarse).contains(p))
}

/// Adding the groups of the list to nothing, one after the other, would go through too many fragments.
pub open spec fn crowds_in_turn(marks: Seq<Mark>) -> bool {
    exists|i: int| 0 <= i < marks.len() && crowds(marked_bits(marks.take(i), false), #[trigger] marks[i])
}

/// What the groups of a list are.
pub open spec fn marks_of(groups: Seq<DestinationGroup>) -> Seq<Mark> {
    Seq::new(groups.len(), |i: int| groups[i].mark())
}

pub(crate) proof fn lemma_marks_push(groups: Seq<DestinationGroup>, group: DestinationGroup)
    ensures
        marks_of(groups.push(group)) == marks_of(groups).push(group.mark()),
{
    assert(marks_of(groups.push(group)) =~= marks_of(groups).push(group.mark()));
}

impl DestinationGroup {
    pub open spec fn mark(self) -> Mark {
        Mark { id: self.id, candidates: self.candidates@, mask: self.mask }
    }

    pub open spec fn holds(self, element: Element) -> bool {
        element.id == self.id && self.candidates@.contains(element.index)
    }

    /// The bits of the group, or, coarsely, all bits of its elements.
    pub open spec fn bits(self, coarse: bool) -> Set<(Element, int)> {
        Set::new(
            |p: (Element, int)|
                self.holds(p.0) && 0 <= p.1 <= usize::MAX && (coarse || self.mask.covers(p.1)),
        )
    }

    /// The two groups have the same elements, listed alike, and the same mask.
    pub open spec fn alike(self, other: Self) -> bool {
        self.id == other.id && self.candidates@ == other.candidates@ && self.mask == other.mask
    }

    /// Whether both are the same.
    pub fn same(&self, other: &Self) -> (r: bool)
        ensures
            r == self.alike(*other),
    {
        if self.id != other.id || self.mask != other.mask || self.candidates.len()
            != other.candidates.len() {
            return false;
        }
        let mut i: usize = 0;
        while i < self.candidates.len()
            invariant
                i <= self.candidates.len(),
                self.candidates.len() == other.candidates.len(),
                forall|k: int| 0 <= k < i ==> self.candidates@[k] == other.candidates@[k],
            decreases self.candidates.len() - i,
        {
            if self.candidates[i] != other.candidates[i] {
                return false;
            }
            i = i + 1;
        }
        assert(self.candidates@ =~= other.candidates@);
        true
    }

    /// A copy.
    pub fn copy(&self) -> (r: Self)
        ensures
            r.alike(*self),
            forall|coarse: bool| #[trigger] r.bits(coarse) == self.bits(coarse),
            forall|x: Element| #[trigger] r.holds(x) == self.holds(x),
    {
        let mut candidates: Vec<usize> = Vec::new();
        let mut i: usize = 0;
        while i < self.candidates.len()
            invariant
                i <= self.candidates.len(),
                candidates@ == self.candidates@.take(i as int),
            decreases self.candidates.len() - i,
        {
            candidates.push(self.candidates[i]);
            i = i + 1;
            assert(self.candidates@.take(i as int) =~= self.candidates@.take(i - 1).push(self.candidates@[i - 1]));
        }
        assert(self.candidates@.take(i as int) =~= self.candidates@);
        let r = DestinationGroup { id: self.id, candidates, mask: self.mask };
        proof {
            lemma_alike(r, *self);
        }
        r
    }

    /// Whether `element` is in the group.
    pub fn contains(&self, element: Element) -> (r: bool)
        ensures
            r == self.holds(element),
    {
        if self.id != element.id {
            return false;
        }
        let mut i: usize = 0;
        while i < self.candidates.len()
            invariant
                i <= self.candidates.len(),
                self.id == element.id,
                forall|k: int| 0 <= k < i ==> self.candidates@[k] != element.index,
            decreases self.candidates.len() - i,
        {
            if self.candidates[i] == element.index {
                assert(self.candidates@[i as int] == element.index);
                return true;
            }
            i = i + 1;
        }
        false
    }
}

pub(crate) proof fn lemma_alike(a: DestinationGroup, b: DestinationGroup)
    requires
        a.alike(b),
    ensures
        forall|coarse: bool| #[trigger] a.bits(coarse) == b.bits(coarse),
        forall|x: Element| #[trigger] a.holds(x) == b.holds(x),
{
    assert forall|coarse: bool| #[trigger] a.bits(coarse) == b.bits(coarse) by {
        assert(a.bits(coarse) =~= b.bits(coarse));
    }
}

/// All bits of the groups of a list.
pub open spec fn group_bits(groups: Seq<DestinationGroup>, coarse: bool) -> Set<(Element, int)> {
    Set::new(
        |p: (Element, int)|
            exists|i: int| 0 <= i < groups.len() && (#[trigger] groups[i]).bits(coarse).contains(p),
    )
}

pub(crate) proof fn lemma_group_bits_push(groups: Seq<DestinationGroup>, group: DestinationGroup, coarse: bool)
    ensures
        group_bits(groups.push(group), coarse) == group_bits(groups, coarse).union(group.bits(coarse)),
{
    let more = groups.push(group);
    assert forall|p: (Element, int)| group_bits(more, coarse).contains(p) <==> group_bits(groups, coarse).union(group.bits(coarse)).contains(p) by {
        if group_bits(groups, coarse).contains(p) {
            let i = choose|i: int| 0 <= i < groups.len() && (#[trigger] groups[i]).bits(coarse).contains(p);
            assert(more[i].bits(coarse).contains(p));
        }
        if group.bits(coarse).contains(p) {
            assert(more[groups.len() as int].bits(coarse).contains(p));
        }
        if group_bits(more, coarse).contains(p) {
            let i = choose|i: int| 0 <= i < more.len() && (#[trigger] more[i]).bits(coarse).contains(p);
            if i < groups.len() {
                assert(groups[i].bits(coarse).contains(p));
            }
        }
    }
    assert(group_bits(more, coarse) =~= group_bits(groups, coarse).union(group.bits(coarse)));
}

/// The ranges of a mask, or nothing if it covers all bits.
pub open spec fn shape(mask: Mask) -> Option<Seq<BitRange>> {
    match mask {
        Mask::Ranges(ranges) => Some(ranges.ranges@),
        Mask::All => None,
    }
}

/// How to take back one write.
pub enum WrittenUndo {
    Remove(u128),
    RestoreKnown(u128, BitRanges),
    Range(u128, RangeUndo),
}

/// The shapes before the last write.
pub open spec fn undone_once(
    state: Map<u128, Option<Seq<BitRange>>>,
    undo: WrittenUndo,
) -> Map<u128, Option<Seq<BitRange>>> {
    match undo {
        WrittenUndo::Remove(key) => state.remove(key),
        WrittenUndo::RestoreKnown(key, ranges) => state.insert(key, Some(ranges.ranges@)),
        WrittenUndo::Range(key, undo) => {
            let after = state[key]->0;
            state.insert(
                key,
                Some(after.take(undo.at as int) + undo.removed@ + after.skip(undo.at + 1)),
            )
        },
    }
}

/// The shapes before the writes from number `from` on.
pub open spec fn undone(
    state: Map<u128, Option<Seq<BitRange>>>,
    undo: Seq<WrittenUndo>,
    from: int,
) -> Map<u128, Option<Seq<BitRange>>>
    decreases undo.len(),
{
    if undo.len() <= from || undo.len() == 0 {
        state
    } else {
        undone(undone_once(state, undo.last()), undo.drop_last(), from)
    }
}

/// Every entry can be taken back where it stands.
pub open spec fn undo_fits(
    state: Map<u128, Option<Seq<BitRange>>>,
    undo: Seq<WrittenUndo>,
) -> bool
    decreases undo.len(),
{
    undo.len() == 0 || {
        &&& match undo.last() {
            WrittenUndo::Range(key, change) => state.contains_key(key) && state[key] is Some
                && change.at < state[key]->0.len(),
            WrittenUndo::RestoreKnown(key, ranges) => true,
            WrittenUndo::Remove(key) => true,
        }
        &&& shapes_wf(undone_once(state, undo.last()))
        &&& undo_fits(undone_once(state, undo.last()), undo.drop_last())
    }
}

pub open spec fn shapes_wf(state: Map<u128, Option<Seq<BitRange>>>) -> bool {
    forall|key: u128| #[trigger]
        state.contains_key(key) ==> (state[key] matches Some(ranges) ==> bits::coalesced(ranges)
            && ranges.len() > 0)
}

/// Where the journal stood.
#[derive(Clone, Copy, Debug, PartialEq, Eq, Hash, Structural)]
pub struct WrittenCheckpoint {
    pub undo: usize,
    pub groups: usize,
}

/// What may have been written, with a journal of the changes.
pub struct Written {
    pub current: HashMap<u128, Mask>,
    /// The groups that were written as a whole.
    pub groups: Vec<DestinationGroup>,
    pub undo: Vec<WrittenUndo>,
    /// Exact bits were given up somewhere.
    pub widened: bool,
}

impl Written {
    pub open spec fn state(self) -> Map<u128, Option<Seq<BitRange>>> {
        self.current@.map_values(|mask: Mask| shape(mask))
    }

    /// The bits that may have been written.
    pub open spec fn bits(self) -> Set<(Element, int)> {
        Set::new(
            |p: (Element, int)|
                self.current@.contains_key(p.0.number()) && self.current@[p.0.number()].covers(p.1),
        )
    }

    pub open spec fn wf(self) -> bool {
        &&& forall|key: u128| #[trigger]
            self.current@.contains_key(key) ==> self.current@[key].wf()
        &&& undo_fits(self.state(), self.undo@)
    }

    /// Everything since `before` can be taken back.
    pub open spec fn journals(self, before: Self) -> bool {
        &&& before.undo@.len() <= self.undo@.len()
        &&& before.groups@.len() <= self.groups@.len()
        &&& self.undo@.take(before.undo@.len() as int) == before.undo@
        &&& self.groups@.take(before.groups@.len() as int) == before.groups@
        &&& undone(self.state(), self.undo@, before.undo@.len() as int) == before.state()
    }

    /// Nothing written.
    pub fn new() -> (r: Self)
        ensures
            r.wf(),
            r.bits() == Set::<(Element, int)>::empty(),
            r.groups@.len() == 0,
            !r.widened,
    {
        let r = Written {
            current: HashMap::new(),
            groups: Vec::new(),
            undo: Vec::new(),
            widened: false,
        };
        assert(r.bits() =~= Set::<(Element, int)>::empty());
        r
    }

    /// How much was recorded so far.
    pub fn checkpoint(&self) -> (r: WrittenCheckpoint)
        ensures
            r.undo == self.undo@.len(),
            r.groups == self.groups@.len(),
    {
        WrittenCheckpoint { undo: self.undo.len(), groups: self.groups.len() }
    }

    /// Takes back everything since the checkpoint, which stood at `before`.
    pub fn rollback(&mut self, checkpoint: WrittenCheckpoint, Ghost(before): Ghost<Written>)
        requires
            old(self).wf(),
            old(self).journals(before),
            checkpoint.undo == before.undo@.len(),
            checkpoint.groups == before.groups@.len(),
        ensures
            final(self).wf(),
            final(self).state() == before.state(),
            final(self).undo@ == before.undo@,
            final(self).groups@ == before.groups@,
            final(self).widened == old(self).widened,
    {
        let ghost given = *self;
        while self.undo.len() > checkpoint.undo
            invariant
                self.wf(),
                checkpoint.undo == before.undo@.len(),
                checkpoint.undo <= self.undo@.len(),
                given == *old(self),
                given.journals(before),
                self.undo@ == given.undo@.take(self.undo@.len() as int),
                self.undo@.len() <= given.undo@.len(),
                undone(self.state(), self.undo@, checkpoint.undo as int) == before.state(),
                self.groups@ == given.groups@,
                self.widened == given.widened,
            decreases self.undo@.len(),
        {
            let ghost start = *self;
            let ghost last = self.undo@.last();
            if let Some(entry) = self.undo.pop() {
                proof {
                    assert(self.undo@ == start.undo@.drop_last());
                    assert(self.undo@ =~= given.undo@.take(self.undo@.len() as int));
                    assert(undo_fits(undone_once(start.state(), last), start.undo@.drop_last()));
                }
                match entry {
                    WrittenUndo::Remove(key) => {
                        self.current.remove(&key);
                        proof {
                            assert(self.state() =~= undone_once(start.state(), last));
                        }
                    },
                    WrittenUndo::RestoreKnown(key, ranges) => {
                        let ghost restored = ranges.ranges@;
                        self.current.insert(key, Mask::Ranges(ranges));
                        proof {
                            assert(self.state() =~= undone_once(start.state(), last));
                            assert(undone_once(start.state(), last).contains_key(key));
                            assert(bits::coalesced(restored) && restored.len() > 0);
                        }
                    },
                    WrittenUndo::Range(key, change) => {
                        proof {
                            assert(start.state().contains_key(key));
                            assert(undone_once(start.state(), last).contains_key(key));
                        }
                        if let Some(mask) = self.current.remove(&key) {
                            if let Mask::Ranges(mut ranges) = mask {
                                let ghost after = ranges.ranges@;
                                let ghost restored = after.take(change.at as int) + change.removed@ + after.skip(change.at + 1);
                                ranges.rollback(change, Ghost(restored));
                                self.current.insert(key, Mask::Ranges(ranges));
                                proof {
                                    assert(self.state() =~= undone_once(start.state(), last));
                                }
                            }
                        }
                    },
                }
                proof {
                    assert(self.state() == undone_once(start.state(), last));
                    assert forall|key: u128| #[trigger] self.current@.contains_key(key) implies self.current@[key].wf() by {
                        assert(self.state().contains_key(key));
                        assert(self.state()[key] == shape(self.current@[key]));
                    }
                }
            }
        }
        assert(self.undo@ =~= before.undo@) by {
            assert(given.undo@.take(before.undo@.len() as int) == before.undo@);
        }
        self.groups.truncate(checkpoint.groups);
        assert(self.groups@ =~= before.groups@) by {
            assert(given.groups@.take(before.groups@.len() as int) == before.groups@);
        }
    }

    /// Whether bits of `element` that `mask` covers may have been written.
    pub fn overlaps(&self, element: Element, mask: &Mask) -> (r: bool)
        requires
            self.wf(),
            mask.wf(),
        ensures
            r == exists|bit: int| #[trigger] mask.covers(bit) && self.bits().contains((element, bit)),
    {
        let key: u128 = element.code();
        match self.current.get(&key) {
            Some(written) => {
                let r = mask.overlaps(written);
                proof {
                    if r {
                        let bit = choose|bit: int| #[trigger] mask.covers(bit) && written.covers(bit);
                        assert(self.bits().contains((element, bit)));
                    }
                    if exists|bit: int| #[trigger] mask.covers(bit) && self.bits().contains((element, bit)) {
                        let bit = choose|bit: int| #[trigger] mask.covers(bit) && self.bits().contains((element, bit));
                        assert(mask.covers(bit) && written.covers(bit));
                    }
                }
                r
            },
            None => false,
        }
    }

    fn holds_group(&self, group: &DestinationGroup) -> (r: bool)
        ensures
            r == exists|i: int| 0 <= i < self.groups@.len() && group.alike(#[trigger] self.groups@[i]),
    {
        let mut i: usize = 0;
        while i < self.groups.len()
            invariant
                i <= self.groups.len(),
                forall|k: int| 0 <= k < i ==> !group.alike(#[trigger] self.groups@[k]),
            decreases self.groups.len() - i,
        {
            if group.same(&self.groups[i]) {
                assert(group.alike(self.groups@[i as int]));
                return true;
            }
            i = i + 1;
        }
        false
    }
}

proof fn lemma_undone_push(
    state: Map<u128, Option<Seq<BitRange>>>,
    undo: Seq<WrittenUndo>,
    entry: WrittenUndo,
    from: int,
)
    requires
        0 <= from <= undo.len(),
    ensures
        undone(state, undo.push(entry), from) == undone(undone_once(state, entry), undo, from),
{
    assert(undo.push(entry).drop_last() =~= undo);
}

/// Journals compose.
pub(crate) proof fn lemma_journals_trans(a: Written, b: Written, c: Written)
    requires
        b.journals(a),
        c.journals(b),
    ensures
        c.journals(a),
{
    lemma_undone_split(c.state(), c.undo@, b.undo@.len() as int, a.undo@.len() as int);
    assert(c.undo@.take(b.undo@.len() as int) == b.undo@);
    assert(c.undo@.take(a.undo@.len() as int) =~= b.undo@.take(a.undo@.len() as int)) by {
        assert forall|i: int| 0 <= i < a.undo@.len() implies c.undo@[i] == b.undo@[i] by {
            assert(c.undo@.take(b.undo@.len() as int)[i] == c.undo@[i]);
        }
    }
    assert(c.groups@.take(a.groups@.len() as int) =~= b.groups@.take(a.groups@.len() as int)) by {
        assert forall|i: int| 0 <= i < a.groups@.len() implies c.groups@[i] == b.groups@[i] by {
            assert(c.groups@.take(b.groups@.len() as int)[i] == c.groups@[i]);
        }
    }
}

proof fn lemma_undone_split(state: Map<u128, Option<Seq<BitRange>>>, undo: Seq<WrittenUndo>, middle: int, from: int)
    requires
        0 <= from <= middle <= undo.len(),
    ensures
        undone(state, undo, from) == undone(undone(state, undo, middle), undo.take(middle), from),
    decreases undo.len(),
{
    if undo.len() > middle {
        let shorter = undo.drop_last();
        lemma_undone_split(undone_once(state, undo.last()), shorter, middle, from);
        assert(shorter.take(middle) =~= undo.take(middle));
    } else {
        assert(undo.take(middle) =~= undo);
    }
}

pub(crate) proof fn lemma_journals_refl(a: Written)
    ensures
        a.journals(a),
{
    assert(a.undo@.take(a.undo@.len() as int) =~= a.undo@);
    assert(a.groups@.take(a.groups@.len() as int) =~= a.groups@);
}

impl Written {
    /// Adds the bits of `incoming` to an element, in the journal.
    fn merge_tracked(&mut self, element: Element, incoming: &Mask)
        requires
            old(self).wf(),
            incoming.wf(),
        ensures
            final(self).wf(),
            final(self).journals(*old(self)),
            final(self).groups@ == old(self).groups@,
            old(self).widened ==> final(self).widened,
            forall|x: Element, bit: int|
                x != element ==> (#[trigger] final(self).bits().contains((x, bit)) <==> old(self).bits().contains((x, bit))),
            forall|bit: int|
                old(self).bits().contains((element, bit)) || incoming.covers(bit)
                    ==> #[trigger] final(self).bits().contains((element, bit)),
            forall|bit: int| #[trigger]
                final(self).bits().contains((element, bit)) ==> old(self).bits().contains(
                    (element, bit),
                ) || incoming.covers(bit) || (final(self).widened && exists|other: int|
                    #[trigger] old(self).bits().contains((element, other))),
            final(self).widened && !old(self).widened ==> merge_crowds(bits_at(old(self).bits(), element), *incoming),
    {
        let ghost start = *self;
        let key: u128 = element.code();
        proof {
            assert forall|x: Element| x != element implies #[trigger] x.number() != key by {
                element_numbers_differ(x, element);
            }
            lemma_journals_refl(start);
        }
        match self.current.remove(&key) {
            None => {
                let added = incoming.copy();
                let ghost added_shape = added;
                self.current.insert(key, added);
                self.undo.push(WrittenUndo::Remove(key));
                proof {
                    let entry = WrittenUndo::Remove(key);
                    assert(undone_once(self.state(), entry) =~= start.state());
                    lemma_undone_push(self.state(), start.undo@, entry, start.undo@.len() as int);
                    assert(self.undo@.drop_last() =~= start.undo@);
                    assert(self.undo@.take(start.undo@.len() as int) =~= start.undo@);
                    lemma_shapes(start);
                }
            },
            Some(current) => {
                proof {
                    let bit = lemma_some_bit(current);
                    assert(start.bits().contains((element, bit)));
                }
                self.merge_known(element, key, current, incoming, Ghost(start));
            },
        }
    }

    /// The rest of `merge_tracked` for an element that has a mask, which was taken out.
    fn merge_known(
        &mut self,
        element: Element,
        key: u128,
        current: Mask,
        incoming: &Mask,
        Ghost(start): Ghost<Written>,
    )
        requires
            start.wf(),
            incoming.wf(),
            key == element.number(),
            start.current@.contains_key(key),
            start.current@[key] == current,
            old(self).current@ == start.current@.remove(key),
            old(self).groups@ == start.groups@,
            old(self).undo@ == start.undo@,
            old(self).widened == start.widened,
            forall|x: Element| x != element ==> #[trigger] x.number() != key,
            exists|other: int| #[trigger] start.bits().contains((element, other)),
        ensures
            final(self).wf(),
            final(self).journals(start),
            final(self).groups@ == start.groups@,
            start.widened ==> final(self).widened,
            forall|x: Element, bit: int|
                x != element ==> (#[trigger] final(self).bits().contains((x, bit))
                    <==> start.bits().contains((x, bit))),
            forall|bit: int|
                start.bits().contains((element, bit)) || incoming.covers(bit)
                    ==> #[trigger] final(self).bits().contains((element, bit)),
            forall|bit: int| #[trigger]
                final(self).bits().contains((element, bit)) ==> start.bits().contains(
                    (element, bit),
                ) || incoming.covers(bit) || final(self).widened,
            final(self).widened && !start.widened ==> merge_crowds(bits_at(start.bits(), element), *incoming),
    {
        proof {
            lemma_shapes(start);
            lemma_journals_refl(start);
            assert forall|bit: int| current.covers(bit) || incoming.covers(bit) implies 0 <= bit <= usize::MAX by {
                lemma_mask_bits(current, bit);
                lemma_mask_bits(*incoming, bit);
            }
        }
        match current {
            Mask::All => {
                self.current.insert(key, Mask::All);
                proof {
                    assert(self.state() =~= start.state());
                    assert forall|k: u128| #[trigger] self.current@.contains_key(k) implies self.current@[k].wf() by {}
                }
            },
            Mask::Ranges(ranges) => {
                let widen: bool = match incoming {
                    Mask::All => false,
                    Mask::Ranges(more) => exceeds_limit(&ranges, more),
                };
                match incoming {
                    Mask::Ranges(more) if !widen => {
                        let mut ranges = ranges;
                        let mut i: usize = 0;
                        let ghost first = ranges.ranges@;
                        assert(start.state().insert(key, Some(first)) =~= start.state());
                        assert(more.ranges@.take(0) =~= Seq::<BitRange>::empty());
                        while i < more.ranges.len()
                            invariant
                                i <= more.ranges.len(),
                                more.wf(),
                                start.wf(),
                                *incoming == Mask::Ranges(*more),
                                ranges.wf(),
                                ranges.ranges@.len() > 0,
                                first.len() > 0,
                                start.current@.contains_key(key),
                                shape(start.current@[key]) == Some(first),
                                self.current@ == start.current@.remove(key),
                                self.groups@ == start.groups@,
                                self.widened == start.widened,
                                start.undo@.len() <= self.undo@.len(),
                                self.undo@.take(start.undo@.len() as int) == start.undo@,
                                shapes_wf(start.state()),
                                undone(
                                    start.state().insert(key, Some(ranges.ranges@)),
                                    self.undo@,
                                    start.undo@.len() as int,
                                ) == start.state(),
                                undo_fits(
                                    start.state().insert(key, Some(ranges.ranges@)),
                                    self.undo@,
                                ),
                                forall|bit: int| #[trigger]
                                    ranges.has(bit) <==> bits::in_ranges(first, bit)
                                        || bits::in_ranges(more.ranges@.take(i as int), bit),
                            decreases more.ranges.len() - i,
                        {
                            let range = more.ranges[i];
                            let ghost before = ranges.ranges@;
                            let ghost undo0 = self.undo@;
                            let change = ranges.insert(range.low, range.high);
                            proof {
                                lemma_take_range(more.ranges@, i as int);
                                assert(ranges.has(range.low as int));
                                assert forall|bit: int| #[trigger] ranges.has(bit) <==> bits::in_ranges(first, bit)
                                    || bits::in_ranges(more.ranges@.take(i as int + 1), bit) by {
                                    assert(ranges.has(bit) <==> bits::in_ranges(before, bit) || range.low <= bit <= range.high);
                                    assert(bits::in_ranges(more.ranges@.take(i as int + 1), bit) <==> bits::in_ranges(more.ranges@.take(i as int), bit)
                                        || range.low <= bit <= range.high);
                                }
                            }
                            if let Some(change) = change {
                                let ghost entry = WrittenUndo::Range(key, change);
                                self.undo.push(WrittenUndo::Range(key, change));
                                proof {
                                    let state = start.state().insert(key, Some(ranges.ranges@));
                                    assert(undone_once(state, entry) =~= start.state().insert(key, Some(before)));
                                    lemma_undone_push(state, undo0, entry, start.undo@.len() as int);
                                    assert(self.undo@.drop_last() =~= undo0);
                                    assert(self.undo@.take(start.undo@.len() as int) =~= undo0.take(start.undo@.len() as int));
                                    assert(shapes_wf(start.state().insert(key, Some(before)))) by {
                                        assert forall|k: u128| #[trigger] start.state().insert(key, Some(before)).contains_key(k) implies (start.state().insert(key, Some(before))[k] matches Some(r) ==> bits::coalesced(r) && r.len() > 0) by {
                                            if k != key {
                                                assert(start.state().contains_key(k));
                                            }
                                        }
                                    }
                                }
                            }
                            i = i + 1;
                        }
                        self.current.insert(key, Mask::Ranges(ranges));
                        proof {
                            assert(more.ranges@.take(i as int) =~= more.ranges@);
                            assert(self.state() =~= start.state().insert(key, Some(ranges.ranges@)));
                            assert forall|k: u128| #[trigger] self.current@.contains_key(k) implies self.current@[k].wf() by {}
                        }
                    },
                    _ => {
                        self.current.insert(key, Mask::All);
                        if widen {
                            self.widened = true;
                            proof {
                                if let Mask::Ranges(more) = incoming {
                                    let set = bits_at(start.bits(), element);
                                    let k = choose|k: int|
                                        0 <= k < more.ranges@.len() && bits::touching(
                                            ranges.ranges@,
                                            (#[trigger] more.ranges@[k]).low,
                                            more.ranges@[k].high,
                                        ) > bits::MERGE_WORK_LIMIT;
                                    assert forall|bit: int| #[trigger] set.contains(bit) <==> bits::in_ranges(ranges.ranges@, bit) by {
                                        assert(start.current@[key].covers(bit) <==> ranges.has(bit));
                                    }
                                    bits::lemma_fragmented(ranges.ranges@, set, more.ranges@[k].low, more.ranges@[k].high);
                                }
                            }
                        }
                        let ghost entry = WrittenUndo::RestoreKnown(key, ranges);
                        self.undo.push(WrittenUndo::RestoreKnown(key, ranges));
                        proof {
                            assert(undone_once(self.state(), entry) =~= start.state());
                            lemma_undone_push(self.state(), start.undo@, entry, start.undo@.len() as int);
                            assert(self.undo@.drop_last() =~= start.undo@);
                            assert(self.undo@.take(start.undo@.len() as int) =~= start.undo@);
                            assert forall|k: u128| #[trigger] self.current@.contains_key(k) implies self.current@[k].wf() by {}
                        }
                    },
                }
            },
        }
    }

    /// Adds the bits of a group, unless the whole group was added before. Notes it in `delta` if
    /// it is new.
    pub fn apply_destination(
        &mut self,
        destination: &DestinationGroup,
        delta: &mut Vec<DestinationGroup>,
    )
        requires
            old(self).wf(),
            forall|i: int|
                0 <= i < old(self).groups@.len() ==> (#[trigger] old(self).groups@[i]).bits(
                    false,
                ).subset_of(old(self).bits()),
        ensures
            final(self).wf(),
            final(self).journals(*old(self)),
            old(self).widened ==> final(self).widened,
            final(self).widened && !old(self).widened ==> crowds(old(self).bits(), destination.mark()),
            old(self).bits().union(destination.bits(false)).subset_of(final(self).bits()),
            forall|x: Element, bit: int| #[trigger]
                final(self).bits().contains((x, bit)) ==> old(self).bits().contains((x, bit))
                    || destination.bits(false).contains((x, bit)) || (final(self).widened
                    && 0 <= bit <= usize::MAX && exists|other: int| #[trigger]
                    old(self).bits().union(destination.bits(false)).contains((x, other))),
            (exists|i: int|
                0 <= i < old(self).groups@.len() && destination.alike(
                    #[trigger] old(self).groups@[i],
                )) ==> *final(self) == *old(self) && *final(delta) == *old(delta),
            !(exists|i: int|
                0 <= i < old(self).groups@.len() && destination.alike(
                    #[trigger] old(self).groups@[i],
                )) ==> final(self).groups@.len() == old(self).groups@.len() + 1 && final(self).groups@.last().alike(*destination) && final(delta)@.len() == old(delta)@.len() + 1
                && final(delta)@.last().alike(*destination) && final(delta)@.drop_last() == old(delta)@,
    {
        let ghost start = *self;
        let ghost delta0 = delta@;
        proof {
            lemma_journals_refl(start);
        }
        if self.holds_group(destination) {
            proof {
                let i = choose|i: int| 0 <= i < self.groups@.len() && destination.alike(#[trigger] self.groups@[i]);
                lemma_alike(*destination, self.groups@[i]);
            }
            return;
        }
        let mask = Mask::from_packed(destination.mask);
        let mut i: usize = 0;
        while i < destination.candidates.len()
            invariant
                i <= destination.candidates.len(),
                start == *old(self),
                self.wf(),
                mask.wf(),
                mask is All <==> destination.mask == PackedMask::Unknown,
                forall|bit: int| #[trigger] mask.covers(bit) <==> destination.mask.covers(bit),
                self.journals(start),
                self.groups@ == start.groups@,
                start.widened ==> self.widened,
                self.widened && !start.widened ==> crowds(start.bits(), destination.mark()),
                forall|x: Element| #![trigger bits_at(self.bits(), x)]
                    !merged_before(*destination, i as int, x) ==> bits_at(self.bits(), x) == bits_at(start.bits(), x),
                start.bits().subset_of(self.bits()),
                forall|k: int| 0 <= k < i ==> #[trigger] element_added(*self, *destination, k),
                forall|x: Element, bit: int| #[trigger]
                    self.bits().contains((x, bit)) ==> grown(start, *destination, self.widened, x, bit),
            decreases destination.candidates.len() - i,
        {
            let ghost before = *self;
            let element = Element { id: destination.id, index: destination.candidates[i] };
            self.merge_tracked(element, &mask);
            proof {
                lemma_journals_trans(start, before, *self);
                assert(destination.candidates@.contains(destination.candidates@[i as int]));
                assert(destination.holds(element));
                if self.widened && !before.widened && !start.widened {
                    lemma_element_crowds(start, before, *destination, mask, i as int, element);
                }
                assert forall|x: Element| #![trigger bits_at(self.bits(), x)]
                    !merged_before(*destination, i + 1, x) implies bits_at(self.bits(), x) == bits_at(start.bits(), x) by {
                    assert(x != element) by {
                        if x == element {
                            assert(merged_before(*destination, i + 1, x));
                        }
                    }
                    assert(!merged_before(*destination, i as int, x)) by {
                        if merged_before(*destination, i as int, x) {
                            let k = choose|k: int| 0 <= k < i && x.id == destination.id && #[trigger] destination.candidates@[k] == x.index;
                            assert(destination.candidates@[k] == x.index);
                            assert(merged_before(*destination, i + 1, x));
                        }
                    }
                    assert(bits_at(before.bits(), x) == bits_at(start.bits(), x));
                    assert(bits_at(self.bits(), x) =~= bits_at(before.bits(), x));
                }
                assert forall|x: Element, bit: int| #[trigger] self.bits().contains((x, bit)) implies grown(start, *destination, self.widened, x, bit) by {
                    if x != element {
                        assert(before.bits().contains((x, bit)));
                        assert(grown(start, *destination, before.widened, x, bit));
                    } else if before.bits().contains((x, bit)) {
                        assert(grown(start, *destination, before.widened, x, bit));
                    } else if mask.covers(bit) {
                        lemma_mask_bits(mask, bit);
                        assert(destination.bits(false).contains((x, bit)));
                    } else {
                        let other = choose|other: int| #[trigger] before.bits().contains((element, other));
                        assert(grown(start, *destination, before.widened, element, other));
                        lemma_written_bits(*self, x, bit);
                        let third = if start.bits().union(destination.bits(false)).contains((element, other)) {
                            other
                        } else {
                            choose|third: int| #[trigger] start.bits().union(destination.bits(false)).contains((element, third))
                        };
                        assert(start.bits().union(destination.bits(false)).contains((x, third)));
                    }
                }
                assert forall|x: Element, bit: int| start.bits().contains((x, bit)) implies #[trigger] self.bits().contains((x, bit)) by {
                    assert(before.bits().contains((x, bit)));
                }
                assert(start.bits().subset_of(self.bits()));
                assert forall|k: int| 0 <= k < i + 1 implies #[trigger] element_added(*self, *destination, k) by {
                    if k < i {
                        assert(element_added(before, *destination, k));
                    }
                }
            }
            i = i + 1;
        }
        proof {
            assert forall|x: Element, bit: int| destination.bits(false).contains((x, bit)) implies #[trigger] self.bits().contains((x, bit)) by {
                let k = choose|k: int| 0 <= k < destination.candidates@.len() && destination.candidates@[k] == x.index;
                assert(element_added(*self, *destination, k));
                assert(destination.mask.covers(bit));
                assert(x == Element { id: destination.id, index: destination.candidates@[k] });
            }
            assert(start.bits().union(destination.bits(false)).subset_of(self.bits()));
        }
        let ghost merged = *self;
        self.groups.push(destination.copy());
        delta.push(destination.copy());
        proof {
            assert(self.groups@.take(start.groups@.len() as int) =~= start.groups@);
            assert(self.state() =~= merged.state());
            assert(delta@.drop_last() =~= delta0);
            assert(self.bits() =~= merged.bits());
            assert forall|x: Element, bit: int| #[trigger] self.bits().contains((x, bit)) implies start.bits().contains((x, bit))
                || destination.bits(false).contains((x, bit)) || (self.widened
                    && 0 <= bit <= usize::MAX && exists|other: int| #[trigger]
                    start.bits().union(destination.bits(false)).contains((x, other))) by {
                assert(grown(start, *destination, merged.widened, x, bit));
            }
        }
    }
}

/// The mask would go through too many fragments of the set.
spec fn merge_crowds(set: Set<int>, mask: Mask) -> bool {
    mask matches Mask::Ranges(more) && exists|i: int|
        0 <= i < more.ranges@.len() && bits::fragmented(set, (#[trigger] more.ranges@[i]).low as int, more.ranges@[i].high as int)
}

/// The element is one of the first candidates.
spec fn merged_before(destination: DestinationGroup, count: int, x: Element) -> bool {
    exists|k: int| 0 <= k < count && x.id == destination.id && #[trigger] destination.candidates@[k] == x.index
}

/// Where the mask of a group goes through too many fragments of a candidate, so does the group.
proof fn lemma_element_crowds(start: Written, before: Written, destination: DestinationGroup, mask: Mask, i: int, element: Element)
    requires
        0 <= i < destination.candidates@.len(),
        element == (Element { id: destination.id, index: destination.candidates@[i] }),
        destination.holds(element),
        mask.wf(),
        mask is All <==> destination.mask == PackedMask::Unknown,
        forall|bit: int| #[trigger] mask.covers(bit) <==> destination.mask.covers(bit),
        merge_crowds(bits_at(before.bits(), element), mask),
        !merged_before(destination, i, element) ==> bits_at(before.bits(), element) == bits_at(start.bits(), element),
        forall|k: int| 0 <= k < i ==> #[trigger] element_added(before, destination, k),
    ensures
        crowds(start.bits(), destination.mark()),
{
    let set = bits_at(before.bits(), element);
    if let Mask::Ranges(more) = mask {
        let k = choose|k: int|
            0 <= k < more.ranges@.len() && bits::fragmented(set, (#[trigger] more.ranges@[k]).low as int, more.ranges@[k].high as int);
        let range = more.ranges@[k];
        assert(range.low <= range.high);
        assert(more.has(range.low as int) && more.has(range.high as int));
        assert(mask.covers(range.low as int) && mask.covers(range.high as int));
        match destination.mask {
            PackedMask::Range { high, low } => {
                let (from, to) = if low <= high {
                    (low as int, high as int)
                } else {
                    (high as int, low as int)
                };
                assert(destination.mask.covers(range.low as int) && destination.mask.covers(range.high as int));
                bits::lemma_fragmented_wider(set, range.low as int, range.high as int, from, to);
                if merged_before(destination, i, element) {
                    let j = choose|j: int| 0 <= j < i && element.id == destination.id && #[trigger] destination.candidates@[j] == element.index;
                    assert(element_added(before, destination, j));
                    assert forall|bit: int| from <= bit <= to implies #[trigger] set.contains(bit) by {
                        assert(destination.mask.covers(bit));
                    }
                    bits::whole_spans_are_not_fragmented(set, from, to);
                }
                assert(destination.mark().holds(element));
            },
            PackedMask::Unknown => {
            },
        }
    }
}

spec fn element_added(written: Written, destination: DestinationGroup, k: int) -> bool {
    forall|bit: int| #[trigger]
        destination.mask.covers(bit) ==> written.bits().contains(
            (Element { id: destination.id, index: destination.candidates@[k] }, bit),
        )
}

spec fn grown(start: Written, destination: DestinationGroup, widened: bool, x: Element, bit: int) -> bool {
    ||| start.bits().contains((x, bit))
    ||| destination.bits(false).contains((x, bit))
    ||| widened && 0 <= bit <= usize::MAX && exists|other: int| #[trigger]
        start.bits().union(destination.bits(false)).contains((x, other))
}

pub(crate) proof fn lemma_mask_bits(mask: Mask, bit: int)
    requires
        true,
    ensures
        mask.covers(bit) ==> 0 <= bit <= usize::MAX,
{
    if mask.covers(bit) {
        if let Mask::Ranges(ranges) = mask {
            let i = choose|i: int| 0 <= i < ranges.ranges@.len() && (#[trigger] ranges.ranges@[i]).low <= bit <= ranges.ranges@[i].high;
        }
    }
}

pub(crate) proof fn lemma_written_bits(written: Written, x: Element, bit: int)
    ensures
        written.bits().contains((x, bit)) ==> 0 <= bit <= usize::MAX,
{
    if written.bits().contains((x, bit)) {
        lemma_mask_bits(written.current@[x.number()], bit);
    }
}

proof fn lemma_some_bit(mask: Mask) -> (bit: int)
    requires
        mask.wf(),
    ensures
        mask.covers(bit),
{
    match mask {
        Mask::Ranges(x) => {
            assert(x.ranges@[0].low <= x.ranges@[0].low <= x.ranges@[0].high);
            x.ranges@[0].low as int
        },
        Mask::All => 0,
    }
}

proof fn lemma_shapes(written: Written)
    requires
        written.wf(),
    ensures
        shapes_wf(written.state()),
{
    assert forall|key: u128| #[trigger] written.state().contains_key(key) implies (written.state()[key] matches Some(r) ==> bits::coalesced(r) && r.len() > 0) by {
        assert(written.current@.contains_key(key));
        assert(written.current@[key].wf());
    }
}

proof fn lemma_take_range(ranges: Seq<BitRange>, i: int)
    requires
        0 <= i < ranges.len(),
    ensures
        forall|bit: int| bits::in_ranges(ranges.take(i + 1), bit) <==> bits::in_ranges(ranges.take(i), bit)
            || ranges[i].low <= bit <= ranges[i].high,
{
    let taken = ranges.take(i);
    let longer = ranges.take(i + 1);
    assert forall|bit: int| bits::in_ranges(longer, bit) <==> bits::in_ranges(taken, bit) || ranges[i].low <= bit <= ranges[i].high by {
        if bits::in_ranges(taken, bit) {
            let k = choose|k: int| 0 <= k < taken.len() && (#[trigger] taken[k]).low <= bit <= taken[k].high;
            assert(longer[k].low <= bit <= longer[k].high);
        }
        if ranges[i].low <= bit <= ranges[i].high {
            assert(longer[i].low <= bit <= longer[i].high);
        }
        if bits::in_ranges(longer, bit) {
            let k = choose|k: int| 0 <= k < longer.len() && (#[trigger] longer[k]).low <= bit <= longer[k].high;
            if k < i {
                assert(taken[k].low <= bit <= taken[k].high);
            }
        }
    }
}

} // verus!
