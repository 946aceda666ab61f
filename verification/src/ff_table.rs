//! Which elements that an always_ff block assigns need a register.
use vstd::prelude::*;
use std::collections::{HashMap, HashSet};
use crate::bits::PackedMask;
use crate::paths;
use crate::self_reads;
use crate::self_reads::{unsafe_self_reads, UnsafeSelfReads};
use crate::write_count::Declaration;
use crate::written;
use crate::written::Element;

verus! {

/// The left-hand side of an assignment. A missing index is a dynamic one.
#[derive(Clone, Copy, Debug, PartialEq, Eq, Hash, Structural)]
pub struct AssignTarget {
    pub id: u64,
    pub index: Option<usize>,
    pub mask: PackedMask,
}

/// One read of an element.
#[derive(Clone, Copy, Debug, PartialEq, Eq, Hash, Structural)]
pub struct Reference {
    /// The declaration that reads.
    pub decl: usize,
    /// What the read is assigned to; nothing for conditions and the like.
    pub target: Option<AssignTarget>,
    pub mask: PackedMask,
    /// The declaration is an always_ff block.
    pub from_ff: bool,
}

/// What is known of one element.
pub struct FfTableEntry {
    /// The always_ff declaration that assigns the element.
    pub assigned: Option<usize>,
    pub refered: Vec<Reference>,
    pub is_ff: bool,
    /// The always_comb declaration that assigns the element.
    pub assigned_comb: Option<usize>,
}

/// What an entry says, apart from how its references are stored.
pub struct EntryView {
    pub assigned: Option<usize>,
    pub refered: Seq<Reference>,
    pub is_ff: bool,
    pub assigned_comb: Option<usize>,
}

impl View for FfTableEntry {
    type V = EntryView;

    open spec fn view(&self) -> EntryView {
        EntryView {
            assigned: self.assigned,
            refered: self.refered@,
            is_ff: self.is_ff,
            assigned_comb: self.assigned_comb,
        }
    }
}

/// The read needs the value from before the clock edge: it is made in an always_ff block, and
/// unless it only feeds the element itself, within the block that assigns it, the block may have
/// stored a new value by then.
pub open spec fn needs_register(
    reference: Reference,
    decl: usize,
    element: Element,
    unsafe_reads: UnsafeSelfReads,
) -> bool {
    reference.from_ff && (reference.decl != decl || match reference.target {
        Some(target) => target.id != element.id || target.index != Some(element.index)
            || unsafe_reads.lists(decl as int, element),
        None => true,
    })
}

impl FfTableEntry {
    /// The classification of an assigned element; that of another is left as it is.
    fn update_is_ff(&mut self, element: Element, unsafe_reads: &UnsafeSelfReads)
        ensures
            final(self)@.assigned == old(self)@.assigned,
            final(self)@.refered == old(self)@.refered,
            final(self)@.assigned_comb == old(self)@.assigned_comb,
            final(self)@.is_ff == reclassified(old(self)@, element, *unsafe_reads),
    {
        if let Some(decl) = self.assigned {
            let readable = !unsafe_reads.contains(decl, element);
            let mut found: bool = false;
            let mut i: usize = 0;
            while i < self.refered.len() && !found
                invariant
                    i <= self.refered.len(),
                    self.refered == old(self).refered,
                    self.assigned == old(self).assigned,
                    self.assigned_comb == old(self).assigned_comb,
                    readable == !unsafe_reads.lists(decl as int, element),
                    !found ==> forall|k: int|
                        0 <= k < i ==> !needs_register(
                            #[trigger] self.refered@[k],
                            decl,
                            element,
                            *unsafe_reads,
                        ),
                    found ==> exists|k: int|
                        0 <= k < self.refered@.len() && needs_register(
                            #[trigger] self.refered@[k],
                            decl,
                            element,
                            *unsafe_reads,
                        ),
                decreases self.refered.len() - i,
            {
                let reference = self.refered[i];
                let needed: bool = if !reference.from_ff {
                    false
                } else if reference.decl != decl {
                    true
                } else {
                    match reference.target {
                        Some(target) => {
                            if target.id != element.id {
                                true
                            } else {
                                match target.index {
                                    Some(index) => {
                                        if index == element.index {
                                            !readable
                                        } else {
                                            true
                                        }
                                    },
                                    None => true,
                                }
                            }
                        },
                        None => true,
                    }
                };
                assert(needed == needs_register(self.refered@[i as int], decl, element, *unsafe_reads));
                if needed {
                    found = true;
                }
                i = i + 1;
            }
            self.is_ff = found;
        }
    }
}

/// The class of an element with respect to its references.
pub open spec fn reclassified(entry: EntryView, element: Element, unsafe_reads: UnsafeSelfReads) -> bool {
    match entry.assigned {
        Some(decl) => exists|k: int|
            0 <= k < entry.refered.len() && needs_register(
                #[trigger] entry.refered[k],
                decl,
                element,
                unsafe_reads,
            ),
        None => entry.is_ff,
    }
}

/// A row of the table.
pub struct Row {
    pub element: Element,
    pub entry: FfTableEntry,
}

/// Elements that were read alike, in one go.
pub struct ReferenceGroup {
    pub id: u64,
    pub reference: Reference,
    pub candidates: Vec<usize>,
}

/// Elements that were assigned in one go.
pub struct AssignmentGroup {
    pub id: u64,
    pub decl: usize,
    pub from_comb: bool,
    pub candidates: Vec<usize>,
}

/// What is known of every element that is read or assigned.
pub struct FfTable {
    pub rows: Vec<Row>,
    /// Finds the row of an element by its number.
    pub index: HashMap<u128, usize>,
    pub reference_groups: Vec<ReferenceGroup>,
    pub assignment_groups: Vec<AssignmentGroup>,
    /// Variables of which an always_ff block reads an unknown element.
    pub unknown_ff_reads: HashSet<u64>,
    /// Variables of which an always_ff block assigns an unknown element.
    pub unknown_ff_assignments: HashSet<u64>,
}

/// The entry of an element that nothing is known of.
pub open spec fn blank() -> EntryView {
    EntryView { assigned: None, refered: Seq::empty(), is_ff: false, assigned_comb: None }
}

impl FfTable {
    /// Every element has one row, and no read is noted twice.
    pub open spec fn wf(self) -> bool {
        &&& forall|i: int|
            0 <= i < self.rows@.len() ==> self.index@.contains_key(
                (#[trigger] self.rows@[i]).element.number(),
            ) && self.index@[self.rows@[i].element.number()] == i
        &&& forall|x: Element|
            self.index@.contains_key(#[trigger] x.number()) ==> self.index@[x.number()]
                < self.rows@.len() && self.rows@[self.index@[x.number()] as int].element == x
        &&& forall|i: int|
            0 <= i < self.rows@.len() ==> (#[trigger] self.rows@[i]).entry@.refered.no_duplicates()
        &&& forall|g: int, c: int|
            0 <= g < self.reference_groups@.len() && 0 <= c
                < self.reference_groups@[g].candidates@.len() ==> self.refers(
                Element {
                    id: self.reference_groups@[g].id,
                    index: #[trigger] self.reference_groups@[g].candidates@[c],
                },
                self.reference_groups@[g].reference,
            )
    }

    pub open spec fn has(self, x: Element) -> bool {
        self.index@.contains_key(x.number())
    }

    /// What the table says of an element.
    pub open spec fn entry(self, x: Element) -> EntryView {
        if self.has(x) {
            self.rows@[self.index@[x.number()] as int].entry@
        } else {
            blank()
        }
    }

    pub open spec fn refers(self, x: Element, reference: Reference) -> bool {
        self.entry(x).refered.contains(reference)
    }

    /// An assignment of these elements was noted before.
    pub open spec fn assigned_together(
        self,
        id: u64,
        candidates: Seq<usize>,
        decl: usize,
        from_comb: bool,
    ) -> bool {
        exists|g: int|
            0 <= g < self.assignment_groups@.len() && {
                let group = #[trigger] self.assignment_groups@[g];
                group.id == id && group.decl == decl && group.from_comb == from_comb
                    && group.candidates@ == candidates
            }
    }

    /// A read of these elements was noted before.
    pub open spec fn refered_together(self, id: u64, candidates: Seq<usize>, reference: Reference) -> bool {
        exists|g: int|
            0 <= g < self.reference_groups@.len() && {
                let group = #[trigger] self.reference_groups@[g];
                group.id == id && group.reference == reference && group.candidates@ == candidates
            }
    }

    /// One more assignment is noted behind those that were.
    pub open spec fn notes_assignment(self, before: Self, id: u64, candidates: Seq<usize>, decl: usize, from_comb: bool) -> bool {
        let group = self.assignment_groups@.last();
        &&& self.assignment_groups@ == before.assignment_groups@.push(group)
        &&& group.id == id
        &&& group.decl == decl
        &&& group.from_comb == from_comb
        &&& group.candidates@ == candidates
    }

    /// One more read is noted behind those that were.
    pub open spec fn notes_reference(self, before: Self, id: u64, candidates: Seq<usize>, reference: Reference) -> bool {
        let group = self.reference_groups@.last();
        &&& self.reference_groups@ == before.reference_groups@.push(group)
        &&& group.id == id
        &&& group.reference == reference
        &&& group.candidates@ == candidates
    }

    /// Nothing but the entry of `x` differs.
    pub open spec fn only_entry(self, before: Self, x: Element) -> bool {
        &&& forall|y: Element| y != x ==> #[trigger] self.entry(y) == before.entry(y)
        &&& self.same_notes(before)
    }

    /// The notes on variables with unknown elements, and on groups, are the same.
    pub open spec fn same_notes(self, before: Self) -> bool {
        &&& self.unknown_ff_reads@ == before.unknown_ff_reads@
        &&& self.unknown_ff_assignments@ == before.unknown_ff_assignments@
        &&& self.assignment_groups@ == before.assignment_groups@
        &&& self.reference_groups@ == before.reference_groups@
    }

    pub open spec fn classified_ff(self, x: Element) -> bool {
        self.unknown_ff_assignments@.contains(x.id) || (self.has(x) && (self.entry(x).is_ff || (
        self.entry(x).assigned is Some && self.unknown_ff_reads@.contains(x.id))))
    }
}

impl Default for FfTable {
    fn default() -> (r: Self)
        ensures
            r.wf(),
            forall|x: Element| !#[trigger] r.has(x),
            r.unknown_ff_reads@ == Set::<u64>::empty(),
            r.unknown_ff_assignments@ == Set::<u64>::empty(),
            r.assignment_groups@.len() == 0,
            r.reference_groups@.len() == 0,
    {
        FfTable {
            rows: Vec::new(),
            index: HashMap::new(),
            reference_groups: Vec::new(),
            assignment_groups: Vec::new(),
            unknown_ff_reads: HashSet::new(),
            unknown_ff_assignments: HashSet::new(),
        }
    }
}

fn same_candidates(a: &Vec<usize>, b: &Vec<usize>) -> (r: bool)
    ensures
        r == (a@ == b@),
{
    if a.len() != b.len() {
        return false;
    }
    let mut i: usize = 0;
    while i < a.len()
        invariant
            i <= a.len(),
            a.len() == b.len(),
            forall|k: int| 0 <= k < i ==> a@[k] == b@[k],
        decreases a.len() - i,
    {
        if a[i] != b[i] {
            return false;
        }
        i = i + 1;
    }
    assert(a@ =~= b@);
    true
}

fn copy_candidates(a: &Vec<usize>) -> (r: Vec<usize>)
    ensures
        r@ == a@,
{
    let mut r: Vec<usize> = Vec::new();
    let mut i: usize = 0;
    while i < a.len()
        invariant
            i <= a.len(),
            r@ == a@.take(i as int),
        decreases a.len() - i,
    {
        r.push(a[i]);
        i = i + 1;
        assert(a@.take(i as int) =~= a@.take(i - 1).push(a@[i - 1]));
    }
    assert(a@.take(i as int) =~= a@);
    r
}

impl FfTable {
    /// The row of an element, made if it is missing.
    fn row(&mut self, x: Element) -> (r: usize)
        requires
            old(self).wf(),
        ensures
            final(self).wf(),
            r < final(self).rows@.len(),
            final(self).rows@[r as int].element == x,
            final(self).has(x),
            final(self).index@[x.number()] == r,
            forall|y: Element| #[trigger] final(self).entry(y) == old(self).entry(y),
            forall|y: Element| #[trigger] final(self).has(y) <==> old(self).has(y) || y == x,
            final(self).same_notes(*old(self)),
            final(self).reference_groups == old(self).reference_groups,
    {
        let code: u128 = x.code();
        if let Some(found) = self.index.get(&code) {
            return *found;
        }
        let ghost before = *self;
        let r: usize = self.rows.len();
        let entry = FfTableEntry { assigned: None, refered: Vec::new(), is_ff: false, assigned_comb: None };
        assert(entry@.refered =~= Seq::<Reference>::empty());
        self.rows.push(Row { element: x, entry });
        self.index.insert(code, r);
        proof {
            assert forall|y: Element| (#[trigger] y.number() == code) implies y == x by {
                written::element_numbers_differ(y, x);
            }
            assert forall|y: Element| #[trigger] self.entry(y) == before.entry(y) by {
                if y != x && before.has(y) {
                    assert(before.index@[y.number()] < before.rows@.len());
                }
            }
            assert forall|i: int| 0 <= i < self.rows@.len() implies self.index@.contains_key((#[trigger] self.rows@[i]).element.number())
                && self.index@[self.rows@[i].element.number()] == i by {
                if i < before.rows@.len() {
                    assert(before.index@.contains_key(before.rows@[i].element.number()));
                    assert(self.rows@[i] == before.rows@[i]);
                    if before.rows@[i].element.number() == code {
                        assert(before.index@.contains_key(code));
                    }
                }
            }
            assert forall|y: Element| self.index@.contains_key(#[trigger] y.number()) implies self.index@[y.number()] < self.rows@.len()
                && self.rows@[self.index@[y.number()] as int].element == y by {
                if y.number() != code {
                    assert(before.index@.contains_key(y.number()));
                    assert(self.rows@[before.index@[y.number()] as int] == before.rows@[before.index@[y.number()] as int]);
                }
            }
            assert forall|i: int| 0 <= i < self.rows@.len() implies (#[trigger] self.rows@[i]).entry@.refered.no_duplicates() by {
                if i < before.rows@.len() {
                    assert(self.rows@[i] == before.rows@[i]);
                }
            }
            lemma_groups_kept(before, *self);
        }
        r
    }

    /// Notes a read, once.
    pub fn insert_refered(
        &mut self,
        id: u64,
        index: usize,
        decl: usize,
        assign_target: Option<AssignTarget>,
        src_read_mask: PackedMask,
        from_ff: bool,
    )
        requires
            old(self).wf(),
        ensures
            ({
                let x = Element { id, index };
                let reference = Reference { decl, target: assign_target, mask: src_read_mask, from_ff };
                &&& final(self).wf()
                &&& final(self).has(x)
                &&& forall|y: Element| y != x ==> (#[trigger] final(self).has(y) <==> old(self).has(y))
                &&& final(self).only_entry(*old(self), x)
                &&& final(self).entry(x) == (if old(self).refers(x, reference) {
                    old(self).entry(x)
                } else {
                    EntryView {
                        assigned: old(self).entry(x).assigned,
                        refered: old(self).entry(x).refered.push(reference),
                        is_ff: old(self).entry(x).is_ff,
                        assigned_comb: old(self).entry(x).assigned_comb,
                    }
                })
                &&& final(self).reference_groups == old(self).reference_groups
            }),
    {
        let x = Element { id, index };
        let reference = Reference { decl, target: assign_target, mask: src_read_mask, from_ff };
        let r = self.row(x);
        let ghost before = *self;
        let mut i: usize = 0;
        while i < self.rows[r].entry.refered.len()
            invariant
                *self == before,
                r < self.rows@.len(),
                i <= self.rows@[r as int].entry.refered@.len(),
                before.wf(),
                before.rows@[r as int].element == x,
                before.has(x),
                before.index@[x.number()] == r,
                before.only_entry(*old(self), x),
                before.entry(x) == old(self).entry(x),
                before.reference_groups == old(self).reference_groups,
                forall|y: Element| #[trigger] before.has(y) <==> old(self).has(y) || y == x,
                x == (Element { id, index }),
                reference == (Reference { decl, target: assign_target, mask: src_read_mask, from_ff }),
                forall|k: int| 0 <= k < i ==> self.rows@[r as int].entry.refered@[k] != reference,
            decreases self.rows@[r as int].entry.refered@.len() - i,
        {
            if self.rows[r].entry.refered[i] == reference {
                assert(before.entry(x).refered[i as int] == reference);
                return;
            }
            i = i + 1;
        }
        self.rows[r].entry.refered.push(reference);
        proof {
            assert(!before.refers(x, reference));
            lemma_row_changed(before, *self, r as int, x);
            assert(self.rows@[r as int].entry@.refered =~= before.entry(x).refered.push(reference));
            assert(self.rows@[r as int].entry@.refered.no_duplicates());
            assert forall|i: int| 0 <= i < self.rows@.len() implies (#[trigger] self.rows@[i]).entry@.refered.no_duplicates() by {
                if i != r {
                    assert(self.rows@[i] == before.rows@[i]);
                }
            }
            assert forall|y: Element, old_reference: Reference| before.refers(y, old_reference) implies #[trigger] self.refers(y, old_reference) by {
                if y == x {
                    let k = choose|k: int| 0 <= k < before.entry(x).refered.len() && before.entry(x).refered[k] == old_reference;
                    assert(self.entry(x).refered[k] == old_reference);
                } else {
                    assert(self.entry(y) == before.entry(y));
                }
            }
            lemma_groups_kept(before, *self);
        }
    }

    /// Notes a read of every candidate, once.
    pub fn insert_refered_candidates(
        &mut self,
        id: u64,
        candidates: &Vec<usize>,
        decl: usize,
        assign_target: Option<AssignTarget>,
        src_read_mask: PackedMask,
        from_ff: bool,
    )
        requires
            old(self).wf(),
        ensures
            ({
                let reference = Reference { decl, target: assign_target, mask: src_read_mask, from_ff };
                &&& final(self).wf()
                &&& final(self).unknown_ff_reads@ == old(self).unknown_ff_reads@
                &&& final(self).unknown_ff_assignments@ == old(self).unknown_ff_assignments@
                &&& final(self).assignment_groups@ == old(self).assignment_groups@
                &&& if old(self).refered_together(id, candidates@, reference) {
                    final(self).reference_groups@ == old(self).reference_groups@
                } else {
                    final(self).notes_reference(*old(self), id, candidates@, reference)
                }
                &&& forall|y: Element| #[trigger]
                    final(self).entry(y) == (if y.id == id && candidates@.contains(y.index) && !old(self).refers(y, reference) {
                        EntryView {
                            assigned: old(self).entry(y).assigned,
                            refered: old(self).entry(y).refered.push(reference),
                            is_ff: old(self).entry(y).is_ff,
                            assigned_comb: old(self).entry(y).assigned_comb,
                        }
                    } else {
                        old(self).entry(y)
                    })
                &&& forall|y: Element| #[trigger] final(self).has(y) <==> old(self).has(y) || (y.id == id && candidates@.contains(y.index))
            }),
    {
        let ghost start = *self;
        let reference = Reference { decl, target: assign_target, mask: src_read_mask, from_ff };
        let mut g: usize = 0;
        while g < self.reference_groups.len()
            invariant
                g <= self.reference_groups.len(),
                *self == start,
                start == *old(self),
                start.wf(),
                reference == (Reference { decl, target: assign_target, mask: src_read_mask, from_ff }),
                forall|k: int|
                    0 <= k < g ==> !({
                        let group = #[trigger] self.reference_groups@[k];
                        group.id == id && group.reference == reference && group.candidates@ == candidates@
                    }),
            decreases self.reference_groups.len() - g,
        {
            if self.reference_groups[g].id == id && self.reference_groups[g].reference == reference
                && same_candidates(&self.reference_groups[g].candidates, candidates) {
                proof {
                    assert forall|y: Element| y.id == id && candidates@.contains(y.index) implies #[trigger] start.refers(y, reference) by {
                        let c = choose|c: int| 0 <= c < candidates@.len() && candidates@[c] == y.index;
                        assert(start.reference_groups@[g as int].candidates@[c] == y.index);
                        assert(start.refers(Element { id: start.reference_groups@[g as int].id, index: start.reference_groups@[g as int].candidates@[c] }, reference));
                        assert(y == Element { id, index: candidates@[c] });
                    }
                    assert forall|y: Element| #[trigger] self.entry(y) == (if y.id == id && candidates@.contains(y.index) && !start.refers(y, reference) {
                        EntryView {
                            assigned: start.entry(y).assigned,
                            refered: start.entry(y).refered.push(reference),
                            is_ff: start.entry(y).is_ff,
                            assigned_comb: start.entry(y).assigned_comb,
                        }
                    } else {
                        start.entry(y)
                    }) by {
                        if y.id == id && candidates@.contains(y.index) {
                            assert(start.refers(y, reference));
                        }
                    }
                }
                return;
            }
            g = g + 1;
        }
        assert(!start.refered_together(id, candidates@, reference));
        let mut i: usize = 0;
        while i < candidates.len()
            invariant
                i <= candidates.len(),
                start == *old(self),
                self.wf(),
                self.same_notes(start),
                self.reference_groups == start.reference_groups,
                reference == (Reference { decl, target: assign_target, mask: src_read_mask, from_ff }),
                forall|y: Element| #[trigger] self.has(y) <==> start.has(y) || (y.id == id && candidates@.take(i as int).contains(y.index)),
                forall|y: Element| #[trigger]
                    self.entry(y) == (if y.id == id && candidates@.take(i as int).contains(y.index)
                        && !start.refers(y, reference) {
                        EntryView {
                            assigned: start.entry(y).assigned,
                            refered: start.entry(y).refered.push(reference),
                            is_ff: start.entry(y).is_ff,
                            assigned_comb: start.entry(y).assigned_comb,
                        }
                    } else {
                        start.entry(y)
                    }),
            decreases candidates.len() - i,
        {
            let ghost before = *self;
            let index: usize = candidates[i];
            self.insert_refered(id, index, decl, assign_target, src_read_mask, from_ff);
            proof {
                let x = Element { id, index };
                let taken = candidates@.take(i as int);
                let longer = candidates@.take(i as int + 1);
                assert forall|c: usize| longer.contains(c) <==> taken.contains(c) || c == index by {
                    if taken.contains(c) {
                        let k = choose|k: int| 0 <= k < taken.len() && taken[k] == c;
                        assert(longer[k] == c);
                    }
                    if c == index {
                        assert(longer[i as int] == c);
                    }
                    if longer.contains(c) {
                        let k = choose|k: int| 0 <= k < longer.len() && longer[k] == c;
                        if k < i {
                            assert(taken[k] == c);
                        }
                    }
                }
                assert forall|y: Element| #[trigger] self.entry(y) == (if y.id == id && longer.contains(y.index) && !start.refers(y, reference) {
                    EntryView {
                        assigned: start.entry(y).assigned,
                        refered: start.entry(y).refered.push(reference),
                        is_ff: start.entry(y).is_ff,
                        assigned_comb: start.entry(y).assigned_comb,
                    }
                } else {
                    start.entry(y)
                }) by {
                    if y == x {
                        if taken.contains(index) && !start.refers(y, reference) {
                            assert(before.entry(y).refered == start.entry(y).refered.push(reference));
                            assert(before.entry(y).refered[start.entry(y).refered.len() as int] == reference);
                            assert(before.refers(y, reference));
                        }
                    } else {
                        assert(self.entry(y) == before.entry(y));
                    }
                }
            }
            i = i + 1;
        }
        let ghost filled = *self;
        self.reference_groups.push(ReferenceGroup { id, reference, candidates: copy_candidates(candidates) });
        proof {
            assert(candidates@.take(i as int) =~= candidates@);
            assert forall|y: Element| #[trigger] self.entry(y) == filled.entry(y) by {}
            assert forall|y: Element| #[trigger] self.has(y) <==> filled.has(y) by {}
            assert forall|g: int, c: int|
                0 <= g < self.reference_groups@.len() && 0 <= c < self.reference_groups@[g].candidates@.len() implies self.refers(
                Element { id: self.reference_groups@[g].id, index: #[trigger] self.reference_groups@[g].candidates@[c] },
                self.reference_groups@[g].reference,
            ) by {
                if g < filled.reference_groups@.len() {
                    assert(self.reference_groups@[g] == filled.reference_groups@[g]);
                    assert(filled.refers(Element { id: filled.reference_groups@[g].id, index: filled.reference_groups@[g].candidates@[c] }, filled.reference_groups@[g].reference));
                } else {
                    let y = Element { id, index: candidates@[c] };
                    assert(candidates@.contains(y.index));
                    assert(filled.entry(y) == self.entry(y));
                    if !start.refers(y, reference) {
                        assert(filled.entry(y).refered[start.entry(y).refered.len() as int] == reference);
                    }
                }
            }
        }
    }

    /// An always_ff block may read any element of the variable.
    pub fn insert_unknown_reference(&mut self, id: u64, from_ff: bool)
        requires
            old(self).wf(),
        ensures
            final(self).wf(),
            forall|y: Element| #[trigger] final(self).entry(y) == old(self).entry(y),
            forall|y: Element| #[trigger] final(self).has(y) == old(self).has(y),
            final(self).unknown_ff_reads@ == (if from_ff {
                old(self).unknown_ff_reads@.insert(id)
            } else {
                old(self).unknown_ff_reads@
            }),
            final(self).unknown_ff_assignments@ == old(self).unknown_ff_assignments@,
            final(self).assignment_groups@ == old(self).assignment_groups@,
            final(self).reference_groups@ == old(self).reference_groups@,
    {
        let ghost before = *self;
        if from_ff {
            self.unknown_ff_reads.insert(id);
        }
        proof {
            lemma_groups_kept(before, *self);
        }
    }

    /// An always_ff block may assign any element of the variable.
    pub fn insert_unknown_assignment(&mut self, id: u64, from_comb: bool)
        requires
            old(self).wf(),
        ensures
            final(self).wf(),
            forall|y: Element| #[trigger] final(self).entry(y) == old(self).entry(y),
            forall|y: Element| #[trigger] final(self).has(y) == old(self).has(y),
            final(self).unknown_ff_assignments@ == (if from_comb {
                old(self).unknown_ff_assignments@
            } else {
                old(self).unknown_ff_assignments@.insert(id)
            }),
            final(self).unknown_ff_reads@ == old(self).unknown_ff_reads@,
            final(self).assignment_groups@ == old(self).assignment_groups@,
            final(self).reference_groups@ == old(self).reference_groups@,
    {
        let ghost before = *self;
        if !from_comb {
            self.unknown_ff_assignments.insert(id);
        }
        proof {
            lemma_groups_kept(before, *self);
        }
    }

    /// Notes that an always_ff declaration assigns the element.
    pub fn insert_assigned(&mut self, id: u64, index: usize, decl: usize)
        requires
            old(self).wf(),
        ensures
            ({
                let x = Element { id, index };
                &&& final(self).wf()
                &&& final(self).has(x)
                &&& forall|y: Element| y != x ==> (#[trigger] final(self).has(y) <==> old(self).has(y))
                &&& final(self).only_entry(*old(self), x)
                &&& final(self).entry(x) == (EntryView {
                    assigned: Some(decl),
                    refered: old(self).entry(x).refered,
                    is_ff: old(self).entry(x).is_ff,
                    assigned_comb: old(self).entry(x).assigned_comb,
                })
            }),
    {
        let x = Element { id, index };
        let r = self.row(x);
        let ghost before = *self;
        self.rows[r].entry.assigned = Some(decl);
        proof {
            lemma_row_changed(before, *self, r as int, x);
            lemma_same_references(before, *self, r as int, x);
            assert(before.entry(x) == old(self).entry(x));
            assert(self.has(x) == before.has(x));
            assert forall|y: Element| y != x implies #[trigger] self.entry(y) == old(self).entry(y) && self.has(y) == old(self).has(y) by {
                assert(before.entry(y) == old(self).entry(y));
                assert(self.has(y) == before.has(y));
            }
        }
    }

    /// Notes that an always_comb declaration assigns the element.
    pub fn insert_assigned_comb(&mut self, id: u64, index: usize, decl: usize)
        requires
            old(self).wf(),
        ensures
            ({
                let x = Element { id, index };
                &&& final(self).wf()
                &&& final(self).has(x)
                &&& forall|y: Element| y != x ==> (#[trigger] final(self).has(y) <==> old(self).has(y))
                &&& final(self).only_entry(*old(self), x)
                &&& final(self).entry(x) == (EntryView {
                    assigned: old(self).entry(x).assigned,
                    refered: old(self).entry(x).refered,
                    is_ff: old(self).entry(x).is_ff,
                    assigned_comb: Some(decl),
                })
            }),
    {
        let x = Element { id, index };
        let r = self.row(x);
        let ghost before = *self;
        self.rows[r].entry.assigned_comb = Some(decl);
        proof {
            lemma_row_changed(before, *self, r as int, x);
            lemma_same_references(before, *self, r as int, x);
            assert(before.entry(x) == old(self).entry(x));
            assert(self.has(x) == before.has(x));
            assert forall|y: Element| y != x implies #[trigger] self.entry(y) == old(self).entry(y) && self.has(y) == old(self).has(y) by {
                assert(before.entry(y) == old(self).entry(y));
                assert(self.has(y) == before.has(y));
            }
        }
    }

    /// Notes that a declaration assigns every candidate, unless the same was noted before.
    pub fn insert_assigned_candidates(
        &mut self,
        id: u64,
        candidates: &Vec<usize>,
        decl: usize,
        from_comb: bool,
    )
        requires
            old(self).wf(),
        ensures
            final(self).wf(),
            final(self).unknown_ff_reads@ == old(self).unknown_ff_reads@,
            final(self).unknown_ff_assignments@ == old(self).unknown_ff_assignments@,
            final(self).reference_groups@ == old(self).reference_groups@,
            final(self).assigned_together(id, candidates@, decl, from_comb),
            !old(self).assigned_together(id, candidates@, decl, from_comb) ==> final(self).notes_assignment(*old(self), id, candidates@, decl, from_comb),
            old(self).assigned_together(id, candidates@, decl, from_comb) ==> *final(self) == *old(self),
            !old(self).assigned_together(id, candidates@, decl, from_comb) ==> forall|y: Element|
                #[trigger]
                final(self).entry(y) == (if y.id == id && candidates@.contains(y.index) {
                    assigned_by(old(self).entry(y), decl, from_comb)
                } else {
                    old(self).entry(y)
                }),
            !old(self).assigned_together(id, candidates@, decl, from_comb) ==> forall|y: Element| #[trigger]
                final(self).has(y) <==> old(self).has(y) || (y.id == id && candidates@.contains(y.index)),
    {
        let ghost start = *self;
        let mut g: usize = 0;
        while g < self.assignment_groups.len()
            invariant
                g <= self.assignment_groups.len(),
                *self == start,
                start == *old(self),
                start.wf(),
                forall|k: int|
                    0 <= k < g ==> !({
                        let group = #[trigger] self.assignment_groups@[k];
                        group.id == id && group.decl == decl && group.from_comb == from_comb
                            && group.candidates@ == candidates@
                    }),
            decreases self.assignment_groups.len() - g,
        {
            let group = &self.assignment_groups[g];
            if group.id == id && group.decl == decl && group.from_comb == from_comb
                && same_candidates(&group.candidates, candidates) {
                assert(start.assignment_groups@[g as int].id == id);
                return;
            }
            g = g + 1;
        }
        assert(!start.assigned_together(id, candidates@, decl, from_comb));
        let mut i: usize = 0;
        while i < candidates.len()
            invariant
                i <= candidates.len(),
                self.wf(),
                self.same_notes(start),
                forall|y: Element| #[trigger] self.has(y) <==> start.has(y) || (y.id == id && candidates@.take(i as int).contains(y.index)),
                forall|y: Element| #[trigger]
                    self.entry(y) == (if y.id == id && candidates@.take(i as int).contains(y.index) {
                        assigned_by(start.entry(y), decl, from_comb)
                    } else {
                        start.entry(y)
                    }),
            decreases candidates.len() - i,
        {
            let ghost before = *self;
            let index: usize = candidates[i];
            if from_comb {
                self.insert_assigned_comb(id, index, decl);
            } else {
                self.insert_assigned(id, index, decl);
            }
            proof {
                let x = Element { id, index };
                let taken = candidates@.take(i as int);
                let longer = candidates@.take(i as int + 1);
                assert forall|c: usize| longer.contains(c) <==> taken.contains(c) || c == index by {
                    if taken.contains(c) {
                        let k = choose|k: int| 0 <= k < taken.len() && taken[k] == c;
                        assert(longer[k] == c);
                    }
                    if c == index {
                        assert(longer[i as int] == c);
                    }
                    if longer.contains(c) {
                        let k = choose|k: int| 0 <= k < longer.len() && longer[k] == c;
                        if k < i {
                            assert(taken[k] == c);
                        }
                    }
                }
                assert forall|y: Element| #[trigger] self.entry(y) == (if y.id == id && longer.contains(y.index) {
                    assigned_by(start.entry(y), decl, from_comb)
                } else {
                    start.entry(y)
                }) by {
                    if y != x {
                        assert(self.entry(y) == before.entry(y));
                    } else {
                        assert(before.entry(x) == before.entry(y));
                    }
                }
            }
            i = i + 1;
        }
        let ghost filled = *self;
        self.assignment_groups.push(AssignmentGroup { id, decl, from_comb, candidates: copy_candidates(candidates) });
        proof {
            assert(candidates@.take(i as int) =~= candidates@);
            assert(self.assignment_groups@.last().id == id);
            assert forall|y: Element| #[trigger] self.entry(y) == filled.entry(y) by {}
            assert forall|y: Element| #[trigger] self.has(y) <==> filled.has(y) by {}
            lemma_groups_kept(filled, *self);
        }
    }
}

/// The entry of an element that a declaration now assigns.
pub open spec fn assigned_by(entry: EntryView, decl: usize, from_comb: bool) -> EntryView {
    if from_comb {
        EntryView {
            assigned: entry.assigned,
            refered: entry.refered,
            is_ff: entry.is_ff,
            assigned_comb: Some(decl),
        }
    } else {
        EntryView {
            assigned: Some(decl),
            refered: entry.refered,
            is_ff: entry.is_ff,
            assigned_comb: entry.assigned_comb,
        }
    }
}

/// The reads of noted groups stay noted.
proof fn lemma_groups_kept(before: FfTable, after: FfTable)
    requires
        before.wf(),
        after.reference_groups@ == before.reference_groups@,
        forall|y: Element, reference: Reference| before.refers(y, reference) ==> #[trigger] after.refers(y, reference),
    ensures
        forall|g: int, c: int|
            0 <= g < after.reference_groups@.len() && 0 <= c < after.reference_groups@[g].candidates@.len() ==> after.refers(
                Element { id: after.reference_groups@[g].id, index: #[trigger] after.reference_groups@[g].candidates@[c] },
                after.reference_groups@[g].reference,
            ),
{
    assert forall|g: int, c: int|
        0 <= g < after.reference_groups@.len() && 0 <= c < after.reference_groups@[g].candidates@.len() implies after.refers(
        Element { id: after.reference_groups@[g].id, index: #[trigger] after.reference_groups@[g].candidates@[c] },
        after.reference_groups@[g].reference,
    ) by {
        assert(before.refers(
            Element { id: before.reference_groups@[g].id, index: before.reference_groups@[g].candidates@[c] },
            before.reference_groups@[g].reference,
        ));
    }
}

/// Changing the entry of one row changes no other.
proof fn lemma_row_changed(before: FfTable, after: FfTable, r: int, x: Element)
    requires
        before.wf(),
        0 <= r < before.rows@.len(),
        before.rows@[r].element == x,
        after.index == before.index,
        after.rows@.len() == before.rows@.len(),
        after.rows@[r].element == x,
        forall|i: int| 0 <= i < before.rows@.len() && i != r ==> #[trigger] after.rows@[i] == before.rows@[i],
    ensures
        forall|y: Element| y != x ==> #[trigger] after.entry(y) == before.entry(y),
        after.entry(x) == after.rows@[r].entry@,
        forall|y: Element| #[trigger] after.has(y) == before.has(y),
        forall|i: int|
            0 <= i < after.rows@.len() ==> after.index@.contains_key(
                (#[trigger] after.rows@[i]).element.number(),
            ) && after.index@[after.rows@[i].element.number()] == i,
        forall|y: Element|
            after.index@.contains_key(#[trigger] y.number()) ==> after.index@[y.number()]
                < after.rows@.len() && after.rows@[after.index@[y.number()] as int].element == y,
{
    assert(before.index@[before.rows@[r].element.number()] == r);
    assert forall|y: Element| y != x implies #[trigger] after.entry(y) == before.entry(y) by {
        if before.has(y) {
            let i = before.index@[y.number()] as int;
            assert(before.rows@[i].element == y);
            assert(i != r);
        }
    }
    assert forall|i: int| 0 <= i < after.rows@.len() implies after.index@.contains_key((#[trigger] after.rows@[i]).element.number())
        && after.index@[after.rows@[i].element.number()] == i by {
        assert(before.index@.contains_key(before.rows@[i].element.number()));
    }
    assert forall|y: Element| after.index@.contains_key(#[trigger] y.number()) implies after.index@[y.number()] < after.rows@.len()
        && after.rows@[after.index@[y.number()] as int].element == y by {
        assert(before.rows@[before.index@[y.number()] as int].element == y);
    }
}

/// A row whose references stay keeps the table well-formed.
proof fn lemma_same_references(before: FfTable, after: FfTable, r: int, x: Element)
    requires
        before.wf(),
        0 <= r < before.rows@.len(),
        before.rows@[r].element == x,
        after.rows@.len() == before.rows@.len(),
        after.rows@[r].entry@.refered == before.rows@[r].entry@.refered,
        after.entry(x) == after.rows@[r].entry@,
        forall|i: int| 0 <= i < before.rows@.len() && i != r ==> #[trigger] after.rows@[i] == before.rows@[i],
        forall|y: Element| y != x ==> #[trigger] after.entry(y) == before.entry(y),
        after.reference_groups == before.reference_groups,
        after.index == before.index,
        forall|i: int|
            0 <= i < after.rows@.len() ==> after.index@.contains_key(
                (#[trigger] after.rows@[i]).element.number(),
            ) && after.index@[after.rows@[i].element.number()] == i,
        forall|y: Element|
            after.index@.contains_key(#[trigger] y.number()) ==> after.index@[y.number()]
                < after.rows@.len() && after.rows@[after.index@[y.number()] as int].element == y,
    ensures
        after.wf(),
{
    assert(before.index@[before.rows@[r].element.number()] == r);
    assert forall|i: int| 0 <= i < after.rows@.len() implies (#[trigger] after.rows@[i]).entry@.refered.no_duplicates() by {
        assert(before.rows@[i].entry@.refered.no_duplicates());
    }
    assert forall|y: Element, reference: Reference| before.refers(y, reference) implies #[trigger] after.refers(y, reference) by {
        if y != x {
            assert(after.entry(y) == before.entry(y));
        }
    }
    lemma_groups_kept(before, after);
}

impl FfTable {
    /// Whether the element needs a register, as far as it was classified.
    pub fn is_ff(&self, id: u64, index: usize) -> (r: bool)
        requires
            self.wf(),
        ensures
            r == self.classified_ff(Element { id, index }),
    {
        if self.unknown_ff_assignments.contains(&id) {
            return true;
        }
        let x = Element { id, index };
        match self.index.get(&x.code()) {
            Some(row) => {
                let entry = &self.rows[*row].entry;
                entry.is_ff || (entry.assigned.is_some() && self.unknown_ff_reads.contains(&id))
            },
            None => false,
        }
    }

    /// Classifies every element that an always_ff block assigns as one that needs a register.
    pub fn force_all_ff(&mut self)
        requires
            old(self).wf(),
        ensures
            final(self).wf(),
            final(self).same_notes(*old(self)),
            forall|y: Element| #[trigger] final(self).has(y) == old(self).has(y),
            forall|y: Element| #[trigger]
                final(self).entry(y) == (EntryView {
                    assigned: old(self).entry(y).assigned,
                    refered: old(self).entry(y).refered,
                    is_ff: old(self).entry(y).is_ff || old(self).entry(y).assigned is Some,
                    assigned_comb: old(self).entry(y).assigned_comb,
                }),
    {
        let ghost start = *self;
        let mut i: usize = 0;
        while i < self.rows.len()
            invariant
                i <= self.rows@.len(),
                start == *old(self),
                self.wf(),
                self.same_notes(start),
                self.index == start.index,
                self.rows@.len() == start.rows@.len(),
                forall|k: int| 0 <= k < start.rows@.len() ==> (#[trigger] self.rows@[k]).element == start.rows@[k].element,
                forall|k: int|
                    i <= k < start.rows@.len() ==> #[trigger] self.rows@[k] == start.rows@[k],
                forall|k: int|
                    0 <= k < i ==> (#[trigger] self.rows@[k]).entry@ == (EntryView {
                        assigned: start.rows@[k].entry@.assigned,
                        refered: start.rows@[k].entry@.refered,
                        is_ff: start.rows@[k].entry@.is_ff || start.rows@[k].entry@.assigned is Some,
                        assigned_comb: start.rows@[k].entry@.assigned_comb,
                    }),
            decreases self.rows@.len() - i,
        {
            let ghost before = *self;
            let ghost x = self.rows@[i as int].element;
            if self.rows[i].entry.assigned.is_some() {
                self.rows[i].entry.is_ff = true;
                proof {
                    lemma_row_changed(before, *self, i as int, x);
                    lemma_same_references(before, *self, i as int, x);
                }
            }
            i = i + 1;
        }
    }

    /// Classifies every element, for the given answer to which self-references are unsafe.
    pub fn update_with(&mut self, unsafe_reads: &UnsafeSelfReads)
        requires
            old(self).wf(),
        ensures
            final(self).wf(),
            final(self).updated(*old(self), *unsafe_reads),
    {
        let ghost start = *self;
        let mut i: usize = 0;
        while i < self.rows.len()
            invariant
                i <= self.rows@.len(),
                start == *old(self),
                start.wf(),
                self.wf(),
                self.same_notes(start),
                self.unknown_ff_reads == start.unknown_ff_reads,
                self.unknown_ff_assignments == start.unknown_ff_assignments,
                self.index == start.index,
                self.rows@.len() == start.rows@.len(),
                forall|k: int| 0 <= k < start.rows@.len() ==> (#[trigger] self.rows@[k]).element == start.rows@[k].element,
                forall|k: int|
                    i <= k < start.rows@.len() ==> #[trigger] self.rows@[k] == start.rows@[k],
                forall|k: int|
                    0 <= k < i ==> (#[trigger] self.rows@[k]).entry@ == updated_entry(
                        start,
                        start.rows@[k].entry@,
                        start.rows@[k].element,
                        *unsafe_reads,
                    ),
            decreases self.rows@.len() - i,
        {
            let ghost before = *self;
            let x = self.rows[i].element;
            let assigned: bool = self.rows[i].entry.assigned.is_some();
            if self.unknown_ff_assignments.contains(&x.id) || (self.unknown_ff_reads.contains(&x.id)
                && assigned) {
                self.rows[i].entry.is_ff = true;
            } else {
                self.rows[i].entry.update_is_ff(x, unsafe_reads);
            }
            proof {
                lemma_row_changed(before, *self, i as int, x);
                lemma_same_references(before, *self, i as int, x);
            }
            i = i + 1;
        }
        proof {
            assert forall|y: Element| start.has(y) implies #[trigger] self.entry(y) == updated_entry(start, start.entry(y), y, *unsafe_reads) by {
                let k = start.index@[y.number()] as int;
                assert(start.rows@[k].element == y);
                assert(self.rows@[k].entry@ == updated_entry(start, start.rows@[k].entry@, y, *unsafe_reads));
            }
        }
    }

    /// What classification makes of the table.
    pub open spec fn updated(self, before: Self, unsafe_reads: UnsafeSelfReads) -> bool {
        &&& self.same_notes(before)
        &&& forall|y: Element| #[trigger] self.has(y) == before.has(y)
        &&& forall|y: Element|
            before.has(y) ==> #[trigger] self.entry(y) == updated_entry(
                before,
                before.entry(y),
                y,
                unsafe_reads,
            )
    }

    /// Classifies every element.
    ///
    /// `decls` must be the declarations that the table was gathered from: what they write before
    /// a self-reference reads decides whether it needs the register.
    pub fn update_is_ff(&mut self, decls: &Vec<Declaration>)
        requires
            old(self).wf(),
        ensures
            final(self).wf(),
            exists|unsafe_reads: UnsafeSelfReads| #[trigger]
                answers(unsafe_reads, decls@) && final(self).updated(*old(self), unsafe_reads),
    {
        let unsafe_reads = unsafe_self_reads(decls);
        assert(answers(unsafe_reads, decls@));
        self.update_with(&unsafe_reads);
    }

    /// The elements that both an always_ff and an always_comb declaration assign, with the two
    /// declarations.
    pub fn validate(&self) -> (r: Vec<Conflict>)
        requires
            self.wf(),
        ensures
            forall|i: int|
                0 <= i < r@.len() ==> {
                    let c = #[trigger] r@[i];
                    &&& self.has(c.element)
                    &&& self.entry(c.element).assigned == Some(c.ff_decl)
                    &&& self.entry(c.element).assigned_comb == Some(c.comb_decl)
                },
            forall|x: Element| #[trigger]
                self.has(x) && self.entry(x).assigned is Some && self.entry(x).assigned_comb is Some
                    ==> exists|i: int| 0 <= i < r@.len() && (#[trigger] r@[i]).element == x,
            forall|i: int, j: int|
                0 <= i < j < r@.len() ==> (#[trigger] r@[i]).element != (#[trigger] r@[j]).element,
    {
        let mut r: Vec<Conflict> = Vec::new();
        let mut i: usize = 0;
        while i < self.rows.len()
            invariant
                i <= self.rows@.len(),
                self.wf(),
                forall|k: int|
                    0 <= k < r@.len() ==> {
                        let c = #[trigger] r@[k];
                        &&& self.has(c.element)
                        &&& self.entry(c.element).assigned == Some(c.ff_decl)
                        &&& self.entry(c.element).assigned_comb == Some(c.comb_decl)
                        &&& self.index@[c.element.number()] < i
                    },
                forall|x: Element| #[trigger]
                    self.has(x) && self.index@[x.number()] < i && self.entry(x).assigned is Some && self.entry(
                        x,
                    ).assigned_comb is Some ==> exists|k: int|
                        0 <= k < r@.len() && (#[trigger] r@[k]).element == x,
                forall|k: int, j: int|
                    0 <= k < j < r@.len() ==> (#[trigger] r@[k]).element != (
                    #[trigger] r@[j]).element,
            decreases self.rows@.len() - i,
        {
            let ghost before = r@;
            let row = &self.rows[i];
            proof {
                assert(self.index@[self.rows@[i as int].element.number()] == i);
            }
            if let (Some(ff_decl), Some(comb_decl)) = (row.entry.assigned, row.entry.assigned_comb) {
                r.push(Conflict { element: row.element, ff_decl, comb_decl });
                proof {
                    assert(r@[before.len() as int].element == self.rows@[i as int].element);
                    assert(self.has(self.rows@[i as int].element));
                }
            }
            proof {
                assert forall|x: Element| #[trigger] self.has(x) && self.index@[x.number()] < i + 1 && self.entry(x).assigned is Some
                    && self.entry(x).assigned_comb is Some implies exists|k: int| 0 <= k < r@.len() && (#[trigger] r@[k]).element == x by {
                    if self.index@[x.number()] < i {
                        let k = choose|k: int| 0 <= k < before.len() && (#[trigger] before[k]).element == x;
                        assert(r@[k].element == x);
                    } else {
                        assert(self.rows@[i as int].element == x);
                        assert(r@[before.len() as int].element == x);
                    }
                }
            }
            i = i + 1;
        }
        r
    }
}

/// The entry of an element once it is classified.
pub open spec fn updated_entry(
    table: FfTable,
    entry: EntryView,
    x: Element,
    unsafe_reads: UnsafeSelfReads,
) -> EntryView {
    EntryView {
        assigned: entry.assigned,
        refered: entry.refered,
        is_ff: if table.unknown_ff_assignments@.contains(x.id) || (table.unknown_ff_reads@.contains(
            x.id,
        ) && entry.assigned is Some) {
            true
        } else {
            reclassified(entry, x, unsafe_reads)
        },
        assigned_comb: entry.assigned_comb,
    }
}

/// The answer is one that the walk through the declarations may give.
pub open spec fn answers(unsafe_reads: UnsafeSelfReads, decls: Seq<Declaration>) -> bool {
    &&& forall|decl: int, x: Element|
        0 <= decl < decls.len() && self_reads::declaration_reads(decls[decl], false).contains(x)
            ==> #[trigger] unsafe_reads.lists(decl, x)
    &&& forall|decl: int, x: Element| #[trigger]
        unsafe_reads.lists(decl, x) ==> self_reads::declaration_reads(decls[decl], true).contains(x)
    &&& forall|decl: int, x: Element| #[trigger]
        unsafe_reads.lists(decl, x) ==> self_reads::declaration_reads(decls[decl], false).contains(x) || self_reads::declaration_gives_up(decls[decl])
}

/// An element that two kinds of declaration assign.
#[derive(Clone, Copy, Debug, PartialEq, Eq, Hash, Structural)]
pub struct Conflict {
    pub element: Element,
    pub ff_decl: usize,
    pub comb_decl: usize,
}


/// An element that an always_ff declaration assigns, and that another always_ff declaration reads,
/// is classified as a register, whatever the declarations do.
pub proof fn reads_by_other_declarations_need_registers(
    before: FfTable,
    after: FfTable,
    unsafe_reads: UnsafeSelfReads,
    x: Element,
    k: int,
)
    requires
        after.updated(before, unsafe_reads),
        before.has(x),
        before.entry(x).assigned matches Some(decl) && 0 <= k < before.entry(x).refered.len() && before.entry(x).refered[k].from_ff
            && before.entry(x).refered[k].decl != decl,
    ensures
        after.entry(x).is_ff,
{
    let entry = before.entry(x);
    assert(needs_register(entry.refered[k], entry.assigned->0, x, unsafe_reads));
    assert(after.entry(x) == updated_entry(before, entry, x, unsafe_reads));
}

/// An always_ff read of an element that goes into anything but that very element (another variable,
/// another element or an unknown one of the same variable, or no assignment at all) makes it a
/// register, also where the block that reads it is the one that assigns it.
pub proof fn reads_for_another_target_need_registers(
    before: FfTable,
    after: FfTable,
    decls: Seq<Declaration>,
    x: Element,
    reference: Reference,
)
    requires
        exists|unsafe_reads: UnsafeSelfReads| #[trigger]
            answers(unsafe_reads, decls) && after.updated(before, unsafe_reads),
        before.has(x),
        before.entry(x).assigned is Some,
        before.refers(x, reference),
        reference.from_ff,
        match reference.target {
            None => true,
            Some(target) => !(target.id == x.id && target.index == Some(x.index)),
        },
    ensures
        after.entry(x).is_ff,
        after.classified_ff(x),
{
    let unsafe_reads = choose|unsafe_reads: UnsafeSelfReads| #[trigger]
        answers(unsafe_reads, decls) && after.updated(before, unsafe_reads);
    let entry = before.entry(x);
    let k = choose|k: int| 0 <= k < entry.refered.len() && entry.refered[k] == reference;
    assert(needs_register(entry.refered[k], entry.assigned->0, x, unsafe_reads));
    assert(after.has(x) == before.has(x));
    assert(after.entry(x) == updated_entry(before, entry, x, unsafe_reads));
}

/// An always_ff read of an element for that very element makes it a register where the block may
/// have stored a new value by then, and so does one by another block.
pub proof fn unsafe_reads_for_itself_need_a_register(
    before: FfTable,
    after: FfTable,
    decls: Seq<Declaration>,
    x: Element,
    decl: usize,
    reference: Reference,
)
    requires
        exists|unsafe_reads: UnsafeSelfReads| #[trigger]
            answers(unsafe_reads, decls) && after.updated(before, unsafe_reads),
        before.has(x),
        before.entry(x).assigned == Some(decl),
        before.refers(x, reference),
        reference.from_ff,
        reference.decl != decl || (decl < decls.len() && self_reads::declaration_reads(
            decls[decl as int],
            false,
        ).contains(x)),
    ensures
        after.entry(x).is_ff,
        after.classified_ff(x),
{
    let unsafe_reads = choose|unsafe_reads: UnsafeSelfReads| #[trigger]
        answers(unsafe_reads, decls) && after.updated(before, unsafe_reads);
    let entry = before.entry(x);
    let k = choose|k: int| 0 <= k < entry.refered.len() && entry.refered[k] == reference;
    assert(reference.decl != decl || unsafe_reads.lists(decl as int, x));
    assert(needs_register(entry.refered[k], entry.assigned->0, x, unsafe_reads));
    assert(after.has(x) == before.has(x));
    assert(after.entry(x) == updated_entry(before, entry, x, unsafe_reads));
}

/// An element that its own block reads for itself is a register where, on some way through the
/// block, the read comes after a write to the same bit.
pub proof fn reads_after_writes_need_a_register(
    before: FfTable,
    after: FfTable,
    decls: Seq<Declaration>,
    x: Element,
    decl: usize,
    reference: Reference,
)
    requires
        exists|unsafe_reads: UnsafeSelfReads| #[trigger]
            answers(unsafe_reads, decls) && after.updated(before, unsafe_reads),
        before.has(x),
        before.entry(x).assigned == Some(decl),
        before.refers(x, reference),
        reference.from_ff,
        decl < decls.len(),
        decls[decl as int] matches Declaration::Ff(statements) && paths::foreseen_block(
            statements@,
            false,
        ) && paths::may_read_what_it_wrote(statements@, x),
    ensures
        after.entry(x).is_ff,
        after.classified_ff(x),
{
    if let Declaration::Ff(statements) = decls[decl as int] {
        paths::blocks_that_read_what_they_wrote_are_found(statements);
    }
    unsafe_reads_for_itself_need_a_register(before, after, decls, x, decl, reference);
}

/// An element needs no register where every always_ff read of it stands in the block that assigns
/// it, goes into that very element, and sees what the block started with; reads outside always_ff
/// blocks never matter. Elements of the variable must not be read or assigned at an unknown index.
pub proof fn safe_reads_for_itself_need_no_register(
    before: FfTable,
    after: FfTable,
    decls: Seq<Declaration>,
    x: Element,
    decl: usize,
)
    requires
        exists|unsafe_reads: UnsafeSelfReads| #[trigger]
            answers(unsafe_reads, decls) && after.updated(before, unsafe_reads),
        before.has(x),
        before.entry(x).assigned == Some(decl),
        !before.unknown_ff_reads@.contains(x.id),
        !before.unknown_ff_assignments@.contains(x.id),
        decl < decls.len(),
        !self_reads::declaration_reads(decls[decl as int], true).contains(x),
        forall|reference: Reference| #[trigger]
            before.refers(x, reference) && reference.from_ff ==> reference.decl == decl && (
            reference.target matches Some(target) && target.id == x.id && target.index == Some(
                x.index,
            )),
    ensures
        !after.entry(x).is_ff,
        !after.classified_ff(x),
{
    let unsafe_reads = choose|unsafe_reads: UnsafeSelfReads| #[trigger]
        answers(unsafe_reads, decls) && after.updated(before, unsafe_reads);
    let entry = before.entry(x);
    assert(!unsafe_reads.lists(decl as int, x));
    assert forall|k: int| 0 <= k < entry.refered.len() implies !needs_register(
        #[trigger] entry.refered[k],
        decl,
        x,
        unsafe_reads,
    ) by {
        assert(before.refers(x, entry.refered[k]));
    }
    assert(after.has(x) == before.has(x));
    assert(after.entry(x) == updated_entry(before, entry, x, unsafe_reads));
}

/// An element of a variable of which an always_ff block assigns an unknown element is a register,
/// and so is an assigned one of a variable of which an always_ff block reads an unknown element.
pub proof fn unknown_elements_need_registers(
    before: FfTable,
    after: FfTable,
    decls: Seq<Declaration>,
    x: Element,
)
    requires
        exists|unsafe_reads: UnsafeSelfReads| #[trigger]
            answers(unsafe_reads, decls) && after.updated(before, unsafe_reads),
        before.unknown_ff_assignments@.contains(x.id) || (before.unknown_ff_reads@.contains(x.id)
            && before.has(x) && before.entry(x).assigned is Some),
    ensures
        after.classified_ff(x),
        before.has(x) ==> after.entry(x).is_ff,
{
    let unsafe_reads = choose|unsafe_reads: UnsafeSelfReads| #[trigger]
        answers(unsafe_reads, decls) && after.updated(before, unsafe_reads);
    assert(after.has(x) == before.has(x));
    if before.has(x) {
        assert(after.entry(x) == updated_entry(before, before.entry(x), x, unsafe_reads));
    }
}

/// Classifying a table again, with the same answer about its declarations, changes nothing.
pub proof fn classification_is_stable(
    before: FfTable,
    once: FfTable,
    twice: FfTable,
    unsafe_reads: UnsafeSelfReads,
    x: Element,
)
    requires
        once.updated(before, unsafe_reads),
        twice.updated(once, unsafe_reads),
        before.has(x),
    ensures
        twice.entry(x) == once.entry(x),
{
    assert(once.has(x) == before.has(x));
    assert(once.entry(x) == updated_entry(before, before.entry(x), x, unsafe_reads));
    assert(twice.entry(x) == updated_entry(once, once.entry(x), x, unsafe_reads));
}

} // verus!
