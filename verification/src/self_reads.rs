//! The walk that finds self-references which need a register.
use vstd::prelude::*;
use std::collections::HashSet;
use crate::bits;
use crate::bits::{Mask, PackedMask};
use crate::paths;
use crate::write_count;
use crate::write_count::{Access, Call, Declaration, Expression, Location, Seen, Statement, StorageKind};
use crate::written;
use crate::written::{DestinationGroup, Element, Mark, Written};

verus! {

/// The state of the walk through one block.
struct Walk {
    written: Written,
    /// The numbers of the elements found.
    found: HashSet<u128>,
}

/// The elements that a set of numbers stands for.
pub open spec fn numbered(numbers: Set<u128>) -> Set<Element> {
    Set::new(|x: Element| numbers.contains(x.number()))
}

/// The exact and the coarse walk that an executed walk lies between, and where its list of effects
/// begins.
struct Trace {
    /// How much was written when the effects began.
    base: nat,
    exact: Seen,
    coarse: Seen,
}

impl Trace {
    spec fn to(self, exact: Seen, coarse: Seen) -> Self {
        Trace { base: self.base, exact, coarse }
    }

    spec fn expression(self, e: Expression, targets: Set<Element>) -> Self {
        self.to(
            write_count::expression_seen(e, targets, false, self.exact),
            write_count::expression_seen(e, targets, true, self.coarse),
        )
    }

    spec fn expressions(self, list: Seq<Expression>, targets: Set<Element>) -> Self {
        self.to(
            write_count::expressions_seen(list, targets, false, self.exact),
            write_count::expressions_seen(list, targets, true, self.coarse),
        )
    }

    spec fn call(self, call: Call, targets: Set<Element>) -> Self {
        self.to(
            write_count::call_seen(call, targets, false, self.exact),
            write_count::call_seen(call, targets, true, self.coarse),
        )
    }

    spec fn coordinates(self, accesses: Seq<Access>, targets: Set<Element>) -> Self {
        self.to(
            write_count::coordinates_seen(accesses, targets, false, self.exact),
            write_count::coordinates_seen(accesses, targets, true, self.coarse),
        )
    }

    spec fn flush(self, targets: Set<Element>) -> Self {
        self.to(
            write_count::flushed(self.exact, targets),
            write_count::flushed(self.coarse, targets),
        )
    }

    spec fn copy_back(self, outputs: Seq<Access>) -> Self {
        self.to(
            write_count::copied_back(outputs, false, self.exact),
            write_count::copied_back(outputs, true, self.coarse),
        )
    }

    /// One more group is written.
    spec fn write(self, mark: Mark) -> Self {
        self.to(write_count::wrote_one(self.exact, mark, false), write_count::wrote_one(self.coarse, mark, true))
    }

    /// More groups are written.
    spec fn write_all(self, marks: Seq<Mark>) -> Self {
        self.to(write_count::wrote(self.exact, marks, false), write_count::wrote(self.coarse, marks, true))
    }

    spec fn statement(self, statement: Statement, preapplied: bool) -> Self {
        self.to(
            write_count::statement_seen(statement, preapplied, false, self.exact),
            write_count::statement_seen(statement, preapplied, true, self.coarse),
        )
    }

    spec fn block(self, statements: Seq<Statement>, preapplied: bool) -> Self {
        self.to(
            write_count::block_seen(statements, preapplied, false, self.exact),
            write_count::block_seen(statements, preapplied, true, self.coarse),
        )
    }
}

/// With one bit of an element the set has all of them.
spec fn full(set: Set<(Element, int)>) -> bool {
    forall|x: Element, a: int, b: int|
        #![trigger set.contains((x, a)), set.contains((x, b))]
        set.contains((x, a)) && 0 <= b <= usize::MAX ==> set.contains((x, b))
}

spec fn between(
    low: Set<(Element, int)>,
    set: Set<(Element, int)>,
    high: Set<(Element, int)>,
    widened: bool,
) -> bool {
    &&& forall|x: Element, bit: int| low.contains((x, bit)) ==> #[trigger] set.contains((x, bit))
    &&& forall|x: Element, bit: int| #[trigger] set.contains((x, bit)) ==> high.contains((x, bit))
    &&& !widened ==> set == low
}

/// The walk stands between the exact and the coarse one.
spec fn tracks(
    walk: Walk,
    reads: Seq<DestinationGroup>,
    effects: Seq<DestinationGroup>,
    trace: Trace,
) -> bool {
    &&& walk.written.wf()
    &&& between(trace.exact.written, walk.written.bits(), trace.coarse.written, walk.written.widened)
    &&& full(trace.coarse.written)
    &&& forall|i: int|
        0 <= i < walk.written.groups@.len() ==> (
        #[trigger] walk.written.groups@[i]).bits(false).subset_of(trace.exact.written)
            && walk.written.groups@[i].bits(true).subset_of(trace.coarse.written)
    &&& written::group_bits(reads, false) == trace.exact.reads
    &&& written::group_bits(reads, true) == trace.coarse.reads
    &&& found_between(walk, trace.exact.found, trace.coarse.found)
    &&& trace.base <= trace.exact.writes.len()
    &&& trace.coarse.writes == trace.exact.writes
    &&& written::marks_of(walk.written.groups@) == trace.exact.writes
    &&& written::marks_of(effects) == trace.exact.writes.skip(trace.base as int)
    &&& walk.written.widened ==> trace.exact.crowded
    &&& written::crowds_in_turn(written::marks_of(reads)) ==> trace.exact.crowded
}

spec fn found_between(walk: Walk, low: Set<Element>, high: Set<Element>) -> bool {
    &&& forall|x: Element| low.contains(x) ==> #[trigger] numbered(walk.found@).contains(x)
    &&& forall|x: Element| #[trigger] numbered(walk.found@).contains(x) ==> high.contains(x)
    &&& !walk.written.widened ==> numbered(walk.found@) == low
}

/// The elements of the groups of a list.
spec fn group_elements(groups: Seq<DestinationGroup>) -> Set<Element> {
    Set::new(|x: Element| exists|i: int| 0 <= i < groups.len() && (#[trigger] groups[i]).holds(x))
}

/// The group of a location whose elements can be listed.
fn location_group(location: &Location) -> (r: Option<DestinationGroup>)
    ensures
        r is Some <==> location.candidates is Some,
        r matches Some(group) ==> group.id == location.id && group.candidates@
            == location.candidates->0@ && group.mask == write_count::range_mask(location.range),
        r matches Some(group) ==> forall|coarse: bool| #[trigger]
            group.bits(coarse) == write_count::location_bits(*location, coarse),
        r matches Some(group) ==> group.mark() == write_count::location_mark(*location),
        r is None ==> forall|coarse: bool| #[trigger]
            write_count::location_bits(*location, coarse) == Set::<(Element, int)>::empty(),
{
    match &location.candidates {
        Some(list) => {
            let mut candidates: Vec<usize> = Vec::new();
            let mut i: usize = 0;
            while i < list.len()
                invariant
                    i <= list.len(),
                    candidates@ == list@.take(i as int),
                decreases list.len() - i,
            {
                candidates.push(list[i]);
                i = i + 1;
                assert(list@.take(i as int) =~= list@.take(i - 1).push(list@[i - 1]));
            }
            assert(list@.take(i as int) =~= list@);
            let group = DestinationGroup {
                id: location.id,
                candidates,
                mask: PackedMask::from_range(location.range),
            };
            proof {
                assert forall|coarse: bool| #[trigger] group.bits(coarse) == write_count::location_bits(*location, coarse) by {
                    assert(group.bits(coarse) =~= write_count::location_bits(*location, coarse));
                }
            }
            Some(group)
        },
        None => {
            proof {
                assert forall|coarse: bool| #[trigger] write_count::location_bits(*location, coarse) == Set::<(Element, int)>::empty() by {
                    assert(write_count::location_bits(*location, coarse) =~= Set::<(Element, int)>::empty());
                }
            }
            None
        },
    }
}

/// What a write to the access leaves for the rest of the block.
fn written_group(access: &Access) -> (r: Option<DestinationGroup>)
    ensures
        r matches Some(group) ==> forall|coarse: bool| #[trigger]
            group.bits(coarse) == write_count::write_bits(*access, coarse),
        r matches Some(group) ==> write_count::write_marks(*access) == seq![group.mark()],
        r is None ==> forall|coarse: bool| #[trigger]
            write_count::write_bits(*access, coarse) == Set::<(Element, int)>::empty(),
        r is None ==> write_count::write_marks(*access) == Seq::<Mark>::empty(),
{
    match &access.location {
        Some(location) => {
            if location.kind == StorageKind::Shared {
                location_group(location)
            } else {
                None
            }
        },
        None => None,
    }
}

/// The groups that an assignment to the accesses writes.
fn written_groups(accesses: &Vec<Access>) -> (r: Vec<DestinationGroup>)
    ensures
        forall|coarse: bool| #[trigger]
            written::group_bits(r@, coarse) == write_count::all_write_bits(accesses@, coarse),
        group_elements(r@) == write_count::target_elements(accesses@),
        written::marks_of(r@) == write_count::all_write_marks(accesses@),
{
    let mut r: Vec<DestinationGroup> = Vec::new();
    let mut i: usize = 0;
    assert(written::marks_of(r@) =~= Seq::empty());
    while i < accesses.len()
        invariant
            i <= accesses.len(),
            written::marks_of(r@) == write_count::all_write_marks(accesses@.take(i as int)),
            forall|coarse: bool| #[trigger]
                written::group_bits(r@, coarse) == write_count::all_write_bits(
                    accesses@.take(i as int),
                    coarse,
                ),
        decreases accesses.len() - i,
    {
        let ghost before = r@;
        let group = written_group(&accesses[i]);
        proof {
            assert(accesses@.take(i as int + 1).drop_last() =~= accesses@.take(i as int));
            assert(accesses@.take(i as int + 1).last() == accesses@[i as int]);
            assert forall|coarse: bool| #[trigger] write_count::all_write_bits(accesses@.take(i as int + 1), coarse)
                == write_count::all_write_bits(accesses@.take(i as int), coarse).union(write_count::write_bits(accesses@[i as int], coarse)) by {
                lemma_all_write_bits(accesses@, i as int, coarse);
            }
        }
        match group {
            Some(group) => {
                r.push(group);
                proof {
                    written::lemma_marks_push(before, group);
                    assert(r@ =~= before.push(group));
                    assert(written::marks_of(r@) =~= written::marks_of(before) + seq![group.mark()]);
                    assert forall|coarse: bool| #[trigger] written::group_bits(r@, coarse) == write_count::all_write_bits(accesses@.take(i as int + 1), coarse) by {
                        written::lemma_group_bits_push(before, group, coarse);
                        assert(written::group_bits(before, coarse) == write_count::all_write_bits(accesses@.take(i as int), coarse));
                        assert(group.bits(coarse) == write_count::write_bits(accesses@[i as int], coarse));
                        assert(r@ =~= before.push(group));
                    }
                }
            },
            None => {
                proof {
                    assert(written::marks_of(r@) + Seq::<Mark>::empty() =~= written::marks_of(r@));
                    assert forall|coarse: bool| #[trigger] written::group_bits(r@, coarse) == write_count::all_write_bits(accesses@.take(i as int + 1), coarse) by {
                        assert(written::group_bits(before, coarse) == write_count::all_write_bits(accesses@.take(i as int), coarse));
                        assert(write_count::write_bits(accesses@[i as int], coarse) == Set::<(Element, int)>::empty());
                        assert(written::group_bits(r@, coarse) =~= write_count::all_write_bits(accesses@.take(i as int + 1), coarse));
                    }
                }
            },
        }
        i = i + 1;
    }
    proof {
        assert(accesses@.take(i as int) =~= accesses@);
        assert(group_elements(r@) =~= write_count::target_elements(accesses@)) by {
            assert forall|x: Element| group_elements(r@).contains(x) <==> write_count::target_elements(accesses@).contains(x) by {
                assert(written::group_bits(r@, true) == write_count::all_write_bits(accesses@, true));
                if group_elements(r@).contains(x) {
                    let k = choose|k: int| 0 <= k < r@.len() && (#[trigger] r@[k]).holds(x);
                    assert(r@[k].bits(true).contains((x, 0)));
                    assert(written::group_bits(r@, true).contains((x, 0)));
                }
                if write_count::target_elements(accesses@).contains(x) {
                    assert(written::group_bits(r@, true).contains((x, 0)));
                    let k = choose|k: int| 0 <= k < r@.len() && (#[trigger] r@[k]).bits(true).contains((x, 0));
                    assert(r@[k].holds(x));
                }
            }
        }
    }
    r
}

proof fn lemma_all_write_bits(accesses: Seq<Access>, i: int, coarse: bool)
    requires
        0 <= i < accesses.len(),
    ensures
        write_count::all_write_bits(accesses.take(i + 1), coarse) == write_count::all_write_bits(
            accesses.take(i),
            coarse,
        ).union(write_count::write_bits(accesses[i], coarse)),
{
    let longer = accesses.take(i + 1);
    let taken = accesses.take(i);
    let all = write_count::all_write_bits(taken, coarse).union(write_count::write_bits(accesses[i], coarse));
    assert forall|p: (Element, int)| write_count::all_write_bits(longer, coarse).contains(p) <==> all.contains(p) by {
        if write_count::all_write_bits(longer, coarse).contains(p) {
            let k = choose|k: int| 0 <= k < longer.len() && write_count::write_bits(#[trigger] longer[k], coarse).contains(p);
            if k < i {
                assert(write_count::write_bits(taken[k], coarse).contains(p));
            }
        }
        if write_count::all_write_bits(taken, coarse).contains(p) {
            let k = choose|k: int| 0 <= k < taken.len() && write_count::write_bits(#[trigger] taken[k], coarse).contains(p);
            assert(write_count::write_bits(longer[k], coarse).contains(p));
        }
        if write_count::write_bits(accesses[i], coarse).contains(p) {
            assert(write_count::write_bits(longer[i], coarse).contains(p));
        }
    }
    assert(write_count::all_write_bits(longer, coarse) =~= all);
}

impl Walk {
    /// The merged mask of the reads of an element.
    fn read_mask(&mut self, reads: &Vec<DestinationGroup>, element: Element) -> (r: Option<Mask>)
        requires
            old(self).written.wf(),
        ensures
            final(self).written.wf(),
            final(self).written.journals(old(self).written),
            final(self).written.groups@ == old(self).written.groups@,
            final(self).written.bits() == old(self).written.bits(),
            old(self).written.widened ==> final(self).written.widened,
            final(self).written.widened && !old(self).written.widened ==> written::crowds_in_turn(written::marks_of(reads@)),
            final(self).found == old(self).found,
            r is Some <==> exists|i: int| 0 <= i < reads@.len() && (#[trigger] reads@[i]).holds(element),
            r matches Some(mask) ==> {
                &&& mask.wf()
                &&& forall|bit: int|
                    written::group_bits(reads@, false).contains((element, bit)) ==> #[trigger] mask.covers(
                        bit,
                    )
                &&& !final(self).written.widened ==> forall|bit: int| #[trigger]
                    mask.covers(bit) ==> written::group_bits(reads@, false).contains((element, bit))
            },
    {
        let ghost start = *self;
        proof {
            written::lemma_journals_refl(self.written);
        }
        let mut r: Option<Mask> = None;
        let mut i: usize = 0;
        while i < reads.len()
            invariant
                i <= reads.len(),
                start == *old(self),
                self.written.wf(),
                self.written.current == start.written.current,
                self.written.groups == start.written.groups,
                self.written.undo == start.written.undo,
                start.written.widened ==> self.written.widened,
                self.written.widened && !start.written.widened ==> written::crowds_in_turn(written::marks_of(reads@)),
                self.found == start.found,
                r is Some <==> exists|k: int| 0 <= k < i && (#[trigger] reads@[k]).holds(element),
                r matches Some(mask) ==> {
                    &&& mask.wf()
                    &&& forall|bit: int, k: int|
                        0 <= k < i && (#[trigger] reads@[k]).bits(false).contains((element, bit)) ==> #[trigger] mask.covers(bit)
                    &&& !self.written.widened ==> forall|bit: int| #[trigger]
                        mask.covers(bit) ==> exists|k: int|
                            0 <= k < i && (#[trigger] reads@[k]).bits(false).contains((element, bit))
                },
            decreases reads.len() - i,
        {
            if reads[i].contains(element) {
                let ghost before = r;
                let ghost widened0 = self.written.widened;
                let one = Mask::from_packed(reads[i].mask);
                proof {
                    assert forall|bit: int| #[trigger] one.covers(bit) <==> reads@[i as int].bits(false).contains((element, bit)) by {
                        written::lemma_mask_bits(one, bit);
                    }
                }
                let merged = match r {
                    None => one,
                    Some(mask) => {
                        let mut mask = mask;
                        let ghost first = mask;
                        if mask.merge(&one) {
                            self.written.widened = true;
                            proof {
                                if !widened0 {
                                    lemma_read_crowds(reads@, i as int, element, first, one);
                                }
                                assert(self.written.state() =~= start.written.state());
                                assert forall|bit: int| first.covers(bit) || one.covers(bit) implies mask.covers(bit) by {
                                    written::lemma_mask_bits(first, bit);
                                    written::lemma_mask_bits(one, bit);
                                }
                            }
                        }
                        mask
                    },
                };
                proof {
                    assert(reads@[i as int].holds(element));
                    assert forall|bit: int, k: int| 0 <= k < i + 1 && (#[trigger] reads@[k]).bits(false).contains((element, bit)) implies #[trigger] merged.covers(bit) by {
                        if k < i {
                            assert(reads@[k].holds(element));
                        } else {
                            assert(one.covers(bit));
                        }
                    }
                    if !self.written.widened {
                        assert forall|bit: int| #[trigger] merged.covers(bit) implies exists|k: int|
                            0 <= k < i + 1 && (#[trigger] reads@[k]).bits(false).contains((element, bit)) by {
                            if one.covers(bit) {
                                assert(reads@[i as int].bits(false).contains((element, bit)));
                            }
                        }
                    }
                }
                r = Some(merged);
            } else {
                proof {
                    if exists|k: int| 0 <= k < i + 1 && (#[trigger] reads@[k]).holds(element) {
                        let k = choose|k: int| 0 <= k < i + 1 && (#[trigger] reads@[k]).holds(element);
                        assert(k < i);
                    }
                }
            }
            i = i + 1;
        }
        proof {
            assert(self.written.state() =~= start.written.state());
            assert(self.written.bits() =~= start.written.bits());
            if r is Some {
                let mask = r->0;
                assert forall|bit: int| written::group_bits(reads@, false).contains((element, bit)) implies #[trigger] mask.covers(bit) by {
                    let k = choose|k: int| 0 <= k < reads@.len() && (#[trigger] reads@[k]).bits(false).contains((element, bit));
                    assert(reads@[k].bits(false).contains((element, bit)));
                }
            }
        }
        r
    }

    /// Holds the reads against the writes so far, and forgets them.
    fn flush(
        &mut self,
        targets: &Vec<DestinationGroup>,
        reads: &mut Vec<DestinationGroup>,
        effects: &Vec<DestinationGroup>,
        Ghost(trace): Ghost<Trace>,
    )
        requires
            tracks(*old(self), old(reads)@, effects@, trace),
        ensures
            tracks(*final(self), final(reads)@, effects@, trace.flush(group_elements(targets@))),
            final(self).written.journals(old(self).written),
            old(self).written.widened ==> final(self).written.widened,
            final(reads)@.len() == 0,
    {
        let ghost start = *self;
        let ghost elements = group_elements(targets@);
        let ghost after = trace.flush(elements);
        proof {
            written::lemma_journals_refl(self.written);
        }
        let mut i: usize = 0;
        while i < targets.len()
            invariant
                i <= targets.len(),
                elements == group_elements(targets@),
                after == trace.flush(elements),
                reads@ == old(reads)@,
                tracks(start, reads@, effects@, trace),
                self.written.wf(),
                self.written.journals(start.written),
                self.written.groups@ == start.written.groups@,
                self.written.bits() == start.written.bits(),
                start.written.widened ==> self.written.widened,
                self.written.widened ==> trace.exact.crowded,
                between_flush(*self, trace, after),
                forall|k: int, x: Element|
                    0 <= k < i && #[trigger] targets@[k].holds(x) && hits(trace.exact, x)
                        ==> numbered(self.found@).contains(x),
            decreases targets.len() - i,
        {
            let mut j: usize = 0;
            while j < targets[i].candidates.len()
                invariant
                    i < targets.len(),
                    j <= targets@[i as int].candidates@.len(),
                    elements == group_elements(targets@),
                    after == trace.flush(elements),
                    reads@ == old(reads)@,
                    tracks(start, reads@, effects@, trace),
                    self.written.wf(),
                    self.written.journals(start.written),
                    self.written.groups@ == start.written.groups@,
                    self.written.bits() == start.written.bits(),
                    start.written.widened ==> self.written.widened,
                    self.written.widened ==> trace.exact.crowded,
                    between_flush(*self, trace, after),
                    forall|k: int, x: Element|
                        0 <= k < i && #[trigger] targets@[k].holds(x) && hits(trace.exact, x)
                            ==> numbered(self.found@).contains(x),
                    forall|m: int|
                        0 <= m < j && hits(
                            trace.exact,
                            Element {
                                id: targets@[i as int].id,
                                index: #[trigger] targets@[i as int].candidates@[m],
                            },
                        ) ==> numbered(self.found@).contains(
                            Element {
                                id: targets@[i as int].id,
                                index: targets@[i as int].candidates@[m],
                            },
                        ),
                decreases targets@[i as int].candidates@.len() - j,
            {
                let element = Element { id: targets[i].id, index: targets[i].candidates[j] };
                let ghost before = *self;
                proof {
                    assert(targets@[i as int].candidates@.contains(targets@[i as int].candidates@[j as int]));
                    assert(targets@[i as int].holds(element));
                    assert(elements.contains(element));
                }
                let mask = self.read_mask(reads, element);
                proof {
                    written::lemma_journals_trans(start.written, before.written, self.written);
                }
                let mut hit: bool = false;
                if let Some(mask) = &mask {
                    if self.written.overlaps(element, mask) {
                        hit = true;
                        let code: u128 = element.code();
                        let ghost found0 = self.found@;
                        self.found.insert(code);
                        proof {
                            assert forall|x: Element| #[trigger] numbered(self.found@).contains(x) <==> numbered(found0).contains(x) || x == element by {
                                written::element_numbers_differ(x, element);
                            }
                            let bit = choose|bit: int| #[trigger] mask.covers(bit) && self.written.bits().contains((element, bit));
                            let k = choose|k: int| 0 <= k < reads@.len() && (#[trigger] reads@[k]).holds(element);
                            written::lemma_written_bits(self.written, element, bit);
                            assert(reads@[k].bits(true).contains((element, bit)));
                            assert(trace.coarse.reads.contains((element, bit)));
                            assert(trace.coarse.written.contains((element, bit)));
                            assert(after.coarse.found.contains(element));
                            if !self.written.widened {
                                assert(trace.exact.reads.contains((element, bit)));
                                assert(trace.exact.written.contains((element, bit)));
                                assert(after.exact.found.contains(element));
                            }
                        }
                    }
                }
                proof {
                    if hits(trace.exact, element) && !hit {
                        let bit = choose|bit: int| #[trigger] trace.exact.reads.contains((element, bit)) && trace.exact.written.contains((element, bit));
                        assert(written::group_bits(reads@, false).contains((element, bit)));
                        let k = choose|k: int| 0 <= k < reads@.len() && (#[trigger] reads@[k]).bits(false).contains((element, bit));
                        assert(reads@[k].holds(element));
                        assert(self.written.bits().contains((element, bit)));
                        assert(mask is Some && mask->0.covers(bit));
                    }
                }
                j = j + 1;
            }
            proof {
                assert forall|x: Element| #[trigger] targets@[i as int].holds(x) && hits(trace.exact, x) implies numbered(self.found@).contains(x) by {
                    let m = choose|m: int| 0 <= m < targets@[i as int].candidates@.len() && targets@[i as int].candidates@[m] == x.index;
                    assert(x == Element { id: targets@[i as int].id, index: targets@[i as int].candidates@[m] });
                }
            }
            i = i + 1;
        }
        proof {
            assert forall|x: Element| after.exact.found.contains(x) implies #[trigger] numbered(self.found@).contains(x) by {
                if !trace.exact.found.contains(x) {
                    assert(elements.contains(x));
                    let k = choose|k: int| 0 <= k < targets@.len() && (#[trigger] targets@[k]).holds(x);
                    assert(hits(trace.exact, x));
                }
            }
            if !self.written.widened {
                assert(numbered(self.found@) =~= after.exact.found);
            }
        }
        reads.clear();
        proof {
            assert(written::group_bits(reads@, false) =~= Set::<(Element, int)>::empty());
            assert(written::group_bits(reads@, true) =~= Set::<(Element, int)>::empty());
            assert(!written::crowds_in_turn(written::marks_of(reads@)));
        }
    }
}

/// A read that goes through too many fragments of the reads before it.
proof fn lemma_read_crowds(reads: Seq<DestinationGroup>, i: int, element: Element, first: Mask, one: Mask)
    requires
        0 <= i < reads.len(),
        reads[i].holds(element),
        first.wf(),
        one.wf(),
        first.too_fragmented(one),
        one is All <==> reads[i].mask == PackedMask::Unknown,
        forall|bit: int| #[trigger] one.covers(bit) <==> reads[i].mask.covers(bit),
        forall|bit: int, k: int| 0 <= k < i && (#[trigger] reads[k]).bits(false).contains((element, bit)) ==> #[trigger] first.covers(bit),
        forall|bit: int| #[trigger]
            first.covers(bit) ==> exists|k: int| 0 <= k < i && (#[trigger] reads[k]).bits(false).contains((element, bit)),
    ensures
        written::crowds_in_turn(written::marks_of(reads)),
{
    let marks = written::marks_of(reads);
    let earlier = written::marked_bits(marks.take(i), false);
    let set = written::bits_at(earlier, element);
    if let Mask::Ranges(ranges) = first {
        if let Mask::Ranges(more) = one {
            let k = choose|k: int|
                0 <= k < more.ranges@.len() && bits::touching(ranges.ranges@, (#[trigger] more.ranges@[k]).low, more.ranges@[k].high)
                    > bits::MERGE_WORK_LIMIT;
            let range = more.ranges@[k];
            assert forall|bit: int| #[trigger] set.contains(bit) <==> bits::in_ranges(ranges.ranges@, bit) by {
                assert(first.covers(bit) <==> ranges.has(bit));
                if set.contains(bit) {
                    let m = choose|m: int| 0 <= m < marks.take(i).len() && (#[trigger] marks.take(i)[m]).bits(false).contains((element, bit));
                    assert(reads[m].bits(false).contains((element, bit)));
                }
                if first.covers(bit) {
                    let m = choose|m: int| 0 <= m < i && (#[trigger] reads[m]).bits(false).contains((element, bit));
                    assert(marks.take(i)[m] == reads[m].mark());
                    assert(marks.take(i)[m].bits(false).contains((element, bit)));
                }
            }
            bits::lemma_fragmented(ranges.ranges@, set, range.low, range.high);
            assert(more.has(range.low as int) && more.has(range.high as int));
            assert(one.covers(range.low as int) && one.covers(range.high as int));
            assert(reads[i].mask.covers(range.low as int) && reads[i].mask.covers(range.high as int));
            if let PackedMask::Range { high, low } = reads[i].mask {
                if low <= high {
                    bits::lemma_fragmented_wider(set, range.low as int, range.high as int, low as int, high as int);
                } else {
                    bits::lemma_fragmented_wider(set, range.low as int, range.high as int, high as int, low as int);
                }
            }
            assert(marks[i] == reads[i].mark());
            assert(marks[i].holds(element));
            assert(written::crowds(earlier, marks[i]));
        }
    }
}

/// One more read.
proof fn lemma_crowds_push(marks: Seq<Mark>, mark: Mark)
    requires
        written::crowds_in_turn(marks.push(mark)),
    ensures
        written::crowds_in_turn(marks) || written::crowds(written::marked_bits(marks, false), mark),
{
    let more = marks.push(mark);
    let i = choose|i: int| 0 <= i < more.len() && written::crowds(written::marked_bits(more.take(i), false), #[trigger] more[i]);
    if i < marks.len() {
        assert(more.take(i) =~= marks.take(i));
        assert(written::crowds(written::marked_bits(marks.take(i), false), marks[i]));
    } else {
        assert(more.take(i) =~= marks);
    }
}

proof fn lemma_marked_bits(groups: Seq<DestinationGroup>, coarse: bool)
    ensures
        written::marked_bits(written::marks_of(groups), coarse) == written::group_bits(groups, coarse),
{
    let marks = written::marks_of(groups);
    assert forall|p: (Element, int)| written::marked_bits(marks, coarse).contains(p) <==> written::group_bits(groups, coarse).contains(p) by {
        if written::marked_bits(marks, coarse).contains(p) {
            let i = choose|i: int| 0 <= i < marks.len() && (#[trigger] marks[i]).bits(coarse).contains(p);
            assert(groups[i].bits(coarse).contains(p));
        }
        if written::group_bits(groups, coarse).contains(p) {
            let i = choose|i: int| 0 <= i < groups.len() && (#[trigger] groups[i]).bits(coarse).contains(p);
            assert(marks[i].bits(coarse).contains(p));
        }
    }
    assert(written::marked_bits(marks, coarse) =~= written::group_bits(groups, coarse));
}

/// Writes keep what was read and found, and add to what was written.
proof fn lemma_wrote(seen: Seen, marks: Seq<Mark>, coarse: bool)
    ensures
        write_count::wrote(seen, marks, coarse).reads == seen.reads,
        write_count::wrote(seen, marks, coarse).found == seen.found,
        seen.written.subset_of(write_count::wrote(seen, marks, coarse).written),
        follows(seen.writes, write_count::wrote(seen, marks, coarse).writes),
    decreases marks.len(),
{
    if marks.len() > 0 {
        lemma_wrote(seen, marks.drop_last(), coarse);
    }
}

/// The list goes on from another.
spec fn follows(before: Seq<Mark>, after: Seq<Mark>) -> bool {
    before.len() <= after.len() && after.take(before.len() as int) =~= before
}

/// The element reads bits that were written.
spec fn hits(seen: Seen, x: Element) -> bool {
    exists|bit: int| #[trigger] seen.reads.contains((x, bit)) && seen.written.contains((x, bit))
}

spec fn between_flush(walk: Walk, trace: Trace, after: Trace) -> bool {
    &&& forall|x: Element| trace.exact.found.contains(x) ==> #[trigger] numbered(walk.found@).contains(x)
    &&& forall|x: Element| #[trigger] numbered(walk.found@).contains(x) ==> after.coarse.found.contains(x)
    &&& !walk.written.widened ==> forall|x: Element| #[trigger] numbered(walk.found@).contains(x) ==> after.exact.found.contains(x)
}

impl Walk {
    /// Adds a written group.
    fn write_group(
        &mut self,
        group: &DestinationGroup,
        effects: &mut Vec<DestinationGroup>,
        Ghost(reads): Ghost<Seq<DestinationGroup>>,
        Ghost(trace): Ghost<Trace>,
    )
        requires
            tracks(*old(self), reads, old(effects)@, trace),
        ensures
            tracks(*final(self), reads, final(effects)@, trace.write(group.mark())),
            final(self).written.journals(old(self).written),
            old(self).written.widened ==> final(self).written.widened,
            final(self).found == old(self).found,
    {
        let ghost start = *self;
        let ghost effects0 = effects@;
        let ghost after = trace.write(group.mark());
        let ghost known = exists|i: int| 0 <= i < start.written.groups@.len() && group.alike(#[trigger] start.written.groups@[i]);
        proof {
            assert forall|i: int| 0 <= i < start.written.groups@.len() implies (#[trigger] start.written.groups@[i]).bits(false).subset_of(start.written.bits()) by {
                assert(start.written.groups@[i].bits(false).subset_of(trace.exact.written));
                assert forall|p: (Element, int)| #[trigger] start.written.groups@[i].bits(false).contains(p) implies start.written.bits().contains(p) by {
                    assert(trace.exact.written.contains((p.0, p.1)));
                    assert(start.written.bits().contains((p.0, p.1)));
                }
            }
        }
        self.written.apply_destination(group, effects);
        proof {
            assert(known <==> trace.exact.writes.contains(group.mark())) by {
                let marks = written::marks_of(start.written.groups@);
                if known {
                    let i = choose|i: int| 0 <= i < start.written.groups@.len() && group.alike(#[trigger] start.written.groups@[i]);
                    assert(marks[i] == group.mark());
                }
                if marks.contains(group.mark()) {
                    let i = choose|i: int| 0 <= i < marks.len() && marks[i] == group.mark();
                    assert(group.alike(start.written.groups@[i]));
                }
            }
            if !known {
                let added = effects@.last();
                assert(effects@ =~= effects0.push(added));
                written::lemma_marks_push(effects0, added);
                assert(added.mark() == group.mark());
                let kept = self.written.groups@.last();
                assert(kept.mark() == group.mark());
                assert(self.written.groups@ =~= start.written.groups@.push(kept)) by {
                    assert(self.written.groups@.take(start.written.groups@.len() as int) =~= self.written.groups@.drop_last());
                }
                written::lemma_marks_push(start.written.groups@, kept);
                assert(after.exact.writes.skip(trace.base as int) =~= trace.exact.writes.skip(trace.base as int).push(group.mark()));
                assert(group.mark().bits(false) =~= group.bits(false));
                assert(group.mark().bits(true) =~= group.bits(true));
                if self.written.widened && !start.written.widened {
                    assert(start.written.bits() == trace.exact.written);
                }
                lemma_between_write(start, *self, *group, trace);
                assert forall|i: int| 0 <= i < self.written.groups@.len() implies (#[trigger] self.written.groups@[i]).bits(false).subset_of(after.exact.written)
                    && self.written.groups@[i].bits(true).subset_of(after.coarse.written) by {
                    if i < start.written.groups@.len() {
                        assert(self.written.groups@.take(start.written.groups@.len() as int)[i] == start.written.groups@[i]);
                        assert(start.written.groups@[i].bits(false).subset_of(trace.exact.written));
                    } else {
                        written::lemma_alike(self.written.groups@[i], *group);
                    }
                }
            }
        }
    }

    /// Adds several written groups.
    fn write_groups(
        &mut self,
        groups: &Vec<DestinationGroup>,
        effects: &mut Vec<DestinationGroup>,
        Ghost(reads): Ghost<Seq<DestinationGroup>>,
        Ghost(trace): Ghost<Trace>,
    )
        requires
            tracks(*old(self), reads, old(effects)@, trace),
        ensures
            tracks(*final(self), reads, final(effects)@, trace.write_all(written::marks_of(groups@))),
            final(self).written.journals(old(self).written),
            old(self).written.widened ==> final(self).written.widened,
            final(self).found == old(self).found,
    {
        let ghost start = *self;
        let mut i: usize = 0;
        proof {
            written::lemma_journals_refl(self.written);
            assert(written::marks_of(groups@).take(0) =~= Seq::empty());
        }
        while i < groups.len()
            invariant
                i <= groups.len(),
                start == *old(self),
                tracks(*self, reads, effects@, trace.write_all(written::marks_of(groups@).take(i as int))),
                self.written.journals(start.written),
                start.written.widened ==> self.written.widened,
                self.found == start.found,
            decreases groups.len() - i,
        {
            let ghost before = *self;
            let ghost marks = written::marks_of(groups@);
            let ghost here = trace.write_all(marks.take(i as int));
            self.write_group(&groups[i], effects, Ghost(reads), Ghost(here));
            proof {
                written::lemma_journals_trans(start.written, before.written, self.written);
                let longer = marks.take(i as int + 1);
                assert(longer.drop_last() =~= marks.take(i as int));
                assert(longer.last() == groups@[i as int].mark());
            }
            i = i + 1;
        }
        assert(written::marks_of(groups@).take(i as int) =~= written::marks_of(groups@));
    }

    /// Copies the outputs of a call back.
    fn apply_outputs(
        &mut self,
        outputs: &Vec<Access>,
        effects: &mut Vec<DestinationGroup>,
        Ghost(trace): Ghost<Trace>,
    )
        requires
            tracks(*old(self), Seq::empty(), old(effects)@, trace),
        ensures
            tracks(*final(self), Seq::empty(), final(effects)@, trace.copy_back(outputs@)),
            final(self).written.journals(old(self).written),
            old(self).written.widened ==> final(self).written.widened,
    {
        let ghost start = *self;
        proof {
            written::lemma_journals_refl(self.written);
        }
        let mut i: usize = 0;
        while i < outputs.len()
            invariant
                i <= outputs.len(),
                start == *old(self),
                tracks(*self, Seq::empty(), effects@, trace.copy_back(outputs@.take(i as int))),
                self.written.journals(start.written),
                start.written.widened ==> self.written.widened,
            decreases outputs.len() - i,
        {
            let ghost before = *self;
            let ghost here = trace.copy_back(outputs@.take(i as int));
            let ghost next = trace.copy_back(outputs@.take(i as int + 1));
            let group = written_group(&outputs[i]);
            proof {
                assert(outputs@.take(i as int + 1).drop_last() =~= outputs@.take(i as int));
                assert(outputs@.take(i as int + 1).last() == outputs@[i as int]);
            }
            match group {
                Some(group) => {
                    self.report_overlaps(&group, Ghost(here), Ghost(effects@));
                    let ghost reported = *self;
                    let ghost marked = here.to(
                        Seen { found: next.exact.found, ..here.exact },
                        Seen { found: next.coarse.found, ..here.coarse },
                    );
                    proof {
                        assert(group.bits(false) == write_count::write_bits(outputs@[i as int], false));
                        assert(group.bits(true) == write_count::write_bits(outputs@[i as int], true));
                        assert(next.exact.found =~= here.exact.found.union(overwritten(here.exact.written, group.bits(false))));
                        assert(next.coarse.found =~= here.coarse.found.union(overwritten(here.coarse.written, group.bits(true))));
                        assert(tracks(*self, Seq::empty(), effects@, marked));
                    }
                    self.write_group(&group, effects, Ghost(Seq::empty()), Ghost(marked));
                    proof {
                        written::lemma_journals_trans(start.written, before.written, reported.written);
                        written::lemma_journals_trans(start.written, reported.written, self.written);
                        let one = seq![group.mark()];
                        assert(one.drop_last() =~= Seq::empty());
                        assert(one.last() == group.mark());
                        assert(write_count::wrote(here.exact, one, false) == write_count::wrote_one(write_count::wrote(here.exact, one.drop_last(), false), one.last(), false));
                        assert(write_count::wrote(here.coarse, one, true) == write_count::wrote_one(write_count::wrote(here.coarse, one.drop_last(), true), one.last(), true));
                        assert(marked.write(group.mark()) == next);
                    }
                },
                None => {
                    proof {
                        assert(write_count::write_bits(outputs@[i as int], false) == Set::<(Element, int)>::empty());
                        assert(write_count::write_bits(outputs@[i as int], true) == Set::<(Element, int)>::empty());
                        assert(next.exact.found =~= here.exact.found);
                        assert(next.coarse.found =~= here.coarse.found);
                        assert(next == here);
                    }
                },
            }
            i = i + 1;
        }
        assert(outputs@.take(i as int) =~= outputs@);
    }

    /// Finds the elements of a group that have written bits of it.
    fn report_overlaps(
        &mut self,
        group: &DestinationGroup,
        Ghost(trace): Ghost<Trace>,
        Ghost(effects): Ghost<Seq<DestinationGroup>>,
    )
        requires
            tracks(*old(self), Seq::empty(), effects, trace),
        ensures
            final(self).written == old(self).written,
            found_between(
                *final(self),
                trace.exact.found.union(overwritten(trace.exact.written, group.bits(false))),
                trace.coarse.found.union(overwritten(trace.coarse.written, group.bits(true))),
            ),
            final(self).written.journals(old(self).written),
    {
        let ghost start = *self;
        let ghost low = overwritten(trace.exact.written, group.bits(false));
        let ghost high = overwritten(trace.coarse.written, group.bits(true));
        let mask = Mask::from_packed(group.mask);
        let mut i: usize = 0;
        while i < group.candidates.len()
            invariant
                i <= group.candidates.len(),
                start == *old(self),
                tracks(start, Seq::empty(), effects, trace),
                self.written == start.written,
                mask.wf(),
                forall|bit: int| #[trigger] mask.covers(bit) <==> group.mask.covers(bit),
                low == overwritten(trace.exact.written, group.bits(false)),
                high == overwritten(trace.coarse.written, group.bits(true)),
                forall|x: Element| trace.exact.found.contains(x) ==> #[trigger] numbered(self.found@).contains(x),
                forall|x: Element| #[trigger] numbered(self.found@).contains(x) ==> trace.coarse.found.contains(x) || high.contains(x),
                !self.written.widened ==> forall|x: Element| #[trigger] numbered(self.found@).contains(x) ==> trace.exact.found.contains(x) || low.contains(x),
                forall|m: int|
                    0 <= m < i && low.contains(
                        Element { id: group.id, index: #[trigger] group.candidates@[m] },
                    ) ==> numbered(self.found@).contains(
                        Element { id: group.id, index: group.candidates@[m] },
                    ),
            decreases group.candidates.len() - i,
        {
            let element = Element { id: group.id, index: group.candidates[i] };
            let ghost found0 = self.found@;
            let hit = self.written.overlaps(element, &mask);
            proof {
                assert(group.candidates@.contains(group.candidates@[i as int]));
                assert(group.holds(element));
                if hit {
                    let bit = choose|bit: int| #[trigger] mask.covers(bit) && self.written.bits().contains((element, bit));
                    written::lemma_mask_bits(mask, bit);
                    assert(group.bits(true).contains((element, bit)) && trace.coarse.written.contains((element, bit)));
                    assert(high.contains(element));
                    if !self.written.widened {
                        assert(group.bits(false).contains((element, bit)) && trace.exact.written.contains((element, bit)));
                        assert(low.contains(element));
                    }
                } else if low.contains(element) {
                    let bit = choose|bit: int| #[trigger] group.bits(false).contains((element, bit)) && trace.exact.written.contains((element, bit));
                    assert(mask.covers(bit) && self.written.bits().contains((element, bit)));
                }
            }
            if hit {
                self.found.insert(element.code());
                proof {
                    assert forall|x: Element| #[trigger] numbered(self.found@).contains(x) <==> numbered(found0).contains(x) || x == element by {
                        written::element_numbers_differ(x, element);
                    }
                }
            }
            i = i + 1;
        }
        proof {
            written::lemma_journals_refl(self.written);
            assert forall|x: Element| trace.exact.found.union(low).contains(x) implies #[trigger] numbered(self.found@).contains(x) by {
                if low.contains(x) {
                    let bit = choose|bit: int| #[trigger] group.bits(false).contains((x, bit)) && trace.exact.written.contains((x, bit));
                    let m = choose|m: int| 0 <= m < group.candidates@.len() && group.candidates@[m] == x.index;
                    assert(x == Element { id: group.id, index: group.candidates@[m] });
                }
            }
            if !self.written.widened {
                assert(numbered(self.found@) =~= trace.exact.found.union(low));
            }
        }
    }
}

/// The elements with bits in both sets.
spec fn overwritten(before: Set<(Element, int)>, bits: Set<(Element, int)>) -> Set<Element> {
    Set::new(|x: Element| exists|bit: int| #[trigger] bits.contains((x, bit)) && before.contains((x, bit)))
}

/// Writing a group keeps the walk between the exact and the coarse one.
proof fn lemma_between_write(start: Walk, end: Walk, group: DestinationGroup, trace: Trace)
    requires
        between(trace.exact.written, start.written.bits(), trace.coarse.written, start.written.widened),
        full(trace.coarse.written),
        start.written.widened ==> end.written.widened,
        start.written.bits().union(group.bits(false)).subset_of(end.written.bits()),
        forall|x: Element, bit: int| #[trigger]
            end.written.bits().contains((x, bit)) ==> start.written.bits().contains((x, bit))
                || group.bits(false).contains((x, bit)) || (end.written.widened
                && 0 <= bit <= usize::MAX && exists|other: int| #[trigger]
                start.written.bits().union(group.bits(false)).contains((x, other))),
    ensures
        between(
            trace.exact.written.union(group.bits(false)),
            end.written.bits(),
            trace.coarse.written.union(group.bits(true)),
            end.written.widened,
        ),
        full(trace.coarse.written.union(group.bits(true))),
{
    let low = trace.exact.written.union(group.bits(false));
    let high = trace.coarse.written.union(group.bits(true));
    assert forall|x: Element, a: int, b: int|
        #![trigger high.contains((x, a)), high.contains((x, b))]
        high.contains((x, a)) && 0 <= b <= usize::MAX implies high.contains((x, b)) by {
        if trace.coarse.written.contains((x, a)) {
            assert(trace.coarse.written.contains((x, b)));
        } else {
            assert(group.bits(true).contains((x, b)));
        }
    }
    assert forall|x: Element, bit: int| low.contains((x, bit)) implies #[trigger] end.written.bits().contains((x, bit)) by {
        if trace.exact.written.contains((x, bit)) {
            assert(start.written.bits().contains((x, bit)));
        }
        assert(start.written.bits().union(group.bits(false)).contains((x, bit)));
    }
    assert forall|x: Element, bit: int| #[trigger] end.written.bits().contains((x, bit)) implies high.contains((x, bit)) by {
        if start.written.bits().contains((x, bit)) {
        } else if group.bits(false).contains((x, bit)) {
            assert(group.bits(true).contains((x, bit)));
        } else {
            let other = choose|other: int| #[trigger] start.written.bits().union(group.bits(false)).contains((x, other));
            if start.written.bits().contains((x, other)) {
                assert(trace.coarse.written.contains((x, other)));
                assert(trace.coarse.written.contains((x, bit)));
            } else {
                assert(group.bits(true).contains((x, bit)));
            }
        }
    }
    if !end.written.widened {
        assert(end.written.bits() =~= low) by {
            assert forall|p: (Element, int)| end.written.bits().contains(p) <==> low.contains(p) by {
                assert(end.written.bits().contains((p.0, p.1)) ==> low.contains((p.0, p.1)));
                assert(low.contains((p.0, p.1)) ==> end.written.bits().contains((p.0, p.1)));
            }
        }
    }
}

/// Nothing that was written is forgotten.
spec fn grew(before: Trace, after: Trace) -> bool {
    &&& before.exact.written.subset_of(after.exact.written)
    &&& before.coarse.written.subset_of(after.coarse.written)
    &&& follows(before.exact.writes, after.exact.writes)
    &&& follows(before.coarse.writes, after.coarse.writes)
}

/// What the groups of a list have in common with the empty list of effects.
proof fn lemma_no_groups()
    ensures
        written::group_bits(Seq::empty(), false) == Set::<(Element, int)>::empty(),
        written::group_bits(Seq::empty(), true) == Set::<(Element, int)>::empty(),
{
    assert(written::group_bits(Seq::empty(), false) =~= Set::<(Element, int)>::empty());
    assert(written::group_bits(Seq::empty(), true) =~= Set::<(Element, int)>::empty());
}

/// The trace that stands where `trace` does, with effects that begin here.
spec fn fresh(trace: Trace) -> Trace {
    Trace { base: trace.exact.writes.len(), exact: trace.exact, coarse: trace.coarse }
}

proof fn lemma_fresh(walk: Walk, reads: Seq<DestinationGroup>, effects: Seq<DestinationGroup>, trace: Trace)
    requires
        tracks(walk, reads, effects, trace),
    ensures
        tracks(walk, reads, Seq::empty(), fresh(trace)),
{
    assert(written::marks_of(Seq::empty()) =~= trace.exact.writes.skip(trace.exact.writes.len() as int));
}

/// The bits follow from the shapes.
proof fn lemma_state_bits(a: Written, b: Written)
    requires
        a.state() == b.state(),
    ensures
        a.bits() == b.bits(),
{
    assert forall|p: (Element, int)| a.bits().contains(p) <==> b.bits().contains(p) by {
        let key = p.0.number();
        assert(a.state().contains_key(key) <==> a.current@.contains_key(key));
        assert(b.state().contains_key(key) <==> b.current@.contains_key(key));
        if a.current@.contains_key(key) && b.current@.contains_key(key) {
            assert(a.state()[key] == written::shape(a.current@[key]));
            assert(b.state()[key] == written::shape(b.current@[key]));
        }
    }
    assert(a.bits() =~= b.bits());
}

/// After rolling back to where `entry` stood, the walk is ready for the next alternative.
proof fn lemma_rolled_back(
    start: Walk,
    walked: Walk,
    now: Walk,
    effects: Seq<DestinationGroup>,
    branch: Seq<DestinationGroup>,
    entry: Trace,
    before: Trace,
)
    requires
        tracks(start, Seq::empty(), effects, entry),
        tracks(walked, Seq::empty(), branch, before),
        now.written.wf(),
        now.written.state() == start.written.state(),
        now.written.groups@ == start.written.groups@,
        now.written.widened == walked.written.widened,
        start.written.widened ==> walked.written.widened,
        now.found == walked.found,
    ensures
        tracks(
            now,
            Seq::empty(),
            effects,
            entry.to(
                write_count::alternative(entry.exact, before.exact),
                write_count::alternative(entry.coarse, before.coarse),
            ),
        ),
{
    lemma_state_bits(now.written, start.written);
    lemma_no_groups();
    assert(!written::crowds_in_turn(written::marks_of(Seq::empty())));
}

impl Walk {
    /// Walks an expression; its reads are noted, its side effects applied.
    fn expression(
        &mut self,
        expression: &Expression,
        targets: &Vec<DestinationGroup>,
        reads: &mut Vec<DestinationGroup>,
        effects: &mut Vec<DestinationGroup>,
        Ghost(trace): Ghost<Trace>,
    )
        requires
            tracks(*old(self), old(reads)@, old(effects)@, trace),
        ensures
            tracks(
                *final(self),
                final(reads)@,
                final(effects)@,
                trace.expression(*expression, group_elements(targets@)),
            ),
            final(self).written.journals(old(self).written),
            old(self).written.widened ==> final(self).written.widened,
            grew(trace, trace.expression(*expression, group_elements(targets@))),
        decreases expression,
    {
        let ghost start = *self;
        let ghost elements = group_elements(targets@);
        proof {
            written::lemma_journals_refl(self.written);
        }
        match expression {
            Expression::Value => {},
            Expression::Variable(access) => {
                self.expressions(&access.coordinates, targets, reads, effects, Ghost(trace));
                let ghost here = trace.expressions(access.coordinates@, elements);
                let ghost after = trace.expression(*expression, elements);
                let ghost reads0 = reads@;
                if let Some(location) = &access.location {
                    if let Some(group) = location_group(location) {
                        reads.push(group);
                        proof {
                            written::lemma_group_bits_push(reads0, group, false);
                            written::lemma_group_bits_push(reads0, group, true);
                            assert(reads@ =~= reads0.push(group));
                            written::lemma_marks_push(reads0, group);
                            lemma_marked_bits(reads0, false);
                            if written::crowds_in_turn(written::marks_of(reads@)) {
                                lemma_crowds_push(written::marks_of(reads0), group.mark());
                            }
                            assert(group.bits(false) == write_count::location_bits(*location, false));
                            assert(group.bits(true) == write_count::location_bits(*location, true));
                        }
                    } else {
                        proof {
                            assert(write_count::location_bits(*location, false) == Set::<(Element, int)>::empty());
                            assert(write_count::location_bits(*location, true) == Set::<(Element, int)>::empty());
                            assert(after.exact.reads =~= here.exact.reads);
                            assert(after.coarse.reads =~= here.coarse.reads);
                        }
                    }
                } else {
                    proof {
                        assert(after.exact.reads =~= here.exact.reads);
                        assert(after.coarse.reads =~= here.coarse.reads);
                    }
                }
            },
            Expression::Operands(operands) => {
                self.expressions(operands, targets, reads, effects, Ghost(trace));
            },
            Expression::Ternary(condition, yes, no) => {
                self.expression(condition, targets, reads, effects, Ghost(trace));
                let ghost asked = trace.expression(**condition, elements);
                let ghost walked0 = *self;
                self.flush(targets, reads, effects, Ghost(asked));
                let ghost decided = asked.flush(elements);
                let ghost entry = *self;
                let ghost effects0 = effects@;
                proof {
                    assert(reads@ =~= Seq::empty());
                    written::lemma_journals_trans(start.written, walked0.written, entry.written);
                    lemma_fresh(entry, Seq::empty(), effects0, decided);
                }
                let checkpoint = self.written.checkpoint();
                let mut branch: Vec<DestinationGroup> = Vec::new();
                proof {
                    assert(branch@ =~= Seq::empty());
                }
                self.expression(yes, targets, reads, &mut branch, Ghost(fresh(decided)));
                let ghost one = fresh(decided).expression(**yes, elements);
                let ghost walked1 = *self;
                self.flush(targets, reads, &branch, Ghost(one));
                let ghost first = one.flush(elements);
                let ghost walked2 = *self;
                proof {
                    assert(reads@ =~= Seq::empty());
                    written::lemma_journals_trans(entry.written, walked1.written, walked2.written);
                }
                self.written.rollback(checkpoint, Ghost(entry.written));
                let ghost next = decided.to(
                    write_count::alternative(decided.exact, first.exact),
                    write_count::alternative(decided.coarse, first.coarse),
                );
                let ghost rolled = *self;
                proof {
                    lemma_rolled_back(entry, walked2, *self, effects0, branch@, decided, first);
                    lemma_rolled_journal(start.written, entry.written, self.written);
                }
                self.expression(no, targets, reads, effects, Ghost(next));
                let ghost two = next.expression(**no, elements);
                let ghost walked3 = *self;
                self.flush(targets, reads, effects, Ghost(two));
                let ghost second = two.flush(elements);
                let ghost walked4 = *self;
                proof {
                    assert(reads@ =~= Seq::empty());
                    written::lemma_journals_trans(start.written, rolled.written, walked3.written);
                    written::lemma_journals_trans(start.written, walked3.written, walked4.written);
                }
                self.write_groups(&branch, effects, Ghost(Seq::empty()), Ghost(second));
                proof {
                    written::lemma_journals_trans(start.written, walked4.written, self.written);
                    let after = second.write_all(written::marks_of(branch@));
                    let want = trace.expression(*expression, elements);
                    lemma_wrote(second.exact, written::marks_of(branch@), false);
                    lemma_wrote(second.coarse, written::marks_of(branch@), true);
                    lemma_no_groups();
                    assert(want == after);
                    assert(reads@ =~= Seq::empty());
                }
            },
            Expression::FunctionCall(call) => {
                self.call(call, targets, reads, effects, Ghost(trace));
            },
        }
    }

    /// Walks expressions in order.
    fn expressions(
        &mut self,
        expressions: &Vec<Expression>,
        targets: &Vec<DestinationGroup>,
        reads: &mut Vec<DestinationGroup>,
        effects: &mut Vec<DestinationGroup>,
        Ghost(trace): Ghost<Trace>,
    )
        requires
            tracks(*old(self), old(reads)@, old(effects)@, trace),
        ensures
            tracks(
                *final(self),
                final(reads)@,
                final(effects)@,
                trace.expressions(expressions@, group_elements(targets@)),
            ),
            final(self).written.journals(old(self).written),
            old(self).written.widened ==> final(self).written.widened,
            grew(trace, trace.expressions(expressions@, group_elements(targets@))),
        decreases expressions,
    {
        let ghost start = *self;
        let ghost elements = group_elements(targets@);
        proof {
            written::lemma_journals_refl(self.written);
        }
        let mut i: usize = 0;
        while i < expressions.len()
            invariant
                i <= expressions.len(),
                start == *old(self),
                elements == group_elements(targets@),
                tracks(*self, reads@, effects@, trace.expressions(expressions@.take(i as int), elements)),
                self.written.journals(start.written),
                start.written.widened ==> self.written.widened,
                grew(trace, trace.expressions(expressions@.take(i as int), elements)),
            decreases expressions.len() - i,
        {
            let ghost before = *self;
            let ghost here = trace.expressions(expressions@.take(i as int), elements);
            let ghost next = trace.expressions(expressions@.take(i as int + 1), elements);
            proof {
                assert(expressions@.take(i as int + 1).drop_last() =~= expressions@.take(i as int));
                assert(expressions@.take(i as int + 1).last() == expressions@[i as int]);
                assert(next == here.expression(expressions@[i as int], elements));
            }
            self.expression(&expressions[i], targets, reads, effects, Ghost(here));
            proof {
                written::lemma_journals_trans(start.written, before.written, self.written);
            }
            i = i + 1;
        }
        assert(expressions@.take(i as int) =~= expressions@);
    }

    /// Walks a call: inputs, output coordinates, then the outputs are copied back.
    fn call(
        &mut self,
        call: &Call,
        targets: &Vec<DestinationGroup>,
        reads: &mut Vec<DestinationGroup>,
        effects: &mut Vec<DestinationGroup>,
        Ghost(trace): Ghost<Trace>,
    )
        requires
            tracks(*old(self), old(reads)@, old(effects)@, trace),
        ensures
            tracks(
                *final(self),
                final(reads)@,
                final(effects)@,
                trace.call(*call, group_elements(targets@)),
            ),
            final(self).written.journals(old(self).written),
            old(self).written.widened ==> final(self).written.widened,
            grew(trace, trace.call(*call, group_elements(targets@))),
            final(reads)@.len() == 0,
        decreases call,
    {
        let ghost start = *self;
        let ghost elements = group_elements(targets@);
        self.expressions(&call.inputs, targets, reads, effects, Ghost(trace));
        let ghost one = trace.expressions(call.inputs@, elements);
        let ghost walked1 = *self;
        self.coordinates(&call.outputs, targets, reads, effects, Ghost(one));
        let ghost two = one.coordinates(call.outputs@, elements);
        let ghost walked2 = *self;
        self.flush(targets, reads, effects, Ghost(two));
        let ghost three = two.flush(elements);
        let ghost walked3 = *self;
        assert(reads@ =~= Seq::empty());
        self.apply_outputs(&call.outputs, effects, Ghost(three));
        proof {
            written::lemma_journals_trans(start.written, walked1.written, walked2.written);
            written::lemma_journals_trans(start.written, walked2.written, walked3.written);
            written::lemma_journals_trans(start.written, walked3.written, self.written);
            lemma_copied_back_grows(call.outputs@, false, three.exact);
            lemma_copied_back_grows(call.outputs@, true, three.coarse);
        }
    }

    /// Walks the coordinates of accesses in order.
    fn coordinates(
        &mut self,
        accesses: &Vec<Access>,
        targets: &Vec<DestinationGroup>,
        reads: &mut Vec<DestinationGroup>,
        effects: &mut Vec<DestinationGroup>,
        Ghost(trace): Ghost<Trace>,
    )
        requires
            tracks(*old(self), old(reads)@, old(effects)@, trace),
        ensures
            tracks(
                *final(self),
                final(reads)@,
                final(effects)@,
                trace.coordinates(accesses@, group_elements(targets@)),
            ),
            final(self).written.journals(old(self).written),
            old(self).written.widened ==> final(self).written.widened,
            grew(trace, trace.coordinates(accesses@, group_elements(targets@))),
        decreases accesses,
    {
        let ghost start = *self;
        let ghost elements = group_elements(targets@);
        proof {
            written::lemma_journals_refl(self.written);
        }
        let mut i: usize = 0;
        while i < accesses.len()
            invariant
                i <= accesses.len(),
                start == *old(self),
                elements == group_elements(targets@),
                tracks(*self, reads@, effects@, trace.coordinates(accesses@.take(i as int), elements)),
                self.written.journals(start.written),
                start.written.widened ==> self.written.widened,
                grew(trace, trace.coordinates(accesses@.take(i as int), elements)),
            decreases accesses.len() - i,
        {
            let ghost before = *self;
            let ghost here = trace.coordinates(accesses@.take(i as int), elements);
            let ghost next = trace.coordinates(accesses@.take(i as int + 1), elements);
            proof {
                assert(accesses@.take(i as int + 1).drop_last() =~= accesses@.take(i as int));
                assert(accesses@.take(i as int + 1).last() == accesses@[i as int]);
                assert(next == here.expressions(accesses@[i as int].coordinates@, elements));
            }
            self.expressions(&accesses[i].coordinates, targets, reads, effects, Ghost(here));
            proof {
                written::lemma_journals_trans(start.written, before.written, self.written);
            }
            i = i + 1;
        }
        assert(accesses@.take(i as int) =~= accesses@);
    }
}

proof fn lemma_copied_back_grows(outputs: Seq<Access>, coarse: bool, seen: Seen)
    ensures
        seen.written.subset_of(write_count::copied_back(outputs, coarse, seen).written),
        follows(seen.writes, write_count::copied_back(outputs, coarse, seen).writes),
    decreases outputs.len(),
{
    if outputs.len() > 0 {
        lemma_copied_back_grows(outputs.drop_last(), coarse, seen);
        lemma_wrote(write_count::copied_back(outputs.drop_last(), coarse, seen), write_count::write_marks(outputs.last()), coarse);
    }
}

/// A walk that was rolled back to `entry` can still be rolled back to `start`.
proof fn lemma_rolled_journal(start: Written, entry: Written, now: Written)
    requires
        entry.journals(start),
        now.state() == entry.state(),
        now.undo@ == entry.undo@,
        now.groups@ == entry.groups@,
    ensures
        now.journals(start),
{
}

/// The list has gained exactly the given groups.
spec fn gained(before: Seq<DestinationGroup>, after: Seq<DestinationGroup>, marks: Seq<Mark>) -> bool {
    written::marks_of(after) == written::marks_of(before) + marks
}

proof fn lemma_gained_nothing(list: Seq<DestinationGroup>)
    ensures
        gained(list, list, Seq::empty()),
{
    assert(written::marks_of(list) + Seq::<Mark>::empty() =~= written::marks_of(list));
}

proof fn lemma_gained_trans(a: Seq<DestinationGroup>, b: Seq<DestinationGroup>, c: Seq<DestinationGroup>, one: Seq<Mark>, two: Seq<Mark>)
    requires
        gained(a, b, one),
        gained(b, c, two),
    ensures
        gained(a, c, one + two),
{
    assert(written::marks_of(a) + one + two =~= written::marks_of(a) + (one + two));
}

/// Collects everything that an expression may write.
fn collect_expression_writes(expression: &Expression, out: &mut Vec<DestinationGroup>)
    ensures
        gained(old(out)@, final(out)@, write_count::expression_marks(*expression)),
    decreases expression,
{
    let ghost a = out@;
    proof {
        lemma_gained_nothing(a);
    }
    match expression {
        Expression::Value => {},
        Expression::Variable(_) => {},
        Expression::Operands(operands) => {
            collect_expressions_writes(operands, out);
        },
        Expression::Ternary(condition, yes, no) => {
            collect_expression_writes(condition, out);
            let ghost b = out@;
            collect_expression_writes(yes, out);
            let ghost c = out@;
            collect_expression_writes(no, out);
            proof {
                let (one, two, three) = (
                    write_count::expression_marks(**condition),
                    write_count::expression_marks(**yes),
                    write_count::expression_marks(**no),
                );
                lemma_gained_trans(a, b, c, one, two);
                lemma_gained_trans(a, c, out@, one + two, three);
            }
        },
        Expression::FunctionCall(call) => {
            collect_call_writes(call, out);
        },
    }
}

fn collect_expressions_writes(expressions: &Vec<Expression>, out: &mut Vec<DestinationGroup>)
    ensures
        gained(old(out)@, final(out)@, write_count::expressions_marks(expressions@)),
    decreases expressions,
{
    let ghost a = out@;
    proof {
        lemma_gained_nothing(a);
    }
    let mut i: usize = 0;
    while i < expressions.len()
        invariant
            i <= expressions.len(),
            a == old(out)@,
            gained(a, out@, write_count::expressions_marks(expressions@.take(i as int))),
        decreases expressions.len() - i,
    {
        let ghost b = out@;
        collect_expression_writes(&expressions[i], out);
        proof {
            let taken = expressions@.take(i as int);
            let longer = expressions@.take(i as int + 1);
            assert(longer.drop_last() =~= taken);
            assert(longer.last() == expressions@[i as int]);
            lemma_gained_trans(a, b, out@, write_count::expressions_marks(taken), write_count::expression_marks(expressions@[i as int]));
        }
        i = i + 1;
    }
    assert(expressions@.take(i as int) =~= expressions@);
}

fn collect_call_writes(call: &Call, out: &mut Vec<DestinationGroup>)
    ensures
        gained(old(out)@, final(out)@, write_count::call_marks(*call)),
    decreases call,
{
    let ghost a = out@;
    collect_expressions_writes(&call.inputs, out);
    let ghost b = out@;
    collect_accesses_writes(&call.outputs, out);
    proof {
        lemma_gained_trans(a, b, out@, write_count::expressions_marks(call.inputs@), write_count::accesses_marks(call.outputs@));
    }
}

fn collect_accesses_writes(accesses: &Vec<Access>, out: &mut Vec<DestinationGroup>)
    ensures
        gained(old(out)@, final(out)@, write_count::accesses_marks(accesses@)),
    decreases accesses,
{
    let ghost a = out@;
    proof {
        lemma_gained_nothing(a);
    }
    let mut i: usize = 0;
    while i < accesses.len()
        invariant
            i <= accesses.len(),
            a == old(out)@,
            gained(a, out@, write_count::accesses_marks(accesses@.take(i as int))),
        decreases accesses.len() - i,
    {
        let ghost b = out@;
        collect_expressions_writes(&accesses[i].coordinates, out);
        let ghost c = out@;
        let ghost access = accesses@[i as int];
        match written_group(&accesses[i]) {
            Some(group) => {
                out.push(group);
                proof {
                    written::lemma_marks_push(c, group);
                    assert(out@ =~= c.push(group));
                    assert(written::marks_of(c).push(group.mark()) =~= written::marks_of(c) + seq![group.mark()]);
                }
            },
            None => {
                proof {
                    lemma_gained_nothing(c);
                }
            },
        }
        proof {
            let taken = accesses@.take(i as int);
            let longer = accesses@.take(i as int + 1);
            assert(longer.drop_last() =~= taken);
            assert(longer.last() == access);
            let (one, two) = (write_count::accesses_marks(taken), write_count::expressions_marks(access.coordinates@));
            lemma_gained_trans(a, b, c, one, two);
            lemma_gained_trans(a, c, out@, one + two, write_count::write_marks(access));
        }
        i = i + 1;
    }
    assert(accesses@.take(i as int) =~= accesses@);
}

/// Collects everything that a statement may write.
fn collect_statement_writes(statement: &Statement, out: &mut Vec<DestinationGroup>)
    ensures
        gained(old(out)@, final(out)@, write_count::statement_marks(*statement)),
    decreases statement,
{
    let ghost a = out@;
    proof {
        lemma_gained_nothing(a);
    }
    match statement {
        Statement::Assign { expression, destinations } => {
            collect_expression_writes(expression, out);
            let ghost b = out@;
            collect_accesses_writes(destinations, out);
            proof {
                lemma_gained_trans(a, b, out@, write_count::expression_marks(*expression), write_count::accesses_marks(destinations@));
            }
        },
        Statement::If { condition, yes, no } => {
            collect_expression_writes(condition, out);
            let ghost b = out@;
            collect_writes(yes, out);
            let ghost c = out@;
            collect_writes(no, out);
            proof {
                let (one, two) = (write_count::expression_marks(*condition), write_count::block_marks(yes@));
                lemma_gained_trans(a, b, c, one, two);
                lemma_gained_trans(a, c, out@, one + two, write_count::block_marks(no@));
            }
        },
        Statement::IfReset { yes, no } => {
            collect_writes(yes, out);
            let ghost b = out@;
            collect_writes(no, out);
            proof {
                lemma_gained_trans(a, b, out@, write_count::block_marks(yes@), write_count::block_marks(no@));
            }
        },
        Statement::Case { target, arms, default } => {
            collect_expression_writes(target, out);
            let ghost b = out@;
            collect_blocks_writes(arms, out);
            let ghost c = out@;
            collect_writes(default, out);
            proof {
                let (one, two) = (write_count::expression_marks(*target), write_count::blocks_marks(arms@));
                lemma_gained_trans(a, b, c, one, two);
                lemma_gained_trans(a, c, out@, one + two, write_count::block_marks(default@));
            }
        },
        Statement::For { body, .. } => {
            collect_writes(body, out);
        },
        Statement::FunctionCall(call) => {
            collect_call_writes(call, out);
        },
        Statement::Other => {},
    }
}

/// Everything that the statements may write, in the order in which it is written down.
fn collect_writes(statements: &Vec<Statement>, out: &mut Vec<DestinationGroup>)
    ensures
        gained(old(out)@, final(out)@, write_count::block_marks(statements@)),
    decreases statements,
{
    let ghost a = out@;
    proof {
        lemma_gained_nothing(a);
    }
    let mut i: usize = 0;
    while i < statements.len()
        invariant
            i <= statements.len(),
            a == old(out)@,
            gained(a, out@, write_count::block_marks(statements@.take(i as int))),
        decreases statements.len() - i,
    {
        let ghost b = out@;
        collect_statement_writes(&statements[i], out);
        proof {
            let taken = statements@.take(i as int);
            let longer = statements@.take(i as int + 1);
            assert(longer.drop_last() =~= taken);
            assert(longer.last() == statements@[i as int]);
            lemma_gained_trans(a, b, out@, write_count::block_marks(taken), write_count::statement_marks(statements@[i as int]));
        }
        i = i + 1;
    }
    assert(statements@.take(i as int) =~= statements@);
}

fn collect_blocks_writes(blocks: &Vec<Vec<Statement>>, out: &mut Vec<DestinationGroup>)
    ensures
        gained(old(out)@, final(out)@, write_count::blocks_marks(blocks@)),
    decreases blocks,
{
    let ghost a = out@;
    proof {
        lemma_gained_nothing(a);
    }
    let mut i: usize = 0;
    while i < blocks.len()
        invariant
            i <= blocks.len(),
            a == old(out)@,
            gained(a, out@, write_count::blocks_marks(blocks@.take(i as int))),
        decreases blocks.len() - i,
    {
        let ghost b = out@;
        collect_writes(&blocks[i], out);
        proof {
            let taken = blocks@.take(i as int);
            let longer = blocks@.take(i as int + 1);
            assert(longer.drop_last() =~= taken);
            assert(longer.last() == blocks@[i as int]);
            lemma_gained_trans(a, b, out@, write_count::blocks_marks(taken), write_count::block_marks(blocks@[i as int]@));
        }
        i = i + 1;
    }
    assert(blocks@.take(i as int) =~= blocks@);
}

/// The alternatives walked so far: `joined` lists what they write beyond `entry`.
spec fn gathers(entry: Trace, joined: Seq<DestinationGroup>, before: Trace) -> bool {
    &&& follows(entry.exact.writes, before.exact.writes)
    &&& follows(entry.coarse.writes, before.coarse.writes)
    &&& written::marks_of(joined) == write_count::own_writes(entry.exact, before.exact)
    &&& written::marks_of(joined) == write_count::own_writes(entry.coarse, before.coarse)
    &&& before.exact.reads == Set::<(Element, int)>::empty()
    &&& before.coarse.reads == Set::<(Element, int)>::empty()
}

impl Trace {
    /// Alternatives from `self`: `before` stands for those walked so far, and one more is added.
    spec fn branch(self, before: Trace, statements: Seq<Statement>, preapplied: bool) -> Self {
        self.to(
            write_count::gathered(
                self.exact,
                before.exact,
                write_count::block_seen(statements, preapplied, false, write_count::alternative(self.exact, before.exact)),
            ),
            write_count::gathered(
                self.coarse,
                before.coarse,
                write_count::block_seen(statements, preapplied, true, write_count::alternative(self.coarse, before.coarse)),
            ),
        )
    }

    /// The last alternative from `self`, together with those walked before.
    spec fn last_branch(self, before: Trace, statements: Seq<Statement>, preapplied: bool) -> Self {
        self.to(
            write_count::joined(
                self.exact,
                before.exact,
                write_count::block_seen(statements, preapplied, false, write_count::alternative(self.exact, before.exact)),
                false,
            ),
            write_count::joined(
                self.coarse,
                before.coarse,
                write_count::block_seen(statements, preapplied, true, write_count::alternative(self.coarse, before.coarse)),
                true,
            ),
        )
    }

    /// The entry of the next alternative after those that `before` stands for.
    spec fn reentered(self, before: Trace) -> Self {
        self.to(
            write_count::alternative(self.exact, before.exact),
            write_count::alternative(self.coarse, before.coarse),
        )
    }
}

impl Walk {
    /// Walks one alternative and takes its writes back; they are noted in `joined`.
    fn branch(
        &mut self,
        statements: &Vec<Statement>,
        preapplied: bool,
        joined: &mut Vec<DestinationGroup>,
        Ghost(effects): Ghost<Seq<DestinationGroup>>,
        Ghost(entry): Ghost<Trace>,
        Ghost(before): Ghost<Trace>,
    )
        requires
            tracks(*old(self), Seq::empty(), effects, entry.reentered(before)),
            gathers(entry, old(joined)@, before),
        ensures
            tracks(
                *final(self),
                Seq::empty(),
                effects,
                entry.reentered(entry.branch(before, statements@, preapplied)),
            ),
            gathers(entry, final(joined)@, entry.branch(before, statements@, preapplied)),
            grew(entry.reentered(before), entry.reentered(before).block(statements@, preapplied)),
            entry.reentered(before).block(statements@, preapplied).exact.reads == Set::<
                (Element, int),
            >::empty(),
            entry.reentered(before).block(statements@, preapplied).coarse.reads == Set::<
                (Element, int),
            >::empty(),
            final(self).written.journals(old(self).written),
            old(self).written.widened ==> final(self).written.widened,
        decreases statements, 1int,
    {
        let ghost start = *self;
        let ghost here = entry.reentered(before);
        let ghost joined0 = joined@;
        proof {
            lemma_fresh(start, Seq::empty(), effects, here);
        }
        let checkpoint = self.written.checkpoint();
        let mut own: Vec<DestinationGroup> = Vec::new();
        assert(own@ =~= Seq::empty());
        self.block(statements, preapplied, &mut own, Ghost(fresh(here)));
        let ghost walked = *self;
        let ghost after = fresh(here).block(statements@, preapplied);
        self.written.rollback(checkpoint, Ghost(start.written));
        proof {
            lemma_rolled_back(start, walked, *self, effects, own@, here, after);
            written::lemma_journals_refl(start.written);
            lemma_rolled_journal(start.written, start.written, self.written);
        }
        append_groups(joined, &own);
        proof {
            let next = entry.branch(before, statements@, preapplied);
            lemma_no_groups();
            assert(here.exact.writes == entry.exact.writes && here.coarse.writes == entry.coarse.writes);
            assert(write_count::own_writes(entry.exact, next.exact) =~= write_count::own_writes(entry.exact, before.exact) + write_count::own_writes(
                entry.exact,
                after.exact,
            ));
            assert(write_count::own_writes(entry.coarse, next.coarse) =~= write_count::own_writes(entry.coarse, before.coarse) + write_count::own_writes(
                entry.coarse,
                after.coarse,
            ));
            assert(follows(entry.exact.writes, next.exact.writes)) by {
                assert(next.exact.writes.take(entry.exact.writes.len() as int) =~= before.exact.writes.take(entry.exact.writes.len() as int));
            }
            assert(follows(entry.coarse.writes, next.coarse.writes)) by {
                assert(next.coarse.writes.take(entry.coarse.writes.len() as int) =~= before.coarse.writes.take(entry.coarse.writes.len() as int));
            }
            assert(entry.reentered(next) == here.to(
                write_count::alternative(here.exact, after.exact),
                write_count::alternative(here.coarse, after.coarse),
            ));
        }
    }

    /// Walks the last alternative in place and adds what the others write.
    fn last_branch(
        &mut self,
        statements: &Vec<Statement>,
        preapplied: bool,
        joined: &Vec<DestinationGroup>,
        effects: &mut Vec<DestinationGroup>,
        Ghost(entry): Ghost<Trace>,
        Ghost(before): Ghost<Trace>,
    )
        requires
            tracks(*old(self), Seq::empty(), old(effects)@, entry.reentered(before)),
            gathers(entry, joined@, before),
        ensures
            tracks(
                *final(self),
                Seq::empty(),
                final(effects)@,
                entry.last_branch(before, statements@, preapplied),
            ),
            final(self).written.journals(old(self).written),
            old(self).written.widened ==> final(self).written.widened,
            grew(entry, entry.last_branch(before, statements@, preapplied)),
        decreases statements, 1int,
    {
        let ghost start = *self;
        let ghost here = entry.reentered(before);
        self.block(statements, preapplied, effects, Ghost(here));
        let ghost walked = *self;
        let ghost after = here.block(statements@, preapplied);
        self.write_groups(joined, effects, Ghost(Seq::empty()), Ghost(after));
        proof {
            written::lemma_journals_trans(start.written, walked.written, self.written);
            lemma_no_groups();
            let marks = written::marks_of(joined@);
            let got = after.write_all(marks);
            let want = entry.last_branch(before, statements@, preapplied);
            lemma_wrote(after.exact, marks, false);
            lemma_wrote(after.coarse, marks, true);
            assert(got == want);
            assert(follows(entry.exact.writes, got.exact.writes)) by {
                assert(got.exact.writes.take(entry.exact.writes.len() as int) =~= after.exact.writes.take(entry.exact.writes.len() as int));
            }
            assert(follows(entry.coarse.writes, got.coarse.writes)) by {
                assert(got.coarse.writes.take(entry.coarse.writes.len() as int) =~= after.coarse.writes.take(entry.coarse.writes.len() as int));
            }
        }
    }

    /// Walks the statements of a block in order.
    fn block(
        &mut self,
        statements: &Vec<Statement>,
        preapplied: bool,
        effects: &mut Vec<DestinationGroup>,
        Ghost(trace): Ghost<Trace>,
    )
        requires
            tracks(*old(self), Seq::empty(), old(effects)@, trace),
        ensures
            tracks(*final(self), Seq::empty(), final(effects)@, trace.block(statements@, preapplied)),
            final(self).written.journals(old(self).written),
            old(self).written.widened ==> final(self).written.widened,
            grew(trace, trace.block(statements@, preapplied)),
        decreases statements, 0int,
    {
        let ghost start = *self;
        proof {
            written::lemma_journals_refl(self.written);
        }
        let mut i: usize = 0;
        while i < statements.len()
            invariant
                i <= statements.len(),
                start == *old(self),
                tracks(*self, Seq::empty(), effects@, trace.block(statements@.take(i as int), preapplied)),
                self.written.journals(start.written),
                start.written.widened ==> self.written.widened,
                grew(trace, trace.block(statements@.take(i as int), preapplied)),
            decreases statements.len() - i,
        {
            let ghost before = *self;
            let ghost here = trace.block(statements@.take(i as int), preapplied);
            proof {
                assert(statements@.take(i as int + 1).drop_last() =~= statements@.take(i as int));
                assert(statements@.take(i as int + 1).last() == statements@[i as int]);
                assert(trace.block(statements@.take(i as int + 1), preapplied) == here.statement(statements@[i as int], preapplied));
            }
            self.statement(&statements[i], preapplied, effects, Ghost(here));
            proof {
                written::lemma_journals_trans(start.written, before.written, self.written);
            }
            i = i + 1;
        }
        assert(statements@.take(i as int) =~= statements@);
    }

    /// Walks one statement.
    fn statement(
        &mut self,
        statement: &Statement,
        preapplied: bool,
        effects: &mut Vec<DestinationGroup>,
        Ghost(trace): Ghost<Trace>,
    )
        requires
            tracks(*old(self), Seq::empty(), old(effects)@, trace),
        ensures
            tracks(*final(self), Seq::empty(), final(effects)@, trace.statement(*statement, preapplied)),
            final(self).written.journals(old(self).written),
            old(self).written.widened ==> final(self).written.widened,
            grew(trace, trace.statement(*statement, preapplied)),
        decreases statement, 0int,
    {
        let ghost start = *self;
        let mut reads: Vec<DestinationGroup> = Vec::new();
        let none: Vec<DestinationGroup> = Vec::new();
        proof {
            written::lemma_journals_refl(self.written);
            lemma_no_groups();
            assert(reads@ =~= Seq::empty());
            assert(group_elements(none@) =~= Set::<Element>::empty());
        }
        match statement {
            Statement::Assign { expression, destinations } => {
                let groups = written_groups(destinations);
                let ghost elements = group_elements(groups@);
                self.expression(expression, &groups, &mut reads, effects, Ghost(trace));
                let ghost one = trace.expression(*expression, elements);
                let ghost walked1 = *self;
                self.flush(&groups, &mut reads, effects, Ghost(one));
                let ghost two = one.flush(elements);
                let ghost walked2 = *self;
                self.coordinates(destinations, &none, &mut reads, effects, Ghost(two));
                let ghost three = two.coordinates(destinations@, Set::empty());
                let ghost walked3 = *self;
                self.flush(&none, &mut reads, effects, Ghost(three));
                let ghost four = three.flush(Set::empty());
                let ghost walked4 = *self;
                assert(reads@ =~= Seq::empty());
                self.write_groups(&groups, effects, Ghost(Seq::empty()), Ghost(four));
                proof {
                    written::lemma_journals_trans(start.written, walked1.written, walked2.written);
                    written::lemma_journals_trans(start.written, walked2.written, walked3.written);
                    written::lemma_journals_trans(start.written, walked3.written, walked4.written);
                    written::lemma_journals_trans(start.written, walked4.written, self.written);
                    let got = four.write_all(written::marks_of(groups@));
                    lemma_wrote(four.exact, written::marks_of(groups@), false);
                    lemma_wrote(four.coarse, written::marks_of(groups@), true);
                    assert(got == trace.statement(*statement, preapplied));
                }
            },
            Statement::If { condition, yes, no } => {
                self.expression(condition, &none, &mut reads, effects, Ghost(trace));
                let ghost one = trace.expression(*condition, Set::empty());
                let ghost walked1 = *self;
                self.flush(&none, &mut reads, effects, Ghost(one));
                let ghost decided = one.flush(Set::empty());
                let ghost walked2 = *self;
                assert(reads@ =~= Seq::empty());
                let mut joined: Vec<DestinationGroup> = Vec::new();
                proof {
                    assert(joined@ =~= Seq::empty());
                    lemma_first_alternative(walked2, effects@, decided);
                }
                self.branch(yes, preapplied, &mut joined, Ghost(effects@), Ghost(decided), Ghost(decided));
                let ghost walked3 = *self;
                proof {
                    lemma_one_alternative(decided, yes@, preapplied);
                }
                self.last_branch(no, preapplied, &joined, effects, Ghost(decided), Ghost(decided.block(yes@, preapplied)));
                proof {
                    written::lemma_journals_trans(start.written, walked1.written, walked2.written);
                    written::lemma_journals_trans(start.written, walked2.written, walked3.written);
                    written::lemma_journals_trans(start.written, walked3.written, self.written);
                }
            },
            Statement::IfReset { yes, no } => {
                let mut joined: Vec<DestinationGroup> = Vec::new();
                proof {
                    assert(joined@ =~= Seq::empty());
                    lemma_first_alternative(start, effects@, trace);
                }
                self.branch(yes, preapplied, &mut joined, Ghost(effects@), Ghost(trace), Ghost(trace));
                let ghost walked1 = *self;
                proof {
                    lemma_one_alternative(trace, yes@, preapplied);
                }
                self.last_branch(no, preapplied, &joined, effects, Ghost(trace), Ghost(trace.block(yes@, preapplied)));
                proof {
                    written::lemma_journals_trans(start.written, walked1.written, self.written);
                }
            },
            Statement::Case { target, arms, default } => {
                self.expression(target, &none, &mut reads, effects, Ghost(trace));
                let ghost one = trace.expression(*target, Set::empty());
                let ghost walked1 = *self;
                self.flush(&none, &mut reads, effects, Ghost(one));
                let ghost decided = one.flush(Set::empty());
                let ghost walked2 = *self;
                assert(reads@ =~= Seq::empty());
                let mut joined: Vec<DestinationGroup> = Vec::new();
                proof {
                    assert(joined@ =~= Seq::empty());
                    written::lemma_journals_trans(start.written, walked1.written, walked2.written);
                }
                self.arms(arms, preapplied, &mut joined, Ghost(effects@), Ghost(decided));
                let ghost chosen = decided.to(
                    write_count::arms_seen(arms@, preapplied, false, decided.exact),
                    write_count::arms_seen(arms@, preapplied, true, decided.coarse),
                );
                let ghost walked3 = *self;
                self.last_branch(default, preapplied, &joined, effects, Ghost(decided), Ghost(chosen));
                proof {
                    written::lemma_journals_trans(start.written, walked2.written, walked3.written);
                    written::lemma_journals_trans(start.written, walked3.written, self.written);
                }
            },
            Statement::For { body, iterations } => {
                match iterations {
                    Some(bodies) => {
                        self.iterations(bodies, preapplied, effects, Ghost(trace));
                    },
                    None => {
                        let ghost mut begun = trace;
                        if !preapplied {
                            let mut groups: Vec<DestinationGroup> = Vec::new();
                            assert(groups@ =~= Seq::empty());
                            collect_writes(body, &mut groups);
                            self.write_groups(&groups, effects, Ghost(Seq::empty()), Ghost(trace));
                            proof {
                                begun = trace.write_all(written::marks_of(groups@));
                                assert(written::marks_of(groups@) =~= write_count::block_marks(body@));
                                lemma_wrote(trace.exact, written::marks_of(groups@), false);
                                lemma_wrote(trace.coarse, written::marks_of(groups@), true);
                            }
                        }
                        let ghost walked1 = *self;
                        self.block(body, true, effects, Ghost(begun));
                        proof {
                            written::lemma_journals_trans(start.written, walked1.written, self.written);
                        }
                    },
                }
            },
            Statement::FunctionCall(call) => {
                self.call(call, &none, &mut reads, effects, Ghost(trace));
                let ghost one = trace.call(*call, Set::empty());
                let ghost walked1 = *self;
                self.flush(&none, &mut reads, effects, Ghost(one));
                proof {
                    assert(reads@ =~= Seq::empty());
                    written::lemma_journals_trans(start.written, walked1.written, self.written);
                }
            },
            Statement::Other => {},
        }
    }

    /// Walks the arms of a case; what they write is noted in `joined` and taken back.
    fn arms(
        &mut self,
        arms: &Vec<Vec<Statement>>,
        preapplied: bool,
        joined: &mut Vec<DestinationGroup>,
        Ghost(effects): Ghost<Seq<DestinationGroup>>,
        Ghost(entry): Ghost<Trace>,
    )
        requires
            tracks(*old(self), Seq::empty(), effects, entry),
            old(joined)@ == Seq::<DestinationGroup>::empty(),
        ensures
            tracks(*final(self), Seq::empty(), effects, entry.reentered(entry.arms(arms@, preapplied))),
            gathers(entry, final(joined)@, entry.arms(arms@, preapplied)),
            final(self).written.journals(old(self).written),
            old(self).written.widened ==> final(self).written.widened,
        decreases arms, 0int,
    {
        let ghost start = *self;
        proof {
            written::lemma_journals_refl(self.written);
            lemma_first_alternative(start, effects, entry);
        }
        let mut i: usize = 0;
        while i < arms.len()
            invariant
                i <= arms.len(),
                start == *old(self),
                tracks(*self, Seq::empty(), effects, entry.reentered(entry.arms(arms@.take(i as int), preapplied))),
                gathers(entry, joined@, entry.arms(arms@.take(i as int), preapplied)),
                self.written.journals(start.written),
                start.written.widened ==> self.written.widened,
            decreases arms.len() - i,
        {
            let ghost before = *self;
            let ghost here = entry.arms(arms@.take(i as int), preapplied);
            proof {
                assert(arms@.take(i as int + 1).drop_last() =~= arms@.take(i as int));
                assert(arms@.take(i as int + 1).last() == arms@[i as int]);
                assert(entry.arms(arms@.take(i as int + 1), preapplied) == entry.branch(here, arms@[i as int]@, preapplied));
            }
            self.branch(&arms[i], preapplied, joined, Ghost(effects), Ghost(entry), Ghost(here));
            proof {
                written::lemma_journals_trans(start.written, before.written, self.written);
            }
            i = i + 1;
        }
        assert(arms@.take(i as int) =~= arms@);
    }

    /// Walks iterations one after the other.
    fn iterations(
        &mut self,
        bodies: &Vec<Vec<Statement>>,
        preapplied: bool,
        effects: &mut Vec<DestinationGroup>,
        Ghost(trace): Ghost<Trace>,
    )
        requires
            tracks(*old(self), Seq::empty(), old(effects)@, trace),
        ensures
            tracks(*final(self), Seq::empty(), final(effects)@, trace.iterations(bodies@, preapplied)),
            final(self).written.journals(old(self).written),
            old(self).written.widened ==> final(self).written.widened,
            grew(trace, trace.iterations(bodies@, preapplied)),
        decreases bodies, 0int,
    {
        let ghost start = *self;
        proof {
            written::lemma_journals_refl(self.written);
        }
        let mut i: usize = 0;
        while i < bodies.len()
            invariant
                i <= bodies.len(),
                start == *old(self),
                tracks(*self, Seq::empty(), effects@, trace.iterations(bodies@.take(i as int), preapplied)),
                self.written.journals(start.written),
                start.written.widened ==> self.written.widened,
                grew(trace, trace.iterations(bodies@.take(i as int), preapplied)),
            decreases bodies.len() - i,
        {
            let ghost before = *self;
            let ghost here = trace.iterations(bodies@.take(i as int), preapplied);
            proof {
                assert(bodies@.take(i as int + 1).drop_last() =~= bodies@.take(i as int));
                assert(bodies@.take(i as int + 1).last() == bodies@[i as int]);
                assert(trace.iterations(bodies@.take(i as int + 1), preapplied) == here.block(bodies@[i as int]@, preapplied));
            }
            self.block(&bodies[i], preapplied, effects, Ghost(here));
            proof {
                written::lemma_journals_trans(start.written, before.written, self.written);
            }
            i = i + 1;
        }
        assert(bodies@.take(i as int) =~= bodies@);
    }
}

impl Trace {
    spec fn arms(self, arms: Seq<Vec<Statement>>, preapplied: bool) -> Self {
        self.to(
            write_count::arms_seen(arms, preapplied, false, self.exact),
            write_count::arms_seen(arms, preapplied, true, self.coarse),
        )
    }

    spec fn iterations(self, bodies: Seq<Vec<Statement>>, preapplied: bool) -> Self {
        self.to(
            write_count::iterations_seen(bodies, preapplied, false, self.exact),
            write_count::iterations_seen(bodies, preapplied, true, self.coarse),
        )
    }
}

proof fn lemma_first_alternative(walk: Walk, effects: Seq<DestinationGroup>, trace: Trace)
    requires
        tracks(walk, Seq::empty(), effects, trace),
    ensures
        trace.reentered(trace) == trace,
        gathers(trace, Seq::empty(), trace),
{
    lemma_no_groups();
    assert(written::marks_of(Seq::empty()) =~= write_count::own_writes(trace.exact, trace.exact));
    assert(written::marks_of(Seq::empty()) =~= write_count::own_writes(trace.coarse, trace.coarse));
}

/// The first of two alternatives, joined with its entry, is the first alternative.
proof fn lemma_one_alternative(trace: Trace, statements: Seq<Statement>, preapplied: bool)
    requires
        trace.reentered(trace) == trace,
        grew(trace, trace.block(statements, preapplied)),
        trace.block(statements, preapplied).exact.reads == Set::<(Element, int)>::empty(),
        trace.block(statements, preapplied).coarse.reads == Set::<(Element, int)>::empty(),
    ensures
        trace.branch(trace, statements, preapplied) == trace.block(statements, preapplied),
{
    let first = trace.block(statements, preapplied);
    assert(trace.exact.written.union(first.exact.written) =~= first.exact.written);
    assert(trace.coarse.written.union(first.coarse.written) =~= first.coarse.written);
    assert(trace.exact.writes + write_count::own_writes(trace.exact, first.exact) =~= first.exact.writes);
    assert(trace.coarse.writes + write_count::own_writes(trace.coarse, first.coarse) =~= first.coarse.writes);
}

fn append_groups(list: &mut Vec<DestinationGroup>, more: &Vec<DestinationGroup>)
    ensures
        gained(old(list)@, final(list)@, written::marks_of(more@)),
{
    let ghost a = list@;
    let ghost marks = written::marks_of(more@);
    proof {
        lemma_gained_nothing(a);
        assert(marks.take(0) =~= Seq::empty());
    }
    let mut i: usize = 0;
    while i < more.len()
        invariant
            i <= more.len(),
            a == old(list)@,
            marks == written::marks_of(more@),
            gained(a, list@, marks.take(i as int)),
        decreases more.len() - i,
    {
        let ghost b = list@;
        let group = more[i].copy();
        list.push(group);
        proof {
            written::lemma_marks_push(b, group);
            assert(list@ =~= b.push(group));
            assert(group.mark() == more@[i as int].mark());
            assert(written::marks_of(b).push(group.mark()) =~= written::marks_of(b) + seq![group.mark()]);
            lemma_gained_trans(a, b, list@, marks.take(i as int), seq![group.mark()]);
            assert(marks.take(i as int + 1) =~= marks.take(i as int) + seq![group.mark()]);
        }
        i = i + 1;
    }
    assert(marks.take(i as int) =~= marks);
}

/// Elements that must keep their register, for every declaration.
pub struct UnsafeSelfReads {
    /// For every declaration, the numbers of its elements.
    pub found: Vec<HashSet<u128>>,
}

impl UnsafeSelfReads {
    pub open spec fn lists(self, decl: int, element: Element) -> bool {
        0 <= decl < self.found@.len() && self.found@[decl]@.contains(element.number())
    }

    /// Whether `element` must keep its register because of how `decl` reads it.
    pub fn contains(&self, decl: usize, element: Element) -> (r: bool)
        ensures
            r == self.lists(decl as int, element),
    {
        if decl < self.found.len() {
            self.found[decl].contains(&element.code())
        } else {
            false
        }
    }
}

/// The elements found for a declaration lie between those that read a written bit and those that
/// read an element with written bits.
pub open spec fn declaration_reads(declaration: Declaration, coarse: bool) -> Set<Element> {
    match declaration {
        Declaration::Ff(statements) => write_count::self_reads(statements@, coarse),
        Declaration::Other => Set::empty(),
    }
}

/// Exact bits are given up on the walk through the declaration.
pub open spec fn declaration_gives_up(declaration: Declaration) -> bool {
    declaration matches Declaration::Ff(statements) && write_count::gives_up(statements@)
}

/// Finds the elements of every always_ff declaration that read what the declaration has already
/// written.
///
/// Every element that does is listed. No other is, unless a group of bits goes through too many
/// fragments of one element of the declaration, so that exact bits are given up; and one that is
/// listed then still reads an element of which something was written.
pub fn unsafe_self_reads(decls: &Vec<Declaration>) -> (r: UnsafeSelfReads)
    ensures
        r.found@.len() == decls@.len(),
        forall|decl: int, x: Element|
            0 <= decl < decls@.len() && declaration_reads(decls@[decl], false).contains(x)
                ==> #[trigger] r.lists(decl, x),
        forall|decl: int, x: Element| #[trigger]
            r.lists(decl, x) ==> declaration_reads(decls@[decl], true).contains(x),
        forall|decl: int, x: Element| #[trigger]
            r.lists(decl, x) ==> declaration_reads(decls@[decl], false).contains(x) || declaration_gives_up(decls@[decl]),
        forall|decl: int, x: Element|
            0 <= decl < decls@.len() && (decls@[decl] matches Declaration::Ff(statements)
                && paths::foreseen_block(statements@, false) && paths::may_read_what_it_wrote(
                statements@,
                x,
            )) ==> #[trigger] r.lists(decl, x),
{
    let mut result = UnsafeSelfReads { found: Vec::new() };
    let mut i: usize = 0;
    while i < decls.len()
        invariant
            i <= decls.len(),
            result.found@.len() == i,
            forall|decl: int, x: Element|
                0 <= decl < i && declaration_reads(decls@[decl], false).contains(x)
                    ==> #[trigger] result.lists(decl, x),
            forall|decl: int, x: Element| #[trigger]
                result.lists(decl, x) ==> declaration_reads(decls@[decl], true).contains(x),
            forall|decl: int, x: Element| #[trigger]
                result.lists(decl, x) ==> declaration_reads(decls@[decl], false).contains(x) || declaration_gives_up(decls@[decl]),
        decreases decls.len() - i,
    {
        let ghost before = result;
        let mut found: HashSet<u128> = HashSet::new();
        assert(numbered(found@) =~= Set::<Element>::empty());
        match &decls[i] {
            Declaration::Ff(statements) => {
                let mut walk = Walk { written: Written::new(), found };
                let mut effects: Vec<DestinationGroup> = Vec::new();
                let ghost trace = Trace { base: 0, exact: write_count::unseen(), coarse: write_count::unseen() };
                proof {
                    lemma_no_groups();
                    assert(effects@ =~= Seq::empty());
                    assert(written::marks_of(effects@) =~= Seq::empty());
                    assert(written::marks_of(walk.written.groups@) =~= Seq::empty());
                    assert(trace.exact.writes.skip(0) =~= Seq::empty());
                    assert(tracks(walk, Seq::empty(), effects@, trace));
                }
                walk.block(statements, false, &mut effects, Ghost(trace));
                found = walk.found;
            },
            Declaration::Other => {},
        }
        let ghost elements = numbered(found@);
        result.found.push(found);
        proof {
            assert forall|decl: int, x: Element| 0 <= decl < i + 1 && declaration_reads(decls@[decl], false).contains(x) implies #[trigger] result.lists(decl, x) by {
                if decl < i {
                    assert(before.lists(decl, x));
                } else {
                    assert(elements.contains(x));
                }
            }
            assert forall|decl: int, x: Element| #[trigger] result.lists(decl, x) implies declaration_reads(decls@[decl], true).contains(x)
                && (declaration_reads(decls@[decl], false).contains(x) || declaration_gives_up(decls@[decl])) by {
                if decl < i {
                    assert(before.lists(decl, x));
                } else {
                    assert(elements.contains(x));
                }
            }
        }
        i = i + 1;
    }
    proof {
        assert forall|decl: int, x: Element|
            0 <= decl < decls@.len() && (decls@[decl] matches Declaration::Ff(statements)
                && paths::foreseen_block(statements@, false) && paths::may_read_what_it_wrote(
                statements@,
                x,
            )) implies #[trigger] result.lists(decl, x) by {
            if let Declaration::Ff(statements) = decls@[decl] {
                paths::blocks_that_read_what_they_wrote_are_found(statements);
            }
        }
    }
    result
}

/// The access is to one bit of one element of a variable that outlives the block.
pub open spec fn is_bit(access: Access, x: Element, bit: int) -> bool {
    &&& access.coordinates@.len() == 0
    &&& access.location matches Some(location) && {
        &&& location.id == x.id
        &&& location.kind == StorageKind::Shared
        &&& location.candidates matches Some(list) && list@ == seq![x.index]
        &&& location.range matches Some((high, low)) && high == bit && low == bit
    }
}

/// The iterations assign each bit from the next lower one, beginning with bit `n` of the element.
pub open spec fn shifts_from_the_top(bodies: Seq<Vec<Statement>>, x: Element, n: int) -> bool {
    forall|k: int|
        0 <= k < bodies.len() ==> {
            let body = (#[trigger] bodies[k])@;
            &&& body.len() == 1
            &&& body[0] matches Statement::Assign { expression, destinations } && {
                &&& expression matches Expression::Variable(access) && is_bit(access, x, n - 1 - k)
                &&& destinations@.len() == 1
                &&& is_bit(destinations@[0], x, n - k)
            }
        }
}

proof fn lemma_bit_access(access: Access, x: Element, bit: int)
    requires
        is_bit(access, x, bit),
        0 <= bit <= usize::MAX,
    ensures
        write_count::read_bits(access, false) == Set::<(Element, int)>::empty().insert((x, bit)),
        write_count::write_marks(access) == seq![write_count::location_mark(access.location->0)],
        write_count::location_mark(access.location->0).bits(false) == Set::<(Element, int)>::empty().insert((x, bit)),
{
    let location = access.location->0;
    let list = location.candidates->0@;
    assert(list[0] == x.index);
    assert(write_count::read_bits(access, false) =~= Set::<(Element, int)>::empty().insert((x, bit)));
    assert(write_count::location_mark(location).bits(false) =~= Set::<(Element, int)>::empty().insert((x, bit)));
}

/// Bits without a gap are not fragmented.
proof fn lemma_run_is_whole(set: Set<int>, low: int, high: int, from: int, to: int)
    requires
        forall|bit: int| #[trigger] set.contains(bit) <==> from <= bit <= to,
    ensures
        !bits::fragmented(set, low, high),
{
    if bits::fragmented(set, low, high) {
        let list = choose|list: Seq<int>| #[trigger]
            bits::separate(set, list) && list.len() > bits::MERGE_WORK_LIMIT && forall|i: int| 0 <= i < list.len() ==> low - 1 <= #[trigger] list[i] <= high + 1;
        assert(bits::gap_between(set, list[0], list[1]));
        assert(set.contains(list[0]) && set.contains(list[1]));
    }
}

/// What stands behind the first iterations of a shift from the top.
spec fn shifted(seen: Seen, x: Element, n: int, count: int) -> bool {
    &&& forall|y: Element, bit: int| #[trigger] seen.written.contains((y, bit)) <==> y == x && n - count < bit <= n
    &&& seen.reads == Set::<(Element, int)>::empty()
    &&& seen.found == Set::<Element>::empty()
    &&& !seen.crowded
    &&& forall|mark: Mark| #[trigger] seen.writes.contains(mark) ==> mark.bits(false).subset_of(seen.written)
}

proof fn lemma_shift_step(seen: Seen, statement: Statement, x: Element, n: int, k: int)
    requires
        0 <= k < n <= usize::MAX,
        shifted(seen, x, n, k),
        statement matches Statement::Assign { expression, destinations } && {
            &&& expression matches Expression::Variable(access) && is_bit(access, x, n - 1 - k)
            &&& destinations@.len() == 1
            &&& is_bit(destinations@[0], x, n - k)
        },
    ensures
        shifted(write_count::statement_seen(statement, false, false, seen), x, n, k + 1),
{
    if let Statement::Assign { expression, destinations } = statement {
        if let Expression::Variable(access) = expression {
            let targets = write_count::target_elements(destinations@);
            lemma_bit_access(access, x, n - 1 - k);
            lemma_bit_access(destinations@[0], x, n - k);
            let read_mark = write_count::location_mark(access.location->0);
            let mark = write_count::location_mark(destinations@[0].location->0);
            assert(write_count::expressions_seen(access.coordinates@, targets, false, seen) == seen);
            assert(!written::crowds(seen.reads, read_mark)) by {
                assert forall|y: Element, low: int, high: int| !#[trigger] bits::fragmented(written::bits_at(seen.reads, y), low, high) by {
                    lemma_run_is_whole(written::bits_at(seen.reads, y), low, high, 1, 0);
                }
            }
            let read = write_count::expression_seen(expression, targets, false, seen);
            assert(read == (Seen { reads: seen.reads.union(write_count::read_bits(access, false)), ..seen }));
            assert(read.reads =~= Set::<(Element, int)>::empty().insert((x, n - 1 - k)));
            let flushed = write_count::flushed(read, targets);
            assert(flushed.found =~= Set::<Element>::empty()) by {
                assert forall|y: Element| !flushed.found.contains(y) by {
                    if flushed.found.contains(y) {
                        let bit = choose|bit: int| #[trigger] read.reads.contains((y, bit)) && read.written.contains((y, bit));
                        assert(bit == n - 1 - k);
                    }
                }
            }
            assert(destinations@.drop_last().len() == 0);
            assert(write_count::coordinates_seen(destinations@.drop_last(), Set::empty(), false, flushed) == flushed);
            assert(destinations@.last() == destinations@[0]);
            assert(write_count::expressions_seen(destinations@[0].coordinates@, Set::empty(), false, flushed) == flushed);
            assert(write_count::coordinates_seen(destinations@, Set::empty(), false, flushed) == flushed);
            let ready = write_count::flushed(flushed, Set::empty());
            assert(ready.found =~= Set::<Element>::empty());
            assert(write_count::all_write_marks(destinations@.drop_last()) == Seq::<Mark>::empty());
            assert(write_count::all_write_marks(destinations@) =~= seq![mark]);
            assert(write_count::statement_seen(statement, false, false, seen) == write_count::wrote(ready, write_count::all_write_marks(destinations@), false));
            let one = seq![mark];
            assert(one.drop_last() =~= Seq::empty());
            assert(write_count::wrote(ready, one.drop_last(), false) == ready);
            let after = write_count::wrote_one(ready, mark, false);
            assert(!ready.writes.contains(mark)) by {
                if ready.writes.contains(mark) {
                    assert(mark.bits(false).contains((x, n - k)));
                    assert(seen.written.contains((x, n - k)));
                }
            }
            assert forall|m: Mark| #[trigger] after.writes.contains(m) implies m.bits(false).subset_of(after.written) by {
                let i = choose|i: int| 0 <= i < after.writes.len() && after.writes[i] == m;
                if i < ready.writes.len() {
                    assert(ready.writes[i] == m);
                    assert(ready.writes.contains(m));
                }
            }
            assert(write_count::wrote(ready, one, false) == after);
            assert(!written::crowds(ready.written, mark)) by {
                assert forall|y: Element, low: int, high: int| !#[trigger] bits::fragmented(written::bits_at(ready.written, y), low, high) by {
                    if y == x {
                        lemma_run_is_whole(written::bits_at(ready.written, y), low, high, n - k + 1, n);
                    } else {
                        lemma_run_is_whole(written::bits_at(ready.written, y), low, high, 1, 0);
                    }
                }
            }
        }
    }
}
proof fn lemma_shift(bodies: Seq<Vec<Statement>>, x: Element, n: int)
    requires
        bodies.len() <= n <= usize::MAX,
        shifts_from_the_top(bodies, x, n),
    ensures
        shifted(write_count::iterations_seen(bodies, false, false, write_count::unseen()), x, n, bodies.len() as int),
    decreases bodies.len(),
{
    if bodies.len() > 0 {
        let shorter = bodies.drop_last();
        assert forall|k: int| 0 <= k < shorter.len() implies #[trigger] shorter[k] == bodies[k] by {}
        lemma_shift(shorter, x, n);
        let before = write_count::iterations_seen(shorter, false, false, write_count::unseen());
        let body = bodies.last()@;
        assert(bodies[bodies.len() - 1] == bodies.last());
        assert(body.drop_last().len() == 0);
        assert(write_count::block_seen(body.drop_last(), false, false, before) == before);
        assert(body.last() == body[0]);
        assert(write_count::block_seen(body, false, false, before) == write_count::statement_seen(body.last(), false, false, before));
        assert(write_count::iterations_seen(bodies, false, false, write_count::unseen()) == write_count::block_seen(body, false, false, before));
        lemma_shift_step(before, body[0], x, n, bodies.len() - 1);
    } else {
        assert(write_count::iterations_seen(bodies, false, false, write_count::unseen()) == write_count::unseen());
    }
}

/// A loop that shifts the bits of a vector up by one, from the top down, reads each bit before it is
/// written: it needs no register, and exact bits are never given up.
pub proof fn a_shift_from_the_top_needs_no_register(statements: Vec<Statement>, x: Element, n: int)
    requires
        statements@.len() == 1,
        statements@[0] matches Statement::For { iterations, .. } && (iterations matches Some(bodies) && bodies@.len() <= n <= usize::MAX && shifts_from_the_top(
            bodies@,
            x,
            n,
        )),
    ensures
        !declaration_gives_up(Declaration::Ff(statements)),
        declaration_reads(Declaration::Ff(statements), false) == Set::<Element>::empty(),
{
    if let Statement::For { iterations, .. } = statements@[0] {
        if let Some(bodies) = iterations {
            lemma_shift(bodies@, x, n);
            assert(statements@.drop_last().len() == 0);
            let none = write_count::unseen();
            assert(write_count::block_seen(statements@.drop_last(), false, false, none) == none);
            assert(statements@.last() == statements@[0]);
            assert(write_count::block_seen(statements@, false, false, none) == write_count::statement_seen(statements@.last(), false, false, none));
            assert(write_count::statement_seen(statements@[0], false, false, none) == write_count::iterations_seen(bodies@, false, false, none));
        }
    }
}

} // verus!
