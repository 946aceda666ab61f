//! What the output arguments of a call write.
use vstd::prelude::*;
use crate::arena;
use crate::arena::{PathArena, PathCondition, PathNode};
use crate::ir::Selected;
use crate::layout;
use crate::layout::{FormalVersionLayout, RegionGroup};
use crate::partition::{BitPartition, NodeKey};
use crate::relation::{PositionRelation, SourceRef};
use crate::results;
use crate::results::project_version_sources;
use crate::snapshots;
use crate::span::{ArraySpan, PackedSpan};
use crate::ssa;
use crate::ssa::{SsaStore, Version};
use crate::targets::Target;
use crate::writes;
use crate::writes::bind_destination;

verus! {

/// The widths of an output argument and of what it is copied to.
#[derive(Clone, Copy, Debug, PartialEq, Eq)]
pub struct FormalOutputCoercion {
    pub actual_width: usize,
    pub formal_width: usize,
    pub formal_signed: bool,
}

/// What stands for a region of the first `count` versions, one after the other.
pub open spec fn version_pieces(
    before: SsaStore,
    after: SsaStore,
    paths: Seq<PathNode>,
    more: Seq<PathNode>,
    partition: BitPartition,
    nodes: Seq<NodeKey>,
    versions: Seq<usize>,
    count: int,
    array: ArraySpan,
    packed: PackedSpan,
    r: Seq<usize>,
) -> bool
    decreases count,
{
    if count <= 0 {
        r.len() == 0 && after == before && more == paths
    } else {
        exists|middle: SsaStore, between: Seq<PathNode>, split: int|
            0 <= split <= r.len() && version_pieces(
                before,
                middle,
                paths,
                between,
                partition,
                nodes,
                versions,
                count - 1,
                array,
                packed,
                r.take(split),
            ) && #[trigger] results::stands_for_region(
                middle,
                after,
                between,
                more,
                partition,
                nodes,
                versions[count - 1],
                array,
                packed,
                r.skip(split),
            )
    }
}

/// What stands for a region of the versions before `at` was found, and of the version at `at` there is
/// nothing that does.
pub open spec fn version_missing(
    before: SsaStore,
    after: SsaStore,
    paths: Seq<PathNode>,
    between: Seq<PathNode>,
    partition: BitPartition,
    nodes: Seq<NodeKey>,
    versions: Seq<usize>,
    at: int,
    array: ArraySpan,
    packed: PackedSpan,
    first: Seq<usize>,
) -> bool {
    &&& 0 <= at < versions.len()
    &&& version_pieces(before, after, paths, between, partition, nodes, versions, at, array, packed, first)
    &&& results::unprojectable(after, between, versions[at])
}

/// One of the versions has nothing that stands for the region.
pub open spec fn versions_stop(
    before: SsaStore,
    after: SsaStore,
    paths: Seq<PathNode>,
    more: Seq<PathNode>,
    partition: BitPartition,
    nodes: Seq<NodeKey>,
    versions: Seq<usize>,
    array: ArraySpan,
    packed: PackedSpan,
) -> bool {
    exists|between: Seq<PathNode>, at: int, first: Seq<usize>| #[trigger]
        version_missing(before, after, paths, between, partition, nodes, versions, at, array, packed, first) && arena::grows(between, more)
}

/// What stands for a region of some versions; nothing where an offset on the way does not fit.
fn project_versions(
    store: &mut SsaStore,
    arena: &mut PathArena,
    partition: &BitPartition,
    nodes: &Vec<NodeKey>,
    versions: &Vec<usize>,
    array: ArraySpan,
    packed: PackedSpan,
) -> (r: Option<Vec<usize>>)
    requires
        results::tied(*old(store), *old(arena)),
        results::keys_known(*old(store), nodes@),
        partition.wf(),
        packed.wf(),
        forall|i: int| 0 <= i < versions@.len() ==> (#[trigger] versions@[i]) < old(store).versions@.len(),
    ensures
        results::tied(*final(store), *final(arena)),
        arena::grows(old(arena)@, final(arena)@),
        writes::continues(*old(store), *final(store)),
        final(store).current@ == old(store).current@,
        results::keys_known(*final(store), nodes@),
        r matches Some(list) ==> forall|i: int| 0 <= i < list@.len() ==> (#[trigger] list@[i]) < final(store).versions@.len(),
        r matches Some(list) ==> version_pieces(
            *old(store),
            *final(store),
            old(arena)@,
            final(arena)@,
            *partition,
            nodes@,
            versions@,
            versions@.len() as int,
            array,
            packed,
            list@,
        ),
        r is None ==> versions_stop(
            *old(store),
            *final(store),
            old(arena)@,
            final(arena)@,
            *partition,
            nodes@,
            versions@,
            array,
            packed,
        ),
{
    let ghost before = *store;
    let ghost paths = arena@;
    let mut r: Vec<usize> = Vec::new();
    let mut i: usize = 0;
    while i < versions.len()
        invariant
            i <= versions@.len(),
            before == *old(store),
            paths == old(arena)@,
            results::tied(*store, *arena),
            results::keys_known(*store, nodes@),
            partition.wf(),
            packed.wf(),
            arena::grows(paths, arena@),
            writes::continues(before, *store),
            store.current@ == before.current@,
            forall|k: int| 0 <= k < versions@.len() ==> (#[trigger] versions@[k]) < before.versions@.len(),
            forall|k: int| 0 <= k < r@.len() ==> (#[trigger] r@[k]) < store.versions@.len(),
            version_pieces(before, *store, paths, arena@, *partition, nodes@, versions@, i as int, array, packed, r@),
        decreases versions@.len() - i,
    {
        let ghost known = *store;
        let ghost between = arena@;
        let ghost first = r@;
        assert(versions@[i as int] < before.versions@.len());
        match project_version_sources(store, arena, partition, nodes, versions[i], array, packed) {
            None => {
                proof {
                    arena::growth_is_transitive(paths, between, arena@);
                    writes::continues_is_transitive(before, known, *store);
                    assert(version_missing(before, *store, paths, between, *partition, nodes@, versions@, i as int, array, packed, first));
                }
                return None;
            },
            Some(more) => {
                results::append_versions(&mut r, &more);
                proof {
                    arena::growth_is_transitive(paths, between, arena@);
                    writes::continues_is_transitive(before, known, *store);
                    let n = i + 1;
                    let split = first.len() as int;
                    assert(r@.take(split) =~= first);
                    assert(r@.skip(split) =~= more@);
                    assert(results::stands_for_region(known, *store, between, arena@, *partition, nodes@, versions@[n - 1], array, packed, r@.skip(split)));
                    assert(version_pieces(before, *store, paths, arena@, *partition, nodes@, versions@, n, array, packed, r@));
                }
            },
        }
        i = i + 1;
    }
    Some(r)
}

/// The versions of a formal argument that a region touches.
pub open spec fn formal_hits(groups: Seq<RegionGroup>, array: ArraySpan, packed: PackedSpan) -> Seq<usize> {
    if array.bounded() {
        layout::group_hits(groups, array, packed, groups.len() as int)
    } else {
        Seq::empty()
    }
}

/// The versions with one relation.
pub open spec fn all_related(versions: Seq<usize>, relation: PositionRelation) -> Seq<SourceRef> {
    versions.map_values(|v: usize| SourceRef { version: v, relation })
}

/// Adds versions with one relation.
pub fn push_related(list: &mut Vec<SourceRef>, versions: &Vec<usize>, relation: PositionRelation)
    ensures
        final(list)@ == old(list)@ + all_related(versions@, relation),
{
    let ghost before = list@;
    let mut i: usize = 0;
    while i < versions.len()
        invariant
            i <= versions@.len(),
            list@ == before + all_related(versions@.take(i as int), relation),
        decreases versions@.len() - i,
    {
        list.push(SourceRef { version: versions[i], relation });
        i = i + 1;
        assert(list@ =~= before + all_related(versions@.take(i as int), relation));
    }
    assert(versions@.take(i as int) =~= versions@);
}

/// One output argument of a call and a destination to which it is copied.
pub struct FormalOutput<'a> {
    pub partition: &'a BitPartition,
    /// The nodes by the numbers of their keys.
    pub nodes: &'a Vec<NodeKey>,
    /// The versions of the argument.
    pub versions: &'a Vec<usize>,
    pub layout: &'a FormalVersionLayout,
    /// Where the destination starts in the argument.
    pub offset: usize,
    pub coercion: FormalOutputCoercion,
    /// What selects the destination.
    pub control: Option<usize>,
    pub selected: Option<Selected>,
}

/// Where the value of a target lies in the argument.
pub struct Place {
    pub array: ArraySpan,
    pub relation: PositionRelation,
    /// The bits of the argument that are copied.
    pub copied: Option<PackedSpan>,
    /// The sign is copied too.
    pub signed: bool,
}

impl<'a> FormalOutput<'a> {
    /// The bits of the actual that go to a target.
    pub open spec fn requested(self, span: PackedSpan, low: usize) -> Option<PackedSpan> {
        match snapshots::assigned_bits(span, low, self.offset) {
            Some(bits) => if self.coercion.actual_width > 0 {
                (PackedSpan { start: 0, length: self.coercion.actual_width }).common(bits)
            } else {
                None
            },
            None => None,
        }
    }

    /// Where the value of a target lies, where that is known by region.
    pub open spec fn place_of(self, target: Target) -> Option<Place> {
        match (target.array, self.selected, target.span) {
            (Some(array), Some(selected), Some(span)) => if isize::MIN <= selected.low - self.offset <= isize::MAX && span.wf() {
                let requested = self.requested(span, selected.low);
                Some(
                    Place {
                        array: array.source,
                        relation: PositionRelation {
                            array: array.array_offset,
                            packed: Some((selected.low - self.offset) as isize),
                        },
                        copied: match requested {
                            Some(bits) => if self.coercion.formal_width > 0 {
                                (PackedSpan { start: 0, length: self.coercion.formal_width }).common(bits)
                            } else {
                                None
                            },
                            None => None,
                        },
                        signed: match requested {
                            Some(bits) => self.coercion.formal_signed && self.coercion.formal_width != 0 && self.coercion.actual_width
                                > self.coercion.formal_width && bits.start + bits.length > self.coercion.formal_width,
                            None => false,
                        },
                    },
                )
            } else {
                None
            },
            _ => None,
        }
    }

    fn find_place(&self, target: Target) -> (r: Option<Place>)
        ensures
            r == self.place_of(target),
            r matches Some(place) ==> (place.copied matches Some(bits) ==> bits.wf()),
            r matches Some(place) ==> place.signed ==> self.coercion.formal_width > 0,
    {
        let (array, selected, span) = match (target.array, self.selected, target.span) {
            (Some(array), Some(selected), Some(span)) => (array, selected, span),
            _ => {
                return None;
            },
        };
        let span = match PackedSpan::new(span.start, span.length) {
            Some(span) => span,
            None => {
                return None;
            },
        };
        let relation = match array.position_offset(selected.low, self.offset) {
            Some(relation) => relation,
            None => {
                return None;
            },
        };
        let mut requested: Option<PackedSpan> = None;
        if let Some(bits) = span.translated(selected.low, self.offset) {
            if let Some(all) = PackedSpan::whole(self.coercion.actual_width) {
                requested = all.intersection(bits);
            }
        }
        assert(requested == self.requested(span, selected.low));
        let mut copied: Option<PackedSpan> = None;
        let mut signed: bool = false;
        if let Some(bits) = requested {
            if let Some(all) = PackedSpan::whole(self.coercion.formal_width) {
                copied = all.intersection(bits);
            }
            signed = self.coercion.formal_signed && self.coercion.formal_width != 0 && self.coercion.actual_width > self.coercion.formal_width
                && bits.end() > self.coercion.formal_width;
        }
        Some(Place { array: array.source, relation, copied, signed })
    }

    /// What selects the destination, as a source of the value.
    pub open spec fn control_sources(self) -> Seq<SourceRef> {
        match self.control {
            Some(control) => writes::whole_sources(seq![control]),
            None => Seq::empty(),
        }
    }

    /// The sign of the argument.
    pub open spec fn sign(self) -> PackedSpan {
        PackedSpan { start: (self.coercion.formal_width - 1) as usize, length: 1 }
    }

    pub open spec fn sign_bits(self, place: Place) -> Option<PackedSpan> {
        if place.signed {
            Some(self.sign())
        } else {
            None
        }
    }

    /// What stands for a region of the argument.
    pub open spec fn pieces(self, before: SsaStore, after: SsaStore, paths: Seq<PathNode>, more: Seq<PathNode>, array: ArraySpan, bits: Option<PackedSpan>, r: Seq<usize>) -> bool {
        match bits {
            None => r.len() == 0 && after == before && more == paths,
            Some(bits) => {
                let hits = formal_hits(self.layout.groups@, array, bits);
                version_pieces(before, after, paths, more, *self.partition, self.nodes@, hits, hits.len() as int, array, bits, r)
            },
        }
    }

    /// A part of the argument has nothing that stands for the region.
    pub open spec fn pieces_stop(self, before: SsaStore, after: SsaStore, paths: Seq<PathNode>, more: Seq<PathNode>, array: ArraySpan, bits: Option<PackedSpan>) -> bool {
        match bits {
            None => false,
            Some(bits) => versions_stop(
                before,
                after,
                paths,
                more,
                *self.partition,
                self.nodes@,
                formal_hits(self.layout.groups@, array, bits),
                array,
                bits,
            ),
        }
    }

    /// What is written to a target: the copied bits and, where it is extended, the sign of the
    /// argument, at their places, or all of the argument where the place is not known.
    pub open spec fn target_sources(self, before: SsaStore, after: SsaStore, paths: Seq<PathNode>, more: Seq<PathNode>, target: Target, sources: Seq<SourceRef>) -> bool {
        match self.place_of(target) {
            None => after == before && more == paths && sources == self.control_sources() + writes::whole_sources(self.versions@),
            Some(place) => exists|middle: SsaStore, between: Seq<PathNode>, copied: Seq<usize>, sign: Seq<usize>| #[trigger]
                self.pieces(before, middle, paths, between, place.array, place.copied, copied) && #[trigger] self.pieces(
                    middle,
                    after,
                    between,
                    more,
                    place.array,
                    self.sign_bits(place),
                    sign,
                ) && sources == all_related(copied, place.relation) + all_related(
                    sign,
                    PositionRelation { array: place.relation.array, packed: None },
                ) + self.control_sources(),
        }
    }

    /// What is written to a target cannot be found: its place is known, and a part of the argument has
    /// nothing that stands for the copied bits, or then for the sign.
    pub open spec fn target_stops(self, before: SsaStore, after: SsaStore, paths: Seq<PathNode>, more: Seq<PathNode>, target: Target) -> bool {
        match self.place_of(target) {
            None => false,
            Some(place) => self.pieces_stop(before, after, paths, more, place.array, place.copied) || exists|
                middle: SsaStore,
                between: Seq<PathNode>,
                copied: Seq<usize>,
            | #[trigger]
                self.pieces(before, middle, paths, between, place.array, place.copied, copied) && self.pieces_stop(
                    middle,
                    after,
                    between,
                    more,
                    place.array,
                    self.sign_bits(place),
                ),
        }
    }

    pub open spec fn wf(self, store: SsaStore) -> bool {
        &&& self.partition.wf()
        &&& layout::groups_wf(self.layout.groups@)
        &&& results::result_below(self.layout.groups@, store.versions@.len() as int)
        &&& forall|i: int| 0 <= i < self.versions@.len() ==> (#[trigger] self.versions@[i]) < store.versions@.len()
        &&& self.control matches Some(control) ==> control < store.versions@.len()
        &&& results::keys_known(store, self.nodes@)
    }

    fn find_pieces(&self, store: &mut SsaStore, arena: &mut PathArena, array: ArraySpan, bits: Option<PackedSpan>) -> (r: Option<Vec<usize>>)
        requires
            self.wf(*old(store)),
            results::tied(*old(store), *old(arena)),
            bits matches Some(bits) ==> bits.wf(),
        ensures
            self.wf(*final(store)),
            results::tied(*final(store), *final(arena)),
            arena::grows(old(arena)@, final(arena)@),
            writes::continues(*old(store), *final(store)),
            final(store).current@ == old(store).current@,
            r matches Some(list) ==> forall|i: int| 0 <= i < list@.len() ==> (#[trigger] list@[i]) < final(store).versions@.len(),
            r matches Some(list) ==> self.pieces(*old(store), *final(store), old(arena)@, final(arena)@, array, bits, list@),
            r is None ==> self.pieces_stop(*old(store), *final(store), old(arena)@, final(arena)@, array, bits),
    {
        let ghost before = *store;
        let bits = match bits {
            Some(bits) => bits,
            None => {
                return Some(Vec::new());
            },
        };
        let hits = self.layout.overlapping(array, bits);
        proof {
            if array.bounded() {
                lemma_hits_below(self.layout.groups@, array, bits, self.layout.groups@.len() as int, store.versions@.len() as int);
            }
        }
        let r = project_versions(store, arena, self.partition, self.nodes, &hits, array, bits);
        proof {
            self.lemma_wf_kept(before, *store);
        }
        r
    }

    proof fn lemma_wf_kept(self, before: SsaStore, after: SsaStore)
        requires
            self.wf(before),
            ssa::versions_grow(before.versions@, after.versions@),
            results::keys_known(after, self.nodes@),
        ensures
            self.wf(after),
    {
        assert forall|g: int, k: int| 0 <= g < self.layout.groups@.len() && 0 <= k < self.layout.groups@[g].regions@.len() implies (#[trigger] self.layout.groups@[g].regions@[k]).version
            < after.versions@.len() && self.layout.groups@[g].regions@[k].packed.wf() by {
            assert(self.layout.groups@[g].regions@[k].version < before.versions@.len());
        }
    }

    /// What is written to a target; nothing where an offset on the way does not fit.
    fn find_sources(&self, store: &mut SsaStore, arena: &mut PathArena, target: Target) -> (r: Option<Vec<SourceRef>>)
        requires
            self.wf(*old(store)),
            results::tied(*old(store), *old(arena)),
        ensures
            self.wf(*final(store)),
            results::tied(*final(store), *final(arena)),
            arena::grows(old(arena)@, final(arena)@),
            writes::continues(*old(store), *final(store)),
            final(store).current@ == old(store).current@,
            r matches Some(list) ==> ssa::sources_before(list@, final(store).versions@.len() as int),
            r matches Some(list) ==> self.target_sources(*old(store), *final(store), old(arena)@, final(arena)@, target, list@),
            r is None ==> self.target_stops(*old(store), *final(store), old(arena)@, final(arena)@, target),
    {
        let ghost before = *store;
        let ghost paths = arena@;
        let mut sources: Vec<SourceRef> = Vec::new();
        let place = match self.find_place(target) {
            Some(place) => place,
            None => {
                if let Some(control) = self.control {
                    sources.push(SourceRef { version: control, relation: PositionRelation::whole() });
                }
                assert(sources@ =~= self.control_sources());
                push_related(&mut sources, self.versions, PositionRelation::whole());
                proof {
                    assert(all_related(self.versions@, PositionRelation::anything()) =~= writes::whole_sources(self.versions@));
                    assert(writes::continues(before, *store)) by {
                        assert forall|depth: int| 0 <= depth < before.checkpoints@.len() implies #[trigger] store.saved(depth) == before.saved(depth) by {}
                    }
                }
                return Some(sources);
            },
        };
        let copied = match self.find_pieces(store, arena, place.array, place.copied) {
            Some(copied) => copied,
            None => {
                return None;
            },
        };
        let ghost middle = *store;
        let ghost between = arena@;
        let sign_bits: Option<PackedSpan> = if place.signed {
            Some(PackedSpan { start: self.coercion.formal_width - 1, length: 1 })
        } else {
            None
        };
        let sign = self.find_pieces(store, arena, place.array, sign_bits);
        proof {
            arena::growth_is_transitive(paths, between, arena@);
            writes::continues_is_transitive(before, middle, *store);
        }
        let sign = match sign {
            Some(sign) => sign,
            None => {
                proof {
                    assert(self.pieces(before, middle, paths, between, place.array, place.copied, copied@));
                    assert(self.pieces_stop(middle, *store, between, arena@, place.array, self.sign_bits(place)));
                }
                return None;
            },
        };
        push_related(&mut sources, &copied, place.relation);
        push_related(&mut sources, &sign, PositionRelation { array: place.relation.array, packed: None });
        if let Some(control) = self.control {
            sources.push(SourceRef { version: control, relation: PositionRelation::whole() });
        }
        proof {
            let relation = place.relation;
            let other = PositionRelation { array: place.relation.array, packed: None };
            assert(sources@ =~= all_related(copied@, relation) + all_related(sign@, other) + self.control_sources());
            assert forall|i: int| 0 <= i < sources@.len() implies (#[trigger] sources@[i]).version < store.versions@.len() by {
                if i < copied@.len() {
                    assert(copied@[i] < middle.versions@.len());
                } else if i < copied@.len() + sign@.len() {
                    assert(sign@[i - copied@.len()] < store.versions@.len());
                }
            }
            assert(self.pieces(before, middle, paths, between, place.array, place.copied, copied@));
            assert(self.pieces(middle, *store, between, arena@, place.array, sign_bits, sign@));
        }
        Some(sources)
    }
}

proof fn lemma_hits_below(groups: Seq<RegionGroup>, array: ArraySpan, packed: PackedSpan, count: int, limit: int)
    requires
        0 <= count <= groups.len(),
        results::result_below(groups, limit),
    ensures
        forall|i: int| 0 <= i < layout::group_hits(groups, array, packed, count).len() ==> (#[trigger] layout::group_hits(groups, array, packed, count)[i]) < limit,
    decreases count,
{
    if count > 0 {
        lemma_hits_below(groups, array, packed, count - 1, limit);
        let regions = groups[count - 1].regions@;
        lemma_region_hits_below(groups, count - 1, packed, regions.len() as int, limit);
        let before = layout::group_hits(groups, array, packed, count - 1);
        let added = layout::region_hits(regions, packed, regions.len() as int);
        let all = layout::group_hits(groups, array, packed, count);
        assert forall|i: int| 0 <= i < all.len() implies (#[trigger] all[i]) < limit by {
            if i < before.len() {
                assert(all[i] == before[i]);
            } else {
                assert(all[i] == added[i - before.len()]);
            }
        }
    }
}

proof fn lemma_region_hits_below(groups: Seq<RegionGroup>, g: int, packed: PackedSpan, count: int, limit: int)
    requires
        0 <= g < groups.len(),
        0 <= count <= groups[g].regions@.len(),
        results::result_below(groups, limit),
    ensures
        forall|i: int| 0 <= i < layout::region_hits(groups[g].regions@, packed, count).len() ==> (#[trigger] layout::region_hits(groups[g].regions@, packed, count)[i]) < limit,
    decreases count,
{
    if count > 0 {
        lemma_region_hits_below(groups, g, packed, count - 1, limit);
        assert(groups[g].regions@[count - 1].version < limit);
        let before = layout::region_hits(groups[g].regions@, packed, count - 1);
        let all = layout::region_hits(groups[g].regions@, packed, count);
        assert forall|i: int| 0 <= i < all.len() implies (#[trigger] all[i]) < limit by {
            if i < before.len() {
                assert(all[i] == before[i]);
            }
        }
    }
}

/// A target with the key of its node.
#[derive(Clone, Copy, Debug, PartialEq, Eq)]
pub struct KeyedTarget {
    pub target: Target,
    pub key: u64,
}

/// The value is written to a key and to no other.
pub open spec fn value_written(before: SsaStore, after: SsaStore, key: u64, sources: Seq<SourceRef>, condition: PathCondition, dynamic: bool) -> bool {
    &&& writes::continues(before, after)
    &&& forall|k: u64| k != key ==> #[trigger] ssa::binding_of(after.current@, k) == ssa::binding_of(before.current@, k)
    &&& exists|version: usize|
        before.versions@.len() <= version && #[trigger] writes::is_definition(after.versions@, version as int, sources, condition) && writes::is_bound(
            before,
            after,
            key,
            version,
            dynamic,
        )
}

impl<'a> FormalOutput<'a> {
    /// The value of one target is found and written.
    pub open spec fn target_written(
        self,
        before: SsaStore,
        after: SsaStore,
        paths: Seq<PathNode>,
        more: Seq<PathNode>,
        target: KeyedTarget,
        condition: PathCondition,
        dynamic: bool,
    ) -> bool {
        exists|middle: SsaStore, sources: Seq<SourceRef>| #[trigger]
            self.target_sources(before, middle, paths, more, target.target, sources) && #[trigger] value_written(
                middle,
                after,
                target.key,
                sources,
                condition,
                dynamic,
            )
    }

    /// The values of the first `count` targets are found and written, one after the other.
    pub open spec fn targets_written(
        self,
        before: SsaStore,
        after: SsaStore,
        paths: Seq<PathNode>,
        more: Seq<PathNode>,
        targets: Seq<KeyedTarget>,
        count: int,
        condition: PathCondition,
        dynamic: bool,
    ) -> bool
        decreases count,
    {
        if count <= 0 {
            after == before && more == paths
        } else {
            exists|middle: SsaStore, between: Seq<PathNode>|
                self.targets_written(before, middle, paths, between, targets, count - 1, condition, dynamic) && #[trigger] self.target_written(
                    middle,
                    after,
                    between,
                    more,
                    targets[count - 1],
                    condition,
                    dynamic,
                )
        }
    }

    /// The targets before `at` are written, and what is written to the target at `at` cannot be found.
    pub open spec fn target_missing(
        self,
        before: SsaStore,
        middle: SsaStore,
        after: SsaStore,
        paths: Seq<PathNode>,
        between: Seq<PathNode>,
        more: Seq<PathNode>,
        targets: Seq<KeyedTarget>,
        at: int,
        condition: PathCondition,
        dynamic: bool,
    ) -> bool {
        &&& 0 <= at < targets.len()
        &&& self.targets_written(before, middle, paths, between, targets, at, condition, dynamic)
        &&& self.target_stops(middle, after, between, more, targets[at].target)
    }

    /// What is written to one of the targets cannot be found; those before it are written.
    pub open spec fn targets_stop(
        self,
        before: SsaStore,
        after: SsaStore,
        paths: Seq<PathNode>,
        more: Seq<PathNode>,
        targets: Seq<KeyedTarget>,
        condition: PathCondition,
        dynamic: bool,
    ) -> bool {
        exists|middle: SsaStore, between: Seq<PathNode>, at: int| #[trigger]
            self.target_missing(before, middle, after, paths, between, more, targets, at, condition, dynamic)
    }

    /// Copies an output argument to the targets of a destination. The answer is whether all offsets on
    /// the way fit; where one does not, the targets from there on are not written.
    pub fn write_formal_output(
        &self,
        store: &mut SsaStore,
        arena: &mut PathArena,
        targets: &Vec<KeyedTarget>,
        condition: PathCondition,
        dynamic: bool,
    ) -> (r: bool)
        requires
            self.wf(*old(store)),
            results::tied(*old(store), *old(arena)),
            old(arena).holds(condition),
            forall|i: int| 0 <= i < targets@.len() ==> (#[trigger] targets@[i]).key < self.nodes@.len(),
        ensures
            self.wf(*final(store)),
            results::tied(*final(store), *final(arena)),
            arena::grows(old(arena)@, final(arena)@),
            writes::continues(*old(store), *final(store)),
            r ==> self.targets_written(
                *old(store),
                *final(store),
                old(arena)@,
                final(arena)@,
                targets@,
                targets@.len() as int,
                condition,
                dynamic,
            ),
            !r ==> self.targets_stop(*old(store), *final(store), old(arena)@, final(arena)@, targets@, condition, dynamic),
    {
        let ghost before = *store;
        let ghost paths = arena@;
        proof {
            assert(writes::continues(before, *store)) by {
                assert forall|depth: int| 0 <= depth < before.checkpoints@.len() implies #[trigger] store.saved(depth) == before.saved(depth) by {}
            }
        }
        let mut i: usize = 0;
        while i < targets.len()
            invariant
                i <= targets@.len(),
                before == *old(store),
                paths == old(arena)@,
                paths.len() > condition.node,
                self.wf(*store),
                results::tied(*store, *arena),
                arena::grows(paths, arena@),
                writes::continues(before, *store),
                forall|k: int| 0 <= k < targets@.len() ==> (#[trigger] targets@[k]).key < self.nodes@.len(),
                self.targets_written(before, *store, paths, arena@, targets@, i as int, condition, dynamic),
            decreases targets@.len() - i,
        {
            let ghost known = *store;
            let ghost between = arena@;
            let target = targets[i];
            let sources = self.find_sources(store, arena, target.target);
            let ghost middle = *store;
            proof {
                arena::growth_is_transitive(paths, between, arena@);
                writes::continues_is_transitive(before, known, middle);
                assert(targets@[i as int].key < self.nodes@.len());
            }
            let sources = match sources {
                Some(sources) => sources,
                None => {
                    assert(self.target_missing(before, known, *store, paths, between, arena@, targets@, i as int, condition, dynamic));
                    return false;
                },
            };
            let version: usize = store.related_definition_guarded(&sources, condition);
            let ghost defined = *store;
            bind_destination(store, target.key, version, dynamic);
            proof {
                assert(writes::continues(middle, defined)) by {
                    assert forall|depth: int| 0 <= depth < middle.checkpoints@.len() implies #[trigger] defined.saved(depth) == middle.saved(depth) by {}
                }
                writes::continues_is_transitive(middle, defined, *store);
                writes::continues_is_transitive(before, middle, *store);
                assert(defined.versions@[version as int] == store.versions@[version as int]);
                assert(writes::is_definition(store.versions@, version as int, sources@, condition));
                assert(writes::is_bound(middle, *store, target.key, version, dynamic));
                assert(value_written(middle, *store, target.key, sources@, condition, dynamic));
                assert(self.target_written(known, *store, between, arena@, targets@[i as int], condition, dynamic));
                let n = i + 1;
                assert(self.target_written(known, *store, between, arena@, targets@[n - 1], condition, dynamic));
                assert(self.targets_written(before, *store, paths, arena@, targets@, n, condition, dynamic));
                assert(results::keys_known(*store, self.nodes@)) by {
                    lemma_keys_known(middle, *store, self.nodes@, target.key);
                }
                self.lemma_wf_kept(middle, *store);
            }
            i = i + 1;
        }
        true
    }
}

/// The keys stay known as long as entries of known keys are made only.
pub proof fn lemma_keys_known(before: SsaStore, after: SsaStore, nodes: Seq<NodeKey>, key: u64)
    requires
        before.wf(),
        after.wf(),
        results::keys_known(before, nodes),
        key < nodes.len(),
        forall|k: u64| k != key && #[trigger] after.entries@.contains_key(k) ==> before.entries@.contains_key(k),
    ensures
        results::keys_known(after, nodes),
{
    assert forall|i: int| 0 <= i < after.versions@.len() implies ((#[trigger] after.versions@[i]) matches Version::Entry(k) ==> k < nodes.len()) by {
        if let Version::Entry(k) = after.versions@[i] {
            assert(after.entries@.contains_key(k));
            if k != key {
                assert(before.entries@.contains_key(k));
                assert(before.versions@[before.entries@[k] as int] == Version::Entry(k));
            }
        }
    }
}

} // verus!
