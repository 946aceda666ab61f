//! Calls: output arguments are copied out, summaries of functions are applied.
use vstd::prelude::*;
use crate::arena;
use crate::arena::{PathArena, PathCondition, PathNode};
use crate::ir::Selected;
use crate::layout;
use crate::layout::FormalVersionLayout;
use crate::outputs::{FormalOutput, FormalOutputCoercion, KeyedTarget};
use crate::partition::{BitPartition, NodeKey};
use crate::results;
use crate::ssa;
use crate::ssa::{SsaStore, Version};
use crate::writes;
use crate::writes::write_destination;

verus! {

/// The width and the sign of an argument.
#[derive(Clone, Copy, Debug, PartialEq, Eq)]
pub struct FormalShape {
    pub width: usize,
    pub signed: bool,
}

/// A destination to which an output argument is copied.
pub struct OutputDestination {
    pub width: Option<usize>,
    pub targets: Vec<KeyedTarget>,
    /// What selects the destination, and what decides on the call.
    pub control: Option<usize>,
    pub selected: Option<Selected>,
    pub dynamic: bool,
    /// The keys that may be written, where the positions are not known.
    pub keys: Vec<u64>,
    pub resolved: bool,
    /// What selects the destination, and what decides on the call, one by one.
    pub dependencies: Vec<usize>,
}

/// An output argument of a call and the destinations to which it is copied.
pub struct OutputCopy<'a> {
    pub partition: &'a BitPartition,
    pub nodes: &'a Vec<NodeKey>,
    pub versions: &'a Vec<usize>,
    pub layout: &'a FormalVersionLayout,
    pub formal: Option<FormalShape>,
    pub destinations: &'a Vec<OutputDestination>,
}

/// The widths of the destinations from `i` on, together.
pub open spec fn widths_from(destinations: Seq<OutputDestination>, i: int) -> int
    decreases destinations.len() - i,
{
    if i < 0 || i >= destinations.len() {
        0
    } else {
        widths_from(destinations, i + 1) + match destinations[i].width {
            Some(width) => width as int,
            None => 0,
        }
    }
}

/// The value is written to all keys of a destination, without positions.
pub open spec fn assigned(before: SsaStore, after: SsaStore, destination: OutputDestination, versions: Seq<usize>, condition: PathCondition) -> bool {
    &&& if destination.resolved {
        writes::is_definition(after.versions@, before.versions@.len() as int, writes::whole_sources(versions + destination.dependencies@), condition)
    } else {
        writes::is_definition(after.versions@, before.versions@.len() as int, Seq::empty(), PathCondition { node: 0 })
    }
    &&& forall|i: int|
        0 <= i < destination.keys@.len() ==> writes::is_bound(
            before,
            after,
            #[trigger] destination.keys@[i],
            before.versions@.len() as usize,
            !destination.resolved || destination.dynamic,
        )
    &&& forall|key: u64| !destination.keys@.contains(key) ==> #[trigger] ssa::binding_of(after.current@, key) == ssa::binding_of(before.current@, key)
}

/// What came of copying an output argument.
#[derive(Clone, Copy, Debug, PartialEq, Eq)]
pub struct Copied {
    /// Positions are not known.
    pub partial: bool,
    /// All offsets on the way fit.
    pub fits: bool,
}

impl OutputDestination {
    pub open spec fn wf(self, nodes: Seq<NodeKey>, limit: int) -> bool {
        &&& forall|i: int| 0 <= i < self.targets@.len() ==> (#[trigger] self.targets@[i]).key < nodes.len()
        &&& forall|i: int| 0 <= i < self.keys@.len() ==> (#[trigger] self.keys@[i]) < nodes.len()
        &&& forall|i: int, j: int| 0 <= i < j < self.keys@.len() ==> (#[trigger] self.keys@[i]) != (#[trigger] self.keys@[j])
        &&& self.control matches Some(control) ==> control < limit
        &&& forall|i: int| 0 <= i < self.dependencies@.len() ==> (#[trigger] self.dependencies@[i]) < limit
    }
}

impl<'a> OutputCopy<'a> {
    /// The positions of all bits are known.
    pub open spec fn exact(self) -> bool {
        self.formal is Some && forall|i: int| 0 <= i < self.destinations@.len() ==> (#[trigger] self.destinations@[i]).width is Some
    }

    /// The copy to one destination: the last destination takes the lowest bits.
    pub open spec fn output(self, i: int) -> FormalOutput<'a> {
        FormalOutput {
            partition: self.partition,
            nodes: self.nodes,
            versions: self.versions,
            layout: self.layout,
            offset: widths_from(self.destinations@, i + 1) as usize,
            coercion: FormalOutputCoercion {
                actual_width: widths_from(self.destinations@, 0) as usize,
                formal_width: self.formal->0.width,
                formal_signed: self.formal->0.signed,
            },
            control: self.destinations@[i].control,
            selected: self.destinations@[i].selected,
        }
    }

    pub open spec fn wf(self, store: SsaStore) -> bool {
        &&& self.partition.wf()
        &&& layout::groups_wf(self.layout.groups@)
        &&& results::result_below(self.layout.groups@, store.versions@.len() as int)
        &&& forall|i: int| 0 <= i < self.versions@.len() ==> (#[trigger] self.versions@[i]) < store.versions@.len()
        &&& results::keys_known(store, self.nodes@)
        &&& forall|i: int| 0 <= i < self.destinations@.len() ==> (#[trigger] self.destinations@[i]).wf(self.nodes@, store.versions@.len() as int)
    }

    /// One destination is written.
    pub open spec fn written(self, before: SsaStore, after: SsaStore, paths: Seq<PathNode>, more: Seq<PathNode>, i: int, condition: PathCondition) -> bool {
        let destination = self.destinations@[i];
        if self.exact() {
            self.output(i).targets_written(
                before,
                after,
                paths,
                more,
                destination.targets@,
                destination.targets@.len() as int,
                condition,
                destination.dynamic,
            )
        } else {
            more == paths && assigned(before, after, destination, self.versions@, condition)
        }
    }

    /// The first `count` destinations are written, one after the other.
    pub open spec fn all_written(self, before: SsaStore, after: SsaStore, paths: Seq<PathNode>, more: Seq<PathNode>, count: int, condition: PathCondition) -> bool
        decreases count,
    {
        if count <= 0 {
            after == before && more == paths
        } else {
            exists|middle: SsaStore, between: Seq<PathNode>|
                self.all_written(before, middle, paths, between, count - 1, condition) && #[trigger] self.written(
                    middle,
                    after,
                    between,
                    more,
                    count - 1,
                    condition,
                )
        }
    }

    /// The destinations before `at` are written, and what is written to a target of the destination at
    /// `at` cannot be found.
    pub open spec fn destination_missing(
        self,
        before: SsaStore,
        middle: SsaStore,
        after: SsaStore,
        paths: Seq<PathNode>,
        between: Seq<PathNode>,
        more: Seq<PathNode>,
        at: int,
        condition: PathCondition,
    ) -> bool {
        &&& 0 <= at < self.destinations@.len()
        &&& self.all_written(before, middle, paths, between, at, condition)
        &&& self.output(at).targets_stop(
            middle,
            after,
            between,
            more,
            self.destinations@[at].targets@,
            condition,
            self.destinations@[at].dynamic,
        )
    }

    /// What is written to a target of one of the destinations cannot be found; the destinations before
    /// it are written.
    pub open spec fn destinations_stop(self, before: SsaStore, after: SsaStore, paths: Seq<PathNode>, more: Seq<PathNode>, condition: PathCondition) -> bool {
        exists|middle: SsaStore, between: Seq<PathNode>, at: int| #[trigger]
            self.destination_missing(before, middle, after, paths, between, more, at, condition)
    }

    /// The argument cannot be copied: the widths together do not fit, and nothing is written, or what
    /// is written to a destination cannot be found.
    pub open spec fn copy_stops(self, before: SsaStore, after: SsaStore, paths: Seq<PathNode>, more: Seq<PathNode>, condition: PathCondition) -> bool {
        self.exact() && if widths_from(self.destinations@, 0) > usize::MAX {
            after == before && more == paths
        } else {
            self.destinations_stop(before, after, paths, more, condition)
        }
    }

    proof fn lemma_wf_kept(self, before: SsaStore, after: SsaStore)
        requires
            self.wf(before),
            before.versions@.len() <= after.versions@.len(),
            results::keys_known(after, self.nodes@),
        ensures
            self.wf(after),
    {
        assert forall|g: int, k: int|
            0 <= g < self.layout.groups@.len() && 0 <= k < self.layout.groups@[g].regions@.len() implies (#[trigger] self.layout.groups@[g].regions@[k]).version
            < after.versions@.len() by {
            assert(self.layout.groups@[g].regions@[k].version < before.versions@.len());
        }
        assert forall|i: int| 0 <= i < self.destinations@.len() implies (#[trigger] self.destinations@[i]).wf(self.nodes@, after.versions@.len() as int) by {
            let destination = self.destinations@[i];
            assert(destination.wf(self.nodes@, before.versions@.len() as int));
            assert forall|k: int| 0 <= k < destination.dependencies@.len() implies (#[trigger] destination.dependencies@[k]) < after.versions@.len() by {
                assert(destination.dependencies@[k] < before.versions@.len());
            }
        }
    }

    /// The widths of all destinations together, where all are known and the sum fits.
    fn total_width(&self) -> (r: Option<usize>)
        ensures
            r matches Some(total) ==> total == widths_from(self.destinations@, 0) && forall|i: int|
                0 <= i < self.destinations@.len() ==> (#[trigger] self.destinations@[i]).width is Some,
            r is None ==> widths_from(self.destinations@, 0) > usize::MAX || exists|i: int|
                0 <= i < self.destinations@.len() && (#[trigger] self.destinations@[i]).width is None,
    {
        let mut total: usize = 0;
        let mut i: usize = self.destinations.len();
        while i > 0
            invariant
                i <= self.destinations@.len(),
                total == widths_from(self.destinations@, i as int),
                forall|k: int| i <= k < self.destinations@.len() ==> (#[trigger] self.destinations@[k]).width is Some,
            decreases i,
        {
            i = i - 1;
            let width: usize = match self.destinations[i].width {
                Some(width) => width,
                None => {
                    assert(self.destinations@[i as int].width is None);
                    return None;
                },
            };
            total = match total.checked_add(width) {
                Some(total) => total,
                None => {
                    proof {
                        lemma_widths(self.destinations@, 0, i as int);
                    }
                    return None;
                },
            };
        }
        Some(total)
    }

    /// All widths are known.
    fn widths_known(&self) -> (r: bool)
        ensures
            r == forall|i: int| 0 <= i < self.destinations@.len() ==> (#[trigger] self.destinations@[i]).width is Some,
    {
        let mut i: usize = 0;
        while i < self.destinations.len()
            invariant
                i <= self.destinations@.len(),
                forall|k: int| 0 <= k < i ==> (#[trigger] self.destinations@[k]).width is Some,
            decreases self.destinations@.len() - i,
        {
            if self.destinations[i].width.is_none() {
                assert(self.destinations@[i as int].width is None);
                return false;
            }
            i = i + 1;
        }
        true
    }

    /// Copies an output argument to its destinations. Where an offset does not fit, the destinations
    /// from there on are not written.
    pub fn copy_out(&self, store: &mut SsaStore, arena: &mut PathArena, condition: PathCondition) -> (r: Copied)
        requires
            self.wf(*old(store)),
            results::tied(*old(store), *old(arena)),
            old(arena).holds(condition),
        ensures
            self.wf(*final(store)),
            results::tied(*final(store), *final(arena)),
            arena::grows(old(arena)@, final(arena)@),
            writes::continues(*old(store), *final(store)),
            r.partial == !self.exact(),
            r.partial ==> r.fits,
            r.fits ==> self.all_written(*old(store), *final(store), old(arena)@, final(arena)@, self.destinations@.len() as int, condition),
            !r.partial && widths_from(self.destinations@, 0) > usize::MAX ==> !r.fits,
            !r.fits ==> self.copy_stops(*old(store), *final(store), old(arena)@, final(arena)@, condition),
    {
        proof {
            assert(writes::continues(*store, *store)) by {
                assert forall|depth: int| 0 <= depth < store.checkpoints@.len() implies #[trigger] store.saved(depth) == store.saved(depth) by {}
            }
        }
        match self.formal {
            Some(formal) => {
                if self.widths_known() {
                    return match self.total_width() {
                        Some(total) => {
                            let fits = self.copy_exactly(store, arena, condition, formal, total);
                            Copied { partial: false, fits }
                        },
                        None => Copied { partial: false, fits: false },
                    };
                }
            },
            None => {},
        }
        self.copy_partially(store, arena, condition);
        Copied { partial: true, fits: true }
    }

    fn copy_exactly(&self, store: &mut SsaStore, arena: &mut PathArena, condition: PathCondition, formal: FormalShape, total: usize) -> (r: bool)
        requires
            self.wf(*old(store)),
            results::tied(*old(store), *old(arena)),
            old(arena).holds(condition),
            self.exact(),
            self.formal == Some(formal),
            total == widths_from(self.destinations@, 0),
        ensures
            self.wf(*final(store)),
            results::tied(*final(store), *final(arena)),
            arena::grows(old(arena)@, final(arena)@),
            writes::continues(*old(store), *final(store)),
            r ==> self.all_written(*old(store), *final(store), old(arena)@, final(arena)@, self.destinations@.len() as int, condition),
            !r ==> self.destinations_stop(*old(store), *final(store), old(arena)@, final(arena)@, condition),
    {
        let ghost before = *store;
        let ghost paths = arena@;
        proof {
            assert(writes::continues(before, *store)) by {
                assert forall|depth: int| 0 <= depth < before.checkpoints@.len() implies #[trigger] store.saved(depth) == before.saved(depth) by {}
            }
        }
        let mut offset: usize = total;
        let mut i: usize = 0;
        while i < self.destinations.len()
            invariant
                i <= self.destinations@.len(),
                before == *old(store),
                paths == old(arena)@,
                paths.len() > condition.node,
                self.exact(),
                self.formal == Some(formal),
                total == widths_from(self.destinations@, 0),
                offset == widths_from(self.destinations@, i as int),
                self.wf(*store),
                results::tied(*store, *arena),
                arena::grows(paths, arena@),
                writes::continues(before, *store),
                self.all_written(before, *store, paths, arena@, i as int, condition),
            decreases self.destinations@.len() - i,
        {
            let destination = &self.destinations[i];
            let ghost known = *store;
            let ghost between = arena@;
            proof {
                assert(self.destinations@[i as int].width is Some);
                assert(self.destinations@[i as int].wf(self.nodes@, store.versions@.len() as int));
                lemma_widths(self.destinations@, i as int, i + 1);
            }
            let width: usize = destination.width.unwrap();
            offset = offset - width;
            let output = FormalOutput {
                partition: self.partition,
                nodes: self.nodes,
                versions: self.versions,
                layout: self.layout,
                offset,
                coercion: FormalOutputCoercion { actual_width: total, formal_width: formal.width, formal_signed: formal.signed },
                control: destination.control,
                selected: destination.selected,
            };
            assert(output == self.output(i as int));
            let fits = output.write_formal_output(store, arena, &destination.targets, condition, destination.dynamic);
            proof {
                arena::growth_is_transitive(paths, between, arena@);
                writes::continues_is_transitive(before, known, *store);
                self.lemma_wf_kept(known, *store);
            }
            if !fits {
                assert(self.destination_missing(before, known, *store, paths, between, arena@, i as int, condition));
                return false;
            }
            proof {
                let n = i + 1;
                assert(self.written(known, *store, between, arena@, n - 1, condition));
                assert(self.all_written(before, *store, paths, arena@, n, condition));
            }
            i = i + 1;
        }
        true
    }

    fn copy_partially(&self, store: &mut SsaStore, arena: &PathArena, condition: PathCondition)
        requires
            self.wf(*old(store)),
            results::tied(*old(store), *arena),
            arena.holds(condition),
            !self.exact(),
        ensures
            self.wf(*final(store)),
            results::tied(*final(store), *arena),
            writes::continues(*old(store), *final(store)),
            self.all_written(*old(store), *final(store), arena@, arena@, self.destinations@.len() as int, condition),
    {
        let ghost before = *store;
        proof {
            assert(writes::continues(before, *store)) by {
                assert forall|depth: int| 0 <= depth < before.checkpoints@.len() implies #[trigger] store.saved(depth) == before.saved(depth) by {}
            }
        }
        let mut i: usize = 0;
        while i < self.destinations.len()
            invariant
                i <= self.destinations@.len(),
                before == *old(store),
                arena@.len() > condition.node,
                !self.exact(),
                self.wf(*store),
                results::tied(*store, *arena),
                writes::continues(before, *store),
                self.all_written(before, *store, arena@, arena@, i as int, condition),
            decreases self.destinations@.len() - i,
        {
            let destination = &self.destinations[i];
            let ghost known = *store;
            let mut dependencies: Vec<usize> = Vec::new();
            results::append_versions(&mut dependencies, self.versions);
            results::append_versions(&mut dependencies, &destination.dependencies);
            proof {
                assert(self.destinations@[i as int].wf(self.nodes@, store.versions@.len() as int));
                assert(dependencies@ =~= self.versions@ + destination.dependencies@);
            }
            write_destination(store, &destination.keys, destination.resolved, destination.dynamic, &dependencies, condition);
            proof {
                writes::continues_is_transitive(before, known, *store);
                assert(results::keys_known(*store, self.nodes@)) by {
                    lemma_keys_kept(known, *store, self.nodes@, destination.keys@);
                }
                self.lemma_wf_kept(known, *store);
                let n = i + 1;
                assert(assigned(known, *store, *destination, self.versions@, condition));
                assert(self.written(known, *store, arena@, arena@, n - 1, condition));
                assert(self.all_written(before, *store, arena@, arena@, n, condition));
            }
            i = i + 1;
        }
    }
}

/// The value of an output argument, as it was when the function was left.
pub struct FormalValue {
    pub versions: Vec<usize>,
    pub layout: FormalVersionLayout,
}

impl FormalValue {
    pub open spec fn below(self, limit: int) -> bool {
        &&& layout::groups_wf(self.layout.groups@)
        &&& results::result_below(self.layout.groups@, limit)
        &&& forall|i: int| 0 <= i < self.versions@.len() ==> (#[trigger] self.versions@[i]) < limit
    }

    pub proof fn lemma_below_grows(self, a: int, b: int)
        requires
            self.below(a),
            a <= b,
        ensures
            self.below(b),
    {
        assert forall|g: int, k: int|
            0 <= g < self.layout.groups@.len() && 0 <= k < self.layout.groups@[g].regions@.len() implies (#[trigger] self.layout.groups@[g].regions@[k]).version < b
            && self.layout.groups@[g].regions@[k].packed.wf() by {
            assert(self.layout.groups@[g].regions@[k].version < a);
        }
    }
}

/// Where a destination lies in an output argument.
#[derive(Clone, Copy, Debug, PartialEq, Eq)]
pub struct CopyPlace {
    pub offset: usize,
    pub coercion: FormalOutputCoercion,
}

/// The copy of an output argument to one destination, by positions where its place is known.
pub struct FormalCopy<'a> {
    pub partition: &'a BitPartition,
    pub nodes: &'a Vec<NodeKey>,
    pub value: &'a FormalValue,
    pub place: Option<CopyPlace>,
}

impl<'a> FormalCopy<'a> {
    pub open spec fn wf(self, store: SsaStore) -> bool {
        &&& self.partition.wf()
        &&& self.value.below(store.versions@.len() as int)
        &&& results::keys_known(store, self.nodes@)
    }

    pub open spec fn output(self, destination: OutputDestination) -> FormalOutput<'a> {
        FormalOutput {
            partition: self.partition,
            nodes: self.nodes,
            versions: &self.value.versions,
            layout: &self.value.layout,
            offset: self.place->0.offset,
            coercion: self.place->0.coercion,
            control: destination.control,
            selected: destination.selected,
        }
    }

    /// The destination is written.
    pub open spec fn written(
        self,
        destination: OutputDestination,
        before: SsaStore,
        after: SsaStore,
        paths: Seq<PathNode>,
        more: Seq<PathNode>,
        condition: PathCondition,
    ) -> bool {
        match self.place {
            Some(_) => self.output(destination).targets_written(
                before,
                after,
                paths,
                more,
                destination.targets@,
                destination.targets@.len() as int,
                condition,
                destination.dynamic,
            ),
            None => more == paths && assigned(before, after, destination, self.value.versions@, condition),
        }
    }

    /// What is written to a target of the destination cannot be found.
    pub open spec fn stops(
        self,
        destination: OutputDestination,
        before: SsaStore,
        after: SsaStore,
        paths: Seq<PathNode>,
        more: Seq<PathNode>,
        condition: PathCondition,
    ) -> bool {
        self.place is Some && self.output(destination).targets_stop(
            before,
            after,
            paths,
            more,
            destination.targets@,
            condition,
            destination.dynamic,
        )
    }

    /// Copies the argument to a destination. The answer is whether all offsets on the way fit.
    pub fn copy(&self, store: &mut SsaStore, arena: &mut PathArena, destination: &OutputDestination, condition: PathCondition) -> (r: bool)
        requires
            self.wf(*old(store)),
            results::tied(*old(store), *old(arena)),
            old(arena).holds(condition),
            destination.wf(self.nodes@, old(store).versions@.len() as int),
        ensures
            results::tied(*final(store), *final(arena)),
            results::keys_known(*final(store), self.nodes@),
            arena::grows(old(arena)@, final(arena)@),
            writes::continues(*old(store), *final(store)),
            r ==> self.written(*destination, *old(store), *final(store), old(arena)@, final(arena)@, condition),
            !r ==> self.stops(*destination, *old(store), *final(store), old(arena)@, final(arena)@, condition),
    {
        let ghost before = *store;
        match self.place {
            Some(place) => {
                let output = FormalOutput {
                    partition: self.partition,
                    nodes: self.nodes,
                    versions: &self.value.versions,
                    layout: &self.value.layout,
                    offset: place.offset,
                    coercion: place.coercion,
                    control: destination.control,
                    selected: destination.selected,
                };
                assert(output == self.output(*destination));
                output.write_formal_output(store, arena, &destination.targets, condition, destination.dynamic)
            },
            None => {
                let mut dependencies: Vec<usize> = Vec::new();
                results::append_versions(&mut dependencies, &self.value.versions);
                results::append_versions(&mut dependencies, &destination.dependencies);
                assert(dependencies@ =~= self.value.versions@ + destination.dependencies@);
                assert(store.guards_in(arena@));
                write_destination(store, &destination.keys, destination.resolved, destination.dynamic, &dependencies, condition);
                proof {
                    lemma_keys_kept(before, *store, self.nodes@, destination.keys@);
                    assert(assigned(before, *store, *destination, self.value.versions@, condition));
                }
                true
            },
        }
    }
}

proof fn lemma_widths(destinations: Seq<OutputDestination>, i: int, j: int)
    requires
        0 <= i <= j <= destinations.len(),
    ensures
        widths_from(destinations, i) >= widths_from(destinations, j),
        widths_from(destinations, j) >= 0,
    decreases destinations.len() - i,
{
    if i < j {
        lemma_widths(destinations, i + 1, j);
    } else if i < destinations.len() {
        lemma_widths(destinations, i + 1, j + 1);
    }
}

/// The keys stay known as long as entries of known keys are made only.
pub proof fn lemma_keys_kept(before: SsaStore, after: SsaStore, nodes: Seq<NodeKey>, keys: Seq<u64>)
    requires
        before.wf(),
        after.wf(),
        results::keys_known(before, nodes),
        forall|i: int| 0 <= i < keys.len() ==> (#[trigger] keys[i]) < nodes.len(),
        forall|k: u64| !keys.contains(k) && #[trigger] after.entries@.contains_key(k) ==> before.entries@.contains_key(k),
    ensures
        results::keys_known(after, nodes),
{
    assert forall|i: int| 0 <= i < after.versions@.len() implies ((#[trigger] after.versions@[i]) matches Version::Entry(k) ==> k < nodes.len()) by {
        if let Version::Entry(k) = after.versions@[i] {
            assert(after.entries@.contains_key(k));
            if keys.contains(k) {
                let at = choose|at: int| 0 <= at < keys.len() && keys[at] == k;
                assert(keys[at] < nodes.len());
            } else {
                assert(before.entries@.contains_key(k));
                assert(before.versions@[before.entries@[k] as int] == Version::Entry(k));
            }
        }
    }
}

} // verus!
