//! Versions for what expressions were found to depend on.
use vstd::prelude::*;
use std::collections::HashMap;
use crate::arena;
use crate::arena::{PathArena, PathCondition, PathNode};
use crate::arms::Run;
use crate::flows::{Decision, FlowNode, FlowRef, FlowView, Flows, Origin};
use crate::layout;
use crate::layout::{CallResult, EvaluationCache};
use crate::partition::{BitPartition, NodeKey};
use crate::path;
use crate::path::{BranchId, Choice};
use crate::relation::{PositionRelation, SourceRef};
use crate::results;
use crate::results::select_call_result;
use crate::ssa;
use crate::ssa::{SsaStore, Version};
use crate::writes;

verus! {

/// The path with one arm chosen at a branch.
pub open spec fn chosen(before: Seq<Choice>, branch: BranchId, arm: usize, after: Seq<Choice>) -> bool {
    &&& path::path_wf(after)
    &&& forall|c: Choice| #[trigger]
        after.contains(c) <==> (c.branch == branch && c.allowed == seq![Run { start: arm, end: (arm + 1) as usize }] && branch.arms > 1) || (c.branch != branch
            && before.contains(c))
}

/// The path on which the first `count` choices are made.
pub open spec fn decided(
    branches: Map<usize, BranchId>,
    before: Seq<Choice>,
    decisions: Seq<Decision>,
    count: int,
    after: Seq<Choice>,
) -> bool
    decreases count,
{
    if count <= 0 {
        after == before
    } else {
        exists|middle: Seq<Choice>|
            decided(branches, before, decisions, count - 1, middle) && branches.contains_key(decisions[count - 1].occurrence) && #[trigger] chosen(
                middle,
                branches[decisions[count - 1].occurrence],
                decisions[count - 1].arm,
                after,
            )
    }
}

/// Every expression that chooses has a branch, and the branch has the arm.
pub open spec fn decidable(branches: Map<usize, BranchId>, decisions: Seq<Decision>) -> bool {
    forall|i: int|
        0 <= i < decisions.len() ==> branches.contains_key((#[trigger] decisions[i]).occurrence) && decisions[i].arm < branches[decisions[i].occurrence].arms
}

/// The condition under which choices are made; nothing where an expression has no such branch.
fn decide_all(arena: &mut PathArena, branches: &HashMap<usize, BranchId>, base: PathCondition, decisions: &Vec<Decision>) -> (r: Option<PathCondition>)
    requires
        old(arena).wf(),
        old(arena).holds(base),
    ensures
        final(arena).wf(),
        arena::grows(old(arena)@, final(arena)@),
        r matches Some(condition) ==> final(arena).holds(condition) && decided(
            branches@,
            old(arena).path(base),
            decisions@,
            decisions@.len() as int,
            final(arena).path(condition),
        ),
        r is Some <==> decidable(branches@, decisions@),
{
    broadcast use vstd::std_specs::hash::group_hash_axioms;

    let ghost start = *arena;
    let ghost whole = arena.path(base);
    let mut condition = base;
    let mut i: usize = 0;
    while i < decisions.len()
        invariant
            i <= decisions@.len(),
            start == *old(arena),
            arena.wf(),
            arena.holds(condition),
            arena::grows(start@, arena@),
            decided(branches@, whole, decisions@, i as int, arena.path(condition)),
            forall|k: int|
                0 <= k < i ==> branches@.contains_key((#[trigger] decisions@[k]).occurrence) && decisions@[k].arm < branches@[decisions@[k].occurrence].arms,
        decreases decisions@.len() - i,
    {
        let decision = decisions[i];
        let ghost known = *arena;
        let ghost middle = arena.path(condition);
        let branch = match branches.get(&decision.occurrence) {
            Some(branch) => *branch,
            None => {
                assert(!branches@.contains_key(decisions@[i as int].occurrence));
                return None;
            },
        };
        if decision.arm >= branch.arms {
            assert(!(decisions@[i as int].arm < branches@[decisions@[i as int].occurrence].arms));
            return None;
        }
        condition = arena.with_choice(condition, branch, decision.arm);
        proof {
            arena::growth_is_transitive(start@, known@, arena@);
            let n = i + 1;
            assert(chosen(middle, branches@[decisions@[n - 1].occurrence], decisions@[n - 1].arm, arena.path(condition)));
            assert(decided(branches@, whole, decisions@, n, arena.path(condition)));
        }
        i = i + 1;
    }
    Some(condition)
}

/// The versions that stand for an origin.
pub open spec fn image_of(images: Seq<Seq<usize>>, origin: Origin) -> Seq<usize> {
    match origin {
        Origin::Version(version) => seq![version],
        Origin::Node(node) => if node < images.len() {
            images[node as int]
        } else {
            Seq::empty()
        },
    }
}

/// The sources, by versions.
pub open spec fn realized(images: Seq<Seq<usize>>, refs: Seq<FlowRef>) -> Seq<SourceRef>
    decreases refs.len(),
{
    if refs.len() == 0 {
        Seq::empty()
    } else {
        let last = refs.last();
        realized(images, refs.drop_last()) + image_of(images, last.origin).map_values(
            |v: usize| SourceRef { version: v, relation: last.relation },
        )
    }
}

/// All versions that the sources name exist.
pub open spec fn refs_exist(refs: Seq<FlowRef>, limit: int) -> bool {
    forall|i: int| 0 <= i < refs.len() ==> ((#[trigger] refs[i]).origin matches Origin::Version(version) ==> version < limit)
}

/// A step that leads along one axis.
pub open spec fn strides(step: PositionRelation) -> bool {
    (step.array == Some(0isize) && step.packed is Some && step.packed->0 != 0) || (step.packed == Some(0isize) && step.array is Some && step.array->0 != 0)
}

/// What expressions are realized with.
pub struct Realizer<'a> {
    pub partition: &'a BitPartition,
    /// The nodes by the numbers of their keys.
    pub nodes: &'a Vec<NodeKey>,
    pub cache: &'a EvaluationCache,
    /// The branches of the expressions that choose.
    pub branches: &'a HashMap<usize, BranchId>,
    /// Where the expression is evaluated.
    pub base: PathCondition,
}

pub open spec fn views(images: Seq<Vec<usize>>) -> Seq<Seq<usize>> {
    images.map_values(|v: Vec<usize>| v@)
}

impl<'a> Realizer<'a> {
    pub open spec fn wf(self, store: SsaStore) -> bool {
        &&& self.partition.wf()
        &&& results::keys_known(store, self.nodes@)
        &&& forall|occurrence: usize| #[trigger]
            self.cache.calls@.dom().contains(occurrence) ==> layout::groups_wf(self.cache.calls@[occurrence].region_groups@) && results::result_below(
                self.cache.calls@[occurrence].region_groups@,
                store.versions@.len() as int,
            )
    }

    proof fn lemma_wf_kept(self, before: SsaStore, after: SsaStore)
        requires
            self.wf(before),
            ssa::versions_grow(before.versions@, after.versions@),
            results::keys_known(after, self.nodes@),
        ensures
            self.wf(after),
    {
        assert forall|occurrence: usize| #[trigger] self.cache.calls@.dom().contains(occurrence) implies results::result_below(
            self.cache.calls@[occurrence].region_groups@,
            after.versions@.len() as int,
        ) by {
            let groups = self.cache.calls@[occurrence].region_groups@;
            assert(results::result_below(groups, before.versions@.len() as int));
            assert forall|g: int, k: int| 0 <= g < groups.len() && 0 <= k < groups[g].regions@.len() implies (#[trigger] groups[g].regions@[k]).version < after.versions@.len()
                && groups[g].regions@[k].packed.wf() by {
                assert(groups[g].regions@[k].version < before.versions@.len());
            }
        }
    }

    /// The versions are made for the node.
    pub open spec fn node_realized(
        self,
        before: SsaStore,
        after: SsaStore,
        paths: Seq<PathNode>,
        more: Seq<PathNode>,
        images: Seq<Seq<usize>>,
        node: FlowView,
        image: Seq<usize>,
    ) -> bool {
        match node {
            FlowView::Opaque => image.len() == 1 && writes::is_definition(after.versions@, image[0] as int, Seq::empty(), PathCondition { node: 0 }),
            FlowView::Call { occurrence, request } => self.cache.calls@.dom().contains(occurrence) && results::selects_result(
                before,
                after,
                paths,
                more,
                *self.partition,
                self.nodes@,
                self.cache.calls@[occurrence].region_groups@,
                request,
                image,
            ),
            FlowView::Repeated { source, initial, step, domain } => {
                &&& image.len() == image_of(images, source).len()
                &&& forall|k: int|
                    0 <= k < image.len() ==> (#[trigger] image[k]) < after.versions@.len() && after.versions@[image[k] as int] == (Version::Repeated {
                        source: image_of(images, source)[k],
                        initial,
                        step,
                        domain,
                    })
            },
            FlowView::Guarded { sources, decisions } => image.len() == 1 && self.guarded_realized(
                after.versions@,
                paths,
                more,
                image[0] as int,
                realized(images, sources),
                decisions,
            ),
        }
    }

    /// The version is made from the sources for the choices.
    pub open spec fn guarded_realized(
        self,
        versions: Seq<Version>,
        paths: Seq<PathNode>,
        more: Seq<PathNode>,
        version: int,
        sources: Seq<SourceRef>,
        decisions: Seq<Decision>,
    ) -> bool {
        exists|condition: PathCondition| #[trigger]
            writes::is_definition(versions, version, sources, condition) && condition.node < more.len() && decided(
                self.branches@,
                arena::path_of(paths, self.base.node as int),
                decisions,
                decisions.len() as int,
                arena::path_of(more, condition.node as int),
            )
    }

    /// The versions of an origin.
    fn find_image(&self, images: &Vec<Vec<usize>>, origin: Origin, limit: usize) -> (r: Option<Vec<usize>>)
        requires
            forall|n: int, k: int| 0 <= n < images@.len() && 0 <= k < images@[n]@.len() ==> (#[trigger] images@[n]@[k]) < limit,
        ensures
            match r {
                Some(list) => list@ == image_of(views(images@), origin) && forall|k: int| 0 <= k < list@.len() ==> (#[trigger] list@[k]) < limit,
                None => origin matches Origin::Version(version) && version >= limit,
            },
    {
        let mut r: Vec<usize> = Vec::new();
        match origin {
            Origin::Version(version) => {
                if version >= limit {
                    return None;
                }
                r.push(version);
                assert(r@ =~= seq![version]);
            },
            Origin::Node(node) => {
                if node < images.len() {
                    let image = &images[node];
                    let mut k: usize = 0;
                    while k < image.len()
                        invariant
                            k <= image@.len(),
                            node < images@.len(),
                            *image == images@[node as int],
                            forall|n: int, k: int| 0 <= n < images@.len() && 0 <= k < images@[n]@.len() ==> (#[trigger] images@[n]@[k]) < limit,
                            r@ == image@.take(k as int),
                            forall|j: int| 0 <= j < r@.len() ==> (#[trigger] r@[j]) < limit,
                        decreases image@.len() - k,
                    {
                        assert(images@[node as int]@[k as int] < limit);
                        r.push(image[k]);
                        k = k + 1;
                        assert(r@ =~= image@.take(k as int));
                    }
                    assert(r@ =~= views(images@)[node as int]);
                }
            },
        }
        Some(r)
    }

    /// Sources by versions; nothing where a version does not exist.
    pub fn realize_refs(&self, images: &Vec<Vec<usize>>, refs: &Vec<FlowRef>, limit: usize) -> (r: Option<Vec<SourceRef>>)
        requires
            forall|n: int, k: int| 0 <= n < images@.len() && 0 <= k < images@[n]@.len() ==> (#[trigger] images@[n]@[k]) < limit,
        ensures
            match r {
                Some(list) => list@ == realized(views(images@), refs@) && ssa::sources_before(list@, limit as int),
                None => true,
            },
            r is Some <==> refs_exist(refs@, limit as int),
    {
        let mut r: Vec<SourceRef> = Vec::new();
        let mut i: usize = 0;
        while i < refs.len()
            invariant
                i <= refs@.len(),
                forall|n: int, k: int| 0 <= n < images@.len() && 0 <= k < images@[n]@.len() ==> (#[trigger] images@[n]@[k]) < limit,
                r@ == realized(views(images@), refs@.take(i as int)),
                ssa::sources_before(r@, limit as int),
                refs_exist(refs@.take(i as int), limit as int),
            decreases refs@.len() - i,
        {
            let found = refs[i];
            let ghost before = r@;
            let image = match self.find_image(images, found.origin, limit) {
                Some(image) => image,
                None => {
                    assert(refs@[i as int].origin is Version);
                    return None;
                },
            };
            crate::outputs::push_related(&mut r, &image, found.relation);
            proof {
                assert(refs@.take(i + 1).drop_last() =~= refs@.take(i as int));
                let added = crate::outputs::all_related(image@, found.relation);
                assert forall|k: int| 0 <= k < r@.len() implies (#[trigger] r@[k]).version < limit by {
                    if k < before.len() {
                        assert(before[k].version < limit);
                    } else {
                        assert(r@[k] == added[k - before.len()]);
                        assert(image@[k - before.len()] < limit);
                    }
                }
                assert(r@ =~= realized(views(images@), refs@.take(i + 1)));
                assert forall|k: int| 0 <= k < i + 1 implies ((#[trigger] refs@.take(i + 1)[k]).origin matches Origin::Version(version) ==> version < limit) by {
                    if k < i {
                        assert(refs@.take(i as int)[k] == refs@.take(i + 1)[k]);
                    } else if let Origin::Version(version) = found.origin {
                        assert(image@[0] == version);
                    }
                }
            }
            i = i + 1;
        }
        assert(refs@.take(i as int) =~= refs@);
        Some(r)
    }

    /// Something that a node needs is missing: the result of the call, a proper request of it, a version
    /// that it names, a step along one axis or a branch of a choice.
    pub open spec fn node_lacks(self, limit: int, node: FlowView) -> bool {
        match node {
            FlowView::Opaque => false,
            FlowView::Call { occurrence, request } => !self.cache.calls@.dom().contains(occurrence) || (request matches Some(region) && !region.packed.wf()),
            FlowView::Repeated { source, initial, step, domain } => !strides(step) || (source matches Origin::Version(version) && version >= limit),
            FlowView::Guarded { sources, decisions } => !refs_exist(sources, limit) || !decidable(self.branches@, decisions),
        }
    }

    /// A requested part of the result of the call has nothing that stands for it.
    pub open spec fn node_stops(self, before: SsaStore, after: SsaStore, paths: Seq<PathNode>, more: Seq<PathNode>, node: FlowView) -> bool {
        node matches FlowView::Call { occurrence, request } && self.cache.calls@.dom().contains(occurrence) && results::selection_stops(
            before,
            after,
            paths,
            more,
            *self.partition,
            self.nodes@,
            self.cache.calls@[occurrence].region_groups@,
            request,
        )
    }

    /// Versions for one node; nothing where something that it needs is missing, or an offset on the way
    /// does not fit.
    fn realize_node(&self, store: &mut SsaStore, arena: &mut PathArena, images: &Vec<Vec<usize>>, node: &FlowNode) -> (r: Option<Vec<usize>>)
        requires
            self.wf(*old(store)),
            results::tied(*old(store), *old(arena)),
            old(arena).holds(self.base),
            forall|n: int, k: int| 0 <= n < images@.len() && 0 <= k < images@[n]@.len() ==> (#[trigger] images@[n]@[k]) < old(store).versions@.len(),
        ensures
            self.wf(*final(store)),
            results::tied(*final(store), *final(arena)),
            arena::grows(old(arena)@, final(arena)@),
            writes::continues(*old(store), *final(store)),
            final(store).current@ == old(store).current@,
            r matches Some(list) ==> forall|k: int| 0 <= k < list@.len() ==> (#[trigger] list@[k]) < final(store).versions@.len(),
            r matches Some(list) ==> self.node_realized(*old(store), *final(store), old(arena)@, final(arena)@, views(images@), node.shown(), list@),
            self.node_lacks(old(store).versions@.len() as int, node.shown()) ==> r is None && *final(store) == *old(store),
            r is None ==> self.node_lacks(old(store).versions@.len() as int, node.shown()) || self.node_stops(
                *old(store),
                *final(store),
                old(arena)@,
                final(arena)@,
                node.shown(),
            ),
    {
        broadcast use vstd::std_specs::hash::group_hash_axioms;

        let ghost before = *store;
        let ghost paths = arena@;
        proof {
            lemma_continues_itself(before);
        }
        let mut r: Vec<usize> = Vec::new();
        match node {
            FlowNode::Opaque => {
                let nothing: Vec<SourceRef> = Vec::new();
                let version: usize = store.related_definition(&nothing);
                r.push(version);
                proof {
                    lemma_same_state(before, *store);
                    lemma_no_new_keys(before, *store, self.nodes@);
                    self.lemma_wf_kept(before, *store);
                    assert(nothing@ =~= Seq::empty());
                    assert(writes::is_definition(store.versions@, r@[0] as int, Seq::empty(), PathCondition { node: 0 }));
                    assert(self.node_realized(before, *store, paths, arena@, views(images@), node.shown(), r@));
                }
            },
            FlowNode::Call { occurrence, request } => {
                let result: &CallResult = match self.cache.calls.get(occurrence) {
                    Some(result) => result,
                    None => {
                        return None;
                    },
                };
                assert(self.cache.calls@.dom().contains(*occurrence));
                if let Some(region) = request {
                    if region.packed.length == 0 || region.packed.start > usize::MAX - region.packed.length {
                        return None;
                    }
                }
                let found = select_call_result(store, arena, self.partition, self.nodes, result, *request);
                proof {
                    self.lemma_wf_kept(before, *store);
                }
                return found;
            },
            FlowNode::Repeated { source, initial, step, domain } => {
                let image = match self.find_image(images, *source, store.versions.len()) {
                    Some(image) => image,
                    None => {
                        return None;
                    },
                };
                let along: bool = match (step.array, step.packed) {
                    (Some(array), Some(packed)) => (array == 0 && packed != 0) || (packed == 0 && array != 0),
                    _ => false,
                };
                if !along {
                    return None;
                }
                let mut k: usize = 0;
                while k < image.len()
                    invariant
                        k <= image@.len(),
                        before == *old(store),
                        self.wf(*store),
                        strides(*step),
                        store.wf(),
                        arena.wf(),
                        store.guards_in(arena@),
                        writes::continues(before, *store),
                        store.current@ == before.current@,
                        forall|j: int| 0 <= j < image@.len() ==> (#[trigger] image@[j]) < before.versions@.len(),
                        r@.len() == k,
                        forall|j: int|
                            0 <= j < k ==> (#[trigger] r@[j]) < store.versions@.len() && store.versions@[r@[j] as int] == (Version::Repeated {
                                source: image@[j],
                                initial: *initial,
                                step: *step,
                                domain: *domain,
                            }),
                    decreases image@.len() - k,
                {
                    let ghost known = *store;
                    assert(image@[k as int] < before.versions@.len());
                    let version: usize = store.repeated(image[k], *initial, *step, *domain);
                    r.push(version);
                    proof {
                        lemma_same_state(known, *store);
                        lemma_no_new_keys(known, *store, self.nodes@);
                        self.lemma_wf_kept(known, *store);
                        writes::continues_is_transitive(before, known, *store);
                        assert forall|j: int| 0 <= j < k + 1 implies (#[trigger] r@[j]) < store.versions@.len() && store.versions@[r@[j] as int] == (Version::Repeated {
                            source: image@[j],
                            initial: *initial,
                            step: *step,
                            domain: *domain,
                        }) by {
                            if j < k {
                                assert(known.versions@[r@[j] as int] == store.versions@[r@[j] as int]);
                            }
                        }
                    }
                    k = k + 1;
                }
                proof {
                    assert(image@ == image_of(views(images@), *source));
                    if let Origin::Version(version) = *source {
                        assert(image@[0] == version);
                    }
                    assert(self.node_realized(before, *store, paths, arena@, views(images@), node.shown(), r@));
                }
            },
            FlowNode::Guarded { sources, decisions } => {
                let list = match self.realize_refs(images, sources, store.versions.len()) {
                    Some(list) => list,
                    None => {
                        return None;
                    },
                };
                let condition = match decide_all(arena, self.branches, self.base, decisions) {
                    Some(condition) => condition,
                    None => {
                        proof {
                            ssa::store_survives_growth(*store, paths, arena@);
                        }
                        return None;
                    },
                };
                proof {
                    ssa::store_survives_growth(*store, paths, arena@);
                }
                let version: usize = store.related_definition_guarded(&list, condition);
                r.push(version);
                proof {
                    lemma_same_state(before, *store);
                    lemma_no_new_keys(before, *store, self.nodes@);
                    self.lemma_wf_kept(before, *store);
                    assert(writes::is_definition(store.versions@, r@[0] as int, realized(views(images@), sources@), condition));
                    assert(decided(self.branches@, arena::path_of(paths, self.base.node as int), decisions@, decisions@.len() as int, arena::path_of(arena@, condition.node as int)));
                    assert(self.guarded_realized(store.versions@, paths, arena@, r@[0] as int, realized(views(images@), sources@), decisions@));
                    assert(self.node_realized(before, *store, paths, arena@, views(images@), node.shown(), r@));
                }
            },
        }
        Some(r)
    }

    /// The versions of all nodes are made, one after the other.
    pub open spec fn all_realized(
        self,
        before: SsaStore,
        after: SsaStore,
        paths: Seq<PathNode>,
        more: Seq<PathNode>,
        nodes: Seq<FlowNode>,
        count: int,
        images: Seq<Seq<usize>>,
    ) -> bool
        decreases count,
    {
        if count <= 0 {
            after == before && more == paths && images.len() == 0
        } else {
            images.len() == count && exists|middle: SsaStore, between: Seq<PathNode>|
                self.all_realized(before, middle, paths, between, nodes, count - 1, images.drop_last()) && #[trigger] self.node_realized(
                    middle,
                    after,
                    between,
                    more,
                    images.drop_last(),
                    nodes[count - 1].shown(),
                    images.last(),
                )
        }
    }

    /// The versions of the nodes before `at` are made, and those of the node at `at` cannot be: something
    /// that it needs is missing, or an offset on the way does not fit.
    pub open spec fn node_missing(
        self,
        before: SsaStore,
        middle: SsaStore,
        after: SsaStore,
        paths: Seq<PathNode>,
        between: Seq<PathNode>,
        more: Seq<PathNode>,
        nodes: Seq<FlowNode>,
        at: int,
        images: Seq<Seq<usize>>,
    ) -> bool {
        &&& 0 <= at < nodes.len()
        &&& self.all_realized(before, middle, paths, between, nodes, at, images)
        &&& if self.node_lacks(middle.versions@.len() as int, nodes[at].shown()) {
            after == middle && arena::grows(between, more)
        } else {
            self.node_stops(middle, after, between, more, nodes[at].shown())
        }
    }

    /// Versions for everything that was made while expressions were looked at; nothing where those of a
    /// node cannot be made.
    pub fn realize(&self, store: &mut SsaStore, arena: &mut PathArena, flows: &Flows) -> (r: Option<Vec<Vec<usize>>>)
        requires
            self.wf(*old(store)),
            results::tied(*old(store), *old(arena)),
            old(arena).holds(self.base),
        ensures
            self.wf(*final(store)),
            results::tied(*final(store), *final(arena)),
            arena::grows(old(arena)@, final(arena)@),
            writes::continues(*old(store), *final(store)),
            final(store).current@ == old(store).current@,
            r matches Some(images) ==> forall|n: int, k: int| 0 <= n < images@.len() && 0 <= k < images@[n]@.len() ==> (#[trigger] images@[n]@[k]) < final(store).versions@.len(),
            r matches Some(images) ==> self.all_realized(
                *old(store),
                *final(store),
                old(arena)@,
                final(arena)@,
                flows.nodes@,
                flows.nodes@.len() as int,
                views(images@),
            ),
            r is None ==> exists|middle: SsaStore, between: Seq<PathNode>, at: int, images: Seq<Seq<usize>>| #[trigger]
                self.node_missing(
                    *old(store),
                    middle,
                    *final(store),
                    old(arena)@,
                    between,
                    final(arena)@,
                    flows.nodes@,
                    at,
                    images,
                ),
    {
        let ghost before = *store;
        let ghost paths = arena@;
        proof {
            lemma_continues_itself(before);
        }
        let mut images: Vec<Vec<usize>> = Vec::new();
        assert(views(images@) =~= Seq::empty());
        let mut i: usize = 0;
        while i < flows.nodes.len()
            invariant
                i <= flows.nodes@.len(),
                before == *old(store),
                paths == old(arena)@,
                self.base.node < paths.len(),
                self.wf(*store),
                results::tied(*store, *arena),
                arena::grows(paths, arena@),
                writes::continues(before, *store),
                store.current@ == before.current@,
                images@.len() == i,
                forall|n: int, k: int| 0 <= n < images@.len() && 0 <= k < images@[n]@.len() ==> (#[trigger] images@[n]@[k]) < store.versions@.len(),
                self.all_realized(before, *store, paths, arena@, flows.nodes@, i as int, views(images@)),
            decreases flows.nodes@.len() - i,
        {
            let ghost known = *store;
            let ghost between = arena@;
            let ghost shorter = images@;
            let image = self.realize_node(store, arena, &images, &flows.nodes[i]);
            proof {
                arena::growth_is_transitive(paths, between, arena@);
                writes::continues_is_transitive(before, known, *store);
            }
            let image = match image {
                Some(image) => image,
                None => {
                    assert(self.node_missing(before, known, *store, paths, between, arena@, flows.nodes@, i as int, views(shorter)));
                    return None;
                },
            };
            images.push(image);
            proof {
                let n = i + 1;
                assert(views(images@).drop_last() =~= views(shorter));
                assert(views(images@).last() == image@);
                assert(self.node_realized(known, *store, between, arena@, views(images@).drop_last(), flows.nodes@[n - 1].shown(), views(images@).last()));
                assert(self.all_realized(before, *store, paths, arena@, flows.nodes@, n, views(images@)));
                assert forall|m: int, k: int| 0 <= m < images@.len() && 0 <= k < images@[m]@.len() implies (#[trigger] images@[m]@[k]) < store.versions@.len() by {
                    if m < i {
                        assert(shorter[m]@[k] < known.versions@.len());
                    }
                }
            }
            i = i + 1;
        }
        Some(images)
    }
}

pub proof fn lemma_continues_itself(store: SsaStore)
    ensures
        writes::continues(store, store),
{
    assert forall|depth: int| 0 <= depth < store.checkpoints@.len() implies #[trigger] store.saved(depth) == store.saved(depth) by {}
}

/// A store whose state stays the same continues.
pub proof fn lemma_same_state(before: SsaStore, after: SsaStore)
    requires
        ssa::same_state(before, after),
    ensures
        writes::continues(before, after),
        after.current@ == before.current@,
{
    assert forall|depth: int| 0 <= depth < before.checkpoints@.len() implies #[trigger] after.saved(depth) == before.saved(depth) by {}
}

/// The keys stay known where no entry is made.
pub proof fn lemma_no_new_keys(before: SsaStore, after: SsaStore, nodes: Seq<NodeKey>)
    requires
        before.wf(),
        after.wf(),
        results::keys_known(before, nodes),
        after.entries@ == before.entries@,
    ensures
        results::keys_known(after, nodes),
{
    assert forall|i: int| 0 <= i < after.versions@.len() implies ((#[trigger] after.versions@[i]) matches Version::Entry(k) ==> k < nodes.len()) by {
        if let Version::Entry(k) = after.versions@[i] {
            assert(before.entries@.contains_key(k));
            assert(before.versions@[before.entries@[k] as int] == Version::Entry(k));
        }
    }
}

} // verus!
