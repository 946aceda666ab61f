//! External sources with the conditions under which they are read.
use vstd::prelude::*;
use std::collections::HashMap;
use crate::arena;
use crate::arena::{PathArena, PathCondition, PathNode};
use crate::path;
use crate::path::BranchId;
use crate::relation::PositionRelation;

verus! {

/// A key that is read through `relation` under `condition`.
#[derive(Clone, Copy, Debug, PartialEq, Eq, Hash, Structural)]
pub struct Source {
    pub key: u64,
    pub relation: PositionRelation,
    pub condition: PathCondition,
}

/// The list names `key` through `relation`.
pub open spec fn names(list: Seq<Source>, key: u64, relation: PositionRelation) -> bool {
    exists|i: int|
        0 <= i < list.len() && (#[trigger] list[i]).key == key && list[i].relation == relation
}

/// Some listed source names `key` through `relation` and leaves `arm` of `branch` open.
pub open spec fn opens(
    list: Seq<Source>,
    nodes: Seq<PathNode>,
    key: u64,
    relation: PositionRelation,
    branch: BranchId,
    arm: int,
) -> bool {
    exists|i: int|
        0 <= i < list.len() && (#[trigger] list[i]).key == key && list[i].relation == relation
            && path::allows(
            arena::path_of(nodes, list[i].condition.node as int),
            branch,
            arm,
        )
}

/// Every condition of the list belongs to the arena.
pub open spec fn sources_valid(list: Seq<Source>, nodes: Seq<PathNode>) -> bool {
    forall|i: int| 0 <= i < list.len() ==> (#[trigger] list[i]).condition.node < nodes.len()
}

/// No key is named twice through one relation.
pub open spec fn sources_distinct(list: Seq<Source>) -> bool {
    forall|i: int, j: int|
        0 <= i < j < list.len() ==> (#[trigger] list[i]).key != (#[trigger] list[j]).key
            || list[i].relation != list[j].relation
}

/// Growing the arena changes nothing that a list says.
pub proof fn lemma_opens_grows(list: Seq<Source>, a: Seq<PathNode>, b: Seq<PathNode>)
    requires
        arena::grows(a, b),
        sources_valid(list, a),
    ensures
        sources_valid(list, b),
        forall|key: u64, relation: PositionRelation, branch: BranchId, arm: int| #[trigger]
            opens(list, a, key, relation, branch, arm) <==> opens(
                list,
                b,
                key,
                relation,
                branch,
                arm,
            ),
{
    assert forall|i: int| 0 <= i < list.len() implies arena::path_of(
        b,
        (#[trigger] list[i]).condition.node as int,
    ) == arena::path_of(a, list[i].condition.node as int) by {
        arena::growth_keeps_paths(a, b, list[i].condition.node as int);
    }
    assert forall|key: u64, relation: PositionRelation, branch: BranchId, arm: int| #[trigger]
        opens(list, a, key, relation, branch, arm) <==> opens(
        list,
        b,
        key,
        relation,
        branch,
        arm,
    ) by {
        if opens(list, a, key, relation, branch, arm) {
            let i = choose|i: int|
                0 <= i < list.len() && (#[trigger] list[i]).key == key && list[i].relation
                    == relation && path::allows(
                    arena::path_of(a, list[i].condition.node as int),
                    branch,
                    arm,
                );
            assert(arena::path_of(b, list[i].condition.node as int) == arena::path_of(
                a,
                list[i].condition.node as int,
            ));
        }
        if opens(list, b, key, relation, branch, arm) {
            let i = choose|i: int|
                0 <= i < list.len() && (#[trigger] list[i]).key == key && list[i].relation
                    == relation && path::allows(
                    arena::path_of(b, list[i].condition.node as int),
                    branch,
                    arm,
                );
            assert(arena::path_of(b, list[i].condition.node as int) == arena::path_of(
                a,
                list[i].condition.node as int,
            ));
        }
    }
}

/// Sources collected so far, found by key.
pub struct SourceList {
    pub list: Vec<Source>,
    pub index: HashMap<u64, Vec<usize>>,
}

impl SourceList {
    pub open spec fn placed(self, i: int) -> bool {
        self.index@.contains_key(self.list@[i].key) && self.index@[self.list@[i].key]@.contains(
            i as usize,
        )
    }

    pub open spec fn wf(self, nodes: Seq<PathNode>) -> bool {
        &&& sources_valid(self.list@, nodes)
        &&& sources_distinct(self.list@)
        &&& forall|k: u64, m: int|
            self.index@.contains_key(k) && 0 <= m < self.index@[k]@.len() ==> {
                &&& (#[trigger] self.index@[k]@[m]) < self.list@.len()
                &&& self.list@[self.index@[k]@[m] as int].key == k
            }
        &&& forall|i: int| 0 <= i < self.list@.len() ==> #[trigger] self.placed(i)
    }

    /// Nothing known yet.
    pub fn new() -> (r: Self)
        ensures
            r.list@.len() == 0,
            forall|nodes: Seq<PathNode>| r.wf(nodes),
    {
        SourceList { list: Vec::new(), index: HashMap::new() }
    }

    fn find(&self, key: u64, relation: PositionRelation, Ghost(nodes): Ghost<Seq<PathNode>>) -> (r:
        Option<usize>)
        requires
            self.wf(nodes),
        ensures
            r matches Some(i) ==> i < self.list@.len() && self.list@[i as int].key == key
                && self.list@[i as int].relation == relation,
            r is None ==> !names(self.list@, key, relation),
    {
        let count: usize = self.list.len();
        if let Some(places) = self.index.get(&key) {
            let mut m: usize = 0;
            while m < places.len()
                invariant
                    m <= places.len(),
                    self.wf(nodes),
                    self.index@.contains_key(key),
                    *places == self.index@[key],
                    forall|k: int|
                        0 <= k < m ==> self.list@[(#[trigger] places@[k]) as int].relation
                            != relation,
                decreases places.len() - m,
            {
                let place: usize = places[m];
                assert(self.index@[key]@[m as int] < self.list@.len());
                if self.list[place].relation == relation {
                    return Some(place);
                }
                m = m + 1;
            }
        }
        proof {
            if names(self.list@, key, relation) {
                let i = choose|i: int|
                    0 <= i < self.list@.len() && (#[trigger] self.list@[i]).key == key
                        && self.list@[i].relation == relation;
                assert(self.placed(i));
                assert(i < count);
                let k = choose|k: int|
                    0 <= k < self.index@[key]@.len() && self.index@[key]@[k] == i as usize;
                assert(self.list@[self.index@[key]@[k] as int].relation != relation);
            }
        }
        None
    }

    /// Adds a source. One that is already listed is read under either condition.
    pub fn merge_source(&mut self, arena: &mut PathArena, source: Source)
        requires
            old(arena).wf(),
            old(arena).holds(source.condition),
            old(self).wf(old(arena)@),
        ensures
            final(arena).wf(),
            arena::grows(old(arena)@, final(arena)@),
            final(self).wf(final(arena)@),
            forall|key: u64, relation: PositionRelation| #[trigger]
                names(final(self).list@, key, relation) <==> names(old(self).list@, key, relation)
                    || (key == source.key && relation == source.relation),
            forall|key: u64, relation: PositionRelation, branch: BranchId, arm: int|
                0 <= arm < branch.arms ==> (#[trigger] opens(
                    final(self).list@,
                    final(arena)@,
                    key,
                    relation,
                    branch,
                    arm,
                ) <==> opens(old(self).list@, old(arena)@, key, relation, branch, arm) || (key
                    == source.key && relation == source.relation && path::allows(
                    old(arena).path(source.condition),
                    branch,
                    arm,
                ))),
    {
        let ghost before = self.list@;
        let ghost nodes0 = arena@;
        match self.find(source.key, source.relation, Ghost(arena@)) {
            Some(place) => {
                let existing = self.list[place].condition;
                assert(before[place as int].condition.node < nodes0.len());
                let joined = arena.disjoin(existing, source.condition);
                self.list.set(
                    place,
                    Source { key: source.key, relation: source.relation, condition: joined },
                );
                proof {
                    let after = self.list@;
                    lemma_opens_grows(before, nodes0, arena@);
                    assert forall|i: int| 0 <= i < after.len() implies #[trigger] self.placed(i) by {
                        assert(old(self).placed(i));
                    }
                    assert forall|k: u64, m: int|
                        self.index@.contains_key(k) && 0 <= m < self.index@[k]@.len() implies {
                        &&& (#[trigger] self.index@[k]@[m]) < self.list@.len()
                        &&& self.list@[self.index@[k]@[m] as int].key == k
                    } by {
                        assert(old(self).index@[k]@[m] < before.len());
                    }
                    assert forall|i: int, j: int| 0 <= i < j < after.len() implies (#[trigger] after[i]).key
                        != (#[trigger] after[j]).key || after[i].relation != after[j].relation by {
                        assert(before[i].key != before[j].key || before[i].relation != before[j].relation);
                    }
                    assert forall|key: u64, relation: PositionRelation| #[trigger] names(after, key, relation)
                        <==> names(before, key, relation) || (key == source.key && relation == source.relation) by {
                        if names(after, key, relation) {
                            let i = choose|i: int| 0 <= i < after.len() && (#[trigger] after[i]).key == key && after[i].relation == relation;
                            assert(before[i].key == key && before[i].relation == relation);
                        }
                        if names(before, key, relation) {
                            let i = choose|i: int| 0 <= i < before.len() && (#[trigger] before[i]).key == key && before[i].relation == relation;
                            assert(after[i].key == key && after[i].relation == relation);
                        }
                        assert(after[place as int].key == source.key);
                    }
                    assert forall|key: u64, relation: PositionRelation, branch: BranchId, arm: int|
                        0 <= arm < branch.arms implies (#[trigger] opens(after, arena@, key, relation, branch, arm)
                        <==> opens(before, nodes0, key, relation, branch, arm) || (key == source.key && relation
                        == source.relation && path::allows(arena::path_of(nodes0, source.condition.node as int), branch, arm))) by {
                        assert(opens(before, nodes0, key, relation, branch, arm) <==> opens(before, arena@, key, relation, branch, arm));
                        arena::growth_keeps_paths(nodes0, arena@, existing.node as int);
                        let joined_path = arena::path_of(arena@, joined.node as int);
                        assert(path::allows(joined_path, branch, arm) <==> path::allows(arena::path_of(nodes0, existing.node as int), branch, arm)
                            || path::allows(arena::path_of(nodes0, source.condition.node as int), branch, arm));
                        if opens(after, arena@, key, relation, branch, arm) {
                            let i = choose|i: int| 0 <= i < after.len() && (#[trigger] after[i]).key == key && after[i].relation == relation
                                && path::allows(arena::path_of(arena@, after[i].condition.node as int), branch, arm);
                            assert(before[i].key == key && before[i].relation == relation);
                        }
                        if opens(before, arena@, key, relation, branch, arm) {
                            let i = choose|i: int| 0 <= i < before.len() && (#[trigger] before[i]).key == key && before[i].relation == relation
                                && path::allows(arena::path_of(arena@, before[i].condition.node as int), branch, arm);
                            assert(after[i].key == key && after[i].relation == relation);
                        }
                        assert(after[place as int].key == source.key && after[place as int].relation == source.relation);
                    }
                }
            },
            None => {
                let place: usize = self.list.len();
                self.list.push(source);
                let mut places: Vec<usize> = match self.index.remove(&source.key) {
                    Some(places) => places,
                    None => Vec::new(),
                };
                let ghost listed = places@;
                places.push(place);
                self.index.insert(source.key, places);
                proof {
                    let after = self.list@;
                    assert forall|i: int| 0 <= i < after.len() implies #[trigger] self.placed(i) by {
                        if i < before.len() {
                            assert(old(self).placed(i));
                            if after[i].key == source.key {
                                let k = choose|k: int| 0 <= k < listed.len() && listed[k] == i as usize;
                                assert(self.index@[source.key]@[k] == i as usize);
                            }
                        } else {
                            assert(self.index@[source.key]@[listed.len() as int] == i as usize);
                        }
                    }
                    assert forall|k: u64, m: int|
                        self.index@.contains_key(k) && 0 <= m < self.index@[k]@.len() implies {
                        &&& (#[trigger] self.index@[k]@[m]) < self.list@.len()
                        &&& self.list@[self.index@[k]@[m] as int].key == k
                    } by {
                        if k != source.key || m < listed.len() {
                            assert(old(self).index@[k]@[m] < before.len());
                        }
                    }
                    assert forall|i: int, j: int| 0 <= i < j < after.len() implies (#[trigger] after[i]).key
                        != (#[trigger] after[j]).key || after[i].relation != after[j].relation by {
                        assert(after[i] == before[i]);
                        if j < before.len() {
                            assert(before[i].key != before[j].key || before[i].relation != before[j].relation);
                        }
                    }
                    assert forall|key: u64, relation: PositionRelation| #[trigger] names(after, key, relation)
                        <==> names(before, key, relation) || (key == source.key && relation == source.relation) by {
                        if names(after, key, relation) {
                            let i = choose|i: int| 0 <= i < after.len() && (#[trigger] after[i]).key == key && after[i].relation == relation;
                            if i < before.len() {
                                assert(before[i] == after[i]);
                            }
                        }
                        if names(before, key, relation) {
                            let i = choose|i: int| 0 <= i < before.len() && (#[trigger] before[i]).key == key && before[i].relation == relation;
                            assert(after[i] == before[i]);
                        }
                        assert(after[before.len() as int] == source);
                    }
                    assert forall|key: u64, relation: PositionRelation, branch: BranchId, arm: int|
                        0 <= arm < branch.arms implies (#[trigger] opens(after, arena@, key, relation, branch, arm)
                        <==> opens(before, nodes0, key, relation, branch, arm) || (key == source.key && relation
                        == source.relation && path::allows(arena::path_of(nodes0, source.condition.node as int), branch, arm))) by {
                        if opens(after, arena@, key, relation, branch, arm) {
                            let i = choose|i: int| 0 <= i < after.len() && (#[trigger] after[i]).key == key && after[i].relation == relation
                                && path::allows(arena::path_of(arena@, after[i].condition.node as int), branch, arm);
                            if i < before.len() {
                                assert(before[i] == after[i]);
                            }
                        }
                        if opens(before, arena@, key, relation, branch, arm) {
                            let i = choose|i: int| 0 <= i < before.len() && (#[trigger] before[i]).key == key && before[i].relation == relation
                                && path::allows(arena::path_of(arena@, before[i].condition.node as int), branch, arm);
                            assert(after[i] == before[i]);
                        }
                        assert(after[before.len() as int] == source);
                    }
                }
            },
        }
    }
}

} // verus!
