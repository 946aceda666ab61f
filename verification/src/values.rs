//! Reads of variables, results of calls and numbers of nodes, as expressions are evaluated.
use vstd::prelude::*;
use std::rc::Rc;
use crate::flows;
use crate::ir::{Access, Statement};
use crate::layout;
use crate::layout::{EvaluationCache, FrozenVariableRead, KeyVersion};
use crate::machine;
use crate::machine::Machine;
use crate::order;
use crate::order::{sort_dedup, Ordered};
use crate::partition;
use crate::partition::{BitPartition, NodeKey};
use crate::projection;
use crate::projection::{destination_array_selection, DestinationArraySelection};
use crate::realize;
use crate::results;
use crate::sequence;
use crate::ssa;
use crate::ssa::SsaStore;
use crate::targets;
use crate::targets::{read_keys, WriteKeys};
use crate::writes;

verus! {

/// What is known of a function beside its statements.
pub struct Function {
    /// The variables of its arguments, with their widths and signs where they are known.
    pub formals: Vec<Formal>,
    /// The variable of its result.
    pub result: Option<u64>,
    /// The variables that each call has of its own, those of the arguments and of the result among them.
    pub locals: Vec<u64>,
}

/// The variable of an argument.
#[derive(Clone, Copy, Debug, PartialEq, Eq)]
pub struct Formal {
    pub id: u64,
    pub shape: Option<crate::apply::FormalShape>,
}

/// What procedures are evaluated with.
pub struct Program<'a> {
    pub partition: &'a BitPartition,
    /// The nodes by the numbers of their keys, in ascending order.
    pub nodes: &'a Vec<NodeKey>,
    /// The statements of the functions, by their numbers.
    pub bodies: &'a Vec<Vec<Statement>>,
    pub functions: &'a Vec<Function>,
    /// The nodes that the procedure may write.
    pub owned: &'a Vec<NodeKey>,
    /// The variables that belong to functions.
    pub locals: &'a Vec<u64>,
}

impl<'a> Program<'a> {
    pub open spec fn wf(self) -> bool {
        &&& self.partition.wf()
        &&& order::strictly_sorted(self.nodes@)
        &&& forall|key: NodeKey| #[trigger] self.nodes@.contains(key) <==> self.partition.is_node(key)
        &&& self.functions@.len() == self.bodies@.len()
        &&& order::strictly_sorted(self.owned@)
        &&& forall|key: NodeKey| #[trigger] self.owned@.contains(key) ==> self.partition.is_node(key)
    }

    /// The nodes of a variable that the procedure owns, where the variable is one of the module.
    pub open spec fn owned_of(self, id: u64) -> Option<Seq<NodeKey>> {
        if self.locals@.contains(id) {
            None
        } else {
            Some(self.owned@)
        }
    }

    /// Whether the variable belongs to a function.
    pub fn is_local(&self, id: u64) -> (r: bool)
        ensures
            r == self.locals@.contains(id),
    {
        let mut i: usize = 0;
        while i < self.locals.len()
            invariant
                i <= self.locals@.len(),
                forall|k: int| 0 <= k < i ==> self.locals@[k] != id,
            decreases self.locals@.len() - i,
        {
            if self.locals[i] == id {
                return true;
            }
            i = i + 1;
        }
        false
    }
}

/// The keys are the numbers of the nodes.
pub open spec fn numbered(nodes: Seq<NodeKey>, list: Seq<NodeKey>, keys: Seq<u64>) -> bool {
    keys.len() == list.len() && forall|i: int| 0 <= i < keys.len() ==> (#[trigger] keys[i]) < nodes.len() && nodes[keys[i] as int] == list[i]
}

/// The number of a node.
pub fn number_of(nodes: &Vec<NodeKey>, key: NodeKey) -> (r: u64)
    requires
        nodes@.contains(key),
    ensures
        r < nodes@.len(),
        nodes@[r as int] == key,
{
    let mut i: usize = 0;
    while i < nodes.len()
        invariant
            i <= nodes@.len(),
            nodes@.contains(key),
            forall|k: int| 0 <= k < i ==> nodes@[k] != key,
        decreases nodes@.len() - i,
    {
        if nodes[i] == key {
            return i as u64;
        }
        i = i + 1;
    }
    assert(false);
    0
}

/// The numbers of nodes.
pub fn number_nodes(nodes: &Vec<NodeKey>, list: &Vec<NodeKey>) -> (r: Vec<u64>)
    requires
        forall|key: NodeKey| #[trigger] list@.contains(key) ==> nodes@.contains(key),
    ensures
        numbered(nodes@, list@, r@),
{
    let mut r: Vec<u64> = Vec::new();
    let mut i: usize = 0;
    while i < list.len()
        invariant
            i <= list@.len(),
            forall|key: NodeKey| #[trigger] list@.contains(key) ==> nodes@.contains(key),
            r@.len() == i,
            forall|k: int| 0 <= k < i ==> (#[trigger] r@[k]) < nodes@.len() && nodes@[r@[k] as int] == list@[k],
        decreases list@.len() - i,
    {
        assert(list@.contains(list@[i as int]));
        r.push(number_of(nodes, list[i]));
        i = i + 1;
    }
    r
}

/// Different nodes have different numbers.
pub proof fn lemma_numbers_differ(nodes: Seq<NodeKey>, list: Seq<NodeKey>, keys: Seq<u64>)
    requires
        numbered(nodes, list, keys),
        order::strictly_sorted(list),
    ensures
        forall|i: int, j: int| 0 <= i < j < keys.len() ==> (#[trigger] keys[i]) != (#[trigger] keys[j]),
{
    assert forall|i: int, j: int| 0 <= i < j < keys.len() implies (#[trigger] keys[i]) != (#[trigger] keys[j]) by {
        assert(list[i].lt(list[j]));
        NodeKey::lt_irreflexive(list[i]);
    }
}

/// An ascending list of what is in another.
pub open spec fn sorted_from(list: Seq<usize>, from: Seq<usize>) -> bool {
    order::strictly_sorted(list) && order::same_elements(list, from)
}

pub proof fn lemma_sorted_below(list: Seq<usize>, from: Seq<usize>, limit: int)
    requires
        sorted_from(list, from),
        sequence::all_below(from, limit),
    ensures
        sequence::all_below(list, limit),
{
    assert forall|k: int| 0 <= k < list.len() implies (#[trigger] list[k]) < limit by {
        assert(list.contains(list[k]));
        assert(from.contains(list[k]));
        let q = choose|q: int| 0 <= q < from.len() && from[q] == list[k];
        assert(from[q] < limit);
    }
}

/// The versions of a read.
pub open spec fn versions_of(found: Seq<KeyVersion>) -> Seq<usize> {
    found.map_values(|k: KeyVersion| k.version)
}

/// The versions are the current ones of the nodes.
pub open spec fn versions_found(store: SsaStore, list: Seq<NodeKey>, keys: Seq<u64>, found: Seq<KeyVersion>) -> bool {
    found.len() == keys.len() && forall|i: int|
        0 <= i < found.len() ==> (#[trigger] found[i]).key == list[i] && results::is_current(store, keys[i], found[i].version)
}

/// Marks what a read found.
pub open spec fn way_read(selection: DestinationArraySelection, list: Seq<NodeKey>, keys: Seq<u64>, found: Seq<KeyVersion>) -> bool {
    true
}

/// A read is kept with the expression, where what is found in it is kept.
pub open spec fn read_kept(before: Option<EvaluationCache>, after: Option<EvaluationCache>, occurrence: usize, selectors: Seq<usize>, found: Seq<KeyVersion>) -> bool {
    match before {
        None => after is None,
        Some(cache) => after matches Some(now) && now.calls == cache.calls && now.packed_layouts == cache.packed_layouts && now.array_layouts
            == cache.array_layouts && now.struct_layouts == cache.struct_layouts && now.variable_reads@.dom() == cache.variable_reads@.dom().insert(occurrence)
            && (*now.variable_reads@[occurrence]).selectors@ == selectors && (*now.variable_reads@[occurrence]).versions@ == found && forall|o: usize|
            o != occurrence && #[trigger] cache.variable_reads@.dom().contains(o) ==> now.variable_reads@[o] == cache.variable_reads@[o],
    }
}

/// Nothing changed but the store, and what is kept with the expression.
pub open spec fn reading(a: Machine, b: Machine) -> bool {
    &&& b.namespace == a.namespace
    &&& b.functions == a.functions
    &&& b.choices == a.choices
    &&& b.effects_only == a.effects_only
    &&& b.complete == a.complete
    &&& b.written == a.written
    &&& b.keys == a.keys
    &&& b.fits == a.fits
    &&& b.captures == a.captures
    &&& b.arena == a.arena
    &&& b.condition == a.condition
    &&& b.next_branch == a.next_branch
    &&& b.flows == a.flows
    &&& b.loops == a.loops
}

/// A variable is read: the nodes that the access reads have the versions that they have now.
pub open spec fn variable_read<'a>(p: Program<'a>, access: Access, occurrence: usize, selectors: Seq<usize>, a: Machine, b: Machine, reads: Seq<usize>) -> bool {
    exists|selection: DestinationArraySelection, list: Seq<NodeKey>, keys: Seq<u64>, found: Seq<KeyVersion>| #[trigger]
        way_read(selection, list, keys, found) && projection::is_selection(access.shape, access.coordinates@, selection) && targets::are_read(
            *p.partition,
            access,
            selection,
            list,
        ) && numbered(p.nodes@, list, keys) && reading(a, b) && writes::continues(a.store, b.store) && b.store.current@ == a.store.current@ && versions_found(
            b.store,
            list,
            keys,
            found,
        ) && sorted_from(reads, selectors + versions_of(found)) && read_kept(a.cache, b.cache, occurrence, selectors, found)
}

/// The occurrence was read before.
pub open spec fn was_read(a: Machine, occurrence: usize) -> bool {
    a.cache matches Some(cache) && cache.variable_reads@.dom().contains(occurrence)
}

/// The occurrence gives what it gave before.
pub open spec fn read_again(a: Machine, occurrence: usize, reads: Seq<usize>) -> bool {
    a.cache matches Some(cache) && sorted_from(
        reads,
        (*cache.variable_reads@[occurrence]).selectors@ + versions_of((*cache.variable_reads@[occurrence]).versions@),
    )
}

/// A node that an access reads exists.
proof fn lemma_read_nodes<'a>(p: Program<'a>, access: Access, selection: DestinationArraySelection, list: Seq<NodeKey>)
    requires
        p.wf(),
        targets::are_read(*p.partition, access, selection, list),
    ensures
        forall|key: NodeKey| #[trigger] list.contains(key) ==> p.nodes@.contains(key),
{
    assert forall|key: NodeKey| #[trigger] list.contains(key) implies p.nodes@.contains(key) by {
        if targets::is_whole(access) {
            assert(targets::node_of(*p.partition, access.id, key));
        } else {
            let i = choose|i: int| 0 <= i < access.regions@.len() && #[trigger] targets::reads_in(*p.partition, access, selection, key, i);
            assert(targets::region_touches(*p.partition, access.id, access.regions@[i], key));
            lemma_selected_exists(*p.partition, access.id, access.regions@[i].array, access.regions@[i].packed, key);
        }
        assert(p.partition.is_node(key));
    }
}

proof fn lemma_selected_exists(partition: BitPartition, id: u64, array: crate::span::ArraySpan, packed: crate::span::PackedSpan, key: NodeKey)
    requires
        partition.selects(id, array, packed, key),
    ensures
        partition.is_node(key),
{
}

/// A node that an access may write exists.
pub proof fn lemma_written_nodes<'a>(p: Program<'a>, access: Access, w: WriteKeys)
    requires
        p.wf(),
        targets::are_written(*p.partition, access, p.owned_of(access.id), w),
    ensures
        forall|key: NodeKey| #[trigger] w.keys@.contains(key) ==> p.nodes@.contains(key),
{
    assert forall|key: NodeKey| #[trigger] w.keys@.contains(key) implies p.nodes@.contains(key) by {
        assert(targets::may_write(*p.partition, access, p.owned_of(access.id), key));
        if !targets::is_whole(access) && access.regions@.len() > 0 {
            let i = choose|i: int| 0 <= i < access.regions@.len() && #[trigger] targets::region_touches(*p.partition, access.id, access.regions@[i], key);
            lemma_selected_exists(*p.partition, access.id, access.regions@[i].array, access.regions@[i].packed, key);
        } else if !targets::is_whole(access) && p.owned_of(access.id) is Some {
            assert(p.owned@.contains(key));
        } else {
            assert(targets::node_of(*p.partition, access.id, key));
        }
        assert(p.partition.is_node(key));
    }
}

/// What a read gives, each version once.
fn gather(selectors: &Vec<usize>, found: &Vec<KeyVersion>) -> (r: Vec<usize>)
    ensures
        sorted_from(r@, selectors@ + versions_of(found@)),
{
    let mut list: Vec<usize> = machine::copy_versions(selectors);
    let mut i: usize = 0;
    while i < found.len()
        invariant
            i <= found@.len(),
            list@ == selectors@ + versions_of(found@.take(i as int)),
        decreases found@.len() - i,
    {
        list.push(found[i].version);
        proof {
            assert(versions_of(found@.take(i + 1)) =~= versions_of(found@.take(i as int)).push(found@[i as int].version));
            assert(list@ =~= selectors@ + versions_of(found@.take(i + 1)));
        }
        i = i + 1;
    }
    assert(found@.take(i as int) =~= found@);
    sort_dedup(&list)
}

fn copy_found(found: &Vec<KeyVersion>) -> (r: Vec<KeyVersion>)
    ensures
        r@ == found@,
{
    let mut r: Vec<KeyVersion> = Vec::new();
    let mut i: usize = 0;
    while i < found.len()
        invariant
            i <= found@.len(),
            r@ == found@.take(i as int),
        decreases found@.len() - i,
    {
        r.push(found[i]);
        assert(found@.take(i + 1) =~= found@.take(i as int).push(found@[i as int]));
        i = i + 1;
    }
    assert(found@.take(i as int) =~= found@);
    r
}

impl Machine {
    /// What the occurrence of a variable gave before, where that is kept.
    pub fn find_read(&self, occurrence: usize) -> (r: Option<Vec<usize>>)
        requires
            self.wf(),
        ensures
            r is Some <==> was_read(*self, occurrence),
            r matches Some(reads) ==> read_again(*self, occurrence, reads@) && sequence::all_below(reads@, self.store.versions@.len() as int),
    {
        broadcast use vstd::std_specs::hash::group_hash_axioms;

        match &self.cache {
            Some(cache) => match cache.variable_reads.get(&occurrence) {
                Some(frozen) => {
                    let r = gather(&frozen.selectors, &frozen.versions);
                    proof {
                        assert(cache.variable_reads@.dom().contains(occurrence));
                        assert(machine::frozen_below(**frozen, self.store.versions@.len() as int));
                        lemma_gathered_below(r@, frozen.selectors@, frozen.versions@, self.store.versions@.len() as int);
                    }
                    Some(r)
                },
                None => None,
            },
            None => None,
        }
    }

    /// Reads a variable whose selectors were evaluated.
    pub fn read_variable(&mut self, p: &Program, access: &Access, occurrence: usize, selectors: Vec<usize>) -> (r: Vec<usize>)
        requires
            old(self).wf(),
            p.wf(),
            sequence::all_below(selectors@, old(self).store.versions@.len() as int),
        ensures
            final(self).wf(),
            old(self).kept(*final(self)),
            variable_read(*p, *access, occurrence, selectors@, *old(self), *final(self), r@),
            sequence::all_below(r@, final(self).store.versions@.len() as int),
    {
        broadcast use vstd::std_specs::hash::group_hash_axioms;

        let ghost before = *self;
        let shape = match &access.shape {
            Some(shape) => Some(shape),
            None => None,
        };
        let selection = destination_array_selection(shape, &access.coordinates);
        let list = read_keys(p.partition, access, &selection);
        proof {
            assert(projection::shape_of(shape) == access.shape);
            lemma_read_nodes(*p, *access, selection, list@);
        }
        let keys = number_nodes(p.nodes, &list);
        let mut found: Vec<KeyVersion> = Vec::new();
        let mut i: usize = 0;
        proof {
            machine::lemma_continues_self(before.store);
        }
        while i < keys.len()
            invariant
                i <= keys@.len(),
                keys@.len() == list@.len(),
                *self == (Machine { store: self.store, ..before }),
                self.store.wf(),
                writes::continues(before.store, self.store),
                self.store.current@ == before.store.current@,
                ssa::keeps_guards(before.store, self.store),
                found@.len() == i,
                forall|k: int| 0 <= k < i ==> (#[trigger] found@[k]).key == list@[k] && results::is_current(self.store, keys@[k], found@[k].version),
                forall|k: int| 0 <= k < i ==> (#[trigger] found@[k]).version < self.store.versions@.len(),
            decreases keys@.len() - i,
        {
            let ghost known = self.store;
            let ghost shorter = found@;
            let version: usize = self.store.read(keys[i]);
            found.push(KeyVersion { key: list[i], version });
            proof {
                realize::lemma_same_state(known, self.store);
                writes::continues_is_transitive(before.store, known, self.store);
                assert forall|k: int| 0 <= k < i + 1 implies (#[trigger] found@[k]).key == list@[k] && results::is_current(self.store, keys@[k], found@[k].version) by {
                    if k < i {
                        assert(found@[k] == shorter[k]);
                        assert(results::is_current(known, keys@[k], shorter[k].version));
                        if !known.current@.contains_key(keys@[k]) {
                            writes::lemma_entry_kept(known, self.store, keys@[k]);
                        }
                    }
                }
                assert forall|k: int| 0 <= k < i + 1 implies (#[trigger] found@[k]).version < self.store.versions@.len() by {
                    if k < i {
                        assert(found@[k] == shorter[k]);
                    }
                }
            }
            i = i + 1;
        }
        let r = gather(&selectors, &found);
        let ghost read = *self;
        let ghost given = selectors@;
        let ghost limit = self.store.versions@.len() as int;
        proof {
            machine::lemma_below_grows(given, before.store.versions@.len() as int, limit);
            lemma_gathered_below(r@, given, found@, limit);
            assert(layout::keys_ascend(found@)) by {
                assert forall|x: int, y: int| 0 <= x < y < found@.len() implies (#[trigger] found@[x]).key.lt((#[trigger] found@[y]).key) by {
                    assert(list@[x].lt(list@[y]));
                }
            }
        }
        let mut taken: Option<EvaluationCache> = None;
        std::mem::swap(&mut taken, &mut self.cache);
        if let Some(mut cache) = taken {
            let ghost known = cache;
            let frozen = FrozenVariableRead { selectors, versions: copy_found(&found) };
            proof {
                assert(machine::cache_below(known, before.store.versions@.len() as int));
                machine::lemma_cache_grows(known, before.store.versions@.len() as int, limit);
            }
            let shared = Rc::new(frozen);
            cache.variable_reads.insert(occurrence, shared);
            proof {
                assert(machine::cache_below(cache, limit)) by {
                    assert forall|o: usize| #[trigger] cache.variable_reads@.dom().contains(o) implies machine::frozen_below(*cache.variable_reads@[o], limit) by {
                        if o != occurrence {
                            assert(known.variable_reads@.dom().contains(o));
                        }
                    }
                    assert forall|o: usize| #[trigger] cache.calls@.dom().contains(o) implies layout::groups_wf(cache.calls@[o].region_groups@)
                        && results::result_below(cache.calls@[o].region_groups@, limit) by {
                        assert(known.calls@.dom().contains(o));
                    }
                }
                assert(cache.variable_reads@.dom() =~= known.variable_reads@.dom().insert(occurrence));
            }
            self.cache = Some(cache);
        }
        proof {
            machine::lemma_continues_goes_on(before.store, self.store);
            assert(self.written@.take(before.written@.len() as int) =~= before.written@);
            machine::lemma_changed(before, *self);
            assert(read_kept(before.cache, self.cache, occurrence, given, found@));
            assert(way_read(selection, list@, keys@, found@));
        }
        r
    }
}

proof fn lemma_gathered_below(r: Seq<usize>, selectors: Seq<usize>, found: Seq<KeyVersion>, limit: int)
    requires
        sorted_from(r, selectors + versions_of(found)),
        sequence::all_below(selectors, limit),
        forall|i: int| 0 <= i < found.len() ==> (#[trigger] found[i]).version < limit,
    ensures
        sequence::all_below(r, limit),
{
    let all = selectors + versions_of(found);
    assert forall|k: int| 0 <= k < all.len() implies (#[trigger] all[k]) < limit by {
        if k < selectors.len() {
            assert(selectors[k] < limit);
        } else {
            assert(found[k - selectors.len()].version < limit);
        }
    }
    lemma_sorted_below(r, all, limit);
}

} // verus!
