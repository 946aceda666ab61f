//! The external sources of a version.
use vstd::prelude::*;
use std::collections::HashSet;
use crate::arena;
use crate::arena::{PathArena, PathCondition, PathNode};
use crate::dag;
use crate::dag::{dependency_dag_external_sources, DependencyDag};
use crate::order;
use crate::order::Ordered;
use crate::path;
use crate::path::{BranchId, Choice};
use crate::reach;
use crate::reach::{solve, FlowSystem, Reach, Step, Visit};
use crate::relation::{widen_repeated_axis, PositionRelation, SourceRef};
use crate::remap;
use crate::remap::BranchRemapper;
use crate::sources;
use crate::sources::{Source, SourceList};
use crate::ssa;
use crate::ssa::{Import, KeyBinding, SsaStore, Version};

verus! {

/// `condition` is the one under which the graph reads `key` through `relation`.
pub open spec fn external_condition(
    dag: DependencyDag,
    reached: Map<Visit, Seq<Choice>>,
    key: u64,
    relation: PositionRelation,
    condition: Seq<Choice>,
) -> bool {
    &&& path::path_wf(condition)
    &&& exists|v: Visit| #[trigger] dag::external_at(dag, reached, v, key, relation)
    &&& forall|branch: BranchId, arm: int|
        0 <= arm < branch.arms ==> (#[trigger] path::allows(condition, branch, arm) <==> exists|
            v: Visit,
        | #[trigger]
            dag::external_at(dag, reached, v, key, relation) && path::allows(
                reached[v],
                branch,
                arm,
            ))
}

/// The import reads `source` for its external `key`, through `relation` and under `condition`.
pub open spec fn import_reads(
    store: SsaStore,
    nodes: Seq<PathNode>,
    import: Import,
    root: usize,
    reached: Map<Visit, Seq<Choice>>,
    key: u64,
    relation: PositionRelation,
    condition: Seq<Choice>,
    source: SourceRef,
) -> bool {
    let dag = store.graphs@[import.graph as int];
    &&& reach::is_solution(dag, nodes, dag::dag_start(root), reached)
    &&& external_condition(dag, reached, key, relation, condition)
    &&& binds_source(import.bindings@, key, source)
}

/// The bindings give `source` for `key`.
pub open spec fn binds_source(bindings: Seq<KeyBinding>, key: u64, source: SourceRef) -> bool {
    exists|b: int|
        0 <= b < bindings.len() && (#[trigger] bindings[b]).key == key
            && bindings[b].sources@.contains(source)
}

/// A step along one source of a version.
pub open spec fn version_step(
    store: SsaStore,
    nodes: Seq<PathNode>,
    from: Visit,
    to: Visit,
    guard: Seq<Choice>,
) -> bool {
    match store.versions@[from.node as int] {
        Version::Entry(_) => false,
        Version::Definition { sources, condition } => {
            &&& to.entry
            &&& guard == arena::path_of(nodes, condition.node as int)
            &&& exists|s: SourceRef| #[trigger]
                sources@.contains(s) && to.node == s.version && to.relation
                    == from.relation.then_by(s.relation)
        },
        Version::Phi(inputs) => {
            &&& to.entry == from.entry
            &&& to.relation == from.relation
            &&& guard == Seq::<Choice>::empty()
            &&& inputs@.contains(to.node)
        },
        Version::Projected { source, .. } => {
            &&& to == (Visit { node: source, entry: true, relation: from.relation })
            &&& guard == Seq::<Choice>::empty()
        },
        Version::Repeated { source, initial, step, .. } => {
            &&& to == (Visit {
                node: source,
                entry: true,
                relation: from.relation.then_by(initial).widened(step),
            })
            &&& guard == Seq::<Choice>::empty()
        },
        Version::Imported { import, root } => root is Some && exists|
            reached: Map<Visit, Seq<Choice>>,
            key: u64,
            relation: PositionRelation,
            condition: Seq<Choice>,
            source: SourceRef,
        |
            {
                &&& #[trigger] import_reads(
                    store,
                    nodes,
                    store.imports@[import as int],
                    root->0,
                    reached,
                    key,
                    relation,
                    condition,
                    source,
                )
                &&& guard == remap::renamed_path(
                    store.imports@[import as int].mapping@,
                    condition,
                )
                &&& to == (Visit {
                    node: source.version,
                    entry: true,
                    relation: from.relation.then_by(source.relation).then_by(relation),
                })
            },
    }
}

/// Composing the relations of one import read fits.
pub open spec fn read_fits(from: PositionRelation, source: PositionRelation, relation: PositionRelation) -> bool {
    from.composes(source) && from.then_by(source).composes(relation)
}

/// Every offset composed at a version fits.
pub open spec fn version_fits(store: SsaStore, nodes: Seq<PathNode>, from: Visit) -> bool {
    match store.versions@[from.node as int] {
        Version::Definition { sources, .. } => forall|s: SourceRef| #[trigger]
            sources@.contains(s) ==> from.relation.composes(s.relation),
        Version::Repeated { initial, .. } => from.relation.composes(initial),
        Version::Imported { import, root } => root is Some ==> forall|
            reached: Map<Visit, Seq<Choice>>,
            key: u64,
            relation: PositionRelation,
            condition: Seq<Choice>,
            source: SourceRef,
        | #[trigger]
            import_reads(
                store,
                nodes,
                store.imports@[import as int],
                root->0,
                reached,
                key,
                relation,
                condition,
                source,
            ) ==> read_fits(from.relation, source.relation, relation),
        _ => true,
    }
}

/// Some offset composed at a version, or inside the graph that it imports, does not fit.
pub open spec fn version_overflows(store: SsaStore, nodes: Seq<PathNode>, from: Visit) -> bool {
    !version_fits(store, nodes, from) || (store.versions@[from.node as int] matches Version::Imported {
        import,
        root,
    } && root is Some && exists|v: Visit| #[trigger]
        reach::walkable(
            store.graphs@[store.imports@[import as int].graph as int],
            nodes,
            dag::dag_start(root->0),
            v,
        ) && v.node < store.graphs@[store.imports@[import as int].graph as int].nodes@.len()
            && !store.graphs@[store.imports@[import as int].graph as int].offsets_fit(v))
}

/// Conditions inside a graph speak only of the branches of its edges.
proof fn lemma_solution_branches(
    dag: DependencyDag,
    nodes: Seq<PathNode>,
    start: Visit,
    reached: Map<Visit, Seq<Choice>>,
    v: Visit,
    branch: BranchId,
)
    requires
        arena::nodes_wf(nodes),
        dag.system_wf(nodes),
        reach::is_solution(dag, nodes, start, reached),
        start.node < dag.size(),
        reached.contains_key(v),
        path::constrains(reached[v], branch),
    ensures
        ssa::graph_branch(dag, nodes, branch),
    decreases 3 * dag.size() + 3 - (v.node * 3 + reach::known_axes(v.relation)),
{
    if v != start {
        path::lemma_constrained(reached[v], branch);
        let arm = choose|x: int| 0 <= x < branch.arms && !#[trigger] path::allows(reached[v], branch, x);
        let (from, guard) = choose|from: Visit, guard: Seq<Choice>|
            reach::contributes(dag, nodes, reached, from, v, guard);
        assert(reach::contributes(dag, nodes, reached, from, v, guard));
        dag.step_descends(nodes, from, v, guard);
        if path::constrains(reached[from], branch) {
            lemma_solution_branches(dag, nodes, start, reached, from, branch);
        } else if path::constrains(guard, branch) {
            let e = choose|e: int| #[trigger] dag::dag_step(dag, nodes, from, v, guard, e);
            assert(path::constrains(
                arena::path_of(nodes, dag.edges@[e].condition.node as int),
                branch,
            ));
        } else {
            path::lemma_unconstrained(reached[from], branch);
            path::lemma_unconstrained(guard, branch);
            assert(path::allows(reached[from], branch, arm));
            assert(path::allows(guard, branch, arm));
            assert(path::allows(reached[v], branch, arm));
        }
    }
}

/// The condition of an external value keeps its order when the graph is renamed.
proof fn lemma_external_keeps_order(
    dag: DependencyDag,
    nodes: Seq<PathNode>,
    root: usize,
    reached: Map<Visit, Seq<Choice>>,
    key: u64,
    relation: PositionRelation,
    condition: Seq<Choice>,
    mapping: Seq<(BranchId, BranchId)>,
)
    requires
        arena::nodes_wf(nodes),
        dag.system_wf(nodes),
        root < dag.nodes@.len(),
        reach::is_solution(dag, nodes, dag::dag_start(root), reached),
        external_condition(dag, reached, key, relation, condition),
        ssa::renames_graph(mapping, dag, nodes),
    ensures
        remap::keeps_order(mapping, condition),
{
    assert forall|i: int| 0 <= i < condition.len() implies ssa::graph_branch(
        dag,
        nodes,
        (#[trigger] condition[i]).branch,
    ) by {
        let branch = condition[i].branch;
        assert(path::constrains(condition, branch));
        path::lemma_constrained(condition, branch);
        let arm = choose|x: int| 0 <= x < branch.arms && !#[trigger] path::allows(condition, branch, x);
        let v = choose|v: Visit| #[trigger] dag::external_at(dag, reached, v, key, relation);
        if !path::constrains(reached[v], branch) {
            path::lemma_unconstrained(reached[v], branch);
            assert(path::allows(reached[v], branch, arm));
            assert(path::allows(condition, branch, arm));
        }
        lemma_solution_branches(dag, nodes, dag::dag_start(root), reached, v, branch);
    }
    assert forall|i: int, j: int| 0 <= i < j < condition.len() implies remap::renamed(
        mapping,
        (#[trigger] condition[i]).branch,
    ).lt(remap::renamed(mapping, (#[trigger] condition[j]).branch)) by {
        assert(ssa::graph_branch(dag, nodes, condition[i].branch));
        assert(ssa::graph_branch(dag, nodes, condition[j].branch));
        assert(condition[i].branch.lt(condition[j].branch));
    }
    assert forall|i: int| 0 <= i < condition.len() implies remap::renamed(
        mapping,
        (#[trigger] condition[i]).branch,
    ).arms == condition[i].branch.arms by {
        assert(ssa::graph_branch(dag, nodes, condition[i].branch));
    }
}

/// There is one condition for an external value.
proof fn lemma_external_unique(
    dag: DependencyDag,
    reached: Map<Visit, Seq<Choice>>,
    key: u64,
    relation: PositionRelation,
    a: Seq<Choice>,
    b: Seq<Choice>,
)
    requires
        external_condition(dag, reached, key, relation, a),
        external_condition(dag, reached, key, relation, b),
    ensures
        a == b,
{
    path::path_is_canonical(a, b);
}

/// A listed external source carries the condition of its external value.
proof fn lemma_listed_condition(
    dag: DependencyDag,
    reached: Map<Visit, Seq<Choice>>,
    list: Seq<Source>,
    nodes: Seq<PathNode>,
    i: int,
)
    requires
        arena::nodes_wf(nodes),
        dag::lists_externals(dag, reached, list, nodes),
        0 <= i < list.len(),
    ensures
        external_condition(
            dag,
            reached,
            list[i].key,
            list[i].relation,
            arena::path_of(nodes, list[i].condition.node as int),
        ),
{
    let key = list[i].key;
    let relation = list[i].relation;
    let condition = arena::path_of(nodes, list[i].condition.node as int);
    arena::arena_paths_wf(nodes, list[i].condition.node as int);
    assert(sources::names(list, key, relation));
    assert forall|branch: BranchId, arm: int| 0 <= arm < branch.arms implies (#[trigger] path::allows(
        condition,
        branch,
        arm,
    ) <==> exists|v: Visit| #[trigger] dag::external_at(dag, reached, v, key, relation) && path::allows(
        reached[v],
        branch,
        arm,
    )) by {
        assert(sources::opens(list, nodes, key, relation, branch, arm) <==> path::allows(
            condition,
            branch,
            arm,
        )) by {
            if sources::opens(list, nodes, key, relation, branch, arm) {
                let j = choose|j: int|
                    0 <= j < list.len() && (#[trigger] list[j]).key == key && list[j].relation
                        == relation && path::allows(
                        arena::path_of(nodes, list[j].condition.node as int),
                        branch,
                        arm,
                    );
                if j < i {
                    assert(list[j].key != list[i].key || list[j].relation != list[i].relation);
                } else if i < j {
                    assert(list[i].key != list[j].key || list[i].relation != list[j].relation);
                }
            }
        }
    }
}

/// What an import reads does not change when the arena grows.
proof fn lemma_import_reads_stable(
    store: SsaStore,
    a: Seq<PathNode>,
    b: Seq<PathNode>,
    import: Import,
    root: usize,
    reached: Map<Visit, Seq<Choice>>,
    key: u64,
    relation: PositionRelation,
    condition: Seq<Choice>,
    source: SourceRef,
)
    requires
        store.wf(),
        store.guards_in(a),
        arena::nodes_wf(a),
        arena::nodes_wf(b),
        arena::grows(a, b),
        import.graph < store.graphs@.len(),
    ensures
        import_reads(store, a, import, root, reached, key, relation, condition, source)
            == import_reads(store, b, import, root, reached, key, relation, condition, source),
{
    let dag = store.graphs@[import.graph as int];
    assert(dag.system_wf(a));
    reach::solution_survives_growth(dag, a, b, dag::dag_start(root), reached);
}

impl FlowSystem for SsaStore {
    open spec fn step(&self, nodes: Seq<PathNode>, from: Visit, to: Visit, guard: Seq<Choice>) -> bool {
        version_step(*self, nodes, from, to, guard)
    }

    open spec fn fits(&self, nodes: Seq<PathNode>, from: Visit) -> bool {
        version_fits(*self, nodes, from)
    }

    open spec fn overflows(&self, nodes: Seq<PathNode>, from: Visit) -> bool {
        version_overflows(*self, nodes, from)
    }

    open spec fn system_wf(&self, nodes: Seq<PathNode>) -> bool {
        self.wf() && self.guards_in(nodes)
    }

    open spec fn size(&self) -> nat {
        self.versions@.len()
    }

    proof fn step_descends(
        &self,
        nodes: Seq<PathNode>,
        from: Visit,
        to: Visit,
        guard: Seq<Choice>,
    ) {
        let version = self.versions@[from.node as int];
        assert(version.wf(from.node as int, self.graphs@, self.imports@));
        assert(version.guarded_in(nodes));
        match version {
            Version::Definition { sources, condition } => {
                arena::arena_paths_wf(nodes, condition.node as int);
                let s = choose|s: SourceRef| #[trigger]
                    sources@.contains(s) && to.node == s.version && to.relation
                        == from.relation.then_by(s.relation);
                let i = choose|i: int| 0 <= i < sources@.len() && sources@[i] == s;
                assert(sources@[i].version < from.node);
            },
            Version::Phi(inputs) => {
                let i = choose|i: int| 0 <= i < inputs@.len() && inputs@[i] == to.node;
                assert(inputs@[i] < from.node);
            },
            Version::Imported { import, root } => {
                let imported = self.imports@[import as int];
                let (reached, key, relation, condition, source) = choose|
                    reached: Map<Visit, Seq<Choice>>,
                    key: u64,
                    relation: PositionRelation,
                    condition: Seq<Choice>,
                    source: SourceRef,
                |
                    {
                        &&& #[trigger] import_reads(
                            *self,
                            nodes,
                            imported,
                            root->0,
                            reached,
                            key,
                            relation,
                            condition,
                            source,
                        )
                        &&& guard == remap::renamed_path(imported.mapping@, condition)
                        &&& to == (Visit {
                            node: source.version,
                            entry: true,
                            relation: from.relation.then_by(source.relation).then_by(relation),
                        })
                    };
                let b = choose|b: int|
                    0 <= b < imported.bindings@.len() && (#[trigger] imported.bindings@[b]).key
                        == key && imported.bindings@[b].sources@.contains(source);
                assert(ssa::sources_before(imported.bindings@[b].sources@, from.node as int));
                let i = choose|i: int|
                    0 <= i < imported.bindings@[b].sources@.len()
                        && imported.bindings@[b].sources@[i] == source;
                assert(imported.bindings@[b].sources@[i].version < from.node);
                assert(imported.wf(self.graphs@));
                let graph = self.graphs@[imported.graph as int];
                assert(graph.system_wf(nodes));
                lemma_external_keeps_order(
                    graph,
                    nodes,
                    root->0,
                    reached,
                    key,
                    relation,
                    condition,
                    imported.mapping@,
                );
                remap::lemma_keeps_choices(imported.mapping@, condition);
                remap::lemma_renamed_wf(imported.mapping@, condition);
            },
            _ => {},
        }
    }

    proof fn step_stable(&self, a: Seq<PathNode>, b: Seq<PathNode>) {
        ssa::store_survives_growth(*self, a, b);
        assert forall|from: Visit, to: Visit, guard: Seq<Choice>| from.node < self.size() implies #[trigger] self.step(
            a,
            from,
            to,
            guard,
        ) == self.step(b, from, to, guard) by {
            lemma_version_stable(*self, a, b, from);
            assert(self.versions@[from.node as int].guarded_in(a));
            match self.versions@[from.node as int] {
                Version::Definition { condition, .. } => {
                    arena::growth_keeps_paths(a, b, condition.node as int);
                },
                Version::Imported { import, root } => {
                    let imported = self.imports@[import as int];
                    if version_step(*self, a, from, to, guard) {
                        let (reached, key, relation, condition, source) = choose|
                            reached: Map<Visit, Seq<Choice>>,
                            key: u64,
                            relation: PositionRelation,
                            condition: Seq<Choice>,
                            source: SourceRef,
                        |
                            {
                                &&& #[trigger] import_reads(*self, a, imported, root->0, reached, key, relation, condition, source)
                                &&& guard == remap::renamed_path(imported.mapping@, condition)
                                &&& to == (Visit {
                                    node: source.version,
                                    entry: true,
                                    relation: from.relation.then_by(source.relation).then_by(relation),
                                })
                            };
                        assert(import_reads(*self, b, imported, root->0, reached, key, relation, condition, source));
                    }
                    if version_step(*self, b, from, to, guard) {
                        let (reached, key, relation, condition, source) = choose|
                            reached: Map<Visit, Seq<Choice>>,
                            key: u64,
                            relation: PositionRelation,
                            condition: Seq<Choice>,
                            source: SourceRef,
                        |
                            {
                                &&& #[trigger] import_reads(*self, b, imported, root->0, reached, key, relation, condition, source)
                                &&& guard == remap::renamed_path(imported.mapping@, condition)
                                &&& to == (Visit {
                                    node: source.version,
                                    entry: true,
                                    relation: from.relation.then_by(source.relation).then_by(relation),
                                })
                            };
                        assert(import_reads(*self, a, imported, root->0, reached, key, relation, condition, source));
                    }
                },
                _ => {},
            }
        }
        assert forall|from: Visit| from.node < self.size() implies #[trigger] self.fits(a, from) == self.fits(b, from) by {
            lemma_fits_stable(*self, a, b, from);
        }
        assert forall|from: Visit| from.node < self.size() implies #[trigger] self.overflows(a, from) == self.overflows(b, from) by {
            lemma_fits_stable(*self, a, b, from);
            assert(self.versions@[from.node as int].wf(from.node as int, self.graphs@, self.imports@));
            if let Version::Imported { import, root } = self.versions@[from.node as int] {
                let imported = self.imports@[import as int];
                assert(imported.wf(self.graphs@));
                let graph = self.graphs@[imported.graph as int];
                assert(graph.system_wf(a));
                if root is Some {
                    assert forall|v: Visit| #[trigger] reach::walkable(graph, a, dag::dag_start(root->0), v) == reach::walkable(graph, b, dag::dag_start(root->0), v) by {
                        reach::walkable_survives_growth(graph, a, b, dag::dag_start(root->0), v);
                    }
                    if version_overflows(*self, a, from) && version_fits(*self, a, from) {
                        let v = choose|v: Visit| #[trigger] reach::walkable(graph, a, dag::dag_start(root->0), v) && v.node < graph.nodes@.len() && !graph.offsets_fit(v);
                        assert(reach::walkable(graph, b, dag::dag_start(root->0), v));
                    }
                    if version_overflows(*self, b, from) && version_fits(*self, b, from) {
                        let v = choose|v: Visit| #[trigger] reach::walkable(graph, b, dag::dag_start(root->0), v) && v.node < graph.nodes@.len() && !graph.offsets_fit(v);
                        reach::walkable_survives_growth(graph, a, b, dag::dag_start(root->0), v);
                        assert(reach::walkable(graph, a, dag::dag_start(root->0), v));
                    }
                }
            }
        }
    }

    fn successors(&self, arena: &mut PathArena, from: Visit) -> (r: Option<Vec<Step>>) {
        proof {
            assert(self.versions@[from.node as int].wf(from.node as int, self.graphs@, self.imports@));
            assert(self.versions@[from.node as int].guarded_in(arena@));
        }
        match &self.versions[from.node] {
            Version::Entry(_) => Some(Vec::new()),
            Version::Definition { sources, condition } => definition_steps(
                from,
                sources,
                *condition,
                Ghost(arena@),
            ),
            Version::Phi(inputs) => {
                let steps = phi_steps(from, inputs);
                proof {
                    assert(arena::path_of(arena@, 0) =~= Seq::<Choice>::empty());
                    assert forall|to: Visit, guard: Seq<Choice>| #[trigger] self.step(arena@, from, to, guard) implies exists|i: int|
                        0 <= i < steps@.len() && (#[trigger] steps@[i]).to == to && arena.path(steps@[i].condition) == guard by {
                        let i = choose|i: int| 0 <= i < inputs@.len() && inputs@[i] == to.node;
                        assert(steps@[i].to == to);
                    }
                    assert forall|i: int| 0 <= i < steps@.len() implies arena.holds((#[trigger] steps@[i]).condition) && self.step(arena@, from, steps@[i].to, arena.path(steps@[i].condition)) by {
                        assert(inputs@.contains(inputs@[i]));
                    }
                }
                Some(steps)
            },
            Version::Projected { source, .. } => {
                let mut steps: Vec<Step> = Vec::new();
                let to = Visit { node: *source, entry: true, relation: from.relation };
                steps.push(Step { to, condition: PathCondition { node: 0 } });
                proof {
                    assert(arena::path_of(arena@, 0) =~= Seq::<Choice>::empty());
                    assert(steps@[0].to == to);
                }
                Some(steps)
            },
            Version::Repeated { source, initial, step, .. } => {
                match from.relation.checked_compose(*initial) {
                    None => None,
                    Some(composed) => {
                        let relation = widen_repeated_axis(composed, *step);
                        let mut steps: Vec<Step> = Vec::new();
                        let to = Visit { node: *source, entry: true, relation };
                        steps.push(Step { to, condition: PathCondition { node: 0 } });
                        proof {
                            assert(arena::path_of(arena@, 0) =~= Seq::<Choice>::empty());
                            assert(steps@[0].to == to);
                        }
                        Some(steps)
                    },
                }
            },
            Version::Imported { import, root } => self.import_steps(arena, from, *import, *root),
        }
    }
}

/// Which sources an import reads does not depend on how far the arena has grown.
proof fn lemma_version_stable(store: SsaStore, a: Seq<PathNode>, b: Seq<PathNode>, from: Visit)
    requires
        store.wf(),
        store.guards_in(a),
        arena::nodes_wf(a),
        arena::nodes_wf(b),
        arena::grows(a, b),
        from.node < store.versions@.len(),
    ensures
        store.versions@[from.node as int] matches Version::Imported { import, root } ==> forall|
            reached: Map<Visit, Seq<Choice>>,
            key: u64,
            relation: PositionRelation,
            condition: Seq<Choice>,
            source: SourceRef,
        |
            #![trigger import_reads(store, a, store.imports@[import as int], root->0, reached, key, relation, condition, source)]
            #![trigger import_reads(store, b, store.imports@[import as int], root->0, reached, key, relation, condition, source)]
            import_reads(store, a, store.imports@[import as int], root->0, reached, key, relation, condition, source)
                == import_reads(store, b, store.imports@[import as int], root->0, reached, key, relation, condition, source),
{
    assert(store.versions@[from.node as int].wf(from.node as int, store.graphs@, store.imports@));
    if let Version::Imported { import, root } = store.versions@[from.node as int] {
        let imported = store.imports@[import as int];
        assert(imported.wf(store.graphs@));
        assert forall|
            reached: Map<Visit, Seq<Choice>>,
            key: u64,
            relation: PositionRelation,
            condition: Seq<Choice>,
            source: SourceRef,
        |
            #![trigger import_reads(store, a, imported, root->0, reached, key, relation, condition, source)]
            #![trigger import_reads(store, b, imported, root->0, reached, key, relation, condition, source)]
            import_reads(store, a, imported, root->0, reached, key, relation, condition, source)
                == import_reads(store, b, imported, root->0, reached, key, relation, condition, source) by {
            lemma_import_reads_stable(store, a, b, imported, root->0, reached, key, relation, condition, source);
        }
    }
}

proof fn lemma_fits_stable(store: SsaStore, a: Seq<PathNode>, b: Seq<PathNode>, from: Visit)
    requires
        store.wf(),
        store.guards_in(a),
        arena::nodes_wf(a),
        arena::nodes_wf(b),
        arena::grows(a, b),
        from.node < store.versions@.len(),
    ensures
        version_fits(store, a, from) == version_fits(store, b, from),
{
    lemma_version_stable(store, a, b, from);
}

/// The steps of a definition.
fn definition_steps(
    from: Visit,
    sources: &Vec<SourceRef>,
    condition: PathCondition,
    Ghost(nodes): Ghost<Seq<PathNode>>,
) -> (r: Option<Vec<Step>>)
    ensures
        r is Some <==> forall|s: SourceRef| #[trigger]
            sources@.contains(s) ==> from.relation.composes(s.relation),
        r matches Some(steps) ==> {
            &&& forall|i: int|
                0 <= i < steps@.len() ==> {
                    &&& (#[trigger] steps@[i]).condition == condition
                    &&& steps@[i].to.entry
                    &&& exists|s: SourceRef| #[trigger]
                        sources@.contains(s) && steps@[i].to.node == s.version
                            && steps@[i].to.relation == from.relation.then_by(s.relation)
                }
            &&& forall|s: SourceRef| #[trigger]
                sources@.contains(s) ==> exists|i: int|
                    0 <= i < steps@.len() && (#[trigger] steps@[i]).to == (Visit {
                        node: s.version,
                        entry: true,
                        relation: from.relation.then_by(s.relation),
                    })
        },
{
    let mut steps: Vec<Step> = Vec::new();
    let mut i: usize = 0;
    while i < sources.len()
        invariant
            i <= sources.len(),
            steps@.len() == i,
            forall|k: int| 0 <= k < i ==> from.relation.composes((#[trigger] sources@[k]).relation),
            forall|k: int|
                0 <= k < i ==> #[trigger] steps@[k] == (Step {
                    to: Visit {
                        node: sources@[k].version,
                        entry: true,
                        relation: from.relation.then_by(sources@[k].relation),
                    },
                    condition,
                }),
        decreases sources.len() - i,
    {
        let source = sources[i];
        match from.relation.checked_compose(source.relation) {
            None => {
                assert(sources@.contains(sources@[i as int]));
                return None;
            },
            Some(relation) => {
                steps.push(
                    Step { to: Visit { node: source.version, entry: true, relation }, condition },
                );
            },
        }
        i = i + 1;
    }
    proof {
        assert forall|s: SourceRef| #[trigger] sources@.contains(s) implies from.relation.composes(s.relation) && exists|k: int|
            0 <= k < steps@.len() && (#[trigger] steps@[k]).to == (Visit {
                node: s.version,
                entry: true,
                relation: from.relation.then_by(s.relation),
            }) by {
            let k = choose|k: int| 0 <= k < sources@.len() && sources@[k] == s;
            assert(from.relation.composes(sources@[k].relation));
            assert(steps@[k].to.node == s.version);
        }
        assert forall|k: int| 0 <= k < steps@.len() implies exists|s: SourceRef| #[trigger]
            sources@.contains(s) && (#[trigger] steps@[k]).to.node == s.version && steps@[k].to.relation == from.relation.then_by(s.relation) by {
            assert(sources@.contains(sources@[k]));
        }
    }
    Some(steps)
}

/// The steps of a merge point.
fn phi_steps(from: Visit, inputs: &Vec<usize>) -> (r: Vec<Step>)
    ensures
        r@.len() == inputs@.len(),
        forall|i: int|
            0 <= i < r@.len() ==> #[trigger] r@[i] == (Step {
                to: Visit { node: inputs@[i], entry: from.entry, relation: from.relation },
                condition: PathCondition { node: 0 },
            }),
{
    let mut steps: Vec<Step> = Vec::new();
    let mut i: usize = 0;
    while i < inputs.len()
        invariant
            i <= inputs.len(),
            steps@.len() == i,
            forall|k: int|
                0 <= k < i ==> #[trigger] steps@[k] == (Step {
                    to: Visit { node: inputs@[k], entry: from.entry, relation: from.relation },
                    condition: PathCondition { node: 0 },
                }),
        decreases inputs.len() - i,
    {
        let to = Visit { node: inputs[i], entry: from.entry, relation: from.relation };
        steps.push(Step { to, condition: PathCondition { node: 0 } });
        i = i + 1;
    }
    steps
}

/// The place of `key` in bindings with ascending keys.
pub(crate) fn find_binding(bindings: &Vec<KeyBinding>, key: u64) -> (r: Option<usize>)
    requires
        ssa::bindings_sorted(bindings@),
    ensures
        r matches Some(i) ==> i < bindings@.len() && bindings@[i as int].key == key,
        r is None ==> forall|i: int| 0 <= i < bindings@.len() ==> (#[trigger] bindings@[i]).key != key,
{
    let mut low: usize = 0;
    let mut high: usize = bindings.len();
    while low < high
        invariant
            low <= high <= bindings.len(),
            ssa::bindings_sorted(bindings@),
            forall|k: int| 0 <= k < low ==> (#[trigger] bindings@[k]).key < key,
            forall|k: int| high <= k < bindings@.len() ==> key < (#[trigger] bindings@[k]).key,
        decreases high - low,
    {
        let middle: usize = low + (high - low) / 2;
        let found: u64 = bindings[middle].key;
        if found < key {
            low = middle + 1;
        } else if key < found {
            high = middle;
        } else {
            return Some(middle);
        }
    }
    None
}

/// A copy of a list of branch pairs.
pub(crate) fn copy_mapping(mapping: &Vec<(BranchId, BranchId)>) -> (r: Vec<(BranchId, BranchId)>)
    ensures
        r@ == mapping@,
{
    let mut r: Vec<(BranchId, BranchId)> = Vec::new();
    let mut i: usize = 0;
    while i < mapping.len()
        invariant
            i <= mapping.len(),
            r@ == mapping@.take(i as int),
        decreases mapping.len() - i,
    {
        r.push((mapping[i].0, mapping[i].1));
        assert(mapping@.take(i as int + 1) =~= mapping@.take(i as int).push(mapping@[i as int]));
        i = i + 1;
    }
    assert(mapping@.take(i as int) =~= mapping@);
    r
}

/// Where reading `source` for an external value seen through `relation` leads.
pub open spec fn read_target(from: Visit, source: SourceRef, relation: PositionRelation) -> Visit {
    Visit {
        node: source.version,
        entry: true,
        relation: from.relation.then_by(source.relation).then_by(relation),
    }
}

/// The step follows one read of the import.
spec fn follows_read(
    store: SsaStore,
    nodes: Seq<PathNode>,
    imported: Import,
    root: usize,
    reached: Map<Visit, Seq<Choice>>,
    from: Visit,
    to: Visit,
    guard: Seq<Choice>,
) -> bool {
    exists|key: u64, relation: PositionRelation, condition: Seq<Choice>, source: SourceRef|
        {
            &&& #[trigger] import_reads(
                store,
                nodes,
                imported,
                root,
                reached,
                key,
                relation,
                condition,
                source,
            )
            &&& guard == remap::renamed_path(imported.mapping@, condition)
            &&& to == read_target(from, source, relation)
        }
}

/// Some step leads to `to` under `guard`.
spec fn has_step(steps: Seq<Step>, nodes: Seq<PathNode>, to: Visit, guard: Seq<Choice>) -> bool {
    exists|k: int|
        0 <= k < steps.len() && (#[trigger] steps[k]).to == to && arena::path_of(
            nodes,
            steps[k].condition.node as int,
        ) == guard
}

proof fn lemma_has_step_grows(steps: Seq<Step>, more: Seq<Step>, a: Seq<PathNode>, b: Seq<PathNode>, to: Visit, guard: Seq<Choice>)
    requires
        has_step(steps, a, to, guard),
        arena::grows(a, b),
        steps.len() <= more.len(),
        forall|k: int| 0 <= k < steps.len() ==> (#[trigger] steps[k]).condition.node < a.len() && more[k] == steps[k],
    ensures
        has_step(more, b, to, guard),
{
    let k = choose|k: int| 0 <= k < steps.len() && (#[trigger] steps[k]).to == to && arena::path_of(a, steps[k].condition.node as int) == guard;
    arena::growth_keeps_paths(a, b, steps[k].condition.node as int);
    assert(more[k].to == to);
}

/// Appends a step for every bound source, unless an offset does not fit.
fn push_reads(
    from: Visit,
    bound: &Vec<SourceRef>,
    relation: PositionRelation,
    condition: PathCondition,
    steps: &mut Vec<Step>,
) -> (r: bool)
    ensures
        r <==> forall|m: int|
            0 <= m < bound@.len() ==> read_fits(
                from.relation,
                (#[trigger] bound@[m]).relation,
                relation,
            ),
        old(steps)@.len() <= final(steps)@.len(),
        forall|k: int| 0 <= k < old(steps)@.len() ==> final(steps)@[k] == #[trigger] old(steps)@[k],
        r ==> final(steps)@.len() == old(steps)@.len() + bound@.len(),
        r ==> forall|m: int|
            0 <= m < bound@.len() ==> final(steps)@[old(steps)@.len() + m] == (Step {
                to: read_target(from, #[trigger] bound@[m], relation),
                condition,
            }),
{
    let mut j: usize = 0;
    while j < bound.len()
        invariant
            j <= bound.len(),
            steps@.len() == old(steps)@.len() + j,
            forall|k: int| 0 <= k < old(steps)@.len() ==> steps@[k] == #[trigger] old(steps)@[k],
            forall|m: int|
                0 <= m < j ==> read_fits(from.relation, (#[trigger] bound@[m]).relation, relation),
            forall|m: int|
                0 <= m < j ==> steps@[old(steps)@.len() + m] == (Step {
                    to: read_target(from, #[trigger] bound@[m], relation),
                    condition,
                }),
        decreases bound.len() - j,
    {
        let source = bound[j];
        let composed = match from.relation.checked_compose(source.relation) {
            None => None,
            Some(first) => first.checked_compose(relation),
        };
        match composed {
            None => {
                assert(!read_fits(from.relation, bound@[j as int].relation, relation));
                return false;
            },
            Some(composed) => {
                let to = Visit { node: source.version, entry: true, relation: composed };
                steps.push(Step { to, condition });
            },
        }
        j = j + 1;
    }
    true
}

impl SsaStore {
    /// The steps into the sources that an import reads.
    #[verifier::rlimit(60)]
    fn import_steps(
        &self,
        arena: &mut PathArena,
        from: Visit,
        import: usize,
        root: Option<usize>,
    ) -> (r: Option<Vec<Step>>)
        requires
            old(arena).wf(),
            self.system_wf(old(arena)@),
            from.node < self.size(),
            self.versions@[from.node as int] == (Version::Imported { import, root }),
        ensures
            final(arena).wf(),
            arena::grows(old(arena)@, final(arena)@),
            r is Some ==> self.fits(final(arena)@, from),
            r is None ==> self.overflows(final(arena)@, from),
            r matches Some(steps) ==> {
                &&& forall|i: int|
                    0 <= i < steps@.len() ==> final(arena).holds((#[trigger] steps@[i]).condition)
                        && self.step(
                        final(arena)@,
                        from,
                        steps@[i].to,
                        final(arena).path(steps@[i].condition),
                    )
                &&& forall|to: Visit, guard: Seq<Choice>| #[trigger]
                    self.step(final(arena)@, from, to, guard) ==> exists|i: int|
                        0 <= i < steps@.len() && (#[trigger] steps@[i]).to == to
                            && final(arena).path(steps@[i].condition) == guard
            },
    {
        let mut steps: Vec<Step> = Vec::new();
        let start_node: usize = match root {
            None => {
                return Some(steps);
            },
            Some(n) => n,
        };
        let ghost nodes0 = arena@;
        let ghost imported = self.imports@[import as int];
        proof {
            assert(self.versions@[from.node as int].wf(from.node as int, self.graphs@, self.imports@));
            assert(imported.wf(self.graphs@));
        }
        let graph: usize = self.imports[import].graph;
        let ghost dag = self.graphs@[graph as int];
        assert(dag.system_wf(nodes0));
        let list = match dependency_dag_external_sources(&self.graphs[graph], arena, root) {
            None => {
                proof {
                    let v = choose|v: Visit| #[trigger]
                        reach::walkable(dag, nodes0, dag::dag_start(start_node), v) && v.node < dag.size() && !dag.offsets_fit(v);
                    reach::walkable_survives_growth(dag, nodes0, arena@, dag::dag_start(start_node), v);
                    assert(reach::walkable(dag, arena@, dag::dag_start(start_node), v));
                }
                return None;
            },
            Some(list) => list,
        };
        let ghost nodes1 = arena@;
        let ghost reached = choose|reached: Map<Visit, Seq<Choice>>| #[trigger]
            reach::is_solution(dag, nodes0, dag::dag_start(start_node), reached) && dag::lists_externals(dag, reached, list@, nodes1)
                && forall|v: Visit| reached.contains_key(v) ==> #[trigger] dag.offsets_fit(v);
        let ghost paths = Seq::new(list@.len(), |m: int| arena::path_of(nodes1, list@[m].condition.node as int));
        proof {
            assert forall|m: int| 0 <= m < list@.len() implies external_condition(dag, reached, list@[m].key, list@[m].relation, #[trigger] paths[m])
                && remap::keeps_order(imported.mapping@, paths[m]) by {
                lemma_listed_condition(dag, reached, list@, nodes1, m);
                lemma_external_keeps_order(dag, nodes0, start_node, reached, list@[m].key, list@[m].relation, paths[m], imported.mapping@);
            }
        }
        let mut remapper = BranchRemapper::new(copy_mapping(&self.imports[import].mapping));
        let mut i: usize = 0;
        while i < list.len()
            invariant
                i <= list.len(),
                nodes0 == old(arena)@,
                arena.wf(),
                arena::grows(nodes0, nodes1),
                arena::grows(nodes1, arena@),
                arena::nodes_wf(nodes0),
                self.system_wf(nodes0),
                from.node < self.size(),
                import < self.imports@.len(),
                imported == self.imports@[import as int],
                imported.wf(self.graphs@),
                dag == self.graphs@[imported.graph as int],
                self.versions@[from.node as int] == (Version::Imported { import, root }),
                root == Some(start_node),
                reach::is_solution(dag, nodes0, dag::dag_start(start_node), reached),
                sources::sources_valid(list@, nodes1),
                paths.len() == list@.len(),
                forall|m: int|
                    0 <= m < list@.len() ==> #[trigger] paths[m] == arena::path_of(
                        nodes1,
                        list@[m].condition.node as int,
                    ) && external_condition(
                        dag,
                        reached,
                        list@[m].key,
                        list@[m].relation,
                        paths[m],
                    ) && remap::keeps_order(imported.mapping@, paths[m]),
                remapper.wf(*arena),
                remapper.mapping@ == imported.mapping@,
                forall|k: int|
                    0 <= k < steps@.len() ==> (#[trigger] steps@[k]).condition.node < arena@.len()
                        && follows_read(
                        *self,
                        nodes0,
                        imported,
                        start_node,
                        reached,
                        from,
                        steps@[k].to,
                        arena::path_of(arena@, steps@[k].condition.node as int),
                    ),
                forall|m: int, source: SourceRef|
                    0 <= m < i && #[trigger] binds_source(
                        imported.bindings@,
                        list@[m].key,
                        source,
                    ) ==> read_fits(from.relation, source.relation, list@[m].relation) && has_step(
                        steps@,
                        arena@,
                        read_target(from, source, list@[m].relation),
                        remap::renamed_path(imported.mapping@, paths[m]),
                    ),
            decreases list.len() - i,
        {
            let item = list[i];
            let ghost condition = paths[i as int];
            let ghost before_arena = arena@;
            let ghost steps0 = steps@;
            proof {
                assert(item.condition.node < nodes1.len());
                arena::growth_keeps_paths(nodes1, arena@, item.condition.node as int);
                arena::arena_paths_wf(arena@, item.condition.node as int);
                remap::lemma_keeps_choices(imported.mapping@, arena.path(item.condition));
            }
            let renamed = remapper.remap(arena, item.condition);
            let ghost guard = remap::renamed_path(imported.mapping@, condition);
            proof {
                arena::growth_is_transitive(nodes1, before_arena, arena@);
                lemma_follows_grow(*self, nodes0, imported, start_node, reached, from, steps@, before_arena, arena@);
                assert forall|m: int, source: SourceRef| 0 <= m < i && #[trigger] binds_source(imported.bindings@, list@[m].key, source) implies read_fits(
                    from.relation,
                    source.relation,
                    list@[m].relation,
                ) && has_step(steps@, arena@, read_target(from, source, list@[m].relation), remap::renamed_path(imported.mapping@, paths[m])) by {
                    lemma_has_step_grows(steps@, steps@, before_arena, arena@, read_target(from, source, list@[m].relation), remap::renamed_path(imported.mapping@, paths[m]));
                }
            }
            match find_binding(&self.imports[import].bindings, item.key) {
                None => {
                    proof {
                        assert forall|source: SourceRef| !binds_source(imported.bindings@, item.key, source) by {}
                    }
                },
                Some(place) => {
                    let bound = &self.imports[import].bindings[place].sources;
                    let fitting = push_reads(from, bound, item.relation, renamed, &mut steps);
                    proof {
                        assert forall|m: int| 0 <= m < bound@.len() implies binds_source(imported.bindings@, item.key, #[trigger] bound@[m])
                            && import_reads(*self, nodes0, imported, start_node, reached, item.key, item.relation, condition, bound@[m]) by {
                            assert(imported.bindings@[place as int].sources@.contains(bound@[m]));
                        }
                    }
                    if !fitting {
                        proof {
                            let m = choose|m: int| 0 <= m < bound@.len() && !read_fits(from.relation, (#[trigger] bound@[m]).relation, item.relation);
                            assert(import_reads(*self, nodes0, self.imports@[import as int], root->0, reached, item.key, item.relation, condition, bound@[m]));
                            assert(!version_fits(*self, nodes0, from));
                            arena::growth_is_transitive(nodes0, nodes1, arena@);
                            lemma_fits_stable(*self, nodes0, arena@, from);
                        }
                        return None;
                    }
                    proof {
                        assert forall|k: int| 0 <= k < steps@.len() implies (#[trigger] steps@[k]).condition.node < arena@.len()
                            && follows_read(*self, nodes0, imported, start_node, reached, from, steps@[k].to, arena::path_of(arena@, steps@[k].condition.node as int)) by {
                            if k < steps0.len() {
                                assert(steps@[k] == steps0[k]);
                            } else {
                                let m = k - steps0.len();
                                assert(steps@[steps0.len() + m] == (Step { to: read_target(from, bound@[m], item.relation), condition: renamed }));
                                assert(import_reads(*self, nodes0, imported, start_node, reached, item.key, item.relation, condition, bound@[m]));
                            }
                        }
                        assert forall|m: int| 0 <= m < bound@.len() implies has_step(steps@, arena@, read_target(from, #[trigger] bound@[m], item.relation), guard) by {
                            assert(steps@[steps0.len() + m].to == read_target(from, bound@[m], item.relation));
                        }
                    }
                    proof {
                        assert forall|source: SourceRef| binds_source(imported.bindings@, item.key, source) implies read_fits(from.relation, source.relation, item.relation)
                            && has_step(steps@, arena@, read_target(from, source, item.relation), guard) by {
                            let b = choose|b: int| 0 <= b < imported.bindings@.len() && (#[trigger] imported.bindings@[b]).key == item.key && imported.bindings@[b].sources@.contains(source);
                            if b < place {
                                assert(imported.bindings@[b].key < imported.bindings@[place as int].key);
                            } else if place < b {
                                assert(imported.bindings@[place as int].key < imported.bindings@[b].key);
                            }
                            let m = choose|m: int| 0 <= m < bound@.len() && bound@[m] == source;
                            assert(read_fits(from.relation, bound@[m].relation, item.relation));
                        }
                    }
                },
            }
            proof {
                assert forall|m: int, source: SourceRef| 0 <= m < i + 1 && #[trigger] binds_source(imported.bindings@, list@[m].key, source) implies read_fits(
                    from.relation,
                    source.relation,
                    list@[m].relation,
                ) && has_step(steps@, arena@, read_target(from, source, list@[m].relation), remap::renamed_path(imported.mapping@, paths[m])) by {
                    if m < i {
                        assert forall|k: int| 0 <= k < steps0.len() implies (#[trigger] steps0[k]).condition.node < arena@.len() && steps@[k] == steps0[k] by {}
                        lemma_has_step_grows(steps0, steps@, arena@, arena@, read_target(from, source, list@[m].relation), remap::renamed_path(imported.mapping@, paths[m]));
                    }
                }
            }
            i = i + 1;
        }
        proof {
            arena::growth_is_transitive(nodes0, nodes1, arena@);
            lemma_version_stable(*self, nodes0, arena@, from);
            assert forall|
                reached2: Map<Visit, Seq<Choice>>,
                key: u64,
                relation: PositionRelation,
                condition: Seq<Choice>,
                source: SourceRef,
            | #[trigger]
                import_reads(*self, nodes0, imported, start_node, reached2, key, relation, condition, source) implies read_fits(from.relation, source.relation, relation)
                && has_step(steps@, arena@, read_target(from, source, relation), remap::renamed_path(imported.mapping@, condition)) by {
                reach::solution_is_unique(dag, nodes0, dag::dag_start(start_node), reached, reached2);
                let v = choose|v: Visit| #[trigger] dag::external_at(dag, reached, v, key, relation);
                assert(dag::external_at(dag, reached, v, key, relation));
                assert(sources::names(list@, key, relation));
                let m = choose|m: int| 0 <= m < list@.len() && (#[trigger] list@[m]).key == key && list@[m].relation == relation;
                assert(external_condition(dag, reached, key, relation, paths[m]));
                lemma_external_unique(dag, reached, key, relation, condition, paths[m]);
                assert(binds_source(imported.bindings@, list@[m].key, source));
            }
            assert(version_fits(*self, nodes0, from));
            lemma_fits_stable(*self, nodes0, arena@, from);
            assert forall|k: int| 0 <= k < steps@.len() implies arena.holds((#[trigger] steps@[k]).condition) && self.step(arena@, from, steps@[k].to, arena.path(steps@[k].condition)) by {
                let guard = arena.path(steps@[k].condition);
                let (key, relation, condition, source) = choose|key: u64, relation: PositionRelation, condition: Seq<Choice>, source: SourceRef| {
                    &&& #[trigger] import_reads(*self, nodes0, imported, start_node, reached, key, relation, condition, source)
                    &&& guard == remap::renamed_path(imported.mapping@, condition)
                    &&& steps@[k].to == read_target(from, source, relation)
                };
                assert(import_reads(*self, arena@, self.imports@[import as int], root->0, reached, key, relation, condition, source));
            }
            assert forall|to: Visit, guard: Seq<Choice>| #[trigger] self.step(arena@, from, to, guard) implies exists|k: int|
                0 <= k < steps@.len() && (#[trigger] steps@[k]).to == to && arena.path(steps@[k].condition) == guard by {
                let (reached2, key, relation, condition, source) = choose|
                    reached2: Map<Visit, Seq<Choice>>,
                    key: u64,
                    relation: PositionRelation,
                    condition: Seq<Choice>,
                    source: SourceRef,
                | {
                    &&& #[trigger] import_reads(*self, arena@, self.imports@[import as int], root->0, reached2, key, relation, condition, source)
                    &&& guard == remap::renamed_path(self.imports@[import as int].mapping@, condition)
                    &&& to == (Visit {
                        node: source.version,
                        entry: true,
                        relation: from.relation.then_by(source.relation).then_by(relation),
                    })
                };
                assert(import_reads(*self, nodes0, imported, start_node, reached2, key, relation, condition, source));
                assert(has_step(steps@, arena@, read_target(from, source, relation), remap::renamed_path(imported.mapping@, condition)));
            }
        }
        Some(steps)
    }
}

proof fn lemma_follows_grow(
    store: SsaStore,
    nodes0: Seq<PathNode>,
    imported: Import,
    root: usize,
    reached: Map<Visit, Seq<Choice>>,
    from: Visit,
    steps: Seq<Step>,
    a: Seq<PathNode>,
    b: Seq<PathNode>,
)
    requires
        arena::grows(a, b),
        forall|k: int|
            0 <= k < steps.len() ==> (#[trigger] steps[k]).condition.node < a.len() && follows_read(
                store,
                nodes0,
                imported,
                root,
                reached,
                from,
                steps[k].to,
                arena::path_of(a, steps[k].condition.node as int),
            ),
    ensures
        forall|k: int|
            0 <= k < steps.len() ==> (#[trigger] steps[k]).condition.node < b.len() && follows_read(
                store,
                nodes0,
                imported,
                root,
                reached,
                from,
                steps[k].to,
                arena::path_of(b, steps[k].condition.node as int),
            ),
{
    assert forall|k: int| 0 <= k < steps.len() implies (#[trigger] steps[k]).condition.node < b.len() && follows_read(
        store,
        nodes0,
        imported,
        root,
        reached,
        from,
        steps[k].to,
        arena::path_of(b, steps[k].condition.node as int),
    ) by {
        arena::growth_keeps_paths(a, b, steps[k].condition.node as int);
    }
}

/// `key` may be reported.
pub open spec fn permits(allowed: Option<HashSet<u64>>, key: u64) -> bool {
    allowed matches Some(keys) ==> keys@.contains(key)
}

/// `v` is reached and stands for the live-on-entry value of `key` seen through `relation`.
pub open spec fn entry_at(
    store: SsaStore,
    reached: Map<Visit, Seq<Choice>>,
    v: Visit,
    key: u64,
    relation: PositionRelation,
) -> bool {
    &&& reached.contains_key(v)
    &&& v.node < store.versions@.len()
    &&& v.entry
    &&& store.versions@[v.node as int] == Version::Entry(key)
    &&& v.relation == relation
}

/// The list names exactly the permitted live-on-entry values that are reached, each under the
/// condition that leaves an arm open when its visit does.
pub open spec fn lists_entries(
    store: SsaStore,
    reached: Map<Visit, Seq<Choice>>,
    allowed: Option<HashSet<u64>>,
    list: Seq<Source>,
    nodes: Seq<PathNode>,
) -> bool {
    &&& sources::sources_valid(list, nodes)
    &&& sources::sources_distinct(list)
    &&& forall|key: u64, relation: PositionRelation| #[trigger]
        sources::names(list, key, relation) <==> permits(allowed, key) && exists|v: Visit| #[trigger]
            entry_at(store, reached, v, key, relation)
    &&& forall|key: u64, relation: PositionRelation, branch: BranchId, arm: int|
        0 <= arm < branch.arms ==> (#[trigger] sources::opens(
            list,
            nodes,
            key,
            relation,
            branch,
            arm,
        ) <==> permits(allowed, key) && exists|v: Visit| #[trigger]
            entry_at(store, reached, v, key, relation) && path::allows(reached[v], branch, arm))
}

/// Where the walk from a version starts.
pub open spec fn version_start(version: usize, entry: bool) -> Visit {
    Visit { node: version, entry, relation: PositionRelation::identity() }
}

/// `list` summarises the sources of `version`.
pub open spec fn summarises(
    store: SsaStore,
    nodes0: Seq<PathNode>,
    version: usize,
    entry: bool,
    allowed: Option<HashSet<u64>>,
    list: Seq<Source>,
    nodes: Seq<PathNode>,
) -> bool {
    exists|reached: Map<Visit, Seq<Choice>>| #[trigger]
        reach::is_solution(store, nodes0, version_start(version, entry), reached) && lists_entries(
            store,
            reached,
            allowed,
            list,
            nodes,
        ) && forall|v: Visit| reached.contains_key(v) ==> #[trigger] store.fits(nodes0, v)
}

/// Some offset on a way to a source of `version` does not fit.
pub open spec fn sources_overflow(store: SsaStore, nodes: Seq<PathNode>, version: usize, entry: bool) -> bool {
    exists|v: Visit| #[trigger]
        reach::walkable(store, nodes, version_start(version, entry), v) && v.node < store.size() && store.overflows(nodes, v)
}

impl SsaStore {
    /// The live-on-entry values that `version` depends on. Without `include_entry` a
    /// live-on-entry value that merely survives does not count as read. There is no answer when
    /// an offset on the way does not fit.
    pub fn source_summary(
        &self,
        arena: &mut PathArena,
        version: usize,
        include_entry: bool,
        allowed: &Option<HashSet<u64>>,
    ) -> (r: Option<Vec<Source>>)
        requires
            old(arena).wf(),
            self.system_wf(old(arena)@),
            version < self.versions@.len(),
        ensures
            final(arena).wf(),
            arena::grows(old(arena)@, final(arena)@),
            r matches Some(list) ==> summarises(
                *self,
                old(arena)@,
                version,
                include_entry,
                *allowed,
                list@,
                final(arena)@,
            ),
            r is None ==> sources_overflow(*self, old(arena)@, version, include_entry),
    {
        let start = Visit { node: version, entry: include_entry, relation: PositionRelation::default() };
        let ghost nodes0 = arena@;
        let visits = match solve(self, arena, start) {
            None => {
                return None;
            },
            Some(visits) => visits,
        };
        let ghost reached = choose|reached: Map<Visit, Seq<Choice>>| #[trigger]
            reach::is_solution(*self, nodes0, start, reached) && reach::represents(
                visits@,
                arena@,
                reached,
            ) && forall|v: Visit| reached.contains_key(v) ==> #[trigger] self.fits(nodes0, v);
        let ghost nodes1 = arena@;
        let mut list = SourceList::new();
        let mut i: usize = 0;
        while i < visits.len()
            invariant
                i <= visits.len(),
                arena.wf(),
                arena::grows(nodes0, nodes1),
                arena::grows(nodes1, arena@),
                reach::represents(visits@, nodes1, reached),
                list.wf(arena@),
                forall|key: u64, relation: PositionRelation| #[trigger]
                    sources::names(list.list@, key, relation) <==> permits(*allowed, key)
                        && exists|k: int|
                        0 <= k < i && entry_at(
                            *self,
                            reached,
                            (#[trigger] visits@[k]).visit,
                            key,
                            relation,
                        ),
                forall|key: u64, relation: PositionRelation, branch: BranchId, arm: int|
                    0 <= arm < branch.arms ==> (#[trigger] sources::opens(
                        list.list@,
                        arena@,
                        key,
                        relation,
                        branch,
                        arm,
                    ) <==> permits(*allowed, key) && exists|k: int|
                        0 <= k < i && entry_at(
                            *self,
                            reached,
                            (#[trigger] visits@[k]).visit,
                            key,
                            relation,
                        ) && path::allows(reached[visits@[k].visit], branch, arm)),
            decreases visits.len() - i,
        {
            let found = visits[i];
            let ghost nodes2 = arena@;
            proof {
                assert(found.condition.node < nodes1.len());
                arena::growth_keeps_paths(nodes1, arena@, found.condition.node as int);
            }
            if found.visit.entry && found.visit.node < self.versions.len() {
                if let Version::Entry(key) = &self.versions[found.visit.node] {
                    let permitted = match allowed {
                        Some(keys) => keys.contains(key),
                        None => true,
                    };
                    proof {
                        assert(entry_at(*self, reached, found.visit, *key, found.visit.relation));
                    }
                    if permitted {
                        list.merge_source(
                            arena,
                            Source {
                                key: *key,
                                relation: found.visit.relation,
                                condition: found.condition,
                            },
                        );
                        proof {
                            arena::growth_is_transitive(nodes1, nodes2, arena@);
                        }
                    }
                }
            }
            proof {
                lemma_entries_next(*self, reached, visits@, i as int);
            }
            i = i + 1;
        }
        proof {
            arena::growth_is_transitive(nodes0, nodes1, arena@);
            assert forall|key: u64, relation: PositionRelation| #[trigger] sources::names(list.list@, key, relation) <==> permits(*allowed, key) && exists|v: Visit| #[trigger] entry_at(*self, reached, v, key, relation) by {
                if exists|v: Visit| #[trigger] entry_at(*self, reached, v, key, relation) {
                    let v = choose|v: Visit| #[trigger] entry_at(*self, reached, v, key, relation);
                    let k = choose|k: int| 0 <= k < visits@.len() && (#[trigger] visits@[k]).visit == v;
                    assert(entry_at(*self, reached, visits@[k].visit, key, relation));
                }
            }
            assert forall|key: u64, relation: PositionRelation, branch: BranchId, arm: int| 0 <= arm < branch.arms implies (#[trigger] sources::opens(list.list@, arena@, key, relation, branch, arm) <==> permits(*allowed, key) && exists|v: Visit| #[trigger] entry_at(*self, reached, v, key, relation) && path::allows(reached[v], branch, arm)) by {
                if exists|v: Visit| #[trigger] entry_at(*self, reached, v, key, relation) && path::allows(reached[v], branch, arm) {
                    let v = choose|v: Visit| #[trigger] entry_at(*self, reached, v, key, relation) && path::allows(reached[v], branch, arm);
                    let k = choose|k: int| 0 <= k < visits@.len() && (#[trigger] visits@[k]).visit == v;
                    assert(entry_at(*self, reached, visits@[k].visit, key, relation));
                }
            }
            assert(start == version_start(version, include_entry));
            assert(lists_entries(*self, reached, *allowed, list.list@, arena@));
        }
        Some(list.list)
    }

    /// The sources of `version` that are read, with their relations and conditions.
    pub fn root_source_relations_guarded(
        &self,
        arena: &mut PathArena,
        version: usize,
        allowed: &Option<HashSet<u64>>,
    ) -> (r: Option<Vec<Source>>)
        requires
            old(arena).wf(),
            self.system_wf(old(arena)@),
            version < self.versions@.len(),
        ensures
            final(arena).wf(),
            arena::grows(old(arena)@, final(arena)@),
            r matches Some(list) ==> summarises(
                *self,
                old(arena)@,
                version,
                false,
                *allowed,
                list@,
                final(arena)@,
            ),
            r is None ==> sources_overflow(*self, old(arena)@, version, false),
    {
        self.source_summary(arena, version, false, allowed)
    }

    /// The sources of `version`, a surviving live-on-entry value among them.
    pub fn root_source_relations_guarded_including_entry(
        &self,
        arena: &mut PathArena,
        version: usize,
        allowed: &Option<HashSet<u64>>,
    ) -> (r: Option<Vec<Source>>)
        requires
            old(arena).wf(),
            self.system_wf(old(arena)@),
            version < self.versions@.len(),
        ensures
            final(arena).wf(),
            arena::grows(old(arena)@, final(arena)@),
            r matches Some(list) ==> summarises(
                *self,
                old(arena)@,
                version,
                true,
                *allowed,
                list@,
                final(arena)@,
            ),
            r is None ==> sources_overflow(*self, old(arena)@, version, true),
    {
        self.source_summary(arena, version, true, allowed)
    }

    /// For every source of `version`, the relation on which all its uses agree.
    pub fn root_source_relations(&self, arena: &mut PathArena, version: usize) -> (r: Option<
        Vec<KeyRelation>,
    >)
        requires
            old(arena).wf(),
            self.system_wf(old(arena)@),
            version < self.versions@.len(),
        ensures
            final(arena).wf(),
            arena::grows(old(arena)@, final(arena)@),
            r matches Some(relations) ==> exists|list: Seq<Source>| #[trigger]
                summarises(
                    *self,
                    old(arena)@,
                    version,
                    false,
                    None,
                    list,
                    final(arena)@,
                ) && agrees(list, relations@),
            r is None ==> sources_overflow(*self, old(arena)@, version, false),
    {
        let none: Option<HashSet<u64>> = None;
        match self.source_summary(arena, version, false, &none) {
            None => None,
            Some(list) => {
                let relations = agree(&list);
                proof {
                    assert(summarises(*self, old(arena)@, version, false, None, list@, arena@));
                }
                Some(relations)
            },
        }
    }

    /// The keys that `version` reads, ascending.
    pub fn root_sources(&self, arena: &mut PathArena, version: usize) -> (r: Option<Vec<u64>>)
        requires
            old(arena).wf(),
            self.system_wf(old(arena)@),
            version < self.versions@.len(),
        ensures
            final(arena).wf(),
            arena::grows(old(arena)@, final(arena)@),
            r matches Some(keys) ==> order::strictly_sorted(keys@) && exists|list: Seq<Source>| #[trigger]
                summarises(
                    *self,
                    old(arena)@,
                    version,
                    false,
                    None,
                    list,
                    final(arena)@,
                ) && forall|key: u64| #[trigger]
                    keys@.contains(key) <==> exists|i: int|
                        0 <= i < list.len() && (#[trigger] list[i]).key == key,
            r is None ==> sources_overflow(*self, old(arena)@, version, false),
    {
        let none: Option<HashSet<u64>> = None;
        match self.source_summary(arena, version, false, &none) {
            None => None,
            Some(list) => {
                let keys = keys_of(&list);
                proof {
                    assert(summarises(*self, old(arena)@, version, false, None, list@, arena@));
                }
                Some(keys)
            },
        }
    }
}

proof fn lemma_entries_next(
    store: SsaStore,
    reached: Map<Visit, Seq<Choice>>,
    visits: Seq<Reach>,
    i: int,
)
    requires
        0 <= i < visits.len(),
    ensures
        forall|key: u64, relation: PositionRelation|
            (exists|k: int|
                0 <= k < i + 1 && #[trigger] entry_at(
                    store,
                    reached,
                    visits[k].visit,
                    key,
                    relation,
                )) <==> (exists|k: int|
                0 <= k < i && #[trigger] entry_at(
                    store,
                    reached,
                    visits[k].visit,
                    key,
                    relation,
                )) || #[trigger] entry_at(store, reached, visits[i].visit, key, relation),
{
}

/// A key and the relation on which its uses agree.
#[derive(Clone, Copy, Debug, PartialEq, Eq, Hash, Structural)]
pub struct KeyRelation {
    pub key: u64,
    pub relation: PositionRelation,
}

/// All uses of `key` have this array offset (or this packed one).
pub open spec fn all_have(list: Seq<Source>, key: u64, offset: Option<isize>, array: bool) -> bool {
    forall|i: int|
        0 <= i < list.len() && (#[trigger] list[i]).key == key ==> (if array {
            list[i].relation.array
        } else {
            list[i].relation.packed
        }) == offset
}

/// Every listed key is given once, with the offsets that all its uses have.
pub open spec fn agrees(list: Seq<Source>, relations: Seq<KeyRelation>) -> bool {
    &&& forall|i: int, j: int|
        0 <= i < j < relations.len() ==> (#[trigger] relations[i]).key < (#[trigger] relations[j]).key
    &&& forall|i: int| 0 <= i < relations.len() ==> key_agrees(list, #[trigger] relations[i])
    &&& forall|i: int|
        0 <= i < list.len() ==> exists|k: int|
            0 <= k < relations.len() && (#[trigger] relations[k]).key == (#[trigger] list[i]).key
}

/// The key is listed, and an offset is given exactly when all uses have it.
pub open spec fn key_agrees(list: Seq<Source>, given: KeyRelation) -> bool {
    &&& exists|i: int| 0 <= i < list.len() && (#[trigger] list[i]).key == given.key
    &&& given.relation.array is Some ==> all_have(list, given.key, given.relation.array, true)
    &&& given.relation.packed is Some ==> all_have(list, given.key, given.relation.packed, false)
    &&& given.relation.array is None ==> forall|x: isize| !all_have(
        list,
        given.key,
        Some(x),
        true,
    )
    &&& given.relation.packed is None ==> forall|x: isize| !all_have(
        list,
        given.key,
        Some(x),
        false,
    )
}

fn keys_of(list: &Vec<Source>) -> (r: Vec<u64>)
    ensures
        order::strictly_sorted(r@),
        forall|key: u64| #[trigger]
            r@.contains(key) <==> exists|i: int|
                0 <= i < list@.len() && (#[trigger] list@[i]).key == key,
{
    let mut keys: Vec<u64> = Vec::new();
    let mut i: usize = 0;
    while i < list.len()
        invariant
            i <= list.len(),
            keys@.len() == i,
            forall|k: int| 0 <= k < i ==> #[trigger] keys@[k] == list@[k].key,
        decreases list.len() - i,
    {
        keys.push(list[i].key);
        i = i + 1;
    }
    let r = order::sort_dedup(&keys);
    proof {
        assert forall|key: u64| #[trigger] r@.contains(key) <==> exists|i: int| 0 <= i < list@.len() && (#[trigger] list@[i]).key == key by {
            assert(r@.contains(key) <==> keys@.contains(key));
            if keys@.contains(key) {
                let k = choose|k: int| 0 <= k < keys@.len() && keys@[k] == key;
                assert(list@[k].key == key);
            }
            if exists|i: int| 0 <= i < list@.len() && (#[trigger] list@[i]).key == key {
                let i = choose|i: int| 0 <= i < list@.len() && (#[trigger] list@[i]).key == key;
                assert(keys@[i] == key);
            }
        }
    }
    r
}

fn agree(list: &Vec<Source>) -> (r: Vec<KeyRelation>)
    ensures
        agrees(list@, r@),
{
    let keys = keys_of(list);
    let mut r: Vec<KeyRelation> = Vec::new();
    let mut k: usize = 0;
    while k < keys.len()
        invariant
            k <= keys.len(),
            order::strictly_sorted(keys@),
            forall|key: u64| #[trigger]
                keys@.contains(key) <==> exists|i: int|
                    0 <= i < list@.len() && (#[trigger] list@[i]).key == key,
            r@.len() == k,
            forall|i: int| 0 <= i < k ==> (#[trigger] r@[i]).key == keys@[i],
            forall|i: int| 0 <= i < r@.len() ==> key_agrees(list@, #[trigger] r@[i]),
        decreases keys.len() - k,
    {
        let key: u64 = keys[k];
        let mut found: Option<PositionRelation> = None;
        let ghost mut first: int = 0;
        let ghost mut last_array: int = 0;
        let ghost mut last_packed: int = 0;
        let mut i: usize = 0;
        while i < list.len()
            invariant
                i <= list.len(),
                found is None ==> forall|m: int| 0 <= m < i ==> (#[trigger] list@[m]).key != key,
                found matches Some(relation) ==> {
                    &&& 0 <= first < i && list@[first].key == key
                    &&& 0 <= last_array < i && list@[last_array].key == key
                    &&& 0 <= last_packed < i && list@[last_packed].key == key
                    &&& relation.array is Some ==> forall|m: int|
                        0 <= m < i && (#[trigger] list@[m]).key == key ==> list@[m].relation.array
                            == relation.array
                    &&& relation.packed is Some ==> forall|m: int|
                        0 <= m < i && (#[trigger] list@[m]).key == key ==> list@[m].relation.packed
                            == relation.packed
                    &&& relation.array is None ==> list@[first].relation.array is None
                        || list@[last_array].relation.array is None
                        || list@[first].relation.array != list@[last_array].relation.array
                    &&& relation.packed is None ==> list@[first].relation.packed is None
                        || list@[last_packed].relation.packed is None
                        || list@[first].relation.packed != list@[last_packed].relation.packed
                    &&& relation.array is Some ==> relation.array == list@[first].relation.array
                    &&& relation.packed is Some ==> relation.packed == list@[first].relation.packed
                },
            decreases list.len() - i,
        {
            if list[i].key == key {
                let relation = list[i].relation;
                match found {
                    None => {
                        found = Some(relation);
                        proof {
                            first = i as int;
                            last_array = i as int;
                            last_packed = i as int;
                        }
                    },
                    Some(existing) => {
                        found = Some(existing.union(relation));
                        proof {
                            if existing.array is Some && existing.array != relation.array {
                                last_array = i as int;
                            }
                            if existing.packed is Some && existing.packed != relation.packed {
                                last_packed = i as int;
                            }
                        }
                    },
                }
            }
            i = i + 1;
        }
        proof {
            assert(keys@.contains(key)) by {
                assert(keys@[k as int] == key);
            }
            let m = choose|m: int| 0 <= m < list@.len() && (#[trigger] list@[m]).key == key;
            assert(list@[m].key == key);
        }
        match found {
            None => {},
            Some(relation) => {
                let given = KeyRelation { key, relation };
                proof {
                    assert(key_agrees(list@, given)) by {
                        assert(list@[first].key == key);
                        assert forall|x: isize| relation.array is None implies !all_have(list@, key, Some(x), true) by {
                            assert(list@[last_array].key == key);
                        }
                        assert forall|x: isize| relation.packed is None implies !all_have(list@, key, Some(x), false) by {
                            assert(list@[last_packed].key == key);
                        }
                    }
                }
                r.push(given);
            },
        }
        k = k + 1;
    }
    proof {
        assert forall|i: int, j: int| 0 <= i < j < r@.len() implies (#[trigger] r@[i]).key < (#[trigger] r@[j]).key by {
            assert(keys@[i].lt(keys@[j]));
        }
        assert forall|i: int| 0 <= i < list@.len() implies exists|m: int| 0 <= m < r@.len() && (#[trigger] r@[m]).key == (#[trigger] list@[i]).key by {
            assert(keys@.contains(list@[i].key));
            let m = choose|m: int| 0 <= m < keys@.len() && keys@[m] == list@[i].key;
            assert(r@[m].key == keys@[m]);
        }
    }
    r
}

} // verus!
