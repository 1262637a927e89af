//! Dependency cycles among parametric features, and where ordering stops.

use vstd::prelude::*;

use crate::feature::{FeatureId, FeatureNode};
use crate::graph::{
    dep_ok, duplicate_from, find_from, first_bad, graph_problem, has_node, ids_distinct,
    law_complete_schedule_is_permutation, law_schedule_respects_dependencies,
    lemma_problem_free_distinct, lemma_ready_from, node_ids, node_problem, problem_from, ready,
    ready_from, sched_ok, schedule, schedule_from, Expect,
};

verus! {

/// `s` holds features of the list, at least one, and every feature in `s`
/// depends on a feature in `s`: in a finite list, a dependency cycle.
pub open spec fn dependency_knot(nodes: Seq<FeatureNode>, s: Set<FeatureId>) -> bool {
    &&& exists|x: FeatureId| s.contains(x)
    &&& forall|x: FeatureId| #[trigger] s.contains(x) ==> exists|i: int, m: int|
        0 <= i < nodes.len() && nodes[i].id == x && 0 <= m < nodes[i].link.deps().len() && s.contains(
            #[trigger] nodes[i].link.deps()[m],
        )
}

/// Some features of the list depend on one another in a cycle.
pub open spec fn has_dependency_cycle(nodes: Seq<FeatureNode>) -> bool {
    exists|s: Set<FeatureId>| dependency_knot(nodes, s)
}

proof fn lemma_find_from(nodes: Seq<FeatureNode>, id: FeatureId, i: int)
    requires
        0 <= i,
    ensures
        find_from(nodes, id, i) matches Some(k) ==> i <= k < nodes.len() && nodes[k].id == id,
    decreases nodes.len() - i,
{
    if i < nodes.len() && nodes[i].id != id {
        lemma_find_from(nodes, id, i + 1);
    }
}

proof fn lemma_first_bad_none(nodes: Seq<FeatureNode>, ds: Seq<FeatureId>, m: int)
    requires
        first_bad(nodes, ds, Expect::Feature) is None,
        0 <= m < ds.len(),
    ensures
        has_node(nodes, ds[m]),
    decreases ds.len(),
{
    if m > 0 {
        lemma_first_bad_none(nodes, ds.drop_first(), m - 1);
    } else {
        assert(dep_ok(nodes, ds[0], Expect::Feature));
        lemma_find_from(nodes, ds[0], 0);
        let k = find_from(nodes, ds[0], 0)->Some_0;
        assert(nodes[k].id == ds[0]);
    }
}

proof fn lemma_problem_from_none(nodes: Seq<FeatureNode>, i: int, k: int)
    requires
        problem_from(nodes, i) is None,
        0 <= i <= k < nodes.len(),
    ensures
        node_problem(nodes, nodes[k]) is None,
    decreases k - i,
{
    if i < k {
        lemma_problem_from_none(nodes, i + 1, k);
    }
}

/// Every dependency of a list without a graph problem is a feature of the list.
proof fn lemma_dependencies_exist(nodes: Seq<FeatureNode>, i: int, m: int)
    requires
        graph_problem(nodes) is None,
        0 <= i < nodes.len(),
        0 <= m < nodes[i].link.deps().len(),
    ensures
        has_node(nodes, nodes[i].link.deps()[m]),
{
    assert(duplicate_from(nodes, 0) is None);
    lemma_problem_from_none(nodes, 0, i);
    let ds = nodes[i].link.deps();
    if first_bad(nodes, ds, crate::graph::expectation(nodes[i].link)) is None {
        assert(first_bad(nodes, ds, Expect::Feature) is None);
    }
    lemma_first_bad_none(nodes, ds, m);
}

/// Scheduling stops early only where no feature is ready.
proof fn lemma_schedule_stops(nodes: Seq<FeatureNode>, placed: Seq<FeatureId>, fuel: nat)
    ensures
        schedule_from(nodes, placed, fuel).len() == placed.len() + fuel || ready_from(
            nodes,
            schedule_from(nodes, placed, fuel),
            0,
        ) is None,
    decreases fuel,
{
    if fuel > 0 {
        if let Some(i) = ready_from(nodes, placed, 0) {
            lemma_schedule_stops(nodes, placed.push(nodes[i].id), (fuel - 1) as nat);
        }
    }
}

/// Scheduling never places a feature of a knot.
proof fn lemma_knot_never_placed(nodes: Seq<FeatureNode>, s: Set<FeatureId>, placed: Seq<FeatureId>, fuel: nat)
    requires
        ids_distinct(nodes),
        dependency_knot(nodes, s),
        forall|k: int| 0 <= k < placed.len() ==> !s.contains(#[trigger] placed[k]),
    ensures
        forall|k: int|
            0 <= k < schedule_from(nodes, placed, fuel).len() ==> !s.contains(
                #[trigger] schedule_from(nodes, placed, fuel)[k],
            ),
    decreases fuel,
{
    if fuel > 0 {
        lemma_ready_from(nodes, placed, 0);
        if let Some(i) = ready_from(nodes, placed, 0) {
            let x = nodes[i].id;
            if s.contains(x) {
                let (j, m) = choose|j: int, m: int|
                    0 <= j < nodes.len() && nodes[j].id == x && 0 <= m < nodes[j].link.deps().len()
                        && s.contains(#[trigger] nodes[j].link.deps()[m]);
                assert(j == i);
                let d = nodes[i].link.deps()[m];
                assert(placed.contains(d));
                let k = choose|k: int| 0 <= k < placed.len() && placed[k] == d;
                assert(!s.contains(placed[k]));
            }
            let q = placed.push(x);
            assert forall|k: int| 0 <= k < q.len() implies !s.contains(#[trigger] q[k]) by {
                if k < placed.len() {
                    assert(q[k] == placed[k]);
                }
            }
            lemma_knot_never_placed(nodes, s, q, (fuel - 1) as nat);
            assert(schedule_from(nodes, placed, fuel) == schedule_from(nodes, q, (fuel - 1) as nat));
        } else {
            assert(schedule_from(nodes, placed, fuel) == placed);
        }
    } else {
        assert(schedule_from(nodes, placed, fuel) == placed);
    }
}

/// For a feature list whose ids are distinct and whose dependencies all exist
/// with the kinds their consumers need, ordering places every feature exactly
/// when the dependencies form no cycle.
pub proof fn law_ordering_stops_exactly_on_cycles(nodes: Seq<FeatureNode>)
    requires
        graph_problem(nodes) is None,
    ensures
        schedule(nodes).len() != nodes.len() <==> has_dependency_cycle(nodes),
{
    lemma_problem_free_distinct(nodes);
    let r = schedule(nodes);
    if has_dependency_cycle(nodes) {
        let s = choose|s: Set<FeatureId>| dependency_knot(nodes, s);
        lemma_knot_never_placed(nodes, s, Seq::empty(), nodes.len());
        if r.len() == nodes.len() {
            law_complete_schedule_is_permutation(nodes);
            let x = choose|x: FeatureId| s.contains(x);
            let (i, m) = choose|i: int, m: int|
                0 <= i < nodes.len() && nodes[i].id == x && 0 <= m < nodes[i].link.deps().len()
                    && s.contains(#[trigger] nodes[i].link.deps()[m]);
            assert(node_ids(nodes)[i] == x);
            assert(node_ids(nodes).to_set().contains(x));
            assert(r.to_set().contains(x));
            let k = choose|k: int| 0 <= k < r.len() && r[k] == x;
            assert(!s.contains(r[k]));
        }
    }
    if r.len() != nodes.len() {
        law_schedule_respects_dependencies(nodes);
        lemma_schedule_stops(nodes, Seq::empty(), nodes.len());
        lemma_ready_from(nodes, r, 0);
        let s = Set::new(|x: FeatureId| has_node(nodes, x) && !r.contains(x));
        let ids = node_ids(nodes);
        assert(exists|x: FeatureId| s.contains(x)) by {
            if forall|i: int| 0 <= i < nodes.len() ==> r.contains(#[trigger] nodes[i].id) {
                assert(ids.to_set().subset_of(r.to_set())) by {
                    assert forall|x: FeatureId| ids.to_set().contains(x) implies r.to_set().contains(x) by {
                        let i = choose|i: int| 0 <= i < ids.len() && ids[i] == x;
                        assert(r.contains(nodes[i].id));
                    }
                }
                assert(r.to_set().subset_of(ids.to_set())) by {
                    assert forall|x: FeatureId| r.to_set().contains(x) implies ids.to_set().contains(x) by {
                        let k = choose|k: int| 0 <= k < r.len() && r[k] == x;
                        assert(has_node(nodes, r[k]));
                        let i = choose|i: int| 0 <= i < nodes.len() && #[trigger] nodes[i].id == x;
                        assert(ids[i] == x);
                    }
                }
                assert(ids.no_duplicates()) by {
                    assert forall|a: int, b: int| 0 <= a < ids.len() && 0 <= b < ids.len() && a != b implies ids[a] != ids[b] by {
                        assert(nodes[a].id != nodes[b].id);
                    }
                }
                ids.unique_seq_to_set();
                r.unique_seq_to_set();
                vstd::seq_lib::seq_to_set_is_finite(ids);
                vstd::seq_lib::seq_to_set_is_finite(r);
                vstd::set_lib::lemma_len_subset(ids.to_set(), r.to_set());
                vstd::set_lib::lemma_len_subset(r.to_set(), ids.to_set());
            } else {
                let i = choose|i: int| 0 <= i < nodes.len() && !r.contains(#[trigger] nodes[i].id);
                assert(s.contains(nodes[i].id));
            }
        }
        assert forall|x: FeatureId| #[trigger] s.contains(x) implies exists|i: int, m: int|
            0 <= i < nodes.len() && nodes[i].id == x && 0 <= m < nodes[i].link.deps().len() && s.contains(
                #[trigger] nodes[i].link.deps()[m],
            ) by {
            let i = choose|i: int| 0 <= i < nodes.len() && #[trigger] nodes[i].id == x;
            assert(!ready(nodes, r, i));
            let m = choose|m: int| 0 <= m < nodes[i].link.deps().len() && !r.contains(#[trigger] nodes[i].link.deps()[m]);
            lemma_dependencies_exist(nodes, i, m);
            assert(s.contains(nodes[i].link.deps()[m]));
        }
        assert(dependency_knot(nodes, s));
    }
}

} // verus!
