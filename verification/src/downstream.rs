//! Transitive dependents read against the graph order.

use vstd::prelude::*;

use crate::feature::FeatureId;
use crate::graph::{depends, downstream, graph_wf, lemma_reach_table_len, reach_table, GraphView};

verus! {

/// Whether a feature other than `t` depends on `t`.
#[verifier::opaque]
pub open spec fn depends_on(g: GraphView, t: FeatureId) -> spec_fn(FeatureId) -> bool {
    |c: FeatureId| c != t && depends(g, c, t)
}

proof fn lemma_downstream_filters(g: GraphView, t: FeatureId, k: nat)
    requires
        g.order.no_duplicates(),
        k <= g.order.len(),
    ensures
        downstream(g, t, k) == g.order.take(k as int).filter(depends_on(g, t)),
    decreases k,
{
    reveal(Seq::filter);
    reveal(depends_on);
    let pred = depends_on(g, t);
    let tab = reach_table(g, t, g.order.len());
    lemma_reach_table_len(g, t, g.order.len());
    let s = g.order.take(k as int);
    if k == 0 {
        assert(s =~= Seq::<FeatureId>::empty());
    } else {
        lemma_downstream_filters(g, t, (k - 1) as nat);
        assert(s.drop_last() =~= g.order.take(k - 1));
        let c = g.order[k - 1];
        assert(s.last() == c);
        if tab[k - 1] {
            assert(depends(g, c, t));
        } else {
            if depends(g, c, t) {
                let q = choose|q: int| 0 <= q < g.order.len() && g.order[q] == c && #[trigger] reach_table(g, t, g.order.len())[q];
                assert(q == k - 1);
            }
        }
        assert(s.filter(pred) == (if pred(s.last()) {
            s.drop_last().filter(pred).push(s.last())
        } else {
            s.drop_last().filter(pred)
        }));
    }
}

/// The transitive dependents of `t` are the features of the graph order,
/// `t` aside, that depend on `t`, kept in that order.
pub proof fn law_transitive_dependents_filter_the_order(g: GraphView, t: FeatureId)
    requires
        graph_wf(g),
    ensures
        downstream(g, t, g.order.len()) == g.order.filter(depends_on(g, t)),
{
    lemma_downstream_filters(g, t, g.order.len());
    assert(g.order.take(g.order.len() as int) =~= g.order);
}

} // verus!
