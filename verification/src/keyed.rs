//! Maps keyed by `u64` ids, read in increasing key order.

use std::collections::BTreeMap;
use vstd::prelude::*;
use vstd::std_specs::cmp::OrdSpec;
use vstd::std_specs::iter::IteratorSpec;

verus! {

broadcast use vstd::std_specs::btree::group_btree_axioms;

/// `s` lists the entries of `m`, each key once, in increasing key order.
pub open spec fn lists_in_order<V>(s: Seq<(u64, V)>, m: Map<u64, V>) -> bool {
    &&& forall|i: int, j: int| 0 <= i < j < s.len() ==> #[trigger] s[i].0 < #[trigger] s[j].0
    &&& forall|i: int| 0 <= i < s.len() ==> #[trigger] m.contains_key(s[i].0) && m[s[i].0] == s[i].1
    &&& forall|k: u64| #[trigger] m.contains_key(k) ==> exists|i: int| 0 <= i < s.len() && s[i].0 == k
}

/// The entries of `m` in increasing key order.
pub open spec fn entries<V>(m: Map<u64, V>) -> Seq<(u64, V)> {
    choose|s: Seq<(u64, V)>| lists_in_order(s, m)
}

/// At most one sequence lists a map in key order.
pub proof fn lemma_listing_unique<V>(s: Seq<(u64, V)>, t: Seq<(u64, V)>, m: Map<u64, V>)
    requires
        lists_in_order(s, m),
        lists_in_order(t, m),
    ensures
        s == t,
    decreases s.len(),
{
    if s.len() == 0 {
        if t.len() > 0 {
            assert(m.contains_key(t[0].0));
        }
        assert(s =~= t);
    } else {
        assert(m.contains_key(s[0].0));
        assert(t.len() > 0);
        assert(m.contains_key(t[0].0));
        let k = s[0].0;
        let js = choose|i: int| 0 <= i < s.len() && s[i].0 == t[0].0;
        let jt = choose|i: int| 0 <= i < t.len() && t[i].0 == k;
        if js > 0 {
            assert(s[0].0 < s[js].0);
        }
        if jt > 0 {
            assert(t[0].0 < t[jt].0);
        }
        assert(t[0].0 == k);
        let m2 = m.remove(k);
        let s2 = s.drop_first();
        let t2 = t.drop_first();
        assert forall|i: int, j: int| 0 <= i < j < s2.len() implies #[trigger] s2[i].0 < #[trigger] s2[j].0 by {
            assert(s[i + 1].0 < s[j + 1].0);
        }
        assert forall|i: int, j: int| 0 <= i < j < t2.len() implies #[trigger] t2[i].0 < #[trigger] t2[j].0 by {
            assert(t[i + 1].0 < t[j + 1].0);
        }
        assert forall|i: int| 0 <= i < s2.len() implies #[trigger] m2.contains_key(s2[i].0) && m2[s2[i].0] == s2[i].1 by {
            assert(s[0].0 < s[i + 1].0);
            assert(m.contains_key(s[i + 1].0));
        }
        assert forall|i: int| 0 <= i < t2.len() implies #[trigger] m2.contains_key(t2[i].0) && m2[t2[i].0] == t2[i].1 by {
            assert(t[0].0 < t[i + 1].0);
            assert(m.contains_key(t[i + 1].0));
        }
        assert forall|x: u64| #[trigger] m2.contains_key(x) implies exists|i: int| 0 <= i < s2.len() && s2[i].0 == x by {
            assert(m.contains_key(x));
            let i = choose|i: int| 0 <= i < s.len() && s[i].0 == x;
            assert(i > 0);
            assert(s2[i - 1].0 == x);
        }
        assert forall|x: u64| #[trigger] m2.contains_key(x) implies exists|i: int| 0 <= i < t2.len() && t2[i].0 == x by {
            assert(m.contains_key(x));
            let i = choose|i: int| 0 <= i < t.len() && t[i].0 == x;
            assert(i > 0);
            assert(t2[i - 1].0 == x);
        }
        lemma_listing_unique(s2, t2, m2);
        assert(s[0] == t[0]);
        assert(s =~= t) by {
            assert forall|i: int| 0 <= i < s.len() implies s[i] == t[i] by {
                if i > 0 {
                    assert(s2[i - 1] == t2[i - 1]);
                }
            }
        }
    }
}

/// A listing in key order has one entry per key.
pub proof fn lemma_listing_len<V>(s: Seq<(u64, V)>, m: Map<u64, V>)
    requires
        lists_in_order(s, m),
        m.dom().finite(),
    ensures
        s.len() == m.dom().len(),
    decreases s.len(),
{
    if s.len() == 0 {
        assert forall|k: u64| !m.dom().contains(k) by {
            if m.contains_key(k) {
                let i = choose|i: int| 0 <= i < s.len() && s[i].0 == k;
            }
        }
        assert(m.dom() =~= Set::<u64>::empty());
    } else {
        let k = s[0].0;
        assert(m.contains_key(k));
        let m2 = m.remove(k);
        let s2 = s.drop_first();
        assert forall|i: int, j: int| 0 <= i < j < s2.len() implies #[trigger] s2[i].0 < #[trigger] s2[j].0 by {
            assert(s[i + 1].0 < s[j + 1].0);
        }
        assert forall|i: int| 0 <= i < s2.len() implies #[trigger] m2.contains_key(s2[i].0) && m2[s2[i].0] == s2[i].1 by {
            assert(s[0].0 < s[i + 1].0);
            assert(m.contains_key(s[i + 1].0));
        }
        assert forall|x: u64| #[trigger] m2.contains_key(x) implies exists|i: int| 0 <= i < s2.len() && s2[i].0 == x by {
            assert(m.contains_key(x));
            let i = choose|i: int| 0 <= i < s.len() && s[i].0 == x;
            assert(i > 0);
            assert(s2[i - 1].0 == x);
        }
        lemma_listing_len(s2, m2);
        assert(m2.dom() =~= m.dom().remove(k));
    }
}

/// A finite, non-empty set of ids has a largest member.
pub proof fn lemma_largest_exists(s: Set<u64>)
    requires
        s.finite(),
        s.len() > 0,
    ensures
        exists|k: u64| s.contains(k) && forall|j: u64| #[trigger] s.contains(j) ==> j <= k,
    decreases s.len(),
{
    let a = s.choose();
    let rest = s.remove(a);
    if rest.len() == 0 {
        assert forall|j: u64| #[trigger] s.contains(j) implies j <= a by {
            if j != a {
                assert(rest.contains(j));
            }
        }
    } else {
        lemma_largest_exists(rest);
        let m = choose|k: u64| rest.contains(k) && forall|j: u64| #[trigger] rest.contains(j) ==> j <= k;
        let top = if m < a { a } else { m };
        assert forall|j: u64| #[trigger] s.contains(j) implies j <= top by {
            if j != a {
                assert(rest.contains(j));
            }
        }
        assert(s.contains(top));
    }
}

/// A finite map has a listing in key order.
pub proof fn lemma_entries_exist<V>(m: Map<u64, V>)
    requires
        m.dom().finite(),
    ensures
        lists_in_order(entries(m), m),
    decreases m.dom().len(),
{
    if m.dom().len() == 0 {
        let s = Seq::<(u64, V)>::empty();
        assert forall|k: u64| #[trigger] m.contains_key(k) implies exists|i: int|
            0 <= i < s.len() && s[i].0 == k by {
            assert(m.dom().contains(k));
        }
        assert(lists_in_order(s, m));
    } else {
        lemma_largest_exists(m.dom());
        let k = choose|k: u64| m.dom().contains(k) && forall|j: u64| #[trigger] m.dom().contains(j) ==> j <= k;
        let m2 = m.remove(k);
        assert(m2.dom() =~= m.dom().remove(k));
        lemma_entries_exist(m2);
        let t = entries(m2);
        let s = t.push((k, m[k]));
        assert forall|i: int, j: int| 0 <= i < j < s.len() implies #[trigger] s[i].0 < #[trigger] s[j].0 by {
            if j < t.len() {
                assert(t[i].0 < t[j].0);
            } else {
                assert(m2.contains_key(t[i].0));
                assert(m.dom().contains(t[i].0));
            }
        }
        assert forall|i: int| 0 <= i < s.len() implies #[trigger] m.contains_key(s[i].0) && m[s[i].0]
            == s[i].1 by {
            if i < t.len() {
                assert(m2.contains_key(t[i].0));
            }
        }
        assert forall|x: u64| #[trigger] m.contains_key(x) implies exists|i: int|
            0 <= i < s.len() && s[i].0 == x by {
            if x == k {
                assert(s[t.len() as int].0 == x);
            } else {
                assert(m2.contains_key(x));
                let i = choose|i: int| 0 <= i < t.len() && t[i].0 == x;
                assert(s[i].0 == x);
            }
        }
        assert(lists_in_order(s, m));
    }
}

/// The entries of `m` in increasing key order, each value borrowed.
pub fn entry_refs<'a, V>(m: &'a BTreeMap<u64, V>) -> (r: Vec<(u64, &'a V)>)
    ensures
        r@.len() == entries(m@).len(),
        forall|i: int| 0 <= i < r@.len() ==> (#[trigger] r@[i]).0 == entries(m@)[i].0 && *r@[i].1 == entries(m@)[i].1,
        lists_in_order(entries(m@), m@),
{
    let ghost v = vstd::std_specs::btree::spec_btree_map_iter(m).remaining();
    let mut out: Vec<(u64, &'a V)> = Vec::new();
    for kv in it: m.iter()
        invariant
            it.seq() == v,
            out@.len() == it.index(),
            forall|i: int| 0 <= i < out@.len() ==> (#[trigger] out@[i]).0 == *v[i].0 && out@[i].1 == v[i].1,
    {
        out.push((*kv.0, kv.1));
    }
    proof {
        let s = v.map_values(|kv: (&u64, &V)| (*kv.0, *kv.1));
        let ks = v.map_values(|kv: (&u64, &V)| *kv.0);
        assert(vstd::std_specs::btree::increasing_seq(ks));
        assert forall|i: int, j: int| 0 <= i < j < s.len() implies #[trigger] s[i].0 < #[trigger] s[j].0 by {
            assert(ks[i].cmp_spec(&ks[j]) is Less);
        }
        assert forall|i: int| 0 <= i < s.len() implies #[trigger] m@.contains_key(s[i].0) && m@[s[i].0] == s[i].1 by {
            assert(m@.contains_key(*v[i].0));
        }
        assert forall|k: u64| #[trigger] m@.contains_key(k) implies exists|i: int| 0 <= i < s.len() && s[i].0 == k by {
            assert(v.contains((&k, &m@[k])));
            let i = choose|i: int| 0 <= i < v.len() && v[i] == (&k, &m@[k]);
            assert(s[i].0 == k);
        }
        assert(lists_in_order(s, m@));
        lemma_listing_unique(s, entries(m@), m@);
    }
    out
}

} // verus!
