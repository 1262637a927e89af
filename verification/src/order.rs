//! Strict orders used for canonical, sorted lists: a checker for strictly
//! increasing sequences and a stable insertion sort.

use vstd::prelude::*;

use vstd::multiset::Multiset;

use crate::text::{chars_lt, lemma_chars_lt_irreflexive, lemma_chars_lt_transitive, str_less};

verus! {

broadcast use vstd::seq_lib::to_multiset_insert, vstd::seq_lib::to_multiset_remove;

/// A strict order on a type, with an executable comparison.
pub trait StrictOrder: Sized {
    spec fn precedes(self, other: Self) -> bool;

    proof fn lemma_transitive(a: Self, b: Self, c: Self)
        requires
            a.precedes(b),
            b.precedes(c),
        ensures
            a.precedes(c),
    ;

    proof fn lemma_irreflexive(a: Self)
        ensures
            !a.precedes(a),
    ;

    fn less(&self, other: &Self) -> (r: bool)
        ensures
            r == self.precedes(*other),
    ;
}

/// Each element precedes the next: sorted, with no two equal.
pub open spec fn increasing<T: StrictOrder>(s: Seq<T>) -> bool {
    forall|i: int| 0 <= i < s.len() - 1 ==> #[trigger] s[i].precedes(s[i + 1])
}

/// No later element precedes an earlier one: sorted.
pub open spec fn sorted<T: StrictOrder>(s: Seq<T>) -> bool {
    forall|i: int, j: int| 0 <= i < j < s.len() ==> !(#[trigger] s[j]).precedes(#[trigger] s[i])
}

/// Whether each element precedes the next.
pub fn strictly_sorted_unique<T: StrictOrder>(v: &Vec<T>) -> (r: bool)
    ensures
        r == increasing(v@),
{
    if v.len() == 0 {
        return true;
    }
    let mut i: usize = 0;
    while i < v.len() - 1
        invariant
            i < v@.len(),
            forall|j: int| 0 <= j < i ==> #[trigger] v@[j].precedes(v@[j + 1]),
        decreases v@.len() - i,
    {
        if !v[i].less(&v[i + 1]) {
            return false;
        }
        i += 1;
    }
    true
}

/// Sorts stably by insertion.
pub fn sort<T: StrictOrder>(v: Vec<T>) -> (r: Vec<T>)
    ensures
        sorted(r@),
        r@.to_multiset() == v@.to_multiset(),
        r@.len() == v@.len(),
{
    broadcast use vstd::multiset::group_multiset_axioms, vstd::seq_lib::group_to_multiset_ensures;

    let ghost start_items = v@;
    let mut input = v;
    let mut out: Vec<T> = Vec::new();
    proof {
        assert(out@ =~= Seq::<T>::empty());
        assert(out@.to_multiset() =~= Multiset::empty());
        assert(out@.to_multiset().add(input@.to_multiset()) =~= start_items.to_multiset());
    }
    while input.len() > 0
        invariant
            sorted(out@),
            out@.to_multiset().add(input@.to_multiset()) == start_items.to_multiset(),
            out@.len() + input@.len() == start_items.len(),
        decreases input@.len(),
    {
        let ghost before_input = input@;
        let x = input.remove(0);
        proof {
            assert(before_input.remove(0) == input@);
        }
        let mut k: usize = 0;
        while k < out.len() && !x.less(&out[k])
            invariant
                k <= out@.len(),
                forall|i: int| 0 <= i < k ==> !x.precedes(#[trigger] out@[i]),
            decreases out@.len() - k,
        {
            k += 1;
        }
        let ghost before = out@;
        out.insert(k, x);
        proof {
            let s = out@;
            assert(s == before.insert(k as int, x));
            assert forall|i: int, j: int| 0 <= i < j < s.len() implies !(#[trigger] s[j]).precedes(
                #[trigger] s[i],
            ) by {
                if i < k && j == k {
                } else if i == k {
                    assert(s[j] == before[j - 1]);
                    if s[j].precedes(x) {
                        T::lemma_transitive(before[j - 1], x, before[k as int]);
                        if j - 1 == k {
                            T::lemma_irreflexive(before[k as int]);
                        }
                    }
                } else if i < k && j > k {
                    assert(s[i] == before[i]);
                    assert(s[j] == before[j - 1]);
                } else if i > k {
                    assert(s[i] == before[i - 1]);
                    assert(s[j] == before[j - 1]);
                } else {
                    assert(s[i] == before[i]);
                    assert(s[j] == before[j]);
                }
            }
            assert(out@.to_multiset() == before.to_multiset().insert(x));
            assert(before_input.to_multiset() =~= input@.to_multiset().insert(x)) by {
                assert(before_input.remove(0).to_multiset() == before_input.to_multiset().remove(
                    before_input[0],
                ));
                assert(before_input.contains(x)) by {
                    assert(before_input[0] == x);
                }
                before_input.to_multiset_ensures();
                assert(before_input.to_multiset().count(x) > 0);
            }
            assert(out@.to_multiset().add(input@.to_multiset()) =~= before.to_multiset().add(
                before_input.to_multiset(),
            ));
        }
    }
    proof {
        assert(input@ =~= Seq::<T>::empty());
        assert(input@.to_multiset() =~= Multiset::empty());
        assert(out@.to_multiset() =~= start_items.to_multiset());
    }
    out
}

impl StrictOrder for String {
    open spec fn precedes(self, other: Self) -> bool {
        chars_lt(self@, other@)
    }

    proof fn lemma_transitive(a: Self, b: Self, c: Self) {
        lemma_chars_lt_transitive(a@, b@, c@);
    }

    proof fn lemma_irreflexive(a: Self) {
        lemma_chars_lt_irreflexive(a@);
    }

    fn less(&self, other: &Self) -> (r: bool) {
        str_less(self.as_str(), other.as_str())
    }
}

/// Lexicographic order of byte strings (the order of `[u8; N]`).
pub open spec fn bytes_lt(a: Seq<u8>, b: Seq<u8>) -> bool
    decreases a.len(),
{
    if a.len() == 0 {
        b.len() > 0
    } else if b.len() == 0 {
        false
    } else if a[0] < b[0] {
        true
    } else if a[0] == b[0] {
        bytes_lt(a.drop_first(), b.drop_first())
    } else {
        false
    }
}

pub proof fn lemma_bytes_lt_transitive(a: Seq<u8>, b: Seq<u8>, c: Seq<u8>)
    requires
        bytes_lt(a, b),
        bytes_lt(b, c),
    ensures
        bytes_lt(a, c),
    decreases a.len(),
{
    if a.len() > 0 && b.len() > 0 && c.len() > 0 && a[0] == b[0] && b[0] == c[0] {
        lemma_bytes_lt_transitive(a.drop_first(), b.drop_first(), c.drop_first());
    }
}

pub proof fn lemma_bytes_lt_irreflexive(a: Seq<u8>)
    ensures
        !bytes_lt(a, a),
    decreases a.len(),
{
    if a.len() > 0 {
        lemma_bytes_lt_irreflexive(a.drop_first());
    }
}

proof fn lemma_bytes_lt_skip(a: Seq<u8>, b: Seq<u8>, i: int)
    requires
        0 <= i <= a.len(),
        i <= b.len(),
        a.take(i) == b.take(i),
    ensures
        bytes_lt(a, b) == bytes_lt(a.skip(i), b.skip(i)),
    decreases i,
{
    if i > 0 {
        assert(a[0] == a.take(i)[0]);
        assert(b[0] == b.take(i)[0]);
        assert(a.drop_first().take(i - 1) =~= a.take(i).drop_first());
        assert(b.drop_first().take(i - 1) =~= b.take(i).drop_first());
        lemma_bytes_lt_skip(a.drop_first(), b.drop_first(), i - 1);
        assert(a.drop_first().skip(i - 1) =~= a.skip(i));
        assert(b.drop_first().skip(i - 1) =~= b.skip(i));
    } else {
        assert(a.skip(0) =~= a);
        assert(b.skip(0) =~= b);
    }
}

/// `a < b` on byte strings.
pub fn bytes_less(a: &[u8], b: &[u8]) -> (r: bool)
    ensures
        r == bytes_lt(a@, b@),
{
    let mut i: usize = 0;
    while i < a.len() && i < b.len() && a[i] == b[i]
        invariant
            i <= a@.len(),
            i <= b@.len(),
            a@.take(i as int) == b@.take(i as int),
        decreases a@.len() - i,
    {
        proof {
            assert(a@.take(i + 1) =~= a@.take(i as int).push(a@[i as int]));
            assert(b@.take(i + 1) =~= b@.take(i as int).push(b@[i as int]));
        }
        i += 1;
    }
    proof {
        lemma_bytes_lt_skip(a@, b@, i as int);
    }
    if i == a.len() {
        i < b.len()
    } else if i == b.len() {
        false
    } else {
        a[i] < b[i]
    }
}

} // verus!
