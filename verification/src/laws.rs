//! Laws of the sort order: the output of an unstable sort is determined by
//! the input's multiset up to key equivalence, so sorting a second time
//! changes nothing. For keys that determine the whole element, such as the
//! unsigned integers, nothing at all.

use vstd::prelude::*;
use crate::radix_key::{
    RadixKey, lex_le_from, key_eq, sorted, lemma_lex_le_refl, lemma_lex_le_total,
    lemma_lex_le_trans, lemma_lex_le_antisym,
};

verus! {

/// Sequences with equal multisets keep the same number of elements under any
/// filter: a permutation cannot change how many elements satisfy a
/// predicate.
pub proof fn lemma_filter_len_permutation<T>(s: Seq<T>, t: Seq<T>, pred: spec_fn(T) -> bool)
    requires
        s.to_multiset() == t.to_multiset(),
    ensures
        s.filter(pred).len() == t.filter(pred).len(),
    decreases s.len(),
{
    broadcast use vstd::multiset::group_multiset_axioms;

    s.to_multiset_ensures();
    t.to_multiset_ensures();
    if s.len() == 0 {
        assert(t.len() == 0);
        reveal(Seq::filter);
        assert(s.filter(pred) =~= Seq::<T>::empty());
        assert(t =~= Seq::<T>::empty());
        assert(t.filter(pred) =~= Seq::<T>::empty());
    } else {
        let x = s.last();
        assert(s.contains(x));
        assert(s.to_multiset().count(x) > 0);
        assert(t.contains(x));
        let j = choose|j: int| 0 <= j < t.len() && t[j] == x;
        let s0 = s.drop_last();
        let t0 = t.remove(j);
        assert(s.remove(s.len() - 1) =~= s0);
        assert(s0.to_multiset() == s.to_multiset().remove(x));
        assert(t0.to_multiset() == t.to_multiset().remove(x));
        lemma_filter_len_permutation(s0, t0, pred);
        reveal_with_fuel(Seq::filter, 3);
        assert(Seq::<T>::empty().push(x).drop_last() =~= Seq::<T>::empty());
        assert(Seq::<T>::empty().filter(pred) =~= Seq::<T>::empty());
        assert(s.filter(pred).len() == s0.filter(pred).len() + if pred(x) {
            1int
        } else {
            0int
        });
        let ta = t.subrange(0, j);
        let tb = t.subrange(j + 1, t.len() as int);
        assert(t =~= ta + (Seq::<T>::empty().push(x) + tb));
        assert(t0 =~= ta + tb);
        Seq::<T>::filter_distributes_over_add(ta, Seq::<T>::empty().push(x) + tb, pred);
        Seq::<T>::filter_distributes_over_add(Seq::<T>::empty().push(x), tb, pred);
        Seq::<T>::filter_distributes_over_add(ta, tb, pred);
        assert(Seq::<T>::empty().push(x).drop_last() =~= Seq::<T>::empty());
        assert(Seq::<T>::empty().push(x).filter(pred).len() == if pred(x) {
            1int
        } else {
            0int
        });
        assert(t.filter(pred).len() == t0.filter(pred).len() + if pred(x) {
            1int
        } else {
            0int
        });
    }
}

/// A filter every element passes keeps the whole sequence.
pub proof fn lemma_filter_all<T>(s: Seq<T>, pred: spec_fn(T) -> bool)
    requires
        forall|i: int| 0 <= i < s.len() ==> pred(#[trigger] s[i]),
    ensures
        s.filter(pred).len() == s.len(),
    decreases s.len(),
{
    reveal(Seq::filter);
    if s.len() > 0 {
        let s0 = s.drop_last();
        assert(forall|i: int| 0 <= i < s0.len() ==> pred(#[trigger] s0[i]));
        lemma_filter_all(s0, pred);
    }
}

/// A filter no element passes keeps nothing.
pub proof fn lemma_filter_none<T>(s: Seq<T>, pred: spec_fn(T) -> bool)
    requires
        forall|i: int| 0 <= i < s.len() ==> !pred(#[trigger] s[i]),
    ensures
        s.filter(pred).len() == 0,
    decreases s.len(),
{
    reveal(Seq::filter);
    if s.len() > 0 {
        let s0 = s.drop_last();
        assert(forall|i: int| 0 <= i < s0.len() ==> !pred(#[trigger] s0[i]));
        lemma_filter_none(s0, pred);
    }
}

/// Idempotence of the sort: two orderings of the same elements agree on the
/// key at every position, so running the sort on its own output moves no
/// key. The positions of distinct elements with fully equal keys are the
/// only freedom an unstable sort keeps.
pub proof fn lemma_sort_idempotent<T: RadixKey>(s1: Seq<T>, s2: Seq<T>)
    requires
        s1.to_multiset() == s2.to_multiset(),
        sorted(s1),
        sorted(s2),
    ensures
        s1.len() == s2.len(),
        forall|i: int| 0 <= i < s1.len() ==> key_eq(#[trigger] s1[i], s2[i]),
{
    s1.to_multiset_ensures();
    s2.to_multiset_ensures();
    assert(s1.len() == s2.len());
    assert forall|i: int| 0 <= i < s1.len() implies key_eq(#[trigger] s1[i], s2[i]) by {
        lemma_lex_le_total(s1[i], s2[i], 0);
        if !key_eq(s1[i], s2[i]) {
            if lex_le_from(s1[i], s2[i], 0) {
                assert(!lex_le_from(s2[i], s1[i], 0)) by {
                    if lex_le_from(s2[i], s1[i], 0) {
                        lemma_lex_le_antisym(s1[i], s2[i], 0);
                    }
                }
                lemma_one_direction(s1, s2, i);
                lemma_filter_len_permutation(s1, s2, below_pred(s1[i]));
            } else {
                assert(!lex_le_from(s1[i], s2[i], 0)) by {
                    if lex_le_from(s1[i], s2[i], 0) {
                        lemma_lex_le_antisym(s2[i], s1[i], 0);
                    }
                }
                lemma_one_direction(s2, s1, i);
                lemma_filter_len_permutation(s2, s1, below_pred(s2[i]));
            }
        }
    }
}

/// The predicate "at or below `bound` in the key order".
pub open spec fn below_pred<T: RadixKey>(bound: T) -> spec_fn(T) -> bool {
    |x: T| lex_le_from(x, bound, 0)
}

/// The counting core of the idempotence law: if position `i` of `s1` is
/// strictly below position `i` of `s2` in the key order, the elements at or
/// below that key are too many in `s1` and too few in `s2` to be the same.
proof fn lemma_one_direction<T: RadixKey>(s1: Seq<T>, s2: Seq<T>, i: int)
    requires
        sorted(s1),
        sorted(s2),
        s1.len() == s2.len(),
        0 <= i < s1.len(),
        lex_le_from(s1[i], s2[i], 0),
        !lex_le_from(s2[i], s1[i], 0),
    ensures
        s1.filter(below_pred(s1[i])).len() >= i + 1,
        s2.filter(below_pred(s1[i])).len() <= i,
{
    let pred = below_pred(s1[i]);
    // in s1, every position through i satisfies the bound
    let a = s1.take(i + 1);
    let c = s1.skip(i + 1);
    assert(s1 =~= a + c);
    Seq::<T>::filter_distributes_over_add(a, c, pred);
    assert forall|k: int| 0 <= k < a.len() implies pred(#[trigger] a[k]) by {
        assert(a[k] == s1[k]);
        if k < i {
            assert(lex_le_from(s1[k], s1[i], 0));
        } else {
            lemma_lex_le_refl(s1[i], 0);
        }
    }
    lemma_filter_all(a, pred);
    assert(s1.filter(pred).len() >= i + 1);
    // in s2, no position from i on satisfies it
    let a2 = s2.take(i);
    let c2 = s2.skip(i);
    assert(s2 =~= a2 + c2);
    Seq::<T>::filter_distributes_over_add(a2, c2, pred);
    assert forall|k: int| 0 <= k < c2.len() implies !pred(#[trigger] c2[k]) by {
        assert(c2[k] == s2[i + k]);
        if k > 0 {
            assert(lex_le_from(s2[i], s2[i + k], 0));
        } else {
            lemma_lex_le_refl(s2[i], 0);
        }
        if lex_le_from(s2[i + k], s1[i], 0) {
            lemma_lex_le_trans(s2[i], s2[i + k], s1[i], 0);
        }
    }
    lemma_filter_none(c2, pred);
    a2.lemma_filter_len(pred);
    assert(s2.filter(pred).len() <= i);
}

/// Key equivalence on `u32` is equality: the four key bytes are the whole
/// value.
pub proof fn lemma_key_eq_u32(a: u32, b: u32)
    requires
        key_eq(a, b),
    ensures
        a == b,
{
    assert(a.key_byte(0) == b.key_byte(0));
    assert(a.key_byte(1) == b.key_byte(1));
    assert(a.key_byte(2) == b.key_byte(2));
    assert(a.key_byte(3) == b.key_byte(3));
    assert(a == b) by (bit_vector)
        requires
            (a >> 24u32) as u8 == (b >> 24u32) as u8,
            (a >> 16u32) as u8 == (b >> 16u32) as u8,
            (a >> 8u32) as u8 == (b >> 8u32) as u8,
            (a >> 0u32) as u8 == (b >> 0u32) as u8,
    ;
}

/// For `u32` buckets idempotence is exact: two orderings of the same
/// elements are the same sequence.
pub proof fn lemma_sort_idempotent_u32(s1: Seq<u32>, s2: Seq<u32>)
    requires
        s1.to_multiset() == s2.to_multiset(),
        sorted(s1),
        sorted(s2),
    ensures
        s1 == s2,
{
    lemma_sort_idempotent(s1, s2);
    assert forall|i: int| 0 <= i < s1.len() implies s1[i] == s2[i] by {
        assert(key_eq(s1[i], s2[i]));
        lemma_key_eq_u32(s1[i], s2[i]);
    }
    assert(s1 =~= s2);
}

} // verus!
