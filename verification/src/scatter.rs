//! The mathematical model of a single-byte scatter pass: the stable partition
//! of a sequence by the key byte at one level. Every bucketing algorithm's
//! contract is stated against [`scatter_spec`] or against its per-byte blocks.

use vstd::prelude::*;
use crate::radix_key::{RadixKey, lex_le_from, sorted_from, lemma_lex_le_step};

verus! {

/// The predicate "the key byte at `level` is `b`".
pub open spec fn byte_pred<T: RadixKey>(level: int, b: int) -> spec_fn(T) -> bool {
    |x: T| x.key_byte(level) as int == b
}

/// The elements of `s` whose key byte at `level` equals `b`, in order.
pub open spec fn filter_byte<T: RadixKey>(s: Seq<T>, level: int, b: int) -> Seq<T> {
    s.filter(byte_pred(level, b))
}

/// How many elements of `s` have key byte `b` at `level`: one histogram bin.
pub open spec fn count_byte<T: RadixKey>(s: Seq<T>, level: int, b: int) -> nat {
    filter_byte(s, level, b).len()
}

/// How many elements of `s` have a key byte below `b` at `level`: the prefix
/// sum of the histogram, where the byte-`b` output bucket begins.
pub open spec fn count_below<T: RadixKey>(s: Seq<T>, level: int, b: int) -> nat
    decreases b,
{
    if b <= 0 {
        0
    } else {
        count_below(s, level, b - 1) + count_byte(s, level, b - 1)
    }
}

/// The concatenation of the byte buckets of `s` below `b`, in byte order.
pub open spec fn scatter_upto<T: RadixKey>(s: Seq<T>, level: int, b: int) -> Seq<T>
    decreases b,
{
    if b <= 0 {
        Seq::empty()
    } else {
        scatter_upto(s, level, b - 1) + filter_byte(s, level, b - 1)
    }
}

/// The stable partition of `s` by the key byte at `level`: all 256 byte
/// buckets concatenated in byte order, each holding its elements in their
/// original relative order.
pub open spec fn scatter_spec<T: RadixKey>(s: Seq<T>, level: int) -> Seq<T> {
    scatter_upto(s, level, 256)
}

/// Appending one element extends exactly the bucket of its byte.
pub proof fn lemma_filter_byte_push<T: RadixKey>(s: Seq<T>, x: T, level: int, b: int)
    ensures
        filter_byte(s.push(x), level, b) == if x.key_byte(level) as int == b {
            filter_byte(s, level, b).push(x)
        } else {
            filter_byte(s, level, b)
        },
{
    reveal(Seq::filter);
    assert(s.push(x).drop_last() =~= s);
    assert(s.push(x).last() == x);
    if x.key_byte(level) as int == b {
        assert(filter_byte(s.push(x), level, b) =~= filter_byte(s, level, b).push(x));
    } else {
        assert(filter_byte(s.push(x), level, b) =~= filter_byte(s, level, b));
    }
}

/// Taking one more element extends exactly the bucket of its byte.
pub proof fn lemma_filter_byte_take_succ<T: RadixKey>(s: Seq<T>, i: int, level: int, b: int)
    requires
        0 <= i < s.len(),
    ensures
        filter_byte(s.take(i + 1), level, b) == if s[i].key_byte(level) as int == b {
            filter_byte(s.take(i), level, b).push(s[i])
        } else {
            filter_byte(s.take(i), level, b)
        },
{
    assert(s.take(i + 1) =~= s.take(i).push(s[i]));
    lemma_filter_byte_push(s.take(i), s[i], level, b);
}

/// The empty sequence has empty buckets.
pub proof fn lemma_filter_byte_empty<T: RadixKey>(level: int, b: int)
    ensures
        filter_byte(Seq::<T>::empty(), level, b) == Seq::<T>::empty(),
        count_byte(Seq::<T>::empty(), level, b) == 0,
{
    reveal(Seq::filter);
}

/// Buckets never outgrow the sequence.
pub proof fn lemma_count_byte_le_len<T: RadixKey>(s: Seq<T>, level: int, b: int)
    ensures
        count_byte(s, level, b) <= s.len(),
{
    s.lemma_filter_len(byte_pred(level, b));
}

/// The partition below `b` is as long as the prefix sum says.
pub proof fn lemma_scatter_upto_len<T: RadixKey>(s: Seq<T>, level: int, b: int)
    ensures
        scatter_upto(s, level, b).len() == count_below(s, level, b),
    decreases b,
{
    if b > 0 {
        lemma_scatter_upto_len(s, level, b - 1);
    }
}

/// Prefix sums are monotone in the byte.
pub proof fn lemma_count_below_mono<T: RadixKey>(s: Seq<T>, level: int, b1: int, b2: int)
    requires
        b1 <= b2,
    ensures
        count_below(s, level, b1) <= count_below(s, level, b2),
    decreases b2 - b1,
{
    if b1 < b2 {
        lemma_count_below_mono(s, level, b1, b2 - 1);
    }
}

/// Appending one element raises the prefix sums above its byte by one.
pub proof fn lemma_count_below_push<T: RadixKey>(s: Seq<T>, x: T, level: int, b: int)
    ensures
        count_below(s.push(x), level, b) == count_below(s, level, b) + if (
        x.key_byte(level) as int) < b {
            1int
        } else {
            0int
        },
    decreases b,
{
    if b > 0 {
        lemma_count_below_push(s, x, level, b - 1);
        lemma_filter_byte_push(s, x, level, b - 1);
    }
}

/// Every element's byte lies below 256, so the last prefix sum is the length.
pub proof fn lemma_count_below_total<T: RadixKey>(s: Seq<T>, level: int)
    ensures
        count_below(s, level, 256) == s.len(),
    decreases s.len(),
{
    if s.len() == 0 {
        assert(s =~= Seq::<T>::empty());
        lemma_count_below_empty::<T>(level, 256);
    } else {
        let s0 = s.drop_last();
        lemma_count_below_total(s0, level);
        assert(s =~= s0.push(s.last()));
        lemma_count_below_push(s0, s.last(), level, 256);
        assert((s.last().key_byte(level) as int) < 256);
    }
}

/// The empty sequence has zero prefix sums.
pub proof fn lemma_count_below_empty<T: RadixKey>(level: int, b: int)
    ensures
        count_below(Seq::<T>::empty(), level, b) == 0,
    decreases b,
{
    if b > 0 {
        lemma_count_below_empty::<T>(level, b - 1);
        lemma_filter_byte_empty::<T>(level, b - 1);
    }
}

/// Within the partition, the byte-`b` bucket sits at its prefix-sum offset.
pub proof fn lemma_scatter_upto_index<T: RadixKey>(
    s: Seq<T>,
    level: int,
    bmax: int,
    b: int,
    idx: int,
)
    requires
        0 <= b < bmax,
        count_below(s, level, b) <= idx < count_below(s, level, b + 1),
    ensures
        idx < scatter_upto(s, level, bmax).len(),
        scatter_upto(s, level, bmax)[idx] == filter_byte(s, level, b)[idx - count_below(
            s,
            level,
            b,
        )],
    decreases bmax,
{
    lemma_scatter_upto_len(s, level, bmax);
    lemma_count_below_mono(s, level, b + 1, bmax);
    if bmax == b + 1 {
        lemma_scatter_upto_len(s, level, b);
    } else {
        lemma_scatter_upto_index(s, level, bmax - 1, b, idx);
        lemma_scatter_upto_len(s, level, bmax - 1);
        lemma_count_below_mono(s, level, b + 1, bmax - 1);
    }
}

/// Every index of a sequence falls inside the block of exactly one byte.
pub proof fn lemma_find_block<T: RadixKey>(s: Seq<T>, level: int, bmax: int, idx: int)
    requires
        0 <= idx < count_below(s, level, bmax),
        0 < bmax,
    ensures
        exists|b: int|
            0 <= b < bmax && #[trigger] count_below(s, level, b) <= idx < count_below(
                s,
                level,
                b + 1,
            ),
    decreases bmax,
{
    if idx >= count_below(s, level, bmax - 1) {
        assert(count_below(s, level, bmax - 1) <= idx < count_below(s, level, bmax));
    } else {
        lemma_find_block(s, level, bmax - 1, idx);
    }
}

/// The partition holds the same elements as the input: a scatter pass is a
/// permutation.
pub proof fn lemma_scatter_multiset<T: RadixKey>(s: Seq<T>, level: int)
    ensures
        scatter_spec(s, level).to_multiset() == s.to_multiset(),
    decreases s.len(),
{
    if s.len() == 0 {
        lemma_scatter_upto_len(s, level, 256);
        lemma_count_below_total(s, level);
        assert(scatter_spec(s, level) =~= Seq::<T>::empty());
        assert(s =~= Seq::<T>::empty());
    } else {
        let s0 = s.drop_last();
        let x = s.last();
        assert(s =~= s0.push(x));
        lemma_scatter_multiset(s0, level);
        lemma_scatter_upto_push(s0, x, level, 256);
        s0.to_multiset_ensures();
        assert(scatter_spec(s, level).to_multiset() == s0.to_multiset().insert(x));
        assert(s0.push(x).to_multiset() == s0.to_multiset().insert(x)) by {
            s0.to_multiset_ensures();
        }
    }
}

/// Appending one element inserts it into the partition's multiset.
proof fn lemma_scatter_upto_push<T: RadixKey>(s: Seq<T>, x: T, level: int, b: int)
    ensures
        scatter_upto(s.push(x), level, b).to_multiset() == if (x.key_byte(level) as int) < b {
            scatter_upto(s, level, b).to_multiset().insert(x)
        } else {
            scatter_upto(s, level, b).to_multiset()
        },
    decreases b,
{
    if b <= 0 {
    } else {
        lemma_scatter_upto_push(s, x, level, b - 1);
        lemma_filter_byte_push(s, x, level, b - 1);
        let pre_new = scatter_upto(s.push(x), level, b - 1);
        let blk_new = filter_byte(s.push(x), level, b - 1);
        let pre_old = scatter_upto(s, level, b - 1);
        let blk_old = filter_byte(s, level, b - 1);
        vstd::seq_lib::lemma_multiset_commutative(pre_new, blk_new);
        vstd::seq_lib::lemma_multiset_commutative(pre_old, blk_old);
        if x.key_byte(level) as int == b - 1 {
            blk_old.to_multiset_ensures();
            assert(blk_new.to_multiset() == blk_old.to_multiset().insert(x));
            assert(pre_new.to_multiset() == pre_old.to_multiset());
            assert(pre_old.to_multiset().add(blk_old.to_multiset().insert(x))
                =~= pre_old.to_multiset().add(blk_old.to_multiset()).insert(x));
        } else if (x.key_byte(level) as int) < b - 1 {
            assert(blk_new.to_multiset() == blk_old.to_multiset());
            assert(pre_old.to_multiset().insert(x).add(blk_old.to_multiset())
                =~= pre_old.to_multiset().add(blk_old.to_multiset()).insert(x));
        }
    }
}

/// Filtering preserves order: a subsequence of a sorted sequence is sorted.
/// Every element of the filtered sequence also occurs in the input.
pub proof fn lemma_filter_sorted<T: RadixKey>(s: Seq<T>, pred: spec_fn(T) -> bool, level: int)
    requires
        sorted_from(s, level),
    ensures
        sorted_from(s.filter(pred), level),
        forall|j: int|
            0 <= j < s.filter(pred).len() ==> s.contains(#[trigger] s.filter(pred)[j]),
    decreases s.len(),
{
    reveal(Seq::filter);
    if s.len() == 0 {
    } else {
        let s0 = s.drop_last();
        let x = s.last();
        assert(sorted_from(s0, level)) by {
            assert(forall|i: int, j: int|
                0 <= i < j < s0.len() ==> s0[i] == s[i] && s0[j] == s[j]);
        }
        lemma_filter_sorted(s0, pred, level);
        let f0 = s0.filter(pred);
        assert(forall|j: int| 0 <= j < f0.len() ==> s.contains(#[trigger] f0[j])) by {
            assert(forall|j: int|
                0 <= j < f0.len() ==> s0.contains(#[trigger] f0[j]));
            assert(forall|k: int| 0 <= k < s0.len() ==> s0[k] == s[k]);
            assert(forall|j: int| 0 <= j < f0.len() ==> exists|k: int|
                0 <= k < s0.len() && s0[k] == #[trigger] f0[j]);
        }
        if pred(x) {
            let f = s.filter(pred);
            assert(f == f0.push(x));
            assert forall|i: int, j: int| 0 <= i < j < f.len() implies #[trigger] lex_le_from(
                f[i],
                f[j],
                level,
            ) by {
                if j < f.len() - 1 {
                    assert(f[i] == f0[i] && f[j] == f0[j]);
                } else {
                    assert(f[j] == x);
                    assert(f[i] == f0[i]);
                    assert(s.contains(f0[i]));
                    let k = choose|k: int| 0 <= k < s.len() && s[k] == f0[i];
                    if k < s.len() - 1 {
                        assert(lex_le_from(s[k], s[s.len() - 1], level));
                    } else {
                        crate::radix_key::lemma_lex_le_refl(x, level);
                    }
                }
            }
        } else {
            assert(s.filter(pred) == f0);
        }
    }
}

/// The scatter pass theorem: if the input is ordered by the levels past
/// `level`, the stable partition by the byte at `level` is ordered by `level`
/// and everything past it. Applied once per level from the least significant
/// byte up, it is the correctness of LSB radix sorting.
pub proof fn lemma_scatter_sorted<T: RadixKey>(s: Seq<T>, level: int)
    requires
        0 <= level,
        sorted_from(s, level + 1),
    ensures
        sorted_from(scatter_spec(s, level), level),
{
    let t = scatter_spec(s, level);
    lemma_scatter_upto_len(s, level, 256);
    lemma_count_below_total(s, level);
    assert forall|i: int, j: int| 0 <= i < j < t.len() implies #[trigger] lex_le_from(
        t[i],
        t[j],
        level,
    ) by {
        lemma_find_block(s, level, 256, i);
        lemma_find_block(s, level, 256, j);
        let bi = choose|b: int|
            0 <= b < 256 && #[trigger] count_below(s, level, b) <= i < count_below(s, level, b + 1);
        let bj = choose|b: int|
            0 <= b < 256 && #[trigger] count_below(s, level, b) <= j < count_below(s, level, b + 1);
        lemma_scatter_upto_index(s, level, 256, bi, i);
        lemma_scatter_upto_index(s, level, 256, bj, j);
        let pred_i = byte_pred::<T>(level, bi);
        let pred_j = byte_pred::<T>(level, bj);
        assert(count_below(s, level, bi + 1) == count_below(s, level, bi) + count_byte(
            s,
            level,
            bi,
        ));
        assert(count_below(s, level, bj + 1) == count_below(s, level, bj) + count_byte(
            s,
            level,
            bj,
        ));
        s.lemma_filter_pred(pred_i, i - count_below(s, level, bi));
        s.lemma_filter_pred(pred_j, j - count_below(s, level, bj));
        assert(t[i].key_byte(level) as int == bi);
        assert(t[j].key_byte(level) as int == bj);
        if bi == bj {
            lemma_filter_sorted(s, pred_i, level + 1);
            assert(lex_le_from(t[i], t[j], level + 1));
            if level < T::spec_levels() {
                lemma_lex_le_step(t[i], t[j], level);
            }
        } else {
            assert(bi < bj) by {
                if bi > bj {
                    lemma_count_below_mono(s, level, bj + 1, bi);
                }
            }
        }
    }
}

/// A sequence whose 256 blocks at the prefix-sum offsets each equal the
/// matching byte bucket of `s` is exactly the stable partition of `s`.
pub proof fn lemma_blocks_determine_scatter<T: RadixKey>(s: Seq<T>, t: Seq<T>, level: int)
    requires
        t.len() == s.len(),
        forall|b: int|
            0 <= b < 256 ==> t.subrange(
                count_below(s, level, b) as int,
                count_below(s, level, b) as int + count_byte(s, level, b) as int,
            ) == #[trigger] filter_byte(s, level, b),
    ensures
        t == scatter_spec(s, level),
{
    lemma_scatter_upto_len(s, level, 256);
    lemma_count_below_total(s, level);
    assert forall|idx: int| 0 <= idx < t.len() implies t[idx] == scatter_spec(s, level)[idx] by {
        lemma_find_block(s, level, 256, idx);
        let b = choose|b: int|
            0 <= b < 256 && #[trigger] count_below(s, level, b) <= idx < count_below(
                s,
                level,
                b + 1,
            );
        lemma_scatter_upto_index(s, level, 256, b, idx);
        lemma_count_below_mono(s, level, b + 1, 256);
        assert(count_below(s, level, b + 1) == count_below(s, level, b) + count_byte(
            s,
            level,
            b,
        ));
        let lo = count_below(s, level, b) as int;
        let blk = t.subrange(lo, lo + count_byte(s, level, b) as int);
        assert(t[idx] == blk[idx - lo]);
    }
    assert(t =~= scatter_spec(s, level));
}

/// Counting distributes over concatenation.
pub proof fn lemma_count_byte_concat<T: RadixKey>(a: Seq<T>, c: Seq<T>, level: int, b: int)
    ensures
        count_byte(a + c, level, b) == count_byte(a, level, b) + count_byte(c, level, b),
        filter_byte(a + c, level, b) == filter_byte(a, level, b) + filter_byte(c, level, b),
{
    Seq::<T>::filter_distributes_over_add(a, c, byte_pred(level, b));
}

/// A prefix of `s` never holds more of a byte than `s` itself; the elements
/// past `i` hold the rest.
pub proof fn lemma_count_byte_take_skip<T: RadixKey>(s: Seq<T>, i: int, level: int, b: int)
    requires
        0 <= i <= s.len(),
    ensures
        count_byte(s, level, b) == count_byte(s.take(i), level, b) + count_byte(
            s.skip(i),
            level,
            b,
        ),
        filter_byte(s, level, b) == filter_byte(s.take(i), level, b) + filter_byte(
            s.skip(i),
            level,
            b,
        ),
{
    assert(s =~= s.take(i) + s.skip(i));
    lemma_count_byte_concat(s.take(i), s.skip(i), level, b);
}

} // verus!
