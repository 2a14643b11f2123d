//! The ska sort: an in-place single-byte partition driven by permutation
//! cycles. Each of the 256 output buckets keeps a write head between its
//! prefix-sum offset and its end offset; a cursor walks the buckets, and the
//! element under a bucket's write head either already belongs there (the
//! head advances) or is swapped onto the write head of its own byte's
//! bucket, advancing that head. Every step advances exactly one head, no
//! head can pass its bucket's end, and when all heads reach their ends the
//! range is partitioned without any scratch allocation.

use vstd::prelude::*;
use crate::radix_key::RadixKey;
use crate::scatter::{
    count_byte, count_below, lemma_filter_byte_take_succ, lemma_count_below_mono,
    lemma_count_below_total, lemma_count_byte_take_skip, lemma_count_byte_concat,
};
use crate::sort_utils::{
    is_histogram, sum_counts, get_prefix_sums, get_end_offsets, vec_swap, lemma_swap_multiset,
};
use crate::sorts::scanning_sort::{sum_int, lemma_sum_int_update, lemma_sum_int_nonneg};
use crate::sorts::out_of_place_sort::lemma_histogram_sums_fit;
use crate::laws::{lemma_filter_len_permutation, lemma_filter_all};

verus! {

/// The ska sort's state invariant: every write head sits between its
/// bucket's boundaries, everything behind a write head already carries the
/// bucket's byte, the rest of the vector is untouched, and the range holds a
/// permutation of its original contents.
pub open spec fn ska_inv<T: RadixKey>(
    orig: Seq<T>,
    v: Seq<T>,
    heads: Seq<usize>,
    counts: Seq<usize>,
    lo: int,
    hi: int,
    lv: int,
) -> bool {
    let sub0 = orig.subrange(lo, hi);
    &&& 0 <= lo <= hi <= orig.len()
    &&& v.len() == orig.len()
    &&& heads.len() == 256
    &&& counts.len() == 256
    &&& is_histogram(counts, sub0, lv)
    &&& count_below(sub0, lv, 256) == hi - lo
    &&& forall|k: int| 0 <= k < orig.len() && !(lo <= k < hi) ==> v[k] == orig[k]
    &&& forall|b: int|
        0 <= b < 256 ==> count_below(sub0, lv, b) <= #[trigger] heads[b] && heads[b]
            <= count_below(sub0, lv, b + 1)
    &&& forall|b: int, k: int|
        #![trigger count_below(sub0, lv, b), v[k]]
        0 <= b < 256 && lo + count_below(sub0, lv, b) <= k < lo + heads[b] ==> v[k].key_byte(
            lv,
        ) as int == b
    &&& v.subrange(lo, hi).to_multiset() == sub0.to_multiset()
}

/// How far the write heads still have to go.
pub open spec fn ska_measure<T: RadixKey>(
    heads: Seq<usize>,
    sub0: Seq<T>,
    lv: int,
) -> int {
    sum_int(|b: int| count_below(sub0, lv, b + 1) - heads[b], 256)
}

/// A bucket that still has unplaced elements of its byte elsewhere in the
/// range has room behind its end offset: the element under the cursor's
/// head, carrying byte `b2` of another bucket, guarantees that bucket `b2`'s
/// write head has not reached its end.
proof fn lemma_ska_target_open<T: RadixKey>(
    orig: Seq<T>,
    v: Seq<T>,
    heads: Seq<usize>,
    counts: Seq<usize>,
    lo: int,
    hi: int,
    lv: int,
    cur: int,
    b2: int,
)
    requires
        ska_inv(orig, v, heads, counts, lo, hi, lv),
        0 <= cur < 256,
        0 <= b2 < 256,
        cur != b2,
        heads[cur] < count_below(orig.subrange(lo, hi), lv, cur + 1),
        v[lo + heads[cur]].key_byte(lv) as int == b2,
    ensures
        heads[b2] < count_below(orig.subrange(lo, hi), lv, b2 + 1),
{
    let sub0 = orig.subrange(lo, hi);
    let sub = v.subrange(lo, hi);
    let hx = heads[cur] as int;
    assert(count_below(sub0, lv, cur + 1) == count_below(sub0, lv, cur) + count_byte(
        sub0,
        lv,
        cur,
    ));
    assert(count_below(sub0, lv, b2 + 1) == count_below(sub0, lv, b2) + count_byte(sub0, lv, b2));
    lemma_count_below_mono(sub0, lv, cur + 1, 256);
    lemma_count_below_mono(sub0, lv, b2 + 1, 256);
    // the placed span of b2 is full of byte b2
    let a = sub.subrange(0, count_below(sub0, lv, b2) as int);
    let p = sub.subrange(count_below(sub0, lv, b2) as int, heads[b2] as int);
    let c = sub.subrange(heads[b2] as int, sub.len() as int);
    assert(sub =~= a + (p + c));
    lemma_count_byte_concat(a, p + c, lv, b2);
    lemma_count_byte_concat(p, c, lv, b2);
    assert forall|k: int| 0 <= k < p.len() implies crate::scatter::byte_pred::<T>(lv, b2)(
        #[trigger] p[k],
    ) by {
        assert(p[k] == v[lo + count_below(sub0, lv, b2) + k]);
    }
    lemma_filter_all(p, crate::scatter::byte_pred(lv, b2));
    // the cursor's element carries byte b2 outside that span
    assert(sub[hx] == v[lo + hx]);
    if cur < b2 {
        // x sits in `a`
        lemma_count_below_mono(sub0, lv, cur + 1, b2);
        assert(a[hx] == sub[hx]);
        lemma_filter_byte_take_succ(a, hx, lv, b2);
        lemma_count_byte_take_skip(a, hx + 1, lv, b2);
        assert(count_byte(a, lv, b2) >= 1);
    } else {
        // x sits in `c`
        lemma_count_below_mono(sub0, lv, b2 + 1, cur);
        let cx = hx - heads[b2];
        assert(c[cx] == sub[hx]);
        lemma_filter_byte_take_succ(c, cx, lv, b2);
        lemma_count_byte_take_skip(c, cx + 1, lv, b2);
        assert(count_byte(c, lv, b2) >= 1);
    }
    // a permutation holds exactly the histogram's number of byte-b2 elements
    lemma_filter_len_permutation(sub, sub0, crate::scatter::byte_pred(lv, b2));
    assert(count_byte(sub, lv, b2) == count_byte(sub0, lv, b2));
}

/// Advancing the cursor bucket's head over an element that already carries
/// its byte preserves the invariant.
proof fn lemma_ska_advance<T: RadixKey>(
    orig: Seq<T>,
    v: Seq<T>,
    heads: Seq<usize>,
    counts: Seq<usize>,
    lo: int,
    hi: int,
    lv: int,
    cur: int,
)
    requires
        ska_inv(orig, v, heads, counts, lo, hi, lv),
        0 <= cur < 256,
        heads[cur] < usize::MAX,
        heads[cur] < count_below(orig.subrange(lo, hi), lv, cur + 1),
        v[lo + heads[cur]].key_byte(lv) as int == cur,
    ensures
        ska_inv(orig, v, heads.update(cur, (heads[cur] + 1) as usize), counts, lo, hi, lv),
{
    let sub0 = orig.subrange(lo, hi);
    let heads2 = heads.update(cur, (heads[cur] + 1) as usize);
    lemma_count_below_mono(sub0, lv, cur + 1, 256);
    assert forall|b: int, k: int|
        #![trigger count_below(sub0, lv, b), v[k]]
        0 <= b < 256 && lo + count_below(sub0, lv, b) <= k < lo + heads2[b] implies v[k].key_byte(
        lv,
    ) as int == b by {
        if b == cur && k == lo + heads[cur] {
        }
    }
}

/// Swapping the cursor's element onto the write head of its own byte's
/// bucket, and advancing that head, preserves the invariant.
proof fn lemma_ska_swap<T: RadixKey>(
    orig: Seq<T>,
    v: Seq<T>,
    new_v: Seq<T>,
    heads: Seq<usize>,
    counts: Seq<usize>,
    lo: int,
    hi: int,
    lv: int,
    cur: int,
    b2: int,
)
    requires
        ska_inv(orig, v, heads, counts, lo, hi, lv),
        0 <= cur < 256,
        0 <= b2 < 256,
        cur != b2,
        heads[b2] < usize::MAX,
        heads[cur] < count_below(orig.subrange(lo, hi), lv, cur + 1),
        heads[b2] < count_below(orig.subrange(lo, hi), lv, b2 + 1),
        v[lo + heads[cur]].key_byte(lv) as int == b2,
        new_v == v.update(lo + heads[cur], v[lo + heads[b2]]).update(
            lo + heads[b2],
            v[lo + heads[cur]],
        ),
    ensures
        ska_inv(orig, new_v, heads.update(b2, (heads[b2] + 1) as usize), counts, lo, hi, lv),
{
    let sub0 = orig.subrange(lo, hi);
    let heads2 = heads.update(b2, (heads[b2] + 1) as usize);
    let p1 = lo + heads[cur];
    let p2 = lo + heads[b2];
    assert(count_below(sub0, lv, cur + 1) == count_below(sub0, lv, cur) + count_byte(
        sub0,
        lv,
        cur,
    ));
    assert(count_below(sub0, lv, b2 + 1) == count_below(sub0, lv, b2) + count_byte(sub0, lv, b2));
    lemma_count_below_mono(sub0, lv, cur + 1, 256);
    lemma_count_below_mono(sub0, lv, b2 + 1, 256);
    assert forall|b: int, k: int|
        #![trigger count_below(sub0, lv, b), new_v[k]]
        0 <= b < 256 && lo + count_below(sub0, lv, b) <= k < lo + heads2[b] implies
        new_v[k].key_byte(lv) as int == b by {
        assert(count_below(sub0, lv, b + 1) == count_below(sub0, lv, b) + count_byte(
            sub0,
            lv,
            b,
        ));
        lemma_count_below_mono(sub0, lv, b + 1, 256);
        if b == b2 && k == p2 {
            assert(new_v[k] == v[p1]);
        } else {
            assert(k != p1 && k != p2) by {
                if b < b2 {
                    lemma_count_below_mono(sub0, lv, b + 1, b2);
                } else if b > b2 {
                    lemma_count_below_mono(sub0, lv, b2 + 1, b);
                }
                if b < cur {
                    lemma_count_below_mono(sub0, lv, b + 1, cur);
                } else if b > cur {
                    lemma_count_below_mono(sub0, lv, cur + 1, b);
                }
            }
            assert(new_v[k] == v[k]);
        }
    }
    assert(new_v.subrange(lo, hi).to_multiset() == sub0.to_multiset()) by {
        assert(new_v.subrange(lo, hi) =~= v.subrange(lo, hi).update(p1 - lo, v[p2]).update(
            p2 - lo,
            v[p1],
        ));
        lemma_swap_multiset(v.subrange(lo, hi), p1 - lo, p2 - lo);
    }
    assert(new_v.len() == orig.len());
    assert forall|k: int| 0 <= k < orig.len() && !(lo <= k < hi) implies new_v[k] == orig[k] by {
        assert(new_v[k] == v[k]);
    }
}

/// The measure falls by one when one head advances.
proof fn lemma_ska_measure_step<T: RadixKey>(
    heads: Seq<usize>,
    sub0: Seq<T>,
    lv: int,
    b0: int,
)
    requires
        0 <= b0 < 256,
        heads.len() == 256,
        heads[b0] < usize::MAX,
    ensures
        ska_measure(heads.update(b0, (heads[b0] + 1) as usize), sub0, lv) == ska_measure(
            heads,
            sub0,
            lv,
        ) - 1,
{
    let heads2 = heads.update(b0, (heads[b0] + 1) as usize);
    let f = |b: int| count_below(sub0, lv, b + 1) - heads[b];
    let g = |b: int| count_below(sub0, lv, b + 1) - heads2[b];
    lemma_sum_int_update(f, g, 256, b0);
}

/// The measure is nonnegative while the heads stay within their buckets.
proof fn lemma_ska_measure_nonneg<T: RadixKey>(heads: Seq<usize>, sub0: Seq<T>, lv: int)
    requires
        heads.len() == 256,
        forall|b: int|
            0 <= b < 256 ==> count_below(sub0, lv, b) <= #[trigger] heads[b] && heads[b]
                <= count_below(sub0, lv, b + 1),
    ensures
        ska_measure(heads, sub0, lv) >= 0,
{
    let f = |b: int| count_below(sub0, lv, b + 1) - heads[b];
    assert forall|b: int| 0 <= b < 256 implies #[trigger] f(b) >= 0 by {
        assert(heads[b] <= count_below(sub0, lv, b + 1));
    }
    lemma_sum_int_nonneg(f, 256);
}

/// Sorts nothing, moves everything: partitions the range `[lo, hi)` of `v`
/// in place by the key byte at `level`, walking permutation cycles between
/// the buckets' write heads.
pub fn ska_sort<T: RadixKey + Copy>(
    v: &mut Vec<T>,
    lo: usize,
    hi: usize,
    counts: &Vec<usize>,
    level: usize,
)
    requires
        lo <= hi <= old(v)@.len(),
        (level as nat) < T::spec_levels(),
        is_histogram(counts@, old(v)@.subrange(lo as int, hi as int), level as int),
    ensures
        crate::director::partitions_range(
            old(v)@,
            final(v)@,
            lo as int,
            hi as int,
            level as int,
        ),
{
    let ghost orig = old(v)@;
    let ghost sub0 = old(v)@.subrange(lo as int, hi as int);
    let ghost lv = level as int;
    proof {
        lemma_histogram_sums_fit(counts@, sub0, lv);
        lemma_count_below_total(sub0, lv);
    }
    let vlen = v.len();
    let prefix = get_prefix_sums(counts);
    let ends = get_end_offsets(counts, &prefix);
    let mut heads = prefix;
    proof {
        assert forall|b: int| 0 <= b < 256 implies count_below(sub0, lv, b)
            <= #[trigger] heads@[b] && heads@[b] <= count_below(sub0, lv, b + 1) by {
            lemma_count_below_mono(sub0, lv, b, b + 1);
        }
    }
    let mut cur: usize = 0;
    while cur < 256
        invariant
            cur <= 256,
            lo <= hi <= vlen,
            vlen == v@.len(),
            lv == level as int,
            (level as nat) < T::spec_levels(),
            sub0 == orig.subrange(lo as int, hi as int),
            ska_inv(orig, v@, heads@, counts@, lo as int, hi as int, lv),
            ends@.len() == 256,
            forall|b: int| 0 <= b < 256 ==> #[trigger] ends@[b] == count_below(sub0, lv, b + 1),
            forall|b: int| 0 <= b < cur ==> #[trigger] heads@[b] == count_below(sub0, lv, b + 1),
        decreases 256 - cur,
    {
        while heads[cur] < ends[cur]
            invariant
                cur < 256,
                lo <= hi <= vlen,
                vlen == v@.len(),
                lv == level as int,
                (level as nat) < T::spec_levels(),
                sub0 == orig.subrange(lo as int, hi as int),
                ska_inv(orig, v@, heads@, counts@, lo as int, hi as int, lv),
                ends@.len() == 256,
                forall|b: int|
                    0 <= b < 256 ==> #[trigger] ends@[b] == count_below(sub0, lv, b + 1),
                forall|b: int|
                    0 <= b < cur ==> #[trigger] heads@[b] == count_below(sub0, lv, b + 1),
            decreases ska_measure(heads@, sub0, lv),
        {
            proof {
                assert(count_below(sub0, lv, cur + 1) == count_below(sub0, lv, cur as int)
                    + count_byte(sub0, lv, cur as int));
                lemma_count_below_mono(sub0, lv, cur + 1, 256);
            }
            let x = v[lo + heads[cur]];
            let b2 = x.get_level(level) as usize;
            let ghost pre_heads = heads@;
            let ghost pre_v = v@;
            if b2 == cur {
                let t = heads[cur];
                heads[cur] = t + 1;
                proof {
                    lemma_ska_advance(
                        orig,
                        v@,
                        pre_heads,
                        counts@,
                        lo as int,
                        hi as int,
                        lv,
                        cur as int,
                    );
                    assert(heads@ =~= pre_heads.update(
                        cur as int,
                        (pre_heads[cur as int] + 1) as usize,
                    ));
                    lemma_ska_measure_step(pre_heads, sub0, lv, cur as int);
                    lemma_ska_measure_nonneg(heads@, sub0, lv);
                }
            } else {
                proof {
                    lemma_ska_target_open(
                        orig,
                        v@,
                        heads@,
                        counts@,
                        lo as int,
                        hi as int,
                        lv,
                        cur as int,
                        b2 as int,
                    );
                    assert(count_below(sub0, lv, b2 + 1) == count_below(sub0, lv, b2 as int)
                        + count_byte(sub0, lv, b2 as int));
                    lemma_count_below_mono(sub0, lv, b2 + 1, 256);
                }
                let p1 = lo + heads[cur];
                let p2 = lo + heads[b2];
                vec_swap(v, p1, p2);
                let t = heads[b2];
                heads[b2] = t + 1;
                proof {
                    // a completed bucket is never a swap target
                    assert(b2 as int >= cur as int) by {
                        if (b2 as int) < cur as int {
                            assert(pre_heads[b2 as int] == count_below(sub0, lv, b2 + 1));
                        }
                    }
                    lemma_ska_swap(
                        orig,
                        pre_v,
                        v@,
                        pre_heads,
                        counts@,
                        lo as int,
                        hi as int,
                        lv,
                        cur as int,
                        b2 as int,
                    );
                    assert(heads@ =~= pre_heads.update(
                        b2 as int,
                        (pre_heads[b2 as int] + 1) as usize,
                    ));
                    lemma_ska_measure_step(pre_heads, sub0, lv, b2 as int);
                    lemma_ska_measure_nonneg(heads@, sub0, lv);
                }
            }
        }
        cur = cur + 1;
    }
    proof {
        assert forall|b: int, k: int|
            #![trigger count_below(sub0, lv, b), v@[k]]
            0 <= b < 256 && lo + count_below(sub0, lv, b) <= k < lo + count_below(
                sub0,
                lv,
                b + 1,
            ) implies v@[k].key_byte(lv) as int == b by {
            assert(heads@[b] == count_below(sub0, lv, b + 1));
        }
    }
}

} // verus!
