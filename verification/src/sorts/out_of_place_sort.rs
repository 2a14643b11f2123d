//! Out-of-place scatter passes: a single LSB-style pass that moves every
//! element of a source bucket into the scratch destination slot of its byte
//! bucket, preserving the relative order within each bucket.

use vstd::prelude::*;
use crate::radix_key::RadixKey;
use crate::scatter::{
    count_byte, count_below, filter_byte, scatter_spec, lemma_filter_byte_take_succ,
    lemma_count_below_mono, lemma_count_below_total, lemma_count_byte_take_skip,
    lemma_blocks_determine_scatter,
};
use crate::sort_utils::{
    is_histogram, sum_counts, get_prefix_sums, lemma_sum_counts_is_count_below,
    lemma_count_byte_take_zero,
};

verus! {

/// The prefix sums of a histogram of `s` fit in `usize`: they never exceed
/// the length of `s`.
pub proof fn lemma_histogram_sums_fit<T: RadixKey>(c: Seq<usize>, s: Seq<T>, level: int)
    requires
        is_histogram(c, s, level),
    ensures
        sum_counts(c, 256) == s.len(),
        forall|b: int|
            0 <= b <= 256 ==> #[trigger] sum_counts(c, b) == count_below(s, level, b),
{
    assert forall|b: int| 0 <= b <= 256 implies #[trigger] sum_counts(c, b) == count_below(
        s,
        level,
        b,
    ) by {
        lemma_sum_counts_is_count_below(c, s, level, b);
    }
    lemma_count_below_total(s, level);
}

/// Scatters `src_bucket` into `dst_bucket` by the key byte at `level`: the
/// destination becomes the stable partition of the source, each element in
/// the slot its byte bucket's write head pointed at.
pub fn out_of_place_sort<T: RadixKey + Copy>(
    src_bucket: &Vec<T>,
    dst_bucket: &mut Vec<T>,
    counts: &Vec<usize>,
    level: usize,
)
    requires
        (level as nat) < T::spec_levels(),
        old(dst_bucket)@.len() == src_bucket@.len(),
        is_histogram(counts@, src_bucket@, level as int),
    ensures
        final(dst_bucket)@ == scatter_spec(src_bucket@, level as int),
        final(dst_bucket)@.len() == src_bucket@.len(),
{
    let ghost s = src_bucket@;
    let ghost lv = level as int;
    proof {
        lemma_histogram_sums_fit(counts@, s, lv);
    }
    let n = src_bucket.len();
    let mut prefix_sums = get_prefix_sums(counts);
    let mut i: usize = 0;
    proof {
        lemma_count_byte_take_zero(s, lv);
        assert forall|b: int| 0 <= b < 256 implies dst_bucket@.subrange(
            count_below(s, lv, b) as int,
            count_below(s, lv, b) as int + count_byte(s.take(0), lv, b) as int,
        ) =~= #[trigger] filter_byte(s.take(0), lv, b) by {
            assert(s.take(0) =~= Seq::<T>::empty());
            crate::scatter::lemma_filter_byte_empty::<T>(lv, b);
            lemma_count_below_mono(s, lv, b, 256);
            lemma_count_below_total(s, lv);
        }
    }
    while i < n
        invariant
            i <= n,
            n == s.len(),
            s == src_bucket@,
            lv == level as int,
            (level as nat) < T::spec_levels(),
            dst_bucket@.len() == n,
            prefix_sums@.len() == 256,
            forall|b: int|
                0 <= b < 256 ==> #[trigger] prefix_sums@[b] == count_below(s, lv, b)
                    + count_byte(s.take(i as int), lv, b),
            forall|b: int|
                0 <= b < 256 ==> dst_bucket@.subrange(
                    count_below(s, lv, b) as int,
                    count_below(s, lv, b) as int + count_byte(s.take(i as int), lv, b) as int,
                ) == #[trigger] filter_byte(s.take(i as int), lv, b),
        decreases n - i,
    {
        let x = src_bucket[i];
        let b0 = x.get_level(level) as usize;
        proof {
            lemma_filter_byte_take_succ(s, i as int, lv, b0 as int);
            lemma_count_byte_take_skip(s, i + 1, lv, b0 as int);
            assert(count_below(s, lv, b0 + 1) == count_below(s, lv, b0 as int) + count_byte(
                s,
                lv,
                b0 as int,
            ));
            lemma_count_below_mono(s, lv, b0 + 1, 256);
            lemma_count_below_total(s, lv);
        }
        let pos = prefix_sums[b0];
        let ghost dst_old = dst_bucket@;
        dst_bucket[pos] = x;
        prefix_sums[b0] = pos + 1;
        proof {
            assert forall|b: int| 0 <= b < 256 implies dst_bucket@.subrange(
                count_below(s, lv, b) as int,
                count_below(s, lv, b) as int + count_byte(s.take(i + 1), lv, b) as int,
            ) == #[trigger] filter_byte(s.take(i + 1), lv, b) by {
                lemma_filter_byte_take_succ(s, i as int, lv, b);
                let lo = count_below(s, lv, b) as int;
                let cnt = count_byte(s.take(i as int), lv, b) as int;
                if b == b0 as int {
                    assert(dst_bucket@.subrange(lo, lo + cnt + 1) =~= dst_old.subrange(
                        lo,
                        lo + cnt,
                    ).push(x));
                } else {
                    if b < b0 as int {
                        lemma_count_below_mono(s, lv, b + 1, b0 as int);
                        lemma_count_byte_take_skip(s, i as int, lv, b);
                        assert(count_below(s, lv, b + 1) == count_below(s, lv, b) + count_byte(
                            s,
                            lv,
                            b,
                        ));
                    } else {
                        lemma_count_below_mono(s, lv, b0 + 1, b);
                        lemma_count_byte_take_skip(s, i as int, lv, b);
                        assert(count_below(s, lv, b + 1) == count_below(s, lv, b) + count_byte(
                            s,
                            lv,
                            b,
                        ));
                        lemma_count_below_mono(s, lv, b + 1, 256);
                    }
                    assert(dst_bucket@.subrange(lo, lo + cnt) =~= dst_old.subrange(lo, lo + cnt));
                }
            }
            assert forall|b: int| 0 <= b < 256 implies #[trigger] prefix_sums@[b] == count_below(
                s,
                lv,
                b,
            ) + count_byte(s.take(i + 1), lv, b) by {
                assert(count_byte(s.take(i as int), lv, b) >= 0);
                lemma_filter_byte_take_succ(s, i as int, lv, b);
            }
        }
        i = i + 1;
    }
    proof {
        assert(s.take(n as int) =~= s);
        assert forall|b: int| 0 <= b < 256 implies dst_bucket@.subrange(
            count_below(s, lv, b) as int,
            count_below(s, lv, b) as int + count_byte(s, lv, b) as int,
        ) == #[trigger] filter_byte(s, lv, b) by {
            assert(filter_byte(s.take(n as int), lv, b) == filter_byte(s, lv, b));
        }
        lemma_blocks_determine_scatter(s, dst_bucket@, lv);
    }
}

/// The same scatter pass, fused with counting: while each element is moved
/// by its byte at `level`, its byte at `level + 1` is tallied into one of two
/// alternating accumulator arrays, merged at the end into the histogram the
/// next pass would otherwise have to compute.
pub fn out_of_place_sort_with_counts<T: RadixKey + Copy>(
    src_bucket: &Vec<T>,
    dst_bucket: &mut Vec<T>,
    counts: &Vec<usize>,
    level: usize,
) -> (next_counts: Vec<usize>)
    requires
        level < usize::MAX,
        (level as nat) + 1 < T::spec_levels(),
        old(dst_bucket)@.len() == src_bucket@.len(),
        is_histogram(counts@, src_bucket@, level as int),
    ensures
        final(dst_bucket)@ == scatter_spec(src_bucket@, level as int),
        final(dst_bucket)@.len() == src_bucket@.len(),
        is_histogram(next_counts@, src_bucket@, level as int + 1),
{
    let ghost s = src_bucket@;
    let ghost lv = level as int;
    let next_level = level + 1;
    proof {
        lemma_histogram_sums_fit(counts@, s, lv);
    }
    let n = src_bucket.len();
    let mut prefix_sums = get_prefix_sums(counts);
    let mut nc0: Vec<usize> = vec![0usize; 256];
    let mut nc1: Vec<usize> = vec![0usize; 256];
    let mut odd = false;
    let mut i: usize = 0;
    proof {
        lemma_count_byte_take_zero(s, lv);
        lemma_count_byte_take_zero(s, lv + 1);
        assert forall|b: int| 0 <= b < 256 implies dst_bucket@.subrange(
            count_below(s, lv, b) as int,
            count_below(s, lv, b) as int + count_byte(s.take(0), lv, b) as int,
        ) =~= #[trigger] filter_byte(s.take(0), lv, b) by {
            assert(s.take(0) =~= Seq::<T>::empty());
            crate::scatter::lemma_filter_byte_empty::<T>(lv, b);
            lemma_count_below_mono(s, lv, b, 256);
            lemma_count_below_total(s, lv);
        }
    }
    while i < n
        invariant
            i <= n,
            n == s.len(),
            s == src_bucket@,
            lv == level as int,
            next_level == level + 1,
            (level as nat) + 1 < T::spec_levels(),
            dst_bucket@.len() == n,
            prefix_sums@.len() == 256,
            nc0@.len() == 256,
            nc1@.len() == 256,
            forall|b: int|
                0 <= b < 256 ==> #[trigger] prefix_sums@[b] == count_below(s, lv, b)
                    + count_byte(s.take(i as int), lv, b),
            forall|b: int|
                0 <= b < 256 ==> dst_bucket@.subrange(
                    count_below(s, lv, b) as int,
                    count_below(s, lv, b) as int + count_byte(s.take(i as int), lv, b) as int,
                ) == #[trigger] filter_byte(s.take(i as int), lv, b),
            forall|b: int|
                0 <= b < 256 ==> nc0@[b] + nc1@[b] == #[trigger] count_byte(
                    s.take(i as int),
                    lv + 1,
                    b,
                ),
        decreases n - i,
    {
        let x = src_bucket[i];
        let b0 = x.get_level(level) as usize;
        let bn = x.get_level(next_level) as usize;
        proof {
            lemma_filter_byte_take_succ(s, i as int, lv, b0 as int);
            lemma_count_byte_take_skip(s, i + 1, lv, b0 as int);
            assert(count_below(s, lv, b0 + 1) == count_below(s, lv, b0 as int) + count_byte(
                s,
                lv,
                b0 as int,
            ));
            lemma_count_below_mono(s, lv, b0 + 1, 256);
            lemma_count_below_total(s, lv);
            lemma_filter_byte_take_succ(s, i as int, lv + 1, bn as int);
            assert(count_byte(s.take(i as int), lv + 1, bn as int) <= i as int) by {
                crate::scatter::lemma_count_byte_le_len(s.take(i as int), lv + 1, bn as int);
            }
        }
        let pos = prefix_sums[b0];
        let ghost dst_old = dst_bucket@;
        dst_bucket[pos] = x;
        prefix_sums[b0] = pos + 1;
        if odd {
            let t = nc1[bn];
            nc1[bn] = t + 1;
        } else {
            let t = nc0[bn];
            nc0[bn] = t + 1;
        }
        odd = !odd;
        proof {
            assert forall|b: int| 0 <= b < 256 implies dst_bucket@.subrange(
                count_below(s, lv, b) as int,
                count_below(s, lv, b) as int + count_byte(s.take(i + 1), lv, b) as int,
            ) == #[trigger] filter_byte(s.take(i + 1), lv, b) by {
                lemma_filter_byte_take_succ(s, i as int, lv, b);
                let lo = count_below(s, lv, b) as int;
                let cnt = count_byte(s.take(i as int), lv, b) as int;
                if b == b0 as int {
                    assert(dst_bucket@.subrange(lo, lo + cnt + 1) =~= dst_old.subrange(
                        lo,
                        lo + cnt,
                    ).push(x));
                } else {
                    if b < b0 as int {
                        lemma_count_below_mono(s, lv, b + 1, b0 as int);
                        lemma_count_byte_take_skip(s, i as int, lv, b);
                        assert(count_below(s, lv, b + 1) == count_below(s, lv, b) + count_byte(
                            s,
                            lv,
                            b,
                        ));
                    } else {
                        lemma_count_below_mono(s, lv, b0 + 1, b);
                        lemma_count_byte_take_skip(s, i as int, lv, b);
                        assert(count_below(s, lv, b + 1) == count_below(s, lv, b) + count_byte(
                            s,
                            lv,
                            b,
                        ));
                        lemma_count_below_mono(s, lv, b + 1, 256);
                    }
                    assert(dst_bucket@.subrange(lo, lo + cnt) =~= dst_old.subrange(lo, lo + cnt));
                }
            }
            assert forall|b: int| 0 <= b < 256 implies #[trigger] prefix_sums@[b] == count_below(
                s,
                lv,
                b,
            ) + count_byte(s.take(i + 1), lv, b) by {
                assert(count_byte(s.take(i as int), lv, b) >= 0);
                lemma_filter_byte_take_succ(s, i as int, lv, b);
            }
            assert forall|b: int| 0 <= b < 256 implies nc0@[b] + nc1@[b] == #[trigger] count_byte(
                s.take(i + 1),
                lv + 1,
                b,
            ) by {
                assert(count_byte(s.take(i as int), lv + 1, b) >= 0);
                lemma_filter_byte_take_succ(s, i as int, lv + 1, b);
            }
        }
        i = i + 1;
    }
    proof {
        assert(s.take(n as int) =~= s);
        assert forall|b: int| 0 <= b < 256 implies dst_bucket@.subrange(
            count_below(s, lv, b) as int,
            count_below(s, lv, b) as int + count_byte(s, lv, b) as int,
        ) == #[trigger] filter_byte(s, lv, b) by {
            assert(filter_byte(s.take(n as int), lv, b) == filter_byte(s, lv, b));
        }
        lemma_blocks_determine_scatter(s, dst_bucket@, lv);
    }
    let mut b: usize = 0;
    while b < 256
        invariant
            b <= 256,
            s == src_bucket@,
            lv == level as int,
            s.len() <= usize::MAX,
            nc0@.len() == 256,
            nc1@.len() == 256,
            forall|k: int|
                0 <= k < b ==> #[trigger] nc0@[k] as nat == count_byte(s, lv + 1, k),
            forall|k: int|
                b <= k < 256 ==> nc0@[k] + nc1@[k] == #[trigger] count_byte(s, lv + 1, k),
        decreases 256 - b,
    {
        proof {
            crate::scatter::lemma_count_byte_le_len(s, lv + 1, b as int);
        }
        let t = nc0[b];
        nc0[b] = t + nc1[b];
        b = b + 1;
    }
    nc0
}

} // verus!
