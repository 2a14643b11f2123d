//! The LR-LSB sort: a two-ended scatter pass. Each output bucket keeps a
//! left write head at its prefix-sum offset and a right write head at its
//! end offset; the first half of the source scatters forward onto the left
//! heads, the second half scatters backward onto the right heads, so each
//! bucket fills from both ends and the two heads meet exactly. The front
//! part keeps the first half's order and the back part the second half's,
//! which together is the stable partition of the whole source.

use vstd::prelude::*;
use crate::radix_key::RadixKey;
use crate::scatter::{
    count_byte, count_below, filter_byte, scatter_spec, lemma_filter_byte_take_succ,
    lemma_filter_byte_push, lemma_filter_byte_empty, lemma_count_below_mono,
    lemma_count_below_total, lemma_count_byte_take_skip, lemma_count_byte_concat,
    lemma_blocks_determine_scatter, lemma_scatter_multiset, lemma_scatter_sorted,
};
use crate::radix_key::sorted_from;
use crate::sort_utils::{
    is_histogram, sum_counts, get_prefix_sums, get_end_offsets, extract_range, get_tmp_bucket,
    write_back, lemma_count_byte_take_zero,
};
use crate::sorts::comparative_sort::sorts_range;
use crate::sorts::lsb_sort::{lemma_short_sorted, lemma_sorted_past_levels};
use crate::sorts::out_of_place_sort::lemma_histogram_sums_fit;

verus! {

/// Dropping the first element of a suffix removes it from the front of its
/// byte's bucket.
proof fn lemma_filter_byte_skip_pred<T: RadixKey>(s: Seq<T>, j: int, level: int, b: int)
    requires
        0 <= j < s.len(),
    ensures
        filter_byte(s.skip(j), level, b) == if s[j].key_byte(level) as int == b {
            Seq::empty().push(s[j]) + filter_byte(s.skip(j + 1), level, b)
        } else {
            filter_byte(s.skip(j + 1), level, b)
        },
{
    assert(s.skip(j) =~= Seq::empty().push(s[j]) + s.skip(j + 1));
    lemma_count_byte_concat(Seq::empty().push(s[j]), s.skip(j + 1), level, b);
    lemma_filter_byte_push(Seq::empty(), s[j], level, b);
    lemma_filter_byte_empty::<T>(level, b);
    if s[j].key_byte(level) as int == b {
        assert(filter_byte(Seq::empty().push(s[j]), level, b) == Seq::empty().push(s[j]));
    } else {
        assert(filter_byte(Seq::empty().push(s[j]), level, b) == Seq::<T>::empty());
        assert(filter_byte(s.skip(j), level, b) =~= filter_byte(s.skip(j + 1), level, b));
    }
}

/// A later suffix never holds more of a byte than an earlier one.
proof fn lemma_count_byte_skip_mono<T: RadixKey>(s: Seq<T>, j1: int, j2: int, level: int, b: int)
    requires
        0 <= j1 <= j2 <= s.len(),
    ensures
        count_byte(s.skip(j2), level, b) <= count_byte(s.skip(j1), level, b),
{
    assert(s.skip(j1) =~= s.skip(j1).take(j2 - j1) + s.skip(j2));
    lemma_count_byte_concat(s.skip(j1).take(j2 - j1), s.skip(j2), level, b);
}

/// One two-ended scatter pass: `src_bucket` scatters into `dst_bucket` by
/// the key byte at `level`, the front half forward onto the left heads and
/// the back half backward onto the right heads. The destination becomes the
/// stable partition of the source.
#[verifier::rlimit(60)]
pub fn lr_lsb_sort<T: RadixKey + Copy>(
    src_bucket: &Vec<T>,
    dst_bucket: &mut Vec<T>,
    counts: &Vec<usize>,
    level: usize,
)
    requires
        (level as nat) < T::spec_levels(),
        old(dst_bucket)@.len() == src_bucket@.len(),
        is_histogram(counts@, src_bucket@, level as int),
    ensures
        final(dst_bucket)@ == scatter_spec(src_bucket@, level as int),
        final(dst_bucket)@.len() == src_bucket@.len(),
{
    let ghost s = src_bucket@;
    let ghost lv = level as int;
    proof {
        lemma_histogram_sums_fit(counts@, s, lv);
        lemma_count_below_total(s, lv);
    }
    let n = src_bucket.len();
    let mut heads = get_prefix_sums(counts);
    let prefix = heads.clone();
    let mut tails = get_end_offsets(counts, &prefix);
    let half = n / 2;
    let mut i: usize = 0;
    proof {
        lemma_count_byte_take_zero(s, lv);
        assert forall|b: int| 0 <= b < 256 implies dst_bucket@.subrange(
            count_below(s, lv, b) as int,
            count_below(s, lv, b) as int + count_byte(s.take(0), lv, b) as int,
        ) =~= #[trigger] filter_byte(s.take(0), lv, b) by {
            assert(s.take(0) =~= Seq::<T>::empty());
            lemma_filter_byte_empty::<T>(lv, b);
            lemma_count_below_mono(s, lv, b, 256);
        }
    }
    while i < half
        invariant
            i <= half <= n,
            n == s.len(),
            s == src_bucket@,
            lv == level as int,
            (level as nat) < T::spec_levels(),
            count_below(s, lv, 256) == n,
            dst_bucket@.len() == n,
            heads@.len() == 256,
            forall|b: int|
                0 <= b < 256 ==> #[trigger] heads@[b] == count_below(s, lv, b) + count_byte(
                    s.take(i as int),
                    lv,
                    b,
                ),
            forall|b: int|
                0 <= b < 256 ==> dst_bucket@.subrange(
                    count_below(s, lv, b) as int,
                    count_below(s, lv, b) as int + count_byte(s.take(i as int), lv, b) as int,
                ) == #[trigger] filter_byte(s.take(i as int), lv, b),
        decreases half - i,
    {
        let x = src_bucket[i];
        let b0 = x.get_level(level) as usize;
        proof {
            lemma_filter_byte_take_succ(s, i as int, lv, b0 as int);
            lemma_count_byte_take_skip(s, i + 1, lv, b0 as int);
            assert(count_below(s, lv, b0 + 1) == count_below(s, lv, b0 as int) + count_byte(
                s,
                lv,
                b0 as int,
            ));
            lemma_count_below_mono(s, lv, b0 + 1, 256);
        }
        let pos = heads[b0];
        let ghost dst_old = dst_bucket@;
        dst_bucket[pos] = x;
        heads[b0] = pos + 1;
        proof {
            assert forall|b: int| 0 <= b < 256 implies dst_bucket@.subrange(
                count_below(s, lv, b) as int,
                count_below(s, lv, b) as int + count_byte(s.take(i + 1), lv, b) as int,
            ) == #[trigger] filter_byte(s.take(i + 1), lv, b) by {
                lemma_filter_byte_take_succ(s, i as int, lv, b);
                let lo = count_below(s, lv, b) as int;
                let cnt = count_byte(s.take(i as int), lv, b) as int;
                if b == b0 as int {
                    assert(dst_bucket@.subrange(lo, lo + cnt + 1) =~= dst_old.subrange(
                        lo,
                        lo + cnt,
                    ).push(x));
                } else {
                    lemma_count_byte_take_skip(s, i as int, lv, b);
                    assert(count_below(s, lv, b + 1) == count_below(s, lv, b) + count_byte(
                        s,
                        lv,
                        b,
                    ));
                    if b < b0 as int {
                        lemma_count_below_mono(s, lv, b + 1, b0 as int);
                    } else {
                        lemma_count_below_mono(s, lv, b0 + 1, b);
                        lemma_count_below_mono(s, lv, b + 1, 256);
                    }
                    assert(dst_bucket@.subrange(lo, lo + cnt) =~= dst_old.subrange(lo, lo + cnt));
                }
            }
            assert forall|b: int| 0 <= b < 256 implies #[trigger] heads@[b] == count_below(
                s,
                lv,
                b,
            ) + count_byte(s.take(i + 1), lv, b) by {
                assert(count_byte(s.take(i as int), lv, b) >= 0);
                lemma_filter_byte_take_succ(s, i as int, lv, b);
            }
        }
        i = i + 1;
    }
    let mut j: usize = n;
    proof {
        assert(s.skip(n as int) =~= Seq::<T>::empty());
        assert forall|b: int| 0 <= b < 256 implies count_byte(s.skip(n as int), lv, b) == 0
            && dst_bucket@.subrange(
            count_below(s, lv, b + 1) as int - count_byte(s.skip(n as int), lv, b) as int,
            count_below(s, lv, b + 1) as int,
        ) =~= #[trigger] filter_byte(s.skip(n as int), lv, b) by {
            lemma_filter_byte_empty::<T>(lv, b);
            lemma_count_below_mono(s, lv, b + 1, 256);
        }
    }
    while j > half
        invariant
            half <= j <= n,
            n == s.len(),
            s == src_bucket@,
            lv == level as int,
            (level as nat) < T::spec_levels(),
            count_below(s, lv, 256) == n,
            dst_bucket@.len() == n,
            tails@.len() == 256,
            forall|b: int|
                0 <= b < 256 ==> #[trigger] tails@[b] == count_below(s, lv, b + 1) - count_byte(
                    s.skip(j as int),
                    lv,
                    b,
                ),
            forall|b: int|
                0 <= b < 256 ==> dst_bucket@.subrange(
                    count_below(s, lv, b) as int,
                    count_below(s, lv, b) as int + count_byte(s.take(half as int), lv, b) as int,
                ) == #[trigger] filter_byte(s.take(half as int), lv, b),
            forall|b: int|
                0 <= b < 256 ==> dst_bucket@.subrange(
                    count_below(s, lv, b + 1) as int - count_byte(s.skip(j as int), lv, b) as int,
                    count_below(s, lv, b + 1) as int,
                ) == #[trigger] filter_byte(s.skip(j as int), lv, b),
        decreases j,
    {
        let x = src_bucket[j - 1];
        let b0 = x.get_level(level) as usize;
        proof {
            lemma_filter_byte_skip_pred(s, j - 1, lv, b0 as int);
            lemma_count_byte_take_skip(s, j - 1, lv, b0 as int);
            lemma_count_byte_skip_mono(s, half as int, j - 1, lv, b0 as int);
            assert(count_below(s, lv, b0 + 1) == count_below(s, lv, b0 as int) + count_byte(
                s,
                lv,
                b0 as int,
            ));
            lemma_count_below_mono(s, lv, b0 + 1, 256);
            // the back block never reaches into the frozen front block
            assert(count_byte(s.take(half as int), lv, b0 as int) + count_byte(
                s.skip(j - 1),
                lv,
                b0 as int,
            ) <= count_byte(s, lv, b0 as int)) by {
                lemma_count_byte_take_skip(s, half as int, lv, b0 as int);
            }
        }
        let pos = tails[b0] - 1;
        let ghost dst_old = dst_bucket@;
        dst_bucket[pos] = x;
        tails[b0] = pos;
        j = j - 1;
        proof {
            assert forall|b: int| 0 <= b < 256 implies dst_bucket@.subrange(
                count_below(s, lv, b + 1) as int - count_byte(s.skip(j as int), lv, b) as int,
                count_below(s, lv, b + 1) as int,
            ) == #[trigger] filter_byte(s.skip(j as int), lv, b) by {
                lemma_filter_byte_skip_pred(s, j as int, lv, b);
                assert(count_below(s, lv, b + 1) == count_below(s, lv, b) + count_byte(
                    s,
                    lv,
                    b,
                ));
                lemma_count_below_mono(s, lv, b + 1, 256);
                lemma_count_byte_take_skip(s, j as int, lv, b);
                let hi2 = count_below(s, lv, b + 1) as int;
                let cnt = count_byte(s.skip(j + 1), lv, b) as int;
                if b == b0 as int {
                    assert(dst_bucket@.subrange(hi2 - cnt - 1, hi2) =~= Seq::empty().push(x)
                        + dst_old.subrange(hi2 - cnt, hi2));
                } else {
                    if b < b0 as int {
                        lemma_count_below_mono(s, lv, b + 1, b0 as int);
                    } else {
                        lemma_count_below_mono(s, lv, b0 + 1, b);
                    }
                    assert(count_byte(s.skip(j as int), lv, b) == cnt);
                    assert(dst_bucket@.subrange(hi2 - cnt, hi2) =~= dst_old.subrange(
                        hi2 - cnt,
                        hi2,
                    ));
                }
            }
            assert forall|b: int| 0 <= b < 256 implies #[trigger] tails@[b] == count_below(
                s,
                lv,
                b + 1,
            ) - count_byte(s.skip(j as int), lv, b) by {
                lemma_filter_byte_skip_pred(s, j as int, lv, b);
                assert(count_byte(s.skip(j + 1), lv, b) >= 0);
            }
            assert forall|b: int| 0 <= b < 256 implies dst_bucket@.subrange(
                count_below(s, lv, b) as int,
                count_below(s, lv, b) as int + count_byte(s.take(half as int), lv, b) as int,
            ) == #[trigger] filter_byte(s.take(half as int), lv, b) by {
                assert(count_below(s, lv, b + 1) == count_below(s, lv, b) + count_byte(
                    s,
                    lv,
                    b,
                ));
                lemma_count_below_mono(s, lv, b + 1, 256);
                lemma_count_byte_take_skip(s, half as int, lv, b);
                let lo2 = count_below(s, lv, b) as int;
                let cnt2 = count_byte(s.take(half as int), lv, b) as int;
                if b != b0 as int {
                    if b < b0 as int {
                        lemma_count_below_mono(s, lv, b + 1, b0 as int);
                    } else {
                        lemma_count_below_mono(s, lv, b0 + 1, b);
                    }
                }
                assert(dst_bucket@.subrange(lo2, lo2 + cnt2) =~= dst_old.subrange(
                    lo2,
                    lo2 + cnt2,
                ));
            }
        }
    }
    proof {
        assert forall|b: int| 0 <= b < 256 implies dst_bucket@.subrange(
            count_below(s, lv, b) as int,
            count_below(s, lv, b) as int + count_byte(s, lv, b) as int,
        ) == #[trigger] filter_byte(s, lv, b) by {
            lemma_count_byte_take_skip(s, half as int, lv, b);
            assert(count_below(s, lv, b + 1) == count_below(s, lv, b) + count_byte(s, lv, b));
            lemma_count_below_mono(s, lv, b + 1, 256);
            let lo2 = count_below(s, lv, b) as int;
            let cfront = count_byte(s.take(half as int), lv, b) as int;
            let cback = count_byte(s.skip(half as int), lv, b) as int;
            assert(dst_bucket@.subrange(lo2, lo2 + cfront) == filter_byte(
                s.take(half as int),
                lv,
                b,
            ));
            assert(dst_bucket@.subrange(lo2 + cfront, lo2 + cfront + cback) == filter_byte(
                s.skip(half as int),
                lv,
                b,
            ));
            assert(dst_bucket@.subrange(lo2, lo2 + cfront + cback) =~= dst_bucket@.subrange(
                lo2,
                lo2 + cfront,
            ) + dst_bucket@.subrange(lo2 + cfront, lo2 + cfront + cback));
        }
        lemma_blocks_determine_scatter(s, dst_bucket@, lv);
    }
}

/// Sorts the range `[lo, hi)` of `v` by the key bytes from `start_level`
/// down, one two-ended scatter pass per level from the least significant
/// byte upward, alternating the bucket with a scratch buffer.
pub fn lr_lsb_sort_adapter<T: RadixKey + Copy>(
    v: &mut Vec<T>,
    lo: usize,
    hi: usize,
    start_level: usize,
)
    requires
        lo <= hi <= old(v)@.len(),
        (start_level as nat) < T::spec_levels(),
    ensures
        sorts_range(old(v)@, final(v)@, lo as int, hi as int, start_level as int),
{
    let ghost orig = old(v)@.subrange(lo as int, hi as int);
    if hi - lo < 2 {
        proof {
            assert(v@.subrange(lo as int, hi as int) =~= orig);
            lemma_short_sorted(orig, start_level as int);
        }
        return ;
    }
    let mut cur = extract_range(v, lo, hi);
    let mut tmp = get_tmp_bucket(cur.as_slice());
    let total = T::levels();
    let mut l = total;
    proof {
        lemma_sorted_past_levels(cur@, total as int);
    }
    while l > start_level
        invariant
            start_level <= l <= total,
            total as nat == T::spec_levels(),
            (start_level as nat) < T::spec_levels(),
            cur@.len() == orig.len(),
            tmp@.len() == orig.len(),
            cur@.to_multiset() == orig.to_multiset(),
            sorted_from(cur@, l as int),
        decreases l,
    {
        l = l - 1;
        let counts = crate::sort_utils::get_counts(cur.as_slice(), l);
        lr_lsb_sort(&cur, &mut tmp, &counts, l);
        proof {
            lemma_scatter_multiset(cur@, l as int);
            lemma_scatter_sorted(cur@, l as int);
        }
        core::mem::swap(&mut cur, &mut tmp);
    }
    write_back(v, lo, &cur);
    proof {
        assert(v@.subrange(lo as int, lo as int + orig.len() as int) == cur@);
    }
}

} // verus!
