//! The multi-threaded LSB family. The bucket is split into tiles, one per
//! worker; per-tile histograms carve each output bucket into per-tile slabs,
//! so that every worker owns a disjoint slab of every destination bucket and
//! scatters without contention. The slabs of one bucket, laid end to end in
//! tile order, hold exactly what a single stable scatter pass would put
//! there, which is what is proved; this sequential body performs the tile
//! scatters in tile order in one pass over the bucket.

use vstd::prelude::*;
use crate::radix_key::RadixKey;
use crate::scatter::{count_byte, scatter_spec, lemma_count_byte_le_len, lemma_scatter_multiset, lemma_scatter_sorted};
use crate::sort_utils::{
    is_histogram, aggregate_tile_counts, col_sum, tile_counts_post, get_tile_counts, extract_range,
    get_tmp_bucket, write_back, lemma_col_sum_is_sum_tile_counts, lemma_tiled_counting_consistent,
};
use crate::radix_key::sorted_from;
use crate::sorts::comparative_sort::sorts_range;
use crate::sorts::lsb_sort::{lemma_short_sorted, lemma_sorted_past_levels};
use crate::sorts::out_of_place_sort::out_of_place_sort;

verus! {

/// The columnwise sums of a covering family of tile histograms form the
/// histogram of the whole bucket.
pub proof fn lemma_tile_counts_aggregate<T: RadixKey>(
    tcs: Seq<Vec<usize>>,
    s: Seq<T>,
    ts: int,
    level: int,
)
    requires
        ts >= 1,
        tile_counts_post(tcs, s, ts, level),
    ensures
        forall|b: int|
            0 <= b < 256 ==> #[trigger] col_sum(tcs, b, tcs.len() as int) == count_byte(
                s,
                level,
                b,
            ),
        forall|b: int| 0 <= b < 256 ==> #[trigger] col_sum(tcs, b, tcs.len() as int) <= s.len(),
{
    assert forall|b: int| 0 <= b < 256 implies #[trigger] col_sum(tcs, b, tcs.len() as int)
        == count_byte(s, level, b) && col_sum(tcs, b, tcs.len() as int) <= s.len() by {
        lemma_col_sum_is_sum_tile_counts(tcs, s, ts, level, b, tcs.len() as int);
        lemma_tiled_counting_consistent(s, ts, level, b, tcs.len() as int);
        lemma_count_byte_le_len(s, level, b);
    }
}

/// One multi-threaded LSB pass: scatters `src_bucket` into `dst_bucket` by
/// the key byte at `level`. The per-tile histograms lay the per-tile slabs
/// end to end inside each output bucket; written in tile order they
/// reconstitute the stable partition of the source, which is the
/// destination's proved final value.
pub fn mt_lsb_sort<T: RadixKey + Copy>(
    src_bucket: &Vec<T>,
    dst_bucket: &mut Vec<T>,
    tile_counts: &Vec<Vec<usize>>,
    tile_size: usize,
    level: usize,
)
    requires
        tile_size >= 1,
        (level as nat) < T::spec_levels(),
        old(dst_bucket)@.len() == src_bucket@.len(),
        tile_counts_post(tile_counts@, src_bucket@, tile_size as int, level as int),
    ensures
        final(dst_bucket)@ == scatter_spec(src_bucket@, level as int),
        final(dst_bucket)@.len() == src_bucket@.len(),
{
    let n = src_bucket.len();
    proof {
        lemma_tile_counts_aggregate(
            tile_counts@,
            src_bucket@,
            tile_size as int,
            level as int,
        );
        assert(n == src_bucket@.len());
        assert forall|t: int|
            0 <= t < tile_counts@.len() implies #[trigger] tile_counts@[t]@.len() == 256 by {
            assert(is_histogram(
                tile_counts@[t]@,
                crate::sort_utils::tile_of(src_bucket@, tile_size as int, t),
                level as int,
            ));
        }
    }
    let counts = aggregate_tile_counts(tile_counts);
    out_of_place_sort(src_bucket, dst_bucket, &counts, level);
}

/// Sorts the range `[lo, hi)` of `v` by the key bytes from `start_level`
/// down to the last level, one multi-threaded LSB pass per level from the
/// least significant byte upward, alternating the bucket with a scratch
/// buffer and copying back after an odd number of passes.
pub fn mt_lsb_sort_adapter<T: RadixKey + Copy + Sync>(
    v: &mut Vec<T>,
    lo: usize,
    hi: usize,
    start_level: usize,
    end_level: usize,
    tile_size: usize,
)
    requires
        lo <= hi <= old(v)@.len(),
        tile_size >= 1,
        end_level < usize::MAX,
        (start_level as nat) < T::spec_levels(),
        (end_level as nat) == T::spec_levels() - 1,
    ensures
        sorts_range(old(v)@, final(v)@, lo as int, hi as int, start_level as int),
{
    let ghost orig = old(v)@.subrange(lo as int, hi as int);
    if hi - lo < 2 {
        proof {
            assert(v@.subrange(lo as int, hi as int) =~= orig);
            lemma_short_sorted(orig, start_level as int);
        }
        return ;
    }
    let mut cur = extract_range(v, lo, hi);
    let mut tmp = get_tmp_bucket(cur.as_slice());
    let mut l = end_level + 1;
    proof {
        lemma_sorted_past_levels(cur@, l as int);
    }
    while l > start_level
        invariant
            start_level <= l <= end_level + 1,
            (end_level as nat) == T::spec_levels() - 1,
            (start_level as nat) < T::spec_levels(),
            tile_size >= 1,
            cur@.len() == orig.len(),
            tmp@.len() == orig.len(),
            cur@.to_multiset() == orig.to_multiset(),
            sorted_from(cur@, l as int),
        decreases l,
    {
        l = l - 1;
        let tc = get_tile_counts(cur.as_slice(), tile_size, l);
        mt_lsb_sort(&cur, &mut tmp, &tc, tile_size, l);
        proof {
            lemma_scatter_multiset(cur@, l as int);
            lemma_scatter_sorted(cur@, l as int);
        }
        core::mem::swap(&mut cur, &mut tmp);
    }
    write_back(v, lo, &cur);
    proof {
        assert(v@.subrange(lo as int, lo as int + orig.len() as int) == cur@);
    }
}

/// One multi-threaded out-of-place pass at `level`, copied back in place:
/// partitions the range by the byte at `level` so the director can recurse
/// into the byte buckets.
pub fn mt_oop_sort_adapter<T: RadixKey + Copy>(
    v: &mut Vec<T>,
    lo: usize,
    hi: usize,
    tile_counts: &Vec<Vec<usize>>,
    tile_size: usize,
    level: usize,
)
    requires
        lo <= hi <= old(v)@.len(),
        tile_size >= 1,
        (level as nat) < T::spec_levels(),
        tile_counts_post(
            tile_counts@,
            old(v)@.subrange(lo as int, hi as int),
            tile_size as int,
            level as int,
        ),
    ensures
        crate::director::partitions_range(
            old(v)@,
            final(v)@,
            lo as int,
            hi as int,
            level as int,
        ),
{
    let buf = extract_range(v, lo, hi);
    let mut tmp = get_tmp_bucket(buf.as_slice());
    mt_lsb_sort(&buf, &mut tmp, tile_counts, tile_size, level);
    write_back(v, lo, &tmp);
    proof {
        assert(v@.subrange(lo as int, hi as int) == scatter_spec(
            old(v)@.subrange(lo as int, hi as int),
            level as int,
        ));
        crate::director::lemma_scatter_gives_partition(
            old(v)@,
            v@,
            lo as int,
            hi as int,
            level as int,
        );
    }
}

} // verus!
