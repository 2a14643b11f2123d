//! Counting utilities: histograms over a bucket's key bytes, their prefix
//! sums and end offsets, tiled counting, and the homogeneity test.

use vstd::prelude::*;
use rayon::prelude::{ParallelSlice, ParallelIterator};
use crate::radix_key::RadixKey;
use crate::scatter::{
    byte_pred, count_byte, count_below, lemma_filter_byte_take_succ, lemma_filter_byte_empty,
    lemma_count_byte_le_len,
};

verus! {

/// `c` is the 256-bin histogram of the key bytes of `s` at `level`.
pub open spec fn is_histogram<T: RadixKey>(c: Seq<usize>, s: Seq<T>, level: int) -> bool {
    c.len() == 256 && forall|b: int|
        0 <= b < 256 ==> #[trigger] c[b] as nat == count_byte(s, level, b)
}

/// The sum of the first `k` entries of a sequence of counts.
pub open spec fn sum_counts(c: Seq<usize>, k: int) -> int
    decreases k,
{
    if k <= 0 {
        0
    } else {
        sum_counts(c, k - 1) + c[k - 1]
    }
}

/// The empty prefix has an all-zero histogram.
pub proof fn lemma_count_byte_take_zero<T: RadixKey>(s: Seq<T>, level: int)
    ensures
        forall|b: int| #[trigger] count_byte(s.take(0), level, b) == 0,
{
    assert forall|b: int| #[trigger] count_byte(s.take(0), level, b) == 0 by {
        assert(s.take(0) =~= Seq::<T>::empty());
        lemma_filter_byte_empty::<T>(level, b);
    }
}

/// On a histogram of `s`, the running sums of the counts are the partition's
/// bucket offsets.
pub proof fn lemma_sum_counts_is_count_below<T: RadixKey>(
    c: Seq<usize>,
    s: Seq<T>,
    level: int,
    b: int,
)
    requires
        is_histogram(c, s, level),
        0 <= b <= 256,
    ensures
        sum_counts(c, b) == count_below(s, level, b),
    decreases b,
{
    if b > 0 {
        lemma_sum_counts_is_count_below(c, s, level, b - 1);
    }
}

/// A fresh vector of 256 zero counts.
fn zero_counts() -> (r: Vec<usize>)
    ensures
        r@.len() == 256,
        forall|b: int| 0 <= b < 256 ==> #[trigger] r@[b] == 0,
{
    let r: Vec<usize> = vec![0usize; 256];
    assert(forall|b: int| 0 <= b < 256 ==> #[trigger] r@[b] == 0);
    r
}

/// Computes the 256-bin histogram of the key bytes of `bucket` at `level`.
///
/// The inner loop is unrolled four ways over four independent accumulator
/// arrays, merged at the end, so that repeated increments of one bin do not
/// serialize on store-to-load forwarding.
pub fn get_counts<T: RadixKey>(bucket: &[T], level: usize) -> (r: Vec<usize>)
    requires
        (level as nat) < T::spec_levels(),
    ensures
        is_histogram(r@, bucket@, level as int),
{
    let n = bucket.len();
    let mut c1 = zero_counts();
    let mut c2 = zero_counts();
    let mut c3 = zero_counts();
    let mut c4 = zero_counts();
    let mut i: usize = 0;

    proof {
        lemma_count_byte_take_zero(bucket@, level as int);
    }

    while n - i >= 4
        invariant
            i <= n,
            n == bucket@.len(),
            (level as nat) < T::spec_levels(),
            c1@.len() == 256,
            c2@.len() == 256,
            c3@.len() == 256,
            c4@.len() == 256,
            forall|b: int|
                0 <= b < 256 ==> c1@[b] + c2@[b] + c3@[b] + c4@[b] == #[trigger] count_byte(
                    bucket@.take(i as int),
                    level as int,
                    b,
                ),
        decreases n - i,
    {
        let b1 = bucket[i].get_level(level) as usize;
        let b2 = bucket[i + 1].get_level(level) as usize;
        let b3 = bucket[i + 2].get_level(level) as usize;
        let b4 = bucket[i + 3].get_level(level) as usize;

        proof {
            assert forall|b: int| 0 <= b < 256 implies #[trigger] count_byte(
                bucket@.take(i as int),
                level as int,
                b,
            ) <= i as int by {
                lemma_count_byte_le_len(bucket@.take(i as int), level as int, b);
            }
            assert(count_byte(bucket@.take(i as int), level as int, b1 as int) <= i as int);
            assert(count_byte(bucket@.take(i as int), level as int, b2 as int) <= i as int);
            assert(count_byte(bucket@.take(i as int), level as int, b3 as int) <= i as int);
            assert(count_byte(bucket@.take(i as int), level as int, b4 as int) <= i as int);
        }

        let t1 = c1[b1];
        c1[b1] = t1 + 1;
        let t2 = c2[b2];
        c2[b2] = t2 + 1;
        let t3 = c3[b3];
        c3[b3] = t3 + 1;
        let t4 = c4[b4];
        c4[b4] = t4 + 1;

        proof {
            assert forall|b: int| 0 <= b < 256 implies c1@[b] + c2@[b] + c3@[b] + c4@[b]
                == #[trigger] count_byte(bucket@.take(i + 4), level as int, b) by {
                assert(count_byte(bucket@.take(i as int), level as int, b) >= 0);
                lemma_filter_byte_take_succ(bucket@, i as int, level as int, b);
                lemma_filter_byte_take_succ(bucket@, i + 1, level as int, b);
                lemma_filter_byte_take_succ(bucket@, i + 2, level as int, b);
                lemma_filter_byte_take_succ(bucket@, i + 3, level as int, b);
                assert(count_byte(bucket@.take(i + 1), level as int, b) >= 0);
                assert(count_byte(bucket@.take(i + 2), level as int, b) >= 0);
                assert(count_byte(bucket@.take(i + 3), level as int, b) >= 0);
            }
        }

        i = i + 4;
    }

    while i < n
        invariant
            i <= n,
            n == bucket@.len(),
            (level as nat) < T::spec_levels(),
            c1@.len() == 256,
            c2@.len() == 256,
            c3@.len() == 256,
            c4@.len() == 256,
            forall|b: int|
                0 <= b < 256 ==> c1@[b] + c2@[b] + c3@[b] + c4@[b] == #[trigger] count_byte(
                    bucket@.take(i as int),
                    level as int,
                    b,
                ),
        decreases n - i,
    {
        let b1 = bucket[i].get_level(level) as usize;
        proof {
            lemma_count_byte_le_len(bucket@.take(i as int), level as int, b1 as int);
            assert(bucket@.take(i as int).len() == i as int);
        }
        let t1 = c1[b1];
        c1[b1] = t1 + 1;
        proof {
            assert forall|b: int| 0 <= b < 256 implies c1@[b] + c2@[b] + c3@[b] + c4@[b]
                == #[trigger] count_byte(bucket@.take(i + 1), level as int, b) by {
                assert(count_byte(bucket@.take(i as int), level as int, b) >= 0);
                lemma_filter_byte_take_succ(bucket@, i as int, level as int, b);
            }
        }
        i = i + 1;
    }

    proof {
        assert(bucket@.take(n as int) =~= bucket@);
    }

    let mut b: usize = 0;
    while b < 256
        invariant
            b <= 256,
            bucket@.len() <= usize::MAX,
            c1@.len() == 256,
            c2@.len() == 256,
            c3@.len() == 256,
            c4@.len() == 256,
            forall|k: int|
                0 <= k < b ==> #[trigger] c1@[k] as nat == count_byte(bucket@, level as int, k),
            forall|k: int|
                b <= k < 256 ==> c1@[k] + c2@[k] + c3@[k] + c4@[k] == #[trigger] count_byte(
                    bucket@,
                    level as int,
                    k,
                ),
        decreases 256 - b,
    {
        proof {
            lemma_count_byte_le_len(bucket@, level as int, b as int);
        }
        let t = c1[b] + c2[b] + c3[b];
        c1[b] = t + c4[b];
        b = b + 1;
    }

        c1
}

/// Computes the running prefix sums of a 256-bin histogram: entry `i` is the
/// sum of the counts below `i`, the offset where output bucket `i` begins.
pub fn get_prefix_sums(counts: &Vec<usize>) -> (r: Vec<usize>)
    requires
        counts@.len() == 256,
        sum_counts(counts@, 256) <= usize::MAX,
    ensures
        r@.len() == 256,
        forall|k: int| 0 <= k < 256 ==> #[trigger] r@[k] == sum_counts(counts@, k),
{
    let mut sums: Vec<usize> = Vec::with_capacity(256);
    let mut running_total: usize = 0;
    let mut i: usize = 0;
    while i < 256
        invariant
            i <= 256,
            counts@.len() == 256,
            sum_counts(counts@, 256) <= usize::MAX,
            sums@.len() == i as int,
            running_total == sum_counts(counts@, i as int),
            forall|k: int| 0 <= k < i ==> #[trigger] sums@[k] == sum_counts(counts@, k),
        decreases 256 - i,
    {
        proof {
            lemma_sum_counts_mono(counts@, i + 1, 256);
        }
        sums.push(running_total);
        running_total = running_total + counts[i];
        i = i + 1;
    }
    sums
}

/// Partial sums of nonnegative counts are monotone.
pub proof fn lemma_sum_counts_mono(c: Seq<usize>, k1: int, k2: int)
    requires
        k1 <= k2,
    ensures
        sum_counts(c, k1) <= sum_counts(c, k2),
    decreases k2 - k1,
{
    if k1 < k2 {
        lemma_sum_counts_mono(c, k1, k2 - 1);
    }
}

/// Computes the end offsets of the 256 output buckets: entry `i` is where
/// bucket `i` ends, the prefix sum of all counts through `i`.
pub fn get_end_offsets(counts: &Vec<usize>, prefix_sums: &Vec<usize>) -> (r: Vec<usize>)
    requires
        counts@.len() == 256,
        prefix_sums@.len() == 256,
        sum_counts(counts@, 256) <= usize::MAX,
        forall|k: int| 0 <= k < 256 ==> #[trigger] prefix_sums@[k] == sum_counts(counts@, k),
    ensures
        r@.len() == 256,
        forall|k: int| 0 <= k < 256 ==> #[trigger] r@[k] == sum_counts(counts@, k + 1),
{
    let mut ends: Vec<usize> = Vec::with_capacity(256);
    let mut i: usize = 0;
    while i < 256
        invariant
            i <= 256,
            counts@.len() == 256,
            prefix_sums@.len() == 256,
            sum_counts(counts@, 256) <= usize::MAX,
            forall|k: int| 0 <= k < 256 ==> #[trigger] prefix_sums@[k] == sum_counts(counts@, k),
            ends@.len() == i as int,
            forall|k: int| 0 <= k < i ==> #[trigger] ends@[k] == sum_counts(counts@, k + 1),
        decreases 256 - i,
    {
        proof {
            lemma_sum_counts_mono(counts@, i + 1, 256);
        }
        ends.push(prefix_sums[i] + counts[i]);
        i = i + 1;
    }
    ends
}

/// True iff at most one of the 256 counts is nonzero: every element of the
/// counted bucket shares its byte, so a pass over it would move nothing.
pub fn is_homogenous_bucket(counts: &Vec<usize>) -> (r: bool)
    requires
        counts@.len() == 256,
    ensures
        r == forall|b1: int, b2: int|
            0 <= b1 < 256 && 0 <= b2 < 256 && #[trigger] counts@[b1] > 0 && #[trigger] counts@[b2]
                > 0 ==> b1 == b2,
{
    let mut seen = false;
    let ghost mut seen_at: int = 0;
    let mut i: usize = 0;
    while i < 256
        invariant
            i <= 256,
            counts@.len() == 256,
            !seen ==> forall|b: int| 0 <= b < i ==> #[trigger] counts@[b] == 0,
            seen ==> 0 <= seen_at < i && counts@[seen_at] > 0 && forall|b: int|
                0 <= b < i && b != seen_at ==> #[trigger] counts@[b] == 0,
        decreases 256 - i,
    {
        if counts[i] > 0 {
            if seen {
                return false;
            }
            seen = true;
            proof {
                seen_at = i as int;
            }
        }
        i = i + 1;
    }
    true
}

/// Division rounding upward.
pub fn cdiv(a: usize, b: usize) -> (r: usize)
    requires
        b > 0,
    ensures
        r as int == if a as int % b as int == 0 {
            a as int / b as int
        } else {
            a as int / b as int + 1
        },
        a >= 1 ==> r >= 1,
        r == 0 ==> a == 0,
{
    proof {
        vstd::arithmetic::div_mod::lemma_fundamental_div_mod(a as int, b as int);
        if a as int % b as int == 0 && a as int / b as int == 0 {
            assert((b as int) * (a as int / b as int) == 0) by (nonlinear_arith)
                requires
                    a as int / b as int == 0,
            ;
        }
    }
    let q = a / b;
    if a % b > 0 {
        proof {
            assert(b >= 2) by {
                if b == 1 {
                    assert(a as int % 1int == 0);
                }
            }
            vstd::arithmetic::div_mod::lemma_div_is_ordered_by_denominator(a as int, 2, b as int);
            vstd::arithmetic::div_mod::lemma_div_is_ordered(a as int, usize::MAX as int, 2);
        }
        q + 1
    } else {
        q
    }
}

/// Allocates the scratch buffer for one scatter pass: one slot per element of
/// the bucket. Every slot is overwritten before it is read, so the contents
/// start as a plain copy; uninitialized storage cannot be modeled.
pub fn get_tmp_bucket<T: RadixKey + Copy>(bucket: &[T]) -> (r: Vec<T>)
    ensures
        r@ == bucket@,
{
    let n = bucket.len();
    let mut tmp: Vec<T> = Vec::with_capacity(n);
    let mut i: usize = 0;
    while i < n
        invariant
            i <= n,
            n == bucket@.len(),
            tmp@ =~= bucket@.take(i as int),
        decreases n - i,
    {
        tmp.push(bucket[i]);
        proof {
            assert(tmp@ =~= bucket@.take(i + 1));
        }
        i = i + 1;
    }
    proof {
        assert(bucket@.take(n as int) =~= bucket@);
    }
    tmp
}

/// The bucket is split into tiles of `ts` contiguous elements; this is where
/// tile `t` ends (the last tile may be shorter).
pub open spec fn tile_end(len: int, ts: int, t: int) -> int {
    if (t + 1) * ts > len {
        len
    } else {
        (t + 1) * ts
    }
}

/// Tile `t` of `s` under tile size `ts`: one worker's contiguous share.
pub open spec fn tile_of<T: RadixKey>(s: Seq<T>, ts: int, t: int) -> Seq<T> {
    s.subrange(t * ts, tile_end(s.len() as int, ts, t))
}

/// The sum of bin `b` over the first `t` per-tile histograms of `s`.
pub open spec fn sum_tile_counts<T: RadixKey>(s: Seq<T>, ts: int, level: int, b: int, t: int) -> int
    decreases t,
{
    if t <= 0 {
        0
    } else {
        sum_tile_counts(s, ts, level, b, t - 1) + count_byte(tile_of(s, ts, t - 1), level, b)
    }
}

/// The sum of bin `b` over the first `t` histograms of a tile-count vector.
pub open spec fn col_sum(tcs: Seq<Vec<usize>>, b: int, t: int) -> int
    decreases t,
{
    if t <= 0 {
        0
    } else {
        col_sum(tcs, b, t - 1) + tcs[t - 1]@[b]
    }
}

/// Column sums of counts are monotone in the number of tiles taken.
pub proof fn lemma_col_sum_mono(tcs: Seq<Vec<usize>>, b: int, t1: int, t2: int)
    requires
        t1 <= t2,
    ensures
        col_sum(tcs, b, t1) <= col_sum(tcs, b, t2),
    decreases t2 - t1,
{
    if t1 < t2 {
        lemma_col_sum_mono(tcs, b, t1, t2 - 1);
    }
}

/// Tiled counting is consistent: the histogram bins of the tiles of `s`,
/// summed columnwise over all `nt` tiles, are the histogram bins of `s`.
pub proof fn lemma_tiled_counting_consistent<T: RadixKey>(
    s: Seq<T>,
    ts: int,
    level: int,
    b: int,
    nt: int,
)
    requires
        ts >= 1,
        0 <= nt,
        nt * ts >= s.len(),
        nt > 0 ==> (nt - 1) * ts < s.len(),
        nt == 0 ==> s.len() == 0,
    ensures
        sum_tile_counts(s, ts, level, b, nt) == count_byte(s, level, b),
{
    lemma_sum_tile_counts_prefix(s, ts, level, b, nt);
    assert(tile_end(s.len() as int, ts, nt - 1) == s.len()) by {
        if nt > 0 {
            assert(nt * ts == (nt - 1) * ts + ts) by (nonlinear_arith);
        }
    }
    if nt == 0 {
        assert(s.take(0) =~= s);
    } else {
        assert(s.take(s.len() as int) =~= s);
    }
}

/// The columnwise sum of the first `t` tile histograms counts the prefix of
/// `s` that those tiles cover.
proof fn lemma_sum_tile_counts_prefix<T: RadixKey>(s: Seq<T>, ts: int, level: int, b: int, t: int)
    requires
        ts >= 1,
        0 <= t,
        t == 0 || (t - 1) * ts < s.len(),
    ensures
        sum_tile_counts(s, ts, level, b, t) == count_byte(
            s.take(if t * ts > s.len() {
                s.len() as int
            } else {
                t * ts
            }),
            level,
            b,
        ),
    decreases t,
{
    if t == 0 {
        assert(s.take(0) =~= Seq::<T>::empty());
        lemma_filter_byte_empty::<T>(level, b);
    } else {
        assert((t - 1) * ts == t * ts - ts) by (nonlinear_arith);
        if t >= 2 {
            assert((t - 2) * ts <= (t - 1) * ts) by (nonlinear_arith)
                requires
                    ts >= 1,
                    t >= 2,
            ;
        }
        lemma_sum_tile_counts_prefix(s, ts, level, b, t - 1);
        let lo = (t - 1) * ts;
        let hi = tile_end(s.len() as int, ts, t - 1);
        let pre = s.take(lo);
        let tl = tile_of(s, ts, t - 1);
        assert(s.take(hi) =~= pre + tl);
        lemma_count_byte_split(pre, tl, level, b);
    }
}

/// A caller-visible restatement of `filter_distributes_over_add` on the byte
/// predicate: counting distributes over splitting a sequence in two.
pub proof fn lemma_count_byte_split<T: RadixKey>(a: Seq<T>, c: Seq<T>, level: int, b: int)
    ensures
        count_byte(a + c, level, b) == count_byte(a, level, b) + count_byte(c, level, b),
{
    Seq::<T>::filter_distributes_over_add(a, c, byte_pred(level, b));
}

/// Computes one histogram per tile of `ts` contiguous elements, serially.
fn tile_counts_serial<T: RadixKey>(bucket: &[T], tile_size: usize, level: usize) -> (r: Vec<
    Vec<usize>,
>)
    requires
        tile_size >= 1,
        (level as nat) < T::spec_levels(),
    ensures
        tile_counts_post(r@, bucket@, tile_size as int, level as int),
{
    let n = bucket.len();
    let mut out: Vec<Vec<usize>> = Vec::new();
    let mut start: usize = 0;
    let ghost mut t: int = 0;
    while start < n
        invariant
            tile_size >= 1,
            (level as nat) < T::spec_levels(),
            n == bucket@.len(),
            start <= n,
            0 <= t == out@.len(),
            start < n ==> start == t * tile_size,
            start >= n ==> t * tile_size >= n,
            t > 0 ==> (t - 1) * tile_size < n,
            t == 0 ==> start == 0,
            forall|k: int|
                0 <= k < t ==> crate::sort_utils::is_histogram(
                    #[trigger] out@[k]@,
                    tile_of(bucket@, tile_size as int, k),
                    level as int,
                ),
        decreases n - start,
    {
        let end = if n - start < tile_size {
            n
        } else {
            start + tile_size
        };
        proof {
            assert((t + 1) * tile_size == t * tile_size + tile_size) by (nonlinear_arith);
            assert(end as int == tile_end(n as int, tile_size as int, t));
        }
        let counts = get_counts(&bucket[start..end], level);
        proof {
            assert(bucket@.subrange(start as int, end as int) == tile_of(
                bucket@,
                tile_size as int,
                t,
            ));
        }
        out.push(counts);
        start = end;
        proof {
            t = t + 1;
        }
    }
    proof {
        assert(t * tile_size >= n);
    }
    out
}

/// What tiled counting returns: one histogram per tile, exactly enough tiles
/// to cover the bucket.
pub open spec fn tile_counts_post<T: RadixKey>(
    r: Seq<Vec<usize>>,
    s: Seq<T>,
    ts: int,
    level: int,
) -> bool {
    &&& r.len() * ts >= s.len()
    &&& r.len() > 0 ==> (r.len() - 1) * ts < s.len()
    &&& r.len() == 0 ==> s.len() == 0
    &&& forall|t: int|
        0 <= t < r.len() ==> is_histogram(#[trigger] r[t]@, tile_of(s, ts, t), level)
}

/// Relies on rayon's `par_chunks`: it yields contiguous, non-overlapping
/// chunks of `tile_size` elements in order, the last one shorter, together
/// covering the slice; each chunk's histogram is computed by the verified
/// serial counter, and `map` preserves the order.
#[verifier::external_body]
fn par_tile_counts<T: RadixKey + Sync>(bucket: &[T], tile_size: usize, level: usize) -> (r: Vec<
    Vec<usize>,
>)
    requires
        tile_size >= 1,
        (level as nat) < T::spec_levels(),
    ensures
        tile_counts_post(r@, bucket@, tile_size as int, level as int),
{
    bucket.par_chunks(tile_size).map(|chunk: &[T]| get_counts(chunk, level)).collect()
}

/// Computes one histogram per tile of `ts` contiguous elements, in parallel
/// across the worker pool for large buckets.
pub fn get_tile_counts<T: RadixKey + Sync>(bucket: &[T], tile_size: usize, level: usize) -> (r: Vec<
    Vec<usize>,
>)
    requires
        tile_size >= 1,
        (level as nat) < T::spec_levels(),
    ensures
        tile_counts_post(r@, bucket@, tile_size as int, level as int),
{
    if bucket.len() >= 400000 {
        par_tile_counts(bucket, tile_size, level)
    } else {
        tile_counts_serial(bucket, tile_size, level)
    }
}

/// Sums a vector of per-tile histograms columnwise into one histogram.
pub fn aggregate_tile_counts(tile_counts: &Vec<Vec<usize>>) -> (r: Vec<usize>)
    requires
        forall|t: int| 0 <= t < tile_counts@.len() ==> #[trigger] tile_counts@[t]@.len() == 256,
        forall|b: int|
            0 <= b < 256 ==> col_sum(tile_counts@, b, tile_counts@.len() as int) <= usize::MAX,
    ensures
        r@.len() == 256,
        forall|b: int|
            0 <= b < 256 ==> #[trigger] r@[b] == col_sum(tile_counts@, b, tile_counts@.len() as int),
{
    let nt = tile_counts.len();
    let mut out = zero_counts();
    let mut t: usize = 0;
    while t < nt
        invariant
            t <= nt,
            nt == tile_counts@.len(),
            out@.len() == 256,
            forall|k: int| 0 <= k < tile_counts@.len() ==> #[trigger] tile_counts@[k]@.len() == 256,
            forall|b: int| 0 <= b < 256 ==> col_sum(tile_counts@, b, nt as int) <= usize::MAX,
            forall|b: int| 0 <= b < 256 ==> #[trigger] out@[b] == col_sum(tile_counts@, b, t as int),
        decreases nt - t,
    {
        let mut b: usize = 0;
        while b < 256
            invariant
                t < nt,
                b <= 256,
                nt == tile_counts@.len(),
                out@.len() == 256,
                forall|k: int|
                    0 <= k < tile_counts@.len() ==> #[trigger] tile_counts@[k]@.len() == 256,
                forall|k: int| 0 <= k < 256 ==> col_sum(tile_counts@, k, nt as int) <= usize::MAX,
                forall|k: int|
                    0 <= k < b ==> #[trigger] out@[k] == col_sum(tile_counts@, k, t + 1),
                forall|k: int|
                    b <= k < 256 ==> #[trigger] out@[k] == col_sum(tile_counts@, k, t as int),
            decreases 256 - b,
        {
            proof {
                lemma_col_sum_mono(tile_counts@, b as int, t + 1, nt as int);
            }
            let cur = out[b];
            out[b] = cur + tile_counts[t][b];
            b = b + 1;
        }
        t = t + 1;
    }
    out
}

/// Computes the histogram of a large bucket by counting `threads * 8` tiles
/// on the worker pool and summing them columnwise; small buckets are counted
/// serially. The output is the same histogram either way.
pub fn par_get_counts<T: RadixKey + Sync>(bucket: &[T], level: usize) -> (r: Vec<usize>)
    requires
        (level as nat) < T::spec_levels(),
    ensures
        is_histogram(r@, bucket@, level as int),
{
    let n = bucket.len();
    if n < 400000 {
        return get_counts(bucket, level);
    }
    let threads = thread_count();
    let chunk_size = n / threads / 8 + 1;
    let tiles = get_tile_counts(bucket, chunk_size, level);
    proof {
        let ts = chunk_size as int;
        let nt = tiles@.len() as int;
        assert forall|b: int| 0 <= b < 256 implies col_sum(tiles@, b, nt) == count_byte(
            bucket@,
            level as int,
            b,
        ) by {
            lemma_col_sum_is_sum_tile_counts(tiles@, bucket@, ts, level as int, b, nt);
            lemma_tiled_counting_consistent(bucket@, ts, level as int, b, nt);
        }
        assert forall|b: int| 0 <= b < 256 implies col_sum(tiles@, b, nt) <= usize::MAX by {
            lemma_count_byte_le_len(bucket@, level as int, b);
        }
    }
    aggregate_tile_counts(&tiles)
}

/// When each histogram in `tcs` counts the matching tile of `s`, the column
/// sums are the tile-count sums.
pub proof fn lemma_col_sum_is_sum_tile_counts<T: RadixKey>(
    tcs: Seq<Vec<usize>>,
    s: Seq<T>,
    ts: int,
    level: int,
    b: int,
    t: int,
)
    requires
        0 <= b < 256,
        0 <= t <= tcs.len(),
        forall|k: int| 0 <= k < tcs.len() ==> is_histogram(#[trigger] tcs[k]@, tile_of(s, ts, k), level),
    ensures
        col_sum(tcs, b, t) == sum_tile_counts(s, ts, level, b, t),
    decreases t,
{
    if t > 0 {
        lemma_col_sum_is_sum_tile_counts(tcs, s, ts, level, b, t - 1);
    }
}

/// Relies on num_cpus::get: the number of logical cores, documented to be at
/// least one.
#[verifier::external_body]
pub fn thread_count() -> (r: usize)
    ensures
        r >= 1,
{
    num_cpus::get()
}

/// Copies the range `[lo, hi)` of `v` into a fresh bucket.
pub fn extract_range<T: RadixKey + Copy>(v: &Vec<T>, lo: usize, hi: usize) -> (r: Vec<T>)
    requires
        lo <= hi <= v@.len(),
    ensures
        r@ == v@.subrange(lo as int, hi as int),
{
    let s = v.as_slice();
    get_tmp_bucket(&s[lo..hi])
}

/// Writes `buf` over the range of `v` that begins at `lo`, leaving the rest
/// of `v` as it was.
pub fn write_back<T: RadixKey + Copy>(v: &mut Vec<T>, lo: usize, buf: &Vec<T>)
    requires
        lo + buf@.len() <= old(v)@.len(),
    ensures
        final(v)@.len() == old(v)@.len(),
        final(v)@.subrange(lo as int, lo as int + buf@.len() as int) == buf@,
        forall|k: int|
            0 <= k < old(v)@.len() && !(lo as int <= k < lo as int + buf@.len() as int)
                ==> final(v)@[k] == old(v)@[k],
{
    let m = buf.len();
    let vn = v.len();
    let mut i: usize = 0;
    while i < m
        invariant
            i <= m,
            m == buf@.len(),
            vn == v@.len(),
            lo + m <= v@.len(),
            v@.len() == old(v)@.len(),
            forall|k: int| 0 <= k < i ==> #[trigger] v@[lo as int + k] == buf@[k],
            forall|k: int|
                0 <= k < v@.len() && !(lo as int <= k < lo as int + i as int) ==> #[trigger] v@[k]
                    == old(v)@[k],
        decreases m - i,
    {
        v[lo + i] = buf[i];
        i = i + 1;
    }
    proof {
        let sub = v@.subrange(lo as int, lo as int + m as int);
        assert forall|k: int| 0 <= k < m implies sub[k] == buf@[k] by {
            assert(v@[lo as int + k] == buf@[k]);
        }
        assert(sub =~= buf@);
    }
}

/// Exchanges the elements of `v` at `a` and `b`.
pub fn vec_swap<T: RadixKey + Copy>(v: &mut Vec<T>, a: usize, b: usize)
    requires
        a < old(v)@.len(),
        b < old(v)@.len(),
    ensures
        final(v)@ == old(v)@.update(a as int, old(v)@[b as int]).update(
            b as int,
            old(v)@[a as int],
        ),
        final(v)@.len() == old(v)@.len(),
        final(v)@.to_multiset() == old(v)@.to_multiset(),
{
    let x = v[a];
    let y = v[b];
    v[a] = y;
    v[b] = x;
    proof {
        lemma_swap_multiset(old(v)@, a as int, b as int);
        assert(v@ =~= old(v)@.update(a as int, old(v)@[b as int]).update(
            b as int,
            old(v)@[a as int],
        ));
    }
}

/// Exchanging two elements of a sequence keeps its multiset.
pub proof fn lemma_swap_multiset<T>(s: Seq<T>, a: int, b: int)
    requires
        0 <= a < s.len(),
        0 <= b < s.len(),
    ensures
        s.update(a, s[b]).update(b, s[a]).to_multiset() == s.to_multiset(),
{
    broadcast use vstd::seq_lib::to_multiset_update;

    s.to_multiset_ensures();
    let s1 = s.update(a, s[b]);
    if a == b {
        assert(s1 =~= s.update(a, s[a]));
        assert(s.update(a, s[a]) =~= s);
        assert(s1.update(b, s[a]) =~= s1);
    } else {
        assert(s1[b] == s[b]);
        assert(s.to_multiset().contains(s[a]));
        assert(s1.update(b, s[a]).to_multiset() == s1.to_multiset().insert(s[a]).remove(s[b]));
        assert(s1.to_multiset() == s.to_multiset().insert(s[b]).remove(s[a]));
        assert(s.to_multiset().insert(s[b]).remove(s[a]).insert(s[a]).remove(s[b])
            =~= s.to_multiset());
    }
}

} // verus!
