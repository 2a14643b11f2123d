//! Plateau handling: long maximal runs of one key byte inside a bucket can
//! be moved to their destination as whole blocks instead of element by
//! element. A sampled sweep finds candidate runs, each candidate is extended
//! to its maximal span, and applying a plateau block-swaps it into the write
//! region of its byte's bucket.

use vstd::prelude::*;
use crate::radix_key::RadixKey;
use crate::sort_utils::{sum_counts, get_prefix_sums, get_end_offsets, lemma_sum_counts_mono};

verus! {

/// The smallest span worth block-moving: a sixteenth of the bucket.
pub open spec fn spec_plateau_min(len: int) -> int {
    len / 16
}

/// What [`detect_plateaus`] returns: each entry `(radix, l, r)` is a maximal
/// run `[l, r)` of elements whose byte at `level` is `radix`, longer than the
/// minimum span, and the entries come in ascending, disjoint order.
pub open spec fn plateaus_post<T: RadixKey>(
    r: Seq<(u8, usize, usize)>,
    s: Seq<T>,
    level: int,
) -> bool {
    &&& forall|t: int|
        0 <= t < r.len() ==> (#[trigger] r[t]).1 < r[t].2 <= s.len() && r[t].2 - r[t].1
            > spec_plateau_min(s.len() as int)
    &&& forall|t: int, k: int|
        #![trigger r[t], s[k]]
        0 <= t < r.len() && r[t].1 <= k < r[t].2 ==> s[k].key_byte(level) == r[t].0
    &&& forall|t: int|
        0 <= t < r.len() && (#[trigger] r[t]).1 > 0 ==> s[r[t].1 - 1].key_byte(level) != r[t].0
    &&& forall|t: int|
        0 <= t < r.len() && (#[trigger] r[t]).2 < s.len() ==> s[r[t].2 as int].key_byte(level)
            != r[t].0
    &&& forall|t1: int, t2: int|
        0 <= t1 < t2 < r.len() ==> (#[trigger] r[t1]).2 <= (#[trigger] r[t2]).1
}

/// The span `[a, b)` of `s` carries one key byte at `level` throughout.
pub open spec fn mono_span<T: RadixKey>(s: Seq<T>, level: int, a: int, b: int) -> bool {
    forall|j: int| a <= j < b ==> #[trigger] s[j].key_byte(level) == s[a].key_byte(level)
}

/// Completeness of the sweep up to `frontier`: every single-byte span of
/// more than twice the minimum length that ends at or before `frontier`
/// lies inside one of the reported plateaus.
pub open spec fn plateaus_cover_upto<T: RadixKey>(
    r: Seq<(u8, usize, usize)>,
    s: Seq<T>,
    level: int,
    frontier: int,
) -> bool {
    forall|a: int, b: int|
        #![trigger mono_span(s, level, a, b)]
        0 <= a && b <= s.len() && b <= frontier && b - a > 2 * spec_plateau_min(s.len() as int)
            && mono_span(s, level, a, b) ==> exists|t: int|
            0 <= t < r.len() && (#[trigger] r[t]).1 <= a && b <= r[t].2
}

/// Finds long maximal runs of one byte at `level`: a sweep at the minimum
/// span's stride looks for two consecutive samples with the same byte and a
/// single-byte span between them, and every hit is extended left and right
/// until the byte changes. Nothing is reported for buckets whose minimum
/// span falls below the worthwhile threshold; above it, every single-byte
/// span of more than twice the minimum length straddles an examined window
/// and is found.
pub fn detect_plateaus<T: RadixKey + Copy>(bucket: &[T], level: usize) -> (r: Vec<
    (u8, usize, usize),
>)
    requires
        (level as nat) < T::spec_levels(),
    ensures
        plateaus_post(r@, bucket@, level as int),
        spec_plateau_min(bucket@.len() as int) < 128 ==> r@.len() == 0,
        spec_plateau_min(bucket@.len() as int) >= 128 ==> plateaus_cover_upto(
            r@,
            bucket@,
            level as int,
            bucket@.len() as int,
        ),
{
    let ghost lv = level as int;
    let n = bucket.len();
    let mut plateaus: Vec<(u8, usize, usize)> = Vec::new();
    let min_size = n >> 4;
    proof {
        assert(min_size == spec_plateau_min(n as int)) by (bit_vector)
            requires
                min_size == n >> 4,
        ;
    }
    if min_size < 128 {
        return plateaus;
    }
    let mut last_end: usize = 0;
    let mut s: usize = min_size;
    proof {
        assert forall|a: int, b: int|
            #![trigger mono_span(bucket@, lv, a, b)]
            0 <= a && b <= bucket@.len() && b <= s && b - a > 2 * spec_plateau_min(
                bucket@.len() as int,
            ) && mono_span(bucket@, lv, a, b) implies exists|t: int|
            0 <= t < plateaus@.len() && (#[trigger] plateaus@[t]).1 <= a && b
                <= plateaus@[t].2 by {
            assert(false);
        }
    }
    while s < n
        invariant_except_break
            last_end + min_size <= s,
        invariant
            (level as nat) < T::spec_levels(),
            lv == level as int,
            n == bucket@.len(),
            min_size == spec_plateau_min(n as int),
            min_size >= 128,
            last_end <= n,
            plateaus_post(plateaus@, bucket@, lv),
            plateaus_cover_upto(plateaus@, bucket@, lv, s as int),
            forall|t: int| 0 <= t < plateaus@.len() ==> (#[trigger] plateaus@[t]).2 <= last_end,
            last_end == 0 || last_end >= n || bucket@[last_end - 1].key_byte(lv)
                != bucket@[last_end as int].key_byte(lv),
        ensures
            plateaus_post(plateaus@, bucket@, lv),
            plateaus_cover_upto(plateaus@, bucket@, lv, n as int),
        decreases n - s,
    {
        let p = s - min_size;
        let radix = bucket[s].get_level(level);
        let mut contiguous = bucket[p].get_level(level) == radix;
        let ghost mut wit: int = p as int;
        if contiguous {
            // the sweep only pairs samples; the span between them must be
            // checked before the pair counts as one run
            let mut k = p + 1;
            while k < s
                invariant
                    (level as nat) < T::spec_levels(),
                    lv == level as int,
                    n == bucket@.len(),
                    p < k <= s < n,
                    bucket@[p as int].key_byte(lv) == radix,
                    bucket@[s as int].key_byte(lv) == radix,
                    contiguous ==> forall|j: int| p < j < k ==> bucket@[j].key_byte(lv) == radix,
                    !contiguous ==> p <= wit < k && bucket@[wit].key_byte(lv) != radix,
                decreases s - k,
            {
                if bucket[k].get_level(level) != radix {
                    contiguous = false;
                    proof {
                        wit = k as int;
                    }
                }
                k = k + 1;
            }
        }
        if contiguous {
            // extend to the maximal run around the samples
            let mut l = p;
            while l > last_end && bucket[l - 1].get_level(level) == radix
                invariant
                    (level as nat) < T::spec_levels(),
                    lv == level as int,
                    n == bucket@.len(),
                    last_end <= l <= p < s < n,
                    forall|k2: int| l <= k2 <= p ==> bucket@[k2].key_byte(lv) == radix,
                decreases l,
            {
                l = l - 1;
            }
            let mut rr = s + 1;
            while rr < n && bucket[rr].get_level(level) == radix
                invariant
                    (level as nat) < T::spec_levels(),
                    lv == level as int,
                    n == bucket@.len(),
                    s < rr <= n,
                    forall|k2: int| s <= k2 < rr ==> bucket@[k2].key_byte(lv) == radix,
                decreases n - rr,
            {
                rr = rr + 1;
            }
            proof {
                assert forall|j: int| l <= j < rr implies bucket@[j].key_byte(lv) == radix by {}
                assert(l == 0 || bucket@[l - 1].key_byte(lv) != radix) by {
                    if l == last_end && last_end > 0 {
                        let le = last_end as int;
                        assert(bucket@[le].key_byte(lv) == radix);
                        assert(bucket@[le - 1].key_byte(lv) != bucket@[le].key_byte(lv));
                    }
                }
            }
            let ghost old_plateaus = plateaus@;
            plateaus.push((radix, l, rr));
            let ghost frontier = if n - rr <= min_size {
                n as int
            } else {
                rr + min_size
            };
            proof {
                lemma_detect_cover_success(
                    old_plateaus,
                    plateaus@,
                    bucket@,
                    lv,
                    s as int,
                    frontier,
                    min_size as int,
                    radix,
                    l as int,
                    rr as int,
                );
            }
            last_end = rr;
            if n - rr <= min_size {
                break ;
            }
            s = rr + min_size;
        } else {
            proof {
                let ghost frontier = if n - s <= min_size {
                    n as int
                } else {
                    s + min_size
                };
                assert forall|a: int, b: int|
                    #![trigger mono_span(bucket@, lv, a, b)]
                    0 <= a && b <= n && b <= frontier && b - a > 2 * spec_plateau_min(n as int)
                        && mono_span(bucket@, lv, a, b) implies exists|t: int|
                    0 <= t < plateaus@.len() && (#[trigger] plateaus@[t]).1 <= a && b
                        <= plateaus@[t].2 by {
                    if b > s {
                        // the span straddles the examined window, yet the
                        // window held a byte change
                        assert(a <= p && s < b);
                        assert(bucket@[wit].key_byte(lv) == bucket@[a].key_byte(lv));
                        assert(bucket@[s as int].key_byte(lv) == bucket@[a].key_byte(lv));
                        assert(false);
                    }
                }
            }
            if n - s <= min_size {
                break ;
            }
            s = s + min_size;
        }
    }
    plateaus
}

/// After a run `[l, rr)` is reported, every long single-byte span ending
/// before the next frontier is covered: spans ending before the examined
/// window were covered before, spans touching the run lie inside it by
/// maximality, and what fits right of the run is too short.
proof fn lemma_detect_cover_success<T: RadixKey>(
    old_r: Seq<(u8, usize, usize)>,
    new_r: Seq<(u8, usize, usize)>,
    s: Seq<T>,
    lv: int,
    sample: int,
    frontier: int,
    min_size: int,
    radix: u8,
    l: int,
    rr: int,
)
    requires
        min_size == spec_plateau_min(s.len() as int),
        min_size >= 128,
        rr <= usize::MAX,
        plateaus_cover_upto(old_r, s, lv, sample),
        new_r == old_r.push((radix, l as usize, rr as usize)),
        0 <= l <= sample - min_size,
        sample < rr <= s.len(),
        frontier <= rr + min_size,
        frontier <= s.len(),
        forall|j: int| l <= j < rr ==> s[j].key_byte(lv) == radix,
        l == 0 || s[l - 1].key_byte(lv) != radix,
        rr == s.len() || s[rr].key_byte(lv) != radix,
    ensures
        plateaus_cover_upto(new_r, s, lv, frontier),
{
    assert forall|a: int, b: int|
        #![trigger mono_span(s, lv, a, b)]
        0 <= a && b <= s.len() && b <= frontier && b - a > 2 * spec_plateau_min(s.len() as int)
            && mono_span(s, lv, a, b) implies exists|t: int|
        0 <= t < new_r.len() && (#[trigger] new_r[t]).1 <= a && b <= new_r[t].2 by {
        if b <= sample {
            // covered before the run was found
            assert(mono_span(s, lv, a, b));
            assert(exists|t: int|
                0 <= t < old_r.len() && (#[trigger] old_r[t]).1 <= a && b <= old_r[t].2);
            let t = choose|t: int|
                0 <= t < old_r.len() && (#[trigger] old_r[t]).1 <= a && b <= old_r[t].2;
            assert(new_r[t] == old_r[t]);
            assert(0 <= t && t < new_r.len() && new_r[t].1 <= a && b <= new_r[t].2);
        } else if a >= rr {
            // what fits right of the run is shorter than the threshold
            assert(b - a <= min_size);
            assert(false);
        } else if b <= l {
            // the span ends left of the run yet past the examined window:
            // impossible, the window lies left of the run's end
            assert(false);
        } else {
            // the span shares a position with the run, so it carries the
            // run's byte and, by maximality, lies inside it
            let q = if a >= l {
                a
            } else {
                l
            };
            assert(q < b && q < rr);
            assert(s[q].key_byte(lv) == radix);
            assert(s[q].key_byte(lv) == s[a].key_byte(lv));
            assert(b <= rr) by {
                if b > rr && rr < s.len() {
                    assert(s[rr].key_byte(lv) == s[a].key_byte(lv));
                    assert(false);
                }
            }
            assert(a >= l) by {
                if a < l && l > 0 {
                    assert(s[l - 1].key_byte(lv) == s[a].key_byte(lv));
                    assert(s[l - 1].key_byte(lv) != radix);
                    assert(false);
                }
            }
            let t = new_r.len() - 1;
            assert(new_r[t as int] == (radix, l as usize, rr as usize));
            assert(new_r[t as int].1 == l && new_r[t as int].2 == rr);
            assert(0 <= t as int && (t as int) < new_r.len() && new_r[t as int].1 <= a && b
                <= new_r[t as int].2);
        }
    }
}

/// Exchanges the two disjoint equal-length blocks of `v` that start at `a`
/// and at `b`.
pub fn swap_blocks<T: RadixKey + Copy>(v: &mut Vec<T>, a: usize, b: usize, len: usize)
    requires
        a + len <= b,
        b + len <= old(v)@.len(),
    ensures
        final(v)@.len() == old(v)@.len(),
        final(v)@.to_multiset() == old(v)@.to_multiset(),
        forall|k: int|
            0 <= k < old(v)@.len() && !(a <= k < a + len) && !(b <= k < b + len)
                ==> #[trigger] final(v)@[k] == old(v)@[k],
        forall|k: int|
            0 <= k < len ==> #[trigger] final(v)@[a + k] == old(v)@[b + k] && final(v)@[b + k]
                == old(v)@[a + k],
{
    let n0 = v.len();
    let mut k: usize = 0;
    while k < len
        invariant
            k <= len,
            a + len <= b,
            b + len <= v@.len(),
            n0 == v@.len(),
            v@.len() == old(v)@.len(),
            v@.to_multiset() == old(v)@.to_multiset(),
            forall|j: int|
                0 <= j < v@.len() && !(a <= j < a + len) && !(b <= j < b + len)
                    ==> #[trigger] v@[j] == old(v)@[j],
            forall|j: int|
                0 <= j < k ==> #[trigger] v@[a + j] == old(v)@[b + j] && v@[b + j] == old(
                    v,
                )@[a + j],
            forall|j: int|
                k <= j < len ==> #[trigger] v@[a + j] == old(v)@[a + j] && v@[b + j] == old(
                    v,
                )@[b + j],
        decreases len - k,
    {
        let ghost pre = v@;
        proof {
            assert(pre[a + k] == old(v)@[a + k]);
            assert(pre[b + k] == old(v)@[b + k]);
        }
        crate::sort_utils::vec_swap(v, a + k, b + k);
        proof {
            assert(v@[a + k] == old(v)@[b + k]);
            assert(v@[b + k] == old(v)@[a + k]);
            assert forall|j: int|
                0 <= j < k + 1 implies #[trigger] v@[a + j] == old(v)@[b + j] && v@[b + j] == old(
                v,
            )@[a + j] by {
                if j < k {
                    assert(pre[a + j] == old(v)@[b + j]);
                    assert(pre[b + j] == old(v)@[a + j]);
                    assert(v@[a + j] == pre[a + j]);
                    assert(v@[b + j] == pre[b + j]);
                }
            }
            assert forall|j: int|
                k + 1 <= j < len implies #[trigger] v@[a + j] == old(v)@[a + j] && v@[b + j]
                    == old(v)@[b + j] by {
                assert(pre[a + j] == old(v)@[a + j]);
                assert(pre[b + j] == old(v)@[b + j]);
                assert(v@[a + j] == pre[a + j]);
                assert(v@[b + j] == pre[b + j]);
            }
        }
        k = k + 1;
    }
}

/// The plateau span already handed to bucket `b` by the first `t` plateaus.
pub open spec fn consumed(plateaus: Seq<(u8, usize, usize)>, b: int, t: int) -> int
    decreases t,
{
    if t <= 0 {
        0
    } else {
        consumed(plateaus, b, t - 1) + if plateaus[t - 1].0 == b {
            plateaus[t - 1].2 - plateaus[t - 1].1
        } else {
            0int
        }
    }
}

/// Consumed spans only grow as plateaus are applied.
proof fn lemma_consumed_mono(plateaus: Seq<(u8, usize, usize)>, b: int, t1: int, t2: int)
    requires
        t1 <= t2,
        forall|t: int| 0 <= t < plateaus.len() ==> (#[trigger] plateaus[t]).1 <= plateaus[t].2,
        t2 <= plateaus.len(),
    ensures
        consumed(plateaus, b, t1) <= consumed(plateaus, b, t2),
    decreases t2 - t1,
{
    if t1 < t2 {
        lemma_consumed_mono(plateaus, b, t1, t2 - 1);
    }
}

/// Where plateau `t` lands: its radix's bucket offset advanced past the
/// spans of earlier plateaus of the same radix.
pub open spec fn write_region_start(
    counts: Seq<usize>,
    plateaus: Seq<(u8, usize, usize)>,
    t: int,
) -> int {
    sum_counts(counts, plateaus[t].0 as int) + consumed(plateaus, plateaus[t].0 as int, t)
}

/// The plateaus can be applied without interference: their spans come
/// disjoint in ascending order, and no later span overlaps an earlier
/// plateau's write region, so nothing already placed is picked up again.
pub open spec fn plateaus_independent(
    counts: Seq<usize>,
    plateaus: Seq<(u8, usize, usize)>,
) -> bool {
    &&& forall|t1: int, t2: int|
        0 <= t1 < t2 < plateaus.len() ==> (#[trigger] plateaus[t1]).2 <= (
        #[trigger] plateaus[t2]).1
    &&& forall|t1: int, t2: int|
        #![trigger write_region_start(counts, plateaus, t1), plateaus[t2]]
        0 <= t1 < t2 < plateaus.len() ==> (write_region_start(counts, plateaus, t1)
            + plateaus[t1].2 - plateaus[t1].1 <= plateaus[t2].1 || plateaus[t2].2
            <= write_region_start(counts, plateaus, t1))
}


/// One application step under independence: given that the swap only
/// touched the plateau's span and its write region, and moved the span's
/// elements into the region, every earlier write region and every later
/// span is untouched, and the new region holds the plateau's original
/// elements.
proof fn lemma_apply_step_placement<T: RadixKey>(
    orig: Seq<T>,
    pre: Seq<T>,
    post: Seq<T>,
    counts: Seq<usize>,
    plateaus: Seq<(u8, usize, usize)>,
    t: int,
    ws: int,
    we: int,
)
    requires
        plateaus_independent(counts, plateaus),
        counts.len() == 256,
        sum_counts(counts, 256) == orig.len(),
        pre.len() == orig.len(),
        post.len() == orig.len(),
        0 <= t < plateaus.len(),
        forall|t2: int|
            0 <= t2 < plateaus.len() ==> (#[trigger] plateaus[t2]).1 <= plateaus[t2].2
                && plateaus[t2].2 <= orig.len(),
        forall|b: int|
            0 <= b < 256 ==> consumed(plateaus, b, plateaus.len() as int) <= #[trigger] counts[b],
        ws == write_region_start(counts, plateaus, t),
        we == ws + plateaus[t].2 - plateaus[t].1,
        forall|k: int|
            0 <= k < pre.len() && !(plateaus[t].1 <= k < plateaus[t].2) && !(ws <= k < we)
                ==> #[trigger] post[k] == pre[k],
        post.subrange(ws, we).to_multiset() == pre.subrange(
            plateaus[t].1 as int,
            plateaus[t].2 as int,
        ).to_multiset(),
        forall|t2: int|
            #![trigger plateaus[t2]]
            t <= t2 < plateaus.len() ==> pre.subrange(
                plateaus[t2].1 as int,
                plateaus[t2].2 as int,
            ) == orig.subrange(plateaus[t2].1 as int, plateaus[t2].2 as int),
        forall|t2: int|
            #![trigger write_region_start(counts, plateaus, t2)]
            0 <= t2 < t ==> pre.subrange(
                write_region_start(counts, plateaus, t2),
                write_region_start(counts, plateaus, t2) + plateaus[t2].2 - plateaus[t2].1,
            ).to_multiset() == orig.subrange(
                plateaus[t2].1 as int,
                plateaus[t2].2 as int,
            ).to_multiset(),
    ensures
        forall|t2: int|
            #![trigger plateaus[t2]]
            t + 1 <= t2 < plateaus.len() ==> post.subrange(
                plateaus[t2].1 as int,
                plateaus[t2].2 as int,
            ) == orig.subrange(plateaus[t2].1 as int, plateaus[t2].2 as int),
        forall|t2: int|
            #![trigger write_region_start(counts, plateaus, t2)]
            0 <= t2 < t + 1 ==> post.subrange(
                write_region_start(counts, plateaus, t2),
                write_region_start(counts, plateaus, t2) + plateaus[t2].2 - plateaus[t2].1,
            ).to_multiset() == orig.subrange(
                plateaus[t2].1 as int,
                plateaus[t2].2 as int,
            ).to_multiset(),
{
    let b = plateaus[t].0 as int;
    let l = plateaus[t].1 as int;
    let r = plateaus[t].2 as int;
    let n = orig.len() as int;
    assert forall|t2: int|
        #![trigger plateaus[t2]]
        t + 1 <= t2 < plateaus.len() implies post.subrange(
        plateaus[t2].1 as int,
        plateaus[t2].2 as int,
    ) == orig.subrange(plateaus[t2].1 as int, plateaus[t2].2 as int) by {
        let l2 = plateaus[t2].1 as int;
        let r2 = plateaus[t2].2 as int;
        // the later span is right of this plateau's span and misses its
        // write region
        assert(plateaus[t].2 <= plateaus[t2].1);
        assert(write_region_start(counts, plateaus, t) + plateaus[t].2 - plateaus[t].1
            <= plateaus[t2].1 || plateaus[t2].2 <= write_region_start(counts, plateaus, t));
        assert(post.subrange(l2, r2) =~= pre.subrange(l2, r2));
    }
    assert forall|t2: int|
        #![trigger write_region_start(counts, plateaus, t2)]
        0 <= t2 < t + 1 implies post.subrange(
        write_region_start(counts, plateaus, t2),
        write_region_start(counts, plateaus, t2) + plateaus[t2].2 - plateaus[t2].1,
    ).to_multiset() == orig.subrange(
        plateaus[t2].1 as int,
        plateaus[t2].2 as int,
    ).to_multiset() by {
        if t2 == t {
            assert(pre.subrange(l, r) == orig.subrange(l, r));
        } else {
            let b2 = plateaus[t2].0 as int;
            let ws2 = write_region_start(counts, plateaus, t2);
            let len2 = plateaus[t2].2 - plateaus[t2].1;
            // the earlier write region stays inside its radix's bucket
            lemma_sum_counts_mono(counts, 0, b2);
            lemma_sum_counts_mono(counts, b2 + 1, 256);
            lemma_consumed_mono(plateaus, b2, 0, t2);
            assert(consumed(plateaus, b2, t2 + 1) == consumed(plateaus, b2, t2) + len2);
            lemma_consumed_mono(plateaus, b2, t2 + 1, plateaus.len() as int);
            assert(sum_counts(counts, b2 + 1) == sum_counts(counts, b2) + counts[b2]);
            assert(sum_counts(counts, b) + consumed(plateaus, b, t) == ws);
            lemma_consumed_mono(plateaus, b, 0, t);
            assert(consumed(plateaus, b, t + 1) == consumed(plateaus, b, t) + (r - l));
            lemma_consumed_mono(plateaus, b, t + 1, plateaus.len() as int);
            assert(sum_counts(counts, b + 1) == sum_counts(counts, b) + counts[b]);
            // it misses this plateau's span
            assert(ws2 + len2 <= plateaus[t].1 || plateaus[t].2 <= ws2);
            // and it misses this plateau's write region
            assert(ws2 + len2 <= ws || we <= ws2) by {
                if b2 < b {
                    lemma_sum_counts_mono(counts, b2 + 1, b);
                } else if b2 > b {
                    lemma_sum_counts_mono(counts, b + 1, b2);
                } else {
                    lemma_consumed_mono(plateaus, b, t2 + 1, t);
                }
            }
            assert(post.subrange(ws2, ws2 + len2) =~= pre.subrange(ws2, ws2 + len2));
        }
    }
}

/// Moves each detected plateau into the write region of its byte's bucket
/// with block swaps, advancing that bucket's prefix sum past it, and returns
/// the advanced prefix sums together with the end offsets. The bucket keeps
/// its contents as a multiset; a swap handles the three ways a plateau can
/// meet its destination: already in place, disjoint, or partially
/// overlapping, in which case only the non-overlapping tails move.
pub fn apply_plateaus<T: RadixKey + Copy>(
    bucket: &mut Vec<T>,
    counts: &Vec<usize>,
    plateaus: &Vec<(u8, usize, usize)>,
) -> (r: (Vec<usize>, Vec<usize>))
    requires
        counts@.len() == 256,
        sum_counts(counts@, 256) == old(bucket)@.len(),
        forall|t: int|
            0 <= t < plateaus@.len() ==> (#[trigger] plateaus@[t]).1 <= plateaus@[t].2
                && plateaus@[t].2 <= old(bucket)@.len(),
        forall|b: int|
            0 <= b < 256 ==> consumed(plateaus@, b, plateaus@.len() as int) <= #[trigger] counts@[b],
    ensures
        final(bucket)@.len() == old(bucket)@.len(),
        final(bucket)@.to_multiset() == old(bucket)@.to_multiset(),
        r.0@.len() == 256,
        forall|b: int|
            0 <= b < 256 ==> #[trigger] r.0@[b] == sum_counts(counts@, b) + consumed(
                plateaus@,
                b,
                plateaus@.len() as int,
            ),
        r.1@.len() == 256,
        forall|b: int| 0 <= b < 256 ==> #[trigger] r.1@[b] == sum_counts(counts@, b + 1),
        plateaus_independent(counts@, plateaus@) ==> forall|t: int|
            #![trigger write_region_start(counts@, plateaus@, t)]
            0 <= t < plateaus@.len() ==> final(bucket)@.subrange(
                write_region_start(counts@, plateaus@, t),
                write_region_start(counts@, plateaus@, t) + plateaus@[t].2 - plateaus@[t].1,
            ).to_multiset() == old(bucket)@.subrange(
                plateaus@[t].1 as int,
                plateaus@[t].2 as int,
            ).to_multiset(),
{
    let n = bucket.len();
    let mut prefix_sums = get_prefix_sums(counts);
    let end_offsets = get_end_offsets(counts, &prefix_sums);
    let nt = plateaus.len();
    let mut t: usize = 0;
    while t < nt
        invariant
            t <= nt,
            nt == plateaus@.len(),
            n == bucket@.len(),
            counts@.len() == 256,
            sum_counts(counts@, 256) == n,
            bucket@.len() == old(bucket)@.len(),
            bucket@.to_multiset() == old(bucket)@.to_multiset(),
            prefix_sums@.len() == 256,
            forall|t2: int|
                0 <= t2 < nt ==> (#[trigger] plateaus@[t2]).1 <= plateaus@[t2].2
                    && plateaus@[t2].2 <= n,
            forall|b: int|
                0 <= b < 256 ==> consumed(plateaus@, b, nt as int) <= #[trigger] counts@[b],
            forall|b: int|
                0 <= b < 256 ==> #[trigger] prefix_sums@[b] == sum_counts(counts@, b) + consumed(
                    plateaus@,
                    b,
                    t as int,
                ),
            plateaus_independent(counts@, plateaus@) ==> forall|t2: int|
                #![trigger plateaus@[t2]]
                t <= t2 < nt ==> bucket@.subrange(
                    plateaus@[t2].1 as int,
                    plateaus@[t2].2 as int,
                ) == old(bucket)@.subrange(plateaus@[t2].1 as int, plateaus@[t2].2 as int),
            plateaus_independent(counts@, plateaus@) ==> forall|t2: int|
                #![trigger write_region_start(counts@, plateaus@, t2)]
                0 <= t2 < t ==> bucket@.subrange(
                    write_region_start(counts@, plateaus@, t2),
                    write_region_start(counts@, plateaus@, t2) + plateaus@[t2].2
                        - plateaus@[t2].1,
                ).to_multiset() == old(bucket)@.subrange(
                    plateaus@[t2].1 as int,
                    plateaus@[t2].2 as int,
                ).to_multiset(),
        decreases nt - t,
    {
        let (radix, l, rr) = plateaus[t];
        let b = radix as usize;
        let len_p = rr - l;
        proof {
            lemma_consumed_mono(plateaus@, b as int, t + 1, nt as int);
            assert(consumed(plateaus@, b as int, t + 1) == consumed(plateaus@, b as int, t as int)
                + len_p);
            lemma_sum_counts_mono(counts@, b + 1, 256);
            assert(sum_counts(counts@, b + 1) == sum_counts(counts@, b as int) + counts@[b as int]);
        }
        let write_start = prefix_sums[b];
        let write_end = write_start + len_p;
        let ghost pre_b = bucket@;
        let ghost li = l as int;
        let ghost ri = rr as int;
        let ghost ws = write_start as int;
        let ghost we = write_end as int;
        let ghost ind = plateaus_independent(counts@, plateaus@);
        proof {
            if ind {
                assert(plateaus@[t as int] == (radix, l, rr));
                assert(ws == write_region_start(counts@, plateaus@, t as int));
            }
        }
        if l == write_start {
            // already in place
            proof {
                if ind {
                    assert(bucket@.subrange(ws, we) =~= pre_b.subrange(li, ri));
                    lemma_apply_step_placement(
                        old(bucket)@,
                        pre_b,
                        bucket@,
                        counts@,
                        plateaus@,
                        t as int,
                        ws,
                        we,
                    );
                }
            }
        } else if rr <= write_start {
            swap_blocks(bucket, l, write_start, len_p);
            proof {
                if ind {
                    assert(ri - li == we - ws);
                    assert forall|j: int| 0 <= j < we - ws implies #[trigger] bucket@.subrange(
                        ws,
                        we,
                    )[j] == pre_b.subrange(li, ri)[j] by {
                        assert(bucket@[li + j] == pre_b[ws + j]);
                        assert(bucket@[ws + j] == pre_b[li + j]);
                        assert(bucket@.subrange(ws, we)[j] == bucket@[ws + j]);
                        assert(pre_b.subrange(li, ri)[j] == pre_b[li + j]);
                    }
                    assert(bucket@.subrange(ws, we) =~= pre_b.subrange(li, ri));
                    lemma_apply_step_placement(
                        old(bucket)@,
                        pre_b,
                        bucket@,
                        counts@,
                        plateaus@,
                        t as int,
                        ws,
                        we,
                    );
                }
            }
        } else if write_end <= l {
            swap_blocks(bucket, write_start, l, len_p);
            proof {
                if ind {
                    assert forall|j: int| 0 <= j < we - ws implies #[trigger] bucket@.subrange(
                        ws,
                        we,
                    )[j] == pre_b.subrange(li, ri)[j] by {
                        assert(bucket@[ws + j] == pre_b[li + j]);
                        assert(bucket@[li + j] == pre_b[ws + j]);
                        assert(bucket@.subrange(ws, we)[j] == bucket@[ws + j]);
                        assert(pre_b.subrange(li, ri)[j] == pre_b[li + j]);
                    }
                    assert(bucket@.subrange(ws, we) =~= pre_b.subrange(li, ri));
                    lemma_apply_step_placement(
                        old(bucket)@,
                        pre_b,
                        bucket@,
                        counts@,
                        plateaus@,
                        t as int,
                        ws,
                        we,
                    );
                }
            }
        } else if l < write_start {
            // the right tail of the plateau already overlaps the write area
            swap_blocks(bucket, l, rr, write_start - l);
            proof {
                if ind {
                    broadcast use vstd::multiset::group_multiset_axioms;

                    assert forall|j: int| 0 <= j < ri - ws implies #[trigger] bucket@.subrange(
                        ws,
                        ri,
                    )[j] == pre_b.subrange(ws, ri)[j] by {
                        assert(bucket@[ws + j] == pre_b[ws + j]);
                        assert(bucket@.subrange(ws, ri)[j] == bucket@[ws + j]);
                        assert(pre_b.subrange(ws, ri)[j] == pre_b[ws + j]);
                    }
                    assert(bucket@.subrange(ws, ri) =~= pre_b.subrange(ws, ri));
                    assert forall|j: int| 0 <= j < we - ri implies #[trigger] bucket@.subrange(
                        ri,
                        we,
                    )[j] == pre_b.subrange(li, ws)[j] by {
                        assert(bucket@[li + j] == pre_b[ri + j]);
                        assert(bucket@[ri + j] == pre_b[li + j]);
                        assert(bucket@.subrange(ri, we)[j] == bucket@[ri + j]);
                        assert(pre_b.subrange(li, ws)[j] == pre_b[li + j]);
                    }
                    assert(bucket@.subrange(ri, we) =~= pre_b.subrange(li, ws));
                    assert(bucket@.subrange(ws, we) =~= bucket@.subrange(ws, ri)
                        + bucket@.subrange(ri, we));
                    assert(pre_b.subrange(li, ri) =~= pre_b.subrange(li, ws) + pre_b.subrange(
                        ws,
                        ri,
                    ));
                    vstd::seq_lib::lemma_multiset_commutative(
                        bucket@.subrange(ws, ri),
                        bucket@.subrange(ri, we),
                    );
                    vstd::seq_lib::lemma_multiset_commutative(
                        pre_b.subrange(li, ws),
                        pre_b.subrange(ws, ri),
                    );
                    assert(bucket@.subrange(ws, we).to_multiset() =~= pre_b.subrange(
                        li,
                        ri,
                    ).to_multiset());
                    lemma_apply_step_placement(
                        old(bucket)@,
                        pre_b,
                        bucket@,
                        counts@,
                        plateaus@,
                        t as int,
                        ws,
                        we,
                    );
                }
            }
        } else {
            // the left tail of the write area already overlaps the plateau
            swap_blocks(bucket, write_start, write_end, l - write_start);
            proof {
                if ind {
                    broadcast use vstd::multiset::group_multiset_axioms;

                    assert forall|j: int| 0 <= j < li - ws implies #[trigger] bucket@.subrange(
                        ws,
                        li,
                    )[j] == pre_b.subrange(we, ri)[j] by {
                        assert(bucket@[ws + j] == pre_b[we + j]);
                        assert(bucket@[we + j] == pre_b[ws + j]);
                        assert(bucket@.subrange(ws, li)[j] == bucket@[ws + j]);
                        assert(pre_b.subrange(we, ri)[j] == pre_b[we + j]);
                    }
                    assert(bucket@.subrange(ws, li) =~= pre_b.subrange(we, ri));
                    assert forall|j: int| 0 <= j < we - li implies #[trigger] bucket@.subrange(
                        li,
                        we,
                    )[j] == pre_b.subrange(li, we)[j] by {
                        assert(bucket@[li + j] == pre_b[li + j]);
                        assert(bucket@.subrange(li, we)[j] == bucket@[li + j]);
                        assert(pre_b.subrange(li, we)[j] == pre_b[li + j]);
                    }
                    assert(bucket@.subrange(li, we) =~= pre_b.subrange(li, we));
                    assert(bucket@.subrange(ws, we) =~= bucket@.subrange(ws, li)
                        + bucket@.subrange(li, we));
                    assert(pre_b.subrange(li, ri) =~= pre_b.subrange(li, we) + pre_b.subrange(
                        we,
                        ri,
                    ));
                    vstd::seq_lib::lemma_multiset_commutative(
                        bucket@.subrange(ws, li),
                        bucket@.subrange(li, we),
                    );
                    vstd::seq_lib::lemma_multiset_commutative(
                        pre_b.subrange(li, we),
                        pre_b.subrange(we, ri),
                    );
                    assert(bucket@.subrange(ws, we).to_multiset() =~= pre_b.subrange(
                        li,
                        ri,
                    ).to_multiset());
                    lemma_apply_step_placement(
                        old(bucket)@,
                        pre_b,
                        bucket@,
                        counts@,
                        plateaus@,
                        t as int,
                        ws,
                        we,
                    );
                }
            }
        }
        prefix_sums[b] = write_end;
        t = t + 1;
    }
    (prefix_sums, end_offsets)
}

} // verus!
