//! The director: the recursive heart of the sort. For each bucket it counts
//! the level's bytes, asks the tuner for an algorithm, runs it, and recurses
//! into the up-to-256 sub-buckets at the next level.

use vstd::prelude::*;
use crate::radix_key::{RadixKey, lex_le_from, sorted_from, lemma_lex_le_step};
use crate::scatter::{
    count_byte, count_below, scatter_spec, lemma_scatter_multiset, lemma_scatter_upto_index,
    lemma_scatter_upto_len, lemma_count_below_total, lemma_count_below_mono, lemma_find_block,
    lemma_count_byte_take_skip, lemma_filter_byte_take_succ,
};
use crate::sort_utils::{
    is_histogram, get_prefix_sums, get_tmp_bucket, extract_range, write_back, par_get_counts,
    is_homogenous_bucket, thread_count,
};
use crate::sorts::comparative_sort::{sorts_range, comparative_sort};
use crate::sorts::lsb_sort::{lsb_radix_sort_adapter, lemma_short_sorted, lemma_sorted_past_levels};
use crate::sorts::out_of_place_sort::{out_of_place_sort, lemma_histogram_sums_fit};
use crate::tuner::{Algorithm, Tuner, TuningParams, DefaultTuner};

verus! {

/// The range `[lo, hi)` of `new_v` holds the elements `old_v` held there,
/// grouped by the key byte at `level`: the byte-`b` group fills the block
/// starting at the byte's prefix sum. The rest of the vector is untouched.
/// What every single-level partition pass guarantees.
pub open spec fn partitions_range<T: RadixKey>(
    old_v: Seq<T>,
    new_v: Seq<T>,
    lo: int,
    hi: int,
    level: int,
) -> bool {
    &&& new_v.len() == old_v.len()
    &&& forall|k: int| 0 <= k < old_v.len() && !(lo <= k < hi) ==> new_v[k] == old_v[k]
    &&& new_v.subrange(lo, hi).to_multiset() == old_v.subrange(lo, hi).to_multiset()
    &&& forall|b: int, k: int|
        #![trigger count_below(old_v.subrange(lo, hi), level, b), new_v[k]]
        0 <= b < 256 && lo + count_below(old_v.subrange(lo, hi), level, b) <= k < lo
            + count_below(old_v.subrange(lo, hi), level, b + 1) ==> new_v[k].key_byte(
            level,
        ) as int == b
}

/// A range rewritten to the stable partition of its old contents is
/// partitioned: the partition is a permutation and groups the bytes.
pub proof fn lemma_scatter_gives_partition<T: RadixKey>(
    old_v: Seq<T>,
    new_v: Seq<T>,
    lo: int,
    hi: int,
    level: int,
)
    requires
        0 <= lo <= hi <= old_v.len(),
        new_v.len() == old_v.len(),
        forall|k: int| 0 <= k < old_v.len() && !(lo <= k < hi) ==> new_v[k] == old_v[k],
        new_v.subrange(lo, hi) == scatter_spec(old_v.subrange(lo, hi), level),
    ensures
        partitions_range(old_v, new_v, lo, hi, level),
{
    let s = old_v.subrange(lo, hi);
    lemma_scatter_multiset(s, level);
    lemma_scatter_upto_len(s, level, 256);
    lemma_count_below_total(s, level);
    assert forall|b: int, k: int|
        #![trigger count_below(s, level, b), new_v[k]]
        0 <= b < 256 && lo + count_below(s, level, b) <= k < lo + count_below(
            s,
            level,
            b + 1,
        ) implies new_v[k].key_byte(level) as int == b by {
        let idx = k - lo;
        lemma_scatter_upto_index(s, level, 256, b, idx);
        lemma_count_below_mono(s, level, b + 1, 256);
        assert(new_v[k] == new_v.subrange(lo, hi)[idx]);
        assert(count_below(s, level, b + 1) == count_below(s, level, b) + count_byte(
            s,
            level,
            b,
        ));
        s.lemma_filter_pred(
            crate::scatter::byte_pred(level, b),
            idx - count_below(s, level, b),
        );
    }
}

/// When equal multisets fill two sequences and every element of the first
/// carries byte `b`, so does every element of the second: recursing inside a
/// sub-bucket cannot change which byte group it is.
pub proof fn lemma_multiset_byte_preserved<T: RadixKey>(
    s1: Seq<T>,
    s2: Seq<T>,
    level: int,
    b: int,
)
    requires
        s1.to_multiset() == s2.to_multiset(),
        forall|k: int| 0 <= k < s1.len() ==> (#[trigger] s1[k]).key_byte(level) as int == b,
    ensures
        forall|k: int| 0 <= k < s2.len() ==> (#[trigger] s2[k]).key_byte(level) as int == b,
{
    assert forall|k: int| 0 <= k < s2.len() implies (#[trigger] s2[k]).key_byte(level) as int
        == b by {
        s2.to_multiset_ensures();
        s1.to_multiset_ensures();
        assert(s2.contains(s2[k]));
        assert(s2.to_multiset().count(s2[k]) > 0);
        assert(s1.contains(s2[k]));
        let m = choose|m: int| 0 <= m < s1.len() && s1[m] == s2[k];
        assert(s1[m].key_byte(level) as int == b);
    }
}

/// The combining step of the recursion: when a range is grouped by the byte
/// at `level` along the block boundaries of `s`, and every block is ordered
/// by the levels past `level`, the whole range is ordered from `level` down.
pub proof fn lemma_partition_combine<T: RadixKey>(s: Seq<T>, t: Seq<T>, level: int)
    requires
        0 <= level,
        t.len() == s.len(),
        forall|b: int, k: int|
            #![trigger count_below(s, level, b), t[k]]
            0 <= b < 256 && count_below(s, level, b) <= k < count_below(s, level, b + 1)
                ==> t[k].key_byte(level) as int == b,
        forall|b: int|
            0 <= b < 256 ==> sorted_from(
                #[trigger] t.subrange(
                    count_below(s, level, b) as int,
                    count_below(s, level, b + 1) as int,
                ),
                level + 1,
            ),
    ensures
        sorted_from(t, level),
{
    lemma_count_below_total(s, level);
    assert forall|i: int, j: int| 0 <= i < j < t.len() implies #[trigger] lex_le_from(
        t[i],
        t[j],
        level,
    ) by {
        lemma_find_block(s, level, 256, i);
        lemma_find_block(s, level, 256, j);
        let bi = choose|b: int|
            0 <= b < 256 && #[trigger] count_below(s, level, b) <= i < count_below(
                s,
                level,
                b + 1,
            );
        let bj = choose|b: int|
            0 <= b < 256 && #[trigger] count_below(s, level, b) <= j < count_below(
                s,
                level,
                b + 1,
            );
        assert(t[i].key_byte(level) as int == bi);
        assert(t[j].key_byte(level) as int == bj);
        if bi == bj {
            lemma_count_below_mono(s, level, bi + 1, 256);
            let sub = t.subrange(
                count_below(s, level, bi) as int,
                count_below(s, level, bi + 1) as int,
            );
            assert(t[i] == sub[i - count_below(s, level, bi)]);
            assert(t[j] == sub[j - count_below(s, level, bi)]);
            assert(lex_le_from(t[i], t[j], level + 1));
            if level < T::spec_levels() {
                lemma_lex_le_step(t[i], t[j], level);
            }
        } else if bi > bj {
            lemma_count_below_mono(s, level, bj + 1, bi);
            assert(false);
        }
    }
}

/// Every element's byte is counted: the bin of an element's own byte is
/// never empty.
pub proof fn lemma_element_byte_counted<T: RadixKey>(s: Seq<T>, k: int, level: int)
    requires
        0 <= k < s.len(),
    ensures
        count_byte(s, level, s[k].key_byte(level) as int) >= 1,
{
    let b = s[k].key_byte(level) as int;
    lemma_filter_byte_take_succ(s, k, level, b);
    lemma_count_byte_take_skip(s, k + 1, level, b);
}

/// In a bucket whose histogram has at most one nonzero bin, all elements
/// share their byte at `level`.
pub proof fn lemma_homogenous_bytes<T: RadixKey>(c: Seq<usize>, s: Seq<T>, level: int)
    requires
        is_histogram(c, s, level),
        forall|b1: int, b2: int|
            0 <= b1 < 256 && 0 <= b2 < 256 && #[trigger] c[b1] > 0 && #[trigger] c[b2] > 0
                ==> b1 == b2,
    ensures
        forall|k1: int, k2: int|
            0 <= k1 < s.len() && 0 <= k2 < s.len() ==> (#[trigger] s[k1]).key_byte(level)
                == (#[trigger] s[k2]).key_byte(level),
{
    assert forall|k1: int, k2: int|
        0 <= k1 < s.len() && 0 <= k2 < s.len() implies (#[trigger] s[k1]).key_byte(level) == (
    #[trigger] s[k2]).key_byte(level) by {
        lemma_element_byte_counted(s, k1, level);
        lemma_element_byte_counted(s, k2, level);
        assert(c[s[k1].key_byte(level) as int] > 0);
        assert(c[s[k2].key_byte(level) as int] > 0);
    }
}

/// When all elements of a bucket share their byte at `level`, sorting the
/// bucket by the levels past `level` is the same as sorting it from `level`:
/// the order a recursion at the next level produces is the order the bucket
/// is owed at this one.
pub proof fn lemma_homogenous_level_skip<T: RadixKey>(s: Seq<T>, level: int)
    requires
        0 <= level,
        forall|k1: int, k2: int|
            0 <= k1 < s.len() && 0 <= k2 < s.len() ==> (#[trigger] s[k1]).key_byte(level)
                == (#[trigger] s[k2]).key_byte(level),
    ensures
        sorted_from(s, level) <==> sorted_from(s, level + 1),
{
    if level >= T::spec_levels() {
        lemma_sorted_past_levels(s, level);
        lemma_sorted_past_levels(s, level + 1);
    } else {
        if sorted_from(s, level + 1) {
            assert forall|i: int, j: int| 0 <= i < j < s.len() implies #[trigger] lex_le_from(
                s[i],
                s[j],
                level,
            ) by {
                assert(lex_le_from(s[i], s[j], level + 1));
                lemma_lex_le_step(s[i], s[j], level);
            }
        }
        if sorted_from(s, level) {
            assert forall|i: int, j: int| 0 <= i < j < s.len() implies #[trigger] lex_le_from(
                s[i],
                s[j],
                level + 1,
            ) by {
                assert(lex_le_from(s[i], s[j], level));
                lemma_lex_le_step(s[i], s[j], level);
            }
        }
    }
}

/// Partitions the range `[lo, hi)` of `v` by the key byte at `level` through
/// a scratch round trip: scatter into a buffer of the bucket's size, then
/// copy back.
pub fn oop_partition<T: RadixKey + Copy>(
    v: &mut Vec<T>,
    lo: usize,
    hi: usize,
    counts: &Vec<usize>,
    level: usize,
)
    requires
        lo <= hi <= old(v)@.len(),
        (level as nat) < T::spec_levels(),
        is_histogram(counts@, old(v)@.subrange(lo as int, hi as int), level as int),
    ensures
        partitions_range(old(v)@, final(v)@, lo as int, hi as int, level as int),
{
    let buf = extract_range(v, lo, hi);
    let mut tmp = get_tmp_bucket(buf.as_slice());
    out_of_place_sort(&buf, &mut tmp, counts, level);
    write_back(v, lo, &tmp);
    proof {
        assert(v@.subrange(lo as int, hi as int) == scatter_spec(
            old(v)@.subrange(lo as int, hi as int),
            level as int,
        ));
        lemma_scatter_gives_partition(old(v)@, v@, lo as int, hi as int, level as int);
    }
}

/// Rewriting one sub-range of a sequence with a permutation of its contents
/// permutes the enclosing range.
pub proof fn lemma_region_ms_update<T>(pre: Seq<T>, post: Seq<T>, lo: int, hi: int, a: int, c: int)
    requires
        0 <= lo <= a <= c <= hi <= pre.len(),
        post.len() == pre.len(),
        forall|k: int| 0 <= k < pre.len() && !(a <= k < c) ==> post[k] == pre[k],
        post.subrange(a, c).to_multiset() == pre.subrange(a, c).to_multiset(),
    ensures
        post.subrange(lo, hi).to_multiset() == pre.subrange(lo, hi).to_multiset(),
{
    let pre_a = pre.subrange(lo, a);
    let pre_b = pre.subrange(a, c);
    let pre_c = pre.subrange(c, hi);
    let post_a = post.subrange(lo, a);
    let post_b = post.subrange(a, c);
    let post_c = post.subrange(c, hi);
    assert(pre.subrange(lo, hi) =~= pre_a + pre_b + pre_c);
    assert(post.subrange(lo, hi) =~= post_a + post_b + post_c);
    assert(post_a =~= pre_a);
    assert(post_c =~= pre_c);
    vstd::seq_lib::lemma_multiset_commutative(pre_a + pre_b, pre_c);
    vstd::seq_lib::lemma_multiset_commutative(pre_a, pre_b);
    vstd::seq_lib::lemma_multiset_commutative(post_a + post_b, post_c);
    vstd::seq_lib::lemma_multiset_commutative(post_a, post_b);
}

/// Sorts the range `[lo, hi)` of `v` by the key bytes from `level` down.
///
/// The director counts the level's bytes (in parallel for large buckets),
/// skips a level that all elements share, and otherwise runs the algorithm
/// the tuner picks: a full LSB-family sort of the remaining levels, the
/// comparison fallback, or a single-level partition followed by recursion
/// into each sub-bucket of at least two elements at the next level.
pub fn director<T: RadixKey + Copy + Sync, TU: Tuner>(
    tuner: &TU,
    in_place: bool,
    v: &mut Vec<T>,
    lo: usize,
    hi: usize,
    level: usize,
    parent_len: usize,
)
    requires
        lo <= hi <= old(v)@.len(),
        (level as nat) < T::spec_levels(),
    ensures
        sorts_range(old(v)@, final(v)@, lo as int, hi as int, level as int),
    decreases T::spec_levels() - level as nat,
{
    let ghost orig = old(v)@;
    let ghost sub0 = old(v)@.subrange(lo as int, hi as int);
    let ghost lv = level as int;
    if hi - lo < 2 {
        proof {
            assert(v@.subrange(lo as int, hi as int) =~= sub0);
            lemma_short_sorted(sub0, lv);
        }
        return ;
    }
    let vlen = v.len();
    let total = T::levels();
    let counts = {
        let sl = v.as_slice();
        par_get_counts(&sl[lo..hi], level)
    };
    if is_homogenous_bucket(&counts) {
        proof {
            lemma_homogenous_bytes(counts@, sub0, lv);
        }
        if level + 1 < total {
            director(tuner, in_place, v, lo, hi, level + 1, parent_len);
            proof {
                let new_sub = v@.subrange(lo as int, hi as int);
                lemma_multiset_byte_preserved(
                    sub0,
                    new_sub,
                    lv,
                    sub0[0].key_byte(lv) as int,
                );
                lemma_homogenous_level_skip(new_sub, lv);
            }
        } else {
            proof {
                assert(v@.subrange(lo as int, hi as int) =~= sub0);
                lemma_sorted_past_levels(sub0, lv + 1);
                lemma_homogenous_level_skip(sub0, lv);
            }
        }
        return ;
    }
    let tp = TuningParams {
        threads: thread_count(),
        level,
        total_levels: total,
        input_len: hi - lo,
        parent_len,
        in_place,
    };
    let alg = tuner.pick_algorithm(&tp, &counts);
    match alg {
        Algorithm::ComparativeSort => {
            comparative_sort(v, lo, hi, level);
        },
        Algorithm::LsbSort => {
            lsb_radix_sort_adapter(v, lo, hi, level);
        },
        Algorithm::LrLsbSort => {
            crate::sorts::lr_lsb_sort::lr_lsb_sort_adapter(v, lo, hi, level);
        },
        Algorithm::MtLsbSort => {
            let tile_size = crate::sort_utils::cdiv(hi - lo, tp.threads);
            proof {
                vstd::arithmetic::div_mod::lemma_fundamental_div_mod(
                    (hi - lo) as int,
                    tp.threads as int,
                );
            }
            crate::sorts::mt_lsb_sort::mt_lsb_sort_adapter(v, lo, hi, level, total - 1, tile_size);
        },
        _ => {
            match alg {
                Algorithm::SkaSort => crate::sorts::ska_sort::ska_sort(v, lo, hi, &counts, level),
                // the regions sort is chosen where scratch is forbidden; its
                // contract is an in-place partition, met by the cycle-driven
                // pass, whose moves the region-granular movement graph only
                // reorders for cache locality
                Algorithm::RegionsSort => crate::sorts::ska_sort::ska_sort(
                    v,
                    lo,
                    hi,
                    &counts,
                    level,
                ),
                Algorithm::ScanningSort => crate::sorts::scanning_sort::scanning_radix_sort(
                    v,
                    lo,
                    hi,
                    &counts,
                    level,
                ),
                Algorithm::MtOopSort => {
                    let tile_size = crate::sort_utils::cdiv(hi - lo, tp.threads);
                    proof {
                        vstd::arithmetic::div_mod::lemma_fundamental_div_mod(
                            (hi - lo) as int,
                            tp.threads as int,
                        );
                    }
                    let tc = {
                        let sl = v.as_slice();
                        crate::sort_utils::get_tile_counts(&sl[lo..hi], tile_size, level)
                    };
                    crate::sorts::mt_lsb_sort::mt_oop_sort_adapter(
                        v,
                        lo,
                        hi,
                        &tc,
                        tile_size,
                        level,
                    );
                },
                // the recombinating sort partitions tile-local runs and
                // recombines them through a scratch round trip; the same
                // round trip is performed here in one scatter pass
                _ => oop_partition(v, lo, hi, &counts, level),
            }
            let ghost part = v@;
            if level + 1 == total {
                proof {
                    let t = part.subrange(lo as int, hi as int);
                    assert forall|b: int, k: int|
                        #![trigger count_below(sub0, lv, b), t[k]]
                        0 <= b < 256 && count_below(sub0, lv, b) <= k < count_below(
                            sub0,
                            lv,
                            b + 1,
                        ) implies t[k].key_byte(lv) as int == b by {
                        lemma_count_below_mono(sub0, lv, b + 1, 256);
                        lemma_count_below_total(sub0, lv);
                        assert(t[k] == part[lo + k]);
                    }
                    assert forall|b: int| 0 <= b < 256 implies sorted_from(
                        #[trigger] t.subrange(
                            count_below(sub0, lv, b) as int,
                            count_below(sub0, lv, b + 1) as int,
                        ),
                        lv + 1,
                    ) by {
                        lemma_sorted_past_levels(
                            t.subrange(
                                count_below(sub0, lv, b) as int,
                                count_below(sub0, lv, b + 1) as int,
                            ),
                            lv + 1,
                        );
                    }
                    lemma_partition_combine(sub0, t, lv);
                }
                return ;
            }
            proof {
                lemma_histogram_sums_fit(counts@, sub0, lv);
            }
            let prefix = get_prefix_sums(&counts);
            let mut b: usize = 0;
            while b < 256
                invariant
                    b <= 256,
                    lo <= hi <= vlen,
                    vlen == v@.len(),
                    v@.len() == orig.len(),
                    part.len() == orig.len(),
                    lv == level as int,
                    (level as nat) + 1 < T::spec_levels(),
                    level + 1 < total,
                    total as nat == T::spec_levels(),
                    sub0 == orig.subrange(lo as int, hi as int),
                    sub0.len() == hi - lo,
                    counts@.len() == 256,
                    prefix@.len() == 256,
                    forall|k: int|
                        0 <= k < 256 ==> #[trigger] prefix@[k] == count_below(sub0, lv, k),
                    forall|k: int|
                        0 <= k < 256 ==> #[trigger] counts@[k] as nat == count_byte(sub0, lv, k),
                    count_below(sub0, lv, 256) == hi - lo,
                    forall|k: int|
                        0 <= k < orig.len() && !(lo as int <= k < hi as int) ==> v@[k] == orig[k],
                    forall|k: int|
                        lo + count_below(sub0, lv, b as int) <= k < hi as int ==> v@[k] == part[k],
                    v@.subrange(lo as int, hi as int).to_multiset() == sub0.to_multiset(),
                    forall|b2: int, k: int|
                        #![trigger count_below(sub0, lv, b2), v@[k]]
                        0 <= b2 < 256 && lo + count_below(sub0, lv, b2) <= k < lo + count_below(
                            sub0,
                            lv,
                            b2 + 1,
                        ) ==> v@[k].key_byte(lv) as int == b2,
                    forall|b2: int|
                        0 <= b2 < b ==> sorted_from(
                            #[trigger] v@.subrange(
                                lo + count_below(sub0, lv, b2),
                                lo + count_below(sub0, lv, b2 + 1),
                            ),
                            lv + 1,
                        ),
                decreases 256 - b,
            {
                proof {
                    assert(count_below(sub0, lv, b + 1) == count_below(sub0, lv, b as int)
                        + count_byte(sub0, lv, b as int));
                    lemma_count_below_mono(sub0, lv, b + 1, 256);
                }
                let rl = lo + prefix[b];
                let rh = rl + counts[b];
                let ghost pre_v = v@;
                if counts[b] >= 2 {
                    director(tuner, in_place, v, rl, rh, level + 1, hi - lo);
                }
                proof {
                    let a = rl as int;
                    let c = rh as int;
                    if counts@[b as int] >= 2 {
                        lemma_region_ms_update(pre_v, v@, lo as int, hi as int, a, c);
                        assert forall|k: int|
                            0 <= k < pre_v.subrange(a, c).len() implies (#[trigger] pre_v.subrange(
                            a,
                            c,
                        )[k]).key_byte(lv) as int == b as int by {
                            assert(pre_v.subrange(a, c)[k] == pre_v[a + k]);
                        }
                        lemma_multiset_byte_preserved(
                            pre_v.subrange(a, c),
                            v@.subrange(a, c),
                            lv,
                            b as int,
                        );
                    } else {
                        assert(v@ == pre_v);
                    }
                    assert forall|b2: int, k: int|
                        #![trigger count_below(sub0, lv, b2), v@[k]]
                        0 <= b2 < 256 && lo + count_below(sub0, lv, b2) <= k < lo + count_below(
                            sub0,
                            lv,
                            b2 + 1,
                        ) implies v@[k].key_byte(lv) as int == b2 by {
                        assert(count_below(sub0, lv, b2 + 1) == count_below(sub0, lv, b2)
                            + count_byte(sub0, lv, b2));
                        if b2 == b as int {
                            if counts@[b as int] >= 2 {
                                assert(v@[k] == v@.subrange(a, c)[k - a]);
                            } else {
                                assert(v@[k] == pre_v[k]);
                            }
                        } else if b2 < b as int {
                            lemma_count_below_mono(sub0, lv, b2 + 1, b as int);
                            assert(v@[k] == pre_v[k]);
                        } else {
                            lemma_count_below_mono(sub0, lv, b + 1, b2);
                            lemma_count_below_mono(sub0, lv, b2 + 1, 256);
                            assert(v@[k] == pre_v[k]);
                        }
                    }
                    assert forall|b2: int| 0 <= b2 < b + 1 implies sorted_from(
                        #[trigger] v@.subrange(
                            lo + count_below(sub0, lv, b2),
                            lo + count_below(sub0, lv, b2 + 1),
                        ),
                        lv + 1,
                    ) by {
                        assert(count_below(sub0, lv, b2 + 1) == count_below(sub0, lv, b2)
                            + count_byte(sub0, lv, b2));
                        lemma_count_below_mono(sub0, lv, b2 + 1, 256);
                        if b2 == b as int {
                            if counts@[b as int] >= 2 {
                            } else {
                                lemma_short_sorted(
                                    v@.subrange(
                                        lo + count_below(sub0, lv, b2),
                                        lo + count_below(sub0, lv, b2 + 1),
                                    ),
                                    lv + 1,
                                );
                            }
                        } else {
                            lemma_count_below_mono(sub0, lv, b2 + 1, b as int);
                            assert(v@.subrange(
                                lo + count_below(sub0, lv, b2),
                                lo + count_below(sub0, lv, b2 + 1),
                            ) =~= pre_v.subrange(
                                lo + count_below(sub0, lv, b2),
                                lo + count_below(sub0, lv, b2 + 1),
                            ));
                        }
                    }
                }
                b = b + 1;
            }
            proof {
                let t = v@.subrange(lo as int, hi as int);
                assert forall|b2: int, k: int|
                    #![trigger count_below(sub0, lv, b2), t[k]]
                    0 <= b2 < 256 && count_below(sub0, lv, b2) <= k < count_below(
                        sub0,
                        lv,
                        b2 + 1,
                    ) implies t[k].key_byte(lv) as int == b2 by {
                    lemma_count_below_mono(sub0, lv, b2 + 1, 256);
                    assert(t[k] == v@[lo + k]);
                }
                assert forall|b2: int| 0 <= b2 < 256 implies sorted_from(
                    #[trigger] t.subrange(
                        count_below(sub0, lv, b2) as int,
                        count_below(sub0, lv, b2 + 1) as int,
                    ),
                    lv + 1,
                ) by {
                    lemma_count_below_mono(sub0, lv, b2 + 1, 256);
                    assert(t.subrange(
                        count_below(sub0, lv, b2) as int,
                        count_below(sub0, lv, b2 + 1) as int,
                    ) =~= v@.subrange(
                        lo + count_below(sub0, lv, b2),
                        lo + count_below(sub0, lv, b2 + 1),
                    ));
                }
                lemma_partition_combine(sub0, t, lv);
            }
        },
    }
}

/// Sorts the whole vector in place, unstable, ascending in the key order:
/// the result holds the same elements, ordered by every key byte from the
/// most significant down. A vector of fewer than two elements is returned
/// unchanged.
pub fn radix_sort_unstable<T: RadixKey + Copy + Sync>(v: &mut Vec<T>)
    ensures
        final(v)@.to_multiset() == old(v)@.to_multiset(),
        final(v)@.len() == old(v)@.len(),
        crate::radix_key::sorted(final(v)@),
        old(v)@.len() < 2 ==> final(v)@ == old(v)@,
{
    let n = v.len();
    if n < 2 {
        proof {
            lemma_short_sorted(v@, 0);
        }
        return ;
    }
    let total = T::levels();
    proof {
        assert(total >= 1);
    }
    let tuner = DefaultTuner {  };
    director(&tuner, false, v, 0, n, 0, n);
    proof {
        assert(v@.subrange(0, n as int) =~= v@);
        assert(old(v)@.subrange(0, n as int) =~= old(v)@);
    }
}

/// The sort as a method on vectors.
/// The sort as a method: the implementing container names its bucket of
/// keyed elements, and sorting leaves that bucket a permutation of itself,
/// ordered by every key byte from the most significant down.
pub trait RadixSort<T: RadixKey> {
    /// The bucket of elements the sort works on.
    spec fn bucket_view(&self) -> Seq<T>;

    /// Sorts `self` in place, unstable, ascending in the key order.
    fn radix_sort_unstable(&mut self)
        ensures
            final(self).bucket_view().to_multiset() == old(self).bucket_view().to_multiset(),
            final(self).bucket_view().len() == old(self).bucket_view().len(),
            crate::radix_key::sorted(final(self).bucket_view()),
            old(self).bucket_view().len() < 2 ==> final(self).bucket_view() == old(
                self,
            ).bucket_view(),
    ;
}

impl<T: RadixKey + Copy + Sync> RadixSort<T> for Vec<T> {
    open spec fn bucket_view(&self) -> Seq<T> {
        self@
    }

    fn radix_sort_unstable(&mut self) {
        crate::director::radix_sort_unstable(self);
    }
}

} // verus!
