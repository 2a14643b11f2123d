//! The LSB radix sort adapter: out-of-place scatter passes from the least
//! significant byte up to a starting level, alternating a bucket with a
//! scratch buffer of the same size. Each pass is a stable partition, so the
//! order established by earlier passes is kept among equal bytes, and after
//! the last pass the bucket is ordered from `start_level` down.

use vstd::prelude::*;
use crate::radix_key::{RadixKey, lex_le_from, sorted_from};
use crate::scatter::{lemma_scatter_multiset, lemma_scatter_sorted};
use crate::sort_utils::{extract_range, get_tmp_bucket, get_counts, write_back};
use crate::sorts::comparative_sort::sorts_range;
use crate::sorts::out_of_place_sort::out_of_place_sort;

verus! {

/// Any sequence is ordered once the comparison starts past its last level.
pub proof fn lemma_sorted_past_levels<T: RadixKey>(s: Seq<T>, level: int)
    requires
        level >= T::spec_levels(),
    ensures
        sorted_from(s, level),
{
    assert forall|i: int, j: int| 0 <= i < j < s.len() implies #[trigger] lex_le_from(
        s[i],
        s[j],
        level,
    ) by {}
}

/// A sequence of fewer than two elements is ordered at any level.
pub proof fn lemma_short_sorted<T: RadixKey>(s: Seq<T>, level: int)
    requires
        s.len() < 2,
    ensures
        sorted_from(s, level),
{
}

/// Sorts the range `[lo, hi)` of `v` by the key bytes from `start_level`
/// down, with one stable scatter pass per level from the least significant
/// byte upward, alternating between the bucket and a scratch buffer.
pub fn lsb_radix_sort_adapter<T: RadixKey + Copy>(
    v: &mut Vec<T>,
    lo: usize,
    hi: usize,
    start_level: usize,
)
    requires
        lo <= hi <= old(v)@.len(),
        (start_level as nat) < T::spec_levels(),
    ensures
        sorts_range(old(v)@, final(v)@, lo as int, hi as int, start_level as int),
{
    let ghost orig = old(v)@.subrange(lo as int, hi as int);
    if hi - lo < 2 {
        proof {
            assert(v@.subrange(lo as int, hi as int) =~= orig);
            lemma_short_sorted(orig, start_level as int);
        }
        return ;
    }
    let mut cur = extract_range(v, lo, hi);
    let mut tmp = get_tmp_bucket(cur.as_slice());
    let total = T::levels();
    let mut l = total;
    proof {
        lemma_sorted_past_levels(cur@, total as int);
    }
    while l > start_level
        invariant
            start_level <= l <= total,
            total as nat == T::spec_levels(),
            (start_level as nat) < T::spec_levels(),
            cur@.len() == orig.len(),
            tmp@.len() == orig.len(),
            cur@.to_multiset() == orig.to_multiset(),
            sorted_from(cur@, l as int),
        decreases l,
    {
        l = l - 1;
        let counts = get_counts(cur.as_slice(), l);
        out_of_place_sort(&cur, &mut tmp, &counts, l);
        proof {
            lemma_scatter_multiset(cur@, l as int);
            lemma_scatter_sorted(cur@, l as int);
        }
        core::mem::swap(&mut cur, &mut tmp);
    }
    write_back(v, lo, &cur);
    proof {
        assert(v@.subrange(lo as int, lo as int + orig.len() as int) == cur@);
    }
}

} // verus!
