//! The comparative fallback: below a small bucket size the overhead of a
//! counting pass dominates, so tiny buckets are finished with an in-place
//! insertion sort over the key-byte order.

use vstd::prelude::*;
use crate::radix_key::{
    RadixKey, lex_le_from, sorted_from, key_le_exec_from, lemma_lex_le_total, lemma_lex_le_trans,
};
use crate::sort_utils::vec_swap;

verus! {

/// The range `[lo, hi)` of `new_v` holds the same elements `old_v` held
/// there, ordered by the key bytes from `level` down; the rest of the vector
/// is untouched. What every full sort of a bucket guarantees.
pub open spec fn sorts_range<T: RadixKey>(
    old_v: Seq<T>,
    new_v: Seq<T>,
    lo: int,
    hi: int,
    level: int,
) -> bool {
    &&& new_v.len() == old_v.len()
    &&& forall|k: int| 0 <= k < old_v.len() && !(lo <= k < hi) ==> new_v[k] == old_v[k]
    &&& new_v.subrange(lo, hi).to_multiset() == old_v.subrange(lo, hi).to_multiset()
    &&& sorted_from(new_v.subrange(lo, hi), level)
}

/// Sorts the range `[lo, hi)` of `v` in place by the key bytes from `level`
/// down, comparing elements pairwise: the fallback for tiny buckets.
pub fn comparative_sort<T: RadixKey + Copy>(v: &mut Vec<T>, lo: usize, hi: usize, level: usize)
    requires
        lo <= hi <= old(v)@.len(),
    ensures
        sorts_range(old(v)@, final(v)@, lo as int, hi as int, level as int),
{
    let ghost lv = level as int;
    if hi - lo < 2 {
        proof {
            assert(v@.subrange(lo as int, hi as int) =~= old(v)@.subrange(lo as int, hi as int));
        }
        return ;
    }
    let mut i: usize = lo + 1;
    while i < hi
        invariant
            lo < i <= hi,
            hi <= v@.len(),
            lv == level as int,
            v@.len() == old(v)@.len(),
            forall|k: int| 0 <= k < v@.len() && !(lo as int <= k < hi as int) ==> v@[k] == old(
                v,
            )@[k],
            v@.subrange(lo as int, hi as int).to_multiset() == old(v)@.subrange(
                lo as int,
                hi as int,
            ).to_multiset(),
            forall|a: int, b: int|
                lo <= a < b < i ==> lex_le_from(#[trigger] v@[a], #[trigger] v@[b], lv),
        decreases hi - i,
    {
        let mut j: usize = i;
        loop
            invariant
                lo <= j <= i < hi <= v@.len(),
                lv == level as int,
                v@.len() == old(v)@.len(),
                forall|k: int| 0 <= k < v@.len() && !(lo as int <= k < hi as int) ==> v@[k] == old(
                    v,
                )@[k],
                v@.subrange(lo as int, hi as int).to_multiset() == old(v)@.subrange(
                    lo as int,
                    hi as int,
                ).to_multiset(),
                forall|a: int, b: int|
                    lo <= a < b <= i && b != j ==> lex_le_from(
                        #[trigger] v@[a],
                        #[trigger] v@[b],
                        lv,
                    ),
            ensures
                j == lo || lex_le_from(v@[j - 1], v@[j as int], lv),
            decreases j,
        {
            if j == lo {
                break ;
            }
            if key_le_exec_from(&v[j - 1], &v[j], level) {
                break ;
            }
            proof {
                lemma_lex_le_total(v@[j - 1], v@[j as int], lv);
            }
            let ghost pre = v@;
            vec_swap(v, j - 1, j);
            proof {
                assert(pre.subrange(lo as int, hi as int).to_multiset() == v@.subrange(
                    lo as int,
                    hi as int,
                ).to_multiset()) by {
                    assert(v@.subrange(lo as int, hi as int) =~= pre.subrange(
                        lo as int,
                        hi as int,
                    ).update(j - 1 - lo, pre[j as int]).update(j - lo, pre[j - 1]));
                    crate::sort_utils::lemma_swap_multiset(
                        pre.subrange(lo as int, hi as int),
                        j - 1 - lo,
                        j - lo,
                    );
                }
                assert forall|a: int, b: int|
                    lo <= a < b <= i && b != j - 1 implies lex_le_from(
                    #[trigger] v@[a],
                    #[trigger] v@[b],
                    lv,
                ) by {
                    if b == j {
                        if a == j - 1 {
                        } else {
                            assert(pre[a] == v@[a]);
                            assert(v@[b] == pre[j - 1]);
                        }
                    } else if a == j - 1 {
                        assert(v@[a] == pre[j as int]);
                        assert(lex_le_from(pre[j as int], pre[b], lv));
                    } else if a == j {
                        assert(v@[a] == pre[j - 1]);
                        assert(lex_le_from(pre[j - 1], pre[b], lv));
                    } else {
                        assert(v@[a] == pre[a] && v@[b] == pre[b]);
                    }
                }
            }
            j = j - 1;
        }
        proof {
            assert forall|a: int, b: int| lo <= a < b <= i implies lex_le_from(
                #[trigger] v@[a],
                #[trigger] v@[b],
                lv,
            ) by {
                if b == j {
                    assert(j > lo);
                    assert(lex_le_from(v@[j - 1], v@[j as int], lv));
                    if a < j - 1 {
                        assert(lex_le_from(v@[a], v@[j - 1], lv));
                        lemma_lex_le_trans(v@[a], v@[j - 1], v@[j as int], lv);
                    }
                }
            }
        }
        i = i + 1;
    }
    proof {
        let sub = v@.subrange(lo as int, hi as int);
        assert forall|a: int, b: int| 0 <= a < b < sub.len() implies #[trigger] lex_le_from(
            sub[a],
            sub[b],
            lv,
        ) by {
            assert(sub[a] == v@[lo + a] && sub[b] == v@[lo + b]);
        }
    }
}

} // verus!
