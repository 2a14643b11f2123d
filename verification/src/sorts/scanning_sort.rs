//! The scanning sort: a cooperative in-place single-byte partition. The 256
//! output buckets are laid out over the input by the histogram's prefix
//! sums; each keeps a read head and a write head. A scan visits the buckets
//! in rotating order: it reads a bounded run ahead of the bucket's read
//! head, stashing each element by its byte, then writes stashed elements of
//! the bucket's own byte into the span the read head has vacated. Both heads
//! only advance, the write head never passes the read head, and every
//! element read is written back to the bucket of its byte exactly once, so
//! every bucket's write head reaches its length and the pass terminates.

use vstd::prelude::*;
use vstd::multiset::Multiset;
use nanorand::Rng;
use crate::radix_key::RadixKey;
use crate::scatter::{
    count_byte, count_below, filter_byte, lemma_filter_byte_take_succ, lemma_filter_byte_empty,
    lemma_count_below_mono, lemma_count_below_total, lemma_count_byte_take_skip,
};
use crate::sort_utils::is_histogram;

verus! {

/// The sum of `f` over the integers below `n`.
pub open spec fn sum_nat(f: spec_fn(int) -> nat, n: int) -> nat
    decreases n,
{
    if n <= 0 {
        0
    } else {
        sum_nat(f, n - 1) + f(n - 1)
    }
}

/// The multiset union of `f` over the integers below `n`.
pub open spec fn sum_ms<T>(f: spec_fn(int) -> Multiset<T>, n: int) -> Multiset<T>
    decreases n,
{
    if n <= 0 {
        Multiset::empty()
    } else {
        sum_ms(f, n - 1).add(f(n - 1))
    }
}

/// Sums of pointwise-equal families are equal.
pub proof fn lemma_sum_nat_agree(f: spec_fn(int) -> nat, g: spec_fn(int) -> nat, n: int)
    requires
        forall|c: int| 0 <= c < n ==> #[trigger] f(c) == g(c),
    ensures
        sum_nat(f, n) == sum_nat(g, n),
    decreases n,
{
    if n > 0 {
        lemma_sum_nat_agree(f, g, n - 1);
    }
}

/// Multiset sums of pointwise-equal families are equal.
pub proof fn lemma_sum_ms_agree<T>(
    f: spec_fn(int) -> Multiset<T>,
    g: spec_fn(int) -> Multiset<T>,
    n: int,
)
    requires
        forall|c: int| 0 <= c < n ==> #[trigger] f(c) == g(c),
    ensures
        sum_ms(f, n) == sum_ms(g, n),
    decreases n,
{
    if n > 0 {
        lemma_sum_ms_agree(f, g, n - 1);
    }
}

/// Changing a family at one index changes its sum by the difference there.
pub proof fn lemma_sum_nat_update(
    f: spec_fn(int) -> nat,
    g: spec_fn(int) -> nat,
    n: int,
    c0: int,
)
    requires
        0 <= c0 < n,
        forall|c: int| 0 <= c < n && c != c0 ==> #[trigger] f(c) == g(c),
    ensures
        sum_nat(g, n) + f(c0) == sum_nat(f, n) + g(c0),
    decreases n,
{
    if c0 == n - 1 {
        lemma_sum_nat_agree(f, g, n - 1);
    } else {
        lemma_sum_nat_update(f, g, n - 1, c0);
    }
}

/// Changing a family at one index changes its multiset sum by the difference
/// there.
pub proof fn lemma_sum_ms_update<T>(
    f: spec_fn(int) -> Multiset<T>,
    g: spec_fn(int) -> Multiset<T>,
    n: int,
    c0: int,
)
    requires
        0 <= c0 < n,
        forall|c: int| 0 <= c < n && c != c0 ==> #[trigger] f(c) == g(c),
    ensures
        sum_ms(g, n).add(f(c0)) == sum_ms(f, n).add(g(c0)),
    decreases n,
{
    broadcast use vstd::multiset::group_multiset_axioms;

    if c0 == n - 1 {
        lemma_sum_ms_agree(f, g, n - 1);
        assert forall|x: T| true implies #[trigger] sum_ms(g, n).add(f(c0)).count(x) == sum_ms(
            f,
            n,
        ).add(g(c0)).count(x) by {
            assert(sum_ms(g, n).count(x) == sum_ms(g, n - 1).count(x) + g(n - 1).count(x));
            assert(sum_ms(f, n).count(x) == sum_ms(f, n - 1).count(x) + f(n - 1).count(x));
        }
        assert(sum_ms(g, n).add(f(c0)) =~= sum_ms(f, n).add(g(c0)));
    } else {
        lemma_sum_ms_update(f, g, n - 1, c0);
        assert forall|x: T| true implies #[trigger] sum_ms(g, n).add(f(c0)).count(x) == sum_ms(
            f,
            n,
        ).add(g(c0)).count(x) by {
            assert(sum_ms(g, n - 1).add(f(c0)).count(x) == sum_ms(f, n - 1).add(g(c0)).count(
                x,
            ));
            assert(sum_ms(g, n).count(x) == sum_ms(g, n - 1).count(x) + g(n - 1).count(x));
            assert(sum_ms(f, n).count(x) == sum_ms(f, n - 1).count(x) + f(n - 1).count(x));
            assert(g(n - 1) == f(n - 1));
        }
        assert(sum_ms(g, n).add(f(c0)) =~= sum_ms(f, n).add(g(c0)));
    }
}

/// Changing a family at two indices changes its multiset sum by the two
/// differences.
pub proof fn lemma_sum_ms_update2<T>(
    f: spec_fn(int) -> Multiset<T>,
    g: spec_fn(int) -> Multiset<T>,
    n: int,
    c0: int,
    c1: int,
)
    requires
        0 <= c0 < n,
        0 <= c1 < n,
        c0 != c1,
        forall|c: int| 0 <= c < n && c != c0 && c != c1 ==> #[trigger] f(c) == g(c),
    ensures
        sum_ms(g, n).add(f(c0)).add(f(c1)) == sum_ms(f, n).add(g(c0)).add(g(c1)),
{
    broadcast use vstd::multiset::group_multiset_axioms;

    let h = |c: int| if c == c0 {
        g(c0)
    } else {
        f(c)
    };
    lemma_sum_ms_update(f, h, n, c0);
    lemma_sum_ms_update(h, g, n, c1);
    assert forall|x: T| true implies #[trigger] sum_ms(g, n).add(f(c0)).add(f(c1)).count(x)
        == sum_ms(f, n).add(g(c0)).add(g(c1)).count(x) by {
        assert(sum_ms(h, n).add(f(c0)).count(x) == sum_ms(f, n).add(h(c0)).count(x));
        assert(sum_ms(g, n).add(h(c1)).count(x) == sum_ms(h, n).add(g(c1)).count(x));
        assert(h(c0) == g(c0));
        assert(h(c1) == f(c1));
    }
    assert(sum_ms(g, n).add(f(c0)).add(f(c1)) =~= sum_ms(f, n).add(g(c0)).add(g(c1)));
}

/// A sum of zeros is zero.
pub proof fn lemma_sum_nat_zero(f: spec_fn(int) -> nat, n: int)
    requires
        forall|c: int| 0 <= c < n ==> #[trigger] f(c) == 0,
    ensures
        sum_nat(f, n) == 0,
    decreases n,
{
    if n > 0 {
        lemma_sum_nat_zero(f, n - 1);
    }
}

/// The byte-region of `w` for bucket `b`, under the boundaries the histogram
/// of `sub0` lays out from `lo`.
pub open spec fn region_of<T: RadixKey>(
    w: Seq<T>,
    sub0: Seq<T>,
    lo: int,
    lv: int,
    b: int,
) -> Seq<T> {
    w.subrange(lo + count_below(sub0, lv, b), lo + count_below(sub0, lv, b + 1))
}

/// Concatenating the first `n` byte-regions of `w` gives the matching prefix
/// of the full range, so their multisets sum to the prefix's multiset.
pub proof fn lemma_region_ms_prefix<T: RadixKey>(
    w: Seq<T>,
    sub0: Seq<T>,
    lo: int,
    lv: int,
    n: int,
)
    requires
        0 <= n <= 256,
        0 <= lo,
        lo + count_below(sub0, lv, 256) <= w.len(),
    ensures
        sum_ms(|b: int| region_of(w, sub0, lo, lv, b).to_multiset(), n) == w.subrange(
            lo,
            lo + count_below(sub0, lv, n),
        ).to_multiset(),
    decreases n,
{
    let f = |b: int| region_of(w, sub0, lo, lv, b).to_multiset();
    lemma_count_below_mono(sub0, lv, n, 256);
    if n == 0 {
        assert(w.subrange(lo, lo).to_multiset() =~= Multiset::<T>::empty()) by {
            assert(w.subrange(lo, lo) =~= Seq::<T>::empty());
            Seq::<T>::empty().to_multiset_ensures();
            assert(Seq::<T>::empty().to_multiset().len() == 0);
            assert(Seq::<T>::empty().to_multiset() =~= Multiset::<T>::empty());
        }
    } else {
        lemma_region_ms_prefix(w, sub0, lo, lv, n - 1);
        lemma_count_below_mono(sub0, lv, n - 1, n);
        let pre = w.subrange(lo, lo + count_below(sub0, lv, n - 1));
        let reg = region_of(w, sub0, lo, lv, n - 1);
        assert(w.subrange(lo, lo + count_below(sub0, lv, n)) =~= pre + reg);
        vstd::seq_lib::lemma_multiset_commutative(pre, reg);
    }
}

/// Bin `t` of the histogram of a prefix of regions is the sum of bin `t`
/// over those regions.
pub proof fn lemma_region_count_prefix<T: RadixKey>(
    w: Seq<T>,
    sub0: Seq<T>,
    lo: int,
    lv: int,
    t: int,
    n: int,
)
    requires
        0 <= n <= 256,
        0 <= lo,
        lo + count_below(sub0, lv, 256) <= w.len(),
    ensures
        sum_nat(|b: int| count_byte(region_of(w, sub0, lo, lv, b), lv, t), n) == count_byte(
            w.subrange(lo, lo + count_below(sub0, lv, n)),
            lv,
            t,
        ),
    decreases n,
{
    lemma_count_below_mono(sub0, lv, n, 256);
    if n == 0 {
        assert(w.subrange(lo, lo) =~= Seq::<T>::empty());
        lemma_filter_byte_empty::<T>(lv, t);
    } else {
        lemma_region_count_prefix(w, sub0, lo, lv, t, n - 1);
        lemma_count_below_mono(sub0, lv, n - 1, n);
        let pre = w.subrange(lo, lo + count_below(sub0, lv, n - 1));
        let reg = region_of(w, sub0, lo, lv, n - 1);
        assert(w.subrange(lo, lo + count_below(sub0, lv, n)) =~= pre + reg);
        crate::scatter::lemma_count_byte_concat(pre, reg, lv, t);
    }
}

/// The sum of an integer family over the integers below `n`.
pub open spec fn sum_int(f: spec_fn(int) -> int, n: int) -> int
    decreases n,
{
    if n <= 0 {
        0
    } else {
        sum_int(f, n - 1) + f(n - 1)
    }
}

/// Changing an integer family at one index changes its sum by the difference.
pub proof fn lemma_sum_int_update(
    f: spec_fn(int) -> int,
    g: spec_fn(int) -> int,
    n: int,
    c0: int,
)
    requires
        0 <= c0 < n,
        forall|c: int| 0 <= c < n && c != c0 ==> #[trigger] f(c) == g(c),
    ensures
        sum_int(g, n) == sum_int(f, n) - f(c0) + g(c0),
    decreases n,
{
    if c0 == n - 1 {
        lemma_sum_int_agree(f, g, n - 1);
    } else {
        lemma_sum_int_update(f, g, n - 1, c0);
    }
}

/// Sums of pointwise-equal integer families are equal.
pub proof fn lemma_sum_int_agree(f: spec_fn(int) -> int, g: spec_fn(int) -> int, n: int)
    requires
        forall|c: int| 0 <= c < n ==> #[trigger] f(c) == g(c),
    ensures
        sum_int(f, n) == sum_int(g, n),
    decreases n,
{
    if n > 0 {
        lemma_sum_int_agree(f, g, n - 1);
    }
}

/// A sum of nonnegative terms is nonnegative.
pub proof fn lemma_sum_int_nonneg(f: spec_fn(int) -> int, n: int)
    requires
        forall|c: int| 0 <= c < n ==> #[trigger] f(c) >= 0,
    ensures
        sum_int(f, n) >= 0,
    decreases n,
{
    if n > 0 {
        lemma_sum_int_nonneg(f, n - 1);
    }
}

/// The written span of scanner bucket `b`: behind its write head.
pub open spec fn written_part<T: RadixKey>(
    v: Seq<T>,
    sub0: Seq<T>,
    writes: Seq<usize>,
    lo: int,
    lv: int,
    b: int,
) -> Seq<T> {
    v.subrange(lo + count_below(sub0, lv, b), lo + count_below(sub0, lv, b) + writes[b])
}

/// The unread span of scanner bucket `b`: past its read head.
pub open spec fn unread_part<T: RadixKey>(
    v: Seq<T>,
    sub0: Seq<T>,
    reads: Seq<usize>,
    lo: int,
    lv: int,
    b: int,
) -> Seq<T> {
    v.subrange(lo + count_below(sub0, lv, b) + reads[b], lo + count_below(sub0, lv, b + 1))
}

/// The live contents per scanner bucket: what is written back, what sits in
/// the stash, and what is still unread. The span between the heads is dead.
pub open spec fn live_fam<T: RadixKey>(
    v: Seq<T>,
    sub0: Seq<T>,
    reads: Seq<usize>,
    writes: Seq<usize>,
    stash: Seq<Vec<T>>,
    lo: int,
    lv: int,
) -> spec_fn(int) -> Multiset<T> {
    |b: int|
        written_part(v, sub0, writes, lo, lv, b).to_multiset().add(
            stash[b]@.to_multiset(),
        ).add(unread_part(v, sub0, reads, lo, lv, b).to_multiset())
}

/// How many byte-`t` elements each bucket's unread span still holds.
pub open spec fn unread_fam<T: RadixKey>(
    v: Seq<T>,
    sub0: Seq<T>,
    reads: Seq<usize>,
    lo: int,
    lv: int,
    t: int,
) -> spec_fn(int) -> nat {
    |c: int| count_byte(unread_part(v, sub0, reads, lo, lv, c), lv, t)
}

/// The scanning sort's state invariant over the scanner buckets: heads in
/// order, written prefixes already in their byte's bucket, stashes byte-pure,
/// every not-yet-written byte-`t` element accounted for in a stash or an
/// unread span, and the live contents a permutation of the original bucket.
pub open spec fn scan_inv<T: RadixKey>(
    orig: Seq<T>,
    v: Seq<T>,
    reads: Seq<usize>,
    writes: Seq<usize>,
    stash: Seq<Vec<T>>,
    counts: Seq<usize>,
    lo: int,
    hi: int,
    lv: int,
) -> bool {
    let sub0 = orig.subrange(lo, hi);
    &&& 0 <= lo <= hi <= orig.len()
    &&& v.len() == orig.len()
    &&& reads.len() == 256
    &&& writes.len() == 256
    &&& stash.len() == 256
    &&& counts.len() == 256
    &&& is_histogram(counts, sub0, lv)
    &&& count_below(sub0, lv, 256) == hi - lo
    &&& forall|k: int| 0 <= k < orig.len() && !(lo <= k < hi) ==> v[k] == orig[k]
    &&& forall|b: int| 0 <= b < 256 ==> writes[b] <= #[trigger] reads[b] && reads[b] <= counts[b]
    &&& forall|b: int, k: int|
        #![trigger count_below(sub0, lv, b), v[k]]
        0 <= b < 256 && lo + count_below(sub0, lv, b) <= k < lo + count_below(sub0, lv, b)
            + writes[b] ==> v[k].key_byte(lv) as int == b
    &&& forall|b: int, j: int|
        0 <= b < 256 && 0 <= j < stash[b]@.len() ==> (#[trigger] stash[b]@[j]).key_byte(
            lv,
        ) as int == b
    &&& forall|b: int|
        0 <= b < 256 ==> writes[b] + stash[b]@.len() + #[trigger] sum_nat(
            unread_fam(v, sub0, reads, lo, lv, b),
            256,
        ) == counts[b]
    &&& sum_ms(live_fam(v, sub0, reads, writes, stash, lo, lv), 256) == sub0.to_multiset()
}

/// How much scanning work is left: unread plus unwritten elements over all
/// scanner buckets. Every read or write step lowers it by one.
pub open spec fn scan_measure(reads: Seq<usize>, writes: Seq<usize>, counts: Seq<usize>) -> int {
    sum_int(|b: int| 2 * counts[b] - reads[b] - writes[b], 256)
}

/// Advancing one read head lowers the measure by one.
proof fn lemma_measure_read(
    reads: Seq<usize>,
    reads2: Seq<usize>,
    writes: Seq<usize>,
    counts: Seq<usize>,
    b: int,
)
    requires
        0 <= b < 256,
        reads.len() == 256,
        reads2 == reads.update(b, (reads[b] + 1) as usize),
        reads[b] < usize::MAX,
    ensures
        scan_measure(reads2, writes, counts) == scan_measure(reads, writes, counts) - 1,
{
    let f = |c: int| 2 * counts[c] - reads[c] - writes[c];
    let g = |c: int| 2 * counts[c] - reads2[c] - writes[c];
    lemma_sum_int_update(f, g, 256, b);
}

/// Advancing one write head lowers the measure by one.
proof fn lemma_measure_write(
    reads: Seq<usize>,
    writes: Seq<usize>,
    writes2: Seq<usize>,
    counts: Seq<usize>,
    b: int,
)
    requires
        0 <= b < 256,
        writes.len() == 256,
        writes2 == writes.update(b, (writes[b] + 1) as usize),
        writes[b] < usize::MAX,
    ensures
        scan_measure(reads, writes2, counts) == scan_measure(reads, writes, counts) - 1,
{
    let f = |c: int| 2 * counts[c] - reads[c] - writes[c];
    let g = |c: int| 2 * counts[c] - reads[c] - writes2[c];
    lemma_sum_int_update(f, g, 256, b);
}

/// The measure is nonnegative while the invariant holds.
proof fn lemma_measure_nonneg(
    reads: Seq<usize>,
    writes: Seq<usize>,
    counts: Seq<usize>,
)
    requires
        reads.len() == 256,
        forall|b: int| 0 <= b < 256 ==> writes[b] <= #[trigger] reads[b] && reads[b] <= counts[b],
    ensures
        scan_measure(reads, writes, counts) >= 0,
{
    let f = |c: int| 2 * counts[c] - reads[c] - writes[c];
    assert forall|c: int| 0 <= c < 256 implies #[trigger] f(c) >= 0 by {
        assert(reads[c] <= counts[c]);
    }
    lemma_sum_int_nonneg(f, 256);
}

/// One read step: the element under bucket `b`'s read head moves into the
/// stash of its byte and the read head advances. The invariant is preserved.
proof fn lemma_read_step<T: RadixKey>(
    orig: Seq<T>,
    v: Seq<T>,
    reads: Seq<usize>,
    writes: Seq<usize>,
    stash: Seq<Vec<T>>,
    new_stash: Seq<Vec<T>>,
    counts: Seq<usize>,
    lo: int,
    hi: int,
    lv: int,
    b: int,
    x: T,
)
    requires
        scan_inv(orig, v, reads, writes, stash, counts, lo, hi, lv),
        0 <= b < 256,
        reads[b] < counts[b],
        x == v[lo + count_below(orig.subrange(lo, hi), lv, b) + reads[b]],
        new_stash.len() == 256,
        new_stash[x.key_byte(lv) as int]@ == stash[x.key_byte(lv) as int]@.push(x),
        forall|c: int|
            0 <= c < 256 && c != x.key_byte(lv) as int ==> #[trigger] new_stash[c] == stash[c],
    ensures
        scan_inv(
            orig,
            v,
            reads.update(b, (reads[b] + 1) as usize),
            writes,
            new_stash,
            counts,
            lo,
            hi,
            lv,
        ),
{
    broadcast use vstd::multiset::group_multiset_axioms;

    let sub0 = orig.subrange(lo, hi);
    let bx = x.key_byte(lv) as int;
    let reads2 = reads.update(b, (reads[b] + 1) as usize);
    let pos = lo + count_below(sub0, lv, b) + reads[b];
    assert(count_below(sub0, lv, b + 1) == count_below(sub0, lv, b) + count_byte(sub0, lv, b));
    lemma_count_below_mono(sub0, lv, b + 1, 256);
    assert(pos < lo + count_below(sub0, lv, b + 1));
    let u_old = unread_part(v, sub0, reads, lo, lv, b);
    let u_new = unread_part(v, sub0, reads2, lo, lv, b);
    assert(u_old.len() > 0);
    assert(u_old[0] == x);
    assert(u_new =~= u_old.skip(1));
    assert(u_old.take(1) =~= Seq::<T>::empty().push(x));

    // stash purity
    assert forall|c: int, j: int|
        0 <= c < 256 && 0 <= j < new_stash[c]@.len() implies (#[trigger] new_stash[c]@[j]).key_byte(
        lv,
    ) as int == c by {
        if c == bx {
            if j < stash[c]@.len() {
                assert(new_stash[c]@[j] == stash[c]@[j]);
            } else {
                assert(new_stash[c]@[j] == x);
            }
        } else {
            assert(new_stash[c] == stash[c]);
        }
    }

    // counting
    assert forall|t: int| 0 <= t < 256 implies writes[t] + new_stash[t]@.len() + #[trigger] sum_nat(
        unread_fam(v, sub0, reads2, lo, lv, t),
        256,
    ) == counts[t] by {
        let f = unread_fam(v, sub0, reads, lo, lv, t);
        let g = unread_fam(v, sub0, reads2, lo, lv, t);
        assert forall|c: int| 0 <= c < 256 && c != b implies #[trigger] f(c) == g(c) by {
            assert(unread_part(v, sub0, reads2, lo, lv, c) == unread_part(
                v,
                sub0,
                reads,
                lo,
                lv,
                c,
            ));
        }
        lemma_sum_nat_update(f, g, 256, b);
        lemma_count_byte_take_skip(u_old, 1, lv, t);
        lemma_filter_byte_take_succ(u_old, 0, lv, t);
        assert(u_old.take(0) =~= Seq::<T>::empty());
        lemma_filter_byte_empty::<T>(lv, t);
        assert(count_byte(u_old.take(1), lv, t) == if x.key_byte(lv) as int == t {
            1nat
        } else {
            0nat
        });
        assert(g(b) == count_byte(u_old.skip(1), lv, t));
        assert(f(b) == count_byte(u_old, lv, t));
        assert(writes[t] + stash[t]@.len() + sum_nat(f, 256) == counts[t]);
        if t == bx {
            assert(new_stash[t]@.len() == stash[t]@.len() + 1);
        } else {
            assert(new_stash[t] == stash[t]);
        }
    }

    // conservation
    let fl = live_fam(v, sub0, reads, writes, stash, lo, lv);
    let gl = live_fam(v, sub0, reads2, writes, new_stash, lo, lv);
    assert forall|c: int| 0 <= c < 256 && c != b && c != bx implies #[trigger] fl(c) == gl(c) by {
        assert(new_stash[c] == stash[c]);
        assert(unread_part(v, sub0, reads2, lo, lv, c) == unread_part(v, sub0, reads, lo, lv, c));
    }
    vstd::seq_lib::lemma_multiset_commutative(u_old.take(1), u_old.skip(1));
    assert(u_old =~= u_old.take(1) + u_old.skip(1));
    Seq::<T>::empty().push(x).to_multiset_ensures();
    Seq::<T>::empty().to_multiset_ensures();
    assert(Seq::<T>::empty().to_multiset() =~= Multiset::<T>::empty());
    assert(u_old.to_multiset() == u_new.to_multiset().insert(x)) by {
        assert(u_old.take(1).to_multiset() == Multiset::<T>::empty().insert(x));
        assert(u_old.to_multiset() =~= u_new.to_multiset().insert(x));
    }
    stash[bx]@.to_multiset_ensures();
    assert(new_stash[bx]@.to_multiset() == stash[bx]@.to_multiset().insert(x));
    if bx == b {
        assert forall|c: int| 0 <= c < 256 implies #[trigger] fl(c) == gl(c) by {
            if c == b {
                assert(written_part(v, sub0, writes, lo, lv, b) == written_part(
                    v,
                    sub0,
                    writes,
                    lo,
                    lv,
                    b,
                ));
                assert(fl(c) =~= gl(c));
            } else {
                assert(fl(c) == gl(c));
            }
        }
        lemma_sum_ms_agree(fl, gl, 256);
    } else {
        assert(new_stash[b] == stash[b]);
        assert(unread_part(v, sub0, reads2, lo, lv, bx) == unread_part(v, sub0, reads, lo, lv, bx));
        lemma_sum_ms_update2(fl, gl, 256, b, bx);
        assert forall|y: T| true implies #[trigger] sum_ms(gl, 256).count(y) == sum_ms(
            fl,
            256,
        ).count(y) by {
            assert(sum_ms(gl, 256).add(fl(b)).add(fl(bx)).count(y) == sum_ms(fl, 256).add(
                gl(b),
            ).add(gl(bx)).count(y));
            assert(fl(b).count(y) == written_part(v, sub0, writes, lo, lv, b).to_multiset().count(
                y,
            ) + stash[b]@.to_multiset().count(y) + u_old.to_multiset().count(y));
            assert(gl(b).count(y) == written_part(v, sub0, writes, lo, lv, b).to_multiset().count(
                y,
            ) + stash[b]@.to_multiset().count(y) + u_new.to_multiset().count(y));
            assert(u_old.to_multiset().count(y) == u_new.to_multiset().count(y) + if y == x {
                1int
            } else {
                0int
            });
            assert(gl(bx).count(y) == fl(bx).count(y) + if y == x {
                1int
            } else {
                0int
            });
        }
        assert(sum_ms(gl, 256) =~= sum_ms(fl, 256));
    }
}

/// One write step: the last stashed element of bucket `b`'s own byte lands
/// on the bucket's write head, which advances into the span the read head
/// has vacated. The invariant is preserved.
proof fn lemma_write_step<T: RadixKey>(
    orig: Seq<T>,
    v: Seq<T>,
    new_v: Seq<T>,
    reads: Seq<usize>,
    writes: Seq<usize>,
    stash: Seq<Vec<T>>,
    new_stash: Seq<Vec<T>>,
    counts: Seq<usize>,
    lo: int,
    hi: int,
    lv: int,
    b: int,
    x: T,
)
    requires
        scan_inv(orig, v, reads, writes, stash, counts, lo, hi, lv),
        0 <= b < 256,
        writes[b] < reads[b],
        stash[b]@.len() > 0,
        x == stash[b]@.last(),
        new_stash.len() == 256,
        new_stash[b]@ == stash[b]@.drop_last(),
        forall|c: int| 0 <= c < 256 && c != b ==> #[trigger] new_stash[c] == stash[c],
        new_v == v.update(lo + count_below(orig.subrange(lo, hi), lv, b) + writes[b], x),
    ensures
        scan_inv(
            orig,
            new_v,
            reads,
            writes.update(b, (writes[b] + 1) as usize),
            new_stash,
            counts,
            lo,
            hi,
            lv,
        ),
{
    broadcast use vstd::multiset::group_multiset_axioms;

    let sub0 = orig.subrange(lo, hi);
    let writes2 = writes.update(b, (writes[b] + 1) as usize);
    let pos = lo + count_below(sub0, lv, b) + writes[b];
    assert(count_below(sub0, lv, b + 1) == count_below(sub0, lv, b) + count_byte(sub0, lv, b));
    lemma_count_below_mono(sub0, lv, b + 1, 256);
    assert(x.key_byte(lv) as int == b);
    assert(pos < lo + count_below(sub0, lv, b) + reads[b]);
    assert(pos < hi);

    // region disjointness helper facts
    assert forall|c: int| 0 <= c < 256 && c != b implies lo + #[trigger] count_below(
        sub0,
        lv,
        c + 1,
    ) <= pos || pos < lo + count_below(sub0, lv, c) by {
        assert(count_below(sub0, lv, c + 1) == count_below(sub0, lv, c) + count_byte(
            sub0,
            lv,
            c,
        ));
        if c < b {
            lemma_count_below_mono(sub0, lv, c + 1, b);
        } else {
            lemma_count_below_mono(sub0, lv, b + 1, c);
        }
    }

    // written prefixes
    assert forall|c: int, k: int|
        #![trigger count_below(sub0, lv, c), new_v[k]]
        0 <= c < 256 && lo + count_below(sub0, lv, c) <= k < lo + count_below(sub0, lv, c)
            + writes2[c] implies new_v[k].key_byte(lv) as int == c by {
        assert(count_below(sub0, lv, c + 1) == count_below(sub0, lv, c) + count_byte(
            sub0,
            lv,
            c,
        ));
        lemma_count_below_mono(sub0, lv, c + 1, 256);
        assert(writes[c] <= reads[c] && reads[c] <= counts[c]);
        assert(counts[c] as nat == count_byte(sub0, lv, c));
        if c == b {
            if k == pos {
                assert(new_v[k] == x);
            } else {
                assert(new_v[k] == v[k]);
            }
        } else {
            if c < b {
                lemma_count_below_mono(sub0, lv, c + 1, b);
            } else {
                lemma_count_below_mono(sub0, lv, b + 1, c);
            }
            assert(new_v[k] == v[k]);
        }
    }

    // unread spans untouched
    assert forall|c: int| 0 <= c < 256 implies unread_part(new_v, sub0, reads, lo, lv, c)
        == #[trigger] unread_part(v, sub0, reads, lo, lv, c) by {
        assert(count_below(sub0, lv, c + 1) == count_below(sub0, lv, c) + count_byte(
            sub0,
            lv,
            c,
        ));
        lemma_count_below_mono(sub0, lv, c + 1, 256);
        assert(writes[c] <= reads[c] && reads[c] <= counts[c]);
        assert(counts[c] as nat == count_byte(sub0, lv, c));
        if c != b {
            if c < b {
                lemma_count_below_mono(sub0, lv, c + 1, b);
            } else {
                lemma_count_below_mono(sub0, lv, b + 1, c);
            }
        }
        assert(unread_part(new_v, sub0, reads, lo, lv, c) =~= unread_part(
            v,
            sub0,
            reads,
            lo,
            lv,
            c,
        ));
    }

    // counting
    assert forall|t: int| 0 <= t < 256 implies writes2[t] + new_stash[t]@.len()
        + #[trigger] sum_nat(unread_fam(new_v, sub0, reads, lo, lv, t), 256) == counts[t] by {
        let f = unread_fam(v, sub0, reads, lo, lv, t);
        let g = unread_fam(new_v, sub0, reads, lo, lv, t);
        assert forall|c: int| 0 <= c < 256 implies #[trigger] f(c) == g(c) by {
            assert(unread_part(new_v, sub0, reads, lo, lv, c) == unread_part(
                v,
                sub0,
                reads,
                lo,
                lv,
                c,
            ));
        }
        lemma_sum_nat_agree(f, g, 256);
        assert(writes[t] + stash[t]@.len() + sum_nat(f, 256) == counts[t]);
    }

    // conservation
    let fl = live_fam(v, sub0, reads, writes, stash, lo, lv);
    let gl = live_fam(new_v, sub0, reads, writes2, new_stash, lo, lv);
    stash[b]@.to_multiset_ensures();
    assert(stash[b]@ =~= new_stash[b]@.push(x));
    new_stash[b]@.to_multiset_ensures();
    assert(stash[b]@.to_multiset() == new_stash[b]@.to_multiset().insert(x));
    assert(written_part(new_v, sub0, writes2, lo, lv, b) =~= written_part(
        v,
        sub0,
        writes,
        lo,
        lv,
        b,
    ).push(x));
    written_part(v, sub0, writes, lo, lv, b).to_multiset_ensures();
    assert forall|c: int| 0 <= c < 256 implies #[trigger] fl(c) == gl(c) by {
        assert(count_below(sub0, lv, c + 1) == count_below(sub0, lv, c) + count_byte(
            sub0,
            lv,
            c,
        ));
        lemma_count_below_mono(sub0, lv, c + 1, 256);
        assert(writes[c] <= reads[c] && reads[c] <= counts[c]);
        assert(counts[c] as nat == count_byte(sub0, lv, c));
        assert(unread_part(new_v, sub0, reads, lo, lv, c) == unread_part(v, sub0, reads, lo, lv, c));
        if c == b {
            assert(fl(c) =~= gl(c));
        } else {
            if c < b {
                lemma_count_below_mono(sub0, lv, c + 1, b);
            } else {
                lemma_count_below_mono(sub0, lv, b + 1, c);
            }
            assert(written_part(new_v, sub0, writes2, lo, lv, c) =~= written_part(
                v,
                sub0,
                writes,
                lo,
                lv,
                c,
            ));
            assert(new_stash[c] == stash[c]);
        }
    }
    lemma_sum_ms_agree(fl, gl, 256);
}

/// Elements read ahead of a bucket's read head in one visit.
const SCANNER_READ_SIZE: usize = 16384;

/// Relies on nanorand's WyRand generator for a pseudo-random byte. Nothing
/// is assumed about the value: the rotation offset it seeds only spreads
/// contention, and the pass is correct for every offset.
#[verifier::external_body]
fn random_offset() -> u8 {
    let mut rng = nanorand::WyRand::new();
    rng.generate::<u8>()
}

/// Reports whether every scanner bucket's write head has reached its length.
fn all_finished(writes: &Vec<usize>, counts: &Vec<usize>) -> (r: bool)
    requires
        writes@.len() == 256,
        counts@.len() == 256,
    ensures
        r == (forall|b: int| 0 <= b < 256 ==> #[trigger] writes@[b] == counts@[b]),
{
    let mut b: usize = 0;
    while b < 256
        invariant
            b <= 256,
            writes@.len() == 256,
            counts@.len() == 256,
            forall|k: int| 0 <= k < b ==> #[trigger] writes@[k] == counts@[k],
        decreases 256 - b,
    {
        if writes[b] != counts[b] {
            return false;
        }
        b = b + 1;
    }
    true
}

/// One visit to scanner bucket `b`: read a bounded run past its read head,
/// stashing each element by its byte, then write stashed elements of byte
/// `b` over the span the read head has vacated. If the visit changes
/// nothing, the bucket was finished, or fully read with nothing stashed
/// for it.
#[verifier::rlimit(30)]
fn scan_visit<T: RadixKey + Copy>(
    v: &mut Vec<T>,
    reads: &mut Vec<usize>,
    writes: &mut Vec<usize>,
    stash: &mut Vec<Vec<T>>,
    counts: &Vec<usize>,
    prefix: &Vec<usize>,
    lo: usize,
    hi: usize,
    level: usize,
    b: usize,
    Ghost(orig): Ghost<Seq<T>>,
)
    requires
        scan_inv(
            orig,
            old(v)@,
            old(reads)@,
            old(writes)@,
            old(stash)@,
            counts@,
            lo as int,
            hi as int,
            level as int,
        ),
        b < 256,
        (level as nat) < T::spec_levels(),
        prefix@.len() == 256,
        forall|k: int|
            0 <= k < 256 ==> #[trigger] prefix@[k] == count_below(
                orig.subrange(lo as int, hi as int),
                level as int,
                k,
            ),
    ensures
        scan_inv(
            orig,
            final(v)@,
            final(reads)@,
            final(writes)@,
            final(stash)@,
            counts@,
            lo as int,
            hi as int,
            level as int,
        ),
        scan_measure(final(reads)@, final(writes)@, counts@) <= scan_measure(
            old(reads)@,
            old(writes)@,
            counts@,
        ),
        (final(reads)@ == old(reads)@ && final(writes)@ == old(writes)@) ==> (final(v)@ == old(v)@
            && final(stash)@ == old(stash)@ && (old(writes)@[b as int] == counts@[b as int] || (
        old(reads)@[b as int] == counts@[b as int] && old(stash)@[b as int]@.len() == 0))),
        !(final(reads)@ == old(reads)@ && final(writes)@ == old(writes)@) ==> scan_measure(
            final(reads)@,
            final(writes)@,
            counts@,
        ) < scan_measure(old(reads)@, old(writes)@, counts@),
{
    let ghost sub0 = orig.subrange(lo as int, hi as int);
    let ghost lv = level as int;
    let ghost m0 = scan_measure(old(reads)@, old(writes)@, counts@);
    let c_b = counts[b];
    let w_b = writes[b];
    proof {
        assert(old(writes)@[b as int] <= old(reads)@[b as int] && old(reads)@[b as int]
            <= counts@[b as int]);
    }
    if w_b == c_b {
        return ;
    }
    let r_b = reads[b];
    let mut to_read = c_b - r_b;
    if to_read > SCANNER_READ_SIZE {
        to_read = SCANNER_READ_SIZE;
    }
    let mut r: usize = 0;
    while r < to_read
        invariant
            scan_inv(orig, v@, reads@, writes@, stash@, counts@, lo as int, hi as int, lv),
            lv == level as int,
            (level as nat) < T::spec_levels(),
            b < 256,
            r <= to_read,
            r_b + to_read <= c_b,
            c_b == counts@[b as int],
            prefix@.len() == 256,
            forall|k: int| 0 <= k < 256 ==> #[trigger] prefix@[k] == count_below(sub0, lv, k),
            sub0 == orig.subrange(lo as int, hi as int),
            reads@[b as int] == r_b + r,
            forall|k: int| 0 <= k < 256 && k != b ==> #[trigger] reads@[k] == old(reads)@[k],
            writes@ == old(writes)@,
            v@ == old(v)@,
            r == 0 ==> stash@ == old(stash)@,
            scan_measure(reads@, writes@, counts@) == m0 - r,
        decreases to_read - r,
    {
        proof {
            assert(count_below(sub0, lv, b + 1) == count_below(sub0, lv, b as int) + count_byte(
                sub0,
                lv,
                b as int,
            ));
            lemma_count_below_mono(sub0, lv, b + 1, 256);
        }
        let pos = lo + prefix[b] + reads[b];
        let x = v[pos];
        let bx = x.get_level(level) as usize;
        let ghost pre_stash = stash@;
        let ghost pre_reads = reads@;
        stash[bx].push(x);
        let t = reads[b];
        reads[b] = t + 1;
        proof {
            lemma_read_step(
                orig,
                v@,
                pre_reads,
                writes@,
                pre_stash,
                stash@,
                counts@,
                lo as int,
                hi as int,
                lv,
                b as int,
                x,
            );
            assert(reads@ =~= pre_reads.update(b as int, (pre_reads[b as int] + 1) as usize));
            lemma_measure_read(pre_reads, reads@, writes@, counts@, b as int);
        }
        r = r + 1;
    }
    let ghost v_mid = v@;
    let ghost reads_mid = reads@;
    let ghost stash_mid = stash@;
    let ghost m1 = scan_measure(reads@, writes@, counts@);
    let avail = reads[b] - writes[b];
    let sb_len = stash[b].len();
    let mut to_write = sb_len;
    if to_write > avail {
        to_write = avail;
    }
    let mut w: usize = 0;
    while w < to_write
        invariant
            scan_inv(orig, v@, reads@, writes@, stash@, counts@, lo as int, hi as int, lv),
            lv == level as int,
            (level as nat) < T::spec_levels(),
            b < 256,
            w <= to_write,
            c_b == counts@[b as int],
            prefix@.len() == 256,
            forall|k: int| 0 <= k < 256 ==> #[trigger] prefix@[k] == count_below(sub0, lv, k),
            sub0 == orig.subrange(lo as int, hi as int),
            reads@ == reads_mid,
            writes@[b as int] == w_b + w,
            writes@[b as int] + (to_write - w) <= reads@[b as int],
            stash@[b as int]@.len() >= to_write - w,
            forall|k: int| 0 <= k < 256 && k != b ==> #[trigger] writes@[k] == old(writes)@[k],
            w == 0 ==> stash@ == stash_mid && v@ == v_mid,
            scan_measure(reads@, writes@, counts@) == m1 - w,
        decreases to_write - w,
    {
        proof {
            assert(count_below(sub0, lv, b + 1) == count_below(sub0, lv, b as int) + count_byte(
                sub0,
                lv,
                b as int,
            ));
            lemma_count_below_mono(sub0, lv, b + 1, 256);
        }
        let ghost pre_stash = stash@;
        let ghost pre_v = v@;
        let ghost pre_writes = writes@;
        let x = stash[b].pop().unwrap();
        let pos = lo + prefix[b] + writes[b];
        v[pos] = x;
        let t = writes[b];
        writes[b] = t + 1;
        proof {
            assert(stash@[b as int]@ == pre_stash[b as int]@.drop_last());
            lemma_write_step(
                orig,
                pre_v,
                v@,
                reads@,
                pre_writes,
                pre_stash,
                stash@,
                counts@,
                lo as int,
                hi as int,
                lv,
                b as int,
                x,
            );
            assert(writes@ =~= pre_writes.update(b as int, (pre_writes[b as int] + 1) as usize));
            lemma_measure_write(reads@, pre_writes, writes@, counts@, b as int);
        }
        w = w + 1;
    }
    proof {
        assert(scan_measure(reads@, writes@, counts@) == m0 - to_read - to_write);
        if to_read == 0 && to_write == 0 {
            assert(reads@ =~= old(reads)@);
            assert(writes@ =~= old(writes)@);
        }
        if reads@ == old(reads)@ && writes@ == old(writes)@ {
            assert(to_read > 0 ==> reads@[b as int] == r_b + to_read && old(reads)@[b as int]
                == r_b);
            assert(to_read == 0);
            assert(r_b == c_b);
            assert(to_write > 0 ==> writes@[b as int] == w_b + to_write && old(writes)@[b as int]
                == w_b);
            assert(to_write == 0);
            assert(avail == r_b - w_b);
            assert(w_b < c_b);
            assert(avail > 0);
            assert(sb_len == 0);
            assert(stash_mid == old(stash)@);
            assert(old(stash)@[b as int]@.len() == 0);
            assert(v@ == v_mid && v_mid == old(v)@);
            assert(stash@ == stash_mid);
        }
    }
}

/// Partitions the range `[lo, hi)` of `v` by the key byte at `level` with
/// the cooperative scanning pass: 256 scanner buckets laid out over the
/// range by the histogram's prefix sums, visited in rotating order from a
/// random starting offset, each visit reading ahead and writing back
/// stashed elements, until every write head reaches its bucket's length.
pub fn scanning_radix_sort<T: RadixKey + Copy>(
    v: &mut Vec<T>,
    lo: usize,
    hi: usize,
    counts: &Vec<usize>,
    level: usize,
)
    requires
        lo <= hi <= old(v)@.len(),
        (level as nat) < T::spec_levels(),
        is_histogram(counts@, old(v)@.subrange(lo as int, hi as int), level as int),
    ensures
        crate::director::partitions_range(
            old(v)@,
            final(v)@,
            lo as int,
            hi as int,
            level as int,
        ),
{
    let ghost orig = old(v)@;
    let ghost sub0 = old(v)@.subrange(lo as int, hi as int);
    let ghost lv = level as int;
    proof {
        crate::sorts::out_of_place_sort::lemma_histogram_sums_fit(counts@, sub0, lv);
        lemma_count_below_total(sub0, lv);
    }
    let prefix = crate::sort_utils::get_prefix_sums(counts);
    let mut reads: Vec<usize> = vec![0usize; 256];
    let mut writes: Vec<usize> = vec![0usize; 256];
    let mut stash: Vec<Vec<T>> = Vec::new();
    let mut i: usize = 0;
    while i < 256
        invariant
            i <= 256,
            stash@.len() == i as int,
            forall|k: int| 0 <= k < i ==> #[trigger] stash@[k]@.len() == 0,
        decreases 256 - i,
    {
        stash.push(Vec::new());
        i = i + 1;
    }
    proof {
        assert forall|k: int| 0 <= k < 256 implies #[trigger] reads@[k] == 0 && writes@[k]
            == 0 by {}
        // initial counting invariant
        assert forall|t: int| 0 <= t < 256 implies writes@[t] + stash@[t]@.len()
            + #[trigger] sum_nat(unread_fam(v@, sub0, reads@, lo as int, lv, t), 256) == counts@[t] by {
            let f = unread_fam(v@, sub0, reads@, lo as int, lv, t);
            let g = |c: int| count_byte(region_of(v@, sub0, lo as int, lv, c), lv, t);
            assert forall|c: int| 0 <= c < 256 implies #[trigger] f(c) == g(c) by {
                assert(unread_part(v@, sub0, reads@, lo as int, lv, c) == region_of(
                    v@,
                    sub0,
                    lo as int,
                    lv,
                    c,
                ));
            }
            lemma_sum_nat_agree(f, g, 256);
            lemma_region_count_prefix(v@, sub0, lo as int, lv, t, 256);
            assert(v@.subrange(lo as int, lo + count_below(sub0, lv, 256)) =~= sub0);
        }
        // initial conservation
        let fl = live_fam(v@, sub0, reads@, writes@, stash@, lo as int, lv);
        let g2 = |c: int| region_of(v@, sub0, lo as int, lv, c).to_multiset();
        assert forall|c: int| 0 <= c < 256 implies #[trigger] fl(c) == g2(c) by {
            broadcast use vstd::multiset::group_multiset_axioms;

            lemma_count_below_mono(sub0, lv, c + 1, 256);
            assert(written_part(v@, sub0, writes@, lo as int, lv, c) =~= Seq::<T>::empty());
            assert(stash@[c]@ =~= Seq::<T>::empty());
            Seq::<T>::empty().to_multiset_ensures();
            assert(Seq::<T>::empty().to_multiset() =~= Multiset::<T>::empty());
            assert(unread_part(v@, sub0, reads@, lo as int, lv, c) == region_of(
                v@,
                sub0,
                lo as int,
                lv,
                c,
            ));
            assert(fl(c) =~= g2(c));
        }
        lemma_sum_ms_agree(fl, g2, 256);
        lemma_region_ms_prefix(v@, sub0, lo as int, lv, 256);
        assert(v@.subrange(lo as int, lo + count_below(sub0, lv, 256)) =~= sub0);
        assert(scan_inv(orig, v@, reads@, writes@, stash@, counts@, lo as int, hi as int, lv));
    }
    loop
        invariant
            scan_inv(orig, v@, reads@, writes@, stash@, counts@, lo as int, hi as int, lv),
            lv == level as int,
            (level as nat) < T::spec_levels(),
            prefix@.len() == 256,
            forall|k: int| 0 <= k < 256 ==> #[trigger] prefix@[k] == count_below(sub0, lv, k),
            sub0 == orig.subrange(lo as int, hi as int),
            orig == old(v)@,
        ensures
            scan_inv(orig, v@, reads@, writes@, stash@, counts@, lo as int, hi as int, lv),
            forall|k: int| 0 <= k < 256 ==> #[trigger] writes@[k] == counts@[k],
        decreases scan_measure(reads@, writes@, counts@),
    {
        if all_finished(&writes, &counts) {
            break ;
        }
        let off = random_offset() as usize;
        let ghost v0 = v@;
        let ghost reads0 = reads@;
        let ghost writes0 = writes@;
        let ghost stash0 = stash@;
        let ghost m0 = scan_measure(reads@, writes@, counts@);
        let mut idx = off;
        while idx < 256
            invariant
                off <= idx || idx <= 256,
                off < 256,
                idx <= 256,
                off <= idx,
                scan_inv(orig, v@, reads@, writes@, stash@, counts@, lo as int, hi as int, lv),
                lv == level as int,
                (level as nat) < T::spec_levels(),
                prefix@.len() == 256,
                forall|k: int| 0 <= k < 256 ==> #[trigger] prefix@[k] == count_below(sub0, lv, k),
                sub0 == orig.subrange(lo as int, hi as int),
                m0 == scan_measure(reads0, writes0, counts@),
                scan_measure(reads@, writes@, counts@) <= m0,
                (v@ == v0 && reads@ == reads0 && writes@ == writes0 && stash@ == stash0)
                    || scan_measure(reads@, writes@, counts@) < m0,
                (v@ == v0 && reads@ == reads0 && writes@ == writes0 && stash@ == stash0)
                    ==> forall|b2: int|
                    off <= b2 < idx ==> #[trigger] writes@[b2] == counts@[b2] || (reads@[b2]
                        == counts@[b2] && stash@[b2]@.len() == 0),
            decreases 256 - idx,
        {
            scan_visit(
                v,
                &mut reads,
                &mut writes,
                &mut stash,
                counts,
                &prefix,
                lo,
                hi,
                level,
                idx,
                Ghost(orig),
            );
            idx = idx + 1;
        }
        let mut idx2: usize = 0;
        while idx2 < off
            invariant
                idx2 <= off,
                off < 256,
                scan_inv(orig, v@, reads@, writes@, stash@, counts@, lo as int, hi as int, lv),
                lv == level as int,
                (level as nat) < T::spec_levels(),
                prefix@.len() == 256,
                forall|k: int| 0 <= k < 256 ==> #[trigger] prefix@[k] == count_below(sub0, lv, k),
                sub0 == orig.subrange(lo as int, hi as int),
                m0 == scan_measure(reads0, writes0, counts@),
                scan_measure(reads@, writes@, counts@) <= m0,
                (v@ == v0 && reads@ == reads0 && writes@ == writes0 && stash@ == stash0)
                    || scan_measure(reads@, writes@, counts@) < m0,
                (v@ == v0 && reads@ == reads0 && writes@ == writes0 && stash@ == stash0)
                    ==> forall|b2: int|
                    (off <= b2 < 256 || 0 <= b2 < idx2) ==> #[trigger] writes@[b2] == counts@[b2]
                        || (reads@[b2] == counts@[b2] && stash@[b2]@.len() == 0),
            decreases off - idx2,
        {
            scan_visit(
                v,
                &mut reads,
                &mut writes,
                &mut stash,
                counts,
                &prefix,
                lo,
                hi,
                level,
                idx2,
                Ghost(orig),
            );
            idx2 = idx2 + 1;
        }
        proof {
            if v@ == v0 && reads@ == reads0 && writes@ == writes0 && stash@ == stash0 {
                // every bucket is fully read, so every stash holds exactly the
                // missing tail of its bucket; an unfinished bucket would have a
                // nonempty stash, yet each was seen empty: all are finished,
                // contradicting the loop's continuation.
                assert forall|t: int| 0 <= t < 256 implies #[trigger] writes@[t]
                    == counts@[t] by {
                    assert(writes@[t] == counts@[t] || (reads@[t] == counts@[t] && stash@[t]@.len()
                        == 0));
                    if writes@[t] != counts@[t] {
                        assert(reads@[t] == counts@[t] && stash@[t]@.len() == 0);
                        assert forall|c: int| 0 <= c < 256 implies #[trigger] unread_fam(
                            v@,
                            sub0,
                            reads@,
                            lo as int,
                            lv,
                            t,
                        )(c) == 0 by {
                            assert(writes@[c] <= reads@[c] && reads@[c] <= counts@[c]);
                            assert(writes@[c] == counts@[c] || reads@[c] == counts@[c]);
                            assert(reads@[c] == counts@[c]);
                            assert(count_below(sub0, lv, c + 1) == count_below(sub0, lv, c)
                                + count_byte(sub0, lv, c));
                            assert(counts@[c] as nat == count_byte(sub0, lv, c));
                            lemma_count_below_mono(sub0, lv, c + 1, 256);
                            assert(unread_part(v@, sub0, reads@, lo as int, lv, c)
                                =~= Seq::<T>::empty());
                            lemma_filter_byte_empty::<T>(lv, t);
                        }
                        lemma_sum_nat_zero(
                            unread_fam(v@, sub0, reads@, lo as int, lv, t),
                            256,
                        );
                        assert(writes@[t] + stash@[t]@.len() + sum_nat(
                            unread_fam(v@, sub0, reads@, lo as int, lv, t),
                            256,
                        ) == counts@[t]);
                        assert(false);
                    }
                }
                assert(false);
            }
            lemma_measure_nonneg(reads@, writes@, counts@);
        }
    }
    proof {
        broadcast use vstd::multiset::group_multiset_axioms;

        // byte grouping
        assert forall|b: int, k: int|
            #![trigger count_below(sub0, lv, b), v@[k]]
            0 <= b < 256 && lo + count_below(sub0, lv, b) <= k < lo + count_below(
                sub0,
                lv,
                b + 1,
            ) implies v@[k].key_byte(lv) as int == b by {
            assert(count_below(sub0, lv, b + 1) == count_below(sub0, lv, b) + count_byte(
                sub0,
                lv,
                b,
            ));
            assert(counts@[b] as nat == count_byte(sub0, lv, b));
            assert(writes@[b] == counts@[b]);
        }
        // permutation
        let fl = live_fam(v@, sub0, reads@, writes@, stash@, lo as int, lv);
        let g2 = |c: int| region_of(v@, sub0, lo as int, lv, c).to_multiset();
        assert forall|c: int| 0 <= c < 256 implies #[trigger] fl(c) == g2(c) by {
            lemma_count_below_mono(sub0, lv, c + 1, 256);
            assert(count_below(sub0, lv, c + 1) == count_below(sub0, lv, c) + count_byte(
                sub0,
                lv,
                c,
            ));
            assert(counts@[c] as nat == count_byte(sub0, lv, c));
            assert(writes@[c] <= reads@[c] && reads@[c] <= counts@[c]);
            assert(writes@[c] == counts@[c]);
            // the stash is empty: everything is written
            assert(writes@[c] + stash@[c]@.len() + sum_nat(
                unread_fam(v@, sub0, reads@, lo as int, lv, c),
                256,
            ) == counts@[c]);
            assert(stash@[c]@.len() == 0);
            assert(stash@[c]@ =~= Seq::<T>::empty());
            Seq::<T>::empty().to_multiset_ensures();
            assert(Seq::<T>::empty().to_multiset() =~= Multiset::<T>::empty());
            assert(written_part(v@, sub0, writes@, lo as int, lv, c) == region_of(
                v@,
                sub0,
                lo as int,
                lv,
                c,
            ));
            assert(unread_part(v@, sub0, reads@, lo as int, lv, c) =~= Seq::<T>::empty());
            assert(fl(c) =~= g2(c));
        }
        lemma_sum_ms_agree(fl, g2, 256);
        lemma_region_ms_prefix(v@, sub0, lo as int, lv, 256);
        assert(v@.subrange(lo as int, lo + count_below(sub0, lv, 256)) =~= v@.subrange(
            lo as int,
            hi as int,
        ));
    }
}

} // verus!
