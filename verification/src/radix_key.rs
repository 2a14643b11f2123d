//! The key model: elements expose a fixed number of key bytes, compared from
//! the most significant byte (level 0) down to the least significant one.

use vstd::prelude::*;

verus! {

/// A sortable key of a fixed number of bytes.
///
/// `level` 0 is the most significant byte; `Self::spec_levels() - 1` is the
/// least significant one. `key_byte` is the mathematical model of the key and
/// `get_level` its executable counterpart; implementations must make the two
/// agree, and must expose at least one level.
pub trait RadixKey: Sized {
    /// The number of key bytes of this type.
    spec fn spec_levels() -> nat;

    /// The key byte of `self` at `level`.
    spec fn key_byte(self, level: int) -> u8;

    /// The number of key bytes, as a runtime value.
    fn levels() -> (r: usize)
        ensures
            r as nat == Self::spec_levels(),
            r >= 1,
    ;

    /// The key byte of `self` at `level`.
    fn get_level(&self, level: usize) -> (r: u8)
        requires
            (level as nat) < Self::spec_levels(),
        ensures
            r == self.key_byte(level as int),
    ;
}

/// Lexicographic "less than or equal" over the key bytes of `a` and `b`,
/// starting the comparison at `level` and ending at the last level.
pub open spec fn lex_le_from<T: RadixKey>(a: T, b: T, level: int) -> bool
    decreases T::spec_levels() - level,
{
    if level < 0 || level >= T::spec_levels() {
        true
    } else if a.key_byte(level) != b.key_byte(level) {
        a.key_byte(level) < b.key_byte(level)
    } else {
        lex_le_from(a, b, level + 1)
    }
}

/// Lexicographic "less than or equal" over all key bytes: the sort order.
pub open spec fn key_le<T: RadixKey>(a: T, b: T) -> bool {
    lex_le_from(a, b, 0)
}

/// `a` and `b` agree on every key byte at `level` and below it in
/// significance.
pub open spec fn key_eq_from<T: RadixKey>(a: T, b: T, level: int) -> bool {
    forall|k: int| level <= k < T::spec_levels() ==> a.key_byte(k) == b.key_byte(k)
}

/// `a` and `b` agree on every key byte: equivalence under the sort.
pub open spec fn key_eq<T: RadixKey>(a: T, b: T) -> bool {
    key_eq_from(a, b, 0)
}

/// The sequence is ordered by the key bytes at `level` and below it in
/// significance.
pub open spec fn sorted_from<T: RadixKey>(s: Seq<T>, level: int) -> bool {
    forall|i: int, j: int| 0 <= i < j < s.len() ==> #[trigger] lex_le_from(s[i], s[j], level)
}

/// The sequence is ordered by the full key: the sort's postcondition.
pub open spec fn sorted<T: RadixKey>(s: Seq<T>) -> bool {
    sorted_from(s, 0)
}

/// The order is reflexive.
pub proof fn lemma_lex_le_refl<T: RadixKey>(a: T, level: int)
    ensures
        lex_le_from(a, a, level),
    decreases T::spec_levels() - level,
{
    if 0 <= level < T::spec_levels() {
        lemma_lex_le_refl(a, level + 1);
    }
}

/// The order is total: one of the two directions always holds.
pub proof fn lemma_lex_le_total<T: RadixKey>(a: T, b: T, level: int)
    ensures
        lex_le_from(a, b, level) || lex_le_from(b, a, level),
    decreases T::spec_levels() - level,
{
    if 0 <= level < T::spec_levels() && a.key_byte(level) == b.key_byte(level) {
        lemma_lex_le_total(a, b, level + 1);
    }
}

/// The order is transitive.
pub proof fn lemma_lex_le_trans<T: RadixKey>(a: T, b: T, c: T, level: int)
    requires
        lex_le_from(a, b, level),
        lex_le_from(b, c, level),
    ensures
        lex_le_from(a, c, level),
    decreases T::spec_levels() - level,
{
    if 0 <= level < T::spec_levels() {
        if a.key_byte(level) == b.key_byte(level) && b.key_byte(level) == c.key_byte(level) {
            lemma_lex_le_trans(a, b, c, level + 1);
        }
    }
}

/// The order is antisymmetric up to key equivalence.
pub proof fn lemma_lex_le_antisym<T: RadixKey>(a: T, b: T, level: int)
    requires
        0 <= level,
        lex_le_from(a, b, level),
        lex_le_from(b, a, level),
    ensures
        key_eq_from(a, b, level),
    decreases T::spec_levels() - level,
{
    if level < T::spec_levels() {
        lemma_lex_le_antisym(a, b, level + 1);
    }
}

/// Comparing from one level further toward the most significant byte refines
/// the order: if the bytes at `level` agree, the comparisons agree.
pub proof fn lemma_lex_le_step<T: RadixKey>(a: T, b: T, level: int)
    requires
        0 <= level < T::spec_levels(),
        a.key_byte(level) == b.key_byte(level),
    ensures
        lex_le_from(a, b, level) == lex_le_from(a, b, level + 1),
{
}

/// Compares the key bytes of `a` and `b` from `level` down, as
/// [`lex_le_from`] does.
pub fn key_le_exec_from<T: RadixKey>(a: &T, b: &T, level: usize) -> (r: bool)
    ensures
        r == lex_le_from(*a, *b, level as int),
{
    let n = T::levels();
    let mut k = level;
    loop
        invariant
            level <= k,
            n as nat == T::spec_levels(),
            lex_le_from(*a, *b, level as int) == lex_le_from(*a, *b, k as int),
        decreases n - k,
    {
        if k >= n {
            return true;
        }
        let ab = a.get_level(k);
        let bb = b.get_level(k);
        if ab != bb {
            return ab < bb;
        }
        k = k + 1;
    }
}

} // verus!
