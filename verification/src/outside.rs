//! Calls into `rayon`, `rand`, and the parts of std that Verus has no specification for.
use vstd::prelude::*;
use rayon::slice::ParallelSliceMut;

verus! {

/// Lexicographic order on `(key, index)` pairs, as std documents it for tuples.
pub open spec fn pair_le(a: (u128, u64), b: (u128, u64)) -> bool {
    a.0 < b.0 || (a.0 == b.0 && a.1 <= b.1)
}

/// Every pair is at most every later pair.
pub open spec fn sorted_pairs(s: Seq<(u128, u64)>) -> bool {
    forall|i: int, j: int| 0 <= i < j < s.len() ==> pair_le(s[i], s[j])
}

/// Values that rayon sorts by std's `Ord`, with that order stated as a spec function.
pub trait SortKey: Sized + Ord + Send {
    /// `a` comes no later than `b` in the order of `Ord`.
    spec fn key_le(a: Self, b: Self) -> bool;
}

impl SortKey for (u128, u64) {
    /// Tuples compare lexicographically.
    open spec fn key_le(a: Self, b: Self) -> bool {
        pair_le(a, b)
    }
}

impl SortKey for (u128, u128, u128, u128, u64) {
    /// Tuples compare lexicographically.
    open spec fn key_le(a: Self, b: Self) -> bool {
        a.0 < b.0 || (a.0 == b.0 && (a.1 < b.1 || (a.1 == b.1 && (a.2 < b.2 || (a.2 == b.2 && (a.3 < b.3 || (a.3 == b.3
            && a.4 <= b.4)))))))
    }
}

/// Every entry of `s` is at most every later entry.
pub open spec fn sorted_keys<T: SortKey>(s: Seq<T>) -> bool {
    forall|i: int, j: int| 0 <= i < j < s.len() ==> T::key_le(s[i], s[j])
}

/// Sorted `(key, index)` pairs are sorted in the order of `pair_le`.
pub proof fn lemma_sorted_pairs(s: Seq<(u128, u64)>)
    requires
        sorted_keys(s),
    ensures
        sorted_pairs(s),
{
    assert forall|i: int, j: int| 0 <= i < j < s.len() implies pair_le(s[i], s[j]) by {
        assert(<(u128, u64) as SortKey>::key_le(s[i], s[j]));
    }
}

/// Sorts in parallel with rayon's `par_sort_unstable`: the result holds the same values,
/// in increasing order.
#[verifier::external_body]
pub(crate) fn par_sort<T: SortKey>(v: &mut Vec<T>)
    ensures
        final(v)@.to_multiset() == old(v)@.to_multiset(),
        sorted_keys(final(v)@),
{
    v.par_sort_unstable();
}

/// `amount` distinct indices below `length`, drawn at random by
/// `rand::seq::index::sample` with the thread-local generator. Which indices come back,
/// and in what order, rests on chance and is left unsaid.
#[verifier::external_body]
pub(crate) fn sample_indices(length: usize, amount: usize) -> (r: Vec<usize>)
    requires
        amount <= length,
    ensures
        r@.len() == amount,
        r@.no_duplicates(),
        forall|k: int| 0 <= k < r@.len() ==> r@[k] < length,
{
    let mut rng = rand::rng();
    rand::seq::index::sample(&mut rng, length, amount).into_vec()
}

/// `(score, board)` pairs ordered by score, then board, as std orders tuples.
pub open spec fn score_pair_le(a: (i32, usize), b: (i32, usize)) -> bool {
    a.0 < b.0 || (a.0 == b.0 && a.1 <= b.1)
}

/// Reorders `v` with std's `select_nth_unstable`: the same pairs, with none greater than
/// the pair at `index` before it and none smaller after it.
#[verifier::external_body]
pub(crate) fn select_nth_pairs(v: &mut Vec<(i32, usize)>, index: usize)
    requires
        index < old(v)@.len(),
    ensures
        final(v)@.to_multiset() == old(v)@.to_multiset(),
        forall|a: int| 0 <= a < index ==> score_pair_le(#[trigger] final(v)@[a], final(v)@[index as int]),
        forall|b: int| index < b < final(v)@.len() ==> score_pair_le(final(v)@[index as int], #[trigger] final(v)@[b]),
{
    v.select_nth_unstable(index);
}

} // verus!
