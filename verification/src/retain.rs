//! Keeping the entries of a list that a mask of flags marks, and renumbering a sorted
//! `(key, index)` table to the positions the kept entries move to.
use vstd::prelude::*;
use crate::outside::{pair_le, sorted_pairs};

verus! {

/// Positions of the `true` entries of `keep`, in increasing order.
pub open spec fn kept_indices(keep: Seq<bool>) -> Seq<int>
    decreases keep.len(),
{
    if keep.len() == 0 {
        Seq::empty()
    } else {
        let init = kept_indices(keep.drop_last());
        if keep.last() {
            init.push(keep.len() - 1)
        } else {
            init
        }
    }
}

/// The number of `true` entries before position `j`: where entry `j` moves to.
pub open spec fn rank(keep: Seq<bool>, j: int) -> int {
    kept_indices(keep.take(j)).len() as int
}

/// The entries of `s` at the positions `keep` marks, in order.
pub open spec fn retained<T>(s: Seq<T>, keep: Seq<bool>) -> Seq<T> {
    Seq::new(kept_indices(keep).len(), |k: int| s[kept_indices(keep)[k]])
}

/// Which pairs of the table `s` name a kept entry.
pub open spec fn pair_mask(s: Seq<(u128, u64)>, keep: Seq<bool>) -> Seq<bool> {
    Seq::new(s.len(), |k: int| keep[s[k].1 as int])
}

/// The pairs of `s` that name a kept entry, in order, each renumbered to the place its
/// entry moves to.
pub open spec fn renumbered(s: Seq<(u128, u64)>, keep: Seq<bool>) -> Seq<(u128, u64)> {
    let ks = kept_indices(pair_mask(s, keep));
    Seq::new(ks.len(), |m: int| (s[ks[m]].0, rank(keep, s[ks[m]].1 as int) as u64))
}

/// Some pair of `s` names entry `i`.
pub open spec fn holds_index(s: Seq<(u128, u64)>, i: int) -> bool {
    exists|k: int| 0 <= k < s.len() && s[k].1 == i
}

/// `s` names each entry below `n` exactly once.
pub open spec fn names_each_once(s: Seq<(u128, u64)>, n: int) -> bool {
    &&& forall|k: int| 0 <= k < s.len() ==> (#[trigger] s[k]).1 < n
    &&& forall|i: int| 0 <= i < n ==> #[trigger] holds_index(s, i)
    &&& forall|k1: int, k2: int|
        0 <= k1 < s.len() && 0 <= k2 < s.len() && k1 != k2 ==> (#[trigger] s[k1]).1 != (#[trigger] s[k2]).1
}

/// Kept positions are in range, marked, increasing, and each marked position `j` is
/// found at place `rank(keep, j)`.
pub proof fn lemma_kept_indices(keep: Seq<bool>)
    ensures
        kept_indices(keep).len() <= keep.len(),
        forall|k: int|
            0 <= k < kept_indices(keep).len() ==> 0 <= #[trigger] kept_indices(keep)[k] < keep.len()
                && keep[kept_indices(keep)[k]],
        forall|k1: int, k2: int|
            0 <= k1 < k2 < kept_indices(keep).len() ==> #[trigger] kept_indices(keep)[k1]
                < #[trigger] kept_indices(keep)[k2],
        forall|j: int|
            0 <= j < keep.len() && keep[j] ==> 0 <= #[trigger] rank(keep, j) < kept_indices(keep).len()
                && kept_indices(keep)[rank(keep, j)] == j,
    decreases keep.len(),
{
    if keep.len() > 0 {
        let p = keep.drop_last();
        lemma_kept_indices(p);
        assert forall|j: int| 0 <= j < keep.len() && keep[j] implies 0 <= #[trigger] rank(keep, j)
            < kept_indices(keep).len() && kept_indices(keep)[rank(keep, j)] == j by {
            if j < keep.len() - 1 {
                assert(keep.take(j) =~= p.take(j));
                assert(p[j] == keep[j]);
                assert(rank(p, j) == rank(keep, j));
            } else {
                assert(keep.take(j) =~= p);
            }
        }
    }
}

/// When the marked positions are exactly the entries of `s`, and `s` has no repeats,
/// there are as many marked positions as entries.
pub proof fn lemma_kept_count(keep: Seq<bool>, s: Seq<int>)
    requires
        s.no_duplicates(),
        forall|x: int| (0 <= x < keep.len() && keep[x]) <==> s.contains(x),
    ensures
        kept_indices(keep).len() == s.len(),
{
    let ki = kept_indices(keep);
    lemma_kept_indices(keep);
    assert(ki.no_duplicates()) by {
        assert forall|i: int, j: int| 0 <= i < ki.len() && 0 <= j < ki.len() && i != j implies ki[i] != ki[j] by {
            if i < j {
                assert(ki[i] < ki[j]);
            } else {
                assert(ki[j] < ki[i]);
            }
        }
    }
    assert(ki.to_set() =~= s.to_set()) by {
        assert forall|x: int| ki.to_set().contains(x) implies s.to_set().contains(x) by {
            let k = choose|k: int| 0 <= k < ki.len() && ki[k] == x;
            assert(keep[ki[k]]);
        }
        assert forall|x: int| s.to_set().contains(x) implies ki.to_set().contains(x) by {
            assert(s.contains(x));
            assert(0 <= x < keep.len() && keep[x]);
            assert(ki[rank(keep, x)] == x);
            assert(ki.contains(x));
        }
    }
    ki.unique_seq_to_set();
    s.unique_seq_to_set();
}

/// Appending one flag appends its position when it is set.
pub proof fn lemma_kept_push(m: Seq<bool>, b: bool)
    ensures
        kept_indices(m.push(b)) == if b {
            kept_indices(m).push(m.len() as int)
        } else {
            kept_indices(m)
        },
{
    assert(m.push(b).drop_last() =~= m);
}

/// In an increasing sequence, the place of a value is determined by the value.
pub proof fn lemma_rank_unique(keep: Seq<bool>, j: int, i: int)
    requires
        0 <= j < keep.len(),
        keep[j],
        0 <= i < kept_indices(keep).len(),
        kept_indices(keep)[i] == j,
    ensures
        rank(keep, j) == i,
{
    lemma_kept_indices(keep);
    let r = rank(keep, j);
    if r < i {
        assert(kept_indices(keep)[r] < kept_indices(keep)[i]);
    } else if r > i {
        assert(kept_indices(keep)[i] < kept_indices(keep)[r]);
    }
}

/// Distinct entries below `n`, naming every entry below `n`, number exactly `n`.
pub proof fn lemma_names_each_once_len(s: Seq<(u128, u64)>, n: int)
    requires
        0 <= n,
        names_each_once(s, n),
    ensures
        s.len() == n,
{
    let t = s.map_values(|p: (u128, u64)| p.1 as int);
    assert(t.no_duplicates()) by {
        assert forall|i: int, j: int| 0 <= i < t.len() && 0 <= j < t.len() && i != j implies t[i] != t[j] by {
            assert(s[i].1 != s[j].1);
        }
    }
    t.unique_seq_to_set();
    assert(t.to_set() =~= vstd::set_lib::set_int_range(0, n)) by {
        assert forall|x: int| t.to_set().contains(x) implies 0 <= x < n by {
            let k = choose|k: int| 0 <= k < t.len() && t[k] == x;
            assert(s[k].1 < n);
        }
        assert forall|x: int| 0 <= x < n implies t.to_set().contains(x) by {
            assert(holds_index(s, x));
            let k = choose|k: int| 0 <= k < s.len() && s[k].1 == x;
            assert(t[k] == x);
            assert(t.contains(x));
        }
    }
    vstd::set_lib::lemma_int_range(0, n);
}

/// Renumbering a sorted table that names each entry once gives a sorted table that
/// names each kept entry once, by its new place.
pub proof fn lemma_renumbered(s: Seq<(u128, u64)>, keep: Seq<bool>)
    requires
        keep.len() <= u64::MAX,
        sorted_pairs(s),
        names_each_once(s, keep.len() as int),
    ensures
        sorted_pairs(renumbered(s, keep)),
        names_each_once(renumbered(s, keep), kept_indices(keep).len() as int),
        renumbered(s, keep).len() == kept_indices(keep).len(),
        forall|m: int|
            0 <= m < renumbered(s, keep).len() ==> {
                let k = #[trigger] kept_indices(pair_mask(s, keep))[m];
                &&& 0 <= k < s.len()
                &&& keep[s[k].1 as int]
                &&& renumbered(s, keep)[m] == (s[k].0, rank(keep, s[k].1 as int) as u64)
                &&& kept_indices(keep)[rank(keep, s[k].1 as int)] == s[k].1
            },
{
    let n = keep.len() as int;
    let mask = pair_mask(s, keep);
    let ks = kept_indices(mask);
    let r = renumbered(s, keep);
    let ki = kept_indices(keep);
    lemma_kept_indices(keep);
    lemma_kept_indices(mask);
    assert forall|m: int| 0 <= m < r.len() implies {
        let k = #[trigger] ks[m];
        &&& 0 <= k < s.len()
        &&& keep[s[k].1 as int]
        &&& r[m] == (s[k].0, rank(keep, s[k].1 as int) as u64)
        &&& ki[rank(keep, s[k].1 as int)] == s[k].1
        &&& 0 <= rank(keep, s[k].1 as int) < ki.len()
    } by {
        let k = ks[m];
        assert(mask[k]);
        assert(s[k].1 < n);
    }
    assert forall|m1: int, m2: int| 0 <= m1 < m2 < r.len() implies pair_le(r[m1], r[m2]) by {
        let k1 = ks[m1];
        let k2 = ks[m2];
        assert(k1 < k2);
        let j1 = s[k1].1 as int;
        let j2 = s[k2].1 as int;
        assert(pair_le(s[k1], s[k2]));
        assert(j1 != j2);
        if s[k1].0 == s[k2].0 {
            assert(j1 < j2);
            let r1 = rank(keep, j1);
            let r2 = rank(keep, j2);
            if r1 >= r2 {
                if r1 > r2 {
                    assert(ki[r2] < ki[r1]);
                }
                assert(false);
            }
        }
    }
    assert forall|i: int| 0 <= i < ki.len() implies #[trigger] holds_index(r, i) by {
        let j = ki[i];
        assert(holds_index(s, j));
        let k = choose|k: int| 0 <= k < s.len() && s[k].1 == j;
        assert(mask[k]);
        let m = rank(mask, k);
        assert(ks[m] == k);
        lemma_rank_unique(keep, j, i);
        assert(r[m].1 == i);
    }
    assert forall|m1: int, m2: int| 0 <= m1 < r.len() && 0 <= m2 < r.len() && m1 != m2 implies (
    #[trigger] r[m1]).1 != (#[trigger] r[m2]).1 by {
        let k1 = ks[m1];
        let k2 = ks[m2];
        if m1 < m2 {
            assert(k1 < k2);
        } else {
            assert(k2 < k1);
        }
        assert(s[k1].1 != s[k2].1);
    }
    lemma_names_each_once_len(r, ki.len() as int);
}

/// The entries of `v` at the positions `keep` marks.
pub fn retain_vec<T: Copy>(v: &Vec<T>, keep: &[bool]) -> (r: Vec<T>)
    requires
        v@.len() == keep@.len(),
    ensures
        r@ == retained(v@, keep@),
{
    let mut r: Vec<T> = Vec::new();
    let n = v.len();
    let mut i: usize = 0;
    while i < n
        invariant
            n == v@.len(),
            n == keep@.len(),
            i <= n,
            r@ == retained(v@, keep@.take(i as int)),
        decreases n - i,
    {
        proof {
            assert(keep@.take(i + 1) =~= keep@.take(i as int).push(keep@[i as int]));
            lemma_kept_push(keep@.take(i as int), keep@[i as int]);
        }
        if keep[i] {
            r.push(v[i]);
        }
        i = i + 1;
        proof {
            assert(r@ =~= retained(v@, keep@.take(i as int)));
        }
    }
    proof {
        assert(keep@.take(n as int) =~= keep@);
    }
    r
}

/// For every marked position, the place it moves to.
pub fn ranks(keep: &[bool]) -> (r: Vec<u64>)
    ensures
        r@.len() == keep@.len(),
        forall|j: int| 0 <= j < keep@.len() && keep@[j] ==> r@[j] == rank(keep@, j),
{
    let mut r: Vec<u64> = Vec::new();
    let mut new_count: u64 = 0;
    let n = keep.len();
    let mut i: usize = 0;
    while i < n
        invariant
            n == keep@.len(),
            i <= n,
            r@.len() == i,
            new_count == kept_indices(keep@.take(i as int)).len(),
            forall|j: int| 0 <= j < i && keep@[j] ==> r@[j] == rank(keep@, j),
        decreases n - i,
    {
        proof {
            assert(keep@.take(i + 1) =~= keep@.take(i as int).push(keep@[i as int]));
            lemma_kept_push(keep@.take(i as int), keep@[i as int]);
            lemma_kept_indices(keep@.take(i as int));
        }
        if keep[i] {
            r.push(new_count);
            new_count = new_count + 1;
        } else {
            r.push(0);
        }
        i = i + 1;
    }
    r
}

/// The pairs of `s` that name a kept entry, renumbered to the entries' new places.
pub fn renumber(s: &Vec<(u128, u64)>, keep: &[bool], new_place: &Vec<u64>) -> (r: Vec<(u128, u64)>)
    requires
        new_place@.len() == keep@.len(),
        forall|j: int| 0 <= j < keep@.len() && keep@[j] ==> new_place@[j] == rank(keep@, j),
        forall|k: int| 0 <= k < s@.len() ==> (#[trigger] s@[k]).1 < keep@.len(),
    ensures
        r@ == renumbered(s@, keep@),
{
    let mut r: Vec<(u128, u64)> = Vec::new();
    let n = s.len();
    let mut i: usize = 0;
    while i < n
        invariant
            n == s@.len(),
            i <= n,
            new_place@.len() == keep@.len(),
            forall|j: int| 0 <= j < keep@.len() && keep@[j] ==> new_place@[j] == rank(keep@, j),
            forall|k: int| 0 <= k < s@.len() ==> (#[trigger] s@[k]).1 < keep@.len(),
            r@ == renumbered(s@.take(i as int), keep@),
        decreases n - i,
    {
        let (e, oi) = s[i];
        proof {
            assert(s@[i as int].1 < keep@.len());
            let m0 = pair_mask(s@.take(i as int), keep@);
            assert(pair_mask(s@.take(i + 1), keep@) =~= m0.push(keep@[oi as int]));
            lemma_kept_push(m0, keep@[oi as int]);
            lemma_kept_indices(m0);
        }
        let ghost r0 = r@;
        if keep[oi as usize] {
            r.push((e, new_place[oi as usize]));
        }
        i = i + 1;
        proof {
            let m0 = pair_mask(s@.take(i - 1), keep@);
            let ks0 = kept_indices(m0);
            let nr = renumbered(s@.take(i as int), keep@);
            assert forall|m: int| 0 <= m < ks0.len() implies nr[m] == r0[m] by {
                assert(0 <= ks0[m] < i - 1);
                assert(s@.take(i as int)[ks0[m]] == s@.take(i - 1)[ks0[m]]);
            }
            assert(r@ =~= nr);
        }
    }
    proof {
        assert(s@.take(n as int) =~= s@);
    }
    r
}

} // verus!
