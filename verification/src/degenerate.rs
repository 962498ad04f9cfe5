//! Dropping boards that behave like another board on all four sides but score higher.
use vstd::prelude::*;
use crate::basic_grids::{spec_dir_index, Direction};
use crate::board::{exposable, lemma_same_content, window_retained, BoardWindow};
use crate::outside::{par_sort, sorted_keys, SortKey};
use crate::packed::PackedCells;
use crate::retain::{kept_indices, lemma_kept_indices};
use crate::scores::{area, lemma_retained_scores_within, subset_of};

verus! {

/// A sort key: the four exposures of a board, then the board.
pub type SideKey = (u128, u128, u128, u128, u64);

/// Boards `x` and `y` of `w` show the same cells along all four sides.
pub open spec fn same_sides(w: BoardWindow, x: int, y: int) -> bool {
    forall|d: Direction| #[trigger] w.exposure(x, d) == w.exposure(y, d)
}

/// Board `x` scores below every other board with the same four sides (ties broken by
/// index).
pub open spec fn best_of_kind(w: BoardWindow, x: int) -> bool {
    forall|y: int| 0 <= y < w.nboards()->Some_0 && y != x && #[trigger] same_sides(w, x, y) ==> w.score_key_lt(x, y)
}

/// For each board, whether it is the best of its kind.
pub open spec fn best_mask(w: BoardWindow) -> Seq<bool> {
    Seq::new(w.nboards()->Some_0 as nat, |x: int| best_of_kind(w, x))
}

/// The four sides of a key are equal.
pub open spec fn same_key(a: SideKey, b: SideKey) -> bool {
    a.0 == b.0 && a.1 == b.1 && a.2 == b.2 && a.3 == b.3
}

/// The keys `(sides of board x, x)`, reordered, name each board once with its sides.
proof fn lemma_key_enumeration(orig: Seq<SideKey>, s: Seq<SideKey>)
    requires
        orig.len() <= u64::MAX,
        forall|x: int| 0 <= x < orig.len() ==> (#[trigger] orig[x]).4 == x,
        s.to_multiset() == orig.to_multiset(),
    ensures
        s.len() == orig.len(),
        s.no_duplicates(),
        forall|p: int| 0 <= p < s.len() ==> (#[trigger] s[p]).4 < orig.len() && s[p] == orig[s[p].4 as int],
        forall|x: int| 0 <= x < orig.len() ==> #[trigger] s.contains(orig[x]),
{
    broadcast use vstd::seq_lib::group_to_multiset_ensures;

    vstd::seq_lib::to_multiset_len(s);
    vstd::seq_lib::to_multiset_len(orig);
    assert(orig.no_duplicates()) by {
        assert forall|i: int, j: int| 0 <= i < orig.len() && 0 <= j < orig.len() && i != j implies orig[i] != orig[j] by {
            assert(orig[i].4 == i);
            assert(orig[j].4 == j);
        }
    }
    orig.lemma_multiset_has_no_duplicates();
    assert forall|x: SideKey| s.to_multiset().contains(x) implies s.to_multiset().count(x) == 1 by {}
    s.lemma_multiset_has_no_duplicates_conv();
    assert forall|p: int| 0 <= p < s.len() implies (#[trigger] s[p]).4 < orig.len() && s[p] == orig[s[p].4 as int] by {
        assert(s.contains(s[p]));
        assert(s.to_multiset().count(s[p]) > 0);
        assert(orig.contains(s[p]));
        let j = choose|j: int| 0 <= j < orig.len() && orig[j] == s[p];
        assert(orig[j].4 == j);
    }
    assert forall|x: int| 0 <= x < orig.len() implies #[trigger] s.contains(orig[x]) by {
        assert(orig.contains(orig[x]));
        assert(orig.to_multiset().count(orig[x]) > 0);
    }
}

/// In a sorted table, entries between two entries with the same sides have those sides
/// too, and among them boards come in increasing order.
proof fn lemma_sorted_runs(s: Seq<SideKey>, a: int, b: int, c: int)
    requires
        sorted_keys(s),
        s.no_duplicates(),
        0 <= a <= b <= c < s.len(),
        same_key(s[a], s[c]),
    ensures
        same_key(s[a], s[b]),
        a < b ==> s[a].4 < s[b].4,
{
    if a < b {
        assert(<SideKey as SortKey>::key_le(s[a], s[b]));
        assert(s[a] != s[b]);
    }
    if b < c {
        assert(<SideKey as SortKey>::key_le(s[b], s[c]));
    }
}

impl BoardWindow {
    /// Of every set of boards that show the same cells along all four sides, keeps only
    /// the lowest-scoring one (the lowest index among equal scores).
    pub fn remove_degenerate_lowscore(&mut self) -> (r: Option<()>)
        requires
            old(self).inv(),
            exposable(old(self).rect),
            old(self).scores_fit(),
        ensures
            final(self).inv(),
            final(self).scores_fit(),
            forall|b2: int| #[trigger] old(self).scores_within(b2) ==> final(self).scores_within(b2),
            r is None <==> old(self).nboards() is None,
            r is None ==> *final(self) == *old(self),
            r is Some ==> subset_of(*final(self), *old(self), kept_indices(best_mask(*old(self)))),
    {
        let ghost w0 = *self;
        let n = match self.get_num_valid_boards() {
            Some(n) => n,
            None => {
                return None;
            },
        };
        self.build_exposure_cache(Direction::Up);
        self.build_exposure_cache(Direction::Down);
        self.build_exposure_cache(Direction::Left);
        self.build_exposure_cache(Direction::Right);
        let ghost wa = *self;
        let ghost b = choose|b: int| 0 <= b && b * area(w0.rect) <= i32::MAX && #[trigger] w0.scores_within(b);
        proof {
            lemma_same_content(wa, w0);
            assert(wa.scores_within(b));
        }
        self.build_score_cache();
        let ghost w1 = *self;
        proof {
            assert(w1.scores_within(b));
            assert(w1.score_cache_ok());
            assert forall|i: int, d: Direction| #[trigger] w1.exposure(i, d) == w0.exposure(i, d) by {
                assert(wa.exposure(i, d) == w0.exposure(i, d));
            }
            assert(w1.exposure_cache_ok(Direction::Up));
            assert(w1.exposure_cache_ok(Direction::Down));
            assert(w1.exposure_cache_ok(Direction::Left));
            assert(w1.exposure_cache_ok(Direction::Right));
        }
        let mut tosort: Vec<SideKey> = Vec::new();
        let mut tokeep: Vec<bool> = Vec::new();
        match (&self.exposure_cache[0], &self.exposure_cache[1], &self.exposure_cache[2], &self.exposure_cache[3], &self.score_cache) {
            (Some(e0), Some(e1), Some(e2), Some(e3), Some(pops)) => {
                proof {
                    assert(e0.len() == n);
                }
                let mut i: u64 = 0;
                while i < n
                    invariant
                        i <= n,
                        n <= usize::MAX,
                        n == e0@.len() && n == e1@.len() && n == e2@.len() && n == e3@.len(),
                        tosort@.len() == i,
                        forall|x: int| 0 <= x < i ==> #[trigger] tosort@[x] == (e0@[x].0, e1@[x].0, e2@[x].0, e3@[x].0, x as u64),
                    decreases n - i,
                {
                    let iu = i as usize;
                    tosort.push((e0[iu].0, e1[iu].0, e2[iu].0, e3[iu].0, i));
                    i = i + 1;
                }
                let ghost orig = tosort@;
                par_sort(&mut tosort);
                let ghost t = tosort@;
                proof {
                    lemma_key_enumeration(orig, t);
                }
                let mut x: u64 = 0;
                while x < n
                    invariant
                        tokeep@.len() == x,
                        x <= n,
                        forall|y: int| 0 <= y < x ==> !tokeep@[y],
                    decreases n - x,
                {
                    tokeep.push(false);
                    x = x + 1;
                }
                let nn = n as usize;
                let mut i: usize = 0;
                while i < nn
                    invariant
                        nn == n,
                        n == e0@.len() && n == pops@.len(),
                        t == tosort@,
                        t.len() == n,
                        sorted_keys(t),
                        t.no_duplicates(),
                        forall|p: int| 0 <= p < t.len() ==> (#[trigger] t[p]).4 < n && t[p] == orig[t[p].4 as int],
                        tokeep@.len() == n,
                        i <= n,
                        i < n ==> (i == 0 || !same_key(t[i - 1], t[i as int])),
                        forall|p: int| 0 <= p < n ==> (tokeep@[#[trigger] t[p].4 as int] <==> (p < i && {
                            let x = t[p].4 as int;
                            forall|q: int| 0 <= q < n && q != p && same_key(t[p], t[q]) ==> (pops@[x] < pops@[t[q].4 as int] || (pops@[x]
                                == pops@[t[q].4 as int] && x < t[q].4))
                        })),
                    decreases n - i,
                {
                    let mut j = i + 1;
                    let mut best = i;
                    while j < nn && tosort[j].0 == tosort[i].0 && tosort[j].1 == tosort[i].1 && tosort[j].2 == tosort[i].2 && tosort[j].3
                        == tosort[i].3
                        invariant
                            nn == n,
                            n == pops@.len(),
                            t == tosort@,
                            t.len() == n,
                            forall|p: int| 0 <= p < t.len() ==> (#[trigger] t[p]).4 < n,
                            sorted_keys(t),
                            t.no_duplicates(),
                            i < j <= n,
                            i <= best < j,
                            forall|q: int| i <= q < j ==> same_key(t[i as int], #[trigger] t[q]),
                            forall|q: int|
                                i <= q < j && q != best ==> (pops@[t[best as int].4 as int] < pops@[#[trigger] t[q].4 as int] || (
                                pops@[t[best as int].4 as int] == pops@[t[q].4 as int] && t[best as int].4 < t[q].4)),
                        decreases n - j,
                    {
                        proof {
                            lemma_sorted_runs(t, best as int, j as int, j as int);
                        }
                        let pb = pops[tosort[best].4 as usize];
                        let pj = pops[tosort[j].4 as usize];
                        if pb > pj {
                            proof {
                                assert forall|q: int| i <= q < j + 1 && q != j implies (pops@[t[j as int].4 as int] < pops@[
                                    #[trigger] t[q].4 as int] || (pops@[t[j as int].4 as int] == pops@[t[q].4 as int] && t[j as int].4
                                    < t[q].4)) by {
                                    if q != best {
                                        assert(pops@[t[best as int].4 as int] < pops@[t[q].4 as int] || (pops@[t[best as int].4 as int]
                                            == pops@[t[q].4 as int] && t[best as int].4 < t[q].4));
                                    }
                                }
                            }
                            best = j;
                        } else {
                            proof {
                                if best < j {
                                    lemma_sorted_runs(t, best as int, j as int, j as int);
                                }
                            }
                        }
                        j = j + 1;
                    }
                    let kb = tosort[best].4;
                    proof {
                        // The run `i..j` holds every entry with its sides.
                        assert forall|q: int| 0 <= q < n && same_key(t[i as int], t[q]) implies i <= q < j by {
                            if q < i {
                                lemma_sorted_runs(t, q, i - 1, i as int);
                            } else if q >= j {
                                lemma_sorted_runs(t, i as int, j as int, q);
                            }
                        }
                    }
                    tokeep.set(kb as usize, true);
                    proof {
                        assert forall|p: int| 0 <= p < n implies (tokeep@[#[trigger] t[p].4 as int] <==> (p < j && {
                            let x = t[p].4 as int;
                            forall|q: int| 0 <= q < n && q != p && same_key(t[p], t[q]) ==> (pops@[x] < pops@[t[q].4 as int] || (
                            pops@[x] == pops@[t[q].4 as int] && x < t[q].4))
                        })) by {
                            let x = t[p].4 as int;
                            if p != best {
                                assert(t[p] != t[best as int]);
                                assert(t[p] == orig[x]);
                                assert(t[best as int] == orig[kb as int]);
                                assert(x != kb);
                            }
                            if i <= p < j {
                                assert(same_key(t[i as int], t[p]));
                                if p != best {
                                    assert(same_key(t[p], t[best as int]));
                                }
                            } else if p < i {
                            } else {
                                if exists|q: int| 0 <= q < n && q != p && same_key(t[p], t[q]) && i <= q < j {
                                    let q = choose|q: int| 0 <= q < n && q != p && same_key(t[p], t[q]) && i <= q < j;
                                    assert(same_key(t[i as int], t[q]));
                                    assert(same_key(t[i as int], t[p]));
                                }
                            }
                        }
                    }
                    i = j;
                }
                proof {
                    assert forall|x: int| 0 <= x < n implies #[trigger] w0.score(x) == Some(pops@[x] as int) by {
                        assert(w1.score(x) == wa.score(x));
                    }
                    assert forall|x: int, y: int| 0 <= x < n && 0 <= y < n implies (#[trigger] same_key(orig[x], orig[y])
                        <==> #[trigger] same_sides(w0, x, y)) by {
                        assert(Some(e0@[x]) == w0.exposure(x, Direction::Up));
                        assert(Some(e1@[x]) == w0.exposure(x, Direction::Down));
                        assert(Some(e2@[x]) == w0.exposure(x, Direction::Left));
                        assert(Some(e3@[x]) == w0.exposure(x, Direction::Right));
                        assert(Some(e0@[y]) == w0.exposure(y, Direction::Up));
                        assert(Some(e1@[y]) == w0.exposure(y, Direction::Down));
                        assert(Some(e2@[y]) == w0.exposure(y, Direction::Left));
                        assert(Some(e3@[y]) == w0.exposure(y, Direction::Right));
                        if same_key(orig[x], orig[y]) {
                            assert forall|d: Direction| #[trigger] w0.exposure(x, d) == w0.exposure(y, d) by {
                                match d {
                                    Direction::Up => {},
                                    Direction::Down => {},
                                    Direction::Left => {},
                                    Direction::Right => {},
                                }
                            }
                        }
                    }
                    assert forall|x: int| 0 <= x < n implies tokeep@[x] == best_of_kind(w0, x) by {
                        assert(t.contains(orig[x]));
                        let p = choose|p: int| 0 <= p < t.len() && t[p] == orig[x];
                        assert(t[p].4 == x);
                        if tokeep@[x] {
                            assert forall|y: int| 0 <= y < w0.nboards()->Some_0 && y != x && #[trigger] same_sides(w0, x, y) implies w0.score_key_lt(x, y) by {
                                assert(t.contains(orig[y]));
                                let q = choose|q: int| 0 <= q < t.len() && t[q] == orig[y];
                                assert(t[q].4 == y);
                                assert(same_key(orig[x], orig[y]));
                                assert(same_key(t[p], t[q]));
                            }
                        }
                        if best_of_kind(w0, x) {
                            assert forall|q: int| 0 <= q < n && q != p && same_key(t[p], t[q]) implies (pops@[x] < pops@[t[q].4 as int] || (
                            pops@[x] == pops@[t[q].4 as int] && x < t[q].4)) by {
                                let y = t[q].4 as int;
                                assert(t[q] == orig[y]);
                                assert(t[q] != t[p]);
                                assert(same_key(orig[x], orig[y]));
                                assert(same_sides(w0, x, y));
                            }
                        }
                    }
                    assert(tokeep@ =~= best_mask(w0));
                }
            },
            _ => {
                proof {
                    assert(false);
                }
            },
        }
        let ghost mask = tokeep@;
        self.retain_valid_boards(tokeep.as_slice());
        proof {
            let ki = kept_indices(mask);
            lemma_kept_indices(mask);
            lemma_retained_scores_within(*self, w1, mask, b);
            crate::board::lemma_retained_within(*self, w1, mask);
            assert forall|b2: int| #[trigger] w0.scores_within(b2) implies self.scores_within(b2) by {
                assert(wa.scores_within(b2));
                assert(w1.scores_within(b2));
                lemma_retained_scores_within(*self, w1, mask, b2);
            }
            assert forall|k: int, d: Direction| 0 <= k < ki.len() implies #[trigger] self.exposure(k, d) == w0.exposure(ki[k], d) by {
                assert(w1.exposure(ki[k], d) == w0.exposure(ki[k], d));
            }
            assert forall|k: int| 0 <= k < ki.len() implies #[trigger] self.score(k) == w0.score(ki[k]) by {
                assert(w1.score(ki[k]) == wa.score(ki[k]));
            }
            assert(subset_of(*self, w0, ki));
        }
        Some(())
    }
}

} // verus!
