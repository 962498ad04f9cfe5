//! Scores of the boards of a window: summing them, caching them, and keeping only the
//! lowest-scoring boards when there are too many.
use vstd::prelude::*;
use crate::basic_grids::{spec_opposite, Direction, Rect};
use crate::board::{
    exposable, exposure_rect_of, fits_together, lemma_pairs_complete, lemma_pairs_fit, lemma_same_content, lemma_sorted_keys,
    inner_within, lemma_retained_within, lemma_within_trans, lists_all_fitting, picks, sub_list, window_retained, BoardWindow,
    BoardWindowData,
};
use crate::basic_grids::lemma_opposite_involutive;
use crate::matching::{all_block_pairs, lemma_block_listing, lemma_prefix_total, total_pairs};
use crate::outside::{score_pair_le, select_nth_pairs};
use crate::retain::{kept_indices, lemma_kept_count, lemma_kept_indices, retained};

verus! {

/// Number of cells of `r`.
pub open spec fn area(r: Rect) -> int {
    r.spec_width() * r.spec_height()
}

impl BoardWindow {
    /// Every score a leaf below holds lies within `-b..=b`.
    pub open spec fn scores_within(self, b: int) -> bool
        decreases self,
    {
        match self.inner {
            BoardWindowData::Leaf { .. } => self.score_cache matches Some(sc) ==> forall|i: int|
                0 <= i < sc@.len() ==> -b <= #[trigger] sc@[i] <= b,
            BoardWindowData::SplitHorizontal { left, right, .. } => left.scores_within(b) && right.scores_within(b),
            BoardWindowData::SplitVertical { top, bottom, .. } => top.scores_within(b) && bottom.scores_within(b),
        }
    }

    /// Some bound on the leaves' scores keeps every sum over the window within `i32`.
    pub open spec fn scores_fit(self) -> bool {
        exists|b: int| 0 <= b && b * area(self.rect) <= i32::MAX && #[trigger] self.scores_within(b)
    }

    /// Board `x` scores below board `y`, ties broken by index.
    pub open spec fn score_key_lt(self, x: int, y: int) -> bool {
        self.score(x)->Some_0 < self.score(y)->Some_0 || (self.score(x)->Some_0 == self.score(y)->Some_0 && x < y)
    }
}

/// A window's area is the sum of its halves' areas.
pub proof fn lemma_split_area(r: Rect, a: Rect, c: Rect)
    requires
        (a == Rect { right: a.right, ..r } && c == Rect { left: a.right, ..r } && r.left < a.right < r.right) || (a
            == Rect { bottom: a.bottom, ..r } && c == Rect { top: a.bottom, ..r } && r.top < a.bottom < r.bottom),
        r.top < r.bottom,
        r.left < r.right,
    ensures
        area(a) + area(c) == area(r),
        0 < area(a) < area(r),
        0 < area(c) < area(r),
{
    let h = r.spec_height();
    let w = r.spec_width();
    if a.bottom == r.bottom && a.top == r.top {
        let wa = a.spec_width();
        let wc = c.spec_width();
        assert(wa * h + wc * h == w * h && 0 < wa * h < w * h && 0 < wc * h < w * h) by (nonlinear_arith)
            requires
                wa + wc == w,
                0 < wa,
                0 < wc,
                0 < h,
        ;
    } else {
        let ha = a.spec_height();
        let hc = c.spec_height();
        assert(w * ha + w * hc == w * h && 0 < w * ha < w * h && 0 < w * hc < w * h) by (nonlinear_arith)
            requires
                ha + hc == h,
                0 < ha,
                0 < hc,
                0 < w,
        ;
    }
}

/// Every score of a window lies within the leaves' bound times its area; a filled
/// window has a score for every board.
pub proof fn lemma_score_bound(w: BoardWindow, b: int, i: int)
    requires
        w.inv(),
        0 <= b,
        w.scores_within(b),
        w.nboards() matches Some(n) && 0 <= i < n,
    ensures
        w.score(i) is Some,
        -b * area(w.rect) <= w.score(i)->Some_0 <= b * area(w.rect),
    decreases w,
{
    assert(w.score_cache_ok());
    match w.inner {
        BoardWindowData::Leaf { .. } => {
            assert(w.rect.spec_width() == 1 && w.rect.spec_height() == 1);
            assert(area(w.rect) == 1);
        },
        BoardWindowData::SplitHorizontal { left, right, valid_combos } => {
            let vc = valid_combos->Some_0;
            let i1 = vc@[i].0 as int;
            let i2 = vc@[i].1 as int;
            lemma_score_bound(*left, b, i1);
            lemma_score_bound(*right, b, i2);
            lemma_split_area(w.rect, left.rect, right.rect);
            let x1 = left.score(i1)->Some_0;
            let x2 = right.score(i2)->Some_0;
            assert(-b * area(w.rect) <= x1 + x2 <= b * area(w.rect)) by (nonlinear_arith)
                requires
                    -b * area(left.rect) <= x1 <= b * area(left.rect),
                    -b * area(right.rect) <= x2 <= b * area(right.rect),
                    area(left.rect) + area(right.rect) == area(w.rect),
            ;
        },
        BoardWindowData::SplitVertical { top, bottom, valid_combos } => {
            let vc = valid_combos->Some_0;
            let i1 = vc@[i].0 as int;
            let i2 = vc@[i].1 as int;
            lemma_score_bound(*top, b, i1);
            lemma_score_bound(*bottom, b, i2);
            lemma_split_area(w.rect, top.rect, bottom.rect);
            let x1 = top.score(i1)->Some_0;
            let x2 = bottom.score(i2)->Some_0;
            assert(-b * area(w.rect) <= x1 + x2 <= b * area(w.rect)) by (nonlinear_arith)
                requires
                    -b * area(top.rect) <= x1 <= b * area(top.rect),
                    -b * area(bottom.rect) <= x2 <= b * area(bottom.rect),
                    area(top.rect) + area(bottom.rect) == area(w.rect),
            ;
        },
    }
}

/// The halves of a window whose scores fit have scores that fit.
pub proof fn lemma_scores_fit_halves(w: BoardWindow)
    requires
        w.inv(),
        w.scores_fit(),
    ensures
        match w.inner {
            BoardWindowData::Leaf { .. } => true,
            BoardWindowData::SplitHorizontal { left, right, .. } => left.scores_fit() && right.scores_fit(),
            BoardWindowData::SplitVertical { top, bottom, .. } => top.scores_fit() && bottom.scores_fit(),
        },
{
    let b = choose|b: int| 0 <= b && b * area(w.rect) <= i32::MAX && #[trigger] w.scores_within(b);
    match w.inner {
        BoardWindowData::Leaf { .. } => {},
        BoardWindowData::SplitHorizontal { left, right, .. } => {
            lemma_split_area(w.rect, left.rect, right.rect);
            assert(b * area(left.rect) <= b * area(w.rect)) by (nonlinear_arith)
                requires
                    0 <= b,
                    area(left.rect) <= area(w.rect),
            ;
            assert(b * area(right.rect) <= b * area(w.rect)) by (nonlinear_arith)
                requires
                    0 <= b,
                    area(right.rect) <= area(w.rect),
            ;
            assert(left.scores_within(b));
            assert(right.scores_within(b));
        },
        BoardWindowData::SplitVertical { top, bottom, .. } => {
            lemma_split_area(w.rect, top.rect, bottom.rect);
            assert(b * area(top.rect) <= b * area(w.rect)) by (nonlinear_arith)
                requires
                    0 <= b,
                    area(top.rect) <= area(w.rect),
            ;
            assert(b * area(bottom.rect) <= b * area(w.rect)) by (nonlinear_arith)
                requires
                    0 <= b,
                    area(bottom.rect) <= area(w.rect),
            ;
            assert(top.scores_within(b));
            assert(bottom.scores_within(b));
        },
    }
}

impl BoardWindow {
    /// The score of board `i`: from the cache when it is built, else the sum of the
    /// scores of the two boards it combines.
    pub fn get_score(&self, i: u64) -> (r: Option<i32>)
        requires
            self.inv(),
            self.scores_fit(),
            self.nboards() matches Some(n) ==> i < n,
        ensures
            r matches Some(x) ==> self.score(i as int) == Some(x as int),
            r is None ==> self.score(i as int) is None,
            self.nboards() is Some ==> r is Some,
        decreases self,
    {
        proof {
            assert(self.score_cache_ok());
            let b = choose|b: int| 0 <= b && b * area(self.rect) <= i32::MAX && #[trigger] self.scores_within(b);
            if self.nboards() is Some {
                lemma_score_bound(*self, b, i as int);
                let ar = area(self.rect);
                assert(-b * ar == -(b * ar)) by (nonlinear_arith);
            }
            assert(self.nboards() is Some ==> (self.score(i as int) is Some && i32::MIN <= self.score(i as int)->Some_0
                <= i32::MAX));
            lemma_scores_fit_halves(*self);
        }
        if let Some(cache) = &self.score_cache {
            proof {
                assert(i < cache.len());
            }
            return Some(cache[i as usize]);
        }
        match &self.inner {
            BoardWindowData::SplitHorizontal { left, right, valid_combos: Some(valid_combos) } => {
                proof {
                    assert(i < valid_combos.len());
                }
                let (i1, i2) = valid_combos[i as usize];
                let a = left.get_score(i1).unwrap();
                let c = right.get_score(i2).unwrap();
                proof {
                    assert(self.score(i as int) == Some(a as int + c as int));
                }
                Some(a + c)
            },
            BoardWindowData::SplitVertical { top, bottom, valid_combos: Some(valid_combos) } => {
                proof {
                    assert(i < valid_combos.len());
                }
                let (i1, i2) = valid_combos[i as usize];
                let a = top.get_score(i1).unwrap();
                let c = bottom.get_score(i2).unwrap();
                proof {
                    assert(self.score(i as int) == Some(a as int + c as int));
                }
                Some(a + c)
            },
            _ => None,
        }
    }
}

impl BoardWindow {
    /// Fills the score cache, unless it is already there.
    pub fn build_score_cache(&mut self)
        requires
            old(self).inv(),
            old(self).scores_fit(),
        ensures
            final(self).inv(),
            final(self).rect == old(self).rect,
            final(self).inner == old(self).inner,
            final(self).forced_dead == old(self).forced_dead,
            final(self).exposure_cache == old(self).exposure_cache,
            final(self).exposure_sort_order_cache == old(self).exposure_sort_order_cache,
            forall|i: int| #[trigger] final(self).score(i) == old(self).score(i),
            forall|b: int| #[trigger] final(self).scores_within(b) == old(self).scores_within(b),
            old(self).nboards() is Some ==> final(self).score_cache is Some,
            old(self).score_cache is Some ==> final(self).score_cache == old(self).score_cache,
    {
        if self.score_cache.is_some() {
            return;
        }
        if let Some(num_boards) = self.get_num_valid_boards() {
            let mut cache: Vec<i32> = Vec::new();
            let mut i: u64 = 0;
            while i < num_boards
                invariant
                    self.inv(),
                    self.scores_fit(),
                    self.nboards() == Some(num_boards as int),
                    i <= num_boards,
                    cache@.len() == i,
                    forall|k: int| 0 <= k < i ==> self.score(k) == Some(#[trigger] cache@[k] as int),
                decreases num_boards - i,
            {
                match self.get_score(i) {
                    Some(x) => cache.push(x),
                    None => cache.push(0),
                }
                i = i + 1;
            }
            let ghost before = *self;
            self.score_cache = Some(cache);
            proof {
                assert(before.inner is SplitHorizontal || before.inner is SplitVertical);
                assert forall|i: int| #[trigger] self.score(i) == before.score(i) by {}
                assert forall|b: int| #[trigger] self.scores_within(b) == before.scores_within(b) by {}
                assert forall|d: Direction| #[trigger] self.exposure_cache_ok(d) by {
                    assert(before.exposure_cache_ok(d));
                    assert forall|k: int| 0 <= k < self.nboards()->Some_0 implies self.exposure(k, d) == before.exposure(k, d) by {}
                }
                assert forall|d: Direction| #[trigger] self.sort_cache_ok(d) by {
                    assert(before.sort_cache_ok(d));
                    assert forall|k: int| self.exposure(k, d) == before.exposure(k, d) by {}
                }
            }
        }
    }
}

/// `new` holds the boards of `old` at the increasing positions `ks`, with their exposures
/// and scores, in the same place with the same sides forced dead.
pub open spec fn subset_of(new: BoardWindow, old: BoardWindow, ks: Seq<int>) -> bool {
    &&& new.rect == old.rect
    &&& new.forced_dead == old.forced_dead
    &&& inner_within(new.inner, old.inner)
    &&& old.nboards() is Some
    &&& new.nboards() == Some(ks.len() as int)
    &&& forall|k1: int, k2: int| 0 <= k1 < k2 < ks.len() ==> #[trigger] ks[k1] < #[trigger] ks[k2]
    &&& forall|k: int| 0 <= k < ks.len() ==> 0 <= #[trigger] ks[k] < old.nboards()->Some_0
    &&& forall|k: int, d: Direction| 0 <= k < ks.len() ==> #[trigger] new.exposure(k, d) == old.exposure(ks[k], d)
    &&& forall|k: int| 0 <= k < ks.len() ==> #[trigger] new.score(k) == old.score(ks[k])
}

/// Every board at the positions `ks` scores below every other board of `w`.
pub open spec fn lowest(w: BoardWindow, ks: Seq<int>) -> bool {
    forall|k: int, y: int|
        0 <= k < ks.len() && 0 <= y < w.nboards()->Some_0 && !ks.contains(y) ==> #[trigger] w.score_key_lt(ks[k], y)
}

/// `new` keeps exactly the `count` lowest-scoring boards of `old`.
pub open spec fn keeps_lowest(new: BoardWindow, old: BoardWindow, count: int) -> bool {
    exists|ks: Seq<int>| #[trigger] subset_of(new, old, ks) && ks.len() == count && lowest(old, ks)
}

/// Dropping boards keeps the leaves' scores within any bound they were within.
pub proof fn lemma_retained_scores_within(new: BoardWindow, old: BoardWindow, keep: Seq<bool>, b: int)
    requires
        window_retained(new, old, keep),
        old.scores_within(b),
        old.nboards() matches Some(n) ==> keep.len() == n,
        old.inv(),
    ensures
        new.scores_within(b),
{
    lemma_kept_indices(keep);
    match old.inner {
        BoardWindowData::Leaf { .. } => {
            assert(old.score_cache_ok());
            if let Some(sc) = new.score_cache {
                let osc = old.score_cache->Some_0;
                assert forall|i: int| 0 <= i < sc@.len() implies -b <= #[trigger] sc@[i] <= b by {
                    assert(sc@[i] == osc@[kept_indices(keep)[i]]);
                }
            }
        },
        _ => {},
    }
}

/// The pairs `(score of board x, x)`, reordered, name each board once with its score.
pub(crate) proof fn lemma_score_pairs(sc: Seq<i32>, orig: Seq<(i32, usize)>, s: Seq<(i32, usize)>)
    requires
        orig.len() == sc.len(),
        orig.len() <= usize::MAX,
        forall|x: int| 0 <= x < orig.len() ==> #[trigger] orig[x] == (sc[x], x as usize),
        s.to_multiset() == orig.to_multiset(),
    ensures
        s.len() == sc.len(),
        s.no_duplicates(),
        forall|p: int| 0 <= p < s.len() ==> (#[trigger] s[p]).1 < sc.len() && s[p] == (sc[s[p].1 as int], s[p].1),
        forall|x: int| 0 <= x < sc.len() ==> #[trigger] s.contains((sc[x], x as usize)),
{
    broadcast use vstd::seq_lib::group_to_multiset_ensures;

    vstd::seq_lib::to_multiset_len(s);
    vstd::seq_lib::to_multiset_len(orig);
    assert(orig.no_duplicates()) by {
        assert forall|i: int, j: int| 0 <= i < orig.len() && 0 <= j < orig.len() && i != j implies orig[i] != orig[j] by {
            assert(orig[i].1 == i as usize);
            assert(orig[j].1 == j as usize);
        }
    }
    orig.lemma_multiset_has_no_duplicates();
    assert forall|x: (i32, usize)| s.to_multiset().contains(x) implies s.to_multiset().count(x) == 1 by {}
    s.lemma_multiset_has_no_duplicates_conv();
    assert forall|p: int| 0 <= p < s.len() implies (#[trigger] s[p]).1 < sc.len() && s[p] == (sc[s[p].1 as int], s[p].1) by {
        assert(s.contains(s[p]));
        assert(s.to_multiset().count(s[p]) > 0);
        assert(orig.contains(s[p]));
        let j = choose|j: int| 0 <= j < orig.len() && orig[j] == s[p];
        assert(orig[j] == (sc[j], j as usize));
    }
    assert forall|x: int| 0 <= x < sc.len() implies #[trigger] s.contains((sc[x], x as usize)) by {
        assert(orig.contains(orig[x]));
        assert(orig.to_multiset().count(orig[x]) > 0);
        assert(s.contains(orig[x]));
    }
}

impl BoardWindow {
    /// Keeps only the `to_retain` lowest-scoring boards (ties broken by index), when
    /// there are more.
    pub fn cull_worst_scores(&mut self, to_retain: usize) -> (r: Option<()>)
        requires
            old(self).inv(),
            old(self).scores_fit(),
        ensures
            final(self).inv(),
            final(self).scores_fit(),
            forall|b: int| #[trigger] old(self).scores_within(b) ==> final(self).scores_within(b),
            r is None <==> old(self).nboards() is None,
            r is None ==> *final(self) == *old(self),
            old(self).nboards() matches Some(n) && n <= to_retain ==> *final(self) == *old(self),
            old(self).nboards() matches Some(n) && to_retain < n ==> keeps_lowest(*final(self), *old(self), to_retain as int),
    {
        let n = match self.get_num_valid_boards() {
            Some(n) => n,
            None => {
                return None;
            },
        };
        if to_retain as u64 >= n {
            return Some(());
        }
        let ghost w0 = *self;
        self.build_score_cache();
        let ghost w1 = *self;
        let ghost b = choose|b: int| 0 <= b && b * area(w0.rect) <= i32::MAX && #[trigger] w0.scores_within(b);
        proof {
            assert(w1.scores_within(b));
            assert(w1.score_cache_ok());
        }
        let mut pops: Vec<(i32, usize)> = Vec::new();
        match &self.score_cache {
            Some(sc) => {
                let m = sc.len();
                let mut i: usize = 0;
                while i < m
                    invariant
                        m == sc@.len(),
                        i <= m,
                        pops@.len() == i,
                        forall|x: int| 0 <= x < i ==> #[trigger] pops@[x] == (sc@[x], x as usize),
                    decreases m - i,
                {
                    pops.push((sc[i], i));
                    i = i + 1;
                }
            },
            None => {
                proof {
                    assert(false);
                }
            },
        }
        let ghost orig = pops@;
        let ghost sc = w1.score_cache->Some_0@;
        proof {
            assert(pops.len() == orig.len());
        }
        select_nth_pairs(&mut pops, to_retain);
        proof {
            lemma_score_pairs(sc, orig, pops@);
        }
        let mut keep: Vec<bool> = Vec::new();
        let mut x: u64 = 0;
        while x < n
            invariant
                keep@.len() == x,
                x <= n,
                forall|y: int| 0 <= y < x ==> !keep@[y],
            decreases n - x,
        {
            keep.push(false);
            x = x + 1;
        }
        let mut a: usize = 0;
        while a < to_retain
            invariant
                a <= to_retain,
                to_retain < n,
                keep@.len() == n,
                pops@.len() == n,
                forall|p: int| 0 <= p < pops@.len() ==> (#[trigger] pops@[p]).1 < n,
                forall|y: int| 0 <= y < n ==> (keep@[y] <==> exists|p: int| 0 <= p < a && #[trigger] pops@[p].1 == y),
            decreases to_retain - a,
        {
            let y = pops[a].1;
            keep.set(y, true);
            proof {
                assert forall|z: int| 0 <= z < n implies (keep@[z] <==> exists|p: int| 0 <= p < a + 1 && #[trigger] pops@[p].1 == z) by {
                    if z == y {
                        assert(pops@[a as int].1 == z);
                    }
                }
            }
            a = a + 1;
        }
        let ghost kept = Seq::new(to_retain as nat, |p: int| pops@[p].1 as int);
        proof {
            assert(kept.no_duplicates()) by {
                assert forall|p1: int, p2: int| 0 <= p1 < kept.len() && 0 <= p2 < kept.len() && p1 != p2 implies kept[p1] != kept[p2] by {
                    assert(pops@[p1] != pops@[p2]);
                    assert(pops@[p1] == (sc[pops@[p1].1 as int], pops@[p1].1));
                    assert(pops@[p2] == (sc[pops@[p2].1 as int], pops@[p2].1));
                }
            }
            assert forall|y: int| (0 <= y < keep@.len() && keep@[y]) <==> kept.contains(y) by {
                if 0 <= y < keep@.len() && keep@[y] {
                    let p = choose|p: int| 0 <= p < to_retain && #[trigger] pops@[p].1 == y;
                    assert(kept[p] == y);
                }
                if kept.contains(y) {
                    let p = choose|p: int| 0 <= p < kept.len() && kept[p] == y;
                    assert(pops@[p].1 == y);
                }
            }
            lemma_kept_count(keep@, kept);
        }
        self.retain_valid_boards(keep.as_slice());
        proof {
            let ks = kept_indices(keep@);
            lemma_kept_indices(keep@);
            lemma_retained_scores_within(*self, w1, keep@, b);
            lemma_retained_within(*self, w1, keep@);
            assert forall|b2: int| #[trigger] w0.scores_within(b2) implies self.scores_within(b2) by {
                assert(w1.scores_within(b2));
                lemma_retained_scores_within(*self, w1, keep@, b2);
            }
            assert(self.scores_within(b));
            assert(subset_of(*self, w0, ks));
            assert forall|k: int, y: int|
                0 <= k < ks.len() && 0 <= y < w0.nboards()->Some_0 && !ks.contains(y) implies #[trigger] w0.score_key_lt(ks[k], y) by {
                let x = ks[k];
                assert(keep@[x]);
                let px = choose|p: int| 0 <= p < to_retain && #[trigger] pops@[p].1 == x;
                if keep@[y] {
                    assert(ks[crate::retain::rank(keep@, y)] == y);
                    assert(ks.contains(y));
                }
                assert(pops@.contains((sc[y], y as usize)));
                let py = choose|p: int| 0 <= p < pops@.len() && #[trigger] pops@[p] == (sc[y], y as usize);
                if py < to_retain {
                    assert(pops@[py].1 == y);
                }
                assert(score_pair_le(pops@[px], pops@[to_retain as int]));
                if py > to_retain {
                    assert(score_pair_le(pops@[to_retain as int], pops@[py]));
                }
                assert(pops@[px] == (sc[x], x as usize));
                assert(w0.score(x) == Some(sc[x] as int));
                assert(w0.score(y) == Some(sc[y] as int));
            }
            assert(lowest(w0, ks));
        }
        Some(())
    }
}

/// The positions `0..n`.
pub open spec fn all_positions(n: int) -> Seq<int> {
    Seq::new(n as nat, |k: int| k)
}

/// A list is within itself.
pub proof fn lemma_within_refl(a: BoardWindowData)
    ensures
        inner_within(a, a),
{
    match a {
        BoardWindowData::Leaf { valid_boards: Some(x) } => {
            assert(picks(x@, x@, all_positions(x@.len() as int)));
        },
        BoardWindowData::SplitHorizontal { valid_combos: Some(x), .. } => {
            assert(picks(x@, x@, all_positions(x@.len() as int)));
        },
        BoardWindowData::SplitVertical { valid_combos: Some(x), .. } => {
            assert(picks(x@, x@, all_positions(x@.len() as int)));
        },
        _ => {},
    }
}

/// A window keeps all its boards when only its caches change.
proof fn lemma_subset_same(new: BoardWindow, old: BoardWindow)
    requires
        new.same_content(old),
        old.nboards() is Some,
    ensures
        subset_of(new, old, all_positions(old.nboards()->Some_0)),
        lowest(old, all_positions(old.nboards()->Some_0)),
{
    lemma_same_content(new, old);
    lemma_within_refl(old.inner);
    let ks = all_positions(old.nboards()->Some_0);
    assert forall|k: int, y: int|
        0 <= k < ks.len() && 0 <= y < old.nboards()->Some_0 && !ks.contains(y) implies #[trigger] old.score_key_lt(ks[k], y) by {
        assert(ks[y] == y);
    }
}

/// Keeping the lowest boards of what was kept of the lowest boards keeps the lowest boards.
proof fn lemma_subset_compose(w0: BoardWindow, w1: BoardWindow, w2: BoardWindow, ks1: Seq<int>, ks2: Seq<int>)
    requires
        subset_of(w1, w0, ks1),
        lowest(w0, ks1),
        subset_of(w2, w1, ks2),
        lowest(w1, ks2),
    ensures
        subset_of(w2, w0, Seq::new(ks2.len(), |k: int| ks1[ks2[k]])),
        lowest(w0, Seq::new(ks2.len(), |k: int| ks1[ks2[k]])),
{
    let ks = Seq::new(ks2.len(), |k: int| ks1[ks2[k]]);
    lemma_within_trans(w2.inner, w1.inner, w0.inner);
    assert forall|k1: int, k2: int| 0 <= k1 < k2 < ks.len() implies #[trigger] ks[k1] < #[trigger] ks[k2] by {
        assert(ks2[k1] < ks2[k2]);
    }
    assert forall|k: int| 0 <= k < ks.len() implies 0 <= #[trigger] ks[k] < w0.nboards()->Some_0 by {
        assert(0 <= ks2[k] < ks1.len());
    }
    assert forall|k: int, d: Direction| 0 <= k < ks.len() implies #[trigger] w2.exposure(k, d) == w0.exposure(ks[k], d) by {
        assert(w2.exposure(k, d) == w1.exposure(ks2[k], d));
        assert(0 <= ks2[k] < ks1.len());
        assert(w1.exposure(ks2[k], d) == w0.exposure(ks1[ks2[k]], d));
    }
    assert forall|k: int| 0 <= k < ks.len() implies #[trigger] w2.score(k) == w0.score(ks[k]) by {
        assert(w2.score(k) == w1.score(ks2[k]));
        assert(0 <= ks2[k] < ks1.len());
        assert(w1.score(ks2[k]) == w0.score(ks1[ks2[k]]));
    }
    assert forall|k: int, y: int|
        0 <= k < ks.len() && 0 <= y < w0.nboards()->Some_0 && !ks.contains(y) implies #[trigger] w0.score_key_lt(ks[k], y) by {
        let j2 = ks2[k];
        assert(0 <= j2 < ks1.len());
        if ks1.contains(y) {
            let j = choose|j: int| 0 <= j < ks1.len() && ks1[j] == y;
            if ks2.contains(j) {
                let m = choose|m: int| 0 <= m < ks2.len() && ks2[m] == j;
                assert(ks[m] == y);
                assert(false);
            }
            assert(w1.score_key_lt(ks2[k], j));
            assert(w1.score(j2) == w0.score(ks1[j2]));
            assert(w1.score(j) == w0.score(ks1[j]));
            if j2 < j {
                assert(ks1[j2] < ks1[j]);
            } else if j < j2 {
                assert(ks1[j] < ks1[j2]);
            }
        } else {
            assert(w0.score_key_lt(ks1[j2], y));
        }
    }
}

/// How many of `len` boards are kept when the fraction `cull_ppm / 1_000_000` is dropped.
pub open spec fn boards_after_cull(len: int, cull_ppm: int) -> int {
    if cull_ppm >= 1_000_000 {
        0
    } else {
        len * (1_000_000 - cull_ppm) / 1_000_000
    }
}

/// A culling round drops the fraction `cull_ppm / 1_000_000` of `len` boards and keeps
/// the rest, rounded down: the boards kept are the whole part of
/// `len * (1 - cull_ppm / 1_000_000)`, no more than `len`, and all of them when nothing is
/// culled.
pub proof fn law_cull_keeps_the_rest(len: int, cull_ppm: int)
    requires
        0 <= len,
        0 <= cull_ppm < 1_000_000,
    ensures
        0 <= boards_after_cull(len, cull_ppm) <= len,
        boards_after_cull(len, cull_ppm) * 1_000_000 <= len * 1_000_000 - len * cull_ppm,
        len * 1_000_000 - len * cull_ppm < boards_after_cull(len, cull_ppm) * 1_000_000 + 1_000_000,
        cull_ppm == 0 ==> boards_after_cull(len, cull_ppm) == len,
{
    let k = boards_after_cull(len, cull_ppm);
    let m = len * (1_000_000 - cull_ppm);
    assert(m == len * 1_000_000 - len * cull_ppm) by (nonlinear_arith)
        requires
            m == len * (1_000_000 - cull_ppm),
    ;
    assert(0 <= m) by (nonlinear_arith)
        requires
            0 <= len,
            cull_ppm < 1_000_000,
            m == len * (1_000_000 - cull_ppm),
    ;
    assert(k == m / 1_000_000);
    assert(k * 1_000_000 <= m < k * 1_000_000 + 1_000_000) by (nonlinear_arith)
        requires
            k == m / 1_000_000,
            0 <= m,
    ;
    assert(m <= len * 1_000_000) by (nonlinear_arith)
        requires
            0 <= len,
            0 <= cull_ppm,
            m == len * 1_000_000 - len * cull_ppm,
    ;
}

/// The number of boards kept when the fraction `cull_ppm / 1_000_000` of `len` is dropped.
fn after_cull(len: u64, cull_ppm: u32) -> (r: usize)
    requires
        len <= usize::MAX,
    ensures
        r == boards_after_cull(len as int, cull_ppm as int),
        0 < cull_ppm && 0 < len ==> r < len,
{
    if cull_ppm >= 1_000_000 {
        return 0;
    }
    proof {
        assert((len as u128) * ((1_000_000 - cull_ppm) as u128) <= 0x1_0000_0000_0000_0000_0000_0000) by (nonlinear_arith)
            requires
                len <= u64::MAX,
                cull_ppm < 1_000_000,
        ;
    }
    let keep = (len as u128) * ((1_000_000 - cull_ppm) as u128) / 1_000_000;
    proof {
        assert(keep <= len) by (nonlinear_arith)
            requires
                keep == len * (1_000_000 - cull_ppm) / 1_000_000,
                cull_ppm < 1_000_000,
        ;
        if 0 < cull_ppm && 0 < len {
            assert(keep < len) by (nonlinear_arith)
                requires
                    keep == len * (1_000_000 - cull_ppm) / 1_000_000,
                    0 < cull_ppm < 1_000_000,
                    0 < len,
            ;
        }
    }
    keep as usize
}

/// The pairs of boards of `a` and `b` that fit together along side `d` of `a`.
pub open spec fn fit_pairs(a: BoardWindow, d: Direction, b: BoardWindow) -> Set<(u64, u64)> {
    Set::new(|p: (u64, u64)| fits_together(a, d, b, p))
}

/// How many pairs of boards of `a` and `b` fit together along side `d` of `a`.
pub open spec fn fit_count(a: BoardWindow, d: Direction, b: BoardWindow) -> nat {
    fit_pairs(a, d, b).len()
}

/// Round `k` of a cull: the windows `ws1[k]` and `ws2[k]` have more than `limit` pairs
/// that fit together, and the next ones keep the lowest-scoring
/// `boards_after_cull(n, cull_ppm)` of their `n` boards.
pub open spec fn cull_round(
    ws1: Seq<BoardWindow>,
    ws2: Seq<BoardWindow>,
    k: int,
    d: Direction,
    limit: int,
    cull_ppm: int,
) -> bool {
    &&& fit_count(ws1[k], d, ws2[k]) > limit
    &&& keeps_lowest(ws1[k + 1], ws1[k], boards_after_cull(ws1[k].nboards()->Some_0, cull_ppm))
    &&& keeps_lowest(ws2[k + 1], ws2[k], boards_after_cull(ws2[k].nboards()->Some_0, cull_ppm))
}

/// In a round of a cull each window keeps the whole part of its boards less the fraction
/// `cull_ppm / 1_000_000` of them.
pub proof fn law_cull_round_sizes(
    ws1: Seq<BoardWindow>,
    ws2: Seq<BoardWindow>,
    k: int,
    d: Direction,
    limit: int,
    cull_ppm: int,
)
    requires
        cull_round(ws1, ws2, k, d, limit, cull_ppm),
        0 <= cull_ppm < 1_000_000,
        ws1[k].nboards() is Some,
        ws2[k].nboards() is Some,
    ensures
        ({
            let n1 = ws1[k].nboards()->Some_0;
            let m1 = ws1[k + 1].nboards()->Some_0;
            &&& ws1[k + 1].nboards() is Some
            &&& m1 * 1_000_000 <= n1 * 1_000_000 - n1 * cull_ppm < m1 * 1_000_000 + 1_000_000
        }),
        ({
            let n2 = ws2[k].nboards()->Some_0;
            let m2 = ws2[k + 1].nboards()->Some_0;
            &&& ws2[k + 1].nboards() is Some
            &&& m2 * 1_000_000 <= n2 * 1_000_000 - n2 * cull_ppm < m2 * 1_000_000 + 1_000_000
        }),
{
    lemma_nboards_nonneg(ws1[k]);
    lemma_nboards_nonneg(ws2[k]);
    let n1 = ws1[k].nboards()->Some_0;
    let n2 = ws2[k].nboards()->Some_0;
    law_cull_keeps_the_rest(n1, cull_ppm);
    law_cull_keeps_the_rest(n2, cull_ppm);
    let ks1 = choose|ks: Seq<int>| #[trigger] subset_of(ws1[k + 1], ws1[k], ks) && ks.len() == boards_after_cull(n1, cull_ppm) && lowest(ws1[k], ks);
    let ks2 = choose|ks: Seq<int>| #[trigger] subset_of(ws2[k + 1], ws2[k], ks) && ks.len() == boards_after_cull(n2, cull_ppm) && lowest(ws2[k], ks);
}

/// A window's number of boards is never negative.
proof fn lemma_nboards_nonneg(w: BoardWindow)
    ensures
        w.nboards() matches Some(n) ==> n >= 0,
{
}

/// The windows `ws1` and `ws2`, round after round, of a cull that stops at the first
/// round with at most `limit` pairs that fit together.
pub open spec fn cull_trace(ws1: Seq<BoardWindow>, ws2: Seq<BoardWindow>, d: Direction, limit: int, cull_ppm: int) -> bool {
    &&& ws1.len() == ws2.len()
    &&& ws1.len() > 0
    &&& forall|k: int| 0 <= k < ws1.len() - 1 ==> #[trigger] cull_round(ws1, ws2, k, d, limit, cull_ppm)
    &&& fit_count(ws1.last(), d, ws2.last()) <= limit
}

/// A list of fitting pairs, each once, that leaves none out has as many entries as
/// there are fitting pairs.
pub proof fn lemma_listing_count(v: Seq<(u64, u64)>, a: BoardWindow, d: Direction, b: BoardWindow)
    requires
        v.no_duplicates(),
        forall|m: int| 0 <= m < v.len() ==> fits_together(a, d, b, #[trigger] v[m]),
        lists_all_fitting(v, a, d, b),
    ensures
        v.len() == fit_count(a, d, b),
{
    assert forall|p: (u64, u64)| #[trigger] v.to_set().contains(p) == fit_pairs(a, d, b).contains(p) by {
        if fits_together(a, d, b, p) {
            let (i, j) = (p.0 as int, p.1 as int);
            assert(a.exposure(i, d) == b.exposure(j, spec_opposite(d)));
            assert(v.contains((i as u64, j as u64)));
        }
        if v.contains(p) {
            let m = choose|m: int| 0 <= m < v.len() && v[m] == p;
            assert(fits_together(a, d, b, v[m]));
        }
    }
    assert(v.to_set() =~= fit_pairs(a, d, b));
    v.unique_seq_to_set();
}

/// The lowest-scoring boards of a window are those of a window with the same boards.
proof fn lemma_lowest_same(a: BoardWindow, b: BoardWindow, ks: Seq<int>)
    requires
        a.same_content(b),
        lowest(a, ks),
    ensures
        lowest(b, ks),
{
    lemma_same_content(a, b);
    assert forall|k: int, y: int|
        0 <= k < ks.len() && 0 <= y < b.nboards()->Some_0 && !ks.contains(y) implies #[trigger] b.score_key_lt(ks[k], y) by {
        assert(a.score_key_lt(ks[k], y));
        assert(a.score(ks[k]) == b.score(ks[k]));
        assert(a.score(y) == b.score(y));
    }
}

/// Windows with the same boards have the same fitting pairs.
proof fn lemma_same_fits(a: BoardWindow, a2: BoardWindow, d: Direction, b: BoardWindow, b2: BoardWindow)
    requires
        a.same_content(a2),
        b.same_content(b2),
    ensures
        fit_pairs(a, d, b) == fit_pairs(a2, d, b2),
{
    lemma_same_content(a, a2);
    lemma_same_content(b, b2);
    assert(fit_pairs(a, d, b) =~= fit_pairs(a2, d, b2));
}

impl BoardWindow {
    /// Drops the highest-scoring part of both windows' boards, round after round, until
    /// the pairs of boards that fit together along the shared side number at most
    /// `patt_limit`; then lists all those pairs. Each round keeps the
    /// `boards_after_cull(n, cull_ppm)` lowest-scoring of the `n` boards of each window.
    pub fn cull_badscore_tillmatch(
        b1: &mut BoardWindow,
        direction: Direction,
        b2: &mut BoardWindow,
        patt_limit: usize,
        cull_ppm: u32,
    ) -> (r: Option<Vec<(u64, u64)>>)
        requires
            old(b1).inv(),
            old(b2).inv(),
            old(b1).scores_fit(),
            old(b2).scores_fit(),
            exposable(old(b1).rect),
            exposable(old(b2).rect),
            old(b1).nboards() is Some,
            old(b2).nboards() is Some,
            exposure_rect_of(old(b1).rect, direction) == exposure_rect_of(old(b2).rect, spec_opposite(direction)),
            0 < cull_ppm,
        ensures
            final(b1).inv(),
            final(b2).inv(),
            final(b1).scores_fit(),
            final(b2).scores_fit(),
            forall|b: int| #[trigger] old(b1).scores_within(b) ==> final(b1).scores_within(b),
            forall|b: int| #[trigger] old(b2).scores_within(b) ==> final(b2).scores_within(b),
            exists|ks: Seq<int>| #[trigger] subset_of(*final(b1), *old(b1), ks) && lowest(*old(b1), ks),
            exists|ks: Seq<int>| #[trigger] subset_of(*final(b2), *old(b2), ks) && lowest(*old(b2), ks),
            exists|ws1: Seq<BoardWindow>, ws2: Seq<BoardWindow>|
                #[trigger] cull_trace(ws1, ws2, direction, patt_limit as int, cull_ppm as int) && ws1[0] == *old(b1) && ws2[0]
                    == *old(b2) && final(b1).same_content(ws1.last()) && final(b2).same_content(ws2.last()),
            r matches Some(v) && {
                &&& forall|m: int| 0 <= m < v@.len() ==> fits_together(*final(b1), direction, *final(b2), #[trigger] v@[m])
                &&& v@.no_duplicates()
                &&& lists_all_fitting(v@, *final(b1), direction, *final(b2))
                &&& v@.len() <= patt_limit
                &&& crate::board::scan_ordered(v@, *final(b1), direction)
            },
    {
        let ghost w1 = *b1;
        let ghost w2 = *b2;
        let od = direction.opposite();
        proof {
            lemma_subset_same(w1, w1);
            lemma_subset_same(w2, w2);
            lemma_opposite_involutive(direction);
        }
        let ghost mut tr1: Seq<BoardWindow> = seq![w1];
        let ghost mut tr2: Seq<BoardWindow> = seq![w2];
        loop
            invariant
                w1 == *old(b1),
                w2 == *old(b2),
                tr1.len() == tr2.len(),
                tr1.len() > 0,
                tr1[0] == w1,
                tr2[0] == w2,
                tr1.last() == *b1,
                tr2.last() == *b2,
                forall|k: int| 0 <= k < tr1.len() - 1 ==> #[trigger] cull_round(tr1, tr2, k, direction, patt_limit as int, cull_ppm as int),
                forall|b: int| #[trigger] w1.scores_within(b) ==> b1.scores_within(b),
                forall|b: int| #[trigger] w2.scores_within(b) ==> b2.scores_within(b),
                b1.inv(),
                b2.inv(),
                b1.scores_fit(),
                b2.scores_fit(),
                b1.rect == w1.rect,
                b2.rect == w2.rect,
                exposable(b1.rect),
                exposable(b2.rect),
                b1.nboards() is Some,
                b2.nboards() is Some,
                exposure_rect_of(b1.rect, direction) == exposure_rect_of(b2.rect, od),
                od == spec_opposite(direction),
                spec_opposite(od) == direction,
                0 < cull_ppm,
                exists|ks: Seq<int>| #[trigger] subset_of(*b1, w1, ks) && lowest(w1, ks),
                exists|ks: Seq<int>| #[trigger] subset_of(*b2, w2, ks) && lowest(w2, ks),
            decreases b1.nboards()->Some_0 + b2.nboards()->Some_0,
        {
            let ghost c1 = *b1;
            let ghost c2 = *b2;
            let ghost ks1 = choose|ks: Seq<int>| #[trigger] subset_of(c1, w1, ks) && lowest(w1, ks);
            let ghost ks2 = choose|ks: Seq<int>| #[trigger] subset_of(c2, w2, ks) && lowest(w2, ks);
            b1.build_exposure_sort_order_cache(direction);
            b2.build_exposure_sort_order_cache(od);
            let ghost m1 = *b1;
            let ghost m2 = *b2;
            proof {
                assert forall|b: int| #[trigger] w1.scores_within(b) implies m1.scores_within(b) by {
                    assert(c1.scores_within(b));
                }
                assert forall|b: int| #[trigger] w2.scores_within(b) implies m2.scores_within(b) by {
                    assert(c2.scores_within(b));
                }
            }
            let ghost mk1 = Seq::new(c1.nboards()->Some_0 as nat, |k: int| ks1[all_positions(c1.nboards()->Some_0)[k]]);
            let ghost mk2 = Seq::new(c2.nboards()->Some_0 as nat, |k: int| ks2[all_positions(c2.nboards()->Some_0)[k]]);
            proof {
                lemma_same_content(m1, c1);
                lemma_same_content(m2, c2);
                assert(m1.sort_cache_ok(direction));
                assert(m2.sort_cache_ok(od));
                assert(m1.scores_within(choose|b: int| 0 <= b && b * area(c1.rect) <= i32::MAX && #[trigger] c1.scores_within(b)));
                assert(m2.scores_within(choose|b: int| 0 <= b && b * area(c2.rect) <= i32::MAX && #[trigger] c2.scores_within(b)));
                lemma_subset_same(m1, c1);
                lemma_subset_same(m2, c2);
                lemma_subset_compose(w1, c1, m1, ks1, all_positions(c1.nboards()->Some_0));
                lemma_subset_compose(w2, c2, m2, ks2, all_positions(c2.nboards()->Some_0));
                assert(subset_of(m1, w1, mk1) && lowest(w1, mk1));
                assert(subset_of(m2, w2, mk2) && lowest(w2, mk2));
            }
            let d1 = direction.index();
            let d2 = od.index();
            let (len1, len2) = match (&b1.exposure_sort_order_cache[d1], &b2.exposure_sort_order_cache[d2]) {
                (Some(order1), Some(order2)) => {
                    proof {
                        lemma_sorted_keys(order1@);
                        lemma_sorted_keys(order2@);
                    }
                    let blocks = Self::get_matches(order1.as_slice(), order2.as_slice());
                    let tot = total_pairs(order1.as_slice(), order2.as_slice(), &blocks);
                    proof {
                        lemma_prefix_total(order1@, order2@, blocks@, blocks@.len() as int);
                    }
                    match tot {
                        Some(t) => {
                            if t <= patt_limit {
                                let v = all_block_pairs(order1.as_slice(), order2.as_slice(), &blocks);
                                proof {
                                    lemma_pairs_complete(m1, direction, m2, order1@, order2@, blocks@, v@);
                                    lemma_pairs_fit(m1, direction, m2, order1@, order2@, v@);
                                    assert(subset_of(*b1, w1, mk1) && lowest(w1, mk1));
                                    assert(subset_of(*b2, w2, mk2) && lowest(w2, mk2));
                                    lemma_listing_count(v@, m1, direction, m2);
                                    crate::board::lemma_pairs_ordered(m1, direction, order1@, order2@, v@);
                                    lemma_same_fits(m1, c1, direction, m2, c2);
                                    assert(cull_trace(tr1, tr2, direction, patt_limit as int, cull_ppm as int));
                                }
                                return Some(v);
                            }
                        },
                        None => {},
                    }
                    proof {
                        let lv = lemma_block_listing(order1@, order2@, blocks@);
                        lemma_pairs_complete(m1, direction, m2, order1@, order2@, blocks@, lv);
                        lemma_pairs_fit(m1, direction, m2, order1@, order2@, lv);
                        lemma_listing_count(lv, m1, direction, m2);
                        lemma_same_fits(m1, c1, direction, m2, c2);
                        assert(fit_count(c1, direction, c2) > patt_limit);
                        let n1 = order1@.len() as int;
                        let n2 = order2@.len() as int;
                        assert(n1 * n2 > 0);
                        assert(n1 > 0 && n2 > 0) by (nonlinear_arith)
                            requires
                                n1 * n2 > 0,
                                n1 >= 0,
                                n2 >= 0,
                        ;
                    }
                    (order1.len() as u64, order2.len() as u64)
                },
                _ => {
                    proof {
                        assert(false);
                    }
                    (0, 0)
                },
            };
            let k1 = after_cull(len1, cull_ppm);
            let k2 = after_cull(len2, cull_ppm);
            b1.cull_worst_scores(k1);
            b2.cull_worst_scores(k2);
            proof {
                let n1 = m1.nboards()->Some_0;
                let n2 = m2.nboards()->Some_0;
                assert(keeps_lowest(*b1, m1, k1 as int));
                assert(keeps_lowest(*b2, m2, k2 as int));
                let j1 = choose|ks: Seq<int>| #[trigger] subset_of(*b1, m1, ks) && ks.len() == k1 && lowest(m1, ks);
                let j2 = choose|ks: Seq<int>| #[trigger] subset_of(*b2, m2, ks) && ks.len() == k2 && lowest(m2, ks);
                lemma_subset_compose(w1, m1, *b1, mk1, j1);
                lemma_subset_compose(w2, m2, *b2, mk2, j2);
                lemma_same_content(m1, c1);
                lemma_same_content(m2, c2);
                lemma_lowest_same(m1, c1, j1);
                lemma_lowest_same(m2, c2, j2);
                assert(subset_of(*b1, c1, j1) && j1.len() == k1 && lowest(c1, j1));
                assert(subset_of(*b2, c2, j2) && j2.len() == k2 && lowest(c2, j2));
                let ghost t1 = tr1;
                let ghost t2 = tr2;
                tr1 = tr1.push(*b1);
                tr2 = tr2.push(*b2);
                assert forall|k: int| 0 <= k < tr1.len() - 1 implies #[trigger] cull_round(
                    tr1,
                    tr2,
                    k,
                    direction,
                    patt_limit as int,
                    cull_ppm as int,
                ) by {
                    if k < t1.len() - 1 {
                        assert(cull_round(t1, t2, k, direction, patt_limit as int, cull_ppm as int));
                        assert(tr1[k] == t1[k] && tr1[k + 1] == t1[k + 1]);
                        assert(tr2[k] == t2[k] && tr2[k + 1] == t2[k + 1]);
                    } else {
                        assert(tr1[k] == c1 && tr2[k] == c2);
                    }
                }
            }
        }
    }
}

} // verus!
