//! A quadtree of windows over the target pattern; each window keeps the list of
//! predecessor boards of its padded area that are still possible.
use vstd::prelude::*;
use crate::basic_grids::{lemma_opposite_involutive, spec_dir_index, spec_opposite, Coord, Direction, Directions, Rect};
use crate::bits::fits;
use crate::matching::{
    all_block_pairs, block_pairs, lemma_block_pairs_distinct, lemma_prefix_total, lex_lt, sample_block_pairs, total_pairs,
};
use crate::packed::{joined_rect, packed_join, packed_trim, PackedCells};
use crate::retain::{
    holds_index, kept_indices, lemma_kept_indices, lemma_renumbered, names_each_once, pair_mask, rank, ranks,
    renumber, renumbered, retain_vec, retained,
};

verus! {

pub enum BoardWindowData {
    Leaf { valid_boards: Option<Vec<PackedCells>> },
    SplitHorizontal {
        left: Box<BoardWindow>,
        right: Box<BoardWindow>,
        valid_combos: Option<Vec<(u64, u64)>>,
    },
    SplitVertical {
        top: Box<BoardWindow>,
        bottom: Box<BoardWindow>,
        valid_combos: Option<Vec<(u64, u64)>>,
    },
}

pub struct BoardWindow {
    pub rect: Rect,
    pub inner: BoardWindowData,
    pub forced_dead: Directions,
    /// Per direction (Up, Down, Left, Right): the exposure of every board.
    pub exposure_cache: Vec<Option<Vec<PackedCells>>>,
    /// Per direction: `(exposure, board index)` pairs in increasing order.
    pub exposure_sort_order_cache: Vec<Option<Vec<(u128, u64)>>>,
    pub score_cache: Option<Vec<i32>>,
}

/// The rectangle one cell larger on every side.
pub open spec fn padded_of(r: Rect) -> Rect {
    Rect { top: (r.top - 1) as i32, left: (r.left - 1) as i32, bottom: (r.bottom + 1) as i32, right: (r.right + 1) as i32 }
}

/// The two-cell-wide strip along side `d` of the padded rectangle.
pub open spec fn exposure_rect_of(r: Rect, d: Direction) -> Rect {
    match d {
        Direction::Up => Rect { top: (r.top - 1) as i32, left: (r.left - 1) as i32, bottom: (r.top + 1) as i32, right: (r.right + 1) as i32 },
        Direction::Down => Rect { top: (r.bottom - 1) as i32, left: (r.left - 1) as i32, bottom: (r.bottom + 1) as i32, right: (r.right + 1) as i32 },
        Direction::Left => Rect { top: (r.top - 1) as i32, left: (r.left - 1) as i32, bottom: (r.bottom + 1) as i32, right: (r.left + 1) as i32 },
        Direction::Right => Rect { top: (r.top - 1) as i32, left: (r.right - 1) as i32, bottom: (r.bottom + 1) as i32, right: (r.right + 1) as i32 },
    }
}

/// Coordinates far enough from the `i32` limits for padding and splitting.
pub open spec fn rect_in_range(r: Rect) -> bool {
    &&& -0x4000_0000 < r.top < r.bottom < 0x4000_0000
    &&& -0x4000_0000 < r.left < r.right < 0x4000_0000
}

/// Small enough for every exposure strip, and every join of two, to fit in one word.
pub open spec fn exposable(r: Rect) -> bool {
    r.spec_width() <= 61 && r.spec_height() <= 61
}

/// A leaf board packs nine cells.
pub proof fn lemma_fits_nine(v: u128)
    requires
        v < 512,
    ensures
        fits(v, 9),
{
    crate::bits::lemma_fits_shr(v, 9);
    assert(v < 512 ==> v >> 9u128 == 0) by (bit_vector);
}


impl BoardWindow {
    pub open spec fn padded(self) -> Rect {
        padded_of(self.rect)
    }

    /// Number of boards, once the window has been filled.
    pub open spec fn nboards(self) -> Option<int> {
        match self.inner {
            BoardWindowData::Leaf { valid_boards } => match valid_boards {
                Some(v) => Some(v@.len() as int),
                None => None,
            },
            BoardWindowData::SplitHorizontal { valid_combos, .. } => match valid_combos {
                Some(v) => Some(v@.len() as int),
                None => None,
            },
            BoardWindowData::SplitVertical { valid_combos, .. } => match valid_combos {
                Some(v) => Some(v@.len() as int),
                None => None,
            },
        }
    }

    /// The cells of board `i` in the exposure strip along side `d`, packed over
    /// `exposure_rect_of(self.rect, d)`.
    pub open spec fn exposure(self, i: int, d: Direction) -> Option<PackedCells>
        decreases self,
    {
        match self.inner {
            BoardWindowData::Leaf { valid_boards } => match valid_boards {
                Some(vb) => Some(packed_trim(vb@[i], self.padded(), spec_opposite(d), 1)),
                None => None,
            },
            BoardWindowData::SplitHorizontal { left, right, valid_combos } => match valid_combos {
                Some(vc) => {
                    let i1 = vc@[i].0 as int;
                    let i2 = vc@[i].1 as int;
                    match d {
                        Direction::Left => left.exposure(i1, d),
                        Direction::Right => right.exposure(i2, d),
                        _ => match (left.exposure(i1, d), right.exposure(i2, d)) {
                            (Some(a), Some(b)) => {
                                let le = exposure_rect_of(left.rect, d);
                                Some(
                                    packed_join(
                                        packed_trim(a, le, Direction::Right, 2),
                                        b,
                                        le.trimmed(Direction::Right, 2),
                                        exposure_rect_of(right.rect, d),
                                        Direction::Right,
                                    ),
                                )
                            },
                            _ => None,
                        },
                    }
                },
                None => None,
            },
            BoardWindowData::SplitVertical { top, bottom, valid_combos } => match valid_combos {
                Some(vc) => {
                    let i1 = vc@[i].0 as int;
                    let i2 = vc@[i].1 as int;
                    match d {
                        Direction::Up => top.exposure(i1, d),
                        Direction::Down => bottom.exposure(i2, d),
                        _ => match (top.exposure(i1, d), bottom.exposure(i2, d)) {
                            (Some(a), Some(b)) => {
                                let te = exposure_rect_of(top.rect, d);
                                Some(
                                    packed_join(
                                        packed_trim(a, te, Direction::Down, 2),
                                        b,
                                        te.trimmed(Direction::Down, 2),
                                        exposure_rect_of(bottom.rect, d),
                                        Direction::Down,
                                    ),
                                )
                            },
                            _ => None,
                        },
                    }
                },
                None => None,
            },
        }
    }

    /// Score of board `i`: leaves keep theirs in the score cache, splits add their parts'.
    pub open spec fn score(self, i: int) -> Option<int>
        decreases self,
    {
        match self.inner {
            BoardWindowData::Leaf { .. } => match self.score_cache {
                Some(sc) => Some(sc@[i] as int),
                None => None,
            },
            BoardWindowData::SplitHorizontal { left, right, valid_combos } => match valid_combos {
                Some(vc) => match (left.score(vc@[i].0 as int), right.score(vc@[i].1 as int)) {
                    (Some(a), Some(b)) => Some(a + b),
                    _ => None,
                },
                None => None,
            },
            BoardWindowData::SplitVertical { top, bottom, valid_combos } => match valid_combos {
                Some(vc) => match (top.score(vc@[i].0 as int), bottom.score(vc@[i].1 as int)) {
                    (Some(a), Some(b)) => Some(a + b),
                    _ => None,
                },
                None => None,
            },
        }
    }

    /// The exposure cache of side `d` holds every board's exposure.
    pub open spec fn exposure_cache_ok(self, d: Direction) -> bool {
        self.exposure_cache@[spec_dir_index(d)] matches Some(c) ==> {
            &&& self.nboards() == Some(c@.len() as int)
            &&& forall|i: int| 0 <= i < c@.len() ==> Some(#[trigger] c@[i]) == self.exposure(i, d)
            &&& forall|i: int| 0 <= i < c@.len() ==> (#[trigger] c@[i]).fits_rect(exposure_rect_of(self.rect, d))
        }
    }

    /// The sort cache of side `d` holds each board once, with its exposure, in increasing order.
    pub open spec fn sort_cache_ok(self, d: Direction) -> bool {
        self.exposure_sort_order_cache@[spec_dir_index(d)] matches Some(s) ==> {
            &&& self.nboards() == Some(s@.len() as int)
            &&& crate::outside::sorted_pairs(s@)
            &&& names_each_once(s@, s@.len() as int)
            &&& forall|k: int|
                0 <= k < s@.len() ==> Some(PackedCells((#[trigger] s@[k]).0)) == self.exposure(s@[k].1 as int, d)
        }
    }

    /// The score cache agrees with the scores (a leaf's cache defines them).
    pub open spec fn score_cache_ok(self) -> bool {
        self.score_cache matches Some(sc) ==> {
            &&& self.nboards() == Some(sc@.len() as int)
            &&& forall|i: int| 0 <= i < sc@.len() ==> self.score(i) == Some(#[trigger] sc@[i] as int)
        }
    }

    /// The two windows differ at most in their exposure and sort caches.
    pub open spec fn same_content(self, other: BoardWindow) -> bool {
        &&& self.rect == other.rect
        &&& self.inner == other.inner
        &&& self.forced_dead == other.forced_dead
        &&& self.score_cache == other.score_cache
    }

    /// Leaves are single cells, splits cut the window in two, every combination names
    /// boards of the two halves, and every cache agrees with what it caches.
    pub open spec fn inv(self) -> bool
        decreases self,
    {
        &&& rect_in_range(self.rect)
        &&& self.exposure_cache@.len() == 4
        &&& self.exposure_sort_order_cache@.len() == 4
        &&& forall|d: Direction| #[trigger] self.exposure_cache_ok(d)
        &&& forall|d: Direction| #[trigger] self.sort_cache_ok(d)
        &&& self.score_cache_ok()
        &&& match self.inner {
            BoardWindowData::Leaf { valid_boards } => {
                &&& self.rect.spec_width() == 1
                &&& self.rect.spec_height() == 1
                &&& (valid_boards is Some ==> self.score_cache is Some)
                &&& (valid_boards matches Some(v) ==> forall|k: int| 0 <= k < v@.len() ==> (#[trigger] v@[k]).0 < 512)
            },
            BoardWindowData::SplitHorizontal { left, right, valid_combos } => {
                &&& left.inv()
                &&& right.inv()
                &&& left.rect == Rect { right: left.rect.right, ..self.rect }
                &&& right.rect == Rect { left: left.rect.right, ..self.rect }
                &&& self.rect.left < left.rect.right < self.rect.right
                &&& (valid_combos matches Some(vc) ==> {
                    &&& left.nboards() is Some
                    &&& right.nboards() is Some
                    &&& forall|k: int|
                        0 <= k < vc@.len() ==> (#[trigger] vc@[k]).0 < left.nboards()->Some_0 && vc@[k].1
                            < right.nboards()->Some_0
                })
            },
            BoardWindowData::SplitVertical { top, bottom, valid_combos } => {
                &&& top.inv()
                &&& bottom.inv()
                &&& top.rect == Rect { bottom: top.rect.bottom, ..self.rect }
                &&& bottom.rect == Rect { top: top.rect.bottom, ..self.rect }
                &&& self.rect.top < top.rect.bottom < self.rect.bottom
                &&& (valid_combos matches Some(vc) ==> {
                    &&& top.nboards() is Some
                    &&& bottom.nboards() is Some
                    &&& forall|k: int|
                        0 <= k < vc@.len() ==> (#[trigger] vc@[k]).0 < top.nboards()->Some_0 && vc@[k].1
                            < bottom.nboards()->Some_0
                })
            },
        }
    }

    pub fn get_padded_rect(&self) -> (r: Rect)
        requires
            rect_in_range(self.rect),
        ensures
            r == self.padded(),
    {
        Rect::new(self.rect.top - 1, self.rect.left - 1, self.rect.bottom + 1, self.rect.right + 1)
    }

    pub fn get_exposure_rect(&self, direction: Direction) -> (r: Rect)
        requires
            rect_in_range(self.rect),
        ensures
            r == exposure_rect_of(self.rect, direction),
    {
        match direction {
            Direction::Up => Rect::new(
                self.rect.top - 1,
                self.rect.left - 1,
                self.rect.top + 1,
                self.rect.right + 1,
            ),
            Direction::Down => Rect::new(
                self.rect.bottom - 1,
                self.rect.left - 1,
                self.rect.bottom + 1,
                self.rect.right + 1,
            ),
            Direction::Left => Rect::new(
                self.rect.top - 1,
                self.rect.left - 1,
                self.rect.bottom + 1,
                self.rect.left + 1,
            ),
            Direction::Right => Rect::new(
                self.rect.top - 1,
                self.rect.right - 1,
                self.rect.bottom + 1,
                self.rect.right + 1,
            ),
        }
    }

    pub fn get_num_valid_boards(&self) -> (r: Option<u64>)
        ensures
            match self.nboards() {
                Some(n) => r matches Some(x) && x as int == n,
                None => r is None,
            },
    {
        match &self.inner {
            BoardWindowData::Leaf { valid_boards: Some(valid_boards) } => Some(valid_boards.len() as u64),
            BoardWindowData::SplitHorizontal { valid_combos: Some(valid_combos), .. } => Some(
                valid_combos.len() as u64,
            ),
            BoardWindowData::SplitVertical { valid_combos: Some(valid_combos), .. } => Some(
                valid_combos.len() as u64,
            ),
            _ => None,
        }
    }

    /// The exposure of board `i` along side `direction`, from the cache when it is built.
    pub fn get_exposure(&self, i: u64, direction: Direction) -> (r: Option<PackedCells>)
        requires
            self.inv(),
            exposable(self.rect),
            self.nboards() matches Some(n) ==> i < n,
        ensures
            r == self.exposure(i as int, direction),
            r is Some <==> self.nboards() is Some,
            r matches Some(x) ==> x.fits_rect(exposure_rect_of(self.rect, direction)),
        decreases self,
    {
        proof {
            assert(self.exposure_cache_ok(direction));
        }
        let di = direction.index();
        if let Some(cache) = &self.exposure_cache[di] {
            proof {
                assert(i < cache.len());
            }
            let x = cache[i as usize];
            proof {
                assert(Some(cache@[i as int]) == self.exposure(i as int, direction));
                assert(cache@[i as int].fits_rect(exposure_rect_of(self.rect, direction)));
            }
            return Some(x);
        }
        match &self.inner {
            BoardWindowData::Leaf { valid_boards: Some(valid_boards) } => {
                proof {
                    assert(i < valid_boards.len());
                }
                let b = valid_boards[i as usize];
                let pr = self.get_padded_rect();
                proof {
                    lemma_fits_nine(b.0);
                    assert(pr.spec_width() == 3);
                    assert(pr.spec_height() == 3);
                    assert(pr.spec_width() * pr.spec_height() == 9);
                }
                let od = direction.opposite();
                let r = b.trim(pr, od, 1);
                proof {
                    assert(pr.trimmed(od, 1) == exposure_rect_of(self.rect, direction));
                }
                Some(r)
            },
            BoardWindowData::SplitHorizontal { left, right, valid_combos: Some(valid_combos) } => {
                proof {
                    assert(i < valid_combos.len());
                }
                let (i1, i2) = valid_combos[i as usize];
                match direction {
                    Direction::Up | Direction::Down => {
                        let left_erect = left.get_exposure_rect(direction);
                        let right_erect = right.get_exposure_rect(direction);
                        let a = left.get_exposure(i1, direction).unwrap();
                        let b = right.get_exposure(i2, direction).unwrap();
                        proof {
                            assert(left_erect.spec_height() == 2);
                            assert(left_erect.spec_width() * 2 < 128) by (nonlinear_arith)
                                requires
                                    left_erect.spec_width() <= 63,
                            ;
                            assert(left_erect.spec_width() * left_erect.spec_height() < 128);
                        }
                        let lexpo = a.trim(left_erect, Direction::Right, 2);
                        let lt = left_erect.trim(Direction::Right, 2);
                        proof {
                            assert(lt.spec_width() * 2 < 128) by (nonlinear_arith)
                                requires
                                    lt.spec_width() <= 63,
                            ;
                            assert(right_erect.spec_width() * 2 < 128) by (nonlinear_arith)
                                requires
                                    right_erect.spec_width() <= 63,
                            ;
                            assert((lt.spec_width() + right_erect.spec_width()) * 2 < 128) by (nonlinear_arith)
                                requires
                                    lt.spec_width() + right_erect.spec_width() <= 63,
                            ;
                            assert(joined_rect(lt, right_erect, Direction::Right) == exposure_rect_of(self.rect, direction));
                        }
                        Some(lexpo.join(b, lt, right_erect, Direction::Right))
                    },
                    Direction::Left => left.get_exposure(i1, direction),
                    Direction::Right => right.get_exposure(i2, direction),
                }
            },
            BoardWindowData::SplitVertical { top, bottom, valid_combos: Some(valid_combos) } => {
                proof {
                    assert(i < valid_combos.len());
                }
                let (i1, i2) = valid_combos[i as usize];
                match direction {
                    Direction::Up => top.get_exposure(i1, direction),
                    Direction::Down => bottom.get_exposure(i2, direction),
                    Direction::Left | Direction::Right => {
                        let top_erect = top.get_exposure_rect(direction);
                        let bottom_erect = bottom.get_exposure_rect(direction);
                        let a = top.get_exposure(i1, direction).unwrap();
                        let b = bottom.get_exposure(i2, direction).unwrap();
                        proof {
                            assert(top_erect.spec_width() == 2);
                            assert(2 * top_erect.spec_height() < 128) by (nonlinear_arith)
                                requires
                                    top_erect.spec_height() <= 63,
                            ;
                        }
                        let texpo = a.trim(top_erect, Direction::Down, 2);
                        let tt = top_erect.trim(Direction::Down, 2);
                        proof {
                            assert(2 * tt.spec_height() < 128) by (nonlinear_arith)
                                requires
                                    tt.spec_height() <= 63,
                            ;
                            assert(2 * bottom_erect.spec_height() < 128) by (nonlinear_arith)
                                requires
                                    bottom_erect.spec_height() <= 63,
                            ;
                            assert(2 * (tt.spec_height() + bottom_erect.spec_height()) < 128) by (nonlinear_arith)
                                requires
                                    tt.spec_height() + bottom_erect.spec_height() <= 63,
                            ;
                            assert(joined_rect(tt, bottom_erect, Direction::Down) == exposure_rect_of(self.rect, direction));
                        }
                        Some(texpo.join(b, tt, bottom_erect, Direction::Down))
                    },
                }
            },
            _ => None,
        }
    }
}


impl BoardWindow {
    /// Fills the exposure cache of side `direction`, unless it is already there.
    pub fn build_exposure_cache(&mut self, direction: Direction)
        requires
            old(self).inv(),
            exposable(old(self).rect),
        ensures
            final(self).inv(),
            final(self).same_content(*old(self)),
            final(self).exposure_sort_order_cache == old(self).exposure_sort_order_cache,
            final(self).exposure_cache@.len() == 4,
            forall|d: Direction| d != direction ==> #[trigger] final(self).exposure_cache@[spec_dir_index(d)]
                == old(self).exposure_cache@[spec_dir_index(d)],
            final(self).exposure_cache@[spec_dir_index(direction)] is Some <==> (old(self).exposure_cache@[spec_dir_index(direction)] is Some || old(self).nboards() is Some),
    {
        let di = direction.index();
        if self.exposure_cache[di].is_some() {
            return;
        }
        if let Some(num_boards) = self.get_num_valid_boards() {
            let mut cache: Vec<PackedCells> = Vec::new();
            let mut i: u64 = 0;
            while i < num_boards
                invariant
                    self.inv(),
                    exposable(self.rect),
                    self.nboards() == Some(num_boards as int),
                    i <= num_boards,
                    cache@.len() == i,
                    forall|k: int| 0 <= k < i ==> Some(#[trigger] cache@[k]) == self.exposure(k, direction),
                    forall|k: int| 0 <= k < i ==> (#[trigger] cache@[k]).fits_rect(exposure_rect_of(self.rect, direction)),
                decreases num_boards - i,
            {
                match self.get_exposure(i, direction) {
                    Some(exposure) => cache.push(exposure),
                    None => cache.push(PackedCells(0)),
                }
                i = i + 1;
            }
            let ghost before = *self;
            self.exposure_cache.set(di, Some(cache));
            proof {
                assert forall|d: Direction| #[trigger] self.exposure_cache_ok(d) by {
                    if d != direction {
                        assert(spec_dir_index(d) != spec_dir_index(direction));
                        assert(before.exposure_cache_ok(d));
                    }
                    assert forall|k: int| 0 <= k < self.nboards()->Some_0 implies self.exposure(k, d) == before.exposure(k, d) by {}
                }
                assert forall|d: Direction| #[trigger] self.sort_cache_ok(d) by {
                    assert(before.sort_cache_ok(d));
                }
            }
        }
    }
}

/// The pairs `(key of board k, k)`, in any order, name each board once with its key.
proof fn lemma_sorted_enumeration(e: Seq<PackedCells>, orig: Seq<(u128, u64)>, s: Seq<(u128, u64)>)
    requires
        orig.len() == e.len(),
        orig.len() <= u64::MAX,
        forall|k: int| 0 <= k < orig.len() ==> #[trigger] orig[k] == (e[k].0, k as u64),
        s.to_multiset() == orig.to_multiset(),
    ensures
        s.len() == e.len(),
        forall|k: int| 0 <= k < s.len() ==> (#[trigger] s[k]).1 < s.len() && s[k].0 == e[s[k].1 as int].0,
        forall|i: int| 0 <= i < s.len() ==> #[trigger] holds_index(s, i),
        forall|k1: int, k2: int|
            0 <= k1 < s.len() && 0 <= k2 < s.len() && k1 != k2 ==> (#[trigger] s[k1]).1 != (#[trigger] s[k2]).1,
{
    broadcast use vstd::seq_lib::group_to_multiset_ensures;

    vstd::seq_lib::to_multiset_len(s);
    vstd::seq_lib::to_multiset_len(orig);
    assert(orig.no_duplicates()) by {
        assert forall|i: int, j: int| 0 <= i < orig.len() && 0 <= j < orig.len() && i != j implies orig[i] != orig[j] by {
            assert(orig[i].1 == i as u64);
            assert(orig[j].1 == j as u64);
        }
    }
    orig.lemma_multiset_has_no_duplicates();
    assert forall|x: (u128, u64)| s.to_multiset().contains(x) implies s.to_multiset().count(x) == 1 by {}
    s.lemma_multiset_has_no_duplicates_conv();
    assert forall|k: int| 0 <= k < s.len() implies (#[trigger] s[k]).1 < s.len() && s[k].0 == e[s[k].1 as int].0 by {
        assert(s.contains(s[k]));
        assert(s.to_multiset().count(s[k]) > 0);
        assert(orig.contains(s[k]));
        let j = choose|j: int| 0 <= j < orig.len() && orig[j] == s[k];
        assert(orig[j] == (e[j].0, j as u64));
    }
    assert forall|i: int| 0 <= i < s.len() implies #[trigger] holds_index(s, i) by {
        assert(orig.contains(orig[i]));
        assert(orig.to_multiset().count(orig[i]) > 0);
        assert(s.contains(orig[i]));
        let k = choose|k: int| 0 <= k < s.len() && s[k] == orig[i];
        assert(s[k].1 == i);
    }
    assert forall|k1: int, k2: int|
        0 <= k1 < s.len() && 0 <= k2 < s.len() && k1 != k2 implies (#[trigger] s[k1]).1 != (#[trigger] s[k2]).1 by {
        if s[k1].1 == s[k2].1 {
            assert(s[k1].0 == e[s[k1].1 as int].0);
            assert(s[k2].0 == e[s[k2].1 as int].0);
            assert(s[k1] == s[k2]);
        }
    }
}

impl BoardWindow {
    /// Fills the sorted `(exposure, board)` table of side `direction` (and the exposure
    /// cache it is read from), unless it is already there.
    pub fn build_exposure_sort_order_cache(&mut self, direction: Direction)
        requires
            old(self).inv(),
            exposable(old(self).rect),
        ensures
            final(self).inv(),
            final(self).same_content(*old(self)),
            final(self).exposure_cache@.len() == 4,
            final(self).exposure_sort_order_cache@.len() == 4,
            forall|d: Direction| d != direction ==> #[trigger] final(self).exposure_cache@[spec_dir_index(d)]
                == old(self).exposure_cache@[spec_dir_index(d)],
            forall|d: Direction| d != direction ==> #[trigger] final(self).exposure_sort_order_cache@[spec_dir_index(d)]
                == old(self).exposure_sort_order_cache@[spec_dir_index(d)],
            old(self).nboards() is Some ==> final(self).exposure_sort_order_cache@[spec_dir_index(direction)] is Some,
    {
        let di = direction.index();
        if self.exposure_sort_order_cache[di].is_some() {
            return;
        }
        self.build_exposure_cache(direction);
        let ghost mid = *self;
        let mut cache: Vec<(u128, u64)> = Vec::new();
        match &self.exposure_cache[di] {
            Some(expo) => {
                let n = expo.len();
                let mut i: usize = 0;
                while i < n
                    invariant
                        n == expo@.len(),
                        i <= n,
                        cache@.len() == i,
                        forall|k: int| 0 <= k < i ==> #[trigger] cache@[k] == (expo@[k].0, k as u64),
                    decreases n - i,
                {
                    cache.push((expo[i].0, i as u64));
                    i = i + 1;
                }
            },
            None => {
                return;
            },
        }
        let ghost orig = cache@;
        crate::outside::par_sort(&mut cache);
        proof {
            crate::outside::lemma_sorted_pairs(cache@);
            let expo = mid.exposure_cache@[spec_dir_index(direction)]->Some_0;
            lemma_sorted_enumeration(expo@, orig, cache@);
            assert(mid.exposure_cache_ok(direction));
        }
        self.exposure_sort_order_cache.set(di, Some(cache));
        proof {
            assert forall|d: Direction| #[trigger] self.exposure_cache_ok(d) by {
                assert(mid.exposure_cache_ok(d));
                assert forall|k: int| 0 <= k < self.nboards()->Some_0 implies self.exposure(k, d) == mid.exposure(k, d) by {}
            }
            assert forall|d: Direction| #[trigger] self.sort_cache_ok(d) by {
                if d != direction {
                    assert(spec_dir_index(d) != spec_dir_index(direction));
                    assert(mid.sort_cache_ok(d));
                } else {
                    let s = self.exposure_sort_order_cache@[spec_dir_index(d)]->Some_0;
                    let expo = mid.exposure_cache@[spec_dir_index(direction)]->Some_0;
                    assert forall|k: int| 0 <= k < s@.len() implies Some(PackedCells((#[trigger] s@[k]).0)) == self.exposure(s@[k].1 as int, d) by {
                        let j = s@[k].1 as int;
                        assert(Some(expo@[j]) == mid.exposure(j, d));
                    }
                }
            }
        }
    }
}

/// `a` holds the entries of `b` at the positions `keep` marks (or both are absent).
pub open spec fn option_retained<T>(a: Option<Vec<T>>, b: Option<Vec<T>>, keep: Seq<bool>) -> bool {
    match (a, b) {
        (Some(x), Some(y)) => x@ == retained(y@, keep),
        (None, None) => true,
        _ => false,
    }
}

/// `a` is the table `b` renumbered to the kept boards (or both are absent).
pub open spec fn option_renumbered(a: Option<Vec<(u128, u64)>>, b: Option<Vec<(u128, u64)>>, keep: Seq<bool>) -> bool {
    match (a, b) {
        (Some(x), Some(y)) => x@ == renumbered(y@, keep),
        (None, None) => true,
        _ => false,
    }
}

/// `new` keeps the boards (or combinations) of `old` that `keep` marks, over the same
/// sub-windows.
pub open spec fn inner_retained(new: BoardWindowData, old: BoardWindowData, keep: Seq<bool>) -> bool {
    match (new, old) {
        (BoardWindowData::Leaf { valid_boards: a }, BoardWindowData::Leaf { valid_boards: b }) => option_retained(a, b, keep),
        (
            BoardWindowData::SplitHorizontal { left: l1, right: r1, valid_combos: a },
            BoardWindowData::SplitHorizontal { left: l2, right: r2, valid_combos: b },
        ) => l1 == l2 && r1 == r2 && option_retained(a, b, keep),
        (
            BoardWindowData::SplitVertical { top: t1, bottom: b1, valid_combos: a },
            BoardWindowData::SplitVertical { top: t2, bottom: b2, valid_combos: b },
        ) => t1 == t2 && b1 == b2 && option_retained(a, b, keep),
        _ => false,
    }
}

/// `x` is `y` at the increasing positions `ks`.
pub open spec fn picks<T>(x: Seq<T>, y: Seq<T>, ks: Seq<int>) -> bool {
    &&& ks.len() == x.len()
    &&& forall|k1: int, k2: int| 0 <= k1 < k2 < ks.len() ==> #[trigger] ks[k1] < #[trigger] ks[k2]
    &&& forall|k: int| 0 <= k < ks.len() ==> 0 <= #[trigger] ks[k] < y.len() && x[k] == y[ks[k]]
}

/// `a` keeps some of the entries of `b`, in order (or both are absent).
pub open spec fn sub_list<T>(a: Option<Vec<T>>, b: Option<Vec<T>>) -> bool {
    match (a, b) {
        (Some(x), Some(y)) => exists|ks: Seq<int>| #[trigger] picks(x@, y@, ks),
        (None, None) => true,
        _ => false,
    }
}

/// `new` is `old` with possibly fewer boards (or combinations), over the same
/// sub-windows.
pub open spec fn inner_within(new: BoardWindowData, old: BoardWindowData) -> bool {
    match (new, old) {
        (BoardWindowData::Leaf { valid_boards: a }, BoardWindowData::Leaf { valid_boards: b }) => sub_list(a, b),
        (
            BoardWindowData::SplitHorizontal { left: l1, right: r1, valid_combos: a },
            BoardWindowData::SplitHorizontal { left: l2, right: r2, valid_combos: b },
        ) => l1 == l2 && r1 == r2 && sub_list(a, b),
        (
            BoardWindowData::SplitVertical { top: t1, bottom: b1, valid_combos: a },
            BoardWindowData::SplitVertical { top: t2, bottom: b2, valid_combos: b },
        ) => t1 == t2 && b1 == b2 && sub_list(a, b),
        _ => false,
    }
}

/// Picking from what was picked from a list picks from the list.
pub proof fn lemma_picks_trans<T>(x: Seq<T>, y: Seq<T>, z: Seq<T>, k1: Seq<int>, k2: Seq<int>)
    requires
        picks(x, y, k1),
        picks(y, z, k2),
    ensures
        picks(x, z, Seq::new(k1.len(), |k: int| k2[k1[k]])),
{
    let ks = Seq::new(k1.len(), |k: int| k2[k1[k]]);
    assert forall|a: int, b: int| 0 <= a < b < ks.len() implies #[trigger] ks[a] < #[trigger] ks[b] by {
        assert(k1[a] < k1[b]);
    }
}

/// Picked entries of a list without repeats have no repeats, and are no more.
pub proof fn lemma_picks_distinct<T>(x: Seq<T>, y: Seq<T>, ks: Seq<int>)
    requires
        picks(x, y, ks),
        y.no_duplicates(),
    ensures
        x.no_duplicates(),
        x.len() <= y.len(),
{
    assert forall|a: int, b: int| 0 <= a < x.len() && 0 <= b < x.len() && a != b implies x[a] != x[b] by {
        if a < b {
            assert(ks[a] < ks[b]);
        } else {
            assert(ks[b] < ks[a]);
        }
    }
    lemma_picks_len(ks, y.len() as int, ks.len() as int);
}

/// Increasing positions below `n` number at most `n`.
pub proof fn lemma_picks_len(ks: Seq<int>, n: int, m: int)
    requires
        0 <= m <= ks.len(),
        0 <= n,
        forall|k1: int, k2: int| 0 <= k1 < k2 < ks.len() ==> #[trigger] ks[k1] < #[trigger] ks[k2],
        forall|k: int| 0 <= k < ks.len() ==> 0 <= #[trigger] ks[k] < n,
    ensures
        m > 0 ==> ks[m - 1] >= m - 1,
        m <= n,
    decreases m,
{
    if m > 0 {
        lemma_picks_len(ks, n, m - 1);
        if m > 1 {
            assert(ks[m - 2] < ks[m - 1]);
        }
        assert(0 <= ks[m - 1] < n);
    }
}

/// A window with boards taken from another has no more boards than it.
pub proof fn lemma_within_count(a: BoardWindow, c: BoardWindow)
    requires
        inner_within(a.inner, c.inner),
    ensures
        a.nboards() is Some <==> c.nboards() is Some,
        a.nboards() is Some ==> a.nboards()->Some_0 <= c.nboards()->Some_0,
{
    match (a.inner, c.inner) {
        (BoardWindowData::Leaf { valid_boards: Some(x) }, BoardWindowData::Leaf { valid_boards: Some(y) }) => {
            let ks = choose|ks: Seq<int>| #[trigger] picks(x@, y@, ks);
            lemma_picks_len(ks, y@.len() as int, ks.len() as int);
        },
        (BoardWindowData::SplitHorizontal { valid_combos: Some(x), .. }, BoardWindowData::SplitHorizontal { valid_combos: Some(y), .. }) => {
            let ks = choose|ks: Seq<int>| #[trigger] picks(x@, y@, ks);
            lemma_picks_len(ks, y@.len() as int, ks.len() as int);
        },
        (BoardWindowData::SplitVertical { valid_combos: Some(x), .. }, BoardWindowData::SplitVertical { valid_combos: Some(y), .. }) => {
            let ks = choose|ks: Seq<int>| #[trigger] picks(x@, y@, ks);
            lemma_picks_len(ks, y@.len() as int, ks.len() as int);
        },
        _ => {},
    }
}

/// Keeping marked boards keeps the sub-windows and picks boards from the old list.
pub proof fn lemma_retained_within(new: BoardWindow, old: BoardWindow, keep: Seq<bool>)
    requires
        inner_retained(new.inner, old.inner, keep),
        old.nboards() matches Some(n) ==> keep.len() == n,
    ensures
        inner_within(new.inner, old.inner),
{
    lemma_kept_indices(keep);
    let ki = kept_indices(keep);
    match (new.inner, old.inner) {
        (BoardWindowData::Leaf { valid_boards: Some(a) }, BoardWindowData::Leaf { valid_boards: Some(b) }) => {
            assert(picks(a@, b@, ki));
        },
        (
            BoardWindowData::SplitHorizontal { valid_combos: Some(a), .. },
            BoardWindowData::SplitHorizontal { valid_combos: Some(b), .. },
        ) => {
            assert(picks(a@, b@, ki));
        },
        (
            BoardWindowData::SplitVertical { valid_combos: Some(a), .. },
            BoardWindowData::SplitVertical { valid_combos: Some(b), .. },
        ) => {
            assert(picks(a@, b@, ki));
        },
        _ => {},
    }
}

/// Picking twice picks.
pub proof fn lemma_sub_list_trans<T>(a: Option<Vec<T>>, b: Option<Vec<T>>, c: Option<Vec<T>>)
    requires
        sub_list(a, b),
        sub_list(b, c),
    ensures
        sub_list(a, c),
{
    if let (Some(x), Some(y), Some(z)) = (a, b, c) {
        let k1 = choose|ks: Seq<int>| #[trigger] picks(x@, y@, ks);
        let k2 = choose|ks: Seq<int>| #[trigger] picks(y@, z@, ks);
        lemma_picks_trans(x@, y@, z@, k1, k2);
    }
}

/// Taking boards from what was taken from a list takes them from the list.
pub proof fn lemma_within_trans(a: BoardWindowData, b: BoardWindowData, c: BoardWindowData)
    requires
        inner_within(a, b),
        inner_within(b, c),
    ensures
        inner_within(a, c),
{
    match (a, b, c) {
        (BoardWindowData::Leaf { valid_boards: x }, BoardWindowData::Leaf { valid_boards: y }, BoardWindowData::Leaf { valid_boards: z }) => {
            lemma_sub_list_trans(x, y, z);
        },
        (
            BoardWindowData::SplitHorizontal { valid_combos: x, .. },
            BoardWindowData::SplitHorizontal { valid_combos: y, .. },
            BoardWindowData::SplitHorizontal { valid_combos: z, .. },
        ) => {
            lemma_sub_list_trans(x, y, z);
        },
        (
            BoardWindowData::SplitVertical { valid_combos: x, .. },
            BoardWindowData::SplitVertical { valid_combos: y, .. },
            BoardWindowData::SplitVertical { valid_combos: z, .. },
        ) => {
            lemma_sub_list_trans(x, y, z);
        },
        _ => {},
    }
}

/// Everything about `new` is `old` with only the boards `keep` marks.
pub open spec fn window_retained(new: BoardWindow, old: BoardWindow, keep: Seq<bool>) -> bool {
    &&& new.rect == old.rect
    &&& new.forced_dead == old.forced_dead
    &&& inner_retained(new.inner, old.inner, keep)
    &&& option_retained(new.score_cache, old.score_cache, keep)
    &&& new.exposure_cache@.len() == 4
    &&& new.exposure_sort_order_cache@.len() == 4
    &&& forall|d: Direction| #[trigger] option_retained(new.exposure_cache@[spec_dir_index(d)], old.exposure_cache@[spec_dir_index(d)], keep)
    &&& forall|d: Direction| #[trigger] option_renumbered(new.exposure_sort_order_cache@[spec_dir_index(d)], old.exposure_sort_order_cache@[spec_dir_index(d)], keep)
}

/// Keeping marked boards keeps their exposures and scores, renumbered, and the invariant.
proof fn lemma_window_retained(new: BoardWindow, old: BoardWindow, keep: Seq<bool>)
    requires
        old.inv(),
        old.nboards() matches Some(n) ==> keep.len() == n,
        keep.len() <= u64::MAX,
        window_retained(new, old, keep),
    ensures
        new.inv(),
        old.nboards() is Some ==> new.nboards() == Some(kept_indices(keep).len() as int),
        old.nboards() is None ==> new.nboards() is None,
        forall|k: int, d: Direction|
            old.nboards() is Some && 0 <= k < kept_indices(keep).len() ==> #[trigger] new.exposure(k, d)
                == old.exposure(kept_indices(keep)[k], d),
        forall|k: int|
            old.nboards() is Some && 0 <= k < kept_indices(keep).len() ==> #[trigger] new.score(k)
                == old.score(kept_indices(keep)[k]),
{
    let ki = kept_indices(keep);
    lemma_kept_indices(keep);
    assert forall|k: int, d: Direction|
        old.nboards() is Some && 0 <= k < ki.len() implies #[trigger] new.exposure(k, d) == old.exposure(ki[k], d) by {
        match old.inner {
            BoardWindowData::Leaf { valid_boards } => {},
            BoardWindowData::SplitHorizontal { left, right, valid_combos } => {},
            BoardWindowData::SplitVertical { top, bottom, valid_combos } => {},
        }
    }
    assert forall|k: int| old.nboards() is Some && 0 <= k < ki.len() implies #[trigger] new.score(k) == old.score(ki[k]) by {
        match old.inner {
            BoardWindowData::Leaf { valid_boards } => {
                assert(old.score_cache_ok());
            },
            BoardWindowData::SplitHorizontal { left, right, valid_combos } => {},
            BoardWindowData::SplitVertical { top, bottom, valid_combos } => {},
        }
    }
    assert forall|d: Direction| #[trigger] new.exposure_cache_ok(d) by {
        assert(old.exposure_cache_ok(d));
        assert(option_retained(new.exposure_cache@[spec_dir_index(d)], old.exposure_cache@[spec_dir_index(d)], keep));
        if let Some(c) = new.exposure_cache@[spec_dir_index(d)] {
            let oc = old.exposure_cache@[spec_dir_index(d)]->Some_0;
            assert forall|i: int| 0 <= i < c@.len() implies Some(#[trigger] c@[i]) == new.exposure(i, d) by {
                assert(c@[i] == oc@[ki[i]]);
            }
            assert forall|i: int| 0 <= i < c@.len() implies (#[trigger] c@[i]).fits_rect(exposure_rect_of(new.rect, d)) by {
                assert(c@[i] == oc@[ki[i]]);
            }
        }
    }
    assert forall|d: Direction| #[trigger] new.sort_cache_ok(d) by {
        assert(old.sort_cache_ok(d));
        assert(option_renumbered(new.exposure_sort_order_cache@[spec_dir_index(d)], old.exposure_sort_order_cache@[spec_dir_index(d)], keep));
        if let Some(s) = new.exposure_sort_order_cache@[spec_dir_index(d)] {
            let os = old.exposure_sort_order_cache@[spec_dir_index(d)]->Some_0;
            lemma_renumbered(os@, keep);
            assert forall|m: int| 0 <= m < s@.len() implies Some(PackedCells((#[trigger] s@[m]).0)) == new.exposure(s@[m].1 as int, d) by {
                let k = kept_indices(pair_mask(os@, keep))[m];
                let j = os@[k].1 as int;
                assert(Some(PackedCells(os@[k].0)) == old.exposure(j, d));
                assert(ki[rank(keep, j)] == j);
                assert(new.exposure(rank(keep, j), d) == old.exposure(j, d));
            }
        }
    }
    assert(new.score_cache_ok()) by {
        assert(old.score_cache_ok());
        if let Some(sc) = new.score_cache {
            let osc = old.score_cache->Some_0;
            assert forall|i: int| 0 <= i < sc@.len() implies new.score(i) == Some(#[trigger] sc@[i] as int) by {
                assert(sc@[i] == osc@[ki[i]]);
            }
        }
    }
}

/// The entries of `c` that `keep` marks.
fn retain_option<T: Copy>(c: &Option<Vec<T>>, keep: &[bool]) -> (r: Option<Vec<T>>)
    requires
        c matches Some(v) ==> v@.len() == keep@.len(),
    ensures
        option_retained(r, *c, keep@),
{
    match c {
        Some(v) => Some(retain_vec(v, keep)),
        None => None,
    }
}

/// The table `c` renumbered to the entries `keep` marks.
fn renumber_option(c: &Option<Vec<(u128, u64)>>, keep: &[bool], new_place: &Vec<u64>) -> (r: Option<Vec<(u128, u64)>>)
    requires
        new_place@.len() == keep@.len(),
        forall|j: int| 0 <= j < keep@.len() && keep@[j] ==> new_place@[j] == rank(keep@, j),
        c matches Some(s) ==> forall|k: int| 0 <= k < s@.len() ==> (#[trigger] s@[k]).1 < keep@.len(),
    ensures
        option_renumbered(r, *c, keep@),
{
    match c {
        Some(s) => Some(renumber(s, keep, new_place)),
        None => None,
    }
}

impl BoardWindow {
    /// Keeps only the boards that `keep` marks, in every list and cache.
    pub fn retain_valid_boards(&mut self, keep: &[bool])
        requires
            old(self).inv(),
            old(self).nboards() matches Some(n) ==> keep@.len() == n,
        ensures
            final(self).inv(),
            window_retained(*final(self), *old(self), keep@),
            old(self).nboards() is Some ==> final(self).nboards() == Some(kept_indices(keep@).len() as int),
            old(self).nboards() is None ==> final(self).nboards() is None,
            forall|k: int, d: Direction|
                old(self).nboards() is Some && 0 <= k < kept_indices(keep@).len() ==> #[trigger] final(self).exposure(k, d)
                    == old(self).exposure(kept_indices(keep@)[k], d),
            forall|k: int|
                old(self).nboards() is Some && 0 <= k < kept_indices(keep@).len() ==> #[trigger] final(self).score(k)
                    == old(self).score(kept_indices(keep@)[k]),
    {
        let ghost old_self = *self;
        let nk = keep.len();
        proof {
            assert(old_self.exposure_cache_ok(Direction::Up));
            assert(old_self.exposure_cache_ok(Direction::Down));
            assert(old_self.exposure_cache_ok(Direction::Left));
            assert(old_self.exposure_cache_ok(Direction::Right));
            assert(old_self.sort_cache_ok(Direction::Up));
            assert(old_self.sort_cache_ok(Direction::Down));
            assert(old_self.sort_cache_ok(Direction::Left));
            assert(old_self.sort_cache_ok(Direction::Right));
        }
        let mut inner = BoardWindowData::Leaf { valid_boards: None };
        std::mem::swap(&mut inner, &mut self.inner);
        let new_inner = match inner {
            BoardWindowData::Leaf { valid_boards: Some(boards) } => BoardWindowData::Leaf {
                valid_boards: Some(retain_vec(&boards, keep)),
            },
            BoardWindowData::SplitHorizontal { left, right, valid_combos: Some(combos) } => BoardWindowData::SplitHorizontal {
                left,
                right,
                valid_combos: Some(retain_vec(&combos, keep)),
            },
            BoardWindowData::SplitVertical { top, bottom, valid_combos: Some(combos) } => BoardWindowData::SplitVertical {
                top,
                bottom,
                valid_combos: Some(retain_vec(&combos, keep)),
            },
            other => other,
        };
        let new_exposures = vec![
            retain_option(&self.exposure_cache[0], keep),
            retain_option(&self.exposure_cache[1], keep),
            retain_option(&self.exposure_cache[2], keep),
            retain_option(&self.exposure_cache[3], keep),
        ];
        let new_scores = retain_option(&self.score_cache, keep);
        let new_place = ranks(keep);
        let new_orders = vec![
            renumber_option(&self.exposure_sort_order_cache[0], keep, &new_place),
            renumber_option(&self.exposure_sort_order_cache[1], keep, &new_place),
            renumber_option(&self.exposure_sort_order_cache[2], keep, &new_place),
            renumber_option(&self.exposure_sort_order_cache[3], keep, &new_place),
        ];
        self.inner = new_inner;
        self.exposure_cache = new_exposures;
        self.score_cache = new_scores;
        self.exposure_sort_order_cache = new_orders;
        proof {
            assert(old_self.score_cache_ok());
            assert forall|d: Direction| #[trigger] option_retained(self.exposure_cache@[spec_dir_index(d)], old_self.exposure_cache@[spec_dir_index(d)], keep@) by {
                match d {
                    Direction::Up => {},
                    Direction::Down => {},
                    Direction::Left => {},
                    Direction::Right => {},
                }
            }
            assert forall|d: Direction| #[trigger] option_renumbered(self.exposure_sort_order_cache@[spec_dir_index(d)], old_self.exposure_sort_order_cache@[spec_dir_index(d)], keep@) by {
                match d {
                    Direction::Up => {},
                    Direction::Down => {},
                    Direction::Left => {},
                    Direction::Right => {},
                }
            }
            lemma_window_retained(*self, old_self, keep@);
        }
    }
}

/// Keys never decrease along `s`.
pub open spec fn keys_sorted(s: Seq<(u128, u64)>) -> bool {
    forall|i: int, j: int| 0 <= i <= j < s.len() ==> s[i].0 <= s[j].0
}

/// Position `a` of the first order and `c` of the second lie in block `k`.
pub open spec fn in_block(r: Seq<((usize, usize), (usize, usize))>, k: int, a: int, c: int) -> bool {
    &&& 0 <= k < r.len()
    &&& r[k].0.0 <= a < r[k].0.1
    &&& r[k].1.0 <= c < r[k].1.1
}

/// `r` lists, in increasing order, the runs of equal keys that both orders hold, and
/// every pair of positions with equal keys lies in one of them.
pub open spec fn blocks_ok(
    o1: Seq<(u128, u64)>,
    o2: Seq<(u128, u64)>,
    r: Seq<((usize, usize), (usize, usize))>,
) -> bool {
    &&& forall|k: int|
        0 <= k < r.len() ==> {
            &&& (#[trigger] r[k]).0.0 < r[k].0.1 <= o1.len()
            &&& r[k].1.0 < r[k].1.1 <= o2.len()
            &&& forall|a: int| r[k].0.0 <= a < r[k].0.1 ==> #[trigger] o1[a].0 == o1[r[k].0.0 as int].0
            &&& forall|c: int| r[k].1.0 <= c < r[k].1.1 ==> #[trigger] o2[c].0 == o1[r[k].0.0 as int].0
        }
    &&& forall|k1: int, k2: int|
        0 <= k1 < k2 < r.len() ==> (#[trigger] r[k1]).0.1 <= (#[trigger] r[k2]).0.0 && r[k1].1.1 <= r[k2].1.0
    &&& forall|a: int, c: int|
        0 <= a < o1.len() && 0 <= c < o2.len() && #[trigger] o1[a].0 == #[trigger] o2[c].0 ==> exists|k: int|
            #[trigger] in_block(r, k, a, c)
}

impl BoardWindow {
    /// The runs of equal exposures that two sorted orders share.
    pub fn get_matches(order1: &[(u128, u64)], order2: &[(u128, u64)]) -> (r: Vec<((usize, usize), (usize, usize))>)
        requires
            keys_sorted(order1@),
            keys_sorted(order2@),
        ensures
            blocks_ok(order1@, order2@, r@),
    {
        let mut valid_combos: Vec<((usize, usize), (usize, usize))> = Vec::new();
        let mut i: usize = 0;
        let mut j: usize = 0;
        let n1 = order1.len();
        let n2 = order2.len();
        while i < n1 && j < n2
            invariant
                n1 == order1@.len(),
                n2 == order2@.len(),
                keys_sorted(order1@),
                keys_sorted(order2@),
                i <= n1,
                j <= n2,
                forall|k: int|
                    0 <= k < valid_combos@.len() ==> {
                        &&& (#[trigger] valid_combos@[k]).0.0 < valid_combos@[k].0.1 <= i
                        &&& valid_combos@[k].1.0 < valid_combos@[k].1.1 <= j
                        &&& forall|a: int|
                            valid_combos@[k].0.0 <= a < valid_combos@[k].0.1 ==> #[trigger] order1@[a].0
                                == order1@[valid_combos@[k].0.0 as int].0
                        &&& forall|c: int|
                            valid_combos@[k].1.0 <= c < valid_combos@[k].1.1 ==> #[trigger] order2@[c].0
                                == order1@[valid_combos@[k].0.0 as int].0
                    },
                forall|k1: int, k2: int|
                    0 <= k1 < k2 < valid_combos@.len() ==> (#[trigger] valid_combos@[k1]).0.1 <= (
                    #[trigger] valid_combos@[k2]).0.0 && valid_combos@[k1].1.1 <= valid_combos@[k2].1.0,
                forall|a: int, c: int|
                    0 <= a < n1 && 0 <= c < n2 && (a < i || c < j) && #[trigger] order1@[a].0
                        == #[trigger] order2@[c].0 ==> exists|k: int| #[trigger] in_block(valid_combos@, k, a, c),
            decreases n1 - i + n2 - j,
        {
            let exp1 = order1[i].0;
            let exp2 = order2[j].0;
            if exp1 < exp2 {
                i = i + 1;
            } else if exp1 > exp2 {
                j = j + 1;
            } else {
                let mut i_end = i + 1;
                while i_end < n1 && order1[i_end].0 == exp1
                    invariant
                        i < i_end <= n1,
                        n1 == order1@.len(),
                        exp1 == order1@[i as int].0,
                        forall|a: int| i <= a < i_end ==> #[trigger] order1@[a].0 == exp1,
                    decreases n1 - i_end,
                {
                    i_end = i_end + 1;
                }
                let mut j_end = j + 1;
                while j_end < n2 && order2[j_end].0 == exp2
                    invariant
                        j < j_end <= n2,
                        n2 == order2@.len(),
                        exp2 == order2@[j as int].0,
                        forall|c: int| j <= c < j_end ==> #[trigger] order2@[c].0 == exp2,
                    decreases n2 - j_end,
                {
                    j_end = j_end + 1;
                }
                let ghost old_vc = valid_combos@;
                valid_combos.push(((i, i_end), (j, j_end)));
                proof {
                    let nk = old_vc.len() as int;
                    assert(valid_combos@[nk] == ((i, i_end), (j, j_end)));
                    assert forall|k: int| 0 <= k < nk implies valid_combos@[k] == old_vc[k] by {}
                    assert forall|a: int, c: int|
                        0 <= a < n1 && 0 <= c < n2 && (a < i_end || c < j_end) && #[trigger] order1@[a].0
                            == #[trigger] order2@[c].0 implies exists|k: int| #[trigger] in_block(valid_combos@, k, a, c) by {
                        if a < i || c < j {
                            let k = choose|k: int| #[trigger] in_block(old_vc, k, a, c);
                            assert(in_block(valid_combos@, k, a, c));
                        } else if a < i_end && c < j_end {
                            assert(in_block(valid_combos@, nk, a, c));
                        } else if a >= i_end {
                            // c in [j, j_end): key exp1; a beyond the run has a larger key
                            assert(i_end < n1);
                            assert(order1@[i_end as int].0 != exp1);
                            assert(order1@[i_end as int].0 >= exp1);
                            assert(order1@[a].0 >= order1@[i_end as int].0);
                            assert(false);
                        } else {
                            assert(j_end < n2);
                            assert(order2@[j_end as int].0 != exp2);
                            assert(order2@[j_end as int].0 >= exp2);
                            assert(order2@[c].0 >= order2@[j_end as int].0);
                            assert(false);
                        }
                    }
                }
                i = i_end;
                j = j_end;
            }
        }
        proof {
            assert forall|a: int, c: int|
                0 <= a < n1 && 0 <= c < n2 && #[trigger] order1@[a].0 == #[trigger] order2@[c].0 implies exists|k: int|
                #[trigger] in_block(valid_combos@, k, a, c) by {
                assert(a < i || c < j);
            }
        }
        valid_combos
    }
}

/// Position `a` lies in the first (or, for `first == false`, second) range of block `k`.
pub open spec fn in_side(r: Seq<((usize, usize), (usize, usize))>, k: int, a: int, first: bool) -> bool {
    &&& 0 <= k < r.len()
    &&& if first {
        r[k].0.0 <= a < r[k].0.1
    } else {
        r[k].1.0 <= a < r[k].1.1
    }
}

/// Some board of `b` shows along the shared side the same cells as board `i` of `a`.
pub open spec fn has_partner(a: BoardWindow, d: Direction, b: BoardWindow, i: int) -> bool {
    exists|j: int| 0 <= j < b.nboards()->Some_0 && #[trigger] b.exposure(j, spec_opposite(d)) == a.exposure(i, d)
}

/// For each board of `a`, whether some board of `b` fits against it along side `d`.
pub open spec fn partner_mask(a: BoardWindow, d: Direction, b: BoardWindow) -> Seq<bool> {
    Seq::new(a.nboards()->Some_0 as nat, |i: int| has_partner(a, d, b, i))
}

/// Windows that differ only in caches have the same boards, exposures and scores.
pub proof fn lemma_same_content(a: BoardWindow, b: BoardWindow)
    requires
        a.same_content(b),
    ensures
        a.nboards() == b.nboards(),
        forall|i: int, d: Direction| #[trigger] a.exposure(i, d) == b.exposure(i, d),
        forall|i: int| #[trigger] a.score(i) == b.score(i),
{
}

/// Partner marks only depend on the boards, not on the caches.
proof fn lemma_partner_mask_same(a: BoardWindow, a2: BoardWindow, d: Direction, b: BoardWindow, b2: BoardWindow)
    requires
        a.same_content(a2),
        b.same_content(b2),
    ensures
        partner_mask(a, d, b) == partner_mask(a2, d, b2),
{
    lemma_same_content(a, a2);
    lemma_same_content(b, b2);
    assert forall|i: int| 0 <= i < partner_mask(a, d, b).len() implies partner_mask(a, d, b)[i] == partner_mask(a2, d, b2)[i] by {
        if has_partner(a, d, b, i) {
            let j = choose|j: int| 0 <= j < b.nboards()->Some_0 && #[trigger] b.exposure(j, spec_opposite(d)) == a.exposure(i, d);
            assert(b2.exposure(j, spec_opposite(d)) == a2.exposure(i, d));
        }
        if has_partner(a2, d, b2, i) {
            let j = choose|j: int| 0 <= j < b2.nboards()->Some_0 && #[trigger] b2.exposure(j, spec_opposite(d)) == a2.exposure(i, d);
            assert(b.exposure(j, spec_opposite(d)) == a.exposure(i, d));
        }
    }
    assert(partner_mask(a, d, b) =~= partner_mask(a2, d, b2));
}

/// Marks the boards named at the positions of the first (or second) ranges of `blocks`.
fn mark_blocks(o: &[(u128, u64)], blocks: &Vec<((usize, usize), (usize, usize))>, first: bool) -> (marks: Vec<bool>)
    requires
        names_each_once(o@, o@.len() as int),
        forall|k: int|
            0 <= k < blocks@.len() ==> (if first { (#[trigger] blocks@[k]).0 } else { blocks@[k].1 }).0 <= (if first { blocks@[k].0 } else { blocks@[k].1 }).1 <= o@.len(),
    ensures
        marks@.len() == o@.len(),
        forall|a: int|
            0 <= a < o@.len() ==> (marks@[#[trigger] o@[a].1 as int] <==> exists|k: int| #[trigger] in_side(blocks@, k, a, first)),
{
    let n = o.len();
    let mut marks: Vec<bool> = Vec::new();
    let mut i: usize = 0;
    while i < n
        invariant
            marks@.len() == i,
            i <= n,
            forall|j: int| 0 <= j < i ==> !marks@[j],
        decreases n - i,
    {
        marks.push(false);
        i = i + 1;
    }
    let nb = blocks.len();
    let mut t: usize = 0;
    while t < nb
        invariant
            n == o@.len(),
            nb == blocks@.len(),
            t <= nb,
            marks@.len() == n,
            names_each_once(o@, o@.len() as int),
            forall|k: int|
                0 <= k < blocks@.len() ==> (if first { (#[trigger] blocks@[k]).0 } else { blocks@[k].1 }).0 <= (if first { blocks@[k].0 } else { blocks@[k].1 }).1 <= o@.len(),
            forall|a: int|
                0 <= a < n ==> (marks@[#[trigger] o@[a].1 as int] <==> exists|k: int| k < t && #[trigger] in_side(blocks@, k, a, first)),
        decreases nb - t,
    {
        let (r1, r2) = blocks[t];
        let (s, e) = if first {
            r1
        } else {
            r2
        };
        proof {
            assert(s <= e);
        }
        let mut a: usize = s;
        while a < e
            invariant
                n == o@.len(),
                t < nb == blocks@.len(),
                marks@.len() == n,
                names_each_once(o@, o@.len() as int),
                (s, e) == (if first { blocks@[t as int].0 } else { blocks@[t as int].1 }),
                s <= a <= e <= n,
                forall|a2: int|
                    0 <= a2 < n ==> (marks@[#[trigger] o@[a2].1 as int] <==> (exists|k: int| k < t && #[trigger] in_side(blocks@, k, a2, first)) || (s <= a2 < a)),
            decreases e - a,
        {
            let idx = o[a].1;
            proof {
                assert(o@[a as int].1 < n);
                assert forall|a2: int| 0 <= a2 < n && a2 != a implies o@[a2].1 != o@[a as int].1 by {
                    assert(o@[a2].1 != o@[a as int].1);
                }
            }
            marks.set(idx as usize, true);
            a = a + 1;
        }
        proof {
            assert forall|a2: int|
                0 <= a2 < n implies (marks@[#[trigger] o@[a2].1 as int] <==> exists|k: int| k < t + 1 && #[trigger] in_side(blocks@, k, a2, first)) by {
                if s <= a2 < e {
                    assert(in_side(blocks@, t as int, a2, first));
                }
                if exists|k: int| k < t + 1 && #[trigger] in_side(blocks@, k, a2, first) {
                    let k = choose|k: int| k < t + 1 && #[trigger] in_side(blocks@, k, a2, first);
                    if k == t {
                        assert(s <= a2 < e);
                    }
                }
            }
        }
        t = t + 1;
    }
    marks
}

/// Position `a` of the first order lies in a block exactly when some position of the
/// second order has its key.
proof fn lemma_block_first(o1: Seq<(u128, u64)>, o2: Seq<(u128, u64)>, r: Seq<((usize, usize), (usize, usize))>, a: int)
    requires
        blocks_ok(o1, o2, r),
        0 <= a < o1.len(),
    ensures
        (exists|k: int| #[trigger] in_side(r, k, a, true)) <==> (exists|c: int| 0 <= c < o2.len() && o1[a].0 == #[trigger] o2[c].0),
{
    if exists|k: int| #[trigger] in_side(r, k, a, true) {
        let k = choose|k: int| #[trigger] in_side(r, k, a, true);
        let c = r[k].1.0 as int;
        assert(o1[a].0 == o1[r[k].0.0 as int].0);
        assert(o2[c].0 == o1[r[k].0.0 as int].0);
    }
    if exists|c: int| 0 <= c < o2.len() && o1[a].0 == #[trigger] o2[c].0 {
        let c = choose|c: int| 0 <= c < o2.len() && o1[a].0 == #[trigger] o2[c].0;
        assert(o1[a].0 == o2[c].0);
        let k = choose|k: int| #[trigger] in_block(r, k, a, c);
        assert(in_side(r, k, a, true));
    }
}

/// Position `c` of the second order lies in a block exactly when some position of the
/// first order has its key.
proof fn lemma_block_second(o1: Seq<(u128, u64)>, o2: Seq<(u128, u64)>, r: Seq<((usize, usize), (usize, usize))>, c: int)
    requires
        blocks_ok(o1, o2, r),
        0 <= c < o2.len(),
    ensures
        (exists|k: int| #[trigger] in_side(r, k, c, false)) <==> (exists|a: int| 0 <= a < o1.len() && #[trigger] o1[a].0 == o2[c].0),
{
    if exists|k: int| #[trigger] in_side(r, k, c, false) {
        let k = choose|k: int| #[trigger] in_side(r, k, c, false);
        let a = r[k].0.0 as int;
        assert(o1[a].0 == o1[r[k].0.0 as int].0);
        assert(o2[c].0 == o1[r[k].0.0 as int].0);
    }
    if exists|a: int| 0 <= a < o1.len() && #[trigger] o1[a].0 == o2[c].0 {
        let a = choose|a: int| 0 <= a < o1.len() && #[trigger] o1[a].0 == o2[c].0;
        assert(o1[a].0 == o2[c].0);
        let k = choose|k: int| #[trigger] in_block(r, k, a, c);
        assert(in_side(r, k, c, false));
    }
}

/// Sorted pairs have non-decreasing keys.
pub proof fn lemma_sorted_keys(s: Seq<(u128, u64)>)
    requires
        crate::outside::sorted_pairs(s),
    ensures
        keys_sorted(s),
{
    assert forall|i: int, j: int| 0 <= i <= j < s.len() implies s[i].0 <= s[j].0 by {
        if i < j {
            assert(crate::outside::pair_le(s[i], s[j]));
        }
    }
}

/// Marks taken from a sorted table are the partner marks of the boards it names.
proof fn lemma_marks_are_partners(
    w1: BoardWindow,
    d: Direction,
    w2: BoardWindow,
    o1: Seq<(u128, u64)>,
    o2: Seq<(u128, u64)>,
    marks: Seq<bool>,
)
    requires
        w1.nboards() == Some(o1.len() as int),
        w2.nboards() == Some(o2.len() as int),
        names_each_once(o1, o1.len() as int),
        names_each_once(o2, o2.len() as int),
        forall|k: int| 0 <= k < o1.len() ==> Some(PackedCells((#[trigger] o1[k]).0)) == w1.exposure(o1[k].1 as int, d),
        forall|k: int|
            0 <= k < o2.len() ==> Some(PackedCells((#[trigger] o2[k]).0)) == w2.exposure(o2[k].1 as int, spec_opposite(d)),
        marks.len() == o1.len(),
        forall|a: int|
            0 <= a < o1.len() ==> (marks[#[trigger] o1[a].1 as int] <==> exists|c: int|
                0 <= c < o2.len() && o1[a].0 == #[trigger] o2[c].0),
    ensures
        marks == partner_mask(w1, d, w2),
{
    let pm = partner_mask(w1, d, w2);
    assert forall|i: int| 0 <= i < marks.len() implies marks[i] == pm[i] by {
        assert(holds_index(o1, i));
        let a = choose|a: int| 0 <= a < o1.len() && o1[a].1 == i;
        assert(Some(PackedCells(o1[a].0)) == w1.exposure(i, d));
        if marks[i] {
            let c = choose|c: int| 0 <= c < o2.len() && o1[a].0 == #[trigger] o2[c].0;
            let j = o2[c].1 as int;
            assert(Some(PackedCells(o2[c].0)) == w2.exposure(j, spec_opposite(d)));
            assert(w2.exposure(j, spec_opposite(d)) == w1.exposure(i, d));
            assert(has_partner(w1, d, w2, i));
        }
        if has_partner(w1, d, w2, i) {
            let j = choose|j: int| 0 <= j < w2.nboards()->Some_0 && #[trigger] w2.exposure(j, spec_opposite(d)) == w1.exposure(i, d);
            assert(holds_index(o2, j));
            let c = choose|c: int| 0 <= c < o2.len() && o2[c].1 == j;
            assert(Some(PackedCells(o2[c].0)) == w2.exposure(j, spec_opposite(d)));
            assert(o1[a].0 == o2[c].0);
        }
    }
    assert(marks =~= pm);
}

impl BoardWindow {
    /// Keeps, on each side of the shared boundary, only the boards that some board on
    /// the other side fits against.
    pub fn filter_exposures(b1: &mut BoardWindow, direction: Direction, b2: &mut BoardWindow)
        requires
            old(b1).inv(),
            old(b2).inv(),
            exposable(old(b1).rect),
            exposable(old(b2).rect),
            old(b1).nboards() is Some,
            old(b2).nboards() is Some,
            exposure_rect_of(old(b1).rect, direction) == exposure_rect_of(old(b2).rect, spec_opposite(direction)),
        ensures
            final(b1).inv(),
            final(b2).inv(),
            final(b1).rect == old(b1).rect,
            final(b2).rect == old(b2).rect,
            final(b1).forced_dead == old(b1).forced_dead,
            final(b2).forced_dead == old(b2).forced_dead,
            forall|b: int| #[trigger] old(b1).scores_within(b) ==> final(b1).scores_within(b),
            forall|b: int| #[trigger] old(b2).scores_within(b) ==> final(b2).scores_within(b),
            inner_retained(final(b1).inner, old(b1).inner, partner_mask(*old(b1), direction, *old(b2))),
            inner_retained(final(b2).inner, old(b2).inner, partner_mask(*old(b2), spec_opposite(direction), *old(b1))),
            option_retained(final(b1).score_cache, old(b1).score_cache, partner_mask(*old(b1), direction, *old(b2))),
            option_retained(final(b2).score_cache, old(b2).score_cache, partner_mask(*old(b2), spec_opposite(direction), *old(b1))),
            final(b1).nboards() == Some(kept_indices(partner_mask(*old(b1), direction, *old(b2))).len() as int),
            final(b2).nboards() == Some(kept_indices(partner_mask(*old(b2), spec_opposite(direction), *old(b1))).len() as int),
            forall|k: int, d: Direction|
                0 <= k < final(b1).nboards()->Some_0 ==> #[trigger] final(b1).exposure(k, d) == old(b1).exposure(
                    kept_indices(partner_mask(*old(b1), direction, *old(b2)))[k],
                    d,
                ),
            forall|k: int, d: Direction|
                0 <= k < final(b2).nboards()->Some_0 ==> #[trigger] final(b2).exposure(k, d) == old(b2).exposure(
                    kept_indices(partner_mask(*old(b2), spec_opposite(direction), *old(b1)))[k],
                    d,
                ),
            forall|k: int|
                0 <= k < final(b1).nboards()->Some_0 ==> #[trigger] final(b1).score(k) == old(b1).score(
                    kept_indices(partner_mask(*old(b1), direction, *old(b2)))[k],
                ),
            forall|k: int|
                0 <= k < final(b2).nboards()->Some_0 ==> #[trigger] final(b2).score(k) == old(b2).score(
                    kept_indices(partner_mask(*old(b2), spec_opposite(direction), *old(b1)))[k],
                ),
    {
        let ghost w1 = *b1;
        let ghost w2 = *b2;
        let od = direction.opposite();
        b1.build_exposure_sort_order_cache(direction);
        b2.build_exposure_sort_order_cache(od);
        let ghost m1 = *b1;
        let ghost m2 = *b2;
        proof {
            lemma_same_content(m1, w1);
            lemma_same_content(m2, w2);
            lemma_opposite_involutive(direction);
            assert(m1.sort_cache_ok(direction));
            assert(m2.sort_cache_ok(od));
        }
        let d1 = direction.index();
        let d2 = od.index();
        let (keep1, keep2) = match (&b1.exposure_sort_order_cache[d1], &b2.exposure_sort_order_cache[d2]) {
            (Some(order1), Some(order2)) => {
                proof {
                    lemma_sorted_keys(order1@);
                    lemma_sorted_keys(order2@);
                }
                let blocks = Self::get_matches(order1.as_slice(), order2.as_slice());
                let keep1 = mark_blocks(order1.as_slice(), &blocks, true);
                let keep2 = mark_blocks(order2.as_slice(), &blocks, false);
                proof {
                    assert forall|a: int| 0 <= a < order1@.len() implies (keep1@[#[trigger] order1@[a].1 as int] <==> exists|c: int|
                        0 <= c < order2@.len() && order1@[a].0 == #[trigger] order2@[c].0) by {
                        lemma_block_first(order1@, order2@, blocks@, a);
                    }
                    lemma_marks_are_partners(m1, direction, m2, order1@, order2@, keep1@);
                    assert forall|c: int| 0 <= c < order2@.len() implies (keep2@[#[trigger] order2@[c].1 as int] <==> exists|a: int|
                        0 <= a < order1@.len() && order2@[c].0 == #[trigger] order1@[a].0) by {
                        lemma_block_second(order1@, order2@, blocks@, c);
                        if exists|a: int| 0 <= a < order1@.len() && order2@[c].0 == #[trigger] order1@[a].0 {
                            let a = choose|a: int| 0 <= a < order1@.len() && order2@[c].0 == #[trigger] order1@[a].0;
                            assert(order1@[a].0 == order2@[c].0);
                        }
                    }
                    lemma_marks_are_partners(m2, od, m1, order2@, order1@, keep2@);
                }
                (keep1, keep2)
            },
            _ => {
                proof {
                    assert(false);
                }
                (Vec::new(), Vec::new())
            },
        };
        proof {
            lemma_partner_mask_same(m1, w1, direction, m2, w2);
            lemma_partner_mask_same(m2, w2, od, m1, w1);
            assert(keep1@ == partner_mask(w1, direction, w2));
            assert(keep2@ == partner_mask(w2, od, w1));
        }
        b1.retain_valid_boards(keep1.as_slice());
        b2.retain_valid_boards(keep2.as_slice());
        proof {
            assert forall|b: int| #[trigger] w1.scores_within(b) implies b1.scores_within(b) by {
                assert(m1.scores_within(b));
                crate::scores::lemma_retained_scores_within(*b1, m1, keep1@, b);
            }
            assert forall|b: int| #[trigger] w2.scores_within(b) implies b2.scores_within(b) by {
                assert(m2.scores_within(b));
                crate::scores::lemma_retained_scores_within(*b2, m2, keep2@, b);
            }
        }
    }
}

/// Board `p.0` of `a` and board `p.1` of `b` show the same cells along their shared side.
pub open spec fn fits_together(a: BoardWindow, d: Direction, b: BoardWindow, p: (u64, u64)) -> bool {
    &&& a.nboards() matches Some(n1) && p.0 < n1
    &&& b.nboards() matches Some(n2) && p.1 < n2
    &&& a.exposure(p.0 as int, d) == b.exposure(p.1 as int, spec_opposite(d))
}

/// Every pair of boards that fit together along side `d` occurs in `v`.
pub open spec fn lists_all_fitting(v: Seq<(u64, u64)>, a: BoardWindow, d: Direction, b: BoardWindow) -> bool {
    forall|i: int, j: int|
        0 <= i < a.nboards()->Some_0 && 0 <= j < b.nboards()->Some_0 && #[trigger] a.exposure(i, d) == #[trigger] b.exposure(
            j,
            spec_opposite(d),
        ) ==> v.contains((i as u64, j as u64))
}

/// Pairs of positions with equal keys name boards that fit together.
pub proof fn lemma_pairs_fit(
    w1: BoardWindow,
    d: Direction,
    w2: BoardWindow,
    o1: Seq<(u128, u64)>,
    o2: Seq<(u128, u64)>,
    v: Seq<(u64, u64)>,
)
    requires
        w1.nboards() == Some(o1.len() as int),
        w2.nboards() == Some(o2.len() as int),
        names_each_once(o1, o1.len() as int),
        names_each_once(o2, o2.len() as int),
        forall|k: int| 0 <= k < o1.len() ==> Some(PackedCells((#[trigger] o1[k]).0)) == w1.exposure(o1[k].1 as int, d),
        forall|k: int|
            0 <= k < o2.len() ==> Some(PackedCells((#[trigger] o2[k]).0)) == w2.exposure(o2[k].1 as int, spec_opposite(d)),
        exists|pos: Seq<(int, int)>| block_pairs(o1, o2, v, pos),
    ensures
        forall|m: int| 0 <= m < v.len() ==> fits_together(w1, d, w2, #[trigger] v[m]),
        v.no_duplicates(),
{
    let pos = choose|pos: Seq<(int, int)>| block_pairs(o1, o2, v, pos);
    lemma_block_pairs_distinct(o1, o2, v, pos);
    assert forall|m: int| 0 <= m < v.len() implies fits_together(w1, d, w2, #[trigger] v[m]) by {
        let p = pos[m];
        assert(Some(PackedCells(o1[p.0].0)) == w1.exposure(o1[p.0].1 as int, d));
        assert(Some(PackedCells(o2[p.1].0)) == w2.exposure(o2[p.1].1 as int, spec_opposite(d)));
    }
}

/// The pair `p` of boards comes before the pair `q` in the order of the sorted scan:
/// by the exposure of the first board along `d` (as a number), then by the first board,
/// then by the second.
pub open spec fn scan_before(w: BoardWindow, d: Direction, p: (u64, u64), q: (u64, u64)) -> bool {
    let kp = w.exposure(p.0 as int, d)->Some_0.0;
    let kq = w.exposure(q.0 as int, d)->Some_0.0;
    kp < kq || (kp == kq && (p.0 < q.0 || (p.0 == q.0 && p.1 < q.1)))
}

/// The pairs `v` come in the order of the sorted scan.
pub open spec fn scan_ordered(v: Seq<(u64, u64)>, w: BoardWindow, d: Direction) -> bool {
    forall|m1: int, m2: int| 0 <= m1 < m2 < v.len() ==> scan_before(w, d, #[trigger] v[m1], #[trigger] v[m2])
}

/// Pairs read from the blocks of two sorted tables come in the order of the sorted scan.
pub proof fn lemma_pairs_ordered(
    w1: BoardWindow,
    d: Direction,
    o1: Seq<(u128, u64)>,
    o2: Seq<(u128, u64)>,
    v: Seq<(u64, u64)>,
)
    requires
        crate::outside::sorted_pairs(o1),
        crate::outside::sorted_pairs(o2),
        names_each_once(o1, o1.len() as int),
        names_each_once(o2, o2.len() as int),
        forall|k: int| 0 <= k < o1.len() ==> Some(PackedCells((#[trigger] o1[k]).0)) == w1.exposure(o1[k].1 as int, d),
        exists|pos: Seq<(int, int)>| block_pairs(o1, o2, v, pos),
    ensures
        scan_ordered(v, w1, d),
{
    let pos = choose|pos: Seq<(int, int)>| block_pairs(o1, o2, v, pos);
    assert forall|m1: int, m2: int| 0 <= m1 < m2 < v.len() implies scan_before(w1, d, #[trigger] v[m1], #[trigger] v[m2]) by {
        let (p1, p2) = (pos[m1], pos[m2]);
        assert(lex_lt(p1, p2));
        assert(Some(PackedCells(o1[p1.0].0)) == w1.exposure(o1[p1.0].1 as int, d));
        assert(Some(PackedCells(o1[p2.0].0)) == w1.exposure(o1[p2.0].1 as int, d));
        if p1.0 < p2.0 {
            assert(crate::outside::pair_le(o1[p1.0], o1[p2.0]));
            assert(o1[p1.0].1 != o1[p2.0].1);
        } else {
            assert(crate::outside::pair_le(o2[p1.1], o2[p2.1]));
            assert(o2[p1.1].1 != o2[p2.1].1);
        }
    }
}

/// All pairs of all blocks are all the pairs of boards that fit together.
pub proof fn lemma_pairs_complete(
    w1: BoardWindow,
    d: Direction,
    w2: BoardWindow,
    o1: Seq<(u128, u64)>,
    o2: Seq<(u128, u64)>,
    r: Seq<((usize, usize), (usize, usize))>,
    v: Seq<(u64, u64)>,
)
    requires
        w1.nboards() == Some(o1.len() as int),
        w2.nboards() == Some(o2.len() as int),
        names_each_once(o1, o1.len() as int),
        names_each_once(o2, o2.len() as int),
        forall|k: int| 0 <= k < o1.len() ==> Some(PackedCells((#[trigger] o1[k]).0)) == w1.exposure(o1[k].1 as int, d),
        forall|k: int|
            0 <= k < o2.len() ==> Some(PackedCells((#[trigger] o2[k]).0)) == w2.exposure(o2[k].1 as int, spec_opposite(d)),
        blocks_ok(o1, o2, r),
        forall|k: int, a: int, c: int|
            #[trigger] in_block(r, k, a, c) ==> exists|m: int| 0 <= m < v.len() && #[trigger] v[m] == (o1[a].1, o2[c].1),
    ensures
        lists_all_fitting(v, w1, d, w2),
{
    assert forall|i: int, j: int|
        0 <= i < w1.nboards()->Some_0 && 0 <= j < w2.nboards()->Some_0 && #[trigger] w1.exposure(i, d) == #[trigger] w2.exposure(
            j,
            spec_opposite(d),
        ) implies v.contains((i as u64, j as u64)) by {
        assert(holds_index(o1, i));
        let a = choose|a: int| 0 <= a < o1.len() && o1[a].1 == i;
        assert(holds_index(o2, j));
        let c = choose|c: int| 0 <= c < o2.len() && o2[c].1 == j;
        assert(Some(PackedCells(o1[a].0)) == w1.exposure(i, d));
        assert(Some(PackedCells(o2[c].0)) == w2.exposure(j, spec_opposite(d)));
        assert(o1[a].0 == o2[c].0);
        let k = choose|k: int| #[trigger] in_block(r, k, a, c);
        let m = choose|m: int| 0 <= m < v.len() && #[trigger] v[m] == (o1[a].1, o2[c].1);
        assert(v[m] == (i as u64, j as u64));
    }
}

impl BoardWindow {
    /// The pairs of boards, one from each window, that fit together along the shared
    /// side, in the order of the sorted scan. With a limit below their number, that many
    /// of them, drawn at random and kept in that order.
    pub fn match_exposures(
        b1: &mut BoardWindow,
        direction: Direction,
        b2: &mut BoardWindow,
        patt_limit: Option<usize>,
    ) -> (r: Option<Vec<(u64, u64)>>)
        requires
            old(b1).inv(),
            old(b2).inv(),
            exposable(old(b1).rect),
            exposable(old(b2).rect),
            old(b1).nboards() is Some,
            old(b2).nboards() is Some,
            exposure_rect_of(old(b1).rect, direction) == exposure_rect_of(old(b2).rect, spec_opposite(direction)),
        ensures
            final(b1).inv(),
            final(b2).inv(),
            final(b1).same_content(*old(b1)),
            final(b2).same_content(*old(b2)),
            r is None ==> old(b1).nboards()->Some_0 * old(b2).nboards()->Some_0 > usize::MAX,
            r matches Some(v) ==> {
                &&& forall|m: int| 0 <= m < v@.len() ==> fits_together(*old(b1), direction, *old(b2), #[trigger] v@[m])
                &&& v@.no_duplicates()
                &&& patt_limit is None ==> lists_all_fitting(v@, *old(b1), direction, *old(b2))
                &&& patt_limit matches Some(lt) ==> v@.len() <= lt && (lists_all_fitting(v@, *old(b1), direction, *old(b2))
                    || v@.len() == lt)
                &&& scan_ordered(v@, *old(b1), direction)
            },
    {
        let ghost w1 = *b1;
        let ghost w2 = *b2;
        let od = direction.opposite();
        b1.build_exposure_sort_order_cache(direction);
        b2.build_exposure_sort_order_cache(od);
        let ghost m1 = *b1;
        let ghost m2 = *b2;
        proof {
            lemma_same_content(m1, w1);
            lemma_same_content(m2, w2);
            lemma_opposite_involutive(direction);
            assert(m1.sort_cache_ok(direction));
            assert(m2.sort_cache_ok(od));
        }
        let d1 = direction.index();
        let d2 = od.index();
        match (&b1.exposure_sort_order_cache[d1], &b2.exposure_sort_order_cache[d2]) {
            (Some(order1), Some(order2)) => {
                proof {
                    lemma_sorted_keys(order1@);
                    lemma_sorted_keys(order2@);
                }
                let blocks = Self::get_matches(order1.as_slice(), order2.as_slice());
                let tot = match total_pairs(order1.as_slice(), order2.as_slice(), &blocks) {
                    Some(t) => t,
                    None => {
                        proof {
                            lemma_prefix_total(order1@, order2@, blocks@, blocks@.len() as int);
                        }
                        return None;
                    },
                };
                let v = match patt_limit {
                    Some(lt) if lt < tot => sample_block_pairs(order1.as_slice(), order2.as_slice(), &blocks, tot, lt),
                    _ => {
                        let v = all_block_pairs(order1.as_slice(), order2.as_slice(), &blocks);
                        proof {
                            lemma_pairs_complete(w1, direction, w2, order1@, order2@, blocks@, v@);
                            lemma_pairs_ordered(w1, direction, order1@, order2@, v@);
                        }
                        v
                    },
                };
                proof {
                    lemma_pairs_fit(w1, direction, w2, order1@, order2@, v@);
                    if lists_all_fitting(v@, w1, direction, w2) && v@.len() < tot {
                        let lv = crate::matching::lemma_block_listing(order1@, order2@, blocks@);
                        lemma_pairs_fit(w1, direction, w2, order1@, order2@, lv);
                        lemma_pairs_complete(w1, direction, w2, order1@, order2@, blocks@, lv);
                        crate::scores::lemma_listing_count(lv, w1, direction, w2);
                        crate::scores::lemma_listing_count(v@, w1, direction, w2);
                        assert(false);
                    }
                    lemma_pairs_ordered(w1, direction, order1@, order2@, v@);
                }
                Some(v)
            },
            _ => {
                proof {
                    assert(false);
                }
                None
            },
        }
    }
}

/// Doubling, saturating at `u64::MAX`.
pub open spec fn doubled(x: u64) -> u64 {
    if x <= u64::MAX / 2 {
        (2 * x) as u64
    } else {
        u64::MAX
    }
}

/// `w` is the unfilled window tree that `BoardWindow::new(rect, forced_dead, ideal_h,
/// ideal_w)` builds: single cells are leaves; otherwise the window is cut across its
/// width when the ideal width exceeds the ideal height (and it is wider than one cell)
/// or when it is one cell high, and across its height otherwise, into a first part of
/// half the width (or height), rounded down, and the rest. The side along the cut is
/// not forced dead in either part, and the part cut in two has its ideal size along the
/// cut halved, which here doubles the other ideal size instead.
pub open spec fn built(w: BoardWindow, rect: Rect, forced_dead: Directions, ideal_h: u64, ideal_w: u64) -> bool
    decreases rect.spec_width() + rect.spec_height(),
{
    &&& w.rect == rect
    &&& w.forced_dead == forced_dead
    &&& w.exposure_cache@ == seq![None::<Vec<PackedCells>>, None, None, None]
    &&& w.exposure_sort_order_cache@ == seq![None::<Vec<(u128, u64)>>, None, None, None]
    &&& w.score_cache is None
    &&& if !rect_in_range(rect) {
        false
    } else if rect.spec_width() == 1 && rect.spec_height() == 1 {
        w.inner == (BoardWindowData::Leaf { valid_boards: None })
    } else if (ideal_w > ideal_h && rect.spec_width() != 1) || rect.spec_height() == 1 {
        let mid = (rect.left + rect.spec_width() / 2) as i32;
        w.inner matches BoardWindowData::SplitHorizontal { left, right, valid_combos } && valid_combos is None
            && built(*left, Rect { right: mid, ..rect }, forced_dead.spec_without(Direction::Right), doubled(ideal_h), ideal_w)
            && built(*right, Rect { left: mid, ..rect }, forced_dead.spec_without(Direction::Left), doubled(ideal_h), ideal_w)
    } else {
        let mid = (rect.top + rect.spec_height() / 2) as i32;
        w.inner matches BoardWindowData::SplitVertical { top, bottom, valid_combos } && valid_combos is None
            && built(*top, Rect { bottom: mid, ..rect }, forced_dead.spec_without(Direction::Down), ideal_h, doubled(ideal_w))
            && built(*bottom, Rect { top: mid, ..rect }, forced_dead.spec_without(Direction::Up), ideal_h, doubled(ideal_w))
    }
}

/// Doubles an ideal size, saturating at `u64::MAX`.
fn double_ideal(x: u64) -> (r: u64)
    ensures
        r == doubled(x),
{
    if x <= u64::MAX / 2 {
        2 * x
    } else {
        u64::MAX
    }
}

impl BoardWindow {
    /// The unfilled window tree over `rect` (see `built`).
    pub fn new(rect: Rect, forced_dead: Directions, ideal_h: u64, ideal_w: u64) -> (w: BoardWindow)
        requires
            rect_in_range(rect),
        ensures
            w.inv(),
            built(w, rect, forced_dead, ideal_h, ideal_w),
            w.nboards() is None,
        decreases rect.spec_width() + rect.spec_height(),
    {
        let exposure_cache = vec![None, None, None, None];
        let exposure_sort_order_cache = vec![None, None, None, None];
        let width = rect.width();
        let height = rect.height();
        if width == 1 && height == 1 {
            return BoardWindow {
                rect,
                inner: BoardWindowData::Leaf { valid_boards: None },
                forced_dead,
                exposure_cache,
                exposure_sort_order_cache,
                score_cache: None,
            };
        }
        let inner = if (ideal_w > ideal_h && width != 1) || height == 1 {
            let mid = rect.left + width / 2;
            BoardWindowData::SplitHorizontal {
                left: Box::new(
                    BoardWindow::new(
                        Rect::new(rect.top, rect.left, rect.bottom, mid),
                        forced_dead.without(Direction::Right),
                        double_ideal(ideal_h),
                        ideal_w,
                    ),
                ),
                right: Box::new(
                    BoardWindow::new(
                        Rect::new(rect.top, mid, rect.bottom, rect.right),
                        forced_dead.without(Direction::Left),
                        double_ideal(ideal_h),
                        ideal_w,
                    ),
                ),
                valid_combos: None,
            }
        } else {
            let mid = rect.top + height / 2;
            BoardWindowData::SplitVertical {
                top: Box::new(
                    BoardWindow::new(
                        Rect::new(rect.top, rect.left, mid, rect.right),
                        forced_dead.without(Direction::Down),
                        ideal_h,
                        double_ideal(ideal_w),
                    ),
                ),
                bottom: Box::new(
                    BoardWindow::new(
                        Rect::new(mid, rect.left, rect.bottom, rect.right),
                        forced_dead.without(Direction::Up),
                        ideal_h,
                        double_ideal(ideal_w),
                    ),
                ),
                valid_combos: None,
            }
        };
        let w = BoardWindow {
            rect,
            inner,
            forced_dead,
            exposure_cache,
            exposure_sort_order_cache,
            score_cache: None,
        };
        proof {
            assert(w.exposure_cache@ =~= seq![None::<Vec<PackedCells>>, None, None, None]);
            assert(w.exposure_sort_order_cache@ =~= seq![None::<Vec<(u128, u64)>>, None, None, None]);
            assert forall|d: Direction| #[trigger] w.exposure_cache_ok(d) by {
                assert(w.exposure_cache@[spec_dir_index(d)] is None);
            }
            assert forall|d: Direction| #[trigger] w.sort_cache_ok(d) by {
                assert(w.exposure_sort_order_cache@[spec_dir_index(d)] is None);
            }
        }
        w
    }
}

/// The two trees hold the same windows and boards; only exposure and sort caches may
/// differ, at any depth.
pub open spec fn same_tree(a: BoardWindow, b: BoardWindow) -> bool
    decreases a,
{
    &&& a.rect == b.rect
    &&& a.forced_dead == b.forced_dead
    &&& a.score_cache == b.score_cache
    &&& match (a.inner, b.inner) {
        (BoardWindowData::Leaf { valid_boards: x }, BoardWindowData::Leaf { valid_boards: y }) => x == y,
        (
            BoardWindowData::SplitHorizontal { left: l1, right: r1, valid_combos: x },
            BoardWindowData::SplitHorizontal { left: l2, right: r2, valid_combos: y },
        ) => x == y && same_tree(*l1, *l2) && same_tree(*r1, *r2),
        (
            BoardWindowData::SplitVertical { top: t1, bottom: b1, valid_combos: x },
            BoardWindowData::SplitVertical { top: t2, bottom: b2, valid_combos: y },
        ) => x == y && same_tree(*t1, *t2) && same_tree(*b1, *b2),
        _ => false,
    }
}

/// Trees that differ only in caches have the same boards, exposures and scores.
pub proof fn lemma_same_tree(a: BoardWindow, b: BoardWindow)
    requires
        same_tree(a, b),
    ensures
        a.rect == b.rect,
        a.nboards() == b.nboards(),
        forall|i: int, d: Direction| #[trigger] a.exposure(i, d) == b.exposure(i, d),
        forall|i: int| #[trigger] a.score(i) == b.score(i),
    decreases a,
{
    match (a.inner, b.inner) {
        (
            BoardWindowData::SplitHorizontal { left: l1, right: r1, valid_combos: x },
            BoardWindowData::SplitHorizontal { left: l2, right: r2, valid_combos: y },
        ) => {
            lemma_same_tree(*l1, *l2);
            lemma_same_tree(*r1, *r2);
            assert forall|i: int, d: Direction| #[trigger] a.exposure(i, d) == b.exposure(i, d) by {
                if let Some(vc) = x {
                    assert(l1.exposure(vc@[i].0 as int, d) == l2.exposure(vc@[i].0 as int, d));
                    assert(r1.exposure(vc@[i].1 as int, d) == r2.exposure(vc@[i].1 as int, d));
                }
            }
            assert forall|i: int| #[trigger] a.score(i) == b.score(i) by {
                if let Some(vc) = x {
                    assert(l1.score(vc@[i].0 as int) == l2.score(vc@[i].0 as int));
                    assert(r1.score(vc@[i].1 as int) == r2.score(vc@[i].1 as int));
                }
            }
        },
        (
            BoardWindowData::SplitVertical { top: t1, bottom: b1, valid_combos: x },
            BoardWindowData::SplitVertical { top: t2, bottom: b2, valid_combos: y },
        ) => {
            lemma_same_tree(*t1, *t2);
            lemma_same_tree(*b1, *b2);
            assert forall|i: int, d: Direction| #[trigger] a.exposure(i, d) == b.exposure(i, d) by {
                if let Some(vc) = x {
                    assert(t1.exposure(vc@[i].0 as int, d) == t2.exposure(vc@[i].0 as int, d));
                    assert(b1.exposure(vc@[i].1 as int, d) == b2.exposure(vc@[i].1 as int, d));
                }
            }
            assert forall|i: int| #[trigger] a.score(i) == b.score(i) by {
                if let Some(vc) = x {
                    assert(t1.score(vc@[i].0 as int) == t2.score(vc@[i].0 as int));
                    assert(b1.score(vc@[i].1 as int) == b2.score(vc@[i].1 as int));
                }
            }
        },
        _ => {
            assert forall|i: int, d: Direction| #[trigger] a.exposure(i, d) == b.exposure(i, d) by {}
            assert forall|i: int| #[trigger] a.score(i) == b.score(i) by {}
        },
    }
}

/// Fewest splits from this window down to a leaf.
pub open spec fn min_leaf(w: BoardWindow) -> nat
    decreases w,
{
    match w.inner {
        BoardWindowData::Leaf { .. } => 0,
        BoardWindowData::SplitHorizontal { left, right, .. } => 1 + vstd::math::min(min_leaf(*left) as int, min_leaf(*right) as int) as nat,
        BoardWindowData::SplitVertical { top, bottom, .. } => 1 + vstd::math::min(min_leaf(*top) as int, min_leaf(*bottom) as int) as nat,
    }
}

/// Every split makes the window smaller, so there are fewer splits than cells along the
/// sides.
proof fn lemma_depth_bound(w: BoardWindow)
    requires
        w.inv(),
    ensures
        min_leaf(w) + 2 <= w.rect.spec_width() + w.rect.spec_height(),
    decreases w,
{
    match w.inner {
        BoardWindowData::SplitHorizontal { left, right, .. } => {
            lemma_depth_bound(*left);
            lemma_depth_bound(*right);
        },
        BoardWindowData::SplitVertical { top, bottom, .. } => {
            lemma_depth_bound(*top);
            lemma_depth_bound(*bottom);
        },
        _ => {},
    }
}

/// Sort caches are gone at every depth, and exposure caches at every depth but
/// `active_depth` (counted down from this window).
pub open spec fn caches_freed(w: BoardWindow, active_depth: int) -> bool
    decreases w,
{
    &&& forall|d: Direction| #[trigger] w.exposure_sort_order_cache@[spec_dir_index(d)] is None
    &&& active_depth != 0 ==> forall|d: Direction| #[trigger] w.exposure_cache@[spec_dir_index(d)] is None
    &&& match w.inner {
        BoardWindowData::Leaf { .. } => true,
        BoardWindowData::SplitHorizontal { left, right, .. } => caches_freed(*left, active_depth - 1) && caches_freed(*right, active_depth - 1),
        BoardWindowData::SplitVertical { top, bottom, .. } => caches_freed(*top, active_depth - 1) && caches_freed(*bottom, active_depth - 1),
    }
}

impl BoardWindow {
    /// Fewest splits from this window down to a leaf. Up to that depth, every path of
    /// splits is still complete, so the windows at that depth tile this one.
    pub fn min_leaf_depth(&self) -> (r: usize)
        requires
            self.inv(),
        ensures
            r == min_leaf(*self),
        decreases self,
    {
        proof {
            lemma_depth_bound(*self);
        }
        match &self.inner {
            BoardWindowData::Leaf { .. } => 0,
            BoardWindowData::SplitHorizontal { left, right, .. } => {
                let a = left.min_leaf_depth();
                let b = right.min_leaf_depth();
                1 + if a < b {
                    a
                } else {
                    b
                }
            },
            BoardWindowData::SplitVertical { top, bottom, .. } => {
                let a = top.min_leaf_depth();
                let b = bottom.min_leaf_depth();
                1 + if a < b {
                    a
                } else {
                    b
                }
            },
        }
    }

    /// Drops the sort caches at every depth and the exposure caches at every depth but
    /// `active_depth`.
    pub fn free_caches(&mut self, active_depth: i32)
        requires
            old(self).inv(),
            active_depth - (old(self).rect.spec_width() + old(self).rect.spec_height()) >= i32::MIN,
        ensures
            final(self).inv(),
            same_tree(*final(self), *old(self)),
            caches_freed(*final(self), active_depth as int),
        decreases old(self).rect.spec_width() + old(self).rect.spec_height(),
    {
        let ghost old_self = *self;
        self.exposure_sort_order_cache = vec![None, None, None, None];
        if active_depth != 0 {
            self.exposure_cache = vec![None, None, None, None];
        }
        let mut inner = BoardWindowData::Leaf { valid_boards: None };
        std::mem::swap(&mut inner, &mut self.inner);
        let inner = match inner {
            BoardWindowData::SplitHorizontal { mut left, mut right, valid_combos } => {
                left.free_caches(active_depth - 1);
                right.free_caches(active_depth - 1);
                BoardWindowData::SplitHorizontal { left, right, valid_combos }
            },
            BoardWindowData::SplitVertical { mut top, mut bottom, valid_combos } => {
                top.free_caches(active_depth - 1);
                bottom.free_caches(active_depth - 1);
                BoardWindowData::SplitVertical { top, bottom, valid_combos }
            },
            other => other,
        };
        self.inner = inner;
        proof {
            lemma_same_tree(*self, old_self);
            assert forall|d: Direction| #[trigger] self.exposure_sort_order_cache@[spec_dir_index(d)] is None by {}
            assert forall|d: Direction| active_depth != 0 implies #[trigger] self.exposure_cache@[spec_dir_index(d)] is None by {}
            assert forall|d: Direction| #[trigger] self.exposure_cache_ok(d) by {
                if active_depth == 0 {
                    assert(old_self.exposure_cache_ok(d));
                }
            }
            assert forall|d: Direction| #[trigger] self.sort_cache_ok(d) by {}
            assert(self.score_cache_ok()) by {
                assert(old_self.score_cache_ok());
            }
        }
    }
}

} // verus!
