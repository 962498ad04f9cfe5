//! The search with culling between the depths keeps every predecessor.
use vstd::prelude::*;
use crate::basic_grids::{cell_index, spec_opposite, Coord, Direction, Rect};
use crate::bits::bit;
use crate::board::{exposable, exposure_rect_of, lists_all_fitting, BoardWindow, BoardWindowData};
use crate::extract::board_cell;
use crate::packed::{lemma_packs_unique, packs};
use crate::predecessors::{lemma_exposure_cells, lemma_split_agrees, shows, shows_all};
use crate::board::min_leaf;
use crate::layers::{all_show, all_within, at_depth, fit_in, ready_with, replaced, unfilled_above, window_kept};
use crate::predecessors::{leaves_sound, sides_match};
use crate::ca::{CACell, RuleLut};
use crate::basic_grids::Grid;
use crate::scores::area;
use crate::search::{all_filled, combined_at, combined_keeping, combined_keeping_at, consistent, down_closed, leaves_filled, CombinerCfg};
use crate::search::{fill_all_combinations, fill_combinations, some_split_overflows};
use crate::basic_grids::Directions;
use crate::board::rect_in_range;
use crate::leaves::costs_within;
use crate::layers::{culled_at, extract_and_cull, lemma_at_depth_replaced};
use crate::predecessors::{
    board_of, is_predecessor, law_predecessors_are_found, leaves_complete, lemma_board_is_predecessor, lemma_built_fresh,
    lemma_built_sides, lemma_filled_leaves, lemma_filled_ready, lemma_keeping, lemma_predecessor_admitted, no_combos,
};

verus! {

/// Every window below `w` that has its boards shows every board of `s`.
pub open spec fn shows_below(w: BoardWindow, s: spec_fn(spec_fn(Coord) -> bool) -> bool) -> bool
    decreases w,
{
    &&& (w.nboards() is Some ==> shows_all(w, s))
    &&& match w.inner {
        BoardWindowData::Leaf { .. } => true,
        BoardWindowData::SplitHorizontal { left, right, .. } => shows_below(*left, s) && shows_below(*right, s),
        BoardWindowData::SplitVertical { top, bottom, .. } => shows_below(*top, s) && shows_below(*bottom, s),
    }
}

/// The exposures of two boards that show the same board `b` along a shared strip are equal.
proof fn lemma_same_strip(
    a: BoardWindow,
    i: int,
    d: Direction,
    c: BoardWindow,
    j: int,
    b: spec_fn(Coord) -> bool,
)
    requires
        a.inv(),
        c.inv(),
        exposable(a.rect),
        exposable(c.rect),
        all_filled(a),
        all_filled(c),
        consistent(a),
        consistent(c),
        0 <= i < a.nboards()->Some_0,
        0 <= j < c.nboards()->Some_0,
        exposure_rect_of(a.rect, d) == exposure_rect_of(c.rect, spec_opposite(d)),
        shows(a, i, b),
        shows(c, j, b),
    ensures
        a.exposure(i, d) == c.exposure(j, spec_opposite(d)),
{
    let od = spec_opposite(d);
    let strip = exposure_rect_of(a.rect, d);
    lemma_exposure_cells(a, i, d);
    lemma_exposure_cells(c, j, od);
    let e1 = a.exposure(i, d)->Some_0;
    let e2 = c.exposure(j, od)->Some_0;
    let e = exposure_rect_of(a.rect, d);
    match d {
        Direction::Up | Direction::Down => {
            assert(e.spec_height() == 2 && e.spec_width() <= 63);
            assert(e.spec_width() * e.spec_height() < 128) by (nonlinear_arith)
                requires
                    e.spec_height() == 2,
                    e.spec_width() <= 63,
            ;
        },
        _ => {
            assert(e.spec_width() == 2 && e.spec_height() <= 63);
            assert(e.spec_width() * e.spec_height() < 128) by (nonlinear_arith)
                requires
                    e.spec_width() == 2,
                    e.spec_height() <= 63,
            ;
        },
    }
    assert(packs(e1.0, strip, b)) by {
        assert forall|q: Coord| strip.contains(q) implies bit(e1.0, cell_index(strip, q)) == b(q) by {
            assert(a.padded().contains(q));
        }
    }
    assert(packs(e2.0, strip, b)) by {
        assert forall|q: Coord| strip.contains(q) implies bit(e2.0, cell_index(strip, q)) == b(q) by {
            assert(exposure_rect_of(c.rect, od).contains(q));
            assert(c.padded().contains(q));
        }
    }
    lemma_packs_unique(e1.0, e2.0, strip, b);
}

/// A split that lists every fitting pair of its parts' boards shows every board that
/// both parts show.
pub proof fn lemma_split_shows(w: BoardWindow, b: spec_fn(Coord) -> bool)
    requires
        w.inv(),
        exposable(w.rect),
        all_filled(w),
        consistent(w),
        match w.inner {
            BoardWindowData::Leaf { .. } => false,
            BoardWindowData::SplitHorizontal { left, right, valid_combos } => lists_all_fitting(
                valid_combos->Some_0@,
                *left,
                Direction::Right,
                *right,
            ) && (exists|i: int| 0 <= i < left.nboards()->Some_0 && #[trigger] shows(*left, i, b)) && (exists|i: int|
                0 <= i < right.nboards()->Some_0 && #[trigger] shows(*right, i, b)),
            BoardWindowData::SplitVertical { top, bottom, valid_combos } => lists_all_fitting(
                valid_combos->Some_0@,
                *top,
                Direction::Down,
                *bottom,
            ) && (exists|i: int| 0 <= i < top.nboards()->Some_0 && #[trigger] shows(*top, i, b)) && (exists|i: int|
                0 <= i < bottom.nboards()->Some_0 && #[trigger] shows(*bottom, i, b)),
        },
    ensures
        exists|m: int| 0 <= m < w.nboards()->Some_0 && #[trigger] shows(w, m, b),
{
    match w.inner {
        BoardWindowData::SplitHorizontal { left, right, valid_combos } => {
            let vc = valid_combos->Some_0;
            let i1 = choose|i: int| 0 <= i < left.nboards()->Some_0 && #[trigger] shows(*left, i, b);
            let i2 = choose|i: int| 0 <= i < right.nboards()->Some_0 && #[trigger] shows(*right, i, b);
            assert(exposure_rect_of(left.rect, Direction::Right) == exposure_rect_of(right.rect, Direction::Left));
            lemma_same_strip(*left, i1, Direction::Right, *right, i2, b);
            assert(vc@.contains((i1 as u64, i2 as u64)));
            let m = choose|m: int| 0 <= m < vc@.len() && vc@[m] == (i1 as u64, i2 as u64);
            lemma_nboards_fit(*left);
            lemma_nboards_fit(*right);
            assert(vc@[m].0 as int == i1 && vc@[m].1 as int == i2);
            lemma_split_agrees(w, m);
            assert forall|q: Coord| #[trigger] w.padded().contains(q) implies board_cell(w, m, q, true) == Some(b(q)) by {
                if right.padded().contains(q) {
                    assert(board_cell(*right, i2, q, true) == Some(b(q)));
                } else {
                    assert(left.padded().contains(q));
                    assert(board_cell(*left, i1, q, true) == Some(b(q)));
                }
            }
            assert(shows(w, m, b));
        },
        BoardWindowData::SplitVertical { top, bottom, valid_combos } => {
            let vc = valid_combos->Some_0;
            let i1 = choose|i: int| 0 <= i < top.nboards()->Some_0 && #[trigger] shows(*top, i, b);
            let i2 = choose|i: int| 0 <= i < bottom.nboards()->Some_0 && #[trigger] shows(*bottom, i, b);
            assert(exposure_rect_of(top.rect, Direction::Down) == exposure_rect_of(bottom.rect, Direction::Up));
            lemma_same_strip(*top, i1, Direction::Down, *bottom, i2, b);
            assert(vc@.contains((i1 as u64, i2 as u64)));
            let m = choose|m: int| 0 <= m < vc@.len() && vc@[m] == (i1 as u64, i2 as u64);
            lemma_nboards_fit(*top);
            lemma_nboards_fit(*bottom);
            assert(vc@[m].0 as int == i1 && vc@[m].1 as int == i2);
            lemma_split_agrees(w, m);
            assert forall|q: Coord| #[trigger] w.padded().contains(q) implies board_cell(w, m, q, true) == Some(b(q)) by {
                if bottom.padded().contains(q) {
                    assert(board_cell(*bottom, i2, q, true) == Some(b(q)));
                } else {
                    assert(top.padded().contains(q));
                    assert(board_cell(*top, i1, q, true) == Some(b(q)));
                }
            }
            assert(shows(w, m, b));
        },
        _ => {},
    }
}

/// A window holds no more boards than a `Vec` can.
proof fn lemma_nboards_fit(w: BoardWindow)
    requires
        w.nboards() is Some,
    ensures
        w.nboards()->Some_0 <= usize::MAX,
{
    match w.inner {
        BoardWindowData::Leaf { valid_boards } => {
            let v = valid_boards->Some_0;
            assert(v@.len() == v.len());
        },
        BoardWindowData::SplitHorizontal { valid_combos, .. } => {
            let v = valid_combos->Some_0;
            assert(v@.len() == v.len());
        },
        BoardWindowData::SplitVertical { valid_combos, .. } => {
            let v = valid_combos->Some_0;
            assert(v@.len() == v.len());
        },
    }
}

/// Windows with the same boards show the same boards.
proof fn lemma_same_boards_show(a: BoardWindow, b: BoardWindow, s: spec_fn(spec_fn(Coord) -> bool) -> bool)
    requires
        a.inner == b.inner,
        a.rect == b.rect,
    ensures
        shows_below(a, s) == shows_below(b, s),
        shows_all(a, s) == shows_all(b, s),
{
    assert forall|i: int, q: Coord| #[trigger] board_cell(a, i, q, true) == board_cell(b, i, q, true) by {
        match a.inner {
            BoardWindowData::Leaf { .. } => {},
            _ => {},
        }
    }
    assert(a.padded() == b.padded());
    assert(a.nboards() == b.nboards());
    assert forall|i: int, x: spec_fn(Coord) -> bool| #[trigger] shows(a, i, x) == shows(b, i, x) by {
        if shows(a, i, x) {
            assert forall|q: Coord| #[trigger] b.padded().contains(q) implies board_cell(b, i, q, true) == Some(x(q)) by {
                assert(a.padded().contains(q));
                assert(board_cell(a, i, q, true) == board_cell(b, i, q, true));
            }
        }
        if shows(b, i, x) {
            assert forall|q: Coord| #[trigger] a.padded().contains(q) implies board_cell(a, i, q, true) == Some(x(q)) by {
                assert(b.padded().contains(q));
                assert(board_cell(a, i, q, true) == board_cell(b, i, q, true));
            }
        }
    }
    if shows_all(a, s) {
        assert forall|x: spec_fn(Coord) -> bool| #[trigger] s(x) implies exists|i: int|
            0 <= i < b.nboards()->Some_0 && #[trigger] shows(b, i, x) by {
            let i = choose|i: int| 0 <= i < a.nboards()->Some_0 && #[trigger] shows(a, i, x);
            assert(shows(b, i, x));
        }
    }
    if shows_all(b, s) {
        assert forall|x: spec_fn(Coord) -> bool| #[trigger] s(x) implies exists|i: int|
            0 <= i < a.nboards()->Some_0 && #[trigger] shows(a, i, x) by {
            let i = choose|i: int| 0 <= i < b.nboards()->Some_0 && #[trigger] shows(b, i, x);
            assert(shows(a, i, x));
        }
    }
}

/// Combining without losing boards keeps every board of `s` shown, once every window
/// combined is filled and consistent.
pub proof fn lemma_keeping_shows(new: BoardWindow, old: BoardWindow, s: spec_fn(spec_fn(Coord) -> bool) -> bool)
    requires
        combined_keeping(new, old),
        shows_below(old, s),
        new.inv(),
        exposable(new.rect),
        all_filled(new),
        consistent(new),
    ensures
        shows_below(new, s),
    decreases old,
{
    match (new.inner, old.inner) {
        (BoardWindowData::Leaf { .. }, BoardWindowData::Leaf { .. }) => {
            lemma_same_boards_show(new, old, s);
        },
        (
            BoardWindowData::SplitHorizontal { left: l1, right: r1, valid_combos: c1 },
            BoardWindowData::SplitHorizontal { left: l2, right: r2, valid_combos: c2 },
        ) => {
            if c2 is Some {
                lemma_same_boards_show(new, old, s);
            } else {
                crate::search::lemma_halves_exposable(new);
                lemma_keeping_shows(*l1, *l2, s);
                lemma_keeping_shows(*r1, *r2, s);
                assert forall|x: spec_fn(Coord) -> bool| #[trigger] s(x) implies exists|i: int|
                    0 <= i < new.nboards()->Some_0 && #[trigger] shows(new, i, x) by {
                    assert(shows_all(*l1, s));
                    assert(shows_all(*r1, s));
                    lemma_split_shows(new, x);
                }
            }
        },
        (
            BoardWindowData::SplitVertical { top: t1, bottom: b1, valid_combos: c1 },
            BoardWindowData::SplitVertical { top: t2, bottom: b2, valid_combos: c2 },
        ) => {
            if c2 is Some {
                lemma_same_boards_show(new, old, s);
            } else {
                crate::search::lemma_halves_exposable(new);
                lemma_keeping_shows(*t1, *t2, s);
                lemma_keeping_shows(*b1, *b2, s);
                assert forall|x: spec_fn(Coord) -> bool| #[trigger] s(x) implies exists|i: int|
                    0 <= i < new.nboards()->Some_0 && #[trigger] shows(new, i, x) by {
                    assert(shows_all(*t1, s));
                    assert(shows_all(*b1, s));
                    lemma_split_shows(new, x);
                }
            }
        },
        _ => {},
    }
}

/// Combining without losing boards keeps the tree's shape.
proof fn lemma_keeping_shape(new: BoardWindow, old: BoardWindow)
    requires
        combined_keeping(new, old),
    ensures
        min_leaf(new) == min_leaf(old),
    decreases old,
{
    match (new.inner, old.inner) {
        (
            BoardWindowData::SplitHorizontal { left: l1, right: r1, valid_combos: c1 },
            BoardWindowData::SplitHorizontal { left: l2, right: r2, valid_combos: c2 },
        ) => {
            if c2 is None {
                lemma_keeping_shape(*l1, *l2);
                lemma_keeping_shape(*r1, *r2);
            }
        },
        (
            BoardWindowData::SplitVertical { top: t1, bottom: b1, valid_combos: c1 },
            BoardWindowData::SplitVertical { top: t2, bottom: b2, valid_combos: c2 },
        ) => {
            if c2 is None {
                lemma_keeping_shape(*t1, *t2);
                lemma_keeping_shape(*b1, *b2);
            }
        },
        _ => {},
    }
}

/// Combining the windows at `depth` keeps the tree's shape, sides and sound leaves, leaves
/// the windows above unfilled, and keeps every board of `s` shown.
pub proof fn lemma_keeping_at(
    new: BoardWindow,
    old: BoardWindow,
    depth: nat,
    lut: RuleLut,
    gen0: Grid<Option<CACell>>,
    gen1: Grid<Option<CACell>>,
    root: Rect,
    s: spec_fn(spec_fn(Coord) -> bool) -> bool,
)
    requires
        combined_keeping_at(new, old, depth),
        combined_at(new, old, depth, CombinerCfg::Exhaustive),
        unfilled_above(old, depth),
        new.inv(),
        exposable(new.rect),
        consistent(new),
    ensures
        min_leaf(new) == min_leaf(old),
        unfilled_above(new, depth),
        sides_match(old, root) ==> sides_match(new, root),
        leaves_sound(old, lut, gen0, gen1) ==> leaves_sound(new, lut, gen0, gen1),
        shows_below(old, s) ==> shows_below(new, s),
    decreases depth,
{
    if depth == 0 {
        lemma_keeping_shape(new, old);
        crate::predecessors::lemma_keeping(new, old, lut, gen0, gen1, root);
        if shows_below(old, s) {
            lemma_keeping_shows(new, old, s);
        }
    } else {
        crate::search::lemma_halves_exposable(new);
        match (new.inner, old.inner) {
            (
                BoardWindowData::SplitHorizontal { left: l1, right: r1, .. },
                BoardWindowData::SplitHorizontal { left: l2, right: r2, .. },
            ) => {
                lemma_keeping_at(*l1, *l2, (depth - 1) as nat, lut, gen0, gen1, root, s);
                lemma_keeping_at(*r1, *r2, (depth - 1) as nat, lut, gen0, gen1, root, s);
            },
            (
                BoardWindowData::SplitVertical { top: t1, bottom: b1, .. },
                BoardWindowData::SplitVertical { top: t2, bottom: b2, .. },
            ) => {
                lemma_keeping_at(*t1, *t2, (depth - 1) as nat, lut, gen0, gen1, root, s);
                lemma_keeping_at(*b1, *b2, (depth - 1) as nat, lut, gen0, gen1, root, s);
            },
            _ => {},
        }
    }
}

/// After combining at `depth`, every window there is ready to be culled.
pub proof fn lemma_ready(w: BoardWindow, old: BoardWindow, depth: nat, cfg: CombinerCfg, b: int)
    requires
        combined_at(w, old, depth, cfg),
        w.inv(),
        exposable(w.rect),
        consistent(w),
        leaves_filled(w),
        down_closed(w),
        w.scores_within(b),
        0 <= b,
        b * area(w.rect) <= i32::MAX,
    ensures
        ready_with(w, depth, b),
    decreases depth,
{
    if depth == 0 {
        crate::scores::lemma_within_refl(w.inner);
        assert(window_kept(at_depth(w, depth)[0], at_depth(w, depth)[0], b));
    } else {
        crate::search::lemma_halves_exposable(w);
        match (w.inner, old.inner) {
            (
                BoardWindowData::SplitHorizontal { left: l1, right: r1, .. },
                BoardWindowData::SplitHorizontal { left: l2, right: r2, .. },
            ) => {
                crate::scores::lemma_split_area(w.rect, l1.rect, r1.rect);
                assert(b * area(l1.rect) <= b * area(w.rect) && b * area(r1.rect) <= b * area(w.rect)) by (nonlinear_arith)
                    requires
                        0 <= b,
                        area(l1.rect) <= area(w.rect),
                        area(r1.rect) <= area(w.rect),
                ;
                lemma_ready(*l1, *l2, (depth - 1) as nat, cfg, b);
                lemma_ready(*r1, *r2, (depth - 1) as nat, cfg, b);
                let la = at_depth(*l1, (depth - 1) as nat);
                let ra = at_depth(*r1, (depth - 1) as nat);
                assert forall|k: int| 0 <= k < at_depth(w, depth).len() implies window_kept(
                    #[trigger] at_depth(w, depth)[k],
                    at_depth(w, depth)[k],
                    b,
                ) by {
                    if k < la.len() {
                        assert(at_depth(w, depth)[k] == la[k]);
                    } else {
                        assert(at_depth(w, depth)[k] == ra[k - la.len()]);
                    }
                }
            },
            (
                BoardWindowData::SplitVertical { top: t1, bottom: b1, .. },
                BoardWindowData::SplitVertical { top: t2, bottom: b2, .. },
            ) => {
                crate::scores::lemma_split_area(w.rect, t1.rect, b1.rect);
                assert(b * area(t1.rect) <= b * area(w.rect) && b * area(b1.rect) <= b * area(w.rect)) by (nonlinear_arith)
                    requires
                        0 <= b,
                        area(t1.rect) <= area(w.rect),
                        area(b1.rect) <= area(w.rect),
                ;
                lemma_ready(*t1, *t2, (depth - 1) as nat, cfg, b);
                lemma_ready(*b1, *b2, (depth - 1) as nat, cfg, b);
                let la = at_depth(*t1, (depth - 1) as nat);
                let ra = at_depth(*b1, (depth - 1) as nat);
                assert forall|k: int| 0 <= k < at_depth(w, depth).len() implies window_kept(
                    #[trigger] at_depth(w, depth)[k],
                    at_depth(w, depth)[k],
                    b,
                ) by {
                    if k < la.len() {
                        assert(at_depth(w, depth)[k] == la[k]);
                    } else {
                        assert(at_depth(w, depth)[k] == ra[k - la.len()]);
                    }
                }
            },
            _ => {},
        }
    }
}

/// The windows at a depth of a tree that shows every board of `s` below show them all.
pub proof fn lemma_below_at_depth(w: BoardWindow, depth: nat, s: spec_fn(spec_fn(Coord) -> bool) -> bool, b: int)
    requires
        shows_below(w, s),
        ready_with(w, depth, b),
    ensures
        all_show(at_depth(w, depth), s),
    decreases depth,
{
    if depth == 0 {
        assert(window_kept(at_depth(w, depth)[0], at_depth(w, depth)[0], b));
    } else {
        match w.inner {
            BoardWindowData::SplitHorizontal { left, right, .. } => {
                let la = at_depth(*left, (depth - 1) as nat);
                let ra = at_depth(*right, (depth - 1) as nat);
                assert(ready_with(*left, (depth - 1) as nat, b)) by {
                    assert forall|k: int| 0 <= k < la.len() implies window_kept(#[trigger] la[k], la[k], b) by {
                        assert(at_depth(w, depth)[k] == la[k]);
                    }
                }
                assert(ready_with(*right, (depth - 1) as nat, b)) by {
                    assert forall|k: int| 0 <= k < ra.len() implies window_kept(#[trigger] ra[k], ra[k], b) by {
                        assert(at_depth(w, depth)[k + la.len()] == ra[k]);
                    }
                }
                lemma_below_at_depth(*left, (depth - 1) as nat, s, b);
                lemma_below_at_depth(*right, (depth - 1) as nat, s, b);
                assert forall|k: int| 0 <= k < at_depth(w, depth).len() implies shows_all(#[trigger] at_depth(w, depth)[k], s) by {
                    if k < la.len() {
                        assert(at_depth(w, depth)[k] == la[k]);
                    } else {
                        assert(at_depth(w, depth)[k] == ra[k - la.len()]);
                    }
                }
            },
            BoardWindowData::SplitVertical { top, bottom, .. } => {
                let la = at_depth(*top, (depth - 1) as nat);
                let ra = at_depth(*bottom, (depth - 1) as nat);
                assert(ready_with(*top, (depth - 1) as nat, b)) by {
                    assert forall|k: int| 0 <= k < la.len() implies window_kept(#[trigger] la[k], la[k], b) by {
                        assert(at_depth(w, depth)[k] == la[k]);
                    }
                }
                assert(ready_with(*bottom, (depth - 1) as nat, b)) by {
                    assert forall|k: int| 0 <= k < ra.len() implies window_kept(#[trigger] ra[k], ra[k], b) by {
                        assert(at_depth(w, depth)[k + la.len()] == ra[k]);
                    }
                }
                lemma_below_at_depth(*top, (depth - 1) as nat, s, b);
                lemma_below_at_depth(*bottom, (depth - 1) as nat, s, b);
                assert forall|k: int| 0 <= k < at_depth(w, depth).len() implies shows_all(#[trigger] at_depth(w, depth)[k], s) by {
                    if k < la.len() {
                        assert(at_depth(w, depth)[k] == la[k]);
                    } else {
                        assert(at_depth(w, depth)[k] == ra[k - la.len()]);
                    }
                }
            },
            _ => {},
        }
    }
}

/// The windows at a depth of a tree whose scores lie within a bound have theirs there too.
pub proof fn lemma_within_at_depth(w: BoardWindow, depth: nat, b: int)
    requires
        w.scores_within(b),
    ensures
        all_within(at_depth(w, depth), b),
    decreases depth,
{
    if depth > 0 {
        match w.inner {
            BoardWindowData::SplitHorizontal { left, right, .. } => {
                lemma_within_at_depth(*left, (depth - 1) as nat, b);
                lemma_within_at_depth(*right, (depth - 1) as nat, b);
                let la = at_depth(*left, (depth - 1) as nat);
                let ra = at_depth(*right, (depth - 1) as nat);
                assert forall|k: int| 0 <= k < at_depth(w, depth).len() implies (#[trigger] at_depth(w, depth)[k]).scores_within(b) by {
                    if k < la.len() {
                        assert(at_depth(w, depth)[k] == la[k]);
                    } else {
                        assert(at_depth(w, depth)[k] == ra[k - la.len()]);
                    }
                }
            },
            BoardWindowData::SplitVertical { top, bottom, .. } => {
                lemma_within_at_depth(*top, (depth - 1) as nat, b);
                lemma_within_at_depth(*bottom, (depth - 1) as nat, b);
                let la = at_depth(*top, (depth - 1) as nat);
                let ra = at_depth(*bottom, (depth - 1) as nat);
                assert forall|k: int| 0 <= k < at_depth(w, depth).len() implies (#[trigger] at_depth(w, depth)[k]).scores_within(b) by {
                    if k < la.len() {
                        assert(at_depth(w, depth)[k] == la[k]);
                    } else {
                        assert(at_depth(w, depth)[k] == ra[k - la.len()]);
                    }
                }
            },
            _ => {
                assert(at_depth(w, depth).len() == 0);
            },
        }
    }
}

/// Windows above one depth stay unfilled above the next depth up.
pub proof fn lemma_unfilled_step(w: BoardWindow, depth: nat)
    requires
        unfilled_above(w, depth),
        depth > 0,
    ensures
        unfilled_above(w, (depth - 1) as nat),
    decreases depth,
{
    if depth > 1 {
        match w.inner {
            BoardWindowData::SplitHorizontal { left, right, .. } => {
                lemma_unfilled_step(*left, (depth - 1) as nat);
                lemma_unfilled_step(*right, (depth - 1) as nat);
            },
            BoardWindowData::SplitVertical { top, bottom, .. } => {
                lemma_unfilled_step(*top, (depth - 1) as nat);
                lemma_unfilled_step(*bottom, (depth - 1) as nat);
            },
            _ => {},
        }
    }
}

/// Putting culled windows back at `depth` keeps the tree's shape, sides and sound
/// leaves, leaves the windows above unfilled, and keeps every board of `s` shown when
/// the culled windows still show them.
pub proof fn lemma_culled(
    old: BoardWindow,
    depth: nat,
    ws: Seq<BoardWindow>,
    b: int,
    lut: RuleLut,
    gen0: Grid<Option<CACell>>,
    gen1: Grid<Option<CACell>>,
    root: Rect,
    s: spec_fn(spec_fn(Coord) -> bool) -> bool,
)
    requires
        fit_in(old, depth, ws),
        forall|k: int| 0 <= k < ws.len() ==> window_kept(#[trigger] ws[k], at_depth(old, depth)[k], b),
        unfilled_above(old, depth),
    ensures
        min_leaf(replaced(old, depth, ws)) == min_leaf(old),
        unfilled_above(replaced(old, depth, ws), depth),
        sides_match(old, root) ==> sides_match(replaced(old, depth, ws), root),
        leaves_sound(old, lut, gen0, gen1) ==> leaves_sound(replaced(old, depth, ws), lut, gen0, gen1),
        shows_below(old, s) && all_show(ws, s) ==> shows_below(replaced(old, depth, ws), s),
    decreases depth,
{
    if depth == 0 {
        let n = ws[0];
        assert(at_depth(old, depth)[0] == old);
        assert(window_kept(n, old, b));
        if leaves_sound(old, lut, gen0, gen1) {
            crate::predecessors::lemma_within_sound(n, old, lut, gen0, gen1);
        }
        if shows_below(old, s) && all_show(ws, s) {
            assert(shows_all(n, s));
        }
    } else {
        match old.inner {
            BoardWindowData::SplitHorizontal { left, right, .. } => {
                let na = at_depth(*left, (depth - 1) as nat).len() as int;
                let (wl, wr) = (ws.take(na), ws.skip(na));
                let at = at_depth(old, depth);
                assert forall|k: int| 0 <= k < wl.len() implies window_kept(#[trigger] wl[k], at_depth(*left, (depth - 1) as nat)[k], b) by {
                    assert(wl[k] == ws[k]);
                    assert(at[k] == at_depth(*left, (depth - 1) as nat)[k]);
                }
                assert forall|k: int| 0 <= k < wr.len() implies window_kept(#[trigger] wr[k], at_depth(*right, (depth - 1) as nat)[k], b) by {
                    assert(wr[k] == ws[k + na]);
                    assert(at[k + na] == at_depth(*right, (depth - 1) as nat)[k]);
                }
                assert(fit_in(*left, (depth - 1) as nat, wl)) by {
                    assert forall|k: int| 0 <= k < wl.len() implies (#[trigger] wl[k]).inv() by {
                        assert(window_kept(wl[k], at_depth(*left, (depth - 1) as nat)[k], b));
                    }
                }
                assert(fit_in(*right, (depth - 1) as nat, wr)) by {
                    assert forall|k: int| 0 <= k < wr.len() implies (#[trigger] wr[k]).inv() by {
                        assert(window_kept(wr[k], at_depth(*right, (depth - 1) as nat)[k], b));
                    }
                }
                if all_show(ws, s) {
                    assert(all_show(wl, s)) by {
                        assert forall|k: int| 0 <= k < wl.len() implies shows_all(#[trigger] wl[k], s) by {
                            assert(wl[k] == ws[k]);
                        }
                    }
                    assert(all_show(wr, s)) by {
                        assert forall|k: int| 0 <= k < wr.len() implies shows_all(#[trigger] wr[k], s) by {
                            assert(wr[k] == ws[k + na]);
                        }
                    }
                }
                lemma_culled(*left, (depth - 1) as nat, wl, b, lut, gen0, gen1, root, s);
                lemma_culled(*right, (depth - 1) as nat, wr, b, lut, gen0, gen1, root, s);
            },
            BoardWindowData::SplitVertical { top, bottom, .. } => {
                let na = at_depth(*top, (depth - 1) as nat).len() as int;
                let (wl, wr) = (ws.take(na), ws.skip(na));
                let at = at_depth(old, depth);
                assert forall|k: int| 0 <= k < wl.len() implies window_kept(#[trigger] wl[k], at_depth(*top, (depth - 1) as nat)[k], b) by {
                    assert(wl[k] == ws[k]);
                    assert(at[k] == at_depth(*top, (depth - 1) as nat)[k]);
                }
                assert forall|k: int| 0 <= k < wr.len() implies window_kept(#[trigger] wr[k], at_depth(*bottom, (depth - 1) as nat)[k], b) by {
                    assert(wr[k] == ws[k + na]);
                    assert(at[k + na] == at_depth(*bottom, (depth - 1) as nat)[k]);
                }
                assert(fit_in(*top, (depth - 1) as nat, wl)) by {
                    assert forall|k: int| 0 <= k < wl.len() implies (#[trigger] wl[k]).inv() by {
                        assert(window_kept(wl[k], at_depth(*top, (depth - 1) as nat)[k], b));
                    }
                }
                assert(fit_in(*bottom, (depth - 1) as nat, wr)) by {
                    assert forall|k: int| 0 <= k < wr.len() implies (#[trigger] wr[k]).inv() by {
                        assert(window_kept(wr[k], at_depth(*bottom, (depth - 1) as nat)[k], b));
                    }
                }
                if all_show(ws, s) {
                    assert(all_show(wl, s)) by {
                        assert forall|k: int| 0 <= k < wl.len() implies shows_all(#[trigger] wl[k], s) by {
                            assert(wl[k] == ws[k]);
                        }
                    }
                    assert(all_show(wr, s)) by {
                        assert forall|k: int| 0 <= k < wr.len() implies shows_all(#[trigger] wr[k], s) by {
                            assert(wr[k] == ws[k + na]);
                        }
                    }
                }
                lemma_culled(*top, (depth - 1) as nat, wl, b, lut, gen0, gen1, root, s);
                lemma_culled(*bottom, (depth - 1) as nat, wr, b, lut, gen0, gen1, root, s);
            },
            _ => {},
        }
    }
}

/// A tree with no combination yet is unfilled above its shallowest leaf.
proof fn lemma_no_combos_unfilled(w: BoardWindow, depth: nat)
    requires
        no_combos(w),
        depth <= min_leaf(w),
    ensures
        unfilled_above(w, depth),
    decreases depth,
{
    if depth > 0 {
        match w.inner {
            BoardWindowData::SplitHorizontal { left, right, .. } => {
                lemma_no_combos_unfilled(*left, (depth - 1) as nat);
                lemma_no_combos_unfilled(*right, (depth - 1) as nat);
            },
            BoardWindowData::SplitVertical { top, bottom, .. } => {
                lemma_no_combos_unfilled(*top, (depth - 1) as nat);
                lemma_no_combos_unfilled(*bottom, (depth - 1) as nat);
            },
            _ => {},
        }
    }
}

/// Once the leaves hold every board they admit, each leaf shows every predecessor.
proof fn lemma_leaves_show(
    w: BoardWindow,
    root: Rect,
    lut: RuleLut,
    gen0: Grid<Option<CACell>>,
    gen1: Grid<Option<CACell>>,
)
    requires
        w.inv(),
        exposable(w.rect),
        sides_match(w, root),
        leaves_complete(w, lut, gen0, gen1),
        no_combos(w),
    ensures
        shows_below(w, |b: spec_fn(Coord) -> bool| is_predecessor(lut, gen0, gen1, root, b)),
    decreases w,
{
    let p = |b: spec_fn(Coord) -> bool| is_predecessor(lut, gen0, gen1, root, b);
    match w.inner {
        BoardWindowData::Leaf { .. } => {
            assert forall|b: spec_fn(Coord) -> bool| #[trigger] p(b) implies exists|i: int|
                0 <= i < w.nboards()->Some_0 && #[trigger] shows(w, i, b) by {
                lemma_predecessor_admitted(w, root, lut, gen0, gen1, b);
                law_predecessors_are_found(w, lut, gen0, gen1, b);
            }
        },
        BoardWindowData::SplitHorizontal { left, right, .. } => {
            crate::search::lemma_halves_exposable(w);
            lemma_leaves_show(*left, root, lut, gen0, gen1);
            lemma_leaves_show(*right, root, lut, gen0, gen1);
        },
        BoardWindowData::SplitVertical { top, bottom, .. } => {
            crate::search::lemma_halves_exposable(w);
            lemma_leaves_show(*top, root, lut, gen0, gen1);
            lemma_leaves_show(*bottom, root, lut, gen0, gen1);
        },
    }
}

/// Searches for the predecessors of `gen1` as `exhaustive_search` does, but culls the
/// windows at each depth, from the shallowest leaf up, once they are combined: a board
/// goes when it has no partner in a neighbouring window, until no round removes one.
/// Culling never removes a predecessor: `Ok(w)` holds exactly the boards that
/// `exhaustive_search` would give, each a predecessor and every predecessor among them.
/// `Err(w)` when some split has more pairs of boards than a list can hold.
pub fn exhaustive_search_culled(lut: &RuleLut, gen0: &Grid<Option<CACell>>, gen1: &Grid<Option<CACell>>) -> (r: Result<
    BoardWindow,
    BoardWindow,
>)
    requires
        lut.wf(),
        gen0.wf(),
        gen1.wf(),
        gen0.size == gen1.size,
        rect_in_range(gen1.size),
        exposable(gen1.size),
        exists|b: int| 0 <= b && b * area(gen1.size) <= i32::MAX && #[trigger] costs_within(*lut, b),
    ensures
        r matches Ok(w) ==> {
            &&& w.inv()
            &&& w.rect == gen1.size
            &&& all_filled(w)
            &&& forall|i: int|
                0 <= i < w.nboards()->Some_0 ==> is_predecessor(*lut, *gen0, *gen1, gen1.size, #[trigger] board_of(w, i))
            &&& forall|b: spec_fn(Coord) -> bool| #[trigger]
                is_predecessor(*lut, *gen0, *gen1, gen1.size, b) ==> exists|i: int|
                    0 <= i < w.nboards()->Some_0 && #[trigger] shows(w, i, b)
        },
        r matches Err(w) ==> w.inv() && w.rect == gen1.size && some_split_overflows(w),
{
    let root = gen1.size;
    let all = Directions::all();
    let ih = root.height() as u64;
    let iw = root.width() as u64;
    let mut w = BoardWindow::new(root, all, ih, iw);
    let ghost w0 = w;
    let ghost p = |b: spec_fn(Coord) -> bool| is_predecessor(*lut, *gen0, *gen1, root, b);
    proof {
        lemma_built_fresh(w0, root, all, ih, iw);
        lemma_built_sides(w0, root, all, ih, iw, root);
    }
    let _ = w.fill_leaves(lut, gen0, gen1);
    let ghost b0 = choose|b: int| 0 <= b && b * area(gen1.size) <= i32::MAX && #[trigger] costs_within(*lut, b);
    let top = w.min_leaf_depth();
    proof {
        lemma_filled_leaves(w, w0, *lut, *gen0, *gen1);
        lemma_filled_ready(w, w0, *lut, *gen0, *gen1, root);
        assert(w.scores_within(b0));
        lemma_leaves_show(w, root, *lut, *gen0, *gen1);
        lemma_no_combos_unfilled(w, top as nat);
    }
    let mut d = top;
    while d > 0
        invariant
            lut.wf(),
            root == gen1.size,
            w.inv(),
            w.rect == root,
            exposable(root),
            leaves_filled(w),
            consistent(w),
            down_closed(w),
            0 <= b0,
            b0 * area(root) <= i32::MAX,
            w.scores_within(b0),
            min_leaf(w) == top,
            d <= top,
            unfilled_above(w, d as nat),
            sides_match(w, root),
            leaves_sound(w, *lut, *gen0, *gen1),
            shows_below(w, p),
        decreases d,
    {
        let ghost before = w;
        match fill_combinations(&mut w, d, &CombinerCfg::Exhaustive) {
            None => {
                return Err(w);
            },
            Some(()) => {},
        }
        let ghost mid = w;
        proof {
            lemma_keeping_at(mid, before, d as nat, *lut, *gen0, *gen1, root, p);
            lemma_ready(mid, before, d as nat, CombinerCfg::Exhaustive, b0);
            lemma_below_at_depth(mid, d as nat, p, b0);
            lemma_within_at_depth(mid, d as nat, b0);
        }
        let _ = extract_and_cull(&mut w, d);
        proof {
            let bb = choose|bb: int| ready_with(mid, d as nat, bb) && #[trigger] culled_at(w, mid, d as nat, bb);
            let ws = choose|ws: Seq<BoardWindow>|
                #[trigger] fit_in(mid, d as nat, ws) && w == replaced(mid, d as nat, ws) && forall|k: int|
                    0 <= k < ws.len() ==> window_kept(#[trigger] ws[k], at_depth(mid, d as nat)[k], bb);
            lemma_at_depth_replaced(mid, d as nat, ws);
            assert(all_show(ws, p));
            assert(all_within(ws, b0));
            lemma_culled(mid, d as nat, ws, bb, *lut, *gen0, *gen1, root, p);
            crate::layers::lemma_replaced_keeps(mid, d as nat, ws);
            assert forall|k: int| 0 <= k < ws.len() implies #[trigger] ws[k].scores_within(b0) by {
                assert(at_depth(w, d as nat)[k] == ws[k]);
            }
            lemma_unfilled_step(w, d as nat);
        }
        d = d - 1;
    }
    let ghost last = w;
    match fill_all_combinations(&mut w, &CombinerCfg::Exhaustive) {
        None => Err(w),
        Some(()) => {
            proof {
                lemma_keeping(w, last, *lut, *gen0, *gen1, root);
                lemma_keeping_shows(w, last, p);
                assert forall|i: int| 0 <= i < w.nboards()->Some_0 implies is_predecessor(
                    *lut,
                    *gen0,
                    *gen1,
                    root,
                    #[trigger] board_of(w, i),
                ) by {
                    lemma_board_is_predecessor(w, root, *lut, *gen0, *gen1, i);
                }
                assert forall|b: spec_fn(Coord) -> bool| #[trigger]
                    is_predecessor(*lut, *gen0, *gen1, root, b) implies exists|i: int|
                    0 <= i < w.nboards()->Some_0 && #[trigger] shows(w, i, b) by {
                    assert(p(b));
                }
            }
            Ok(w)
        },
    }
}

} // verus!
