//! What the boards of a window are: every board is a predecessor of the target, and an
//! exhaustive search lists every predecessor.
use vstd::prelude::*;
use crate::basic_grids::{cell_index, spec_opposite, Coord, Direction, Directions, Grid, Rect};
use crate::bits::{bit, fits};
use crate::board::{
    exposable, exposure_rect_of, lemma_fits_nine, lists_all_fitting, padded_of, BoardWindow, BoardWindowData,
};
use crate::ca::{cell_u8, preds_upto, CACell, RuleLut};
use crate::extract::board_cell;
use crate::leaves::{candidate, candidates, considered, filled, grid_cell};
use crate::packed::{
    lemma_pack_rect, lemma_packed_join_cells, lemma_packed_trim_cells, lemma_packs_unique, pack_rect, packs,
    PackedCells,
};
use crate::board::{built, rect_in_range};
use crate::leaves::{costs_within, covers, fresh, side_ok};
use crate::scores::area;
use crate::search::{
    all_filled, combined_keeping, consistent, down_closed, fill_all_combinations, leaves_filled, some_split_overflows,
    CombinerCfg,
};

verus! {

/// The cells written by board `i` of a filled window are exactly those of its padded
/// rectangle.
pub proof fn lemma_cell_domain(w: BoardWindow, i: int, q: Coord)
    requires
        w.inv(),
        all_filled(w),
        0 <= i < w.nboards()->Some_0,
    ensures
        board_cell(w, i, q, true) is Some <==> w.padded().contains(q),
    decreases w,
{
    match w.inner {
        BoardWindowData::Leaf { .. } => {},
        BoardWindowData::SplitHorizontal { left, right, valid_combos } => {
            let vc = valid_combos->Some_0;
            lemma_cell_domain(*left, vc@[i].0 as int, q);
            lemma_cell_domain(*right, vc@[i].1 as int, q);
        },
        BoardWindowData::SplitVertical { top, bottom, valid_combos } => {
            let vc = valid_combos->Some_0;
            lemma_cell_domain(*top, vc@[i].0 as int, q);
            lemma_cell_domain(*bottom, vc@[i].1 as int, q);
        },
    }
}

/// The exposure of board `i` along side `d` packs the board's own cells in that strip.
pub proof fn lemma_exposure_cells(w: BoardWindow, i: int, d: Direction)
    requires
        w.inv(),
        exposable(w.rect),
        all_filled(w),
        consistent(w),
        0 <= i < w.nboards()->Some_0,
    ensures
        w.exposure(i, d) is Some,
        w.exposure(i, d)->Some_0.fits_rect(exposure_rect_of(w.rect, d)),
        forall|q: Coord| #[trigger]
            exposure_rect_of(w.rect, d).contains(q) ==> board_cell(w, i, q, true) == Some(
                w.exposure(i, d)->Some_0.cell(exposure_rect_of(w.rect, d), q),
            ),
    decreases w, 1int,
{
    let er = exposure_rect_of(w.rect, d);
    match w.inner {
        BoardWindowData::Leaf { valid_boards } => {
            let v = valid_boards->Some_0@[i];
            lemma_fits_nine(v.0);
            assert(w.padded().spec_width() == 3 && w.padded().spec_height() == 3);
            assert(w.padded().small());
            assert(v.fits_rect(w.padded()));
            assert(w.padded().trimmed(spec_opposite(d), 1) == er);
            lemma_packed_trim_cells(v, w.padded(), spec_opposite(d), 1);
            let e = crate::packed::packed_trim(v, w.padded(), spec_opposite(d), 1);
            assert(w.exposure(i, d) == Some(e));
            assert forall|q: Coord| #[trigger] er.contains(q) implies board_cell(w, i, q, true) == Some(e.cell(er, q)) by {
                assert(w.padded().trimmed(spec_opposite(d), 1).contains(q));
                assert(w.padded().contains(q));
            }
        },
        BoardWindowData::SplitHorizontal { left, right, valid_combos } => {
            let vc = valid_combos->Some_0;
            let (i1, i2) = (vc@[i].0 as int, vc@[i].1 as int);
            lemma_split_agrees(w, i);
            lemma_exposure_cells(*left, i1, d);
            lemma_exposure_cells(*right, i2, d);
            match d {
                Direction::Left => {
                    assert(exposure_rect_of(left.rect, d) == er);
                    assert forall|q: Coord| #[trigger] er.contains(q) implies board_cell(w, i, q, true) == Some(
                        w.exposure(i, d)->Some_0.cell(er, q),
                    ) by {
                        assert(exposure_rect_of(left.rect, d).contains(q));
                        assert(left.padded().contains(q));
                    }
                },
                Direction::Right => {
                    assert(exposure_rect_of(right.rect, d) == er);
                    assert forall|q: Coord| #[trigger] er.contains(q) implies board_cell(w, i, q, true) == Some(
                        w.exposure(i, d)->Some_0.cell(er, q),
                    ) by {
                        assert(exposure_rect_of(right.rect, d).contains(q));
                        assert(right.padded().contains(q));
                    }
                },
                _ => {
                    let a = left.exposure(i1, d)->Some_0;
                    let b = right.exposure(i2, d)->Some_0;
                    let le = exposure_rect_of(left.rect, d);
                    let lt = le.trimmed(Direction::Right, 2);
                    let re = exposure_rect_of(right.rect, d);
                    assert(le.spec_height() == 2 && le.spec_width() <= 63 && le.spec_width() >= 3);
                    assert(le.spec_width() * le.spec_height() < 128) by (nonlinear_arith)
                        requires
                            le.spec_height() == 2,
                            le.spec_width() <= 63,
                    ;
                    lemma_packed_trim_cells(a, le, Direction::Right, 2);
                    let ta = crate::packed::packed_trim(a, le, Direction::Right, 2);
                    assert(crate::packed::joined_rect(lt, re, Direction::Right) == er);
                    lemma_packed_join_cells(ta, b, lt, re, Direction::Right);
                    let e = crate::packed::packed_join(ta, b, lt, re, Direction::Right);
                    assert(w.exposure(i, d) == Some(e));
                    assert forall|q: Coord| #[trigger] er.contains(q) implies board_cell(w, i, q, true) == Some(
                        e.cell(er, q),
                    ) by {
                        assert(crate::packed::joined_rect(lt, re, Direction::Right).contains(q));
                        if lt.contains(q) {
                            assert(le.trimmed(Direction::Right, 2).contains(q));
                            assert(le.contains(q));
                            assert(left.padded().contains(q));
                        } else {
                            assert(re.contains(q));
                            assert(right.padded().contains(q));
                        }
                    }
                },
            }
        },
        BoardWindowData::SplitVertical { top, bottom, valid_combos } => {
            let vc = valid_combos->Some_0;
            let (i1, i2) = (vc@[i].0 as int, vc@[i].1 as int);
            lemma_split_agrees(w, i);
            lemma_exposure_cells(*top, i1, d);
            lemma_exposure_cells(*bottom, i2, d);
            match d {
                Direction::Up => {
                    assert(exposure_rect_of(top.rect, d) == er);
                    assert forall|q: Coord| #[trigger] er.contains(q) implies board_cell(w, i, q, true) == Some(
                        w.exposure(i, d)->Some_0.cell(er, q),
                    ) by {
                        assert(exposure_rect_of(top.rect, d).contains(q));
                        assert(top.padded().contains(q));
                    }
                },
                Direction::Down => {
                    assert(exposure_rect_of(bottom.rect, d) == er);
                    assert forall|q: Coord| #[trigger] er.contains(q) implies board_cell(w, i, q, true) == Some(
                        w.exposure(i, d)->Some_0.cell(er, q),
                    ) by {
                        assert(exposure_rect_of(bottom.rect, d).contains(q));
                        assert(bottom.padded().contains(q));
                    }
                },
                _ => {
                    let a = top.exposure(i1, d)->Some_0;
                    let b = bottom.exposure(i2, d)->Some_0;
                    let te = exposure_rect_of(top.rect, d);
                    let tt = te.trimmed(Direction::Down, 2);
                    let be = exposure_rect_of(bottom.rect, d);
                    assert(te.spec_width() == 2 && te.spec_height() <= 63 && te.spec_height() >= 3);
                    assert(te.spec_width() * te.spec_height() < 128) by (nonlinear_arith)
                        requires
                            te.spec_width() == 2,
                            te.spec_height() <= 63,
                    ;
                    lemma_packed_trim_cells(a, te, Direction::Down, 2);
                    let ta = crate::packed::packed_trim(a, te, Direction::Down, 2);
                    assert(crate::packed::joined_rect(tt, be, Direction::Down) == er);
                    lemma_packed_join_cells(ta, b, tt, be, Direction::Down);
                    let e = crate::packed::packed_join(ta, b, tt, be, Direction::Down);
                    assert(w.exposure(i, d) == Some(e));
                    assert forall|q: Coord| #[trigger] er.contains(q) implies board_cell(w, i, q, true) == Some(
                        e.cell(er, q),
                    ) by {
                        assert(crate::packed::joined_rect(tt, be, Direction::Down).contains(q));
                        if tt.contains(q) {
                            assert(te.trimmed(Direction::Down, 2).contains(q));
                            assert(te.contains(q));
                            assert(top.padded().contains(q));
                        } else {
                            assert(be.contains(q));
                            assert(bottom.padded().contains(q));
                        }
                    }
                },
            }
        },
    }
}

/// Board `i` of a split shows, on the padded rectangle of each part, that part's board:
/// where the two overlap they agree, since their boards fit together.
pub proof fn lemma_split_agrees(w: BoardWindow, i: int)
    requires
        w.inv(),
        exposable(w.rect),
        all_filled(w),
        consistent(w),
        0 <= i < w.nboards()->Some_0,
    ensures
        w.inner matches BoardWindowData::SplitHorizontal { left, right, valid_combos } ==> forall|q: Coord|
            #![trigger board_cell(w, i, q, true)]
            {
                &&& left.padded().contains(q) ==> board_cell(w, i, q, true) == board_cell(
                    *left,
                    valid_combos->Some_0@[i].0 as int,
                    q,
                    true,
                )
                &&& right.padded().contains(q) ==> board_cell(w, i, q, true) == board_cell(
                    *right,
                    valid_combos->Some_0@[i].1 as int,
                    q,
                    true,
                )
            },
        w.inner matches BoardWindowData::SplitVertical { top, bottom, valid_combos } ==> forall|q: Coord|
            #![trigger board_cell(w, i, q, true)]
            {
                &&& top.padded().contains(q) ==> board_cell(w, i, q, true) == board_cell(
                    *top,
                    valid_combos->Some_0@[i].0 as int,
                    q,
                    true,
                )
                &&& bottom.padded().contains(q) ==> board_cell(w, i, q, true) == board_cell(
                    *bottom,
                    valid_combos->Some_0@[i].1 as int,
                    q,
                    true,
                )
            },
    decreases w, 0int,
{
    match w.inner {
        BoardWindowData::Leaf { .. } => {},
        BoardWindowData::SplitHorizontal { left, right, valid_combos } => {
            let vc = valid_combos->Some_0;
            let (i1, i2) = (vc@[i].0 as int, vc@[i].1 as int);
            assert(crate::board::fits_together(*left, Direction::Right, *right, vc@[i]));
            lemma_exposure_cells(*left, i1, Direction::Right);
            lemma_exposure_cells(*right, i2, Direction::Left);
            let strip = exposure_rect_of(left.rect, Direction::Right);
            assert(strip == exposure_rect_of(right.rect, Direction::Left));
            assert forall|q: Coord| #![trigger board_cell(w, i, q, true)] left.padded().contains(q) implies board_cell(
                w,
                i,
                q,
                true,
            ) == board_cell(*left, i1, q, true) by {
                lemma_cell_domain(*right, i2, q);
                if right.padded().contains(q) {
                    assert(strip.contains(q));
                }
            }
            assert forall|q: Coord| #![trigger board_cell(w, i, q, true)] right.padded().contains(q) implies board_cell(
                w,
                i,
                q,
                true,
            ) == board_cell(*right, i2, q, true) by {
                lemma_cell_domain(*right, i2, q);
            }
        },
        BoardWindowData::SplitVertical { top, bottom, valid_combos } => {
            let vc = valid_combos->Some_0;
            let (i1, i2) = (vc@[i].0 as int, vc@[i].1 as int);
            assert(crate::board::fits_together(*top, Direction::Down, *bottom, vc@[i]));
            lemma_exposure_cells(*top, i1, Direction::Down);
            lemma_exposure_cells(*bottom, i2, Direction::Up);
            let strip = exposure_rect_of(top.rect, Direction::Down);
            assert(strip == exposure_rect_of(bottom.rect, Direction::Up));
            assert forall|q: Coord| #![trigger board_cell(w, i, q, true)] top.padded().contains(q) implies board_cell(
                w,
                i,
                q,
                true,
            ) == board_cell(*top, i1, q, true) by {
                lemma_cell_domain(*bottom, i2, q);
                if bottom.padded().contains(q) {
                    assert(strip.contains(q));
                }
            }
            assert forall|q: Coord| #![trigger board_cell(w, i, q, true)] bottom.padded().contains(q) implies board_cell(
                w,
                i,
                q,
                true,
            ) == board_cell(*bottom, i2, q, true) by {
                lemma_cell_domain(*bottom, i2, q);
            }
        },
    }
}

/// The window of the single cell `c`.
pub open spec fn cell_rect(c: Coord) -> Rect {
    Rect { top: c.y, left: c.x, bottom: (c.y + 1) as i32, right: (c.x + 1) as i32 }
}

/// `pred` may stand at the leaf of cell `c` whose forced-dead sides are `fd`: one of the
/// neighbourhoods considered for `c` that passes the leaf's tests.
pub open spec fn leaf_admits(
    lut: RuleLut,
    gen0: Grid<Option<CACell>>,
    gen1: Grid<Option<CACell>>,
    fd: Directions,
    c: Coord,
    pred: PackedCells,
) -> bool {
    &&& considered(lut, grid_cell(gen1, c)).contains(pred)
    &&& candidate(lut, grid_cell(gen0, c), fd, pred)
}

/// The cell of a leaf.
pub open spec fn leaf_cell(w: BoardWindow) -> Coord {
    Coord { x: w.rect.left, y: w.rect.top }
}

/// Every board of every leaf below `w` is admitted at the leaf.
pub open spec fn leaves_sound(w: BoardWindow, lut: RuleLut, gen0: Grid<Option<CACell>>, gen1: Grid<Option<CACell>>) -> bool
    decreases w,
{
    match w.inner {
        BoardWindowData::Leaf { valid_boards } => valid_boards matches Some(v) ==> forall|k: int|
            0 <= k < v@.len() ==> leaf_admits(lut, gen0, gen1, w.forced_dead, leaf_cell(w), #[trigger] v@[k]),
        BoardWindowData::SplitHorizontal { left, right, .. } => leaves_sound(*left, lut, gen0, gen1) && leaves_sound(
            *right,
            lut,
            gen0,
            gen1,
        ),
        BoardWindowData::SplitVertical { top, bottom, .. } => leaves_sound(*top, lut, gen0, gen1) && leaves_sound(
            *bottom,
            lut,
            gen0,
            gen1,
        ),
    }
}

/// Every leaf below `w` holds every neighbourhood it admits.
pub open spec fn leaves_complete(w: BoardWindow, lut: RuleLut, gen0: Grid<Option<CACell>>, gen1: Grid<Option<CACell>>) -> bool
    decreases w,
{
    match w.inner {
        BoardWindowData::Leaf { valid_boards } => valid_boards matches Some(v) && forall|pred: PackedCells|
            #[trigger] leaf_admits(lut, gen0, gen1, w.forced_dead, leaf_cell(w), pred) ==> v@.contains(pred),
        BoardWindowData::SplitHorizontal { left, right, .. } => leaves_complete(*left, lut, gen0, gen1)
            && leaves_complete(*right, lut, gen0, gen1),
        BoardWindowData::SplitVertical { top, bottom, .. } => leaves_complete(*top, lut, gen0, gen1)
            && leaves_complete(*bottom, lut, gen0, gen1),
    }
}

/// Every split below `w` lists every pair of its parts' boards that fit together.
pub open spec fn all_listed(w: BoardWindow) -> bool
    decreases w,
{
    match w.inner {
        BoardWindowData::Leaf { .. } => true,
        BoardWindowData::SplitHorizontal { left, right, valid_combos } => all_listed(*left) && all_listed(*right) && (
        valid_combos matches Some(v) && lists_all_fitting(v@, *left, Direction::Right, *right)),
        BoardWindowData::SplitVertical { top, bottom, valid_combos } => all_listed(*top) && all_listed(*bottom) && (
        valid_combos matches Some(v) && lists_all_fitting(v@, *top, Direction::Down, *bottom)),
    }
}

/// The board `b` (a state for every cell) is admitted at every leaf below `w`.
pub open spec fn admitted_everywhere(
    w: BoardWindow,
    lut: RuleLut,
    gen0: Grid<Option<CACell>>,
    gen1: Grid<Option<CACell>>,
    b: spec_fn(Coord) -> bool,
) -> bool
    decreases w,
{
    match w.inner {
        BoardWindowData::Leaf { .. } => leaf_admits(
            lut,
            gen0,
            gen1,
            w.forced_dead,
            leaf_cell(w),
            PackedCells(pack_rect(w.padded(), b)),
        ),
        BoardWindowData::SplitHorizontal { left, right, .. } => admitted_everywhere(*left, lut, gen0, gen1, b)
            && admitted_everywhere(*right, lut, gen0, gen1, b),
        BoardWindowData::SplitVertical { top, bottom, .. } => admitted_everywhere(*top, lut, gen0, gen1, b)
            && admitted_everywhere(*bottom, lut, gen0, gen1, b),
    }
}

/// Whether side `d` of `r` lies on side `d` of `root`.
pub open spec fn on_side(r: Rect, d: Direction, root: Rect) -> bool {
    match d {
        Direction::Up => r.top == root.top,
        Direction::Down => r.bottom == root.bottom,
        Direction::Left => r.left == root.left,
        Direction::Right => r.right == root.right,
    }
}

/// The sides of `root` that the cell `c` lies on.
pub open spec fn edge_sides(root: Rect, c: Coord) -> Directions {
    Directions { up: c.y == root.top, down: c.y + 1 == root.bottom, left: c.x == root.left, right: c.x + 1 == root.right }
}

/// Every window below `w` lies in `root`, with exactly those of its sides forced dead
/// that lie on the sides of `root`.
pub open spec fn sides_match(w: BoardWindow, root: Rect) -> bool
    decreases w,
{
    &&& root.top <= w.rect.top
    &&& w.rect.bottom <= root.bottom
    &&& root.left <= w.rect.left
    &&& w.rect.right <= root.right
    &&& forall|d: Direction| #[trigger] w.forced_dead.has(d) == on_side(w.rect, d, root)
    &&& match w.inner {
        BoardWindowData::Leaf { .. } => true,
        BoardWindowData::SplitHorizontal { left, right, .. } => sides_match(*left, root) && sides_match(*right, root),
        BoardWindowData::SplitVertical { top, bottom, .. } => sides_match(*top, root) && sides_match(*bottom, root),
    }
}

/// The forced-dead sides of a single-cell window whose sides match `root`.
proof fn lemma_leaf_sides(w: BoardWindow, root: Rect)
    requires
        w.inv(),
        w.inner is Leaf,
        sides_match(w, root),
    ensures
        w.rect == cell_rect(leaf_cell(w)),
        w.forced_dead == edge_sides(root, leaf_cell(w)),
        root.contains(leaf_cell(w)),
{
    assert(w.forced_dead.has(Direction::Up) == on_side(w.rect, Direction::Up, root));
    assert(w.forced_dead.has(Direction::Down) == on_side(w.rect, Direction::Down, root));
    assert(w.forced_dead.has(Direction::Left) == on_side(w.rect, Direction::Left, root));
    assert(w.forced_dead.has(Direction::Right) == on_side(w.rect, Direction::Right, root));
}

/// Every board is a predecessor: around every cell `c` of the window, board `i` shows a
/// 3x3 neighbourhood that the leaf of `c` admits, with the sides of `root` that `c` lies
/// on forced dead.
pub proof fn law_boards_are_predecessors(
    w: BoardWindow,
    root: Rect,
    lut: RuleLut,
    gen0: Grid<Option<CACell>>,
    gen1: Grid<Option<CACell>>,
    i: int,
    c: Coord,
)
    requires
        w.inv(),
        exposable(w.rect),
        all_filled(w),
        consistent(w),
        leaves_sound(w, lut, gen0, gen1),
        sides_match(w, root),
        0 <= i < w.nboards()->Some_0,
        w.rect.contains(c),
    ensures
        exists|pred: PackedCells|
            leaf_admits(lut, gen0, gen1, edge_sides(root, c), c, pred) && forall|q: Coord| #[trigger]
                padded_of(cell_rect(c)).contains(q) ==> board_cell(w, i, q, true) == Some(
                    pred.cell(padded_of(cell_rect(c)), q),
                ),
    decreases w,
{
    match w.inner {
        BoardWindowData::Leaf { valid_boards } => {
            let pred = valid_boards->Some_0@[i];
            lemma_leaf_sides(w, root);
            assert(leaf_cell(w) == c);
            assert(leaf_admits(lut, gen0, gen1, edge_sides(root, c), c, pred));
        },
        BoardWindowData::SplitHorizontal { left, right, valid_combos } => {
            let vc = valid_combos->Some_0;
            let (i1, i2) = (vc@[i].0 as int, vc@[i].1 as int);
            lemma_split_agrees(w, i);
            let part = if left.rect.contains(c) {
                *left
            } else {
                *right
            };
            let k = if left.rect.contains(c) {
                i1
            } else {
                i2
            };
            law_boards_are_predecessors(part, root, lut, gen0, gen1, k, c);
            let pred = choose|pred: PackedCells|
                leaf_admits(lut, gen0, gen1, edge_sides(root, c), c, pred) && forall|q: Coord| #[trigger]
                    padded_of(cell_rect(c)).contains(q) ==> board_cell(part, k, q, true) == Some(
                        pred.cell(padded_of(cell_rect(c)), q),
                    );
            assert forall|q: Coord| #[trigger] padded_of(cell_rect(c)).contains(q) implies board_cell(w, i, q, true)
                == Some(pred.cell(padded_of(cell_rect(c)), q)) by {
                assert(part.padded().contains(q));
            }
        },
        BoardWindowData::SplitVertical { top, bottom, valid_combos } => {
            let vc = valid_combos->Some_0;
            let (i1, i2) = (vc@[i].0 as int, vc@[i].1 as int);
            lemma_split_agrees(w, i);
            let part = if top.rect.contains(c) {
                *top
            } else {
                *bottom
            };
            let k = if top.rect.contains(c) {
                i1
            } else {
                i2
            };
            law_boards_are_predecessors(part, root, lut, gen0, gen1, k, c);
            let pred = choose|pred: PackedCells|
                leaf_admits(lut, gen0, gen1, edge_sides(root, c), c, pred) && forall|q: Coord| #[trigger]
                    padded_of(cell_rect(c)).contains(q) ==> board_cell(part, k, q, true) == Some(
                        pred.cell(padded_of(cell_rect(c)), q),
                    );
            assert forall|q: Coord| #[trigger] padded_of(cell_rect(c)).contains(q) implies board_cell(w, i, q, true)
                == Some(pred.cell(padded_of(cell_rect(c)), q)) by {
                assert(part.padded().contains(q));
            }
        },
    }
}

/// A window holds no more boards than a `Vec` can.
proof fn lemma_nboards_fit(w: BoardWindow)
    requires
        w.nboards() is Some,
    ensures
        w.nboards()->Some_0 <= usize::MAX,
{
    match w.inner {
        BoardWindowData::Leaf { valid_boards } => {
            let v = valid_boards->Some_0;
            assert(v@.len() == v.len());
        },
        BoardWindowData::SplitHorizontal { valid_combos, .. } => {
            let v = valid_combos->Some_0;
            assert(v@.len() == v.len());
        },
        BoardWindowData::SplitVertical { valid_combos, .. } => {
            let v = valid_combos->Some_0;
            assert(v@.len() == v.len());
        },
    }
}

/// Board `i` of `w` shows exactly `b` on the window's padded rectangle.
pub open spec fn shows(w: BoardWindow, i: int, b: spec_fn(Coord) -> bool) -> bool {
    forall|q: Coord| #[trigger] w.padded().contains(q) ==> board_cell(w, i, q, true) == Some(b(q))
}

/// Every predecessor is found: after an exhaustive search, for every board `b` (a
/// state for every cell) that every leaf admits, some board of the window shows exactly
/// `b` on the window's padded rectangle.
pub proof fn law_predecessors_are_found(
    w: BoardWindow,
    lut: RuleLut,
    gen0: Grid<Option<CACell>>,
    gen1: Grid<Option<CACell>>,
    b: spec_fn(Coord) -> bool,
)
    requires
        w.inv(),
        exposable(w.rect),
        all_filled(w),
        consistent(w),
        leaves_complete(w, lut, gen0, gen1),
        all_listed(w),
        admitted_everywhere(w, lut, gen0, gen1, b),
    ensures
        exists|i: int| 0 <= i < w.nboards()->Some_0 && #[trigger] shows(w, i, b),
    decreases w,
{
    match w.inner {
        BoardWindowData::Leaf { valid_boards } => {
            let v = valid_boards->Some_0;
            let pr = w.padded();
            let pred = PackedCells(pack_rect(pr, b));
            assert(pr.spec_width() == 3 && pr.spec_height() == 3);
            assert(pr.spec_width() * pr.spec_height() == 9) by (nonlinear_arith)
                requires
                    pr.spec_width() == 3,
                    pr.spec_height() == 3,
            ;
            lemma_pack_rect(pr, b);
            assert(leaf_admits(lut, gen0, gen1, w.forced_dead, leaf_cell(w), pred));
            assert(v@.contains(pred));
            let k = choose|k: int| 0 <= k < v@.len() && v@[k] == pred;
            assert forall|q: Coord| #[trigger] pr.contains(q) implies board_cell(w, k, q, true) == Some(b(q)) by {}
            assert(shows(w, k, b));
        },
        BoardWindowData::SplitHorizontal { left, right, valid_combos } => {
            let vc = valid_combos->Some_0;
            law_predecessors_are_found(*left, lut, gen0, gen1, b);
            law_predecessors_are_found(*right, lut, gen0, gen1, b);
            let i1 = choose|i: int| 0 <= i < left.nboards()->Some_0 && #[trigger] shows(*left, i, b);
            let i2 = choose|i: int| 0 <= i < right.nboards()->Some_0 && #[trigger] shows(*right, i, b);
            let strip = exposure_rect_of(left.rect, Direction::Right);
            assert(strip == exposure_rect_of(right.rect, Direction::Left));
            lemma_exposure_cells(*left, i1, Direction::Right);
            lemma_exposure_cells(*right, i2, Direction::Left);
            let e1 = left.exposure(i1, Direction::Right)->Some_0;
            let e2 = right.exposure(i2, Direction::Left)->Some_0;
            assert(strip.spec_width() == 2 && strip.spec_height() <= 63);
            assert(strip.spec_width() * strip.spec_height() < 128) by (nonlinear_arith)
                requires
                    strip.spec_width() == 2,
                    strip.spec_height() <= 63,
            ;
            assert(packs(e1.0, strip, b)) by {
                assert forall|q: Coord| strip.contains(q) implies bit(e1.0, cell_index(strip, q)) == b(q) by {
                    assert(left.padded().contains(q));
                }
            }
            assert(packs(e2.0, strip, b)) by {
                assert forall|q: Coord| strip.contains(q) implies bit(e2.0, cell_index(strip, q)) == b(q) by {
                    assert(right.padded().contains(q));
                }
            }
            lemma_packs_unique(e1.0, e2.0, strip, b);
            assert(left.exposure(i1, Direction::Right) == right.exposure(i2, spec_opposite(Direction::Right)));
            assert(vc@.contains((i1 as u64, i2 as u64)));
            let m = choose|m: int| 0 <= m < vc@.len() && vc@[m] == (i1 as u64, i2 as u64);
            lemma_nboards_fit(*left);
            lemma_nboards_fit(*right);
            assert(vc@[m].0 as int == i1 && vc@[m].1 as int == i2);
            lemma_split_agrees(w, m);
            assert forall|q: Coord| #[trigger] w.padded().contains(q) implies board_cell(w, m, q, true) == Some(b(q)) by {
                if right.padded().contains(q) {
                    assert(board_cell(*right, i2, q, true) == Some(b(q)));
                } else {
                    assert(left.padded().contains(q));
                    assert(board_cell(*left, i1, q, true) == Some(b(q)));
                }
                if !right.padded().contains(q) {
                    assert(left.padded().contains(q));
                }
            }
            assert(shows(w, m, b));
        },
        BoardWindowData::SplitVertical { top, bottom, valid_combos } => {
            let vc = valid_combos->Some_0;
            law_predecessors_are_found(*top, lut, gen0, gen1, b);
            law_predecessors_are_found(*bottom, lut, gen0, gen1, b);
            let i1 = choose|i: int| 0 <= i < top.nboards()->Some_0 && #[trigger] shows(*top, i, b);
            let i2 = choose|i: int| 0 <= i < bottom.nboards()->Some_0 && #[trigger] shows(*bottom, i, b);
            let strip = exposure_rect_of(top.rect, Direction::Down);
            assert(strip == exposure_rect_of(bottom.rect, Direction::Up));
            lemma_exposure_cells(*top, i1, Direction::Down);
            lemma_exposure_cells(*bottom, i2, Direction::Up);
            let e1 = top.exposure(i1, Direction::Down)->Some_0;
            let e2 = bottom.exposure(i2, Direction::Up)->Some_0;
            assert(strip.spec_height() == 2 && strip.spec_width() <= 63);
            assert(strip.spec_width() * strip.spec_height() < 128) by (nonlinear_arith)
                requires
                    strip.spec_height() == 2,
                    strip.spec_width() <= 63,
            ;
            assert(packs(e1.0, strip, b)) by {
                assert forall|q: Coord| strip.contains(q) implies bit(e1.0, cell_index(strip, q)) == b(q) by {
                    assert(top.padded().contains(q));
                }
            }
            assert(packs(e2.0, strip, b)) by {
                assert forall|q: Coord| strip.contains(q) implies bit(e2.0, cell_index(strip, q)) == b(q) by {
                    assert(bottom.padded().contains(q));
                }
            }
            lemma_packs_unique(e1.0, e2.0, strip, b);
            assert(top.exposure(i1, Direction::Down) == bottom.exposure(i2, spec_opposite(Direction::Down)));
            assert(vc@.contains((i1 as u64, i2 as u64)));
            let m = choose|m: int| 0 <= m < vc@.len() && vc@[m] == (i1 as u64, i2 as u64);
            lemma_nboards_fit(*top);
            lemma_nboards_fit(*bottom);
            assert(vc@[m].0 as int == i1 && vc@[m].1 as int == i2);
            lemma_split_agrees(w, m);
            assert forall|q: Coord| #[trigger] w.padded().contains(q) implies board_cell(w, m, q, true) == Some(b(q)) by {
                if bottom.padded().contains(q) {
                    assert(board_cell(*bottom, i2, q, true) == Some(b(q)));
                } else {
                    assert(top.padded().contains(q));
                    assert(board_cell(*top, i1, q, true) == Some(b(q)));
                }
                if !bottom.padded().contains(q) {
                    assert(top.padded().contains(q));
                }
            }
            assert(shows(w, m, b));
        },
    }
}

proof fn lemma_candidates_members(lut: RuleLut, gen0c: Option<CACell>, fd: Directions, s: Seq<PackedCells>, x: PackedCells)
    ensures
        candidates(lut, gen0c, fd, s).contains(x) <==> (s.contains(x) && candidate(lut, gen0c, fd, x)),
    decreases s.len(),
{
    if s.len() > 0 {
        lemma_candidates_members(lut, gen0c, fd, s.drop_last(), x);
        let prev = candidates(lut, gen0c, fd, s.drop_last());
        assert(s =~= s.drop_last().push(s.last()));
        if s.contains(x) && !s.drop_last().contains(x) {
            let j = choose|j: int| 0 <= j < s.len() && s[j] == x;
            if j < s.len() - 1 {
                assert(s.drop_last()[j] == x);
            }
        }
        if candidate(lut, gen0c, fd, s.last()) {
            assert(prev.push(s.last()).contains(x) <==> (prev.contains(x) || x == s.last())) by {
                if prev.push(s.last()).contains(x) {
                    let j = choose|j: int| 0 <= j < prev.push(s.last()).len() && prev.push(s.last())[j] == x;
                    if j < prev.len() {
                        assert(prev[j] == x);
                    }
                }
                if prev.contains(x) {
                    let j = choose|j: int| 0 <= j < prev.len() && prev[j] == x;
                    assert(prev.push(s.last())[j] == x);
                }
                if x == s.last() {
                    assert(prev.push(s.last())[prev.len() as int] == x);
                }
            }
        }
        if s.drop_last().contains(x) {
            let j = choose|j: int| 0 <= j < s.drop_last().len() && s.drop_last()[j] == x;
            assert(s[j] == x);
        }
        if x == s.last() {
            assert(s[s.len() - 1] == x);
        }
    }
}

proof fn lemma_preds_members(lut: RuleLut, t: CACell, n: int, pred: PackedCells)
    requires
        0 <= n <= 512,
    ensures
        preds_upto(lut, t, n).contains(pred) <==> (pred.0 < n && lut.allowed(pred.0 as u32, t)),
    decreases n,
{
    if n > 0 {
        lemma_preds_members(lut, t, n - 1, pred);
        let prev = preds_upto(lut, t, n - 1);
        let last = PackedCells((n - 1) as u128);
        if lut.allowed((n - 1) as u32, t) {
            if prev.push(last).contains(pred) {
                let j = choose|j: int| 0 <= j < prev.push(last).len() && prev.push(last)[j] == pred;
                if j < prev.len() {
                    assert(prev[j] == pred);
                }
            }
            if prev.contains(pred) {
                let j = choose|j: int| 0 <= j < prev.len() && prev[j] == pred;
                assert(prev.push(last)[j] == pred);
            }
            if pred == last {
                assert(prev.push(last)[prev.len() as int] == pred);
            }
        }
    }
}

proof fn lemma_considered_members(lut: RuleLut, g1: Option<CACell>, pred: PackedCells)
    ensures
        considered(lut, g1).contains(pred) <==> (pred.0 < 512 && (g1 matches Some(t) ==> lut.allowed(pred.0 as u32, t))),
{
    match g1 {
        Some(t) => lemma_preds_members(lut, t, 512, pred),
        None => {
            let s = Seq::new(512, |g: int| PackedCells(g as u128));
            if pred.0 < 512 {
                assert(s[pred.0 as int] == pred);
            }
        },
    }
}

proof fn lemma_centre_bit(x: CACell, v: u128)
    ensures
        (cell_u8(x) as u128 == (v >> 4u128) & 1) <==> (bit(v, 4) == (x == CACell::ALIVE)),
{
    assert((v >> 4u128) & 1u128 == 0u128 || (v >> 4u128) & 1u128 == 1u128) by (bit_vector);
    assert(bit(v, 4) == ((v >> (4int as u128)) & 1u128 == 1u128));
}

/// Filling the leaves gives each its complete list of admitted neighbourhoods.
pub proof fn lemma_filled_leaves(
    w: BoardWindow,
    old: BoardWindow,
    lut: RuleLut,
    gen0: Grid<Option<CACell>>,
    gen1: Grid<Option<CACell>>,
)
    requires
        filled(w, old, lut, gen0, gen1),
    ensures
        leaves_sound(w, lut, gen0, gen1),
        leaves_complete(w, lut, gen0, gen1),
    decreases w,
{
    match (w.inner, old.inner) {
        (BoardWindowData::Leaf { valid_boards }, BoardWindowData::Leaf { .. }) => {
            let c = leaf_cell(w);
            let g0 = grid_cell(gen0, c);
            let g1 = grid_cell(gen1, c);
            let v = valid_boards->Some_0;
            assert forall|k: int| 0 <= k < v@.len() implies leaf_admits(lut, gen0, gen1, w.forced_dead, c, #[trigger] v@[k]) by {
                let x = v@[k];
                assert(v@.contains(x));
                lemma_candidates_members(lut, g0, w.forced_dead, considered(lut, g1), x);
            }
            assert forall|pred: PackedCells|
                #[trigger] leaf_admits(lut, gen0, gen1, w.forced_dead, c, pred) implies v@.contains(pred) by {
                lemma_candidates_members(lut, g0, w.forced_dead, considered(lut, g1), pred);
            }
        },
        (
            BoardWindowData::SplitHorizontal { left: l1, right: r1, .. },
            BoardWindowData::SplitHorizontal { left: l2, right: r2, .. },
        ) => {
            lemma_filled_leaves(*l1, *l2, lut, gen0, gen1);
            lemma_filled_leaves(*r1, *r2, lut, gen0, gen1);
        },
        (
            BoardWindowData::SplitVertical { top: t1, bottom: b1, .. },
            BoardWindowData::SplitVertical { top: t2, bottom: b2, .. },
        ) => {
            lemma_filled_leaves(*t1, *t2, lut, gen0, gen1);
            lemma_filled_leaves(*b1, *b2, lut, gen0, gen1);
        },
        _ => {},
    }
}

/// Leaves that keep some of their boards stay sound.
proof fn lemma_sub_list_sound(
    a: Option<Vec<PackedCells>>,
    b: Option<Vec<PackedCells>>,
    lut: RuleLut,
    gen0: Grid<Option<CACell>>,
    gen1: Grid<Option<CACell>>,
    fd: Directions,
    c: Coord,
)
    requires
        crate::board::sub_list(a, b),
        b matches Some(v) ==> forall|k: int| 0 <= k < v@.len() ==> leaf_admits(lut, gen0, gen1, fd, c, #[trigger] v@[k]),
    ensures
        a matches Some(v) ==> forall|k: int| 0 <= k < v@.len() ==> leaf_admits(lut, gen0, gen1, fd, c, #[trigger] v@[k]),
{
    if let (Some(x), Some(y)) = (a, b) {
        let ks = choose|ks: Seq<int>| #[trigger] crate::board::picks(x@, y@, ks);
        assert forall|k: int| 0 <= k < x@.len() implies leaf_admits(lut, gen0, gen1, fd, c, #[trigger] x@[k]) by {
            assert(x@[k] == y@[ks[k]]);
        }
    }
}

/// Taking boards out of a window keeps its leaves sound.
pub proof fn lemma_within_sound(
    new: BoardWindow,
    old: BoardWindow,
    lut: RuleLut,
    gen0: Grid<Option<CACell>>,
    gen1: Grid<Option<CACell>>,
)
    requires
        crate::board::inner_within(new.inner, old.inner),
        new.rect == old.rect,
        new.forced_dead == old.forced_dead,
        leaves_sound(old, lut, gen0, gen1),
    ensures
        leaves_sound(new, lut, gen0, gen1),
{
    if let (BoardWindowData::Leaf { valid_boards: a }, BoardWindowData::Leaf { valid_boards: b }) = (new.inner, old.inner) {
        lemma_sub_list_sound(a, b, lut, gen0, gen1, old.forced_dead, leaf_cell(old));
    }
}

/// Combining keeps the leaves sound.
pub proof fn lemma_combined_sound(
    new: BoardWindow,
    old: BoardWindow,
    cfg: crate::search::CombinerCfg,
    lut: RuleLut,
    gen0: Grid<Option<CACell>>,
    gen1: Grid<Option<CACell>>,
)
    requires
        crate::search::combined(new, old, cfg),
        leaves_sound(old, lut, gen0, gen1),
    ensures
        leaves_sound(new, lut, gen0, gen1),
    decreases old,
{
    match (new.inner, old.inner) {
        (BoardWindowData::Leaf { valid_boards: a }, BoardWindowData::Leaf { valid_boards: b }) => {
            lemma_sub_list_sound(a, b, lut, gen0, gen1, old.forced_dead, leaf_cell(old));
        },
        (
            BoardWindowData::SplitHorizontal { left: l1, right: r1, valid_combos: c1 },
            BoardWindowData::SplitHorizontal { left: l2, right: r2, valid_combos: c2 },
        ) => {
            if c2 is None {
                lemma_combined_sound(*l1, *l2, cfg, lut, gen0, gen1);
                lemma_combined_sound(*r1, *r2, cfg, lut, gen0, gen1);
            }
        },
        (
            BoardWindowData::SplitVertical { top: t1, bottom: b1, valid_combos: c1 },
            BoardWindowData::SplitVertical { top: t2, bottom: b2, valid_combos: c2 },
        ) => {
            if c2 is None {
                lemma_combined_sound(*t1, *t2, cfg, lut, gen0, gen1);
                lemma_combined_sound(*b1, *b2, cfg, lut, gen0, gen1);
            }
        },
        _ => {},
    }
}

/// What a leaf admits: a nine-cell neighbourhood that turns into the cell's state in
/// `gen1` where that is known, has the cell's state in `gen0` at its centre where that is
/// known, and passes the test of every forced-dead side.
pub proof fn lemma_leaf_admits_meaning(
    lut: RuleLut,
    gen0: Grid<Option<CACell>>,
    gen1: Grid<Option<CACell>>,
    fd: Directions,
    c: Coord,
    pred: PackedCells,
)
    ensures
        leaf_admits(lut, gen0, gen1, fd, c, pred) <==> {
            &&& pred.0 < 512
            &&& (grid_cell(gen1, c) matches Some(t) ==> lut.allowed(pred.0 as u32, t))
            &&& (grid_cell(gen0, c) matches Some(x) ==> bit(pred.0, 4) == (x == CACell::ALIVE))
            &&& forall|d: Direction| fd.has(d) ==> side_ok(lut, pred, d)
        },
{
    lemma_considered_members(lut, grid_cell(gen1, c), pred);
    if let Some(x) = grid_cell(gen0, c) {
        lemma_centre_bit(x, pred.0);
    }
}

/// The 3x3 neighbourhood of cell `c` in the board `b`.
pub open spec fn nbhd(b: spec_fn(Coord) -> bool, c: Coord) -> PackedCells {
    PackedCells(pack_rect(padded_of(cell_rect(c)), b))
}

/// The board `b` (a state for every cell) is a predecessor of `gen1` over `root`: the
/// neighbourhood of every cell of `root` is admitted for that cell, with the sides of
/// `root` that the cell lies on forced dead.
pub open spec fn is_predecessor(
    lut: RuleLut,
    gen0: Grid<Option<CACell>>,
    gen1: Grid<Option<CACell>>,
    root: Rect,
    b: spec_fn(Coord) -> bool,
) -> bool {
    forall|c: Coord| #[trigger] root.contains(c) ==> leaf_admits(lut, gen0, gen1, edge_sides(root, c), c, nbhd(b, c))
}

/// Board `i` of `w`, as a state for every cell (dead off its padded rectangle).
pub open spec fn board_of(w: BoardWindow, i: int) -> spec_fn(Coord) -> bool {
    |q: Coord| board_cell(w, i, q, true) == Some(true)
}

/// A predecessor over `root` is admitted at every leaf of a tree whose sides match `root`.
pub proof fn lemma_predecessor_admitted(
    w: BoardWindow,
    root: Rect,
    lut: RuleLut,
    gen0: Grid<Option<CACell>>,
    gen1: Grid<Option<CACell>>,
    b: spec_fn(Coord) -> bool,
)
    requires
        w.inv(),
        sides_match(w, root),
        is_predecessor(lut, gen0, gen1, root, b),
    ensures
        admitted_everywhere(w, lut, gen0, gen1, b),
    decreases w,
{
    match w.inner {
        BoardWindowData::Leaf { .. } => {
            lemma_leaf_sides(w, root);
            let c = leaf_cell(w);
            assert(root.contains(c));
        },
        BoardWindowData::SplitHorizontal { left, right, .. } => {
            lemma_predecessor_admitted(*left, root, lut, gen0, gen1, b);
            lemma_predecessor_admitted(*right, root, lut, gen0, gen1, b);
        },
        BoardWindowData::SplitVertical { top, bottom, .. } => {
            lemma_predecessor_admitted(*top, root, lut, gen0, gen1, b);
            lemma_predecessor_admitted(*bottom, root, lut, gen0, gen1, b);
        },
    }
}

/// Every board of a sound, consistent window over `root` is a predecessor.
pub proof fn lemma_board_is_predecessor(
    w: BoardWindow,
    root: Rect,
    lut: RuleLut,
    gen0: Grid<Option<CACell>>,
    gen1: Grid<Option<CACell>>,
    i: int,
)
    requires
        w.inv(),
        w.rect == root,
        exposable(w.rect),
        all_filled(w),
        consistent(w),
        leaves_sound(w, lut, gen0, gen1),
        sides_match(w, root),
        0 <= i < w.nboards()->Some_0,
    ensures
        is_predecessor(lut, gen0, gen1, root, board_of(w, i)),
{
    let b = board_of(w, i);
    assert forall|c: Coord| #[trigger] root.contains(c) implies leaf_admits(
        lut,
        gen0,
        gen1,
        edge_sides(root, c),
        c,
        nbhd(b, c),
    ) by {
        law_boards_are_predecessors(w, root, lut, gen0, gen1, i, c);
        let pad = padded_of(cell_rect(c));
        let pred = choose|pred: PackedCells|
            leaf_admits(lut, gen0, gen1, edge_sides(root, c), c, pred) && forall|q: Coord| #[trigger]
                pad.contains(q) ==> board_cell(w, i, q, true) == Some(pred.cell(pad, q));
        lemma_leaf_admits_meaning(lut, gen0, gen1, edge_sides(root, c), c, pred);
        lemma_fits_nine(pred.0);
        assert(pad.spec_width() == 3 && pad.spec_height() == 3);
        assert(pad.spec_width() * pad.spec_height() == 9) by (nonlinear_arith)
            requires
                pad.spec_width() == 3,
                pad.spec_height() == 3,
        ;
        lemma_pack_rect(pad, b);
        assert(packs(pred.0, pad, b)) by {
            assert forall|q: Coord| pad.contains(q) implies bit(pred.0, cell_index(pad, q)) == b(q) by {}
        }
        lemma_packs_unique(pack_rect(pad, b), pred.0, pad, b);
    }
}

/// No split below `w` has combinations yet.
pub open spec fn no_combos(w: BoardWindow) -> bool
    decreases w,
{
    match w.inner {
        BoardWindowData::Leaf { .. } => true,
        BoardWindowData::SplitHorizontal { left, right, valid_combos } => valid_combos is None && no_combos(*left)
            && no_combos(*right),
        BoardWindowData::SplitVertical { top, bottom, valid_combos } => valid_combos is None && no_combos(*top)
            && no_combos(*bottom),
    }
}

/// A newly built tree has no list, combination or cache yet.
pub proof fn lemma_built_fresh(w: BoardWindow, rect: Rect, fd: Directions, ih: u64, iw: u64)
    requires
        built(w, rect, fd, ih, iw),
    ensures
        fresh(w),
    decreases rect.spec_width() + rect.spec_height(),
{
    assert(forall|d: Direction| #[trigger] w.exposure_cache@[crate::basic_grids::spec_dir_index(d)] is None);
    assert(forall|d: Direction| #[trigger] w.exposure_sort_order_cache@[crate::basic_grids::spec_dir_index(d)] is None);
    if rect.spec_width() == 1 && rect.spec_height() == 1 {
    } else if (iw > ih && rect.spec_width() != 1) || rect.spec_height() == 1 {
        let mid = (rect.left + rect.spec_width() / 2) as i32;
        if let BoardWindowData::SplitHorizontal { left, right, .. } = w.inner {
            lemma_built_fresh(*left, Rect { right: mid, ..rect }, fd.spec_without(Direction::Right), crate::board::doubled(ih), iw);
            lemma_built_fresh(*right, Rect { left: mid, ..rect }, fd.spec_without(Direction::Left), crate::board::doubled(ih), iw);
        }
    } else {
        let mid = (rect.top + rect.spec_height() / 2) as i32;
        if let BoardWindowData::SplitVertical { top, bottom, .. } = w.inner {
            lemma_built_fresh(*top, Rect { bottom: mid, ..rect }, fd.spec_without(Direction::Down), ih, crate::board::doubled(iw));
            lemma_built_fresh(*bottom, Rect { top: mid, ..rect }, fd.spec_without(Direction::Up), ih, crate::board::doubled(iw));
        }
    }
}

/// A tree built inside `root`, with the sides of `root` forced dead, has matching sides.
pub proof fn lemma_built_sides(w: BoardWindow, rect: Rect, fd: Directions, ih: u64, iw: u64, root: Rect)
    requires
        built(w, rect, fd, ih, iw),
        root.top <= rect.top,
        rect.bottom <= root.bottom,
        root.left <= rect.left,
        rect.right <= root.right,
        forall|d: Direction| #[trigger] fd.has(d) == on_side(rect, d, root),
    ensures
        sides_match(w, root),
    decreases rect.spec_width() + rect.spec_height(),
{
    if rect.spec_width() == 1 && rect.spec_height() == 1 {
    } else if (iw > ih && rect.spec_width() != 1) || rect.spec_height() == 1 {
        let mid = (rect.left + rect.spec_width() / 2) as i32;
        if let BoardWindowData::SplitHorizontal { left, right, .. } = w.inner {
            let (lr, rr) = (Rect { right: mid, ..rect }, Rect { left: mid, ..rect });
            let (lf, rf) = (fd.spec_without(Direction::Right), fd.spec_without(Direction::Left));
            assert forall|d: Direction| #[trigger] lf.has(d) == on_side(lr, d, root) by {
                assert(fd.has(d) == on_side(rect, d, root));
            }
            assert forall|d: Direction| #[trigger] rf.has(d) == on_side(rr, d, root) by {
                assert(fd.has(d) == on_side(rect, d, root));
            }
            lemma_built_sides(*left, lr, lf, crate::board::doubled(ih), iw, root);
            lemma_built_sides(*right, rr, rf, crate::board::doubled(ih), iw, root);
        }
    } else {
        let mid = (rect.top + rect.spec_height() / 2) as i32;
        if let BoardWindowData::SplitVertical { top, bottom, .. } = w.inner {
            let (tr, br) = (Rect { bottom: mid, ..rect }, Rect { top: mid, ..rect });
            let (tf, bf) = (fd.spec_without(Direction::Down), fd.spec_without(Direction::Up));
            assert forall|d: Direction| #[trigger] tf.has(d) == on_side(tr, d, root) by {
                assert(fd.has(d) == on_side(rect, d, root));
            }
            assert forall|d: Direction| #[trigger] bf.has(d) == on_side(br, d, root) by {
                assert(fd.has(d) == on_side(rect, d, root));
            }
            lemma_built_sides(*top, tr, tf, ih, crate::board::doubled(iw), root);
            lemma_built_sides(*bottom, br, bf, ih, crate::board::doubled(iw), root);
        }
    }
}

/// Filling the leaves of a fresh tree keeps its shape and sides, fills every leaf and
/// combines nothing.
pub proof fn lemma_filled_ready(
    w: BoardWindow,
    old: BoardWindow,
    lut: RuleLut,
    gen0: Grid<Option<CACell>>,
    gen1: Grid<Option<CACell>>,
    root: Rect,
)
    requires
        fresh(old),
        filled(w, old, lut, gen0, gen1),
    ensures
        no_combos(w),
        leaves_filled(w),
        consistent(w),
        down_closed(w),
        sides_match(old, root) ==> sides_match(w, root),
    decreases w,
{
    match (w.inner, old.inner) {
        (
            BoardWindowData::SplitHorizontal { left: l1, right: r1, .. },
            BoardWindowData::SplitHorizontal { left: l2, right: r2, .. },
        ) => {
            lemma_filled_ready(*l1, *l2, lut, gen0, gen1, root);
            lemma_filled_ready(*r1, *r2, lut, gen0, gen1, root);
        },
        (
            BoardWindowData::SplitVertical { top: t1, bottom: b1, .. },
            BoardWindowData::SplitVertical { top: t2, bottom: b2, .. },
        ) => {
            lemma_filled_ready(*t1, *t2, lut, gen0, gen1, root);
            lemma_filled_ready(*b1, *b2, lut, gen0, gen1, root);
        },
        _ => {},
    }
}

/// Combining without losing boards keeps the leaves sound and complete and the sides,
/// and lists every fitting pair where nothing had been combined.
pub proof fn lemma_keeping(
    new: BoardWindow,
    old: BoardWindow,
    lut: RuleLut,
    gen0: Grid<Option<CACell>>,
    gen1: Grid<Option<CACell>>,
    root: Rect,
)
    requires
        combined_keeping(new, old),
    ensures
        leaves_sound(old, lut, gen0, gen1) ==> leaves_sound(new, lut, gen0, gen1),
        leaves_complete(old, lut, gen0, gen1) ==> leaves_complete(new, lut, gen0, gen1),
        sides_match(old, root) ==> sides_match(new, root),
        no_combos(old) ==> all_listed(new),
    decreases old,
{
    match (new.inner, old.inner) {
        (BoardWindowData::Leaf { valid_boards: a }, BoardWindowData::Leaf { .. }) => {
            if leaves_complete(old, lut, gen0, gen1) {
                assert(leaf_cell(new) == leaf_cell(old));
                assert forall|pred: PackedCells| #[trigger]
                    leaf_admits(lut, gen0, gen1, new.forced_dead, leaf_cell(new), pred) implies a->Some_0@.contains(pred) by {
                    assert(leaf_admits(lut, gen0, gen1, old.forced_dead, leaf_cell(old), pred));
                }
            }
        },
        (
            BoardWindowData::SplitHorizontal { left: l1, right: r1, valid_combos: c1 },
            BoardWindowData::SplitHorizontal { left: l2, right: r2, valid_combos: c2 },
        ) => {
            if c2 is None {
                lemma_keeping(*l1, *l2, lut, gen0, gen1, root);
                lemma_keeping(*r1, *r2, lut, gen0, gen1, root);
            }
        },
        (
            BoardWindowData::SplitVertical { top: t1, bottom: b1, valid_combos: c1 },
            BoardWindowData::SplitVertical { top: t2, bottom: b2, valid_combos: c2 },
        ) => {
            if c2 is None {
                lemma_keeping(*t1, *t2, lut, gen0, gen1, root);
                lemma_keeping(*b1, *b2, lut, gen0, gen1, root);
            }
        },
        _ => {},
    }
}

/// Searches for every predecessor of `gen1` (whose centres match `gen0` where that is
/// known): builds the window tree over `gen1`'s rectangle with all its outer sides
/// forced dead, fills the leaves with every neighbourhood they admit, and combines the
/// tree down to the root listing every pair of boards that fit together. The boards of
/// the result are exactly the predecessors. `Err` with the tree where some split's
/// halves have more pairs of boards than a `usize` counts.
pub fn exhaustive_search(lut: &RuleLut, gen0: &Grid<Option<CACell>>, gen1: &Grid<Option<CACell>>) -> (r: Result<
    BoardWindow,
    BoardWindow,
>)
    requires
        lut.wf(),
        gen0.wf(),
        gen1.wf(),
        gen0.size == gen1.size,
        rect_in_range(gen1.size),
        exposable(gen1.size),
        exists|b: int| 0 <= b && b * area(gen1.size) <= i32::MAX && #[trigger] costs_within(*lut, b),
    ensures
        r matches Ok(w) ==> {
            &&& w.inv()
            &&& w.rect == gen1.size
            &&& all_filled(w)
            &&& forall|i: int|
                0 <= i < w.nboards()->Some_0 ==> is_predecessor(*lut, *gen0, *gen1, gen1.size, #[trigger] board_of(w, i))
            &&& forall|b: spec_fn(Coord) -> bool| #[trigger]
                is_predecessor(*lut, *gen0, *gen1, gen1.size, b) ==> exists|i: int|
                    0 <= i < w.nboards()->Some_0 && #[trigger] shows(w, i, b)
        },
        r matches Err(w) ==> w.inv() && w.rect == gen1.size && some_split_overflows(w),
{
    let root = gen1.size;
    let all = Directions::all();
    let ih = root.height() as u64;
    let iw = root.width() as u64;
    let mut w = BoardWindow::new(root, all, ih, iw);
    let ghost w0 = w;
    proof {
        lemma_built_fresh(w0, root, all, ih, iw);
        lemma_built_sides(w0, root, all, ih, iw, root);
    }
    let _ = w.fill_leaves(lut, gen0, gen1);
    let ghost w1 = w;
    proof {
        lemma_filled_leaves(w1, w0, *lut, *gen0, *gen1);
        lemma_filled_ready(w1, w0, *lut, *gen0, *gen1, root);
        let b = choose|b: int| 0 <= b && b * area(gen1.size) <= i32::MAX && #[trigger] costs_within(*lut, b);
        assert(w1.scores_within(b));
        assert(w1.scores_fit());
    }
    match fill_all_combinations(&mut w, &CombinerCfg::Exhaustive) {
        None => Err(w),
        Some(()) => {
            proof {
                lemma_keeping(w, w1, *lut, *gen0, *gen1, root);
                assert forall|i: int| 0 <= i < w.nboards()->Some_0 implies is_predecessor(
                    *lut,
                    *gen0,
                    *gen1,
                    root,
                    #[trigger] board_of(w, i),
                ) by {
                    lemma_board_is_predecessor(w, root, *lut, *gen0, *gen1, i);
                }
                assert forall|b: spec_fn(Coord) -> bool| #[trigger]
                    is_predecessor(*lut, *gen0, *gen1, root, b) implies exists|i: int|
                    0 <= i < w.nboards()->Some_0 && #[trigger] shows(w, i, b) by {
                    lemma_predecessor_admitted(w, root, *lut, *gen0, *gen1, b);
                    law_predecessors_are_found(w, *lut, *gen0, *gen1, b);
                }
            }
            Ok(w)
        },
    }
}

/// Every board of the set `s` (each a state for every cell) is shown by some board of `w`.
pub open spec fn shows_all(w: BoardWindow, s: spec_fn(spec_fn(Coord) -> bool) -> bool) -> bool {
    forall|b: spec_fn(Coord) -> bool| #[trigger] s(b) ==> exists|i: int|
        0 <= i < w.nboards()->Some_0 && #[trigger] shows(w, i, b)
}

/// A kept board is the board it was.
pub proof fn lemma_retained_board_cell(
    new: BoardWindow,
    old: BoardWindow,
    keep: Seq<bool>,
    k: int,
    q: Coord,
    border: bool,
)
    requires
        crate::board::inner_retained(new.inner, old.inner, keep),
        new.rect == old.rect,
        old.nboards() matches Some(n) && keep.len() == n,
        0 <= k < crate::retain::kept_indices(keep).len(),
    ensures
        board_cell(new, k, q, border) == board_cell(old, crate::retain::kept_indices(keep)[k], q, border),
{
}

/// Filtering two neighbours against each other keeps, on both sides, a board for every
/// board of `s` that both showed.
pub proof fn lemma_filter_keeps_shown(
    na: BoardWindow,
    nc: BoardWindow,
    a: BoardWindow,
    c: BoardWindow,
    d: Direction,
    s: spec_fn(spec_fn(Coord) -> bool) -> bool,
)
    requires
        a.inv(),
        c.inv(),
        exposable(a.rect),
        exposable(c.rect),
        all_filled(a),
        all_filled(c),
        consistent(a),
        consistent(c),
        exposure_rect_of(a.rect, d) == exposure_rect_of(c.rect, spec_opposite(d)),
        crate::board::inner_retained(na.inner, a.inner, crate::board::partner_mask(a, d, c)),
        crate::board::inner_retained(nc.inner, c.inner, crate::board::partner_mask(c, spec_opposite(d), a)),
        na.rect == a.rect,
        nc.rect == c.rect,
        na.nboards() == Some(crate::retain::kept_indices(crate::board::partner_mask(a, d, c)).len() as int),
        nc.nboards() == Some(crate::retain::kept_indices(crate::board::partner_mask(c, spec_opposite(d), a)).len() as int),
        shows_all(a, s),
        shows_all(c, s),
    ensures
        shows_all(na, s),
        shows_all(nc, s),
{
    let od = spec_opposite(d);
    let ka = crate::board::partner_mask(a, d, c);
    let kc = crate::board::partner_mask(c, od, a);
    crate::retain::lemma_kept_indices(ka);
    crate::retain::lemma_kept_indices(kc);
    crate::basic_grids::lemma_opposite_involutive(d);
    assert forall|b: spec_fn(Coord) -> bool| #[trigger] s(b) implies (exists|i: int|
        0 <= i < na.nboards()->Some_0 && #[trigger] shows(na, i, b)) && (exists|i: int|
        0 <= i < nc.nboards()->Some_0 && #[trigger] shows(nc, i, b)) by {
        let i = choose|i: int| 0 <= i < a.nboards()->Some_0 && #[trigger] shows(a, i, b);
        let j = choose|j: int| 0 <= j < c.nboards()->Some_0 && #[trigger] shows(c, j, b);
        let strip = exposure_rect_of(a.rect, d);
        lemma_exposure_cells(a, i, d);
        lemma_exposure_cells(c, j, od);
        let e1 = a.exposure(i, d)->Some_0;
        let e2 = c.exposure(j, od)->Some_0;
        assert(strip.spec_width() * strip.spec_height() < 128) by {
            lemma_strip_small(a.rect, d);
        }
        assert(packs(e1.0, strip, b)) by {
            assert forall|q: Coord| strip.contains(q) implies bit(e1.0, cell_index(strip, q)) == b(q) by {
                assert(a.padded().contains(q));
            }
        }
        assert(packs(e2.0, strip, b)) by {
            assert forall|q: Coord| strip.contains(q) implies bit(e2.0, cell_index(strip, q)) == b(q) by {
                assert(exposure_rect_of(c.rect, od).contains(q));
                assert(c.padded().contains(q));
            }
        }
        lemma_packs_unique(e1.0, e2.0, strip, b);
        assert(c.exposure(j, spec_opposite(d)) == a.exposure(i, d));
        assert(crate::board::has_partner(a, d, c, i));
        assert(a.exposure(i, spec_opposite(od)) == c.exposure(j, od));
        assert(crate::board::has_partner(c, od, a, j));
        assert(ka[i]);
        assert(kc[j]);
        let ri = crate::retain::rank(ka, i);
        let rj = crate::retain::rank(kc, j);
        assert(0 <= ri < crate::retain::kept_indices(ka).len() && crate::retain::kept_indices(ka)[ri] == i);
        assert(0 <= rj < crate::retain::kept_indices(kc).len() && crate::retain::kept_indices(kc)[rj] == j);
        assert forall|q: Coord| #[trigger] na.padded().contains(q) implies board_cell(na, ri, q, true) == Some(b(q)) by {
            lemma_retained_board_cell(na, a, ka, ri, q, true);
            assert(a.padded().contains(q));
        }
        assert(shows(na, ri, b));
        assert forall|q: Coord| #[trigger] nc.padded().contains(q) implies board_cell(nc, rj, q, true) == Some(b(q)) by {
            lemma_retained_board_cell(nc, c, kc, rj, q, true);
            assert(c.padded().contains(q));
        }
        assert(shows(nc, rj, b));
    }
}

/// An exposure strip of an exposable window packs into one word.
proof fn lemma_strip_small(r: Rect, d: Direction)
    requires
        rect_in_range(r),
        exposable(r),
    ensures
        exposure_rect_of(r, d).small(),
{
    let e = exposure_rect_of(r, d);
    match d {
        Direction::Up | Direction::Down => {
            assert(e.spec_height() == 2 && e.spec_width() <= 63);
            assert(e.spec_width() * e.spec_height() < 128) by (nonlinear_arith)
                requires
                    e.spec_height() == 2,
                    e.spec_width() <= 63,
            ;
        },
        _ => {
            assert(e.spec_width() == 2 && e.spec_height() <= 63);
            assert(e.spec_width() * e.spec_height() < 128) by (nonlinear_arith)
                requires
                    e.spec_width() == 2,
                    e.spec_height() <= 63,
            ;
        },
    }
}

} // verus!
