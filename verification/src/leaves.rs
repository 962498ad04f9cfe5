//! Filling the single-cell windows with the neighbourhoods that may precede their cell.
use vstd::prelude::*;
use crate::basic_grids::{spec_dir_index, spec_opposite, Coord, Direction, Directions, Grid, Rect};
use crate::board::{BoardWindow, BoardWindowData};
use crate::ca::{cell_u8, lemma_lut_index, preds_upto, CACell, RuleLut};
use crate::packed::{packed_join, packed_trim, PackedCells};
use crate::board::lemma_fits_nine;
use crate::bits::{fits, lemma_bit_zero};

verus! {

/// The 3x3 neighbourhood of a cell, packed with its own top-left corner at the origin.
pub open spec fn box3() -> Rect {
    Rect { top: 0, left: 0, bottom: 3, right: 3 }
}

/// Along side `d`, the neighbourhood `pred` is dead in its outer row, and the cell
/// beyond that side stays dead: the two rows of `pred` nearest `d`, completed with a
/// dead row, evolve into a dead cell.
pub open spec fn side_ok(lut: RuleLut, pred: PackedCells, d: Direction) -> bool {
    let od = spec_opposite(d);
    &&& packed_trim(pred, box3(), od, 2).0 == 0
    &&& lut.spec_evolve(
        (packed_join(
            packed_trim(pred, box3(), od, 1),
            PackedCells(0),
            box3().trimmed(od, 1),
            box3().trimmed(d, 2),
            od,
        ).0 & 0x1ffu128) as u32,
    ) == Some(CACell::DEAD)
}

/// `pred` may stand at a leaf whose forced-dead sides are `fd` and whose cell, where
/// known, is `gen0c` in the earlier generation.
pub open spec fn candidate(lut: RuleLut, gen0c: Option<CACell>, fd: Directions, pred: PackedCells) -> bool {
    &&& forall|d: Direction| fd.has(d) ==> side_ok(lut, pred, d)
    &&& match gen0c {
        Some(x) => cell_u8(x) as u128 == (pred.0 >> 4u128) & 1,
        None => true,
    }
}

/// The entries of `s` that are candidates, in order.
pub open spec fn candidates(lut: RuleLut, gen0c: Option<CACell>, fd: Directions, s: Seq<PackedCells>) -> Seq<PackedCells>
    decreases s.len(),
{
    if s.len() == 0 {
        Seq::empty()
    } else {
        let prev = candidates(lut, gen0c, fd, s.drop_last());
        if candidate(lut, gen0c, fd, s.last()) {
            prev.push(s.last())
        } else {
            prev
        }
    }
}

/// The neighbourhoods considered for a cell that is `gen1c` (when known) in the later
/// generation: those that turn into it, or all of them.
pub open spec fn considered(lut: RuleLut, gen1c: Option<CACell>) -> Seq<PackedCells> {
    match gen1c {
        Some(c) => preds_upto(lut, c, 512),
        None => Seq::new(512, |g: int| PackedCells(g as u128)),
    }
}

/// The score of a neighbourhood: the cost of turning it into what it evolves into.
pub open spec fn pred_score(lut: RuleLut, pred: PackedCells) -> int {
    match lut.spec_evolve((pred.0 & 0x1ffu128) as u32) {
        Some(c) => lut.cost((pred.0 & 0x1ffu128) as u32, c) as int,
        None => 0,
    }
}

/// A neighbourhood scores the table's cost of the transition the table takes it through.
pub proof fn law_score_is_transition_cost(lut: RuleLut, pred: PackedCells, c: CACell)
    requires
        lut.spec_evolve((pred.0 & 0x1ffu128) as u32) == Some(c),
    ensures
        pred_score(lut, pred) == lut.cost((pred.0 & 0x1ffu128) as u32, c) as int,
{
}

/// Under a population table (every neighbourhood turns into the rule's next state, at a
/// cost of its old centre's state), a neighbourhood scores 1 when its centre is alive
/// and 0 when it is dead: a board's leaves score its live cells.
pub proof fn law_population_score(lut: RuleLut, born: Set<int>, surv: Set<int>, pred: PackedCells)
    requires
        forall|g: u32| g < 512 ==> #[trigger] lut.spec_evolve(g) == Some(crate::ca::life_cell(g, born, surv)),
        forall|g: u32| g < 512 ==> #[trigger] lut.cost(g, crate::ca::life_cell(g, born, surv)) == crate::ca::nb(g, 4) as i32,
    ensures
        pred_score(lut, pred) == (if (pred.0 >> 4u128) & 1 == 1 { 1int } else { 0int }),
{
    let v = pred.0;
    let g = (v & 0x1ffu128) as u32;
    assert(g < 512 && ((g >> 4u32) & 1u32) == ((v >> 4u128) & 1u128) as u32 && (v >> 4u128) & 1u128 <= 1) by (bit_vector)
        requires
            g == (v & 0x1ffu128) as u32,
    ;
    assert(lut.spec_evolve(g) == Some(crate::ca::life_cell(g, born, surv)));
    assert(lut.cost(g, crate::ca::life_cell(g, born, surv)) == crate::ca::nb(g, 4) as i32);
}

/// Every leaf below `w` scores each of its boards by `pred_score`.
pub open spec fn leaf_scores(w: BoardWindow, lut: RuleLut) -> bool
    decreases w,
{
    match w.inner {
        BoardWindowData::Leaf { valid_boards } => valid_boards matches Some(v) ==> (w.score_cache matches Some(sc)
            && sc@.len() == v@.len() && forall|k: int| 0 <= k < v@.len() ==> #[trigger] sc@[k] as int == pred_score(lut, v@[k])),
        BoardWindowData::SplitHorizontal { left, right, .. } => leaf_scores(*left, lut) && leaf_scores(*right, lut),
        BoardWindowData::SplitVertical { top, bottom, .. } => leaf_scores(*top, lut) && leaf_scores(*bottom, lut),
    }
}

/// The live cells of board `i` of `w` inside `w`'s rectangle.
pub open spec fn live_cells(w: BoardWindow, i: int) -> Set<Coord> {
    Set::new(|q: Coord| w.rect.contains(q) && crate::extract::board_cell(w, i, q, true) == Some(true))
}

/// Under a population table, every board of a combined window scores its number of live
/// cells.
pub proof fn law_board_score_is_population(w: BoardWindow, lut: RuleLut, born: Set<int>, surv: Set<int>, i: int)
    requires
        forall|g: u32| g < 512 ==> #[trigger] lut.spec_evolve(g) == Some(crate::ca::life_cell(g, born, surv)),
        forall|g: u32| g < 512 ==> #[trigger] lut.cost(g, crate::ca::life_cell(g, born, surv)) == crate::ca::nb(g, 4) as i32,
        w.inv(),
        crate::board::exposable(w.rect),
        crate::search::all_filled(w),
        crate::search::consistent(w),
        leaf_scores(w, lut),
        0 <= i < w.nboards()->Some_0,
    ensures
        live_cells(w, i).finite(),
        w.score(i) == Some(live_cells(w, i).len() as int),
    decreases w,
{
    match w.inner {
        BoardWindowData::Leaf { valid_boards } => {
            let v = valid_boards->Some_0;
            let sc = w.score_cache->Some_0;
            law_population_score(lut, born, surv, v@[i]);
            let c = Coord { x: w.rect.left, y: w.rect.top };
            let pr = crate::board::padded_of(w.rect);
            assert(pr.spec_width() == 3 && c.y - pr.top == 1 && c.x - pr.left == 1);
            assert(crate::basic_grids::cell_index(pr, c) == 4) by (nonlinear_arith)
                requires
                    crate::basic_grids::cell_index(pr, c) == (c.y - pr.top) * pr.spec_width() + (c.x - pr.left),
                    pr.spec_width() == 3,
                    c.y - pr.top == 1,
                    c.x - pr.left == 1,
            ;
            let x = v@[i].0;
            assert(crate::bits::bit(x, 4) == ((x >> 4u128) & 1u128 == 1u128));
            assert((x >> 4u128) & 1u128 == 0u128 || (x >> 4u128) & 1u128 == 1u128) by (bit_vector);
            assert forall|q: Coord| w.rect.contains(q) implies q == c by {}
            if crate::bits::bit(x, 4) {
                assert(live_cells(w, i) =~= Set::<Coord>::empty().insert(c));
            } else {
                assert(live_cells(w, i) =~= Set::<Coord>::empty());
            }
        },
        BoardWindowData::SplitHorizontal { left, right, valid_combos } => {
            let vc = valid_combos->Some_0;
            let (i1, i2) = (vc@[i].0 as int, vc@[i].1 as int);
            crate::predecessors::lemma_split_agrees(w, i);
            law_board_score_is_population(*left, lut, born, surv, i1);
            law_board_score_is_population(*right, lut, born, surv, i2);
            let (a, b) = (live_cells(*left, i1), live_cells(*right, i2));
            assert forall|q: Coord| #[trigger] live_cells(w, i).contains(q) == (a + b).contains(q) by {
                if left.rect.contains(q) {
                    assert(left.padded().contains(q));
                    assert(crate::extract::board_cell(w, i, q, true) == crate::extract::board_cell(*left, i1, q, true));
                }
                if right.rect.contains(q) {
                    assert(right.padded().contains(q));
                    assert(crate::extract::board_cell(w, i, q, true) == crate::extract::board_cell(*right, i2, q, true));
                }
            }
            assert(live_cells(w, i) =~= a + b);
            assert(a.disjoint(b));
            vstd::set_lib::lemma_set_disjoint_lens(a, b);
        },
        BoardWindowData::SplitVertical { top, bottom, valid_combos } => {
            let vc = valid_combos->Some_0;
            let (i1, i2) = (vc@[i].0 as int, vc@[i].1 as int);
            crate::predecessors::lemma_split_agrees(w, i);
            law_board_score_is_population(*top, lut, born, surv, i1);
            law_board_score_is_population(*bottom, lut, born, surv, i2);
            let (a, b) = (live_cells(*top, i1), live_cells(*bottom, i2));
            assert forall|q: Coord| #[trigger] live_cells(w, i).contains(q) == (a + b).contains(q) by {
                if top.rect.contains(q) {
                    assert(top.padded().contains(q));
                    assert(crate::extract::board_cell(w, i, q, true) == crate::extract::board_cell(*top, i1, q, true));
                }
                if bottom.rect.contains(q) {
                    assert(bottom.padded().contains(q));
                    assert(crate::extract::board_cell(w, i, q, true) == crate::extract::board_cell(*bottom, i2, q, true));
                }
            }
            assert(live_cells(w, i) =~= a + b);
            assert(a.disjoint(b));
            vstd::set_lib::lemma_set_disjoint_lens(a, b);
        },
    }
}

/// The cell at `p` of a grid that covers it, `None` where the grid says nothing.
pub open spec fn grid_cell(g: Grid<Option<CACell>>, p: Coord) -> Option<CACell> {
    g.at(p)
}

/// Every leaf holds the candidates for its cell and their scores; nothing else changed.
pub open spec fn filled(w: BoardWindow, old: BoardWindow, lut: RuleLut, gen0: Grid<Option<CACell>>, gen1: Grid<Option<CACell>>) -> bool
    decreases w,
{
    &&& w.rect == old.rect
    &&& w.forced_dead == old.forced_dead
    &&& w.exposure_cache == old.exposure_cache
    &&& w.exposure_sort_order_cache == old.exposure_sort_order_cache
    &&& match (w.inner, old.inner) {
        (BoardWindowData::Leaf { valid_boards }, BoardWindowData::Leaf { .. }) => {
            let p = Coord { x: w.rect.left, y: w.rect.top };
            let c = candidates(lut, grid_cell(gen0, p), w.forced_dead, considered(lut, grid_cell(gen1, p)));
            &&& valid_boards matches Some(v) && v@ == c
            &&& w.score_cache matches Some(sc) && sc@.len() == c.len() && forall|k: int|
                0 <= k < c.len() ==> #[trigger] sc@[k] as int == pred_score(lut, c[k])
        },
        (
            BoardWindowData::SplitHorizontal { left: l1, right: r1, valid_combos: x },
            BoardWindowData::SplitHorizontal { left: l2, right: r2, valid_combos: y },
        ) => x == y && w.score_cache == old.score_cache && filled(*l1, *l2, lut, gen0, gen1) && filled(*r1, *r2, lut, gen0, gen1),
        (
            BoardWindowData::SplitVertical { top: t1, bottom: b1, valid_combos: x },
            BoardWindowData::SplitVertical { top: t2, bottom: b2, valid_combos: y },
        ) => x == y && w.score_cache == old.score_cache && filled(*t1, *t2, lut, gen0, gen1) && filled(*b1, *b2, lut, gen0, gen1),
        _ => false,
    }
}

/// No list, combination or cache has been made yet, at any depth.
pub open spec fn fresh(w: BoardWindow) -> bool
    decreases w,
{
    &&& forall|d: Direction| #[trigger] w.exposure_cache@[spec_dir_index(d)] is None
    &&& forall|d: Direction| #[trigger] w.exposure_sort_order_cache@[spec_dir_index(d)] is None
    &&& w.score_cache is None
    &&& match w.inner {
        BoardWindowData::Leaf { valid_boards } => valid_boards is None,
        BoardWindowData::SplitHorizontal { left, right, valid_combos } => valid_combos is None && fresh(*left) && fresh(*right),
        BoardWindowData::SplitVertical { top, bottom, valid_combos } => valid_combos is None && fresh(*top) && fresh(*bottom),
    }
}

/// Every cost of the table lies within `-b..=b`.
pub open spec fn costs_within(lut: RuleLut, b: int) -> bool {
    forall|k: int| 0 <= k < lut.transition_cost@.len() ==> -b <= #[trigger] lut.transition_cost@[k] <= b
}

/// The grid has a cell at every cell of `r`.
pub open spec fn covers<T>(g: Grid<T>, r: Rect) -> bool {
    &&& g.wf()
    &&& g.size.top <= r.top
    &&& r.bottom <= g.size.bottom
    &&& g.size.left <= r.left
    &&& r.right <= g.size.right
}

/// Neighbourhoods that turn into `c` are nine-cell words.
proof fn lemma_preds_small(lut: RuleLut, c: CACell, n: int)
    requires
        0 <= n <= 512,
    ensures
        forall|k: int| 0 <= k < preds_upto(lut, c, n).len() ==> (#[trigger] preds_upto(lut, c, n)[k]).0 < n,
    decreases n,
{
    if n > 0 {
        lemma_preds_small(lut, c, n - 1);
        let prev = preds_upto(lut, c, n - 1);
        assert forall|k: int| 0 <= k < preds_upto(lut, c, n).len() implies (#[trigger] preds_upto(lut, c, n)[k]).0 < n by {
            if k < prev.len() {
                assert(preds_upto(lut, c, n)[k] == prev[k]);
            }
        }
    }
}

/// Candidates are entries of the list they are taken from.
proof fn lemma_candidates_from(lut: RuleLut, gen0c: Option<CACell>, fd: Directions, s: Seq<PackedCells>)
    ensures
        forall|k: int|
            0 <= k < candidates(lut, gen0c, fd, s).len() ==> s.contains(#[trigger] candidates(lut, gen0c, fd, s)[k]),
        candidates(lut, gen0c, fd, s).len() <= s.len(),
    decreases s.len(),
{
    if s.len() > 0 {
        lemma_candidates_from(lut, gen0c, fd, s.drop_last());
        let prev = candidates(lut, gen0c, fd, s.drop_last());
        assert forall|k: int| 0 <= k < candidates(lut, gen0c, fd, s).len() implies s.contains(
            #[trigger] candidates(lut, gen0c, fd, s)[k],
        ) by {
            if k < prev.len() {
                let j = choose|j: int| 0 <= j < s.drop_last().len() && s.drop_last()[j] == prev[k];
                assert(s[j] == prev[k]);
            } else {
                assert(s[s.len() - 1] == s.last());
            }
        }
    }
}

/// Whether `pred` passes the test of side `d` (see `side_ok`).
fn side_test(lut: &RuleLut, pred: PackedCells, d: Direction) -> (r: bool)
    requires
        lut.wf(),
        pred.0 < 512,
    ensures
        r == side_ok(*lut, pred, d),
{
    let od = d.opposite();
    let x33 = Rect::new(0, 0, 3, 3);
    let x23 = x33.trim(od, 1);
    let x13 = x33.trim(d, 2);
    proof {
        lemma_fits_nine(pred.0);
        assert(x33.spec_width() == 3 && x33.spec_height() == 3);
        assert(x33.spec_width() * x33.spec_height() == 9);
    }
    let outer = pred.trim(x33, od, 2);
    if outer.0 != 0 {
        return false;
    }
    let near = pred.trim(x33, od, 1);
    proof {
        assert(fits(0u128, x13.spec_width() * x13.spec_height())) by {
            assert forall|i: int| x13.spec_width() * x13.spec_height() <= i implies !#[trigger] crate::bits::bit(0u128, i) by {
                lemma_bit_zero(i);
            }
        }
        match d {
            Direction::Up | Direction::Down => {
                assert(x23.spec_width() == 3 && x23.spec_height() == 2);
                assert(x13.spec_width() == 3 && x13.spec_height() == 1);
            },
            Direction::Left | Direction::Right => {
                assert(x23.spec_width() == 2 && x23.spec_height() == 3);
                assert(x13.spec_width() == 1 && x13.spec_height() == 3);
            },
        }
        let (w23, h23, w13, h13) = (x23.spec_width(), x23.spec_height(), x13.spec_width(), x13.spec_height());
        assert(w23 * h23 == 6 && w13 * h13 == 3) by (nonlinear_arith)
            requires
                (w23 == 3 && h23 == 2 && w13 == 3 && h13 == 1) || (w23 == 2 && h23 == 3 && w13 == 1 && h13 == 3),
        ;
    }
    let joined = near.join(PackedCells(0), x23, x13, od);
    match lut.evolve(joined) {
        Some(CACell::DEAD) => true,
        _ => false,
    }
}

/// Whether `pred` is a candidate (see `candidate`); `dirs` lists the sides of `fd`.
fn candidate_test(lut: &RuleLut, gen0c: Option<CACell>, fd: Directions, dirs: &Vec<Direction>, pred: PackedCells) -> (r: bool)
    requires
        lut.wf(),
        pred.0 < 512,
        forall|d: Direction| fd.has(d) <==> dirs@.contains(d),
    ensures
        r == candidate(*lut, gen0c, fd, pred),
{
    let n = dirs.len();
    let mut i: usize = 0;
    while i < n
        invariant
            n == dirs@.len(),
            i <= n,
            lut.wf(),
            pred.0 < 512,
            forall|d: Direction| fd.has(d) <==> dirs@.contains(d),
            forall|k: int| 0 <= k < i ==> side_ok(*lut, pred, #[trigger] dirs@[k]),
        decreases n - i,
    {
        if !side_test(lut, pred, dirs[i]) {
            proof {
                assert(dirs@.contains(dirs@[i as int]));
                assert(fd.has(dirs@[i as int]));
            }
            return false;
        }
        i = i + 1;
    }
    proof {
        assert forall|d: Direction| fd.has(d) implies side_ok(*lut, pred, d) by {
            assert(dirs@.contains(d));
            let k = choose|k: int| 0 <= k < dirs@.len() && dirs@[k] == d;
        }
    }
    match gen0c {
        Some(x) => (x.into_u8() as u128) == ((pred.0 >> 4) & 1),
        None => true,
    }
}

/// The candidates for a leaf cell and their scores.
fn leaf_boards(lut: &RuleLut, gen0c: Option<CACell>, gen1c: Option<CACell>, fd: Directions) -> (r: (Vec<PackedCells>, Vec<i32>))
    requires
        lut.wf(),
    ensures
        r.0@ == candidates(*lut, gen0c, fd, considered(*lut, gen1c)),
        r.1@.len() == r.0@.len(),
        forall|k: int| 0 <= k < r.0@.len() ==> #[trigger] r.1@[k] as int == pred_score(*lut, r.0@[k]),
{
    let neighs: Vec<PackedCells> = match gen1c {
        Some(c) => lut.get_pred(c),
        None => {
            let mut all: Vec<PackedCells> = Vec::new();
            let mut g: u32 = 0;
            while g < 512
                invariant
                    g <= 512,
                    all@ == Seq::new(g as nat, |k: int| PackedCells(k as u128)),
                decreases 512 - g,
            {
                all.push(PackedCells(g as u128));
                g = g + 1;
                proof {
                    assert(all@ =~= Seq::new(g as nat, |k: int| PackedCells(k as u128)));
                }
            }
            all
        },
    };
    proof {
        if let Some(c) = gen1c {
            lemma_preds_small(*lut, c, 512);
        }
        assert(neighs@ == considered(*lut, gen1c));
    }
    let dirs = fd.iter();
    let mut cands: Vec<PackedCells> = Vec::new();
    let mut scores: Vec<i32> = Vec::new();
    let n = neighs.len();
    let mut i: usize = 0;
    while i < n
        invariant
            n == neighs@.len(),
            i <= n,
            lut.wf(),
            forall|k: int| 0 <= k < neighs@.len() ==> (#[trigger] neighs@[k]).0 < 512,
            forall|d: Direction| fd.has(d) <==> dirs@.contains(d),
            cands@ == candidates(*lut, gen0c, fd, neighs@.take(i as int)),
            scores@.len() == cands@.len(),
            forall|k: int| 0 <= k < cands@.len() ==> #[trigger] scores@[k] as int == pred_score(*lut, cands@[k]),
        decreases n - i,
    {
        let pred = neighs[i];
        proof {
            assert(neighs@.take(i + 1).drop_last() =~= neighs@.take(i as int));
        }
        if candidate_test(lut, gen0c, fd, &dirs, pred) {
            cands.push(pred);
            scores.push(lut.get_score(&pred, lut.evolve(pred)));
        }
        i = i + 1;
    }
    proof {
        assert(neighs@.take(n as int) =~= neighs@);
    }
    (cands, scores)
}

impl BoardWindow {
    /// Gives every leaf the neighbourhoods that may precede its cell: those that turn
    /// into the cell's state in `gen1` (where known), whose centre is the cell's state
    /// in `gen0` (where known), and that keep every forced-dead side dead; each with its
    /// score.
    pub fn fill_leaves(&mut self, rule_lut: &RuleLut, gen0: &Grid<Option<CACell>>, gen1: &Grid<Option<CACell>>) -> (r: Option<()>)
        requires
            old(self).inv(),
            fresh(*old(self)),
            rule_lut.wf(),
            covers(*gen0, old(self).rect),
            covers(*gen1, old(self).rect),
        ensures
            r == Some(()),
            final(self).inv(),
            filled(*final(self), *old(self), *rule_lut, *gen0, *gen1),
            forall|b: int| #[trigger] costs_within(*rule_lut, b) ==> final(self).scores_within(b),
        decreases old(self).rect.spec_width() + old(self).rect.spec_height(),
    {
        let mut inner = BoardWindowData::Leaf { valid_boards: None };
        std::mem::swap(&mut inner, &mut self.inner);
        match inner {
            BoardWindowData::Leaf { .. } => {
                let p = Coord { x: self.rect.left, y: self.rect.top };
                let gen1c = *gen1.get(p);
                let gen0c = *gen0.get(p);
                let (boards, scores) = leaf_boards(rule_lut, gen0c, gen1c, self.forced_dead);
                proof {
                    lemma_candidates_from(*rule_lut, gen0c, self.forced_dead, considered(*rule_lut, gen1c));
                    if let Some(c) = gen1c {
                        lemma_preds_small(*rule_lut, c, 512);
                    }
                    assert forall|k: int| 0 <= k < boards@.len() implies (#[trigger] boards@[k]).0 < 512 by {
                        let s = considered(*rule_lut, gen1c);
                        let j = choose|j: int| 0 <= j < s.len() && s[j] == boards@[k];
                    }
                    assert forall|b: int| #[trigger] costs_within(*rule_lut, b) implies forall|k: int|
                        0 <= k < scores@.len() ==> -b <= #[trigger] scores@[k] <= b by {
                        assert(-b <= rule_lut.transition_cost@[0] <= b);
                        assert forall|k: int| 0 <= k < scores@.len() implies -b <= #[trigger] scores@[k] <= b by {
                            let pred = boards@[k];
                            let g = (pred.0 & 0x1ffu128) as u32;
                            match rule_lut.spec_evolve(g) {
                                Some(c) => {
                                    lemma_lut_index(g, c);
                                    assert(-b <= rule_lut.transition_cost@[crate::ca::lut_index(g, c)] <= b);
                                },
                                None => {},
                            }
                        }
                    }
                }
                self.inner = BoardWindowData::Leaf { valid_boards: Some(boards) };
                self.score_cache = Some(scores);
            },
            BoardWindowData::SplitHorizontal { mut left, mut right, valid_combos } => {
                left.fill_leaves(rule_lut, gen0, gen1);
                right.fill_leaves(rule_lut, gen0, gen1);
                self.inner = BoardWindowData::SplitHorizontal { left, right, valid_combos };
            },
            BoardWindowData::SplitVertical { mut top, mut bottom, valid_combos } => {
                top.fill_leaves(rule_lut, gen0, gen1);
                bottom.fill_leaves(rule_lut, gen0, gen1);
                self.inner = BoardWindowData::SplitVertical { top, bottom, valid_combos };
            },
        }
        proof {
            assert forall|d: Direction| #[trigger] self.exposure_cache_ok(d) by {
                assert(self.exposure_cache@[spec_dir_index(d)] is None);
            }
            assert forall|d: Direction| #[trigger] self.sort_cache_ok(d) by {
                assert(self.exposure_sort_order_cache@[spec_dir_index(d)] is None);
            }
        }
        Some(())
    }
}

} // verus!
