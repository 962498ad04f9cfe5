//! How often each cell is alive across all the boards of a window.
use vstd::prelude::*;
use crate::basic_grids::{cell_index, Coord, Grid, Rect};
use crate::board::{BoardWindow, BoardWindowData};
use crate::ca::{cell_of, CACell};
use crate::extract::board_cell;
use crate::leaves::covers;
use crate::search::all_filled;

verus! {

/// Every board of a filled window writes a centre into every cell of the window.
pub proof fn lemma_centres_cover(w: BoardWindow, i: int, p: Coord)
    requires
        w.inv(),
        all_filled(w),
        0 <= i < w.nboards()->Some_0,
        w.rect.contains(p),
    ensures
        board_cell(w, i, p, false) is Some,
    decreases w,
{
    match w.inner {
        BoardWindowData::SplitHorizontal { left, right, valid_combos } => {
            let vc = valid_combos->Some_0;
            if right.rect.contains(p) {
                lemma_centres_cover(*right, vc@[i].1 as int, p);
            } else {
                lemma_centres_cover(*left, vc@[i].0 as int, p);
            }
        },
        BoardWindowData::SplitVertical { top, bottom, valid_combos } => {
            let vc = valid_combos->Some_0;
            if bottom.rect.contains(p) {
                lemma_centres_cover(*bottom, vc@[i].1 as int, p);
            } else {
                lemma_centres_cover(*top, vc@[i].0 as int, p);
            }
        },
        _ => {},
    }
}

/// How many of the first `m` boards of `w` have cell `p` alive.
pub open spec fn alive_count(w: BoardWindow, p: Coord, m: int) -> int
    decreases m,
{
    if m <= 0 {
        0
    } else {
        alive_count(w, p, m - 1) + if board_cell(w, m - 1, p, false) == Some(true) {
            1int
        } else {
            0
        }
    }
}

proof fn lemma_alive_count_bounds(w: BoardWindow, p: Coord, m: int)
    requires
        0 <= m,
    ensures
        0 <= alive_count(w, p, m) <= m,
    decreases m,
{
    if m > 0 {
        lemma_alive_count_bounds(w, p, m - 1);
    }
}

impl BoardWindow {
    /// For every cell of the window: on how many boards it is alive, and on how many dead.
    pub fn get_all_boards_stats(&self) -> (r: Option<Grid<(u32, u32)>>)
        requires
            self.inv(),
            all_filled(*self),
            self.nboards()->Some_0 <= u32::MAX,
            self.rect.spec_width() * self.rect.spec_height() <= i32::MAX,
        ensures
            r matches Some(g) && g.wf() && g.size == self.rect && forall|p: Coord|
                #[trigger] self.rect.contains(p) ==> g.at(p) == (
                    alive_count(*self, p, self.nboards()->Some_0) as u32,
                    (self.nboards()->Some_0 - alive_count(*self, p, self.nboards()->Some_0)) as u32,
                ),
    {
        let nboard = match self.get_num_valid_boards() {
            Some(n) => n,
            None => {
                return None;
            },
        };
        let rect = self.rect;
        let mut board_liv: Grid<u32> = Grid::from_rect(rect, 0);
        let mut board: Grid<CACell> = Grid::from_rect(rect, CACell::DEAD);
        proof {
            assert forall|p: Coord| #[trigger] rect.contains(p) implies board_liv.at(p) == 0 by {
                crate::basic_grids::lemma_index_bounds(rect, p);
                assert(cloned(0u32, board_liv.data@[cell_index(rect, p)]));
            }
        }
        let mut i: u64 = 0;
        while i < nboard
            invariant
                self.inv(),
                all_filled(*self),
                nboard == self.nboards()->Some_0,
                nboard <= u32::MAX,
                i <= nboard,
                rect == self.rect,
                board_liv.wf(),
                board_liv.size == rect,
                covers(board, rect),
                board.size == rect,
                forall|p: Coord| #[trigger] rect.contains(p) ==> board_liv.at(p) as int == alive_count(*self, p, i as int),
            decreases nboard - i,
        {
            let _ = self.write_to_grid(i, &mut board, false);
            proof {
                assert forall|p: Coord| #[trigger] rect.contains(p) implies board.at(p) == cell_of(
                    board_cell(*self, i as int, p, false)->Some_0,
                ) by {
                    lemma_centres_cover(*self, i as int, p);
                    assert(board.size.contains(p));
                }
            }
            let mut y = rect.top;
            while y < rect.bottom
                invariant
                    self.inv(),
                    all_filled(*self),
                    nboard == self.nboards()->Some_0,
                    nboard <= u32::MAX,
                    i < nboard,
                    rect == self.rect,
                    rect.top <= y <= rect.bottom,
                    board_liv.wf(),
                    board_liv.size == rect,
                    board.wf(),
                    board.size == rect,
                    forall|p: Coord| #[trigger] rect.contains(p) ==> board.at(p) == cell_of(board_cell(*self, i as int, p, false)->Some_0),
                    forall|p: Coord|
                        #[trigger] rect.contains(p) ==> board_liv.at(p) as int == alive_count(*self, p, i as int) + if p.y < y
                            && board_cell(*self, i as int, p, false) == Some(true) {
                            1int
                        } else {
                            0
                        },
                decreases rect.bottom - y,
            {
                let mut x = rect.left;
                while x < rect.right
                    invariant
                        self.inv(),
                        all_filled(*self),
                        nboard == self.nboards()->Some_0,
                        nboard <= u32::MAX,
                        i < nboard,
                        rect == self.rect,
                        rect.top <= y < rect.bottom,
                        rect.left <= x <= rect.right,
                        board_liv.wf(),
                        board_liv.size == rect,
                        board.wf(),
                        board.size == rect,
                        forall|p: Coord| #[trigger] rect.contains(p) ==> board.at(p) == cell_of(board_cell(*self, i as int, p, false)->Some_0),
                        forall|p: Coord|
                            #[trigger] rect.contains(p) ==> board_liv.at(p) as int == alive_count(*self, p, i as int) + if (p.y < y || (
                            p.y == y && p.x < x)) && board_cell(*self, i as int, p, false) == Some(true) {
                                1int
                            } else {
                                0
                            },
                    decreases rect.right - x,
                {
                    let q = Coord { x, y };
                    proof {
                        crate::basic_grids::lemma_index_bounds(rect, q);
                        lemma_alive_count_bounds(*self, q, i as int);
                    }
                    match board.get(q) {
                        CACell::ALIVE => {
                            let c = *board_liv.get(q);
                            let slot = board_liv.get_mut(q);
                            *slot = c + 1;
                            proof {
                                assert forall|p: Coord| #[trigger] rect.contains(p) implies board_liv.at(p) as int == alive_count(*self, p, i as int)
                                    + if (p.y < y || (p.y == y && p.x < x + 1)) && board_cell(*self, i as int, p, false) == Some(true) {
                                    1int
                                } else {
                                    0
                                } by {
                                    crate::basic_grids::lemma_index_bounds(rect, p);
                                    if cell_index(rect, p) == cell_index(rect, q) {
                                        crate::basic_grids::lemma_index_injective(rect, p, q);
                                    }
                                    lemma_centres_cover(*self, i as int, p);
                                }
                            }
                        },
                        CACell::DEAD => {
                            proof {
                                assert forall|p: Coord| #[trigger] rect.contains(p) implies board_liv.at(p) as int == alive_count(*self, p, i as int)
                                    + if (p.y < y || (p.y == y && p.x < x + 1)) && board_cell(*self, i as int, p, false) == Some(true) {
                                    1int
                                } else {
                                    0
                                } by {
                                    lemma_centres_cover(*self, i as int, p);
                                }
                            }
                        },
                    }
                    x = x + 1;
                }
                y = y + 1;
            }
            i = i + 1;
        }
        let mut stats: Grid<(u32, u32)> = Grid::from_rect(rect, (0, 0));
        let mut y = rect.top;
        while y < rect.bottom
            invariant
                nboard == self.nboards()->Some_0,
                nboard <= u32::MAX,
                rect == self.rect,
                rect.top <= y <= rect.bottom,
                board_liv.wf(),
                board_liv.size == rect,
                stats.wf(),
                stats.size == rect,
                forall|p: Coord| #[trigger] rect.contains(p) ==> board_liv.at(p) as int == alive_count(*self, p, nboard as int),
                forall|p: Coord|
                    #[trigger] rect.contains(p) && p.y < y ==> stats.at(p) == (
                        alive_count(*self, p, nboard as int) as u32,
                        (nboard - alive_count(*self, p, nboard as int)) as u32,
                    ),
            decreases rect.bottom - y,
        {
            let mut x = rect.left;
            while x < rect.right
                invariant
                    nboard == self.nboards()->Some_0,
                    nboard <= u32::MAX,
                    rect == self.rect,
                    rect.top <= y < rect.bottom,
                    rect.left <= x <= rect.right,
                    board_liv.wf(),
                    board_liv.size == rect,
                    stats.wf(),
                    stats.size == rect,
                    forall|p: Coord| #[trigger] rect.contains(p) ==> board_liv.at(p) as int == alive_count(*self, p, nboard as int),
                    forall|p: Coord|
                        #[trigger] rect.contains(p) && (p.y < y || (p.y == y && p.x < x)) ==> stats.at(p) == (
                            alive_count(*self, p, nboard as int) as u32,
                            (nboard - alive_count(*self, p, nboard as int)) as u32,
                        ),
                decreases rect.right - x,
            {
                let q = Coord { x, y };
                proof {
                    crate::basic_grids::lemma_index_bounds(rect, q);
                    lemma_alive_count_bounds(*self, q, nboard as int);
                    assert(rect.contains(q));
                }
                let liv = *board_liv.get(q);
                let slot = stats.get_mut(q);
                *slot = (liv, nboard as u32 - liv);
                proof {
                    assert forall|p: Coord|
                        #[trigger] rect.contains(p) && (p.y < y || (p.y == y && p.x < x + 1)) implies stats.at(p) == (
                            alive_count(*self, p, nboard as int) as u32,
                            (nboard - alive_count(*self, p, nboard as int)) as u32,
                        ) by {
                        crate::basic_grids::lemma_index_bounds(rect, p);
                        if cell_index(rect, p) == cell_index(rect, q) {
                            crate::basic_grids::lemma_index_injective(rect, p, q);
                        }
                    }
                }
                x = x + 1;
            }
            y = y + 1;
        }
        Some(stats)
    }
}

} // verus!
