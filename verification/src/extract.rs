//! Reading a whole board of a window back out of its tree of combinations.
use vstd::prelude::*;
use crate::basic_grids::{cell_index, Coord, Grid, Rect};
use crate::bits::bit;
use crate::board::{exposable, padded_of, BoardWindow, BoardWindowData};
use crate::ca::{cell_of, CACell};
use crate::leaves::covers;

verus! {

/// The cell at `p` that board `i` of `w` writes: every leaf below writes its 3x3
/// neighbourhood (only its centre when `border` is false), and where two parts of a
/// split both write a cell, the right (or bottom) part wins. `None` where nothing is
/// written.
pub open spec fn board_cell(w: BoardWindow, i: int, p: Coord, border: bool) -> Option<bool>
    decreases w,
{
    match w.inner {
        BoardWindowData::Leaf { valid_boards } => match valid_boards {
            Some(v) => {
                let pr = padded_of(w.rect);
                if border {
                    if pr.contains(p) {
                        Some(bit(v@[i].0, cell_index(pr, p)))
                    } else {
                        None
                    }
                } else if p == (Coord { x: w.rect.left, y: w.rect.top }) {
                    Some(bit(v@[i].0, 4))
                } else {
                    None
                }
            },
            None => None,
        },
        BoardWindowData::SplitHorizontal { left, right, valid_combos } => match valid_combos {
            Some(vc) => match board_cell(*right, vc@[i].1 as int, p, border) {
                Some(b) => Some(b),
                None => board_cell(*left, vc@[i].0 as int, p, border),
            },
            None => None,
        },
        BoardWindowData::SplitVertical { top, bottom, valid_combos } => match valid_combos {
            Some(vc) => match board_cell(*bottom, vc@[i].1 as int, p, border) {
                Some(b) => Some(b),
                None => board_cell(*top, vc@[i].0 as int, p, border),
            },
            None => None,
        },
    }
}

/// What a grid holds after board `i` of `w` is written over `g`.
pub open spec fn written(w: BoardWindow, i: int, border: bool, g: Grid<CACell>, p: Coord) -> CACell {
    match board_cell(w, i, p, border) {
        Some(b) => cell_of(b),
        None => g.at(p),
    }
}

impl BoardWindow {
    /// Writes board `i` into `grid` (see `board_cell`).
    pub fn write_to_grid(&self, i: u64, grid: &mut Grid<CACell>, write_border: bool) -> (r: Option<()>)
        requires
            self.inv(),
            self.nboards() matches Some(n) ==> i < n,
            covers(*old(grid), if write_border { padded_of(self.rect) } else { self.rect }),
        ensures
            r is Some <==> self.nboards() is Some,
            final(grid).wf(),
            final(grid).size == old(grid).size,
            forall|p: Coord| #[trigger] final(grid).size.contains(p) ==> final(grid).at(p) == written(*self, i as int, write_border, *old(grid), p),
        decreases self,
    {
        let ghost g0 = *grid;
        match &self.inner {
            BoardWindowData::Leaf { valid_boards: Some(valid_boards) } => {
                proof {
                    assert(i < valid_boards.len());
                }
                let board = valid_boards[i as usize];
                let pr = self.get_padded_rect();
                if write_border {
                    let mut y: i32 = 0;
                    while y < 3
                        invariant
                            0 <= y <= 3,
                            pr == padded_of(self.rect),
                            pr.spec_width() == 3 && pr.spec_height() == 3,
                            covers(*grid, pr),
                            grid.size == g0.size,
                            forall|p: Coord| #[trigger] grid.size.contains(p) ==> grid.at(p) == if pr.contains(p) && p.y - pr.top < y {
                                cell_of(bit(board.0, cell_index(pr, p)))
                            } else {
                                g0.at(p)
                            },
                        decreases 3 - y,
                    {
                        let mut x: i32 = 0;
                        while x < 3
                            invariant
                                0 <= y < 3,
                                0 <= x <= 3,
                                pr.spec_width() == 3 && pr.spec_height() == 3,
                                covers(*grid, pr),
                                grid.size == g0.size,
                                forall|p: Coord| #[trigger] grid.size.contains(p) ==> grid.at(p) == if pr.contains(p) && (p.y - pr.top < y || (
                                p.y - pr.top == y && p.x - pr.left < x)) {
                                    cell_of(bit(board.0, cell_index(pr, p)))
                                } else {
                                    g0.at(p)
                                },
                            decreases 3 - x,
                        {
                            let is_alive = (board.0 >> ((y * 3 + x) as u128)) & 1 == 1;
                            let q = Coord { x: pr.left + x, y: pr.top + y };
                            proof {
                                assert(cell_index(pr, q) == y * 3 + x);
                            }
                            let ghost before = *grid;
                            proof {
                                crate::basic_grids::lemma_index_bounds(grid.size, q);
                            }
                            let v = if is_alive {
                                CACell::ALIVE
                            } else {
                                CACell::DEAD
                            };
                            let slot = grid.get_mut(q);
                            *slot = v;
                            proof {
                                assert forall|p: Coord| #[trigger] grid.size.contains(p) implies grid.at(p) == if pr.contains(p) && (p.y
                                    - pr.top < y || (p.y - pr.top == y && p.x - pr.left < x + 1)) {
                                    cell_of(bit(board.0, cell_index(pr, p)))
                                } else {
                                    g0.at(p)
                                } by {
                                    crate::basic_grids::lemma_index_bounds(grid.size, p);
                                    if cell_index(grid.size, p) == cell_index(grid.size, q) {
                                        crate::basic_grids::lemma_index_injective(grid.size, p, q);
                                    }
                                    if p != q {
                                        assert(grid.at(p) == before.at(p));
                                    }
                                }
                                assert(grid.data@.len() == before.data@.len());
                            }
                            x = x + 1;
                        }
                        y = y + 1;
                    }
                } else {
                    let is_alive = (board.0 >> 4) & 1 == 1;
                    let q = Coord { x: pr.left + 1, y: pr.top + 1 };
                    let ghost before = *grid;
                    proof {
                        crate::basic_grids::lemma_index_bounds(grid.size, q);
                    }
                    let v = if is_alive {
                        CACell::ALIVE
                    } else {
                        CACell::DEAD
                    };
                    let slot = grid.get_mut(q);
                    *slot = v;
                    proof {
                        assert forall|p: Coord| #[trigger] grid.size.contains(p) implies grid.at(p) == written(*self, i as int, write_border, g0, p) by {
                            crate::basic_grids::lemma_index_bounds(grid.size, p);
                            if cell_index(grid.size, p) == cell_index(grid.size, q) {
                                crate::basic_grids::lemma_index_injective(grid.size, p, q);
                            }
                        }
                        assert(grid.data@.len() == before.data@.len());
                    }
                }
                Some(())
            },
            BoardWindowData::SplitHorizontal { left, right, valid_combos: Some(valid_combos) } => {
                proof {
                    assert(i < valid_combos.len());
                }
                let (i1, i2) = valid_combos[i as usize];
                left.write_to_grid(i1, grid, write_border);
                right.write_to_grid(i2, grid, write_border);
                Some(())
            },
            BoardWindowData::SplitVertical { top, bottom, valid_combos: Some(valid_combos) } => {
                proof {
                    assert(i < valid_combos.len());
                }
                let (i1, i2) = valid_combos[i as usize];
                top.write_to_grid(i1, grid, write_border);
                bottom.write_to_grid(i2, grid, write_border);
                Some(())
            },
            _ => None,
        }
    }

    /// The whole of board `i`, over the window's padded rectangle.
    pub fn extract_board(&self, i: u64) -> (r: Option<Grid<CACell>>)
        requires
            self.inv(),
            exposable(self.rect),
            self.nboards() matches Some(n) ==> i < n,
        ensures
            r is Some <==> self.nboards() is Some,
            r matches Some(g) ==> {
                &&& g.wf()
                &&& g.size == padded_of(self.rect)
                &&& forall|p: Coord| #[trigger] g.size.contains(p) ==> g.at(p) == match board_cell(*self, i as int, p, true) {
                    Some(b) => cell_of(b),
                    None => CACell::DEAD,
                }
            },
    {
        let padded_rect = self.get_padded_rect();
        let h = padded_rect.height();
        let w = padded_rect.width();
        proof {
            assert(w * h <= 63 * 63) by (nonlinear_arith)
                requires
                    0 < w <= 63,
                    0 < h <= 63,
            ;
        }
        let mut grid = Grid::new(h, w, CACell::DEAD);
        proof {
            assert forall|k: int| 0 <= k < grid.data@.len() implies grid.data@[k] == CACell::DEAD by {
                assert(cloned(CACell::DEAD, grid.data@[k]));
            }
        }
        grid.size = padded_rect;
        let ghost g0 = grid;
        match self.write_to_grid(i, &mut grid, true) {
            Some(()) => {
                proof {
                    assert forall|p: Coord| #[trigger] grid.size.contains(p) implies grid.at(p) == match board_cell(*self, i as int, p, true) {
                        Some(b) => cell_of(b),
                        None => CACell::DEAD,
                    } by {
                        crate::basic_grids::lemma_index_bounds(g0.size, p);
                    }
                }
                Some(grid)
            },
            None => None,
        }
    }
}

} // verus!
