//! Taking the windows at one depth of a tree out, as a grid, and putting them back.
use vstd::prelude::*;
use crate::basic_grids::{rotated_source, spec_opposite, spec_rotate_90_cw, turned, Coord, Direction, Directions, Grid, Rect};
use crate::board::{exposable, exposure_rect_of, inner_retained, inner_within, option_retained, partner_mask};
use crate::packed::PackedCells;
use crate::degenerate::best_mask;
use crate::scores::subset_of;
use crate::retain::kept_indices;
use crate::outside::{lemma_sorted_pairs, pair_le, par_sort, sorted_pairs};
use crate::board::{BoardWindow, BoardWindowData};

verus! {

/// The windows `depth` splits below `w`, the left (or top) part's first.
pub open spec fn at_depth(w: BoardWindow, depth: nat) -> Seq<BoardWindow>
    decreases depth,
{
    if depth == 0 {
        seq![w]
    } else {
        match w.inner {
            BoardWindowData::Leaf { .. } => Seq::empty(),
            BoardWindowData::SplitHorizontal { left, right, .. } => at_depth(*left, (depth - 1) as nat) + at_depth(
                *right,
                (depth - 1) as nat,
            ),
            BoardWindowData::SplitVertical { top, bottom, .. } => at_depth(*top, (depth - 1) as nat) + at_depth(
                *bottom,
                (depth - 1) as nat,
            ),
        }
    }
}

/// `w` with the windows `depth` splits below it replaced, in order, by `ws`.
pub open spec fn replaced(w: BoardWindow, depth: nat, ws: Seq<BoardWindow>) -> BoardWindow
    decreases depth,
{
    if depth == 0 {
        ws[0]
    } else {
        match w.inner {
            BoardWindowData::Leaf { .. } => w,
            BoardWindowData::SplitHorizontal { left, right, valid_combos } => {
                let n = at_depth(*left, (depth - 1) as nat).len() as int;
                BoardWindow {
                    inner: BoardWindowData::SplitHorizontal {
                        left: Box::new(replaced(*left, (depth - 1) as nat, ws.take(n))),
                        right: Box::new(replaced(*right, (depth - 1) as nat, ws.skip(n))),
                        valid_combos,
                    },
                    ..w
                }
            },
            BoardWindowData::SplitVertical { top, bottom, valid_combos } => {
                let n = at_depth(*top, (depth - 1) as nat).len() as int;
                BoardWindow {
                    inner: BoardWindowData::SplitVertical {
                        top: Box::new(replaced(*top, (depth - 1) as nat, ws.take(n))),
                        bottom: Box::new(replaced(*bottom, (depth - 1) as nat, ws.skip(n))),
                        valid_combos,
                    },
                    ..w
                }
            },
        }
    }
}

/// Putting back the windows that were there gives the tree back.
pub proof fn lemma_replaced_same(w: BoardWindow, depth: nat)
    ensures
        replaced(w, depth, at_depth(w, depth)) == w,
    decreases depth,
{
    if depth > 0 {
        match w.inner {
            BoardWindowData::SplitHorizontal { left, right, .. } => {
                let l = at_depth(*left, (depth - 1) as nat);
                let r = at_depth(*right, (depth - 1) as nat);
                assert((l + r).take(l.len() as int) =~= l);
                assert((l + r).skip(l.len() as int) =~= r);
                lemma_replaced_same(*left, (depth - 1) as nat);
                lemma_replaced_same(*right, (depth - 1) as nat);
            },
            BoardWindowData::SplitVertical { top, bottom, .. } => {
                let l = at_depth(*top, (depth - 1) as nat);
                let r = at_depth(*bottom, (depth - 1) as nat);
                assert((l + r).take(l.len() as int) =~= l);
                assert((l + r).skip(l.len() as int) =~= r);
                lemma_replaced_same(*top, (depth - 1) as nat);
                lemma_replaced_same(*bottom, (depth - 1) as nat);
            },
            _ => {},
        }
    }
}

/// Every window of `ws` shows every board of the set `s`.
pub open spec fn all_show(ws: Seq<BoardWindow>, s: spec_fn(spec_fn(Coord) -> bool) -> bool) -> bool {
    forall|k: int| 0 <= k < ws.len() ==> crate::predecessors::shows_all(#[trigger] ws[k], s)
}

/// Every window of `ws` has its leaves' scores within `-b..=b`.
pub open spec fn all_within(ws: Seq<BoardWindow>, b: int) -> bool {
    forall|k: int| 0 <= k < ws.len() ==> (#[trigger] ws[k]).scores_within(b)
}

/// The windows put at a depth are the windows found there.
pub proof fn lemma_at_depth_replaced(w: BoardWindow, depth: nat, ws: Seq<BoardWindow>)
    requires
        ws.len() == at_depth(w, depth).len(),
    ensures
        at_depth(replaced(w, depth, ws), depth) == ws,
    decreases depth,
{
    if depth == 0 {
        assert(ws =~= seq![ws[0]]);
    } else {
        match w.inner {
            BoardWindowData::SplitHorizontal { left, right, .. } => {
                let n = at_depth(*left, (depth - 1) as nat).len() as int;
                lemma_at_depth_replaced(*left, (depth - 1) as nat, ws.take(n));
                lemma_at_depth_replaced(*right, (depth - 1) as nat, ws.skip(n));
                assert(ws.take(n) + ws.skip(n) =~= ws);
            },
            BoardWindowData::SplitVertical { top, bottom, .. } => {
                let n = at_depth(*top, (depth - 1) as nat).len() as int;
                lemma_at_depth_replaced(*top, (depth - 1) as nat, ws.take(n));
                lemma_at_depth_replaced(*bottom, (depth - 1) as nat, ws.skip(n));
                assert(ws.take(n) + ws.skip(n) =~= ws);
            },
            _ => {
                assert(ws =~= Seq::<BoardWindow>::empty());
            },
        }
    }
}

/// What is left in a tree whose windows at some depth were taken out: `hollow` has the
/// same windows as `w` above that depth, and the same number of windows at it.
pub open spec fn hollow_of(hollow: BoardWindow, w: BoardWindow, depth: nat) -> bool
    decreases depth,
{
    if depth == 0 {
        true
    } else {
        &&& hollow.rect == w.rect
        &&& hollow.forced_dead == w.forced_dead
        &&& hollow.exposure_cache == w.exposure_cache
        &&& hollow.exposure_sort_order_cache == w.exposure_sort_order_cache
        &&& hollow.score_cache == w.score_cache
        &&& match (hollow.inner, w.inner) {
            (BoardWindowData::Leaf { valid_boards: a }, BoardWindowData::Leaf { valid_boards: b }) => a == b,
            (
                BoardWindowData::SplitHorizontal { left: l1, right: r1, valid_combos: a },
                BoardWindowData::SplitHorizontal { left: l2, right: r2, valid_combos: b },
            ) => a == b && hollow_of(*l1, *l2, (depth - 1) as nat) && hollow_of(*r1, *r2, (depth - 1) as nat),
            (
                BoardWindowData::SplitVertical { top: t1, bottom: b1, valid_combos: a },
                BoardWindowData::SplitVertical { top: t2, bottom: b2, valid_combos: b },
            ) => a == b && hollow_of(*t1, *t2, (depth - 1) as nat) && hollow_of(*b1, *b2, (depth - 1) as nat),
            _ => false,
        }
    }
}

/// A hollowed tree has as many places at the depth as the tree had windows there, and
/// filling them gives the same as filling the tree's.
pub proof fn lemma_hollow(hollow: BoardWindow, w: BoardWindow, depth: nat, ws: Seq<BoardWindow>)
    requires
        hollow_of(hollow, w, depth),
    ensures
        at_depth(hollow, depth).len() == at_depth(w, depth).len(),
        ws.len() == at_depth(w, depth).len() ==> replaced(hollow, depth, ws) == replaced(w, depth, ws),
    decreases depth,
{
    if depth > 0 {
        match (hollow.inner, w.inner) {
            (BoardWindowData::SplitHorizontal { left: l1, right: r1, .. }, BoardWindowData::SplitHorizontal { left: l2, right: r2, .. }) => {
                let n = at_depth(*l2, (depth - 1) as nat).len() as int;
                lemma_hollow(*l1, *l2, (depth - 1) as nat, ws.take(n));
                lemma_hollow(*r1, *r2, (depth - 1) as nat, ws.skip(n));
            },
            (BoardWindowData::SplitVertical { top: t1, bottom: b1, .. }, BoardWindowData::SplitVertical { top: t2, bottom: b2, .. }) => {
                let n = at_depth(*t2, (depth - 1) as nat).len() as int;
                lemma_hollow(*t1, *t2, (depth - 1) as nat, ws.take(n));
                lemma_hollow(*b1, *b2, (depth - 1) as nat, ws.skip(n));
            },
            _ => {},
        }
    }
}

/// A stand-in left where a window was taken out: a one-cell leaf at the origin with no
/// boards, no side forced dead and nothing cached.
fn placeholder() -> (w: BoardWindow)
    ensures
        w.rect == (Rect { top: 0, left: 0, bottom: 1, right: 1 }),
        w.inner == (BoardWindowData::Leaf { valid_boards: None }),
        forall|d: Direction| !w.forced_dead.has(d),
        w.exposure_cache@ == seq![None::<Vec<PackedCells>>, None, None, None],
        w.exposure_sort_order_cache@ == seq![None::<Vec<(u128, u64)>>, None, None, None],
        w.score_cache is None,
{
    BoardWindow {
        rect: Rect { top: 0, left: 0, bottom: 1, right: 1 },
        inner: BoardWindowData::Leaf { valid_boards: None },
        forced_dead: Directions::empty(),
        exposure_cache: vec![None, None, None, None],
        exposure_sort_order_cache: vec![None, None, None, None],
        score_cache: None,
    }
}

impl BoardWindow {
    /// Takes the windows `depth` splits below out of the tree, left (or top) part's
    /// first, leaving stand-ins.
    pub fn take_at_depth(&mut self, depth: usize, out: &mut Vec<BoardWindow>)
        ensures
            final(out)@ == old(out)@ + at_depth(*old(self), depth as nat),
            hollow_of(*final(self), *old(self), depth as nat),
        decreases depth,
    {
        if depth == 0 {
            let mut w = placeholder();
            std::mem::swap(&mut w, self);
            out.push(w);
            return;
        }
        let mut inner = BoardWindowData::Leaf { valid_boards: None };
        std::mem::swap(&mut inner, &mut self.inner);
        let ghost o = *old(self);
        match inner {
            BoardWindowData::Leaf { valid_boards } => {
                self.inner = BoardWindowData::Leaf { valid_boards };
                proof {
                    assert(out@ =~= old(out)@ + at_depth(o, depth as nat));
                }
            },
            BoardWindowData::SplitHorizontal { left, right, valid_combos } => {
                let mut left = *left;
                let mut right = *right;
                left.take_at_depth(depth - 1, out);
                right.take_at_depth(depth - 1, out);
                self.inner = BoardWindowData::SplitHorizontal { left: Box::new(left), right: Box::new(right), valid_combos };
                proof {
                    assert(out@ =~= old(out)@ + at_depth(o, depth as nat));
                }
            },
            BoardWindowData::SplitVertical { top, bottom, valid_combos } => {
                let mut top = *top;
                let mut bottom = *bottom;
                top.take_at_depth(depth - 1, out);
                bottom.take_at_depth(depth - 1, out);
                self.inner = BoardWindowData::SplitVertical { top: Box::new(top), bottom: Box::new(bottom), valid_combos };
                proof {
                    assert(out@ =~= old(out)@ + at_depth(o, depth as nat));
                }
            },
        }
    }

    /// Puts the windows `ws[pos..]` back, in order, as the windows `depth` splits below;
    /// returns where the next unused one is.
    pub fn put_at_depth(&mut self, depth: usize, ws: &mut Vec<BoardWindow>, pos: usize) -> (next: usize)
        requires
            pos + at_depth(*old(self), depth as nat).len() <= old(ws)@.len(),
        ensures
            next == pos + at_depth(*old(self), depth as nat).len(),
            *final(self) == replaced(*old(self), depth as nat, old(ws)@.subrange(pos as int, next as int)),
            final(ws)@.len() == old(ws)@.len(),
            forall|k: int| 0 <= k < old(ws)@.len() && (k < pos || k >= next) ==> #[trigger] final(ws)@[k] == old(ws)@[k],
        decreases depth,
    {
        if depth == 0 {
            proof {
                assert(pos < ws.len());
            }
            std::mem::swap(self, &mut ws[pos]);
            return pos + 1;
        }
        let ghost w0 = old(ws)@;
        let mut inner = BoardWindowData::Leaf { valid_boards: None };
        std::mem::swap(&mut inner, &mut self.inner);
        match inner {
            BoardWindowData::Leaf { valid_boards } => {
                self.inner = BoardWindowData::Leaf { valid_boards };
                pos
            },
            BoardWindowData::SplitHorizontal { left, right, valid_combos } => {
                let mut left = *left;
                let mut right = *right;
                let ghost (l0, r0) = (left, right);
                let mid = left.put_at_depth(depth - 1, ws, pos);
                let ghost w1 = ws@;
                let next = right.put_at_depth(depth - 1, ws, mid);
                self.inner = BoardWindowData::SplitHorizontal { left: Box::new(left), right: Box::new(right), valid_combos };
                proof {
                    let sub = w0.subrange(pos as int, next as int);
                    let n = at_depth(l0, (depth - 1) as nat).len() as int;
                    assert(sub.take(n) =~= w0.subrange(pos as int, mid as int));
                    assert(w1.subrange(mid as int, next as int) =~= w0.subrange(mid as int, next as int));
                    assert(sub.skip(n) =~= w0.subrange(mid as int, next as int));
                }
                next
            },
            BoardWindowData::SplitVertical { top, bottom, valid_combos } => {
                let mut top = *top;
                let mut bottom = *bottom;
                let ghost (t0, u0) = (top, bottom);
                let mid = top.put_at_depth(depth - 1, ws, pos);
                let ghost w1 = ws@;
                let next = bottom.put_at_depth(depth - 1, ws, mid);
                self.inner = BoardWindowData::SplitVertical { top: Box::new(top), bottom: Box::new(bottom), valid_combos };
                proof {
                    let sub = w0.subrange(pos as int, next as int);
                    let n = at_depth(t0, (depth - 1) as nat).len() as int;
                    assert(sub.take(n) =~= w0.subrange(pos as int, mid as int));
                    assert(w1.subrange(mid as int, next as int) =~= w0.subrange(mid as int, next as int));
                    assert(sub.skip(n) =~= w0.subrange(mid as int, next as int));
                }
                next
            },
        }
    }
}

/// Every window above `depth` is split and has no boards yet.
pub open spec fn unfilled_above(w: BoardWindow, depth: nat) -> bool
    decreases depth,
{
    depth == 0 || (w.nboards() is None && match w.inner {
        BoardWindowData::Leaf { .. } => false,
        BoardWindowData::SplitHorizontal { left, right, .. } => unfilled_above(*left, (depth - 1) as nat) && unfilled_above(
            *right,
            (depth - 1) as nat,
        ),
        BoardWindowData::SplitVertical { top, bottom, .. } => unfilled_above(*top, (depth - 1) as nat) && unfilled_above(
            *bottom,
            (depth - 1) as nat,
        ),
    })
}

/// `ws` can stand for the windows of `w` at `depth`: each lies in the same place, with
/// the same sides forced dead, and keeps what the search relies on.
pub open spec fn fit_in(w: BoardWindow, depth: nat, ws: Seq<BoardWindow>) -> bool {
    &&& ws.len() == at_depth(w, depth).len()
    &&& forall|k: int|
        0 <= k < ws.len() ==> {
            &&& (#[trigger] ws[k]).inv()
            &&& ws[k].rect == at_depth(w, depth)[k].rect
            &&& ws[k].forced_dead == at_depth(w, depth)[k].forced_dead
            &&& crate::search::consistent(ws[k])
            &&& crate::search::leaves_filled(ws[k])
            &&& crate::search::down_closed(ws[k])
        }
}

/// Windows that fit in a tree whose upper windows are unfilled make a tree that keeps
/// the invariant and what the search relies on, with scores within any bound theirs are.
pub proof fn lemma_replaced_keeps(w: BoardWindow, depth: nat, ws: Seq<BoardWindow>)
    requires
        w.inv(),
        unfilled_above(w, depth),
        fit_in(w, depth, ws),
    ensures
        replaced(w, depth, ws).inv(),
        replaced(w, depth, ws).rect == w.rect,
        replaced(w, depth, ws).forced_dead == w.forced_dead,
        crate::search::consistent(replaced(w, depth, ws)),
        crate::search::leaves_filled(replaced(w, depth, ws)),
        crate::search::down_closed(replaced(w, depth, ws)),
        forall|b: int| (forall|k: int| 0 <= k < ws.len() ==> #[trigger] ws[k].scores_within(b)) ==> #[trigger] replaced(w, depth, ws).scores_within(b),
    decreases depth,
{
    if depth == 0 {
        assert(ws[0].inv());
        assert forall|b: int| (forall|k: int| 0 <= k < ws.len() ==> #[trigger] ws[k].scores_within(b)) implies #[trigger] replaced(w, depth, ws).scores_within(b) by {
            assert(ws[0].scores_within(b));
        }
    } else {
        let r = replaced(w, depth, ws);
        assert(w.score_cache_ok());
        assert(w.exposure_cache_ok(Direction::Up));
        assert(w.exposure_cache_ok(Direction::Down));
        assert(w.exposure_cache_ok(Direction::Left));
        assert(w.exposure_cache_ok(Direction::Right));
        assert(w.sort_cache_ok(Direction::Up));
        assert(w.sort_cache_ok(Direction::Down));
        assert(w.sort_cache_ok(Direction::Left));
        assert(w.sort_cache_ok(Direction::Right));
        match w.inner {
            BoardWindowData::SplitHorizontal { left, right, .. } => {
                let la = at_depth(*left, (depth - 1) as nat);
                let ra = at_depth(*right, (depth - 1) as nat);
                let n = la.len() as int;
                assert(at_depth(w, depth) == la + ra);
                assert forall|k: int| 0 <= k < ws.take(n).len() implies #[trigger] ws.take(n)[k] == ws[k] by {}
                assert forall|k: int| 0 <= k < ws.skip(n).len() implies #[trigger] ws.skip(n)[k] == ws[k + n] by {}
                assert(fit_in(*left, (depth - 1) as nat, ws.take(n))) by {
                    assert forall|k: int| 0 <= k < ws.take(n).len() implies la[k] == at_depth(w, depth)[k] by {}
                }
                assert(fit_in(*right, (depth - 1) as nat, ws.skip(n))) by {
                    assert forall|k: int| 0 <= k < ws.skip(n).len() implies ra[k] == at_depth(w, depth)[k + n] by {}
                }
                lemma_replaced_keeps(*left, (depth - 1) as nat, ws.take(n));
                lemma_replaced_keeps(*right, (depth - 1) as nat, ws.skip(n));
                assert forall|d: Direction| #[trigger] r.exposure_cache_ok(d) by {
                    assert(w.exposure_cache_ok(d));
                }
                assert forall|d: Direction| #[trigger] r.sort_cache_ok(d) by {
                    assert(w.sort_cache_ok(d));
                }
                assert forall|b: int| (forall|k: int| 0 <= k < ws.len() ==> #[trigger] ws[k].scores_within(b)) implies #[trigger] replaced(w, depth, ws).scores_within(b) by {
                    assert forall|k: int| 0 <= k < ws.take(n).len() implies #[trigger] ws.take(n)[k].scores_within(b) by {
                        assert(ws[k].scores_within(b));
                    }
                    assert forall|k: int| 0 <= k < ws.skip(n).len() implies #[trigger] ws.skip(n)[k].scores_within(b) by {
                        assert(ws[k + n].scores_within(b));
                    }
                    assert(replaced(*left, (depth - 1) as nat, ws.take(n)).scores_within(b));
                    assert(replaced(*right, (depth - 1) as nat, ws.skip(n)).scores_within(b));
                }
            },
            BoardWindowData::SplitVertical { top, bottom, .. } => {
                let la = at_depth(*top, (depth - 1) as nat);
                let ra = at_depth(*bottom, (depth - 1) as nat);
                let n = la.len() as int;
                assert(at_depth(w, depth) == la + ra);
                assert forall|k: int| 0 <= k < ws.take(n).len() implies #[trigger] ws.take(n)[k] == ws[k] by {}
                assert forall|k: int| 0 <= k < ws.skip(n).len() implies #[trigger] ws.skip(n)[k] == ws[k + n] by {}
                assert(fit_in(*top, (depth - 1) as nat, ws.take(n))) by {
                    assert forall|k: int| 0 <= k < ws.take(n).len() implies la[k] == at_depth(w, depth)[k] by {}
                }
                assert(fit_in(*bottom, (depth - 1) as nat, ws.skip(n))) by {
                    assert forall|k: int| 0 <= k < ws.skip(n).len() implies ra[k] == at_depth(w, depth)[k + n] by {}
                }
                lemma_replaced_keeps(*top, (depth - 1) as nat, ws.take(n));
                lemma_replaced_keeps(*bottom, (depth - 1) as nat, ws.skip(n));
                assert forall|d: Direction| #[trigger] r.exposure_cache_ok(d) by {
                    assert(w.exposure_cache_ok(d));
                }
                assert forall|d: Direction| #[trigger] r.sort_cache_ok(d) by {
                    assert(w.sort_cache_ok(d));
                }
                assert forall|b: int| (forall|k: int| 0 <= k < ws.len() ==> #[trigger] ws[k].scores_within(b)) implies #[trigger] replaced(w, depth, ws).scores_within(b) by {
                    assert forall|k: int| 0 <= k < ws.take(n).len() implies #[trigger] ws.take(n)[k].scores_within(b) by {
                        assert(ws[k].scores_within(b));
                    }
                    assert forall|k: int| 0 <= k < ws.skip(n).len() implies #[trigger] ws.skip(n)[k].scores_within(b) by {
                        assert(ws[k + n].scores_within(b));
                    }
                    assert(replaced(*top, (depth - 1) as nat, ws.take(n)).scores_within(b));
                    assert(replaced(*bottom, (depth - 1) as nat, ws.skip(n)).scores_within(b));
                }
            },
            _ => {},
        }
    }
}

/// The windows at one depth of a tree, taken out of it, and how they lie.
pub struct DepthGrid {
    /// The windows, the left (or top) part's first.
    pub windows: Vec<BoardWindow>,
    /// Row by row, top to bottom and left to right: the window that lies there.
    pub cells: Grid<usize>,
}

/// A position key: rows first, then columns.
pub open spec fn pos_key(r: Rect) -> int {
    (r.top + 0x8000_0000) * 0x1_0000_0000 + (r.left + 0x8000_0000)
}

/// The key of a window's position, as sorted.
fn position_key(r: Rect) -> (k: u128)
    ensures
        k == pos_key(r),
{
    let t = (r.top as i64 + 0x8000_0000) as u128;
    let l = (r.left as i64 + 0x8000_0000) as u128;
    t * 0x1_0000_0000 + l
}

/// The cells of `g` all name one of the `n` windows.
pub open spec fn cells_ok(g: Grid<usize>, n: int) -> bool {
    &&& g.wf()
    &&& g.size.top == 0
    &&& g.size.left == 0
    &&& forall|k: int| 0 <= k < g.data@.len() ==> #[trigger] g.data@[k] < n
}

/// A rotated cell comes from a cell of the grid before the turn.
proof fn lemma_rotated_inside(old: Rect, new: Rect, p: Coord)
    requires
        new == (Rect { right: (old.left + old.spec_height()) as i32, bottom: (old.top + old.spec_width()) as i32, ..old }),
        new.contains(p),
        0 <= old.spec_width(),
        0 <= old.spec_height(),
    ensures
        old.contains(rotated_source(old, p)),
{
}

/// What every window of a grid keeps while it is culled: its place, the invariant, and
/// what the search relies on; the boards it has are some of those it had.
pub open spec fn window_kept(new: BoardWindow, old: BoardWindow, b: int) -> bool {
    &&& new.inv()
    &&& new.rect == old.rect
    &&& new.forced_dead == old.forced_dead
    &&& exposable(new.rect)
    &&& new.nboards() is Some
    &&& crate::search::consistent(new)
    &&& crate::search::leaves_filled(new)
    &&& crate::search::down_closed(new)
    &&& new.scores_within(b)
    &&& b * crate::scores::area(new.rect) <= i32::MAX
    &&& inner_within(new.inner, old.inner)
}

/// A window that keeps what another kept keeps it too.
proof fn lemma_window_kept_trans(a: BoardWindow, m: BoardWindow, o: BoardWindow, b: int)
    requires
        window_kept(a, m, b),
        window_kept(m, o, b),
    ensures
        window_kept(a, o, b),
{
    crate::board::lemma_within_trans(a.inner, m.inner, o.inner);
}

/// `new` is `old` with only the boards kept that `mask` marks, as `filter_exposures`
/// leaves a window.
pub open spec fn window_filtered(new: BoardWindow, old: BoardWindow, mask: Seq<bool>) -> bool {
    &&& new.rect == old.rect
    &&& new.forced_dead == old.forced_dead
    &&& inner_retained(new.inner, old.inner, mask)
    &&& option_retained(new.score_cache, old.score_cache, mask)
}

/// `new` is `old` with windows `a` and `c` filtered against each other along side `d` of
/// `a`: each keeps the boards that have a partner in the other; the rest are unchanged.
pub open spec fn pair_filtered(new: Seq<BoardWindow>, old: Seq<BoardWindow>, a: int, d: Direction, c: int) -> bool {
    &&& new.len() == old.len()
    &&& forall|k: int| 0 <= k < new.len() && k != a && k != c ==> #[trigger] new[k] == old[k]
    &&& window_filtered(new[a], old[a], partner_mask(old[a], d, old[c]))
    &&& window_filtered(new[c], old[c], partner_mask(old[c], spec_opposite(d), old[a]))
}

/// Filtering two windows of a grid against each other keeps both.
fn filter_pair(ws: &mut Vec<BoardWindow>, a: usize, direction: Direction, c: usize, Ghost(orig): Ghost<Seq<BoardWindow>>, Ghost(b): Ghost<int>)
    requires
        a < old(ws)@.len(),
        c < old(ws)@.len(),
        a != c,
        orig.len() == old(ws)@.len(),
        forall|k: int| 0 <= k < old(ws)@.len() ==> window_kept(#[trigger] old(ws)@[k], orig[k], b),
        0 <= b,
        exposure_rect_of(old(ws)@[a as int].rect, direction) == exposure_rect_of(old(ws)@[c as int].rect, spec_opposite(direction)),
    ensures
        pair_filtered(final(ws)@, old(ws)@, a as int, direction, c as int),
        final(ws)@.len() == old(ws)@.len(),
        forall|k: int| 0 <= k < final(ws)@.len() ==> window_kept(#[trigger] final(ws)@[k], orig[k], b),
        forall|k: int| 0 <= k < final(ws)@.len() && k != a && k != c ==> #[trigger] final(ws)@[k] == old(ws)@[k],
        forall|s: spec_fn(spec_fn(Coord) -> bool) -> bool| #[trigger] all_show(old(ws)@, s) ==> all_show(final(ws)@, s),
        forall|bb: int| #[trigger] all_within(old(ws)@, bb) ==> all_within(final(ws)@, bb),
{
    let mut wa = placeholder();
    let mut wc = placeholder();
    std::mem::swap(&mut wa, &mut ws[a]);
    std::mem::swap(&mut wc, &mut ws[c]);
    let ghost (oa, oc) = (wa, wc);
    proof {
        assert(window_kept(oa, orig[a as int], b));
        assert(window_kept(oc, orig[c as int], b));
    }
    BoardWindow::filter_exposures(&mut wa, direction, &mut wc);
    let ghost (fa, fc) = (wa, wc);
    proof {
        crate::board::lemma_retained_within(wa, oa, partner_mask(oa, direction, oc));
        crate::board::lemma_retained_within(wc, oc, partner_mask(oc, spec_opposite(direction), oa));
        crate::search::lemma_within_keeps(wa, oa);
        crate::search::lemma_within_keeps(wc, oc);
        assert(window_kept(wa, oa, b));
        assert(window_kept(wc, oc, b));
        lemma_window_kept_trans(wa, oa, orig[a as int], b);
        lemma_window_kept_trans(wc, oc, orig[c as int], b);
    }
    std::mem::swap(&mut wa, &mut ws[a]);
    std::mem::swap(&mut wc, &mut ws[c]);
    proof {
        assert forall|s: spec_fn(spec_fn(Coord) -> bool) -> bool| #[trigger] all_show(old(ws)@, s) implies all_show(ws@, s) by {
            assert(crate::predecessors::shows_all(old(ws)@[a as int], s));
            assert(crate::predecessors::shows_all(old(ws)@[c as int], s));
            crate::predecessors::lemma_filter_keeps_shown(fa, fc, oa, oc, direction, s);
            assert forall|k: int| 0 <= k < ws@.len() implies crate::predecessors::shows_all(#[trigger] ws@[k], s) by {
                if k != a && k != c {
                    assert(crate::predecessors::shows_all(old(ws)@[k], s));
                }
            }
        }
        assert forall|bb: int| #[trigger] all_within(old(ws)@, bb) implies all_within(ws@, bb) by {
            assert(old(ws)@[a as int].scores_within(bb));
            assert(old(ws)@[c as int].scores_within(bb));
            assert forall|k: int| 0 <= k < ws@.len() implies (#[trigger] ws@[k]).scores_within(bb) by {
                if k != a && k != c {
                    assert(old(ws)@[k].scores_within(bb));
                }
            }
        }
    }
}

/// The left cells of the pairs of neighbours in the first `h` rows of a grid `w` wide,
/// row by row, left to right.
pub open spec fn row_pairs(w: int, h: int) -> Seq<Coord>
    decreases h,
{
    if h <= 0 {
        Seq::empty()
    } else {
        row_pairs(w, h - 1) + Seq::new(if w > 1 { (w - 1) as nat } else { 0 }, |x: int| Coord { x: x as i32, y: (h - 1) as i32 })
    }
}

/// The cell right of `p`.
pub open spec fn right_of(p: Coord) -> Coord {
    Coord { x: (p.x + 1) as i32, y: p.y }
}

/// The neighbours at `p` and right of it cannot be filtered: they are one window, or
/// their sides along `d` do not meet.
pub open spec fn pair_bad(ws: Seq<BoardWindow>, cells: Grid<usize>, p: Coord, d: Direction) -> bool {
    let (a, c) = (cells.at(p) as int, cells.at(right_of(p)) as int);
    a == c || exposure_rect_of(ws[a].rect, d) != exposure_rect_of(ws[c].rect, spec_opposite(d))
}

/// Step `i` of `ts` filters the pair of neighbours at `ps[i]`.
pub open spec fn filter_step(ts: Seq<Seq<BoardWindow>>, ps: Seq<Coord>, i: int, cells: Grid<usize>, d: Direction) -> bool {
    pair_filtered(ts[i + 1], ts[i], cells.at(ps[i]) as int, d, cells.at(right_of(ps[i])) as int)
}

/// `ts` runs from `old` to `new`, filtering the pairs of neighbours of the rows of
/// `cells` in order; it went through all of them exactly when `ok`, and otherwise stopped
/// at a pair that cannot be filtered.
pub open spec fn filter_trace(
    ts: Seq<Seq<BoardWindow>>,
    old: Seq<BoardWindow>,
    new: Seq<BoardWindow>,
    cells: Grid<usize>,
    d: Direction,
    ok: bool,
) -> bool {
    let ps = row_pairs(cells.size.spec_width(), cells.size.spec_height());
    &&& ts.len() >= 1
    &&& ts[0] == old
    &&& ts.last() == new
    &&& ts.len() - 1 <= ps.len()
    &&& forall|i: int| 0 <= i < ts.len() - 1 ==> #[trigger] filter_step(ts, ps, i, cells, d)
    &&& ok <==> ts.len() - 1 == ps.len()
    &&& !ok ==> pair_bad(new, cells, ps[ts.len() - 1], d)
}

/// `new` is `old` with the pairs of neighbours along the rows of `cells` filtered in
/// order, left one's side `d`; `ok` when no pair stopped it.
pub open spec fn rows_culled(new: Seq<BoardWindow>, old: Seq<BoardWindow>, cells: Grid<usize>, d: Direction, ok: bool) -> bool {
    exists|ts: Seq<Seq<BoardWindow>>| #[trigger] filter_trace(ts, old, new, cells, d, ok)
}

/// The pairs of fewer rows come first, in the same places.
proof fn lemma_row_pairs(w: int, y1: int, y2: int)
    requires
        0 <= y1 <= y2,
    ensures
        row_pairs(w, y1).len() <= row_pairs(w, y2).len(),
        forall|i: int| 0 <= i < row_pairs(w, y1).len() ==> #[trigger] row_pairs(w, y2)[i] == row_pairs(w, y1)[i],
    decreases y2,
{
    if y1 < y2 {
        lemma_row_pairs(w, y1, y2 - 1);
        assert forall|i: int| 0 <= i < row_pairs(w, y1).len() implies #[trigger] row_pairs(w, y2)[i] == row_pairs(w, y1)[i] by {
            assert(row_pairs(w, y2)[i] == row_pairs(w, y2 - 1)[i]);
        }
    }
}

/// Filters every pair of neighbours along the rows of `cells`, left to right; the left
/// one of each pair shares its side `direction`. False when two neighbours do not lie
/// side by side.
fn cull_rows(ws: &mut Vec<BoardWindow>, cells: &Grid<usize>, direction: Direction, Ghost(orig): Ghost<Seq<BoardWindow>>, Ghost(b): Ghost<int>) -> (ok: bool)
    requires
        cells_ok(*cells, old(ws)@.len() as int),
        orig.len() == old(ws)@.len(),
        forall|k: int| 0 <= k < old(ws)@.len() ==> window_kept(#[trigger] old(ws)@[k], orig[k], b),
        0 <= b,
    ensures
        rows_culled(final(ws)@, old(ws)@, *cells, direction, ok),
        final(ws)@.len() == old(ws)@.len(),
        forall|k: int| 0 <= k < final(ws)@.len() ==> window_kept(#[trigger] final(ws)@[k], orig[k], b),
        forall|s: spec_fn(spec_fn(Coord) -> bool) -> bool| #[trigger] all_show(old(ws)@, s) ==> all_show(final(ws)@, s),
        forall|bb: int| #[trigger] all_within(old(ws)@, bb) ==> all_within(final(ws)@, bb),
{
    let ghost ws0 = ws@;
    let h = cells.size.height();
    let w = cells.size.width();
    let ghost ps = row_pairs(w as int, h as int);
    let ghost mut ts: Seq<Seq<BoardWindow>> = seq![ws@];
    let mut y: i32 = 0;
    while y < h
        invariant
            cells_ok(*cells, ws@.len() as int),
            h == cells.size.spec_height(),
            w == cells.size.spec_width(),
            ps == row_pairs(w as int, h as int),
            0 <= y <= h,
            orig.len() == ws@.len(),
            ws@.len() == old(ws)@.len(),
            forall|k: int| 0 <= k < ws@.len() ==> window_kept(#[trigger] ws@[k], orig[k], b),
            0 <= b,
            ws0 == old(ws)@,
            forall|s: spec_fn(spec_fn(Coord) -> bool) -> bool| #[trigger] all_show(ws0, s) ==> all_show(ws@, s),
            forall|bb: int| #[trigger] all_within(ws0, bb) ==> all_within(ws@, bb),
            ts.len() == row_pairs(w as int, y as int).len() + 1,
            ts[0] == ws0,
            ts.last() == ws@,
            forall|i: int| 0 <= i < ts.len() - 1 ==> #[trigger] filter_step(ts, ps, i, *cells, direction),
        decreases h - y,
    {
        proof {
            lemma_row_pairs(w as int, y as int, h as int);
            lemma_row_pairs(w as int, y + 1, h as int);
            lemma_row_pairs(w as int, y as int, y + 1);
        }
        let ghost base = row_pairs(w as int, y as int).len() as int;
        let mut x: i32 = 0;
        while x + 1 < w
            invariant
                cells_ok(*cells, ws@.len() as int),
                h == cells.size.spec_height(),
                w == cells.size.spec_width(),
                ps == row_pairs(w as int, h as int),
                0 <= y < h,
                0 <= x,
                x < w || x == 0,
                orig.len() == ws@.len(),
                ws@.len() == old(ws)@.len(),
                forall|k: int| 0 <= k < ws@.len() ==> window_kept(#[trigger] ws@[k], orig[k], b),
                0 <= b,
                ws0 == old(ws)@,
                forall|s: spec_fn(spec_fn(Coord) -> bool) -> bool| #[trigger] all_show(ws0, s) ==> all_show(ws@, s),
                forall|bb: int| #[trigger] all_within(ws0, bb) ==> all_within(ws@, bb),
                base == row_pairs(w as int, y as int).len(),
                row_pairs(w as int, y + 1).len() <= ps.len(),
                forall|i: int| 0 <= i < row_pairs(w as int, y + 1).len() ==> #[trigger] ps[i] == row_pairs(w as int, y + 1)[i],
                ts.len() == base + x + 1,
                ts[0] == ws0,
                ts.last() == ws@,
                forall|i: int| 0 <= i < ts.len() - 1 ==> #[trigger] filter_step(ts, ps, i, *cells, direction),
            decreases w - x,
        {
            let pa = Coord { x, y };
            let pc = Coord { x: x + 1, y };
            proof {
                crate::basic_grids::lemma_index_bounds(cells.size, pa);
                crate::basic_grids::lemma_index_bounds(cells.size, pc);
                assert(ps[base + x] == row_pairs(w as int, y + 1)[base + x]);
                assert(ps[base + x] == pa);
                assert(right_of(pa) == pc);
            }
            let a = *cells.get(pa);
            let c = *cells.get(pc);
            if a == c {
                proof {
                    assert(filter_trace(ts, ws0, ws@, *cells, direction, false));
                }
                return false;
            }
            proof {
                assert(window_kept(ws@[a as int], orig[a as int], b));
                assert(window_kept(ws@[c as int], orig[c as int], b));
            }
            let ra = ws[a].get_exposure_rect(direction);
            let rc = ws[c].get_exposure_rect(direction.opposite());
            if ra != rc {
                proof {
                    assert(filter_trace(ts, ws0, ws@, *cells, direction, false));
                }
                return false;
            }
            let ghost before = ws@;
            filter_pair(ws, a, direction, c, Ghost(orig), Ghost(b));
            proof {
                assert forall|s: spec_fn(spec_fn(Coord) -> bool) -> bool| #[trigger] all_show(ws0, s) implies all_show(ws@, s) by {
                    assert(all_show(before, s));
                }
                assert forall|bb: int| #[trigger] all_within(ws0, bb) implies all_within(ws@, bb) by {
                    assert(all_within(before, bb));
                }
                let t0 = ts;
                ts = ts.push(ws@);
                assert forall|i: int| 0 <= i < ts.len() - 1 implies #[trigger] filter_step(ts, ps, i, *cells, direction) by {
                    if i < t0.len() - 1 {
                        assert(filter_step(t0, ps, i, *cells, direction));
                        assert(ts[i] == t0[i] && ts[i + 1] == t0[i + 1]);
                    } else {
                        assert(ts[i] == before && ts[i + 1] == ws@);
                    }
                }
            }
            x = x + 1;
        }
        proof {
            assert(row_pairs(w as int, y + 1).len() == base + if w > 1 { w - 1 } else { 0 });
        }
        y = y + 1;
    }
    proof {
        assert(filter_trace(ts, ws0, ws@, *cells, direction, true));
    }
    true
}

/// `new` is `old` turned a quarter turn clockwise about its top-left corner.
pub open spec fn grid_turned(new: Grid<usize>, old: Grid<usize>) -> bool {
    &&& new.wf()
    &&& new.size == turned(old.size)
    &&& forall|p: Coord| new.size.contains(p) ==> new.at(p) == old.at(rotated_source(old.size, p))
}

/// The side that the left window of a pair faces after the grid is turned a quarter.
pub open spec fn next_side(d: Direction) -> Direction {
    spec_opposite(spec_rotate_90_cw(d))
}

/// The first half of a round went through: `ws1` is `ws` with the rows of `cells`
/// filtered along `d`, and `c1` is `cells` turned.
pub open spec fn first_pass(ws1: Seq<BoardWindow>, c1: Grid<usize>, ws: Seq<BoardWindow>, cells: Grid<usize>, d: Direction) -> bool {
    rows_culled(ws1, ws, cells, d, true) && grid_turned(c1, cells)
}

/// A round of culling took `ws`, `cells` and `d` to `new_ws`, `new_cells` and `new_d`:
/// the rows filtered along `d`, the grid turned, the rows filtered along the next side,
/// the grid turned again. When a pair of neighbours stopped it (`ok` false) it ends
/// where it stopped, with the grid and side as they then were.
pub open spec fn round_done(
    new_ws: Seq<BoardWindow>,
    new_cells: Grid<usize>,
    new_d: Direction,
    ws: Seq<BoardWindow>,
    cells: Grid<usize>,
    d: Direction,
    ok: bool,
) -> bool {
    ||| !ok && rows_culled(new_ws, ws, cells, d, false) && new_cells == cells && new_d == d
    ||| exists|ws1: Seq<BoardWindow>, c1: Grid<usize>| {
        &&& #[trigger] first_pass(ws1, c1, ws, cells, d)
        &&& rows_culled(new_ws, ws1, c1, next_side(d), ok)
        &&& ok ==> grid_turned(new_cells, c1) && new_d == next_side(next_side(d))
        &&& !ok ==> new_cells == c1 && new_d == next_side(d)
    }
}

/// One round of culling: the rows of `cells` along `direction`, a quarter turn of the
/// grid, and the rows again along the next direction (the opposite of `direction` turned a
/// quarter), then another quarter turn; `direction` is left at the one that comes next.
pub fn cull_round(ws: &mut Vec<BoardWindow>, cells: &mut Grid<usize>, direction: &mut Direction, Ghost(orig): Ghost<Seq<BoardWindow>>, Ghost(b): Ghost<int>) -> (ok: bool)
    requires
        cells_ok(*old(cells), old(ws)@.len() as int),
        orig.len() == old(ws)@.len(),
        forall|k: int| 0 <= k < old(ws)@.len() ==> window_kept(#[trigger] old(ws)@[k], orig[k], b),
        0 <= b,
    ensures
        round_done(final(ws)@, *final(cells), *final(direction), old(ws)@, *old(cells), *old(direction), ok),
        final(ws)@.len() == old(ws)@.len(),
        cells_ok(*final(cells), final(ws)@.len() as int),
        forall|k: int| 0 <= k < final(ws)@.len() ==> window_kept(#[trigger] final(ws)@[k], orig[k], b),
        ok ==> *final(direction) == spec_opposite(spec_rotate_90_cw(spec_opposite(spec_rotate_90_cw(*old(direction))))),
        forall|s: spec_fn(spec_fn(Coord) -> bool) -> bool| #[trigger] all_show(old(ws)@, s) ==> all_show(final(ws)@, s),
        forall|bb: int| #[trigger] all_within(old(ws)@, bb) ==> all_within(final(ws)@, bb),
{
    let ghost ws0 = ws@;
    let ghost c0 = *cells;
    let ghost d0 = *direction;
    let ghost mut ws1: Seq<BoardWindow> = ws@;
    let ghost mut c1: Grid<usize> = *cells;
    let mut pass: usize = 0;
    while pass < 2
        invariant
            c0 == *old(cells),
            d0 == *old(direction),
            pass == 0 ==> ws@ == ws0 && *cells == c0,
            pass >= 1 ==> first_pass(ws1, c1, ws0, c0, d0),
            pass == 1 ==> ws@ == ws1 && *cells == c1,
            pass == 2 ==> rows_culled(ws@, ws1, c1, next_side(d0), true) && grid_turned(*cells, c1),
            cells_ok(*cells, ws@.len() as int),
            orig.len() == ws@.len(),
            ws@.len() == old(ws)@.len(),
            forall|k: int| 0 <= k < ws@.len() ==> window_kept(#[trigger] ws@[k], orig[k], b),
            0 <= b,
            pass <= 2,
            pass == 0 ==> *direction == *old(direction),
            pass == 1 ==> *direction == spec_opposite(spec_rotate_90_cw(*old(direction))),
            pass == 2 ==> *direction == spec_opposite(spec_rotate_90_cw(spec_opposite(spec_rotate_90_cw(*old(direction))))),
            ws0 == old(ws)@,
            forall|s: spec_fn(spec_fn(Coord) -> bool) -> bool| #[trigger] all_show(ws0, s) ==> all_show(ws@, s),
            forall|bb: int| #[trigger] all_within(ws0, bb) ==> all_within(ws@, bb),
        decreases 2 - pass,
    {
        let ghost before = ws@;
        let rows_ok = cull_rows(ws, cells, *direction, Ghost(orig), Ghost(b));
        proof {
            assert forall|s: spec_fn(spec_fn(Coord) -> bool) -> bool| #[trigger] all_show(ws0, s) implies all_show(ws@, s) by {
                assert(all_show(before, s));
            }
            assert forall|bb: int| #[trigger] all_within(ws0, bb) implies all_within(ws@, bb) by {
                assert(all_within(before, bb));
            }
        }
        if !rows_ok {
            proof {
                if pass == 1 {
                    assert(first_pass(ws1, c1, ws0, c0, d0));
                }
            }
            return false;
        }
        let ghost before = *cells;
        cells.rotate_90_cw_inplace();
        proof {
            assert forall|k: int| 0 <= k < cells.data@.len() implies #[trigger] cells.data@[k] < ws@.len() by {
                let w = cells.size.spec_width();
                assert(w > 0) by {
                    if w <= 0 {
                        assert(cells.size.spec_width() * cells.size.spec_height() <= 0) by (nonlinear_arith)
                            requires
                                cells.size.spec_width() <= 0,
                                cells.size.spec_height() >= 0,
                        ;
                    }
                }
                let yy = k / w;
                let xx = k % w;
                assert(k == yy * w + xx && 0 <= xx < w && 0 <= yy) by (nonlinear_arith)
                    requires
                        w > 0,
                        k >= 0,
                        yy == k / w,
                        xx == k % w,
                ;
                assert(yy < cells.size.spec_height()) by (nonlinear_arith)
                    requires
                        w > 0,
                        k >= 0,
                        k < w * cells.size.spec_height(),
                        k == yy * w + xx,
                        0 <= xx,
                ;
                let p = Coord { x: xx as i32, y: yy as i32 };
                assert(cells.size.contains(p));
                assert(crate::basic_grids::cell_index(cells.size, p) == k);
                lemma_rotated_inside(before.size, cells.size, p);
                crate::basic_grids::lemma_index_bounds(before.size, rotated_source(before.size, p));
            }
        }
        *direction = direction.rotate_90_cw().opposite();
        proof {
            if pass == 0 {
                ws1 = ws@;
                c1 = *cells;
            }
        }
        pass = pass + 1;
    }
    proof {
        assert(first_pass(ws1, c1, ws0, c0, d0));
    }
    true
}

/// Sorted `(key, index)` pairs of `n` entries name entries below `n`, keys in order.
proof fn lemma_sorted_names(orig: Seq<(u128, u64)>, s: Seq<(u128, u64)>, n: int)
    requires
        orig.len() == n,
        forall|k: int| 0 <= k < n ==> (#[trigger] orig[k]).1 == k,
        s.to_multiset() == orig.to_multiset(),
    ensures
        s.len() == n,
        forall|k: int| 0 <= k < s.len() ==> (#[trigger] s[k]).1 < n && s[k] == orig[s[k].1 as int],
{
    broadcast use vstd::seq_lib::group_to_multiset_ensures;

    vstd::seq_lib::to_multiset_len(s);
    vstd::seq_lib::to_multiset_len(orig);
    assert forall|k: int| 0 <= k < s.len() implies (#[trigger] s[k]).1 < n && s[k] == orig[s[k].1 as int] by {
        assert(s.contains(s[k]));
        assert(s.to_multiset().count(s[k]) > 0);
        assert(orig.contains(s[k]));
        let j = choose|j: int| 0 <= j < orig.len() && orig[j] == s[k];
        assert(orig[j].1 == j);
    }
}

/// There are no more windows at a depth than cells in the tree's window.
proof fn lemma_at_depth_count(w: BoardWindow, depth: nat)
    requires
        w.inv(),
    ensures
        at_depth(w, depth).len() <= crate::scores::area(w.rect),
    decreases depth,
{
    let (ww, hh) = (w.rect.spec_width(), w.rect.spec_height());
    assert(ww * hh >= 1) by (nonlinear_arith)
        requires
            ww >= 1,
            hh >= 1,
    ;
    if depth > 0 {
        match w.inner {
            BoardWindowData::SplitHorizontal { left, right, .. } => {
                lemma_at_depth_count(*left, (depth - 1) as nat);
                lemma_at_depth_count(*right, (depth - 1) as nat);
                crate::scores::lemma_split_area(w.rect, left.rect, right.rect);
            },
            BoardWindowData::SplitVertical { top, bottom, .. } => {
                lemma_at_depth_count(*top, (depth - 1) as nat);
                lemma_at_depth_count(*bottom, (depth - 1) as nat);
                crate::scores::lemma_split_area(w.rect, top.rect, bottom.rect);
            },
            _ => {},
        }
    }
}

/// The windows lie in the grid in order of position: rows first, then columns.
pub open spec fn arranged(g: DepthGrid) -> bool {
    &&& cells_ok(g.cells, g.windows@.len() as int)
    &&& forall|a: int, c: int|
        0 <= a < c < g.cells.data@.len() ==> pos_key(g.windows@[g.cells.data@[a] as int].rect) <= pos_key(
            g.windows@[g.cells.data@[c] as int].rect,
        )
}

/// The order of `pair_le`, as a relation.
pub open spec fn pair_order() -> spec_fn((u128, u64), (u128, u64)) -> bool {
    |a: (u128, u64), c: (u128, u64)| pair_le(a, c)
}

/// The position key of each window, beside its index.
pub open spec fn position_keys(ws: Seq<BoardWindow>) -> Seq<(u128, u64)> {
    Seq::new(ws.len(), |k: int| (pos_key(ws[k].rect) as u128, k as u64))
}

/// The windows' position keys in increasing order: rows first, then columns.
pub open spec fn sorted_positions(ws: Seq<BoardWindow>) -> Seq<(u128, u64)> {
    position_keys(ws).sort_by(pair_order())
}

/// The first place from `w` on, in the order `s`, of a window whose left side is that of
/// the first window; the number of windows when there is none.
pub open spec fn row_start_from(ws: Seq<BoardWindow>, s: Seq<(u128, u64)>, w: int) -> int
    decreases ws.len() - w,
{
    if w >= ws.len() || w < 0 {
        ws.len() as int
    } else if ws[s[w].1 as int].rect.left == ws[s[0].1 as int].rect.left {
        w
    } else {
        row_start_from(ws, s, w + 1)
    }
}

/// The width of the grid the windows are laid out in: the place in the order of
/// positions where a second row begins.
pub open spec fn grid_width(ws: Seq<BoardWindow>) -> int {
    row_start_from(ws, sorted_positions(ws), 1)
}

/// The windows at `depth` of `w` cannot be laid out as a grid: some path of splits ends
/// above `depth`, there are none, or their number is not a multiple of the grid's width.
pub open spec fn grid_missing(w: BoardWindow, depth: nat) -> bool {
    ||| depth > crate::board::min_leaf(w)
    ||| at_depth(w, depth).len() == 0
    ||| (at_depth(w, depth).len() as int) % grid_width(at_depth(w, depth)) != 0
}

/// `c` is the grid the windows `ws` are laid out in: `grid_width(ws)` wide, each cell
/// naming the window at its place in the order of positions.
pub open spec fn laid_out(c: Grid<usize>, ws: Seq<BoardWindow>) -> bool {
    &&& c.size == (Rect { top: 0, left: 0, bottom: ((ws.len() as int) / grid_width(ws)) as i32, right: grid_width(ws) as i32 })
    &&& c.data@.len() == ws.len()
    &&& forall|k: int| 0 <= k < ws.len() ==> #[trigger] c.data@[k] == sorted_positions(ws)[k].1 as usize
}

/// `pair_le` orders pairs totally.
proof fn lemma_pair_order_total()
    ensures
        vstd::relations::total_ordering(pair_order()),
{
    let r = pair_order();
    assert(vstd::relations::reflexive(r));
    assert(vstd::relations::antisymmetric(r));
    assert(vstd::relations::transitive(r));
    assert(vstd::relations::strongly_connected(r));
}

impl BoardWindow {
    /// Takes the windows `depth` splits below out of the tree and lays them out as a
    /// grid, in rows of the width of the first row. `None` (and the tree unchanged) when
    /// some path of splits ends before `depth`, or the windows do not make whole rows.
    pub fn extract_grid_at_depth(&mut self, depth: usize) -> (r: Option<DepthGrid>)
        requires
            old(self).inv(),
            exposable(old(self).rect),
        ensures
            r is None <==> grid_missing(*old(self), depth as nat),
            r is None ==> *final(self) == *old(self),
            r matches Some(g) ==> {
                &&& g.windows@ == at_depth(*old(self), depth as nat)
                &&& hollow_of(*final(self), *old(self), depth as nat)
                &&& arranged(g)
                &&& laid_out(g.cells, g.windows@)
            },
    {
        let ghost o = *self;
        if depth > self.min_leaf_depth() {
            return None;
        }
        let mut windows: Vec<BoardWindow> = Vec::new();
        self.take_at_depth(depth, &mut windows);
        proof {
            assert(windows@ =~= at_depth(o, depth as nat));
            lemma_hollow(*self, o, depth as nat, windows@);
        }
        let n = windows.len();
        if n == 0 {
            let ghost hollow = *self;
            let ghost taken = windows@;
            self.put_at_depth(depth, &mut windows, 0);
            proof {
                assert(taken.subrange(0, 0) =~= taken);
                lemma_hollow(hollow, o, depth as nat, taken);
                lemma_replaced_same(o, depth as nat);
            }
            return None;
        }
        let mut keys: Vec<(u128, u64)> = Vec::new();
        let mut i: usize = 0;
        while i < n
            invariant
                n == windows@.len(),
                i <= n,
                keys@.len() == i,
                forall|k: int| 0 <= k < i ==> #[trigger] keys@[k] == (pos_key(windows@[k].rect) as u128, k as u64),
            decreases n - i,
        {
            keys.push((position_key(windows[i].rect), i as u64));
            i = i + 1;
        }
        let ghost orig = keys@;
        par_sort(&mut keys);
        proof {
            lemma_sorted_pairs(keys@);
            lemma_sorted_names(orig, keys@, n as int);
            assert(orig =~= position_keys(windows@));
            lemma_pair_order_total();
            position_keys(windows@).lemma_sort_by_ensures(pair_order());
            assert(vstd::relations::sorted_by(keys@, pair_order())) by {
                assert forall|i: int, j: int| 0 <= i < j < keys@.len() implies #[trigger] (pair_order())(keys@[i], keys@[j]) by {
                    assert(pair_le(keys@[i], keys@[j]));
                }
            }
            vstd::seq_lib::lemma_sorted_unique(keys@, sorted_positions(windows@), pair_order());
        }
        let ghost sp = sorted_positions(windows@);
        let leftmost = windows[keys[0].1 as usize].rect.left;
        let mut width: usize = 1;
        while width < n && windows[keys[width].1 as usize].rect.left != leftmost
            invariant
                1 <= width <= n,
                n == windows@.len(),
                n == keys@.len(),
                keys@ == sp,
                leftmost == windows@[sp[0].1 as int].rect.left,
                forall|k: int| 0 <= k < keys@.len() ==> (#[trigger] keys@[k]).1 < n,
                row_start_from(windows@, sp, 1) == row_start_from(windows@, sp, width as int),
            decreases n - width,
        {
            width = width + 1;
        }
        proof {
            assert(row_start_from(windows@, sp, width as int) == width);
            assert(grid_width(windows@) == width);
        }
        if n % width != 0 {
            let ghost hollow = *self;
            let ghost taken = windows@;
            self.put_at_depth(depth, &mut windows, 0);
            proof {
                assert(taken.subrange(0, n as int) =~= taken);
                lemma_hollow(hollow, o, depth as nat, taken);
                lemma_replaced_same(o, depth as nat);
            }
            return None;
        }
        let mut flat: Vec<usize> = Vec::new();
        let mut i: usize = 0;
        while i < n
            invariant
                n == windows@.len(),
                n == keys@.len(),
                i <= n,
                flat@.len() == i,
                forall|k: int| 0 <= k < keys@.len() ==> (#[trigger] keys@[k]).1 < n,
                forall|k: int| 0 <= k < i ==> #[trigger] flat@[k] == keys@[k].1,
            decreases n - i,
        {
            flat.push(keys[i].1 as usize);
            i = i + 1;
        }
        proof {
            lemma_at_depth_count(o, depth as nat);
            let (w, h) = (o.rect.spec_width(), o.rect.spec_height());
            assert(w * h <= 61 * 61) by (nonlinear_arith)
                requires
                    0 < w <= 61,
                    0 < h <= 61,
            ;
        }
        let cells = Grid::from_flat(width, flat);
        let g = DepthGrid { windows, cells };
        proof {
            assert forall|a: int, c: int| 0 <= a < c < g.cells.data@.len() implies pos_key(g.windows@[g.cells.data@[a] as int].rect)
                <= pos_key(g.windows@[g.cells.data@[c] as int].rect) by {
                assert(pair_le(keys@[a], keys@[c]));
                assert(keys@[a] == orig[keys@[a].1 as int]);
                assert(keys@[c] == orig[keys@[c].1 as int]);
            }
        }
        Some(g)
    }
}

/// The number of boards of all the windows.
pub open spec fn total_boards(ws: Seq<BoardWindow>) -> int
    decreases ws.len(),
{
    if ws.len() == 0 {
        0
    } else {
        total_boards(ws.drop_last()) + ws.last().nboards()->Some_0
    }
}

/// Windows that each have at most as many boards, one of them fewer, have fewer in all.
proof fn lemma_total_lt(a: Seq<BoardWindow>, c: Seq<BoardWindow>)
    requires
        a.len() == c.len(),
        forall|k: int| 0 <= k < a.len() ==> (#[trigger] a[k]).nboards()->Some_0 <= c[k].nboards()->Some_0,
    ensures
        total_boards(a) <= total_boards(c),
        (exists|k: int| 0 <= k < a.len() && (#[trigger] a[k]).nboards()->Some_0 < c[k].nboards()->Some_0) ==> total_boards(a)
            < total_boards(c),
    decreases a.len(),
{
    if a.len() > 0 {
        let n = a.len() - 1;
        assert forall|k: int| 0 <= k < a.drop_last().len() implies (#[trigger] a.drop_last()[k]).nboards()->Some_0 <= c.drop_last()[k].nboards()->Some_0 by {
            assert(a[k].nboards()->Some_0 <= c[k].nboards()->Some_0);
        }
        lemma_total_lt(a.drop_last(), c.drop_last());
        if exists|k: int| 0 <= k < a.len() && (#[trigger] a[k]).nboards()->Some_0 < c[k].nboards()->Some_0 {
            let k = choose|k: int| 0 <= k < a.len() && (#[trigger] a[k]).nboards()->Some_0 < c[k].nboards()->Some_0;
            if k < n {
                assert(a.drop_last()[k] == a[k] && c.drop_last()[k] == c[k]);
            }
        }
    }
}

/// A number of boards is never negative.
proof fn lemma_total_nonneg(ws: Seq<BoardWindow>)
    requires
        forall|k: int| 0 <= k < ws.len() ==> (#[trigger] ws[k]).nboards() is Some,
    ensures
        0 <= total_boards(ws),
    decreases ws.len(),
{
    if ws.len() > 0 {
        assert forall|k: int| 0 <= k < ws.drop_last().len() implies (#[trigger] ws.drop_last()[k]).nboards() is Some by {
            assert(ws[k].nboards() is Some);
        }
        lemma_total_nonneg(ws.drop_last());
        assert(ws[ws.len() - 1].nboards() is Some);
    }
}

/// The number of boards of each window.
fn board_counts(ws: &Vec<BoardWindow>) -> (r: Vec<u64>)
    requires
        forall|k: int| 0 <= k < ws@.len() ==> (#[trigger] ws@[k]).nboards() is Some,
    ensures
        r@.len() == ws@.len(),
        forall|k: int| 0 <= k < ws@.len() ==> #[trigger] r@[k] as int == ws@[k].nboards()->Some_0,
{
    let mut r: Vec<u64> = Vec::new();
    let n = ws.len();
    let mut i: usize = 0;
    while i < n
        invariant
            n == ws@.len(),
            i <= n,
            r@.len() == i,
            forall|k: int| 0 <= k < ws@.len() ==> (#[trigger] ws@[k]).nboards() is Some,
            forall|k: int| 0 <= k < i ==> #[trigger] r@[k] as int == ws@[k].nboards()->Some_0,
        decreases n - i,
    {
        let c = ws[i].get_num_valid_boards();
        match c {
            Some(x) => r.push(x),
            None => r.push(0),
        }
        i = i + 1;
    }
    r
}

/// Culling stops once a round removed nothing, or some window had no boards left (so
/// that the product of the numbers of boards cannot fall further).
fn settled(prev: &Vec<u64>, now: &Vec<u64>) -> (r: bool)
    requires
        prev@.len() == now@.len(),
    ensures
        r <==> (exists|k: int| 0 <= k < prev@.len() && prev@[k] == 0) || prev@ == now@,
{
    let n = prev.len();
    let mut i: usize = 0;
    let mut same = true;
    while i < n
        invariant
            n == prev@.len(),
            n == now@.len(),
            i <= n,
            forall|k: int| 0 <= k < i ==> prev@[k] != 0,
            same <==> forall|k: int| 0 <= k < i ==> prev@[k] == now@[k],
        decreases n - i,
    {
        if prev[i] == 0 {
            return true;
        }
        if prev[i] != now[i] {
            same = false;
        }
        i = i + 1;
    }
    proof {
        if same {
            assert(prev@ =~= now@);
        }
    }
    same
}

/// The windows at `depth` can be culled: each is filled, consistent and within the
/// invariant, with scores within `b`, small enough for `b` times its cells to fit in `i32`.
pub open spec fn ready_with(w: BoardWindow, depth: nat, b: int) -> bool {
    &&& 0 <= b
    &&& forall|k: int| 0 <= k < at_depth(w, depth).len() ==> window_kept(#[trigger] at_depth(w, depth)[k], at_depth(w, depth)[k], b)
}

/// `new` is `old` with each window at `depth` keeping some of its boards.
pub open spec fn culled_at(new: BoardWindow, old: BoardWindow, depth: nat, b: int) -> bool {
    exists|ws: Seq<BoardWindow>|
        #[trigger] fit_in(old, depth, ws) && new == replaced(old, depth, ws) && forall|k: int|
            0 <= k < ws.len() ==> window_kept(#[trigger] ws[k], at_depth(old, depth)[k], b)
}

/// Puts the windows of `g` back and states what the tree then is.
proof fn lemma_put_back(hollow: BoardWindow, o: BoardWindow, depth: nat, ws: Seq<BoardWindow>, b: int)
    requires
        o.inv(),
        unfilled_above(o, depth),
        hollow_of(hollow, o, depth),
        ws.len() == at_depth(o, depth).len(),
        forall|k: int| 0 <= k < ws.len() ==> window_kept(#[trigger] ws[k], at_depth(o, depth)[k], b),
    ensures
        replaced(hollow, depth, ws) == replaced(o, depth, ws),
        fit_in(o, depth, ws),
        culled_at(replaced(o, depth, ws), o, depth, b),
        replaced(o, depth, ws).inv(),
        replaced(o, depth, ws).rect == o.rect,
        replaced(o, depth, ws).forced_dead == o.forced_dead,
        crate::search::consistent(replaced(o, depth, ws)),
        crate::search::leaves_filled(replaced(o, depth, ws)),
        crate::search::down_closed(replaced(o, depth, ws)),
        replaced(o, depth, ws).scores_within(b),
{
    lemma_hollow(hollow, o, depth, ws);
    assert(fit_in(o, depth, ws)) by {
        assert forall|k: int| 0 <= k < ws.len() implies {
            &&& (#[trigger] ws[k]).inv()
            &&& ws[k].rect == at_depth(o, depth)[k].rect
            &&& ws[k].forced_dead == at_depth(o, depth)[k].forced_dead
            &&& crate::search::consistent(ws[k])
            &&& crate::search::leaves_filled(ws[k])
            &&& crate::search::down_closed(ws[k])
        } by {
            assert(window_kept(ws[k], at_depth(o, depth)[k], b));
        }
    }
    lemma_replaced_keeps(o, depth, ws);
    assert forall|k: int| 0 <= k < ws.len() implies #[trigger] ws[k].scores_within(b) by {
        assert(window_kept(ws[k], at_depth(o, depth)[k], b));
    }
}

/// A tree whose windows at `depth` can be culled satisfies what culling ensures, with
/// nothing culled.
proof fn lemma_put_back_same(o: BoardWindow, depth: nat, b: int)
    requires
        o.inv(),
        unfilled_above(o, depth),
        ready_with(o, depth, b),
    ensures
        culled_at(o, o, depth, b),
        crate::search::consistent(o),
        crate::search::leaves_filled(o),
        crate::search::down_closed(o),
{
    let at = at_depth(o, depth);
    lemma_replaced_same(o, depth);
    lemma_hollow_refl(o, depth);
    lemma_put_back(o, o, depth, at, b);
}

/// A tree is what is left of itself.
proof fn lemma_hollow_refl(w: BoardWindow, depth: nat)
    ensures
        hollow_of(w, w, depth),
    decreases depth,
{
    if depth > 0 {
        match w.inner {
            BoardWindowData::SplitHorizontal { left, right, .. } => {
                lemma_hollow_refl(*left, (depth - 1) as nat);
                lemma_hollow_refl(*right, (depth - 1) as nat);
            },
            BoardWindowData::SplitVertical { top, bottom, .. } => {
                lemma_hollow_refl(*top, (depth - 1) as nat);
                lemma_hollow_refl(*bottom, (depth - 1) as nat);
            },
            _ => {},
        }
    }
}

/// Every window keeps itself.
proof fn lemma_window_kept_refl(w: BoardWindow, o: BoardWindow, b: int)
    requires
        window_kept(w, o, b),
    ensures
        window_kept(w, w, b),
{
    crate::scores::lemma_within_refl(w.inner);
}

/// Culls the windows `depth` splits below against their neighbours, round after round
/// (see `cull_round`), until a round removes nothing or some window has no boards left;
/// then puts them back. `None` when the windows are not laid out as a grid of neighbours.
/// Culling stops after a round that left every window as many boards as before it, or
/// that started with some window empty.
pub open spec fn settled_ws(a: Seq<BoardWindow>, c: Seq<BoardWindow>) -> bool {
    ||| exists|k: int| 0 <= k < a.len() && (#[trigger] a[k]).nboards()->Some_0 == 0
    ||| forall|k: int| 0 <= k < a.len() ==> (#[trigger] a[k]).nboards()->Some_0 == c[k].nboards()->Some_0
}

/// Round `k` of `ts` took state `k` to state `k + 1` (windows, grid, side), and went
/// through when `ok`.
pub open spec fn round_at(ts: Seq<(Seq<BoardWindow>, Grid<usize>, Direction)>, k: int, ok: bool) -> bool {
    round_done(ts[k + 1].0, ts[k + 1].1, ts[k + 1].2, ts[k].0, ts[k].1, ts[k].2, ok)
}

/// The states of culling, round by round, to the stop: every round but the last went
/// through and changed some window's number of boards, no window being empty before it;
/// the last either stopped at a pair that could not be filtered, or went through and
/// settled.
pub open spec fn cull_rounds(ts: Seq<(Seq<BoardWindow>, Grid<usize>, Direction)>) -> bool {
    &&& ts.len() >= 2
    &&& forall|k: int| 0 <= k < ts.len() - 2 ==> #[trigger] round_at(ts, k, true) && !settled_ws(ts[k].0, ts[k + 1].0)
    &&& round_at(ts, ts.len() - 2, false) || (round_at(ts, ts.len() - 2, true) && settled_ws(
        ts[ts.len() - 2].0,
        ts[ts.len() - 1].0,
    ))
}

pub fn extract_and_cull(board: &mut BoardWindow, depth: usize) -> (r: Option<()>)
    requires
        old(board).inv(),
        exposable(old(board).rect),
        unfilled_above(*old(board), depth as nat),
        exists|b: int| #[trigger] ready_with(*old(board), depth as nat, b),
    ensures
        final(board).inv(),
        final(board).rect == old(board).rect,
        final(board).forced_dead == old(board).forced_dead,
        crate::search::consistent(*final(board)),
        crate::search::leaves_filled(*final(board)),
        crate::search::down_closed(*final(board)),
        r is None <==> grid_missing(*old(board), depth as nat),
        r is None ==> *final(board) == *old(board),
        r is Some ==> exists|ts: Seq<(Seq<BoardWindow>, Grid<usize>, Direction)>| {
            &&& #[trigger] cull_rounds(ts)
            &&& ts[0].0 == at_depth(*old(board), depth as nat)
            &&& laid_out(ts[0].1, ts[0].0)
            &&& ts[0].2 == Direction::Right
            &&& *final(board) == replaced(*old(board), depth as nat, ts.last().0)
        },
        exists|b: int| ready_with(*old(board), depth as nat, b) && #[trigger] culled_at(*final(board), *old(board), depth as nat, b),
        forall|s: spec_fn(spec_fn(Coord) -> bool) -> bool|
            #[trigger] all_show(at_depth(*old(board), depth as nat), s) ==> all_show(at_depth(*final(board), depth as nat), s),
        forall|bb: int|
            #[trigger] all_within(at_depth(*old(board), depth as nat), bb) ==> all_within(at_depth(*final(board), depth as nat), bb),
{
    let ghost o = *board;
    let ghost b = choose|b: int| #[trigger] ready_with(o, depth as nat, b);
    let mut g = match board.extract_grid_at_depth(depth) {
        Some(g) => g,
        None => {
            proof {
                lemma_put_back_same(o, depth as nat, b);
            }
            return None;
        },
    };
    let ghost hollow = *board;
    let ghost orig = g.windows@;
    let mut direc = Direction::Right;
    let mut prev = board_counts(&g.windows);
    let ghost init = (g.windows@, g.cells, Direction::Right);
    let ghost mut ts: Seq<(Seq<BoardWindow>, Grid<usize>, Direction)> = seq![init];
    loop
        invariant_except_break
            prev@.len() == g.windows@.len(),
            forall|k: int| 0 <= k < g.windows@.len() ==> #[trigger] prev@[k] as int == g.windows@[k].nboards()->Some_0,
            ts.len() >= 1,
            ts.last() == (g.windows@, g.cells, direc),
            forall|k: int| 0 <= k < ts.len() - 1 ==> #[trigger] round_at(ts, k, true) && !settled_ws(ts[k].0, ts[k + 1].0),
        invariant
            ts[0] == init,
            *board == hollow,
            hollow_of(hollow, o, depth as nat),
            orig == at_depth(o, depth as nat),
            g.windows@.len() == orig.len(),
            cells_ok(g.cells, g.windows@.len() as int),
            forall|k: int| 0 <= k < g.windows@.len() ==> window_kept(#[trigger] g.windows@[k], orig[k], b),
            0 <= b,
            forall|s: spec_fn(spec_fn(Coord) -> bool) -> bool| #[trigger] all_show(orig, s) ==> all_show(g.windows@, s),
            forall|bb: int| #[trigger] all_within(orig, bb) ==> all_within(g.windows@, bb),
        ensures
            cull_rounds(ts),
            ts[0] == init,
            ts.last().0 == g.windows@,
        decreases total_boards(g.windows@),
    {
        let ghost start = g.windows@;
        let ghost t0 = ts;
        proof {
            assert forall|k: int| 0 <= k < start.len() implies window_kept(#[trigger] start[k], start[k], b) by {
                lemma_window_kept_refl(start[k], orig[k], b);
            }
        }
        let round_ok = cull_round(&mut g.windows, &mut g.cells, &mut direc, Ghost(start), Ghost(b));
        proof {
            ts = ts.push((g.windows@, g.cells, direc));
            assert(ts[ts.len() - 2] == t0.last());
            assert(round_at(ts, ts.len() - 2, round_ok));
            assert forall|k: int| 0 <= k < t0.len() - 1 implies #[trigger] round_at(ts, k, true) && !settled_ws(ts[k].0, ts[k + 1].0) by {
                assert(round_at(t0, k, true) && !settled_ws(t0[k].0, t0[k + 1].0));
                assert(ts[k] == t0[k] && ts[k + 1] == t0[k + 1]);
            }
            assert forall|s: spec_fn(spec_fn(Coord) -> bool) -> bool| #[trigger] all_show(orig, s) implies all_show(g.windows@, s) by {
                assert(all_show(start, s));
            }
            assert forall|bb: int| #[trigger] all_within(orig, bb) implies all_within(g.windows@, bb) by {
                assert(all_within(start, bb));
            }
        }
        if !round_ok {
            proof {
                assert forall|k: int| 0 <= k < start.len() implies window_kept(#[trigger] g.windows@[k], orig[k], b) by {
                    lemma_window_kept_trans(g.windows@[k], start[k], orig[k], b);
                }
            }
            break;
        }
        let now = board_counts(&g.windows);
        proof {
            assert forall|k: int| 0 <= k < start.len() implies window_kept(#[trigger] g.windows@[k], orig[k], b) by {
                lemma_window_kept_trans(g.windows@[k], start[k], orig[k], b);
            }
            assert forall|k: int| 0 <= k < start.len() implies (#[trigger] g.windows@[k]).nboards()->Some_0 <= start[k].nboards()->Some_0 by {
                crate::board::lemma_within_count(g.windows@[k], start[k]);
            }
        }
        if settled(&prev, &now) {
            proof {
                if exists|k: int| 0 <= k < prev@.len() && prev@[k] == 0 {
                    let k = choose|k: int| 0 <= k < prev@.len() && prev@[k] == 0;
                    assert(start[k].nboards()->Some_0 == 0);
                } else {
                    assert forall|k: int| 0 <= k < start.len() implies (#[trigger] start[k]).nboards()->Some_0 == g.windows@[k].nboards()->Some_0 by {
                        assert(prev@[k] == now@[k]);
                    }
                }
                assert(settled_ws(start, g.windows@));
            }
            break;
        }
        proof {
            assert(!settled_ws(start, g.windows@)) by {
                assert forall|k: int| 0 <= k < start.len() implies (#[trigger] start[k]).nboards()->Some_0 != 0 by {
                    assert(prev@[k] != 0);
                }
                if forall|k: int| 0 <= k < start.len() ==> (#[trigger] start[k]).nboards()->Some_0 == g.windows@[k].nboards()->Some_0 {
                    assert forall|k: int| 0 <= k < prev@.len() implies prev@[k] == now@[k] by {
                        assert(start[k].nboards()->Some_0 == g.windows@[k].nboards()->Some_0);
                    }
                    assert(prev@ =~= now@);
                }
            }
            assert forall|k: int| 0 <= k < ts.len() - 1 implies #[trigger] round_at(ts, k, true) && !settled_ws(ts[k].0, ts[k + 1].0) by {
                if k == ts.len() - 2 {
                    assert(ts[k].0 == start && ts[k + 1].0 == g.windows@);
                }
            }
            assert(exists|k: int| 0 <= k < prev@.len() && prev@[k] != now@[k]) by {
                if forall|k: int| 0 <= k < prev@.len() ==> prev@[k] == now@[k] {
                    assert(prev@ =~= now@);
                }
            }
            let k = choose|k: int| 0 <= k < prev@.len() && prev@[k] != now@[k];
            assert(prev@[k] as int == start[k].nboards()->Some_0);
            assert(now@[k] as int == g.windows@[k].nboards()->Some_0);
            assert(g.windows@[k].nboards()->Some_0 < start[k].nboards()->Some_0);
            lemma_total_lt(g.windows@, start);
            assert forall|j: int| 0 <= j < g.windows@.len() implies (#[trigger] g.windows@[j]).nboards() is Some by {
                assert(window_kept(g.windows@[j], orig[j], b));
            }
            lemma_total_nonneg(g.windows@);
        }
        prev = now;
    }
    let ghost ws = g.windows@;
    let mut windows = g.windows;
    proof {
        lemma_hollow(hollow, o, depth as nat, ws);
    }
    board.put_at_depth(depth, &mut windows, 0);
    proof {
        assert(ws.subrange(0, ws.len() as int) =~= ws);
        lemma_put_back(hollow, o, depth as nat, ws, b);
        lemma_at_depth_replaced(o, depth as nat, ws);
        assert(cull_rounds(ts));
    }
    Some(())
}

/// Every window of `g` is ready to be culled with scores within `b`.
pub open spec fn grid_ready(g: DepthGrid, b: int) -> bool {
    &&& 0 <= b
    &&& cells_ok(g.cells, g.windows@.len() as int)
    &&& forall|k: int| 0 <= k < g.windows@.len() ==> window_kept(#[trigger] g.windows@[k], g.windows@[k], b)
}

impl DepthGrid {
    /// One round of culling (see `cull_round`). False when two neighbours do not lie side
    /// by side.
    pub fn cull_once(&mut self, direction: &mut Direction) -> (ok: bool)
        requires
            exists|b: int| #[trigger] grid_ready(*old(self), b),
        ensures
            round_done(
                final(self).windows@,
                final(self).cells,
                *final(direction),
                old(self).windows@,
                old(self).cells,
                *old(direction),
                ok,
            ),
            final(self).windows@.len() == old(self).windows@.len(),
            exists|b: int|
                #[trigger] grid_ready(*final(self), b) && forall|k: int|
                    0 <= k < final(self).windows@.len() ==> window_kept(#[trigger] final(self).windows@[k], old(self).windows@[k], b),
            ok ==> *final(direction) == spec_opposite(spec_rotate_90_cw(spec_opposite(spec_rotate_90_cw(*old(direction))))),
    {
        let ghost b = choose|b: int| #[trigger] grid_ready(*self, b);
        let ghost start = self.windows@;
        let ok = cull_round(&mut self.windows, &mut self.cells, direction, Ghost(start), Ghost(b));
        proof {
            assert forall|k: int| 0 <= k < self.windows@.len() implies window_kept(#[trigger] self.windows@[k], self.windows@[k], b) by {
                lemma_window_kept_refl(self.windows@[k], start[k], b);
            }
            assert(grid_ready(*self, b));
        }
        ok
    }

    /// The number of boards of each window.
    pub fn counts(&self) -> (r: Vec<u64>)
        requires
            forall|k: int| 0 <= k < self.windows@.len() ==> (#[trigger] self.windows@[k]).nboards() is Some,
        ensures
            r@.len() == self.windows@.len(),
            forall|k: int| 0 <= k < self.windows@.len() ==> #[trigger] r@[k] as int == self.windows@[k].nboards()->Some_0,
    {
        board_counts(&self.windows)
    }
}

impl BoardWindow {
    /// Puts the windows of `g` back as the windows `depth` splits below.
    pub fn restore_grid_at_depth(&mut self, depth: usize, g: DepthGrid)
        requires
            g.windows@.len() == at_depth(*old(self), depth as nat).len(),
        ensures
            *final(self) == replaced(*old(self), depth as nat, g.windows@),
    {
        let ghost ws = g.windows@;
        let mut windows = g.windows;
        self.put_at_depth(depth, &mut windows, 0);
        proof {
            assert(ws.subrange(0, ws.len() as int) =~= ws);
        }
    }
}

/// `new` is `old` with each window at `depth` keeping only the best of each kind of its
/// boards (see `remove_degenerate_lowscore`).
pub open spec fn degenerates_removed(new: BoardWindow, old: BoardWindow, depth: nat, b: int) -> bool {
    exists|ws: Seq<BoardWindow>|
        #[trigger] fit_in(old, depth, ws) && new == replaced(old, depth, ws) && forall|k: int|
            0 <= k < ws.len() ==> window_kept(#[trigger] ws[k], at_depth(old, depth)[k], b) && subset_of(
                ws[k],
                at_depth(old, depth)[k],
                kept_indices(best_mask(at_depth(old, depth)[k])),
            )
}

/// Of every set of boards of each window `depth` splits below that show the same cells
/// along all four sides, keeps only the lowest-scoring one (see
/// `remove_degenerate_lowscore`). `None` (and the tree unchanged) when the windows are
/// not laid out as a grid.
pub fn extract_and_cull_lowcost(board: &mut BoardWindow, depth: usize) -> (r: Option<()>)
    requires
        old(board).inv(),
        exposable(old(board).rect),
        unfilled_above(*old(board), depth as nat),
        exists|b: int| #[trigger] ready_with(*old(board), depth as nat, b),
    ensures
        final(board).inv(),
        final(board).rect == old(board).rect,
        final(board).forced_dead == old(board).forced_dead,
        crate::search::consistent(*final(board)),
        crate::search::leaves_filled(*final(board)),
        crate::search::down_closed(*final(board)),
        r is None <==> grid_missing(*old(board), depth as nat),
        r is None ==> *final(board) == *old(board),
        r is Some ==> exists|b: int| ready_with(*old(board), depth as nat, b) && #[trigger] degenerates_removed(*final(board), *old(board), depth as nat, b),
{
    let ghost o = *board;
    let ghost b = choose|b: int| #[trigger] ready_with(o, depth as nat, b);
    let mut g = match board.extract_grid_at_depth(depth) {
        Some(g) => g,
        None => {
            proof {
                lemma_put_back_same(o, depth as nat, b);
            }
            return None;
        },
    };
    let ghost hollow = *board;
    let ghost orig = g.windows@;
    let n = g.windows.len();
    let mut k: usize = 0;
    while k < n
        invariant
            n == g.windows@.len(),
            k <= n,
            orig == at_depth(o, depth as nat),
            g.windows@.len() == orig.len(),
            forall|j: int| 0 <= j < n ==> window_kept(#[trigger] g.windows@[j], orig[j], b),
            forall|j: int| 0 <= j < k ==> subset_of(#[trigger] g.windows@[j], orig[j], kept_indices(best_mask(orig[j]))),
            forall|j: int| k <= j < n ==> #[trigger] g.windows@[j] == orig[j],
            0 <= b,
        decreases n - k,
    {
        let mut w = placeholder();
        std::mem::swap(&mut w, &mut g.windows[k]);
        let ghost w0 = w;
        proof {
            assert(window_kept(w0, orig[k as int], b));
            assert(w0 == orig[k as int]);
        }
        let _ = w.remove_degenerate_lowscore();
        proof {
            crate::search::lemma_within_keeps(w, w0);
            assert(w.scores_within(b));
            assert(window_kept(w, w0, b));
            lemma_window_kept_trans(w, w0, orig[k as int], b);
        }
        std::mem::swap(&mut w, &mut g.windows[k]);
        k = k + 1;
    }
    let ghost ws = g.windows@;
    let mut windows = g.windows;
    proof {
        lemma_hollow(hollow, o, depth as nat, ws);
    }
    board.put_at_depth(depth, &mut windows, 0);
    proof {
        assert(ws.subrange(0, ws.len() as int) =~= ws);
        lemma_put_back(hollow, o, depth as nat, ws, b);
        assert(degenerates_removed(*board, o, depth as nat, b));
    }
    Some(())
}

} // verus!