//! Text forms of a grid (plain text and RLE), borders, and reading RLE back.
use vstd::prelude::*;
use crate::basic_grids::{cell_index, lemma_index_bounds, lemma_index_injective, Coord, Direction, Grid, Rect};
use crate::ca::CACell;
use crate::text::{int_text, push_char, push_int, push_str};

verus! {

/// Where cell `p` of a grid of size `r` stands in its text, when every row takes
/// `width + extra` characters: the cells, then `extra` more.
pub open spec fn grid_pos(r: Rect, p: Coord, extra: int) -> int {
    (p.y - r.top) * (r.spec_width() + extra) + (p.x - r.left)
}

/// Where the `k`-th character after the cells of row `y` stands.
pub open spec fn row_tail_pos(r: Rect, y: int, extra: int, k: int) -> int {
    (y - r.top) * (r.spec_width() + extra) + r.spec_width() + k
}

/// Row-major order of text positions.
proof fn lemma_text_order(ra: int, ca: int, rb: int, cb: int, s: int)
    requires
        0 <= ra,
        0 <= rb,
        0 <= ca < s,
        0 <= cb,
        ra < rb || (ra == rb && ca < cb),
    ensures
        ra * s + ca < rb * s + cb,
{
    if ra < rb {
        assert(ra * s + s <= rb * s) by (nonlinear_arith)
            requires
                ra < rb,
                0 <= s,
        ;
    }
}

proof fn lemma_next_row(a: int, s: int)
    ensures
        a * s + s == (a + 1) * s,
{
    assert(a * s + s == (a + 1) * s) by (nonlinear_arith);
}

/// The plain-text character of a cell.
pub open spec fn plain_char(c: CACell) -> char {
    match c {
        CACell::ALIVE => '*',
        CACell::DEAD => '.',
    }
}

/// The RLE character of a cell.
pub open spec fn rle_char(c: CACell) -> char {
    match c {
        CACell::ALIVE => 'o',
        CACell::DEAD => 'b',
    }
}

/// The first line of a pretty RLE text.
pub open spec fn rle_header(w: int, h: int, rule: Seq<char>) -> Seq<char> {
    "x = "@ + int_text(w) + ", y = "@ + int_text(h) + ", rule = "@ + rule + seq!['\n']
}

fn plain_char_of(c: &CACell) -> (r: char)
    ensures
        r == plain_char(*c),
{
    match c {
        CACell::ALIVE => '*',
        CACell::DEAD => '.',
    }
}

impl<T> Grid<T> {
    /// Renders the grid row by row, one character per cell as `f` gives it, each row
    /// ended by a line feed.
    pub fn to_plaintext_generic<F: Fn(&T) -> char>(&self, f: F) -> (r: String)
        requires
            self.wf(),
            forall|p: Coord| #[trigger] self.size.contains(p) ==> call_requires(f, (&self.at(p),)),
        ensures
            r@.len() == self.size.spec_height() * (self.size.spec_width() + 1),
            forall|p: Coord| #[trigger]
                self.size.contains(p) ==> call_ensures(f, (&self.at(p),), r@[grid_pos(self.size, p, 1)]),
            forall|y: int|
                self.size.top <= y < self.size.bottom ==> #[trigger] r@[row_tail_pos(self.size, y, 1, 0)]
                    == '\n',
    {
        let rect = self.size;
        let ghost w = rect.spec_width();
        let mut out = String::new();
        let mut y = rect.top;
        while y < rect.bottom
            invariant
                self.wf(),
                rect == self.size,
                w == rect.spec_width(),
                forall|p: Coord| #[trigger] rect.contains(p) ==> call_requires(f, (&self.at(p),)),
                rect.top <= y <= rect.bottom,
                out@.len() == (y - rect.top) * (w + 1),
                forall|p: Coord| #[trigger]
                    rect.contains(p) && p.y < y ==> call_ensures(f, (&self.at(p),), out@[grid_pos(rect, p, 1)]),
                forall|yy: int| rect.top <= yy < y ==> #[trigger] out@[row_tail_pos(rect, yy, 1, 0)] == '\n',
            decreases rect.bottom - y,
        {
            let mut x = rect.left;
            while x < rect.right
                invariant
                    self.wf(),
                    rect == self.size,
                    w == rect.spec_width(),
                    forall|p: Coord| #[trigger] rect.contains(p) ==> call_requires(f, (&self.at(p),)),
                    rect.top <= y < rect.bottom,
                    rect.left <= x <= rect.right,
                    out@.len() == (y - rect.top) * (w + 1) + (x - rect.left),
                    forall|p: Coord| #[trigger]
                        rect.contains(p) && (p.y < y || (p.y == y && p.x < x)) ==> call_ensures(
                            f,
                            (&self.at(p),),
                            out@[grid_pos(rect, p, 1)],
                        ),
                    forall|yy: int| rect.top <= yy < y ==> #[trigger] out@[row_tail_pos(rect, yy, 1, 0)] == '\n',
                decreases rect.right - x,
            {
                let q = Coord { x, y };
                let ghost before = out@;
                assert(rect.contains(q));
                let c = f(self.get(q));
                push_char(&mut out, c);
                proof {
                    assert forall|p: Coord| #[trigger]
                        rect.contains(p) && (p.y < y || (p.y == y && p.x < x + 1)) implies call_ensures(
                            f,
                            (&self.at(p),),
                            out@[grid_pos(rect, p, 1)],
                        ) by {
                        if p != q {
                            lemma_text_order(p.y - rect.top, p.x - rect.left, y - rect.top, x - rect.left, w + 1);
                        }
                    }
                    assert forall|yy: int| rect.top <= yy < y implies #[trigger] out@[row_tail_pos(rect, yy, 1, 0)]
                        == '\n' by {
                        lemma_text_order(yy - rect.top, w, y - rect.top, x - rect.left, w + 1);
                    }
                }
                x = x + 1;
            }
            push_char(&mut out, '\n');
            proof {
                lemma_next_row(y - rect.top, w + 1);
                assert forall|p: Coord| #[trigger] rect.contains(p) && p.y < y + 1 implies call_ensures(
                    f,
                    (&self.at(p),),
                    out@[grid_pos(rect, p, 1)],
                ) by {
                    lemma_text_order(p.y - rect.top, p.x - rect.left, y - rect.top, w, w + 1);
                }
                assert forall|yy: int| rect.top <= yy < y + 1 implies #[trigger] out@[row_tail_pos(rect, yy, 1, 0)]
                    == '\n' by {
                    if yy < y {
                        lemma_text_order(yy - rect.top, w, y - rect.top, w, w + 1);
                    }
                }
            }
            y = y + 1;
        }
        out
    }
}

impl Grid<CACell> {
    /// Renders the grid as `*` (alive) and `.` (dead), each row ended by a line feed.
    pub fn to_plaintext(&self) -> (r: String)
        requires
            self.wf(),
        ensures
            renders_plain(r@, *self),
            r@.len() == self.size.spec_height() * (self.size.spec_width() + 1),
            forall|p: Coord| #[trigger]
                self.size.contains(p) ==> r@[grid_pos(self.size, p, 1)] == plain_char(self.at(p)),
            forall|y: int|
                self.size.top <= y < self.size.bottom ==> #[trigger] r@[row_tail_pos(self.size, y, 1, 0)]
                    == '\n',
    {
        self.to_plaintext_generic(plain_char_of)
    }

    /// Renders the grid as RLE without run lengths: a header line naming the size and
    /// `rule_str`, then per row one `o` (alive) or `b` (dead) per cell, a row end, and a
    /// line feed. The row end is `!` on the last row and `$` on every other row.
    pub fn to_pretty_rle(&self, rule_str: &str) -> (r: String)
        requires
            self.wf(),
        ensures
            pretty_rle_text(r@, *self, rule_str@),
            ({
                let hd = rle_header(self.size.spec_width(), self.size.spec_height(), rule_str@);
                let body = r@.skip(hd.len() as int);
                &&& r@.len() == hd.len() + self.size.spec_height() * (self.size.spec_width() + 2)
                &&& r@.take(hd.len() as int) == hd
                &&& forall|p: Coord| #[trigger]
                    self.size.contains(p) ==> body[grid_pos(self.size, p, 2)] == rle_char(self.at(p))
                &&& forall|y: int|
                    self.size.top <= y < self.size.bottom ==> #[trigger] body[row_tail_pos(self.size, y, 2, 0)]
                        == if y == self.size.bottom - 1 {
                        '!'
                    } else {
                        '$'
                    }
                &&& forall|y: int|
                    self.size.top <= y < self.size.bottom ==> #[trigger] body[row_tail_pos(self.size, y, 2, 1)]
                        == '\n'
            }),
    {
        let rect = self.size;
        let w = rect.width();
        let h = rect.height();
        let ghost wi = w as int;
        let mut body = String::new();
        let mut y = rect.top;
        while y < rect.bottom
            invariant
                self.wf(),
                rect == self.size,
                wi == w == rect.spec_width(),
                h == rect.spec_height(),
                rect.top <= y <= rect.bottom,
                body@.len() == (y - rect.top) * (wi + 2),
                forall|p: Coord| #[trigger]
                    rect.contains(p) && p.y < y ==> body@[grid_pos(rect, p, 2)] == rle_char(self.at(p)),
                forall|yy: int|
                    rect.top <= yy < y ==> #[trigger] body@[row_tail_pos(rect, yy, 2, 0)] == if yy == rect.bottom - 1 {
                        '!'
                    } else {
                        '$'
                    },
                forall|yy: int| rect.top <= yy < y ==> #[trigger] body@[row_tail_pos(rect, yy, 2, 1)] == '\n',
            decreases rect.bottom - y,
        {
            let mut x = rect.left;
            while x < rect.right
                invariant
                    self.wf(),
                    rect == self.size,
                    wi == w == rect.spec_width(),
                    h == rect.spec_height(),
                    rect.top <= y < rect.bottom,
                    rect.left <= x <= rect.right,
                    body@.len() == (y - rect.top) * (wi + 2) + (x - rect.left),
                    forall|p: Coord| #[trigger]
                        rect.contains(p) && (p.y < y || (p.y == y && p.x < x)) ==> body@[grid_pos(rect, p, 2)]
                            == rle_char(self.at(p)),
                    forall|yy: int|
                        rect.top <= yy < y ==> #[trigger] body@[row_tail_pos(rect, yy, 2, 0)] == if yy == rect.bottom - 1 {
                            '!'
                        } else {
                            '$'
                        },
                    forall|yy: int| rect.top <= yy < y ==> #[trigger] body@[row_tail_pos(rect, yy, 2, 1)] == '\n',
                decreases rect.right - x,
            {
                let q = Coord { x, y };
                let c = match self.get(q) {
                    CACell::ALIVE => 'o',
                    CACell::DEAD => 'b',
                };
                let ghost before = body@;
                push_char(&mut body, c);
                proof {
                    assert forall|p: Coord| #[trigger]
                        rect.contains(p) && (p.y < y || (p.y == y && p.x < x + 1)) implies body@[grid_pos(rect, p, 2)]
                        == rle_char(self.at(p)) by {
                        if p != q {
                            lemma_text_order(p.y - rect.top, p.x - rect.left, y - rect.top, x - rect.left, wi + 2);
                        }
                    }
                    assert forall|yy: int| rect.top <= yy < y implies #[trigger] body@[row_tail_pos(rect, yy, 2, 0)]
                        == if yy == rect.bottom - 1 {
                        '!'
                    } else {
                        '$'
                    } by {
                        lemma_text_order(yy - rect.top, wi, y - rect.top, x - rect.left, wi + 2);
                    }
                    assert forall|yy: int| rect.top <= yy < y implies #[trigger] body@[row_tail_pos(rect, yy, 2, 1)]
                        == '\n' by {
                        lemma_text_order(yy - rect.top, wi + 1, y - rect.top, x - rect.left, wi + 2);
                    }
                }
                x = x + 1;
            }
            let end = if y == rect.bottom - 1 {
                '!'
            } else {
                '$'
            };
            push_char(&mut body, end);
            push_char(&mut body, '\n');
            proof {
                lemma_next_row(y - rect.top, wi + 2);
                assert forall|p: Coord| #[trigger] rect.contains(p) && p.y < y + 1 implies body@[grid_pos(rect, p, 2)]
                    == rle_char(self.at(p)) by {
                    lemma_text_order(p.y - rect.top, p.x - rect.left, y - rect.top, wi, wi + 2);
                }
                assert forall|yy: int| rect.top <= yy < y + 1 implies #[trigger] body@[row_tail_pos(rect, yy, 2, 0)]
                    == if yy == rect.bottom - 1 {
                    '!'
                } else {
                    '$'
                } by {
                    if yy < y {
                        lemma_text_order(yy - rect.top, wi, y - rect.top, wi, wi + 2);
                    }
                }
                assert forall|yy: int| rect.top <= yy < y + 1 implies #[trigger] body@[row_tail_pos(rect, yy, 2, 1)]
                    == '\n' by {
                    if yy < y {
                        lemma_text_order(yy - rect.top, wi + 1, y - rect.top, wi, wi + 2);
                    }
                }
            }
            y = y + 1;
        }
        let mut out = String::new();
        push_str(&mut out, "x = ");
        push_int(&mut out, w as i64);
        push_str(&mut out, ", y = ");
        push_int(&mut out, h as i64);
        push_str(&mut out, ", rule = ");
        push_str(&mut out, rule_str);
        push_char(&mut out, '\n');
        let ghost hd = rle_header(wi, h as int, rule_str@);
        assert(out@ =~= hd);
        push_str(&mut out, body.as_str());
        proof {
            assert(out@.take(hd.len() as int) =~= hd);
            assert(out@.skip(hd.len() as int) =~= body@);
        }
        out
    }
}

/// `r` grown by `b` cells on every side.
pub open spec fn bordered(r: Rect, b: int) -> Rect {
    Rect { top: (r.top - b) as i32, left: (r.left - b) as i32, bottom: (r.bottom + b) as i32, right: (r.right + b) as i32 }
}

/// `r` grown by `b` cells on side `d`.
pub open spec fn grown(r: Rect, b: int, d: Direction) -> Rect {
    match d {
        Direction::Up => Rect { top: (r.top - b) as i32, ..r },
        Direction::Down => Rect { bottom: (r.bottom + b) as i32, ..r },
        Direction::Left => Rect { left: (r.left - b) as i32, ..r },
        Direction::Right => Rect { right: (r.right + b) as i32, ..r },
    }
}

/// `r` with `b` cells taken off every side; a side that would cross the opposite
/// one leaves an empty extent.
pub open spec fn shrunk(r: Rect, b: int) -> Rect {
    let w = if r.spec_width() - 2 * b > 0 { r.spec_width() - 2 * b } else { 0 };
    let h = if r.spec_height() - 2 * b > 0 { r.spec_height() - 2 * b } else { 0 };
    Rect { top: (r.top + b) as i32, left: (r.left + b) as i32, bottom: (r.top + b + h) as i32, right: (r.left + b + w) as i32 }
}

/// Taking off the border that was put on gives back the extent, and every cell of it
/// lies inside the bordered one.
pub proof fn law_border_round_trip(r: Rect, b: int)
    requires
        r.top <= r.bottom,
        r.left <= r.right,
        0 <= b,
        r.top - b >= i32::MIN,
        r.left - b >= i32::MIN,
        r.bottom + b <= i32::MAX,
        r.right + b <= i32::MAX,
    ensures
        shrunk(bordered(r, b), b) == r,
        forall|p: Coord| #[trigger] r.contains(p) ==> bordered(r, b).contains(p),
{
}

/// `t` shows `g` as `to_pretty_rle` does: the header line naming the size and `rule`,
/// then per row one `o` or `b` per cell, `$` (`!` on the last row) and a line feed.
pub open spec fn pretty_rle_text(t: Seq<char>, g: Grid<CACell>, rule: Seq<char>) -> bool {
    let hd = rle_header(g.size.spec_width(), g.size.spec_height(), rule);
    let body = t.skip(hd.len() as int);
    &&& t.len() == hd.len() + g.size.spec_height() * (g.size.spec_width() + 2)
    &&& t.take(hd.len() as int) == hd
    &&& forall|p: Coord| #[trigger] g.size.contains(p) ==> body[grid_pos(g.size, p, 2)] == rle_char(g.at(p))
    &&& forall|y: int|
        g.size.top <= y < g.size.bottom ==> #[trigger] body[row_tail_pos(g.size, y, 2, 0)] == if y == g.size.bottom - 1 {
            '!'
        } else {
            '$'
        }
    &&& forall|y: int| g.size.top <= y < g.size.bottom ==> #[trigger] body[row_tail_pos(g.size, y, 2, 1)] == '\n'
}

/// `s` shows `g` as `to_plaintext` does: per row one `*` (alive) or `.` (dead) per cell,
/// then a line feed.
pub open spec fn renders_plain(s: Seq<char>, g: Grid<CACell>) -> bool {
    &&& s.len() == g.size.spec_height() * (g.size.spec_width() + 1)
    &&& forall|p: Coord| #[trigger] g.size.contains(p) ==> s[grid_pos(g.size, p, 1)] == plain_char(g.at(p))
    &&& forall|y: int| g.size.top <= y < g.size.bottom ==> #[trigger] s[row_tail_pos(g.size, y, 1, 0)] == '\n'
}

/// Only one text shows a grid as `to_plaintext` does: the plain text is the generic
/// rendering with `*` for alive and `.` for dead, of `h * (w + 1)` characters.
pub proof fn law_plaintext_unique(g: Grid<CACell>, s1: Seq<char>, s2: Seq<char>)
    requires
        g.wf(),
        renders_plain(s1, g),
        renders_plain(s2, g),
    ensures
        s1 == s2,
{
    let r = g.size;
    let w = r.spec_width();
    let h = r.spec_height();
    assert forall|k: int| 0 <= k < s1.len() implies s1[k] == s2[k] by {
        let y = k / (w + 1);
        let x = k % (w + 1);
        assert(0 <= y < h && 0 <= x <= w && k == y * (w + 1) + x) by (nonlinear_arith)
            requires
                w >= 0,
                h >= 0,
                0 <= k < h * (w + 1),
                y == k / (w + 1),
                x == k % (w + 1),
        ;
        if x < w {
            let p = Coord { x: (r.left + x) as i32, y: (r.top + y) as i32 };
            assert(r.contains(p));
            assert(grid_pos(r, p, 1) == k);
        } else {
            assert(row_tail_pos(r, r.top + y, 1, 0) == k);
        }
    }
    assert(s1 =~= s2);
}

/// `a` is `g` with `b` dead cells added on every side, as `with_border` makes it.
pub open spec fn is_bordered(a: Grid<CACell>, g: Grid<CACell>, b: int) -> bool {
    &&& a.wf()
    &&& a.size == bordered(g.size, b)
    &&& forall|p: Coord| #[trigger]
        a.size.contains(p) ==> a.at(p) == if g.size.contains(p) {
            g.at(p)
        } else {
            CACell::DEAD
        }
}

/// `c` is `a` with `b` cells taken off every side, as `without_border` makes it.
pub open spec fn is_shrunk(c: Grid<CACell>, a: Grid<CACell>, b: int) -> bool {
    &&& c.wf()
    &&& c.size == shrunk(a.size, b)
    &&& forall|p: Coord| #[trigger] c.size.contains(p) ==> c.at(p) == a.at(p)
}

/// Taking off the border that was put on gives back the grid: the same extent and the
/// same cells.
pub proof fn law_grid_border_round_trip(g: Grid<CACell>, a: Grid<CACell>, c: Grid<CACell>, b: int)
    requires
        g.wf(),
        0 <= b,
        g.size.top - b >= i32::MIN,
        g.size.left - b >= i32::MIN,
        g.size.bottom + b <= i32::MAX,
        g.size.right + b <= i32::MAX,
        is_bordered(a, g, b),
        is_shrunk(c, a, b),
    ensures
        c.size == g.size,
        c.data@ == g.data@,
{
    law_border_round_trip(g.size, b);
    assert forall|p: Coord| c.size.contains(p) implies c.at(p) == g.at(p) by {
        assert(a.size.contains(p));
    }
    crate::basic_grids::lemma_grid_ext(c, g);
}

impl Grid<CACell> {
    /// Copies the cells of `region` from `self` into `into`.
    fn copy_cells(&self, into: &mut Grid<CACell>, region: Rect)
        requires
            self.wf(),
            old(into).wf(),
            region.top <= region.bottom,
            region.left <= region.right,
            forall|p: Coord| #[trigger] region.contains(p) ==> self.size.contains(p) && old(into).size.contains(p),
        ensures
            final(into).wf(),
            final(into).size == old(into).size,
            forall|p: Coord| #[trigger]
                final(into).size.contains(p) ==> final(into).at(p) == if region.contains(p) {
                    self.at(p)
                } else {
                    old(into).at(p)
                },
    {
        let ghost g0 = *into;
        let mut y = region.top;
        while y < region.bottom
            invariant
                self.wf(),
                into.wf(),
                into.size == g0.size,
                region.top <= y <= region.bottom,
                region.left <= region.right,
                forall|p: Coord| #[trigger] region.contains(p) ==> self.size.contains(p) && g0.size.contains(p),
                forall|p: Coord| #[trigger]
                    g0.size.contains(p) ==> into.at(p) == if region.contains(p) && p.y < y {
                        self.at(p)
                    } else {
                        g0.at(p)
                    },
            decreases region.bottom - y,
        {
            let mut x = region.left;
            while x < region.right
                invariant
                    self.wf(),
                    into.wf(),
                    into.size == g0.size,
                    region.top <= y < region.bottom,
                    region.left <= x <= region.right,
                    forall|p: Coord| #[trigger] region.contains(p) ==> self.size.contains(p) && g0.size.contains(p),
                    forall|p: Coord| #[trigger]
                        g0.size.contains(p) ==> into.at(p) == if region.contains(p) && (p.y < y || (p.y == y
                            && p.x < x)) {
                            self.at(p)
                        } else {
                            g0.at(p)
                        },
                decreases region.right - x,
            {
                let q = Coord { x, y };
                assert(region.contains(q));
                let v = *self.get(q);
                proof {
                    lemma_index_bounds(into.size, q);
                }
                let slot = into.get_mut(q);
                *slot = v;
                proof {
                    assert forall|p: Coord| #[trigger] g0.size.contains(p) implies into.at(p) == if region.contains(
                        p,
                    ) && (p.y < y || (p.y == y && p.x < x + 1)) {
                        self.at(p)
                    } else {
                        g0.at(p)
                    } by {
                        lemma_index_bounds(into.size, p);
                        if cell_index(into.size, p) == cell_index(into.size, q) {
                            lemma_index_injective(into.size, p, q);
                        }
                    }
                }
                x = x + 1;
            }
            y = y + 1;
        }
    }

    /// A copy with `border` dead cells added on every side.
    pub fn with_border(&self, border: usize) -> (r: Grid<CACell>)
        requires
            self.wf(),
            border <= i32::MAX,
            self.size.top - border >= i32::MIN,
            self.size.left - border >= i32::MIN,
            self.size.bottom + border <= i32::MAX,
            self.size.right + border <= i32::MAX,
            self.size.spec_width() + 2 * border <= i32::MAX,
            self.size.spec_height() + 2 * border <= i32::MAX,
            bordered(self.size, border as int).spec_width() * bordered(self.size, border as int).spec_height()
                <= i32::MAX,
        ensures
            is_bordered(r, *self, border as int),
            r.wf(),
            r.size == bordered(self.size, border as int),
            forall|p: Coord| #[trigger]
                r.size.contains(p) ==> r.at(p) == if self.size.contains(p) {
                    self.at(p)
                } else {
                    CACell::DEAD
                },
    {
        let b = border as i32;
        let old_size = self.size;
        let w = old_size.width() + 2 * b;
        let h = old_size.height() + 2 * b;
        let mut new_grid = Grid::new(h, w, CACell::DEAD);
        let ghost g0 = new_grid;
        new_grid.set_origin(Coord { x: old_size.left - b, y: old_size.top - b });
        let ghost g1 = new_grid;
        proof {
            assert forall|p: Coord| #[trigger] g1.size.contains(p) implies g1.at(p) == CACell::DEAD by {
                lemma_index_bounds(g1.size, p);
                assert(cloned(CACell::DEAD, g0.data@[cell_index(g1.size, p)]));
            }
        }
        self.copy_cells(&mut new_grid, old_size);
        new_grid
    }

    /// A copy with `border` dead cells added on side `direction`.
    pub fn with_border_direction(&self, border: usize, direction: Direction) -> (r: Grid<CACell>)
        requires
            self.wf(),
            border <= i32::MAX,
            (direction == Direction::Up || direction == Direction::Down) ==> self.size.spec_height() + border
                <= i32::MAX,
            (direction == Direction::Left || direction == Direction::Right) ==> self.size.spec_width() + border
                <= i32::MAX,
            direction == Direction::Up ==> self.size.top - border >= i32::MIN,
            direction == Direction::Left ==> self.size.left - border >= i32::MIN,
            direction == Direction::Down ==> self.size.bottom + border <= i32::MAX,
            direction == Direction::Right ==> self.size.right + border <= i32::MAX,
            grown(self.size, border as int, direction).spec_width() * grown(
                self.size,
                border as int,
                direction,
            ).spec_height() <= i32::MAX,
        ensures
            r.wf(),
            r.size == grown(self.size, border as int, direction),
            forall|p: Coord| #[trigger]
                r.size.contains(p) ==> r.at(p) == if self.size.contains(p) {
                    self.at(p)
                } else {
                    CACell::DEAD
                },
    {
        let b = border as i32;
        let old_size = self.size;
        let mut w = old_size.width();
        let mut h = old_size.height();
        let mut dx: i32 = 0;
        let mut dy: i32 = 0;
        match direction {
            Direction::Up => {
                h += b;
                dy -= b;
            },
            Direction::Down => {
                h += b;
            },
            Direction::Left => {
                w += b;
                dx -= b;
            },
            Direction::Right => {
                w += b;
            },
        }
        let mut new_grid = Grid::new(h, w, CACell::DEAD);
        let ghost g0 = new_grid;
        new_grid.set_origin(Coord { x: old_size.left + dx, y: old_size.top + dy });
        let ghost g1 = new_grid;
        proof {
            assert forall|p: Coord| #[trigger] g1.size.contains(p) implies g1.at(p) == CACell::DEAD by {
                lemma_index_bounds(g1.size, p);
                assert(cloned(CACell::DEAD, g0.data@[cell_index(g1.size, p)]));
            }
        }
        self.copy_cells(&mut new_grid, old_size);
        new_grid
    }

    /// A copy with `border` cells taken off every side (see `shrunk`).
    pub fn without_border(&self, border: usize) -> (r: Grid<CACell>)
        requires
            self.wf(),
            2 * border <= i32::MAX,
            self.size.top + border <= i32::MAX,
            self.size.left + border <= i32::MAX,
        ensures
            is_shrunk(r, *self, border as int),
            r.wf(),
            r.size == shrunk(self.size, border as int),
            forall|p: Coord| #[trigger] r.size.contains(p) ==> r.at(p) == self.at(p),
    {
        let b = border as i32;
        let old_size = self.size;
        let ow = old_size.width() - 2 * b;
        let oh = old_size.height() - 2 * b;
        let w = if ow > 0 {
            ow
        } else {
            0
        };
        let h = if oh > 0 {
            oh
        } else {
            0
        };
        proof {
            let (wi, hi, sw, sh) = (w as int, h as int, old_size.spec_width(), old_size.spec_height());
            assert(wi * hi <= sw * sh) by (nonlinear_arith)
                requires
                    0 <= wi <= sw,
                    0 <= hi <= sh,
            ;
        }
        let mut new_grid = Grid::new(h, w, CACell::DEAD);
        new_grid.set_origin(Coord { x: old_size.left + b, y: old_size.top + b });
        let region = new_grid.size;
        self.copy_cells(&mut new_grid, region);
        new_grid
    }
}

} // verus!
