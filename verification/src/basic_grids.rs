//! Coordinates, rectangles, directions, dense grids and bit-packed cell sets.
use vstd::prelude::*;
use crate::bits::{bit, fits};

verus! {

/// One of the four sides of a rectangle.
#[derive(Debug, Clone, Copy, PartialEq, Eq, Structural, PartialOrd, Ord, Hash)]
pub enum Direction {
    Up,
    Down,
    Left,
    Right,
}

pub open spec fn spec_opposite(d: Direction) -> Direction {
    match d {
        Direction::Up => Direction::Down,
        Direction::Down => Direction::Up,
        Direction::Left => Direction::Right,
        Direction::Right => Direction::Left,
    }
}

pub open spec fn spec_rotate_90_cw(d: Direction) -> Direction {
    match d {
        Direction::Up => Direction::Right,
        Direction::Down => Direction::Left,
        Direction::Left => Direction::Up,
        Direction::Right => Direction::Down,
    }
}

/// Position of a direction in per-direction tables (Up, Down, Left, Right).
pub open spec fn spec_dir_index(d: Direction) -> int {
    match d {
        Direction::Up => 0,
        Direction::Down => 1,
        Direction::Left => 2,
        Direction::Right => 3,
    }
}

impl Direction {
    pub fn opposite(self) -> (r: Direction)
        ensures
            r == spec_opposite(self),
    {
        match self {
            Direction::Up => Direction::Down,
            Direction::Down => Direction::Up,
            Direction::Left => Direction::Right,
            Direction::Right => Direction::Left,
        }
    }

    pub fn rotate_90_cw(self) -> (r: Direction)
        ensures
            r == spec_rotate_90_cw(self),
    {
        match self {
            Direction::Up => Direction::Right,
            Direction::Down => Direction::Left,
            Direction::Left => Direction::Up,
            Direction::Right => Direction::Down,
        }
    }

    /// The index of this direction in per-direction tables.
    pub fn index(self) -> (r: usize)
        ensures
            r as int == spec_dir_index(self),
            r < 4,
    {
        match self {
            Direction::Up => 0,
            Direction::Down => 1,
            Direction::Left => 2,
            Direction::Right => 3,
        }
    }
}

/// The opposite of the opposite direction is the direction itself.
pub proof fn lemma_opposite_involutive(d: Direction)
    by (nonlinear_arith)
    ensures
        spec_opposite(spec_opposite(d)) == d,
{
}

/// Two quarter turns make a half turn, and four make a full turn.
pub proof fn lemma_rotate_turns(d: Direction)
    ensures
        spec_rotate_90_cw(spec_rotate_90_cw(d)) == spec_opposite(d),
        spec_rotate_90_cw(spec_rotate_90_cw(spec_rotate_90_cw(spec_rotate_90_cw(d)))) == d,
        spec_rotate_90_cw(spec_opposite(d)) == spec_opposite(spec_rotate_90_cw(d)),
        spec_rotate_90_cw(d) != d,
        spec_opposite(d) != d,
{
}

/// A set of directions (the sides of a window that must stay dead).
#[derive(Debug, Clone, Copy, PartialEq, Eq, Structural)]
pub struct Directions {
    pub up: bool,
    pub down: bool,
    pub left: bool,
    pub right: bool,
}

impl Directions {
    pub open spec fn has(self, d: Direction) -> bool {
        match d {
            Direction::Up => self.up,
            Direction::Down => self.down,
            Direction::Left => self.left,
            Direction::Right => self.right,
        }
    }

    /// Number of directions in the set.
    pub open spec fn count(self) -> int {
        (if self.up { 1int } else { 0int }) + (if self.down { 1int } else { 0int }) + (if self.left {
            1int
        } else {
            0int
        }) + (if self.right { 1int } else { 0int })
    }

    pub fn empty() -> (r: Directions)
        ensures
            forall|d: Direction| !r.has(d),
    {
        Directions { up: false, down: false, left: false, right: false }
    }

    pub fn all() -> (r: Directions)
        ensures
            forall|d: Direction| r.has(d),
    {
        Directions { up: true, down: true, left: true, right: true }
    }

    /// The set holding only `d`.
    pub fn single(d: Direction) -> (r: Directions)
        ensures
            forall|e: Direction| r.has(e) == (e == d),
    {
        Directions {
            up: d == Direction::Up,
            down: d == Direction::Down,
            left: d == Direction::Left,
            right: d == Direction::Right,
        }
    }

    pub fn contains(self, d: Direction) -> (r: bool)
        ensures
            r == self.has(d),
    {
        match d {
            Direction::Up => self.up,
            Direction::Down => self.down,
            Direction::Left => self.left,
            Direction::Right => self.right,
        }
    }

    /// This set with `d` taken out.
    pub open spec fn spec_without(self, d: Direction) -> Directions {
        Directions {
            up: self.up && d != Direction::Up,
            down: self.down && d != Direction::Down,
            left: self.left && d != Direction::Left,
            right: self.right && d != Direction::Right,
        }
    }

    /// This set with `d` taken out.
    pub fn without(self, d: Direction) -> (r: Directions)
        ensures
            r == self.spec_without(d),
            forall|e: Direction| r.has(e) == (self.has(e) && e != d),
    {
        Directions {
            up: self.up && d != Direction::Up,
            down: self.down && d != Direction::Down,
            left: self.left && d != Direction::Left,
            right: self.right && d != Direction::Right,
        }
    }

    /// The one direction of a set that holds exactly one.
    pub fn to_single(self) -> (r: Option<Direction>)
        ensures
            r matches Some(d) ==> self.count() == 1 && self.has(d),
            r is None <==> self.count() != 1,
    {
        if self.up && !self.down && !self.left && !self.right {
            Some(Direction::Up)
        } else if !self.up && self.down && !self.left && !self.right {
            Some(Direction::Down)
        } else if !self.up && !self.down && self.left && !self.right {
            Some(Direction::Left)
        } else if !self.up && !self.down && !self.left && self.right {
            Some(Direction::Right)
        } else {
            None
        }
    }

    /// The directions of the set, in the order Up, Down, Left, Right.
    pub fn iter(self) -> (r: Vec<Direction>)
        ensures
            forall|d: Direction| self.has(d) <==> r@.contains(d),
            r@.no_duplicates(),
            forall|i: int, j: int|
                0 <= i < j < r@.len() ==> spec_dir_index(r@[i]) < spec_dir_index(r@[j]),
    {
        let mut v: Vec<Direction> = Vec::new();
        if self.up {
            v.push(Direction::Up);
        }
        if self.down {
            v.push(Direction::Down);
        }
        if self.left {
            v.push(Direction::Left);
        }
        if self.right {
            v.push(Direction::Right);
        }
        proof {
            assert forall|d: Direction| self.has(d) <==> v@.contains(d) by {
                if self.has(d) {
                    let k = choose|k: int| 0 <= k < v@.len() && v@[k] == d;
                    assert(exists|k: int| 0 <= k < v@.len() && v@[k] == d) by {
                        match d {
                            Direction::Up => { assert(v@[0] == d); },
                            Direction::Down => {
                                assert(v@[(if self.up { 1int } else { 0int })] == d);
                            },
                            Direction::Left => {
                                assert(v@[(if self.up { 1int } else { 0int }) + (if self.down {
                                    1int
                                } else {
                                    0int
                                })] == d);
                            },
                            Direction::Right => {
                                assert(v@[v@.len() - 1] == d);
                            },
                        }
                    }
                }
            }
        }
        v
    }
}

impl From<Direction> for Directions {
    fn from(dir: Direction) -> (r: Directions) {
        Directions {
            up: dir == Direction::Up,
            down: dir == Direction::Down,
            left: dir == Direction::Left,
            right: dir == Direction::Right,
        }
    }
}

impl vstd::std_specs::convert::FromSpecImpl<Direction> for Directions {
    open spec fn obeys_from_spec() -> bool {
        true
    }

    open spec fn from_spec(v: Direction) -> Directions {
        Directions {
            up: v == Direction::Up,
            down: v == Direction::Down,
            left: v == Direction::Left,
            right: v == Direction::Right,
        }
    }
}

/// A cell position: `x` grows to the right, `y` grows downwards.
#[derive(Debug, Clone, Copy, PartialEq, Eq, Structural, PartialOrd, Ord, Hash)]
pub struct Coord {
    pub x: i32,
    pub y: i32,
}

impl From<(i32, i32)> for Coord {
    fn from(value: (i32, i32)) -> (r: Coord) {
        Coord { x: value.0, y: value.1 }
    }
}

impl vstd::std_specs::convert::FromSpecImpl<(i32, i32)> for Coord {
    open spec fn obeys_from_spec() -> bool {
        true
    }

    open spec fn from_spec(v: (i32, i32)) -> Coord {
        Coord { x: v.0, y: v.1 }
    }
}

/// Row-major position of cell `p` in rectangle `r`.
pub open spec fn cell_index(r: Rect, p: Coord) -> int {
    (p.y - r.top) * r.spec_width() + (p.x - r.left)
}

/// A half-open rectangle: rows `top..bottom`, columns `left..right`.
#[derive(Debug, Clone, Copy, PartialEq, Eq, Structural, PartialOrd, Ord, Hash)]
pub struct Rect {
    pub top: i32,
    pub left: i32,
    pub bottom: i32,
    pub right: i32,
}

impl Rect {
    pub open spec fn spec_width(self) -> int {
        self.right - self.left
    }

    pub open spec fn spec_height(self) -> int {
        self.bottom - self.top
    }

    pub open spec fn contains(self, p: Coord) -> bool {
        self.top <= p.y < self.bottom && self.left <= p.x < self.right
    }

    /// Width and height are small enough for the rectangle's cells to fit in one `u128`.
    pub open spec fn small(self) -> bool {
        &&& 0 <= self.spec_width() < 128
        &&& 0 <= self.spec_height() < 128
        &&& self.spec_width() * self.spec_height() < 128
    }

    /// The rectangle with `distance` rows or columns taken off the side `direction`.
    pub open spec fn trimmed(self, direction: Direction, distance: int) -> Rect {
        match direction {
            Direction::Up => Rect { top: (self.top + distance) as i32, ..self },
            Direction::Down => Rect { bottom: (self.bottom - distance) as i32, ..self },
            Direction::Left => Rect { left: (self.left + distance) as i32, ..self },
            Direction::Right => Rect { right: (self.right - distance) as i32, ..self },
        }
    }

    /// `trim` keeps a non-empty rectangle and computes no overflow.
    pub open spec fn trim_ok(self, direction: Direction, distance: int) -> bool {
        &&& self.top < self.bottom
        &&& self.left < self.right
        &&& match direction {
            Direction::Up => self.top + distance < self.bottom && i32::MIN <= self.top + distance,
            Direction::Down => self.top < self.bottom - distance && self.bottom - distance
                <= i32::MAX,
            Direction::Left => self.left + distance < self.right && i32::MIN <= self.left
                + distance,
            Direction::Right => self.left < self.right - distance && self.right - distance
                <= i32::MAX,
        }
    }

    pub fn new(top: i32, left: i32, bottom: i32, right: i32) -> (r: Rect)
        requires
            top < bottom,
            left < right,
        ensures
            r == (Rect { top, left, bottom, right }),
    {
        Rect { top, left, bottom, right }
    }

    pub fn width(&self) -> (w: i32)
        requires
            i32::MIN <= self.spec_width() <= i32::MAX,
        ensures
            w == self.spec_width(),
    {
        self.right - self.left
    }

    pub fn height(&self) -> (h: i32)
        requires
            i32::MIN <= self.spec_height() <= i32::MAX,
        ensures
            h == self.spec_height(),
    {
        self.bottom - self.top
    }

    pub fn trim(&self, direction: Direction, distance: i32) -> (r: Rect)
        requires
            self.trim_ok(direction, distance as int),
        ensures
            r == self.trimmed(direction, distance as int),
    {
        match direction {
            Direction::Up => Rect::new(self.top + distance, self.left, self.bottom, self.right),
            Direction::Down => Rect::new(self.top, self.left, self.bottom - distance, self.right),
            Direction::Left => Rect::new(self.top, self.left + distance, self.bottom, self.right),
            Direction::Right => Rect::new(self.top, self.left, self.bottom, self.right - distance),
        }
    }

    pub fn is_inside(&self, p: Coord) -> (r: bool)
        ensures
            r == self.contains(p),
    {
        self.top <= p.y && p.y < self.bottom && self.left <= p.x && p.x < self.right
    }
}


pub proof fn lemma_index_bounds(r: Rect, p: Coord)
    requires
        r.contains(p),
    ensures
        0 <= cell_index(r, p) < r.spec_width() * r.spec_height(),
        cell_index(r, p) <= (r.spec_height() - 1) * r.spec_width() + r.spec_width() - 1,
{
    let a = p.y - r.top;
    let b = p.x - r.left;
    let w = r.spec_width();
    let h = r.spec_height();
    assert(0 <= a * w) by (nonlinear_arith)
        requires
            0 <= a,
            0 <= w,
    ;
    assert(a * w + b < h * w) by (nonlinear_arith)
        requires
            0 <= a < h,
            0 <= b < w,
    ;
    assert(a * w <= (h - 1) * w) by (nonlinear_arith)
        requires
            0 <= a < h,
            0 <= w,
    ;
    assert(h * w == w * h) by (nonlinear_arith);
}

/// Distinct cells of a rectangle sit at distinct positions.
pub proof fn lemma_index_injective(r: Rect, p: Coord, q: Coord)
    requires
        r.contains(p),
        r.contains(q),
        cell_index(r, p) == cell_index(r, q),
    ensures
        p == q,
{
    let w = r.spec_width();
    let (a1, b1) = (p.y - r.top, p.x - r.left);
    let (a2, b2) = (q.y - r.top, q.x - r.left);
    if a1 < a2 {
        assert(a1 * w + b1 < a2 * w + b2) by (nonlinear_arith)
            requires
                a1 < a2,
                0 <= b1 < w,
                0 <= b2,
        ;
    } else if a2 < a1 {
        assert(a2 * w + b2 < a1 * w + b1) by (nonlinear_arith)
            requires
                a2 < a1,
                0 <= b2 < w,
                0 <= b1,
        ;
    }
}

/// Moves every value of `v` into an `Option`, in order.
fn into_options<T>(v: Vec<T>) -> (r: Vec<Option<T>>)
    ensures
        r@.len() == v@.len(),
        forall|i: int| 0 <= i < v@.len() ==> r@[i] == Some(#[trigger] v@[i]),
{
    let ghost orig = v@;
    let mut r: Vec<Option<T>> = Vec::new();
    proof {
        broadcast use vstd::std_specs::vec::axiom_spec_into_iter;
    }
    for x in it: v.into_iter()
        invariant
            it.seq() == orig,
            r@.len() == it.index(),
            forall|i: int| 0 <= i < r@.len() ==> r@[i] == Some(orig[i]),
    {
        r.push(Some(x));
    }
    r
}

/// The extent that a quarter turn clockwise about the top-left corner gives `r`.
pub open spec fn turned(r: Rect) -> Rect {
    Rect { right: (r.left + r.spec_height()) as i32, bottom: (r.top + r.spec_width()) as i32, ..r }
}

/// Four quarter turns give back the grid: the extent comes back to `r`, and the cell
/// that four turns bring to `p` is `p` itself.
pub proof fn law_four_turns(r: Rect, p: Coord)
    requires
        r.left <= r.right,
        r.top <= r.bottom,
        r.left + r.spec_height() <= i32::MAX,
        r.top + r.spec_width() <= i32::MAX,
    ensures
        turned(turned(turned(turned(r)))) == r,
        r.contains(p) ==> rotated_source(
            r,
            rotated_source(turned(r), rotated_source(turned(turned(r)), rotated_source(turned(turned(turned(r))), p))),
        ) == p,
{
}

/// `new` is `old` turned a quarter turn clockwise about its top-left corner, as
/// `rotate_90_cw_inplace` leaves a grid.
pub open spec fn quarter_turned<T>(new: Grid<T>, old: Grid<T>) -> bool {
    &&& new.wf()
    &&& new.size == turned(old.size)
    &&& forall|p: Coord| new.size.contains(p) ==> new.at(p) == old.at(rotated_source(old.size, p))
}

/// A cell of a turned extent comes from a cell of the extent before the turn.
proof fn lemma_turned_source(old: Rect, p: Coord)
    requires
        0 <= old.spec_width(),
        0 <= old.spec_height(),
        old.left + old.spec_height() <= i32::MAX,
        old.top + old.spec_width() <= i32::MAX,
        turned(old).contains(p),
    ensures
        old.contains(rotated_source(old, p)),
{
}

/// Every place of a grid's data is the place of one of its cells.
proof fn lemma_cell_at_index(r: Rect, k: int)
    requires
        0 <= r.spec_width(),
        0 <= r.spec_height(),
        0 <= k < r.spec_width() * r.spec_height(),
    ensures
        r.contains(Coord { x: (r.left + k % r.spec_width()) as i32, y: (r.top + k / r.spec_width()) as i32 }),
        cell_index(r, Coord { x: (r.left + k % r.spec_width()) as i32, y: (r.top + k / r.spec_width()) as i32 }) == k,
{
    let w = r.spec_width();
    let h = r.spec_height();
    assert(w > 0) by (nonlinear_arith)
        requires
            0 <= k < w * h,
            0 <= h,
    ;
    assert(0 <= k / w < h && 0 <= k % w < w && k == (k / w) * w + k % w) by (nonlinear_arith)
        requires
            w > 0,
            0 <= k < w * h,
    ;
}

/// Grids of one extent that agree on every cell hold the same data.
pub proof fn lemma_grid_ext<T>(a: Grid<T>, b: Grid<T>)
    requires
        a.wf(),
        b.wf(),
        a.size == b.size,
        forall|p: Coord| a.size.contains(p) ==> a.at(p) == b.at(p),
    ensures
        a.data@ == b.data@,
{
    let r = a.size;
    assert forall|k: int| 0 <= k < a.data@.len() implies a.data@[k] == b.data@[k] by {
        lemma_cell_at_index(r, k);
        let p = Coord { x: (r.left + k % r.spec_width()) as i32, y: (r.top + k / r.spec_width()) as i32 };
        assert(a.at(p) == b.at(p));
    }
    assert(a.data@ =~= b.data@);
}

/// Four quarter turns of a grid give back the grid: the same extent and the same data.
pub proof fn law_grid_four_turns<T>(g0: Grid<T>, g1: Grid<T>, g2: Grid<T>, g3: Grid<T>, g4: Grid<T>)
    requires
        g0.wf(),
        g0.size.left + g0.size.spec_height() <= i32::MAX,
        g0.size.top + g0.size.spec_width() <= i32::MAX,
        quarter_turned(g1, g0),
        quarter_turned(g2, g1),
        quarter_turned(g3, g2),
        quarter_turned(g4, g3),
    ensures
        g4.size == g0.size,
        g4.data@ == g0.data@,
{
    let r = g0.size;
    assert(turned(turned(turned(turned(r)))) == r) by {
        law_four_turns(r, Coord { x: 0, y: 0 });
    }
    assert forall|p: Coord| g4.size.contains(p) implies g4.at(p) == g0.at(p) by {
        law_four_turns(r, p);
        let p3 = rotated_source(g3.size, p);
        lemma_turned_source(g3.size, p);
        let p2 = rotated_source(g2.size, p3);
        lemma_turned_source(g2.size, p3);
        let p1 = rotated_source(g1.size, p2);
        lemma_turned_source(g1.size, p2);
        let p0 = rotated_source(g0.size, p1);
        lemma_turned_source(g0.size, p1);
        assert(g4.at(p) == g3.at(p3));
        assert(g3.at(p3) == g2.at(p2));
        assert(g2.at(p2) == g1.at(p1));
        assert(g1.at(p1) == g0.at(p0));
    }
    lemma_grid_ext(g4, g0);
}

/// The cell of `old` that a quarter turn clockwise brings to `p`.
pub open spec fn rotated_source(old: Rect, p: Coord) -> Coord {
    Coord {
        x: (old.left + (p.y - old.top)) as i32,
        y: (old.top + old.spec_height() - 1 - (p.x - old.left)) as i32,
    }
}

proof fn lemma_cell_pos(oy: int, ox: int, w: int, h: int)
    requires
        0 <= oy < h,
        0 <= ox < w,
    ensures
        0 <= oy * w + ox < w * h,
{
    assert(0 <= oy * w) by (nonlinear_arith)
        requires
            0 <= oy,
            0 <= w,
    ;
    assert((oy + 1) * w <= h * w) by (nonlinear_arith)
        requires
            oy + 1 <= h,
            0 <= w,
    ;
    assert((oy + 1) * w == oy * w + w) by (nonlinear_arith);
    assert(h * w == w * h) by (nonlinear_arith);
}

proof fn lemma_cell_pos_distinct(oy: int, ox: int, py: int, px: int, w: int, h: int)
    requires
        0 <= oy < h,
        0 <= ox < w,
        0 <= py < h,
        0 <= px < w,
        oy != py || ox != px,
    ensures
        oy * w + ox != py * w + px,
{
    if oy < py {
        lemma_row_before(oy, ox, py, w);
    } else if py < oy {
        lemma_row_before(py, px, oy, w);
    }
}

proof fn lemma_row_before(a: int, x: int, b: int, w: int)
    requires
        a < b,
        0 <= x < w,
    ensures
        a * w + x < b * w,
{
    assert((a + 1) * w <= b * w) by (nonlinear_arith)
        requires
            a + 1 <= b,
            0 <= w,
    ;
    assert((a + 1) * w == a * w + w) by (nonlinear_arith);
}

/// A dense rectangle of values stored row by row.
#[derive(Clone, Debug)]
pub struct Grid<T> {
    pub data: Vec<T>,
    pub size: Rect,
}

impl<T: Clone> Grid<T> {
    pub fn new(height: i32, width: i32, default: T) -> (g: Grid<T>)
        requires
            0 <= height,
            0 <= width,
            width * height <= i32::MAX,
        ensures
            g.wf(),
            g.size == (Rect { top: 0, left: 0, bottom: height, right: width }),
            forall|i: int| 0 <= i < g.data@.len() ==> cloned(default, #[trigger] g.data@[i]),
    {
        Grid {
            data: vec![default; (width as usize) * (height as usize)],
            size: Rect { top: 0, left: 0, bottom: height, right: width },
        }
    }

    pub fn from_rect(rect: Rect, default: T) -> (g: Grid<T>)
        requires
            0 <= rect.spec_width() <= i32::MAX,
            0 <= rect.spec_height() <= i32::MAX,
            rect.spec_width() * rect.spec_height() <= i32::MAX,
        ensures
            g.wf(),
            g.size == rect,
            forall|i: int| 0 <= i < g.data@.len() ==> cloned(default, #[trigger] g.data@[i]),
    {
        proof {
            assert(rect.spec_width() * rect.spec_height() == rect.spec_height() * rect.spec_width())
                by (nonlinear_arith);
        }
        Grid {
            data: vec![default; (rect.width() as usize) * (rect.height() as usize)],
            size: rect,
        }
    }
}

impl<T> Grid<T> {
    /// The data holds one value per cell of `size`, and all sizes fit in `i32`.
    pub open spec fn wf(self) -> bool {
        &&& 0 <= self.size.spec_width() <= i32::MAX
        &&& 0 <= self.size.spec_height() <= i32::MAX
        &&& self.size.spec_width() * self.size.spec_height() <= i32::MAX
        &&& self.data@.len() == self.size.spec_width() * self.size.spec_height()
    }

    /// The value at cell `p`.
    pub open spec fn at(self, p: Coord) -> T {
        self.data@[cell_index(self.size, p)]
    }

    pub fn from_flat(width: usize, flat: Vec<T>) -> (g: Grid<T>)
        requires
            0 < width <= i32::MAX,
            (flat@.len() as int) % (width as int) == 0,
            flat@.len() <= i32::MAX,
        ensures
            g.wf(),
            g.data == flat,
            g.size == (Rect { top: 0, left: 0, bottom: ((flat@.len() as int) / (width as int)) as i32, right: width as i32 }),
    {
        let n = flat.len();
        let h = n / width;
        proof {
            let ni = n as int;
            let wi = width as int;
            let hi = h as int;
            assert(hi * wi == ni) by (nonlinear_arith)
                requires
                    ni % wi == 0,
                    hi == ni / wi,
                    wi > 0,
            ;
            assert(hi <= ni) by (nonlinear_arith)
                requires
                    hi == ni / wi,
                    wi > 0,
                    ni >= 0,
            ;
            assert(width * h == h * width) by (nonlinear_arith);
        }
        Grid {
            size: Rect { top: 0, left: 0, bottom: h as i32, right: width as i32 },
            data: flat,
        }
    }

    pub fn get(&self, p: Coord) -> (r: &T)
        requires
            self.wf(),
            self.size.contains(p),
        ensures
            *r == self.at(p),
    {
        proof {
            lemma_index_bounds(self.size, p);
        }
        let i = (p.y - self.size.top) * self.size.width() + (p.x - self.size.left);
        &self.data[i as usize]
    }

    pub fn get_mut(&mut self, p: Coord) -> (r: &mut T)
        requires
            old(self).wf(),
            old(self).size.contains(p),
        ensures
            *r == old(self).at(p),
            final(self).size == old(self).size,
            final(self).data@ == old(self).data@.update(cell_index(old(self).size, p), *final(r)),
    {
        proof {
            lemma_index_bounds(self.size, p);
        }
        let i = (p.y - self.size.top) * self.size.width() + (p.x - self.size.left);
        &mut self.data[i as usize]
    }

    /// Applies `f` to every cell.
    pub fn map<U, F: Fn(&T) -> U>(&self, f: F) -> (g: Grid<U>)
        requires
            forall|i: int| 0 <= i < self.data@.len() ==> call_requires(f, (&self.data@[i],)),
        ensures
            g.size == self.size,
            g.data@.len() == self.data@.len(),
            forall|i: int|
                0 <= i < self.data@.len() ==> call_ensures(f, (&self.data@[i],), #[trigger] g.data@[i]),
    {
        let mut out: Vec<U> = Vec::new();
        let n = self.data.len();
        for i in 0..n
            invariant
                n == self.data@.len(),
                out@.len() == i,
                forall|k: int| 0 <= k < self.data@.len() ==> call_requires(f, (&self.data@[k],)),
                forall|k: int| 0 <= k < i ==> call_ensures(f, (&self.data@[k],), #[trigger] out@[k]),
        {
            out.push(f(&self.data[i]));
        }
        Grid { data: out, size: self.size }
    }

    /// Turns the grid a quarter turn clockwise about its top-left corner: the new cell
    /// `(x, y)` (relative to the corner) holds the old cell `(y, h - 1 - x)`.
    pub fn rotate_90_cw_inplace(&mut self)
        requires
            old(self).wf(),
            old(self).size.left + old(self).size.spec_height() <= i32::MAX,
            old(self).size.top + old(self).size.spec_width() <= i32::MAX,
        ensures
            final(self).wf(),
            quarter_turned(*final(self), *old(self)),
            final(self).size == turned(old(self).size),
            forall|p: Coord|
                final(self).size.contains(p) ==> final(self).at(p) == old(self).at(
                    rotated_source(old(self).size, p),
                ),
    {
        let w = self.size.width() as usize;
        let h = self.size.height() as usize;
        let ghost old_self = *self;
        let ghost new_size = Rect {
            right: (old_self.size.left + old_self.size.spec_height()) as i32,
            bottom: (old_self.size.top + old_self.size.spec_width()) as i32,
            ..old_self.size
        };
        if w > 0 && h > 0 {
            let mut taken: Vec<T> = Vec::new();
            std::mem::swap(&mut taken, &mut self.data);
            let mut old_data = into_options(taken);
            proof {
                assert forall|oy: int, ox: int|
                    0 <= oy < h && 0 <= ox < w implies #[trigger] old_data@[oy * w + ox] == Some(
                        old_self.data@[oy * w + ox],
                    ) by {
                    lemma_cell_pos(oy, ox, w as int, h as int);
                }
            }
            let mut new_data: Vec<T> = Vec::new();
            let new_w = h;
            let new_h = w;
            let mut new_y: usize = 0;
            while new_y < new_h
                invariant
                    w == old_self.size.spec_width(),
                    h == old_self.size.spec_height(),
                    w > 0 && h > 0,
                    old_self.wf(),
                    new_w == h,
                    new_h == w,
                    new_y <= new_h,
                    old_data@.len() == w * h,
                    new_data@.len() == new_y * new_w,
                    forall|oy: int, ox: int|
                        0 <= oy < h && 0 <= ox < w ==> #[trigger] old_data@[oy * w + ox] == if ox < new_y {
                            None
                        } else {
                            Some(old_self.data@[oy * w + ox])
                        },
                    forall|ny: int, nx: int|
                        0 <= ny < new_y && 0 <= nx < new_w ==> #[trigger] new_data@[ny * new_w + nx]
                            == old_self.data@[(h - 1 - nx) * w + ny],
                decreases new_h - new_y,
            {
                let mut new_x: usize = 0;
                while new_x < new_w
                    invariant
                        w == old_self.size.spec_width(),
                        h == old_self.size.spec_height(),
                        w > 0 && h > 0,
                        old_self.wf(),
                        new_w == h,
                        new_h == w,
                        new_y < new_h,
                        new_x <= new_w,
                        old_data@.len() == w * h,
                        new_data@.len() == new_y * new_w + new_x,
                        forall|oy: int, ox: int|
                            0 <= oy < h && 0 <= ox < w ==> #[trigger] old_data@[oy * w + ox] == if ox
                                < new_y || (ox == new_y && oy >= h - new_x) {
                                None
                            } else {
                                Some(old_self.data@[oy * w + ox])
                            },
                        forall|ny: int, nx: int|
                            (0 <= ny < new_y && 0 <= nx < new_w) || (ny == new_y && 0 <= nx < new_x)
                                ==> #[trigger] new_data@[ny * new_w + nx] == old_self.data@[(h - 1
                                - nx) * w + ny],
                    decreases new_w - new_x,
                {
                    let old_x = new_y;
                    let old_y = h - 1 - new_x;
                    proof {
                        lemma_cell_pos(old_y as int, old_x as int, w as int, h as int);
                    }
                    let mut slot: Option<T> = None;
                    old_data.set_and_swap(old_y * w + old_x, &mut slot);
                    proof {
                        assert(slot == Some(old_self.data@[old_y * w + old_x]));
                        assert forall|oy: int, ox: int|
                            0 <= oy < h && 0 <= ox < w implies #[trigger] old_data@[oy * w + ox] == if ox
                                < new_y || (ox == new_y && oy >= h - (new_x + 1)) {
                                None
                            } else {
                                Some(old_self.data@[oy * w + ox])
                            } by {
                            lemma_cell_pos(oy, ox, w as int, h as int);
                            if oy != old_y || ox != old_x {
                                lemma_cell_pos_distinct(oy, ox, old_y as int, old_x as int, w as int, h as int);
                            }
                        }
                    }
                    let ghost nd_old = new_data@;
                    new_data.push(slot.unwrap());
                    proof {
                        assert(new_y * new_w + new_x == nd_old.len());
                        assert forall|ny: int, nx: int|
                            (0 <= ny < new_y && 0 <= nx < new_w) || (ny == new_y && 0 <= nx < new_x + 1)
                                implies #[trigger] new_data@[ny * new_w + nx] == old_self.data@[(h - 1
                                - nx) * w + ny] by {
                            lemma_cell_pos(ny, nx, new_w as int, new_h as int);
                            if ny < new_y {
                                lemma_row_before(ny, nx, new_y as int, new_w as int);
                            }
                            if ny == new_y && nx < new_x {
                                assert(ny * new_w + nx < nd_old.len());
                            }
                        }
                    }
                    new_x = new_x + 1;
                }
                proof {
                    assert(new_data@.len() == (new_y + 1) * new_w) by (nonlinear_arith)
                        requires new_data@.len() == new_y * new_w + new_w;
                }
                new_y = new_y + 1;
            }
            self.data = new_data;
            proof {
                assert(self.data@.len() == w * h) by (nonlinear_arith)
                    requires self.data@.len() == w * h;
            }
        }
        let old_w = self.size.right - self.size.left;
        let old_h = self.size.bottom - self.size.top;
        self.size.right = self.size.left + old_h;
        self.size.bottom = self.size.top + old_w;
        proof {
            assert(self.size == new_size);
            assert(new_size.spec_width() * new_size.spec_height() == old_self.size.spec_width() * old_self.size.spec_height())
                by (nonlinear_arith)
                requires new_size.spec_width() == old_self.size.spec_height(), new_size.spec_height() == old_self.size.spec_width();
            if w > 0 && h > 0 {
                assert forall|p: Coord| new_size.contains(p) implies self.at(p) == old_self.at(
                    rotated_source(old_self.size, p),
                ) by {
                    let ny = p.y - new_size.top;
                    let nx = p.x - new_size.left;
                    assert(cell_index(new_size, p) == ny * (h as int) + nx);
                    assert(cell_index(old_self.size, rotated_source(old_self.size, p)) == (h - 1 - nx) * w + ny);
                    assert(self.data@[ny * (h as int) + nx] == old_self.data@[(h - 1 - nx) * w + ny]);
                }
            }
        }
    }

    /// Moves the grid so that its top-left cell is `p`.
    pub fn set_origin(&mut self, p: Coord)
        requires
            old(self).wf(),
            p.y + old(self).size.spec_height() <= i32::MAX,
            p.x + old(self).size.spec_width() <= i32::MAX,
        ensures
            final(self).data == old(self).data,
            final(self).size == (Rect {
                top: p.y,
                left: p.x,
                bottom: (p.y + old(self).size.spec_height()) as i32,
                right: (p.x + old(self).size.spec_width()) as i32,
            }),
            final(self).wf(),
    {
        self.size = Rect {
            top: p.y,
            left: p.x,
            bottom: p.y + self.size.height(),
            right: p.x + self.size.width(),
        }
    }
}

} // verus!
