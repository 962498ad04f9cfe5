//! Small rectangles of cells packed into one `u128`, bit `y * width + x`.
use vstd::prelude::*;
use crate::basic_grids::{cell_index, spec_opposite, Coord, Direction, Rect};
use crate::bits::{
    bit, fits, lemma_bit_and, lemma_bit_mask, lemma_bit_or, lemma_bit_shl, lemma_bit_shr,
    lemma_bit_zero, lemma_fits_shr,
};

verus! {

/// Bit `x` of row `y` in a word packed with rows of width `w`.
pub open spec fn row_bit(v: u128, w: int, y: int, x: int) -> bool {
    bit(v, y * w + x)
}

/// The rectangle covered by joining `r2` to the side `join_direc` of `r1`.
pub open spec fn joined_rect(r1: Rect, r2: Rect, join_direc: Direction) -> Rect {
    match join_direc {
        Direction::Up => Rect { top: r2.top, ..r1 },
        Direction::Down => Rect { bottom: r2.bottom, ..r1 },
        Direction::Left => Rect { left: r2.left, ..r1 },
        Direction::Right => Rect { right: r2.right, ..r1 },
    }
}

/// `r2` lies flush against the side `join_direc` of `r1`, and the union fits in a word.
pub open spec fn join_geometry_ok(r1: Rect, r2: Rect, join_direc: Direction) -> bool {
    &&& r1.small()
    &&& r2.small()
    &&& joined_rect(r1, r2, join_direc).small()
    &&& match join_direc {
        Direction::Up => r1.top == r2.bottom && r1.left == r2.left && r1.right == r2.right
            && r1.spec_width() * (r1.spec_height() + r2.spec_height()) < 128,
        Direction::Down => r1.bottom == r2.top && r1.left == r2.left && r1.right == r2.right
            && r1.spec_width() * (r1.spec_height() + r2.spec_height()) < 128,
        Direction::Left => r1.left == r2.right && r1.top == r2.top && r1.bottom == r2.bottom
            && (r1.spec_width() + r2.spec_width()) * r1.spec_height() < 128,
        Direction::Right => r1.right == r2.left && r1.top == r2.top && r1.bottom == r2.bottom
            && (r1.spec_width() + r2.spec_width()) * r1.spec_height() < 128,
    }
}

proof fn lemma_row_lt(a: int, b: int, w: int, x: int)
    by (nonlinear_arith)
    requires
        a < b,
        0 <= x < w,
    ensures
        a * w + x < b * w,
{
}

proof fn lemma_row_ge(a: int, b: int, w: int, x: int)
    by (nonlinear_arith)
    requires
        a >= b,
        0 <= x,
        0 <= w,
    ensures
        a * w + x >= b * w,
{
}

proof fn lemma_mul_le(a: int, b: int, c: int)
    by (nonlinear_arith)
    requires
        0 <= a,
        b <= c,
    ensures
        a * b <= a * c,
{
}

proof fn lemma_mul_nonneg(a: int, b: int)
    by (nonlinear_arith)
    requires
        0 <= a,
        0 <= b,
    ensures
        0 <= a * b,
{
}

proof fn lemma_distrib(a: int, b: int, c: int)
    by (nonlinear_arith)
    ensures
        (a + b) * c == a * c + b * c,
        c * (a + b) == c * a + c * b,
        (a - b) * c == a * c - b * c,
        c * (a - b) == c * a - c * b,
{
}

proof fn lemma_mul_comm(a: int, b: int)
    by (nonlinear_arith)
    ensures
        a * b == b * a,
{
}

proof fn lemma_trimmed_small(r: Rect, d: Direction, distance: int)
    requires
        r.small(),
        0 <= distance,
        match d {
            Direction::Up | Direction::Down => distance < r.spec_height(),
            Direction::Left | Direction::Right => distance < r.spec_width(),
        },
    ensures
        r.trimmed(d, distance).small(),
{
    let w = r.spec_width();
    let h = r.spec_height();
    match d {
        Direction::Up | Direction::Down => {
            lemma_mul_le(w, h - distance, h);
        },
        Direction::Left | Direction::Right => {
            lemma_mul_le(h, w - distance, w);
            lemma_mul_comm(h, w - distance);
            lemma_mul_comm(h, w);
        },
    }
}

/// Bits of one row extracted by `(v >> (y * w)) & mask(w)`.
proof fn lemma_row_bits(v: u128, s: u128, w: u128, x: int)
    requires
        s < 128,
        w < 128,
    ensures
        bit((v >> s) & (((1u128 << w) - 1) as u128), x) == (0 <= x < w && bit(v, x + s)),
{
    lemma_bit_and(v >> s, ((1u128 << w) - 1) as u128, x);
    lemma_bit_shr(v, s, x);
    lemma_bit_mask(w, x);
}

/// Appending a row of width `nw` at row `y` of a packed result.
proof fn lemma_append_row(result: u128, tr: u128, y: int, nw: int)
    requires
        0 <= y,
        0 <= nw,
        y * nw < 128,
        (y + 1) * nw <= 128,
        fits(result, y * nw),
        fits(tr, nw),
    ensures
        ({
            let r2 = result | (tr << ((y * nw) as u128));
            &&& fits(r2, (y + 1) * nw)
            &&& forall|i: int| i < y * nw ==> bit(r2, i) == bit(result, i)
            &&& forall|x: int| 0 <= x < nw ==> bit(r2, y * nw + x) == bit(tr, x)
        }),
{
    let s = (y * nw) as u128;
    let r2 = result | (tr << s);
    lemma_distrib(y, 1, nw);
    assert forall|i: int| (y + 1) * nw <= i implies !#[trigger] bit(r2, i) by {
        lemma_bit_or(result, tr << s, i);
        lemma_bit_shl(tr, s, i);
    }
    assert forall|i: int| i < y * nw implies bit(r2, i) == bit(result, i) by {
        lemma_bit_or(result, tr << s, i);
        lemma_bit_shl(tr, s, i);
    }
    assert forall|x: int| 0 <= x < nw implies bit(r2, y * nw + x) == bit(tr, x) by {
        lemma_bit_or(result, tr << s, y * nw + x);
        lemma_bit_shl(tr, s, y * nw + x);
    }
}

/// `v` packs exactly the cells `f` gives on `r`.
pub open spec fn packs(v: u128, r: Rect, f: spec_fn(Coord) -> bool) -> bool {
    &&& fits(v, r.spec_width() * r.spec_height())
    &&& forall|p: Coord| r.contains(p) ==> bit(v, cell_index(r, p)) == f(p)
}

/// Two words that pack the same cells of a small rectangle are equal.
pub proof fn lemma_packs_unique(a: u128, b: u128, r: Rect, f: spec_fn(Coord) -> bool)
    requires
        r.small(),
        packs(a, r, f),
        packs(b, r, f),
    ensures
        a == b,
{
    let w = r.spec_width();
    let h = r.spec_height();
    assert forall|i: int| 0 <= i < 128 implies bit(a, i) == bit(b, i) by {
        if i < w * h {
            assert(w > 0) by {
                if w <= 0 {
                    assert(w * h <= 0) by (nonlinear_arith)
                        requires
                            w <= 0,
                            h >= 0,
                    ;
                }
            }
            let y = i / w;
            let x = i % w;
            assert(i == y * w + x && 0 <= x < w && 0 <= y) by (nonlinear_arith)
                requires
                    w > 0,
                    i >= 0,
                    y == i / w,
                    x == i % w,
            ;
            assert(y < h) by (nonlinear_arith)
                requires
                    w > 0,
                    i >= 0,
                    i < w * h,
                    y == i / w,
                    x == i % w,
                    i == y * w + x,
                    0 <= x,
            ;
            let p = Coord { x: (r.left + x) as i32, y: (r.top + y) as i32 };
            assert(r.contains(p));
            assert(cell_index(r, p) == i);
        }
    }
    crate::bits::lemma_bits_ext(a, b);
}

/// The word whose bit `i` is `f(i)` for `i < n`, with no bit above.
pub open spec fn pack_bits(f: spec_fn(int) -> bool, n: nat) -> u128
    decreases n,
{
    if n == 0 {
        0
    } else {
        pack_bits(f, (n - 1) as nat) | if f(n - 1) {
            1u128 << ((n - 1) as u128)
        } else {
            0u128
        }
    }
}

proof fn lemma_bit_one_shl(s: u128, i: int)
    requires
        s < 128,
    ensures
        bit(1u128 << s, i) == (i == s),
{
    lemma_bit_shl(1u128, s, i);
    if s <= i < 128 {
        let j = (i - s) as u128;
        assert((1u128 >> j) & 1u128 == 1u128 <==> j == 0) by (bit_vector)
            requires
                j < 128,
        ;
    }
}

proof fn lemma_pack_bits(f: spec_fn(int) -> bool, n: nat)
    requires
        n <= 128,
    ensures
        forall|i: int| #[trigger] bit(pack_bits(f, n), i) == (0 <= i < n && f(i)),
    decreases n,
{
    if n == 0 {
        assert forall|i: int| #[trigger] bit(pack_bits(f, n), i) == (0 <= i < n && f(i)) by {
            lemma_bit_zero(i);
        }
    } else {
        lemma_pack_bits(f, (n - 1) as nat);
        let top = if f(n - 1) {
            1u128 << ((n - 1) as u128)
        } else {
            0u128
        };
        assert forall|i: int| #[trigger] bit(pack_bits(f, n), i) == (0 <= i < n && f(i)) by {
            lemma_bit_or(pack_bits(f, (n - 1) as nat), top, i);
            if f(n - 1) {
                lemma_bit_one_shl((n - 1) as u128, i);
            } else {
                lemma_bit_zero(i);
            }
        }
    }
}

/// The cells `f` gives on the small rectangle `r`, packed row by row.
pub open spec fn pack_rect(r: Rect, f: spec_fn(Coord) -> bool) -> u128 {
    pack_bits(
        |i: int| f(Coord { x: (r.left + i % r.spec_width()) as i32, y: (r.top + i / r.spec_width()) as i32 }),
        (r.spec_width() * r.spec_height()) as nat,
    )
}

/// Any cells of a small rectangle can be packed.
pub proof fn lemma_pack_rect(r: Rect, f: spec_fn(Coord) -> bool)
    requires
        r.small(),
    ensures
        packs(pack_rect(r, f), r, f),
{
    let w = r.spec_width();
    let h = r.spec_height();
    let g = |i: int| f(Coord { x: (r.left + i % w) as i32, y: (r.top + i / w) as i32 });
    lemma_mul_nonneg(w, h);
    lemma_pack_bits(g, (w * h) as nat);
    assert forall|p: Coord| r.contains(p) implies bit(pack_rect(r, f), cell_index(r, p)) == f(p) by {
        let i = cell_index(r, p);
        lemma_fundamental_div_mod_converse_local(i, w, p.y - r.top, p.x - r.left);
        assert(0 <= i < w * h) by {
            crate::basic_grids::lemma_index_bounds(r, p);
        }
        assert(Coord { x: (r.left + i % w) as i32, y: (r.top + i / w) as i32 } == p);
    }
}

proof fn lemma_fundamental_div_mod_converse_local(x: int, d: int, q: int, r: int)
    requires
        0 <= r < d,
        x == q * d + r,
    ensures
        r == x % d,
        q == x / d,
{
    vstd::arithmetic::div_mod::lemma_fundamental_div_mod_converse(x, d, q, r);
}

/// The cells of a trim: what `packed_trim` holds on the trimmed rectangle.
pub proof fn lemma_packed_trim_cells(c: PackedCells, r_old: Rect, to_trim: Direction, distance: int)
    requires
        c.trim_ok(r_old, to_trim, distance),
    ensures
        packed_trim(c, r_old, to_trim, distance).fits_rect(r_old.trimmed(to_trim, distance)),
        forall|p: Coord| #[trigger]
            r_old.trimmed(to_trim, distance).contains(p) ==> packed_trim(c, r_old, to_trim, distance).cell(
                r_old.trimmed(to_trim, distance),
                p,
            ) == c.cell(r_old, p),
{
    let rn = r_old.trimmed(to_trim, distance);
    let f = |p: Coord| c.cell(r_old, p);
    lemma_trimmed_small(r_old, to_trim, distance);
    lemma_pack_rect(rn, f);
    assert(is_trim_of(pack_rect(rn, f), c, r_old, to_trim, distance));
    let v = choose|v: u128| #[trigger] is_trim_of(v, c, r_old, to_trim, distance);
    assert(is_trim_of(v, c, r_old, to_trim, distance));
}

/// The cells of a join: what `packed_join` holds on the joined rectangle.
pub proof fn lemma_packed_join_cells(c1: PackedCells, c2: PackedCells, r1: Rect, r2: Rect, dir: Direction)
    requires
        joined_rect(r1, r2, dir).small(),
    ensures
        packed_join(c1, c2, r1, r2, dir).fits_rect(joined_rect(r1, r2, dir)),
        forall|p: Coord| #[trigger]
            joined_rect(r1, r2, dir).contains(p) ==> packed_join(c1, c2, r1, r2, dir).cell(joined_rect(r1, r2, dir), p)
                == if r1.contains(p) {
                c1.cell(r1, p)
            } else {
                c2.cell(r2, p)
            },
{
    let u = joined_rect(r1, r2, dir);
    let f = |p: Coord|
        if r1.contains(p) {
            c1.cell(r1, p)
        } else {
            c2.cell(r2, p)
        };
    lemma_pack_rect(u, f);
    assert(is_join_of(pack_rect(u, f), c1, c2, r1, r2, dir));
    let v = choose|v: u128| #[trigger] is_join_of(v, c1, c2, r1, r2, dir);
    assert(is_join_of(v, c1, c2, r1, r2, dir));
}

/// The extent of `r` across the side `d`: its height for `Up` and `Down`, its width
/// otherwise.
pub open spec fn extent(r: Rect, d: Direction) -> int {
    match d {
        Direction::Up | Direction::Down => r.spec_height(),
        Direction::Left | Direction::Right => r.spec_width(),
    }
}

/// Trimming a join undoes it: taking the second part off the side it was joined on
/// gives back the first part, and taking the first part off the other side gives back
/// the second.
pub proof fn law_trim_undoes_join(c1: PackedCells, c2: PackedCells, r1: Rect, r2: Rect, d: Direction)
    requires
        join_geometry_ok(r1, r2, d),
        c1.fits_rect(r1),
        c2.fits_rect(r2),
        r1.top < r1.bottom && r1.left < r1.right,
        r2.top < r2.bottom && r2.left < r2.right,
    ensures
        packed_join(c1, c2, r1, r2, d).trim_ok(joined_rect(r1, r2, d), d, extent(r2, d)),
        joined_rect(r1, r2, d).trimmed(d, extent(r2, d)) == r1,
        packed_trim(packed_join(c1, c2, r1, r2, d), joined_rect(r1, r2, d), d, extent(r2, d)) == c1,
        packed_join(c1, c2, r1, r2, d).trim_ok(joined_rect(r1, r2, d), spec_opposite(d), extent(r1, d)),
        joined_rect(r1, r2, d).trimmed(spec_opposite(d), extent(r1, d)) == r2,
        packed_trim(packed_join(c1, c2, r1, r2, d), joined_rect(r1, r2, d), spec_opposite(d), extent(r1, d)) == c2,
{
    let u = joined_rect(r1, r2, d);
    let j = packed_join(c1, c2, r1, r2, d);
    let od = spec_opposite(d);
    lemma_packed_join_cells(c1, c2, r1, r2, d);
    lemma_packed_trim_cells(j, u, d, extent(r2, d));
    lemma_packed_trim_cells(j, u, od, extent(r1, d));
    let t1 = packed_trim(j, u, d, extent(r2, d));
    let t2 = packed_trim(j, u, od, extent(r1, d));
    let f1 = |p: Coord| c1.cell(r1, p);
    let f2 = |p: Coord| c2.cell(r2, p);
    assert(packs(t1.0, r1, f1)) by {
        assert forall|p: Coord| r1.contains(p) implies bit(t1.0, cell_index(r1, p)) == f1(p) by {
            assert(u.contains(p));
        }
    }
    assert(packs(c1.0, r1, f1));
    lemma_packs_unique(t1.0, c1.0, r1, f1);
    assert(packs(t2.0, r2, f2)) by {
        assert forall|p: Coord| r2.contains(p) implies bit(t2.0, cell_index(r2, p)) == f2(p) by {
            assert(u.contains(p));
            assert(!r1.contains(p));
        }
    }
    assert(packs(c2.0, r2, f2));
    lemma_packs_unique(t2.0, c2.0, r2, f2);
}

/// `v` packs the cells of `c` (over `r_old`) that lie in `r_old` trimmed.
pub open spec fn is_trim_of(v: u128, c: PackedCells, r_old: Rect, to_trim: Direction, distance: int) -> bool {
    packs(v, r_old.trimmed(to_trim, distance), |p: Coord| c.cell(r_old, p))
}

/// `v` packs `c1` (over `r1`) with `c2` (over `r2`) joined on the side `dir`.
pub open spec fn is_join_of(v: u128, c1: PackedCells, c2: PackedCells, r1: Rect, r2: Rect, dir: Direction) -> bool {
    packs(
        v,
        joined_rect(r1, r2, dir),
        |p: Coord|
            if r1.contains(p) {
                c1.cell(r1, p)
            } else {
                c2.cell(r2, p)
            },
    )
}

/// The word holding the cells of `c` (packed over `r_old`) that lie in `r_old` trimmed.
pub open spec fn packed_trim(c: PackedCells, r_old: Rect, to_trim: Direction, distance: int) -> PackedCells {
    PackedCells(choose|v: u128| #[trigger] is_trim_of(v, c, r_old, to_trim, distance))
}

/// The word holding `c1` (over `r1`) with `c2` (over `r2`) joined on the side `dir`.
pub open spec fn packed_join(c1: PackedCells, c2: PackedCells, r1: Rect, r2: Rect, dir: Direction) -> PackedCells {
    PackedCells(choose|v: u128| #[trigger] is_join_of(v, c1, c2, r1, r2, dir))
}

/// The cells of a small rectangle, packed row by row into one word.
#[derive(Debug, Clone, Copy, PartialEq, Eq, Structural, PartialOrd, Ord, Hash)]
pub struct PackedCells(pub u128);

impl PackedCells {
    /// Cell `p` of this word read as the packed rectangle `r`.
    pub open spec fn cell(self, r: Rect, p: Coord) -> bool {
        bit(self.0, cell_index(r, p))
    }

    /// No bit beyond the cells of `r` is set.
    pub open spec fn fits_rect(self, r: Rect) -> bool {
        fits(self.0, r.spec_width() * r.spec_height())
    }

    pub open spec fn trim_ok(self, r_old: Rect, to_trim: Direction, distance: int) -> bool {
        &&& r_old.small()
        &&& self.fits_rect(r_old)
        &&& 0 <= distance
        &&& match to_trim {
            Direction::Up | Direction::Down => distance < r_old.spec_height(),
            Direction::Left | Direction::Right => distance < r_old.spec_width(),
        }
    }

    /// The all-dead pattern.
    pub fn all_dead() -> (r: PackedCells)
        ensures
            r.0 == 0,
            forall|rr: Rect, p: Coord| !r.cell(rr, p),
    {
        proof {
            assert forall|rr: Rect, p: Coord| !PackedCells(0).cell(rr, p) by {
                lemma_bit_zero(cell_index(rr, p));
            }
        }
        PackedCells(0)
    }

    /// Drops `distance` rows or columns from the side `to_trim` of the rectangle `r_old`.
    pub fn trim(self, r_old: Rect, to_trim: Direction, distance: i32) -> (r: PackedCells)
        requires
            self.trim_ok(r_old, to_trim, distance as int),
        ensures
            r.fits_rect(r_old.trimmed(to_trim, distance as int)),
            forall|p: Coord|
                r_old.trimmed(to_trim, distance as int).contains(p) ==> r.cell(
                    r_old.trimmed(to_trim, distance as int),
                    p,
                ) == self.cell(r_old, p),
            r == packed_trim(self, r_old, to_trim, distance as int),
    {
        let res = self.trim_cells(r_old, to_trim, distance);
        proof {
            let rn = r_old.trimmed(to_trim, distance as int);
            let f = |p: Coord| self.cell(r_old, p);
            assert(packs(res.0, rn, f));
            assert(is_trim_of(res.0, self, r_old, to_trim, distance as int));
            let v = choose|v: u128| #[trigger] is_trim_of(v, self, r_old, to_trim, distance as int);
            assert(rn.small()) by {
                lemma_trimmed_small(r_old, to_trim, distance as int);
            }
            lemma_packs_unique(res.0, v, rn, f);
        }
        res
    }

    fn trim_cells(self, r_old: Rect, to_trim: Direction, distance: i32) -> (r: PackedCells)
        requires
            self.trim_ok(r_old, to_trim, distance as int),
        ensures
            r.fits_rect(r_old.trimmed(to_trim, distance as int)),
            forall|p: Coord|
                r_old.trimmed(to_trim, distance as int).contains(p) ==> r.cell(
                    r_old.trimmed(to_trim, distance as int),
                    p,
                ) == self.cell(r_old, p),
    {
        let w = r_old.width();
        let h = r_old.height();
        let ghost rn = r_old.trimmed(to_trim, distance as int);
        proof {
            lemma_fits_shr(self.0, (w * h) as u128);
            lemma_mul_nonneg(w as int, h as int);
        }
        match to_trim {
            Direction::Down => {
                proof {
                    lemma_mul_le(w as int, h - distance, h as int);
                    lemma_mul_nonneg(w as int, h - distance);
                }
                let new_size = w * (h - distance);
                proof {
                    lemma_bit_mask(new_size as u128, 0);
                }
                let m: u128 = ((1u128 << (new_size as u128)) - 1) as u128;
                let res = PackedCells(self.0 & m);
                proof {
                    assert forall|i: int| new_size <= i implies !#[trigger] bit(res.0, i) by {
                        lemma_bit_and(self.0, m, i);
                        lemma_bit_mask(new_size as u128, i);
                    }
                    assert forall|p: Coord| rn.contains(p) implies res.cell(rn, p) == self.cell(
                        r_old,
                        p,
                    ) by {
                        let i = cell_index(r_old, p);
                        lemma_row_lt(p.y - r_old.top, h - distance, w as int, p.x - r_old.left);
                        lemma_row_ge(p.y - r_old.top, 0, w as int, p.x - r_old.left);
                        lemma_bit_and(self.0, m, i);
                        lemma_bit_mask(new_size as u128, i);
                    }
                }
                res
            },
            Direction::Up => {
                proof {
                    lemma_mul_le(w as int, distance as int, h as int);
                    lemma_mul_nonneg(w as int, distance as int);
                }
                let s = w * distance;
                let res = PackedCells(self.0 >> (s as u128));
                proof {
                    assert forall|i: int| rn.spec_width() * rn.spec_height() <= i implies !#[trigger] bit(
                        res.0,
                        i,
                    ) by {
                        lemma_bit_shr(self.0, s as u128, i);
                        lemma_distrib(h as int, distance as int, w as int);
                        lemma_mul_comm(w as int, h - distance);
                        lemma_mul_comm(w as int, distance as int);
                        lemma_mul_comm(w as int, h as int);
                    }
                    assert forall|p: Coord| rn.contains(p) implies res.cell(rn, p) == self.cell(
                        r_old,
                        p,
                    ) by {
                        let i = cell_index(rn, p);
                        lemma_row_ge(p.y - rn.top, 0, w as int, p.x - r_old.left);
                        lemma_bit_shr(self.0, s as u128, i);
                        lemma_distrib(p.y - rn.top, distance as int, w as int);
                        lemma_mul_comm(w as int, distance as int);
                    }
                }
                res
            },
            Direction::Right | Direction::Left => {
                let nw = w - distance;
                let off: i32 = if to_trim == Direction::Left {
                    distance
                } else {
                    0
                };
                let mut result: u128 = 0;
                let mut y: i32 = 0;
                proof {
                    assert forall|i: int| 0 <= i implies !#[trigger] bit(result, i) by {
                        lemma_bit_zero(i);
                    }
                }
                while y < h
                    invariant
                        0 <= y <= h,
                        w == r_old.spec_width(),
                        h == r_old.spec_height(),
                        r_old.small(),
                        0 <= distance < w,
                        nw == w - distance,
                        off == (if to_trim == Direction::Left {
                            distance
                        } else {
                            0
                        }),
                        to_trim == Direction::Left || to_trim == Direction::Right,
                        fits(result, y * nw),
                        forall|yy: int, xx: int|
                            0 <= yy < y && 0 <= xx < nw ==> #[trigger] row_bit(result, nw as int, yy, xx)
                                == bit(self.0, yy * w + xx + off),
                    decreases h - y,
                {
                    proof {
                        lemma_mul_le(w as int, y as int, h as int);
                        lemma_mul_le(y as int, nw as int, w as int);
                        lemma_mul_comm(y as int, w as int);
                        lemma_mul_le(nw as int, y + 1, h as int);
                        lemma_mul_le(w as int, y + 1, h as int);
                        lemma_mul_comm(nw as int, y + 1);
                        lemma_mul_comm(w as int, y + 1);
                        lemma_mul_le(y + 1, nw as int, w as int);
                        lemma_mul_nonneg(y as int, nw as int);
                        lemma_mul_nonneg(y as int, w as int);
                        lemma_distrib(y as int, 1, w as int);
                        lemma_mul_comm(w as int, h as int);
                    }
                    let sy = (y * w) as u128;
                    proof {
                        lemma_bit_mask(w as u128, 0);
                    }
                    let row = (self.0 >> sy) & (((1u128 << (w as u128)) - 1) as u128);
                    let tr: u128 = if to_trim == Direction::Right {
                        proof {
                            lemma_bit_mask(nw as u128, 0);
                        }
                        row & (((1u128 << (nw as u128)) - 1) as u128)
                    } else {
                        row >> (distance as u128)
                    };
                    proof {
                        assert forall|x: int| #![trigger bit(tr, x)]
                            bit(tr, x) == (0 <= x < nw && bit(self.0, y * w + x + off)) by {
                            lemma_row_bits(self.0, sy, w as u128, x);
                            if to_trim == Direction::Right {
                                lemma_bit_and(row, ((1u128 << (nw as u128)) - 1) as u128, x);
                                lemma_bit_mask(nw as u128, x);
                            } else {
                                lemma_bit_shr(row, distance as u128, x);
                                lemma_row_bits(self.0, sy, w as u128, x + distance);
                            }
                        }
                        assert(fits(tr, nw as int));
                        lemma_append_row(result, tr, y as int, nw as int);
                    }
                    let ghost old_result = result;
                    result = result | (tr << ((y * nw) as u128));
                    proof {
                        assert forall|yy: int, xx: int|
                            0 <= yy < y + 1 && 0 <= xx < nw implies #[trigger] row_bit(result, nw as int, yy, xx)
                            == bit(self.0, yy * w + xx + off) by {
                            if yy < y {
                                lemma_row_lt(yy, y as int, nw as int, xx);
                                assert(row_bit(old_result, nw as int, yy, xx) == bit(self.0, yy * w + xx + off));
                                assert(bit(result, yy * nw + xx) == bit(old_result, yy * nw + xx));
                            } else {
                                assert(bit(result, y * nw + xx) == bit(tr, xx));
                                assert(bit(tr, xx) == (0 <= xx < nw && bit(self.0, y * w + xx + off)));
                            }
                        }
                    }
                    y = y + 1;
                }
                let res = PackedCells(result);
                proof {
                    assert(rn.spec_width() == nw);
                    assert(rn.spec_height() == h);
                    lemma_mul_comm(h as int, nw as int);
                    assert forall|p: Coord| rn.contains(p) implies res.cell(rn, p) == self.cell(
                        r_old,
                        p,
                    ) by {
                        let yy = p.y - r_old.top;
                        let xx = p.x - rn.left;
                        assert(0 <= yy < h && 0 <= xx < nw);
                        assert(cell_index(rn, p) == yy * nw + xx);
                        assert(cell_index(r_old, p) == yy * w + xx + off);
                        assert(row_bit(result, nw as int, yy, xx) == bit(self.0, yy * w + xx + off));
                    }
                }
                res
            },
        }
    }

    /// Joins the packed rectangle `c2` (covering `r2`) onto the side `join_direc`
    /// of this one (covering `r1`).
    pub fn join(self, c2: PackedCells, r1: Rect, r2: Rect, join_direc: Direction) -> (r:
        PackedCells)
        requires
            join_geometry_ok(r1, r2, join_direc),
            self.fits_rect(r1),
            c2.fits_rect(r2),
        ensures
            r.fits_rect(joined_rect(r1, r2, join_direc)),
            forall|p: Coord|
                joined_rect(r1, r2, join_direc).contains(p) ==> r.cell(
                    joined_rect(r1, r2, join_direc),
                    p,
                ) == if r1.contains(p) {
                    self.cell(r1, p)
                } else {
                    c2.cell(r2, p)
                },
            r == packed_join(self, c2, r1, r2, join_direc),
    {
        let res = self.join_cells(c2, r1, r2, join_direc);
        proof {
            let u = joined_rect(r1, r2, join_direc);
            let f = |p: Coord|
                if r1.contains(p) {
                    self.cell(r1, p)
                } else {
                    c2.cell(r2, p)
                };
            assert(packs(res.0, u, f));
            assert(is_join_of(res.0, self, c2, r1, r2, join_direc));
            let v = choose|v: u128| #[trigger] is_join_of(v, self, c2, r1, r2, join_direc);
            lemma_packs_unique(res.0, v, u, f);
        }
        res
    }

    fn join_cells(self, c2: PackedCells, r1: Rect, r2: Rect, join_direc: Direction) -> (r:
        PackedCells)
        requires
            join_geometry_ok(r1, r2, join_direc),
            self.fits_rect(r1),
            c2.fits_rect(r2),
        ensures
            r.fits_rect(joined_rect(r1, r2, join_direc)),
            forall|p: Coord|
                joined_rect(r1, r2, join_direc).contains(p) ==> r.cell(
                    joined_rect(r1, r2, join_direc),
                    p,
                ) == if r1.contains(p) {
                    self.cell(r1, p)
                } else {
                    c2.cell(r2, p)
                },
    {
        let ghost u = joined_rect(r1, r2, join_direc);
        let w1 = r1.width();
        let h1 = r1.height();
        let w2 = r2.width();
        let h2 = r2.height();
        proof {
            lemma_mul_nonneg(w1 as int, h1 as int);
            lemma_mul_nonneg(w2 as int, h2 as int);
        }
        match join_direc {
            Direction::Up | Direction::Down => {
                // `lo` occupies the first rows of the union, `hi` the rows after it.
                let (lo, hi, nlo) = if join_direc == Direction::Up {
                    (c2.0, self.0, w2 * h2)
                } else {
                    (self.0, c2.0, w1 * h1)
                };
                let ghost (rlo, rhi) = if join_direc == Direction::Up {
                    (r2, r1)
                } else {
                    (r1, r2)
                };
                proof {
                    lemma_distrib(h1 as int, h2 as int, w1 as int);
                    lemma_mul_comm(w1 as int, h1 + h2);
                    lemma_mul_comm(w1 as int, h1 as int);
                    lemma_mul_comm(w1 as int, h2 as int);
                    lemma_mul_nonneg(w1 as int, h2 as int);
                    assert(u.spec_width() == w1);
                    assert(u.spec_height() == h1 + h2);
                    assert(nlo == rlo.spec_width() * rlo.spec_height());
                }
                let res = PackedCells((hi << (nlo as u128)) | lo);
                proof {
                    assert forall|i: int| u.spec_width() * u.spec_height() <= i implies !#[trigger] bit(
                        res.0,
                        i,
                    ) by {
                        lemma_bit_or(hi << (nlo as u128), lo, i);
                        lemma_bit_shl(hi, nlo as u128, i);
                    }
                    assert forall|p: Coord| u.contains(p) implies res.cell(u, p) == if r1.contains(
                        p,
                    ) {
                        self.cell(r1, p)
                    } else {
                        c2.cell(r2, p)
                    } by {
                        let i = cell_index(u, p);
                        let xx = p.x - u.left;
                        lemma_bit_or(hi << (nlo as u128), lo, i);
                        lemma_bit_shl(hi, nlo as u128, i);
                        lemma_row_ge(p.y - u.top, 0, w1 as int, xx);
                        if rlo.contains(p) {
                            lemma_row_lt(p.y - u.top, rlo.spec_height(), w1 as int, xx);
                            assert(i == cell_index(rlo, p));
                            assert(i < nlo);
                        } else {
                            lemma_distrib(p.y - rhi.top, rlo.spec_height(), w1 as int);
                            lemma_row_lt(p.y - rhi.top, rhi.spec_height(), w1 as int, xx);
                            lemma_distrib(rlo.spec_height(), rhi.spec_height(), w1 as int);
                            assert(i == cell_index(rhi, p) + nlo);
                        }
                    }
                }
                res
            },
            Direction::Left | Direction::Right => {
                let h = h1;
                let dw = w1 + w2;
                // `a` supplies the first columns of each row, `b` the columns after it.
                let (a, wa, b, wb) = if join_direc == Direction::Right {
                    (self.0, w1, c2.0, w2)
                } else {
                    (c2.0, w2, self.0, w1)
                };
                proof {
                    lemma_bit_mask(wa as u128, 0);
                    lemma_bit_mask(wb as u128, 0);
                }
                let mask_a: u128 = ((1u128 << (wa as u128)) - 1) as u128;
                let mask_b: u128 = ((1u128 << (wb as u128)) - 1) as u128;
                let mut result: u128 = 0;
                let mut y: i32 = 0;
                proof {
                    assert forall|i: int| 0 <= i implies !#[trigger] bit(result, i) by {
                        lemma_bit_zero(i);
                    }
                }
                while y < h
                    invariant
                        0 <= y <= h,
                        h == r1.spec_height(),
                        0 <= wa < 128,
                        0 <= wb < 128,
                        dw == wa + wb,
                        0 <= h,
                        dw * h < 128,
                        mask_a == ((1u128 << (wa as u128)) - 1) as u128,
                        mask_b == ((1u128 << (wb as u128)) - 1) as u128,
                        wa * h < 128,
                        wb * h < 128,
                        fits(result, y * dw),
                        forall|yy: int, xx: int|
                            0 <= yy < y && 0 <= xx < dw ==> #[trigger] row_bit(
                                result,
                                dw as int,
                                yy,
                                xx,
                            ) == if xx < wa {
                                bit(a, yy * wa + xx)
                            } else {
                                bit(b, yy * wb + xx - wa)
                            },
                    decreases h - y,
                {
                    proof {
                        lemma_mul_le(wa as int, y as int, h as int);
                        lemma_mul_le(wb as int, y as int, h as int);
                        lemma_mul_comm(wa as int, y as int);
                        lemma_mul_comm(wb as int, y as int);
                        lemma_mul_comm(wa as int, h as int);
                        lemma_mul_comm(wb as int, h as int);
                        lemma_mul_comm(dw as int, h as int);
                        lemma_mul_le(dw as int, y + 1, h as int);
                        lemma_mul_comm(dw as int, y + 1);
                        lemma_mul_comm(dw as int, y as int);
                        lemma_mul_nonneg(y as int, dw as int);
                        lemma_mul_nonneg(y as int, wa as int);
                        lemma_mul_nonneg(y as int, wb as int);
                        lemma_mul_le(dw as int, y as int, y + 1);
                        lemma_mul_le(dw as int, 1, h as int);
                        assert(dw < 128);
                    }
                    let sa = (y * wa) as u128;
                    let sb = (y * wb) as u128;
                    let row_a = (a >> sa) & mask_a;
                    let row_b = (b >> sb) & mask_b;
                    let combined = row_a | (row_b << (wa as u128));
                    proof {
                        assert forall|x: int| #![trigger bit(combined, x)]
                            bit(combined, x) == ((0 <= x < wa && bit(a, y * wa + x)) || (wa <= x
                                < dw && bit(b, y * wb + x - wa))) by {
                            lemma_bit_or(row_a, row_b << (wa as u128), x);
                            lemma_bit_shl(row_b, wa as u128, x);
                            lemma_row_bits(a, sa, wa as u128, x);
                            lemma_row_bits(b, sb, wb as u128, x - wa);
                        }
                        assert(fits(combined, dw as int));
                        lemma_append_row(result, combined, y as int, dw as int);
                    }
                    let ghost old_result = result;
                    result = result | (combined << ((y * dw) as u128));
                    proof {
                        assert forall|yy: int, xx: int|
                            0 <= yy < y + 1 && 0 <= xx < dw implies #[trigger] row_bit(
                            result,
                            dw as int,
                            yy,
                            xx,
                        ) == if xx < wa {
                            bit(a, yy * wa + xx)
                        } else {
                            bit(b, yy * wb + xx - wa)
                        } by {
                            if yy < y {
                                lemma_row_lt(yy, y as int, dw as int, xx);
                                assert(bit(result, yy * dw + xx) == bit(old_result, yy * dw + xx));
                                assert(row_bit(old_result, dw as int, yy, xx) == if xx < wa {
                                    bit(a, yy * wa + xx)
                                } else {
                                    bit(b, yy * wb + xx - wa)
                                });
                            } else {
                                assert(bit(result, y * dw + xx) == bit(combined, xx));
                            }
                        }
                    }
                    y = y + 1;
                }
                let res = PackedCells(result);
                proof {
                    assert(u.spec_width() == dw);
                    assert(u.spec_height() == h);
                    lemma_mul_comm(h as int, dw as int);
                    assert forall|p: Coord| u.contains(p) implies res.cell(u, p) == if r1.contains(
                        p,
                    ) {
                        self.cell(r1, p)
                    } else {
                        c2.cell(r2, p)
                    } by {
                        let yy = p.y - u.top;
                        let xx = p.x - u.left;
                        assert(0 <= yy < h && 0 <= xx < dw);
                        assert(cell_index(u, p) == yy * dw + xx);
                        assert(row_bit(result, dw as int, yy, xx) == if xx < wa {
                            bit(a, yy * wa + xx)
                        } else {
                            bit(b, yy * wb + xx - wa)
                        });
                    }
                }
                res
            },
        }
    }
}

} // verus!
