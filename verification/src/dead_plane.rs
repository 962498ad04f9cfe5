//! Under B3/S23, the boards the search admits are exactly the patterns that, dead
//! everywhere outside the searched rectangle, step into the target and leave the ring
//! around the rectangle dead.
use vstd::prelude::*;
use crate::basic_grids::{spec_opposite, Coord, Direction, Grid, Rect};
use crate::bits::{bit, fits, lemma_bit_zero};
use crate::board::{lemma_fits_nine, padded_of, rect_in_range};
use crate::ca::{life_cell, nb, neighbour_count, CACell, RuleLut};
use crate::leaves::{box3, grid_cell, side_ok};
use crate::packed::{lemma_pack_rect, lemma_packed_join_cells, lemma_packed_trim_cells, packed_join, packed_trim, PackedCells};
use crate::predecessors::{cell_rect, edge_sides, is_predecessor, lemma_leaf_admits_meaning, nbhd};

verus! {

/// 1 where the board `b` is alive at `(x, y)`, else 0.
pub open spec fn alive(b: spec_fn(Coord) -> bool, x: int, y: int) -> int {
    if b(Coord { x: x as i32, y: y as i32 }) {
        1
    } else {
        0
    }
}

/// The live cells among the eight neighbours of `q`.
pub open spec fn live_neighbours(b: spec_fn(Coord) -> bool, q: Coord) -> int {
    alive(b, q.x - 1, q.y - 1) + alive(b, q.x as int, q.y - 1) + alive(b, q.x + 1, q.y - 1) + alive(b, q.x - 1, q.y as int)
        + alive(b, q.x + 1, q.y as int) + alive(b, q.x - 1, q.y + 1) + alive(b, q.x as int, q.y + 1) + alive(
        b,
        q.x + 1,
        q.y + 1,
    )
}

/// Whether cell `q` of the board `b` is alive one generation on under B3/S23.
pub open spec fn life_step(b: spec_fn(Coord) -> bool, q: Coord) -> bool {
    let n = live_neighbours(b, q);
    if b(q) {
        n == 2 || n == 3
    } else {
        n == 3
    }
}

/// The transition table allows exactly the B3/S23 transitions.
pub open spec fn is_life_table(lut: RuleLut) -> bool {
    forall|g: u32, c: CACell| g < 512 ==> (#[trigger] lut.allowed(g, c) <==> c == life_cell(g, set![3int], set![2int, 3int]))
}

/// The board `b` steps under B3/S23 into `gen1` on every cell of `root` where `gen1` is
/// known, holds `gen0` where that is known, and leaves every cell of the ring around
/// `root` dead.
pub open spec fn life_predecessor(
    gen0: Grid<Option<CACell>>,
    gen1: Grid<Option<CACell>>,
    root: Rect,
    b: spec_fn(Coord) -> bool,
) -> bool {
    &&& forall|c: Coord|
        #[trigger] root.contains(c) ==> (grid_cell(gen1, c) matches Some(t) ==> (life_step(b, c) <==> t == CACell::ALIVE))
            && (grid_cell(gen0, c) matches Some(x) ==> (b(c) <==> x == CACell::ALIVE))
    &&& forall|q: Coord| #[trigger] padded_of(root).contains(q) && !root.contains(q) ==> !life_step(b, q)
}

/// 1 for a set bit, else 0.
pub open spec fn b01(x: bool) -> int {
    if x {
        1
    } else {
        0
    }
}

/// The set bits of a 3x3 word other than its centre.
pub open spec fn word_count(v: u128) -> int {
    b01(bit(v, 0)) + b01(bit(v, 1)) + b01(bit(v, 2)) + b01(bit(v, 3)) + b01(bit(v, 5)) + b01(bit(v, 6)) + b01(bit(v, 7))
        + b01(bit(v, 8))
}

/// The cell at offset `(dx, dy)` from `c` is bit `(dy + 1) * 3 + (dx + 1)` of its
/// neighbourhood.
proof fn lemma_window_bit(b: spec_fn(Coord) -> bool, c: Coord, dx: int, dy: int)
    requires
        -0x4000_0000 <= c.x <= 0x4000_0000,
        -0x4000_0000 <= c.y <= 0x4000_0000,
        -1 <= dx <= 1,
        -1 <= dy <= 1,
    ensures
        nbhd(b, c).0 < 512,
        bit(nbhd(b, c).0, (dy + 1) * 3 + (dx + 1)) == (alive(b, c.x + dx, c.y + dy) == 1),
{
    let pad = padded_of(cell_rect(c));
    assert(pad.spec_width() == 3 && pad.spec_height() == 3);
    assert(pad.small());
    lemma_pack_rect(pad, b);
    let v = nbhd(b, c).0;
    assert(fits(v, 9));
    crate::bits::lemma_fits_shr(v, 9);
    assert(v >> 9u128 == 0 ==> v < 512) by (bit_vector);
    let p = Coord { x: (c.x + dx) as i32, y: (c.y + dy) as i32 };
    assert(pad.contains(p));
    assert(crate::basic_grids::cell_index(pad, p) == (dy + 1) * 3 + (dx + 1));
}

/// The nine bits of the neighbourhood of `c`, row by row from its top-left cell.
proof fn lemma_window_bits(b: spec_fn(Coord) -> bool, c: Coord)
    requires
        -0x4000_0000 <= c.x <= 0x4000_0000,
        -0x4000_0000 <= c.y <= 0x4000_0000,
    ensures
        nbhd(b, c).0 < 512,
        bit(nbhd(b, c).0, 0) == (alive(b, c.x - 1, c.y - 1) == 1),
        bit(nbhd(b, c).0, 1) == (alive(b, c.x as int, c.y - 1) == 1),
        bit(nbhd(b, c).0, 2) == (alive(b, c.x + 1, c.y - 1) == 1),
        bit(nbhd(b, c).0, 3) == (alive(b, c.x - 1, c.y as int) == 1),
        bit(nbhd(b, c).0, 4) == (alive(b, c.x as int, c.y as int) == 1),
        bit(nbhd(b, c).0, 5) == (alive(b, c.x + 1, c.y as int) == 1),
        bit(nbhd(b, c).0, 6) == (alive(b, c.x - 1, c.y + 1) == 1),
        bit(nbhd(b, c).0, 7) == (alive(b, c.x as int, c.y + 1) == 1),
        bit(nbhd(b, c).0, 8) == (alive(b, c.x + 1, c.y + 1) == 1),
{
    lemma_window_bit(b, c, -1, -1);
    lemma_window_bit(b, c, 0, -1);
    lemma_window_bit(b, c, 1, -1);
    lemma_window_bit(b, c, -1, 0);
    lemma_window_bit(b, c, 0, 0);
    lemma_window_bit(b, c, 1, 0);
    lemma_window_bit(b, c, -1, 1);
    lemma_window_bit(b, c, 0, 1);
    lemma_window_bit(b, c, 1, 1);
}

/// Bit `k` of a 9-bit word, read as a neighbourhood.
proof fn lemma_low_bit(v: u128, k: u32)
    requires
        v < 512,
        k < 9,
    ensures
        nb(v as u32, k) == (if bit(v, k as int) {
            1u32
        } else {
            0u32
        }),
{
    let ku = k as u128;
    assert(bit(v, k as int) == ((v >> ku) & 1u128 == 1u128));
    assert((((v as u32) >> k) & 1u32) == (if (v >> ku) & 1u128 == 1u128 {
        1u32
    } else {
        0u32
    })) by (bit_vector)
        requires
            v < 512,
            k < 9,
            ku == k as u128,
    ;
}

/// B3/S23 on a 9-bit word, cell by cell.
proof fn lemma_life_word(v: u128)
    requires
        v < 512,
    ensures
        (v & 0x1ffu128) as u32 == v as u32,
        (life_cell(v as u32, set![3int], set![2int, 3int]) == CACell::ALIVE) <==> if bit(v, 4) {
            word_count(v) == 2 || word_count(v) == 3
        } else {
            word_count(v) == 3
        },
{
    assert((v & 0x1ffu128) as u32 == v as u32) by (bit_vector)
        requires
            v < 512,
    ;
    lemma_low_bit(v, 0);
    lemma_low_bit(v, 1);
    lemma_low_bit(v, 2);
    lemma_low_bit(v, 3);
    lemma_low_bit(v, 4);
    lemma_low_bit(v, 5);
    lemma_low_bit(v, 6);
    lemma_low_bit(v, 7);
    lemma_low_bit(v, 8);
    assert(neighbour_count(v as u32) == word_count(v));
}

/// A B3/S23 table takes every neighbourhood to the state the rule gives.
proof fn lemma_life_evolve(lut: RuleLut, g: u32)
    requires
        is_life_table(lut),
        g < 512,
    ensures
        lut.spec_evolve(g) == Some(life_cell(g, set![3int], set![2int, 3int])),
{
    assert(lut.allowed(g, CACell::ALIVE) <==> CACell::ALIVE == life_cell(g, set![3int], set![2int, 3int]));
    assert(lut.allowed(g, CACell::DEAD) <==> CACell::DEAD == life_cell(g, set![3int], set![2int, 3int]));
}

/// The cell next to `c` across its side `d`.
pub open spec fn beside(c: Coord, d: Direction) -> Coord {
    match d {
        Direction::Up => Coord { x: c.x, y: (c.y - 1) as i32 },
        Direction::Down => Coord { x: c.x, y: (c.y + 1) as i32 },
        Direction::Left => Coord { x: (c.x - 1) as i32, y: c.y },
        Direction::Right => Coord { x: (c.x + 1) as i32, y: c.y },
    }
}

/// The bits of the word that the test of a forced-dead side `d` evolves: the
/// neighbourhood with its row (or column) on the side opposite `d` cleared.
proof fn lemma_side_word(pred: PackedCells, d: Direction)
    requires
        pred.0 < 512,
    ensures
        ({
            let od = spec_opposite(d);
            let j = packed_join(
                packed_trim(pred, box3(), od, 1),
                PackedCells(0),
                box3().trimmed(od, 1),
                box3().trimmed(d, 2),
                od,
            );
            &&& j.0 < 512
            &&& forall|k: int|
                0 <= k < 9 ==> #[trigger] bit(j.0, k) == (box3().trimmed(od, 1).contains(
                    Coord { x: (k % 3) as i32, y: (k / 3) as i32 },
                ) && bit(pred.0, k))
        }),
        packed_trim(pred, box3(), spec_opposite(d), 2).fits_rect(box3().trimmed(spec_opposite(d), 2)),
        forall|k: int|
            0 <= k < 9 && #[trigger] box3().trimmed(spec_opposite(d), 2).contains(
                Coord { x: (k % 3) as i32, y: (k / 3) as i32 },
            ) ==> packed_trim(pred, box3(), spec_opposite(d), 2).cell(
                box3().trimmed(spec_opposite(d), 2),
                Coord { x: (k % 3) as i32, y: (k / 3) as i32 },
            ) == bit(pred.0, k),
{
    let od = spec_opposite(d);
    let bx = box3();
    let v = pred.0;
    lemma_fits_nine(v);
    assert(bx.small());
    assert(bx.spec_width() == 3 && bx.spec_height() == 3);
    assert(bx.spec_width() * bx.spec_height() == 9) by (nonlinear_arith)
        requires
            bx.spec_width() == 3,
            bx.spec_height() == 3,
    ;
    assert(pred.fits_rect(bx));
    assert(pred.trim_ok(bx, od, 2));
    lemma_packed_trim_cells(pred, bx, od, 2);
    lemma_packed_trim_cells(pred, bx, od, 1);
    let t1 = packed_trim(pred, bx, od, 1);
    let r1 = bx.trimmed(od, 1);
    let r3 = bx.trimmed(d, 2);
    assert(crate::packed::joined_rect(r1, r3, od) == bx);
    lemma_packed_join_cells(t1, PackedCells(0), r1, r3, od);
    let j = packed_join(t1, PackedCells(0), r1, r3, od);
    let jv = j.0;
    assert(fits(jv, 9));
    crate::bits::lemma_fits_shr(jv, 9);
    assert(jv >> 9u128 == 0 ==> jv < 512) by (bit_vector);
    assert forall|k: int| 0 <= k < 9 implies #[trigger] bit(j.0, k) == (r1.contains(
        Coord { x: (k % 3) as i32, y: (k / 3) as i32 },
    ) && bit(v, k)) by {
        let p = Coord { x: (k % 3) as i32, y: (k / 3) as i32 };
        assert(bx.contains(p));
        assert(crate::basic_grids::cell_index(bx, p) == k);
        if r1.contains(p) {
            assert(t1.cell(r1, p) == pred.cell(bx, p));
        } else {
            lemma_bit_zero(crate::basic_grids::cell_index(r3, p));
        }
    }
    assert forall|k: int|
        0 <= k < 9 && #[trigger] bx.trimmed(od, 2).contains(Coord { x: (k % 3) as i32, y: (k / 3) as i32 }) implies packed_trim(
        pred,
        bx,
        od,
        2,
    ).cell(bx.trimmed(od, 2), Coord { x: (k % 3) as i32, y: (k / 3) as i32 }) == bit(v, k) by {
        let p = Coord { x: (k % 3) as i32, y: (k / 3) as i32 };
        assert(crate::basic_grids::cell_index(bx, p) == k);
    }
}

/// Position `k` of a 3x3 word lies on its row (or column) on side `d`.
pub open spec fn on_line(d: Direction, k: int) -> bool {
    match d {
        Direction::Up => k < 3,
        Direction::Down => k >= 6,
        Direction::Left => k % 3 == 0,
        Direction::Right => k % 3 == 2,
    }
}

/// Across a side of `root`, the neighbourhood of a cell on that side is dead.
proof fn lemma_outside_line(root: Rect, b: spec_fn(Coord) -> bool, c: Coord, d: Direction)
    requires
        rect_in_range(root),
        root.contains(c),
        edge_sides(root, c).has(d),
        forall|q: Coord| !root.contains(q) ==> !#[trigger] b(q),
    ensures
        forall|k: int| 0 <= k < 9 && on_line(d, k) ==> !#[trigger] bit(nbhd(b, c).0, k),
{
    lemma_window_bits(b, c);
    let v = nbhd(b, c).0;
    assert forall|k: int| 0 <= k < 9 && on_line(d, k) implies !#[trigger] bit(v, k) by {
        if k == 0 {
        } else if k == 1 {
        } else if k == 2 {
        } else if k == 3 {
        } else if k == 4 {
        } else if k == 5 {
        } else if k == 6 {
        } else if k == 7 {
        } else {
        }
    }
}

/// The test of a forced-dead side `d` at a cell `c` on that side of `root` passes
/// exactly when the cell beyond that side stays dead.
proof fn lemma_side(lut: RuleLut, root: Rect, b: spec_fn(Coord) -> bool, c: Coord, d: Direction)
    requires
        is_life_table(lut),
        rect_in_range(root),
        root.contains(c),
        edge_sides(root, c).has(d),
        forall|q: Coord| !root.contains(q) ==> !#[trigger] b(q),
    ensures
        side_ok(lut, nbhd(b, c), d) <==> !life_step(b, beside(c, d)),
{
    let pred = nbhd(b, c);
    let v = pred.0;
    lemma_window_bits(b, c);
    lemma_outside_line(root, b, c, d);
    lemma_side_word(pred, d);
    let od = spec_opposite(d);
    let bx = box3();
    let r2 = bx.trimmed(od, 2);
    let t2 = packed_trim(pred, bx, od, 2);
    let j = packed_join(packed_trim(pred, bx, od, 1), PackedCells(0), bx.trimmed(od, 1), bx.trimmed(d, 2), od);
    let f = |p: Coord| false;
    assert(r2.spec_width() * r2.spec_height() == 3) by {
        match d {
            Direction::Up | Direction::Down => {
                assert(r2.spec_width() == 3 && r2.spec_height() == 1);
                assert(r2.spec_width() * r2.spec_height() == 3) by (nonlinear_arith)
                    requires
                        r2.spec_width() == 3,
                        r2.spec_height() == 1,
                ;
            },
            _ => {
                assert(r2.spec_width() == 1 && r2.spec_height() == 3);
                assert(r2.spec_width() * r2.spec_height() == 3) by (nonlinear_arith)
                    requires
                        r2.spec_width() == 1,
                        r2.spec_height() == 3,
                ;
            },
        }
    }
    assert(r2.small());
    assert(crate::packed::packs(t2.0, r2, f)) by {
        assert forall|p: Coord| r2.contains(p) implies bit(t2.0, crate::basic_grids::cell_index(r2, p)) == f(p) by {
            let k = p.y * 3 + p.x;
            assert(0 <= k < 9);
            assert(p == Coord { x: (k % 3) as i32, y: (k / 3) as i32 });
            assert(on_line(d, k));
            assert(!bit(v, k));
        }
    }
    assert(crate::packed::packs(0u128, r2, f)) by {
        assert forall|i: int| 3 <= i implies !#[trigger] bit(0u128, i) by {
            lemma_bit_zero(i);
        }
        assert forall|p: Coord| r2.contains(p) implies bit(0u128, crate::basic_grids::cell_index(r2, p)) == f(p) by {
            lemma_bit_zero(crate::basic_grids::cell_index(r2, p));
        }
    }
    crate::packed::lemma_packs_unique(t2.0, 0u128, r2, f);
    let jv = j.0;
    lemma_life_word(jv);
    lemma_life_evolve(lut, jv as u32);
    assert(bit(jv, 4) == bit(v, 4));
}

/// The rule table's reading of the neighbourhood of `c` is the B3/S23 step of the board.
proof fn lemma_life_at(b: spec_fn(Coord) -> bool, c: Coord)
    requires
        -0x4000_0000 <= c.x <= 0x4000_0000,
        -0x4000_0000 <= c.y <= 0x4000_0000,
    ensures
        nbhd(b, c).0 < 512,
        bit(nbhd(b, c).0, 4) == b(c),
        (life_cell(nbhd(b, c).0 as u32, set![3int], set![2int, 3int]) == CACell::ALIVE) <==> life_step(b, c),
{
    lemma_window_bits(b, c);
    let v = nbhd(b, c).0;
    lemma_life_word(v);
    assert(Coord { x: (c.x as int) as i32, y: (c.y as int) as i32 } == c);
    assert(word_count(v) == live_neighbours(b, c));
}

/// A cell at a corner of the ring around `root` touches at most one cell of `root`, so
/// it stays dead.
proof fn lemma_ring_corner(root: Rect, b: spec_fn(Coord) -> bool, q: Coord)
    requires
        rect_in_range(root),
        padded_of(root).contains(q),
        !root.contains(q),
        !(q.y == root.top - 1 && root.left <= q.x < root.right),
        !(q.y == root.bottom && root.left <= q.x < root.right),
        !(q.x == root.left - 1 && root.top <= q.y < root.bottom),
        !(q.x == root.right && root.top <= q.y < root.bottom),
        forall|p: Coord| !root.contains(p) ==> !#[trigger] b(p),
    ensures
        !life_step(b, q),
{
    assert(!b(q));
    assert(live_neighbours(b, q) <= 1);
}

/// A cell of `root` is admitted at its leaf exactly when it steps into `gen1` where that
/// is known, holds `gen0` where that is known, and the cells beyond its sides on the
/// edge of `root` stay dead.
proof fn lemma_cell_admitted(
    lut: RuleLut,
    gen0: Grid<Option<CACell>>,
    gen1: Grid<Option<CACell>>,
    root: Rect,
    b: spec_fn(Coord) -> bool,
    c: Coord,
)
    requires
        is_life_table(lut),
        rect_in_range(root),
        root.contains(c),
        forall|q: Coord| !root.contains(q) ==> !#[trigger] b(q),
    ensures
        crate::predecessors::leaf_admits(lut, gen0, gen1, edge_sides(root, c), c, nbhd(b, c)) <==> {
            &&& (grid_cell(gen1, c) matches Some(t) ==> (life_step(b, c) <==> t == CACell::ALIVE))
            &&& (grid_cell(gen0, c) matches Some(x) ==> (b(c) <==> x == CACell::ALIVE))
            &&& forall|d: Direction| #[trigger] edge_sides(root, c).has(d) ==> !life_step(b, beside(c, d))
        },
{
    let pred = nbhd(b, c);
    lemma_leaf_admits_meaning(lut, gen0, gen1, edge_sides(root, c), c, pred);
    lemma_life_at(b, c);
    let g = pred.0 as u32;
    assert(lut.allowed(g, CACell::ALIVE) <==> CACell::ALIVE == life_cell(g, set![3int], set![2int, 3int]));
    assert(lut.allowed(g, CACell::DEAD) <==> CACell::DEAD == life_cell(g, set![3int], set![2int, 3int]));
    assert forall|d: Direction| #[trigger] edge_sides(root, c).has(d) implies (side_ok(lut, pred, d) <==> !life_step(
        b,
        beside(c, d),
    )) by {
        lemma_side(lut, root, b, c, d);
    }
}

/// Under B3/S23, the search's notion of a predecessor is the plain one: a board that is
/// dead outside `root` passes every leaf's test exactly when it steps into `gen1` on
/// every cell of `root` where `gen1` is known, holds `gen0` where that is known, and
/// leaves every cell of the ring around `root` dead. (`root` lies well inside the `i32`
/// plane, so that no coordinate near it wraps.)
pub proof fn law_predecessor_is_life_step(
    lut: RuleLut,
    gen0: Grid<Option<CACell>>,
    gen1: Grid<Option<CACell>>,
    root: Rect,
    b: spec_fn(Coord) -> bool,
)
    requires
        is_life_table(lut),
        rect_in_range(root),
        forall|q: Coord| !root.contains(q) ==> !#[trigger] b(q),
    ensures
        is_predecessor(lut, gen0, gen1, root, b) <==> life_predecessor(gen0, gen1, root, b),
{
    if is_predecessor(lut, gen0, gen1, root, b) {
        assert forall|c: Coord| #[trigger] root.contains(c) implies (grid_cell(gen1, c) matches Some(t) ==> (life_step(b, c)
            <==> t == CACell::ALIVE)) && (grid_cell(gen0, c) matches Some(x) ==> (b(c) <==> x == CACell::ALIVE)) by {
            lemma_cell_admitted(lut, gen0, gen1, root, b, c);
        }
        assert forall|q: Coord| #[trigger] padded_of(root).contains(q) && !root.contains(q) implies !life_step(b, q) by {
            if q.y == root.top - 1 && root.left <= q.x < root.right {
                let c = Coord { x: q.x, y: root.top };
                lemma_cell_admitted(lut, gen0, gen1, root, b, c);
                assert(root.contains(c));
                assert(edge_sides(root, c).has(Direction::Up));
                assert(beside(c, Direction::Up) == q);
            } else if q.y == root.bottom && root.left <= q.x < root.right {
                let c = Coord { x: q.x, y: (root.bottom - 1) as i32 };
                lemma_cell_admitted(lut, gen0, gen1, root, b, c);
                assert(root.contains(c));
                assert(edge_sides(root, c).has(Direction::Down));
                assert(beside(c, Direction::Down) == q);
            } else if q.x == root.left - 1 && root.top <= q.y < root.bottom {
                let c = Coord { x: root.left, y: q.y };
                lemma_cell_admitted(lut, gen0, gen1, root, b, c);
                assert(root.contains(c));
                assert(edge_sides(root, c).has(Direction::Left));
                assert(beside(c, Direction::Left) == q);
            } else if q.x == root.right && root.top <= q.y < root.bottom {
                let c = Coord { x: (root.right - 1) as i32, y: q.y };
                lemma_cell_admitted(lut, gen0, gen1, root, b, c);
                assert(root.contains(c));
                assert(edge_sides(root, c).has(Direction::Right));
                assert(beside(c, Direction::Right) == q);
            } else {
                lemma_ring_corner(root, b, q);
            }
        }
    }
    if life_predecessor(gen0, gen1, root, b) {
        assert forall|c: Coord| #[trigger] root.contains(c) implies crate::predecessors::leaf_admits(
            lut,
            gen0,
            gen1,
            edge_sides(root, c),
            c,
            nbhd(b, c),
        ) by {
            lemma_cell_admitted(lut, gen0, gen1, root, b, c);
            assert forall|d: Direction| #[trigger] edge_sides(root, c).has(d) implies !life_step(b, beside(c, d)) by {
                let q = beside(c, d);
                assert(padded_of(root).contains(q) && !root.contains(q));
            }
        }
    }
}

/// Boards that agree on the ring-padded `root` are predecessors together.
proof fn lemma_predecessor_local(
    lut: RuleLut,
    gen0: Grid<Option<CACell>>,
    gen1: Grid<Option<CACell>>,
    root: Rect,
    b1: spec_fn(Coord) -> bool,
    b2: spec_fn(Coord) -> bool,
)
    requires
        rect_in_range(root),
        forall|q: Coord| #[trigger] padded_of(root).contains(q) ==> b1(q) == b2(q),
        is_predecessor(lut, gen0, gen1, root, b1),
    ensures
        is_predecessor(lut, gen0, gen1, root, b2),
{
    assert forall|c: Coord| #[trigger] root.contains(c) implies nbhd(b1, c) == nbhd(b2, c) by {
        let pad = padded_of(cell_rect(c));
        assert(pad.spec_width() == 3 && pad.spec_height() == 3);
        assert(pad.spec_width() * pad.spec_height() == 9) by (nonlinear_arith)
            requires
                pad.spec_width() == 3,
                pad.spec_height() == 3,
        ;
        lemma_pack_rect(pad, b1);
        lemma_pack_rect(pad, b2);
        assert forall|q: Coord| pad.contains(q) implies b1(q) == b2(q) by {
            assert(padded_of(root).contains(q));
        }
        crate::packed::lemma_packs_unique(nbhd(b1, c).0, nbhd(b2, c).0, pad, b2);
    }
}

/// After an exhaustive search under B3/S23 over the window `w`, its boards are exactly
/// the predecessors in a dead plane: a board that is dead outside `w`'s rectangle is
/// shown by some board of `w` exactly when it steps into `gen1` on every cell of the
/// rectangle where `gen1` is known, holds `gen0` where that is known, and leaves the ring
/// around the rectangle dead.
pub proof fn law_search_finds_life_predecessors(
    w: crate::board::BoardWindow,
    lut: RuleLut,
    gen0: Grid<Option<CACell>>,
    gen1: Grid<Option<CACell>>,
    b: spec_fn(Coord) -> bool,
)
    requires
        is_life_table(lut),
        rect_in_range(w.rect),
        w.inv(),
        crate::board::exposable(w.rect),
        crate::search::all_filled(w),
        crate::search::consistent(w),
        crate::predecessors::leaves_sound(w, lut, gen0, gen1),
        crate::predecessors::leaves_complete(w, lut, gen0, gen1),
        crate::predecessors::all_listed(w),
        crate::predecessors::sides_match(w, w.rect),
        forall|q: Coord| !w.rect.contains(q) ==> !#[trigger] b(q),
    ensures
        (exists|i: int| 0 <= i < w.nboards()->Some_0 && #[trigger] crate::predecessors::shows(w, i, b)) <==> life_predecessor(
            gen0,
            gen1,
            w.rect,
            b,
        ),
{
    let root = w.rect;
    law_predecessor_is_life_step(lut, gen0, gen1, root, b);
    if life_predecessor(gen0, gen1, root, b) {
        crate::predecessors::lemma_predecessor_admitted(w, root, lut, gen0, gen1, b);
        crate::predecessors::law_predecessors_are_found(w, lut, gen0, gen1, b);
    }
    if exists|i: int| 0 <= i < w.nboards()->Some_0 && #[trigger] crate::predecessors::shows(w, i, b) {
        let i = choose|i: int| 0 <= i < w.nboards()->Some_0 && #[trigger] crate::predecessors::shows(w, i, b);
        crate::predecessors::lemma_board_is_predecessor(w, root, lut, gen0, gen1, i);
        let bi = crate::predecessors::board_of(w, i);
        assert forall|q: Coord| #[trigger] padded_of(root).contains(q) implies bi(q) == b(q) by {
            assert(w.padded().contains(q));
        }
        lemma_predecessor_local(lut, gen0, gen1, root, bi, b);
    }
}

} // verus!
