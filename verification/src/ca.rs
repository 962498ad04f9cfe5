//! Cell states and the transition table of a cellular automaton rule.
use vstd::prelude::*;
use crate::basic_grids::{cell_index, lemma_index_bounds, Coord, Grid, Rect};
use crate::bits::bit;
use crate::packed::PackedCells;
use crate::text::{
    find_in, push_char, push_chars, chars_of, digit_value, find_char, has_char, is_digit, line_bounds, lines, parse_int,
    parse_int_in, pieces, split, split_bounds, trim, trim_bounds,
};

verus! {

#[allow(non_camel_case_types)]
#[derive(Debug, Clone, Copy, PartialEq, Eq, Structural, PartialOrd, Ord, Hash)]
pub enum CACell {
    DEAD,
    ALIVE,
}

pub open spec fn cell_u8(c: CACell) -> u8 {
    match c {
        CACell::DEAD => 0,
        CACell::ALIVE => 1,
    }
}

impl CACell {
    pub fn into_u8(self) -> (r: u8)
        ensures
            r == cell_u8(self),
    {
        match self {
            CACell::DEAD => 0,
            CACell::ALIVE => 1,
        }
    }
}

/// The cell state a bit stands for.
pub open spec fn cell_of(b: bool) -> CACell {
    if b {
        CACell::ALIVE
    } else {
        CACell::DEAD
    }
}

impl PackedCells {
    /// The packed `r.width() x r.height()` rectangle as a grid placed at the origin.
    pub fn to_grid(&self, r: Rect) -> (g: Grid<CACell>)
        requires
            0 <= r.spec_width() <= i32::MAX,
            0 <= r.spec_height() <= i32::MAX,
            r.spec_width() * r.spec_height() <= 128,
        ensures
            g.wf(),
            g.size == (Rect { top: 0, left: 0, bottom: r.spec_height() as i32, right: r.spec_width() as i32 }),
            forall|p: Coord| g.size.contains(p) ==> g.at(p) == cell_of(self.cell(g.size, p)),
    {
        let w = r.width();
        let h = r.height();
        let mut g = Grid::new(h, w, CACell::DEAD);
        let ghost size = g.size;
        proof {
            assert forall|p: Coord| size.contains(p) implies #[trigger] g.at(p) == CACell::DEAD by {
                lemma_index_bounds(size, p);
                assert(cloned(CACell::DEAD, g.data@[cell_index(size, p)]));
            }
        }
        let mut y: i32 = 0;
        while y < h
            invariant
                0 <= y <= h,
                w == r.spec_width(),
                h == r.spec_height(),
                w * h <= 128,
                g.wf(),
                g.size == size,
                size == (Rect { top: 0, left: 0, bottom: h, right: w }),
                forall|p: Coord|
                    size.contains(p) ==> #[trigger] g.at(p) == if p.y < y {
                        cell_of(self.cell(size, p))
                    } else {
                        CACell::DEAD
                    },
            decreases h - y,
        {
            let mut x: i32 = 0;
            while x < w
                invariant
                    0 <= y < h,
                    0 <= x <= w,
                    w == r.spec_width(),
                    h == r.spec_height(),
                    w * h <= 128,
                    g.wf(),
                    g.size == size,
                    size == (Rect { top: 0, left: 0, bottom: h, right: w }),
                    forall|p: Coord|
                        size.contains(p) ==> #[trigger] g.at(p) == if p.y < y || (p.y == y && p.x < x) {
                            cell_of(self.cell(size, p))
                        } else {
                            CACell::DEAD
                        },
                decreases w - x,
            {
                let ghost q = Coord { x, y };
                proof {
                    lemma_index_bounds(size, q);
                    assert(y * w + x < 128) by (nonlinear_arith)
                        requires
                            0 <= y < h,
                            0 <= x < w,
                            w * h <= 128,
                    ;
                }
                let alive = (self.0 >> ((y * w + x) as u128)) & 1 == 1;
                let ghost before = g;
                *g.get_mut(Coord { x, y }) = if alive {
                    CACell::ALIVE
                } else {
                    CACell::DEAD
                };
                proof {
                    assert(cell_index(size, q) == y * w + x);
                    assert forall|p: Coord| size.contains(p) implies #[trigger] g.at(p) == if p.y < y
                        || (p.y == y && p.x < x + 1) {
                        cell_of(self.cell(size, p))
                    } else {
                        CACell::DEAD
                    } by {
                        if p != q {
                            lemma_index_bounds(size, p);
                            if cell_index(size, p) == cell_index(size, q) {
                                crate::basic_grids::lemma_index_injective(size, p, q);
                            }
                            assert(g.at(p) == before.at(p));
                        }
                    }
                }
                x = x + 1;
            }
            y = y + 1;
        }
        g
    }
}

/// The state other than `c`.
pub open spec fn other_cell(c: CACell) -> CACell {
    match c {
        CACell::ALIVE => CACell::DEAD,
        CACell::DEAD => CACell::ALIVE,
    }
}

/// Reorders a 3x3 neighbourhood (row by row from bit 0: NW, N, NE, W, C, E, SW, S, SE)
/// into the table order (C, N, NE, E, SE, S, SW, W, NW from bit 0 up).
pub open spec fn table_order(g: u32) -> u32 {
    (g & 0x046u32) | ((g & 0x0A0u32) >> 2u32) | ((g & 0x110u32) >> 4u32) | ((g & 0x008u32) << 4u32)
        | ((g & 0x001u32) << 8u32)
}

/// Slot of the transition from the neighbourhood `g` (its low nine bits) to `c`.
pub open spec fn lut_index(g: u32, c: CACell) -> int {
    table_order(g & 0x1ffu32) * 2 + cell_u8(c)
}

pub proof fn lemma_lut_index(g: u32, c: CACell)
    ensures
        0 <= lut_index(g, c) < 1024,
{
    let k = g & 0x1ffu32;
    assert(table_order(k) < 512) by (bit_vector)
        requires
            k == g & 0x1ffu32,
    ;
}

/// Different transitions sit in different slots.
pub proof fn lemma_lut_index_injective(g1: u32, c1: CACell, g2: u32, c2: CACell)
    requires
        g1 < 512,
        g2 < 512,
        lut_index(g1, c1) == lut_index(g2, c2),
    ensures
        g1 == g2,
        c1 == c2,
{
    assert(g1 & 0x1ffu32 == g1) by (bit_vector)
        requires
            g1 < 512,
    ;
    assert(g2 & 0x1ffu32 == g2) by (bit_vector)
        requires
            g2 < 512,
    ;
    assert(table_order(g1) == table_order(g2) ==> g1 == g2) by (bit_vector)
        requires
            g1 < 512,
            g2 < 512,
    ;
}

/// A slot holds the new state in its lowest bit and the old centre in the next, the
/// table's order putting the centre first.
pub proof fn law_lut_index_layout(g: u32, c: CACell)
    requires
        g < 512,
    ensures
        lut_index(g, c) % 2 == cell_u8(c) as int,
        (lut_index(g, c) / 2) % 2 == nb(g, 4) as int,
{
    assert(g & 0x1ffu32 == g) by (bit_vector)
        requires
            g < 512,
    ;
    let t = table_order(g);
    assert(t & 1u32 == (g >> 4u32) & 1u32) by (bit_vector)
        requires
            t == (g & 0x046u32) | ((g & 0x0A0u32) >> 2u32) | ((g & 0x110u32) >> 4u32) | ((g & 0x008u32) << 4u32) | ((g
                & 0x001u32) << 8u32),
    ;
    assert(t & 1u32 == t % 2) by (bit_vector);
    assert((t * 2 + cell_u8(c)) % 2 == cell_u8(c)) by (nonlinear_arith)
        requires
            0 <= cell_u8(c) <= 1,
    ;
    assert(((t * 2 + cell_u8(c)) / 2) % 2 == t % 2) by (nonlinear_arith)
        requires
            0 <= cell_u8(c) <= 1,
            t >= 0,
    ;
}

/// The slot only depends on the low nine bits.
pub proof fn lemma_lut_index_low_bits(g: u32, c: CACell)
    ensures
        lut_index(g, c) == lut_index(g & 0x1ffu32, c),
        (g & 0x1ffu32) < 512,
{
    assert((g & 0x1ffu32) & 0x1ffu32 == g & 0x1ffu32) by (bit_vector);
    assert((g & 0x1ffu32) < 512) by (bit_vector);
}

/// One transition read from a rule table: the neighbourhood `gen0` may turn its
/// centre into `gen1`, at cost `score`.
#[derive(Debug, Clone, Copy, PartialEq, Eq, Structural)]
pub struct CfgEntry {
    pub gen0: u32,
    pub gen1: CACell,
    pub score: i32,
}

/// Why a rule table was rejected (line numbers start at 1).
#[derive(Debug, Clone, Copy, PartialEq, Eq, Structural)]
pub enum CfgError {
    /// The line does not split into exactly two parts at `=`.
    MissingScoreSeparator(usize),
    /// The text after `=` is not an `i32`.
    InvalidScore(usize),
    /// A state is not an integer in `0..=255`.
    InvalidState(usize),
    /// The line holds the given number of states, not ten.
    WrongStateCount(usize, usize),
}

/// The neighbourhood of a table line `C,N,NE,E,SE,S,SW,W,NW,C'`, each state shifted to
/// the bit of its cell in the 3x3 window (row by row: NW=0, N=1, NE=2, W=3, C=4, E=5,
/// SW=6, S=7, SE=8) and the results or-ed.
pub open spec fn states_gen0(st: Seq<int>) -> u32 {
    ((st[4] as u32) << 8u32) | ((st[5] as u32) << 7u32) | ((st[6] as u32) << 6u32) | ((
    st[3] as u32) << 5u32) | ((st[0] as u32) << 4u32) | ((st[7] as u32) << 3u32) | ((
    st[2] as u32) << 2u32) | ((st[1] as u32) << 1u32) | (st[8] as u32)
}

/// The parsed states of a table line.
pub open spec fn states_of(parts: Seq<Seq<char>>) -> Seq<int> {
    Seq::new(parts.len(), |k: int| parse_int(trim(parts[k]), false, 0, 255)->Some_0)
}

/// One line of a rule table: blank lines are skipped, the others read
/// `C,N,NE,E,SE,S,SW,W,NW,C'=score`.
pub open spec fn parse_cfg_line(line: Seq<char>, line_no: int) -> Result<Option<CfgEntry>, CfgError> {
    let t = trim(line);
    if t.len() == 0 {
        Ok(None)
    } else {
        let parts = split(t, '=');
        if parts.len() != 2 {
            Err(CfgError::MissingScoreSeparator(line_no as usize))
        } else {
            match parse_int(trim(parts[1]), true, i32::MIN as int, i32::MAX as int) {
                None => Err(CfgError::InvalidScore(line_no as usize)),
                Some(score) => {
                    let sts = split(parts[0], ',');
                    if exists|k: int|
                        0 <= k < sts.len() && #[trigger] parse_int(trim(sts[k]), false, 0, 255) is None {
                        Err(CfgError::InvalidState(line_no as usize))
                    } else if sts.len() != 10 {
                        Err(CfgError::WrongStateCount(line_no as usize, sts.len() as usize))
                    } else {
                        let st = states_of(sts);
                        Ok(
                            Some(
                                CfgEntry {
                                    gen0: states_gen0(st),
                                    gen1: if st[9] == 1 {
                                        CACell::ALIVE
                                    } else {
                                        CACell::DEAD
                                    },
                                    score: score as i32,
                                },
                            ),
                        )
                    }
                },
            }
        }
    }
}

/// The entries of the first `k` lines, or the first error among them.
pub open spec fn parse_cfg_lines(ls: Seq<Seq<char>>, k: int) -> Result<Seq<CfgEntry>, CfgError>
    decreases k,
{
    if k <= 0 {
        Ok(Seq::empty())
    } else {
        match parse_cfg_lines(ls, k - 1) {
            Err(e) => Err(e),
            Ok(es) => match parse_cfg_line(ls[k - 1], k) {
                Err(e) => Err(e),
                Ok(None) => Ok(es),
                Ok(Some(en)) => Ok(es.push(en)),
            },
        }
    }
}

/// The entries of a whole rule table, or the first error.
pub open spec fn parse_cfg_text(s: Seq<char>) -> Result<Seq<CfgEntry>, CfgError> {
    parse_cfg_lines(lines(s), lines(s).len() as int)
}

/// Some entry turns `g` into `c`.
pub open spec fn has_entry(es: Seq<CfgEntry>, g: u32, c: CACell) -> bool {
    exists|i: int| 0 <= i < es.len() && (es[i].gen0 & 0x1ffu32) == g && es[i].gen1 == c
}

/// Score of the last entry that turns `g` into `c`, or 0.
pub open spec fn last_score(es: Seq<CfgEntry>, g: u32, c: CACell) -> i32
    decreases es.len(),
{
    if es.len() == 0 {
        0
    } else if (es.last().gen0 & 0x1ffu32) == g && es.last().gen1 == c {
        es.last().score
    } else {
        last_score(es.drop_last(), g, c)
    }
}

/// A table of allowed transitions from 3x3 neighbourhoods to a centre state, each with a cost.
pub struct RuleLut {
    pub transition_allowed: Vec<bool>,
    pub transition_cost: Vec<i32>,
    pub weightage_grid: Option<Grid<i32>>,
}

impl RuleLut {
    pub open spec fn wf(self) -> bool {
        &&& self.transition_allowed@.len() == 1024
        &&& self.transition_cost@.len() == 1024
    }

    /// The neighbourhood `g` (its low nine bits) may turn its centre into `c`.
    pub open spec fn allowed(self, g: u32, c: CACell) -> bool {
        self.transition_allowed@[lut_index(g, c)]
    }

    /// The cost of turning the neighbourhood `g` into `c`.
    pub open spec fn cost(self, g: u32, c: CACell) -> i32 {
        self.transition_cost@[lut_index(g, c)]
    }

    /// The table holds exactly the transitions of `es`, each at the score of its last entry.
    pub open spec fn matches_entries(self, es: Seq<CfgEntry>) -> bool {
        &&& self.wf()
        &&& forall|g: u32, c: CACell|
            g < 512 ==> (#[trigger] self.allowed(g, c) <==> has_entry(es, g, c))
        &&& forall|g: u32, c: CACell| g < 512 ==> #[trigger] self.cost(g, c) == last_score(es, g, c)
    }

    fn get_idx(gen0: PackedCells, gen1: CACell) -> (r: usize)
        ensures
            r as int == lut_index((gen0.0 & 0x1ffu128) as u32, gen1),
            r < 1024,
    {
        let raw = gen0.0;
        let m = raw & 0x1ff;
        assert(m <= 0x1ff) by (bit_vector)
            requires
                m == raw & 0x1ffu128,
        ;
        let g = m as u32;
        proof {
            lemma_lut_index(g, gen1);
            assert(g & 0x1ffu32 == g) by (bit_vector)
                requires
                    g <= 0x1ff,
            ;
        }
        let p = (g & 0x046) | ((g & 0x0A0) >> 2) | ((g & 0x110) >> 4) | ((g & 0x008) << 4) | ((g
            & 0x001) << 8);
        (p * 2 + gen1.into_u8() as u32) as usize
    }

    #[verifier::rlimit(40)]
    /// Reads a rule table: one line `C,N,NE,E,SE,S,SW,W,NW,C'=score` per allowed transition.
    pub fn parse_cfg(cfg: &str) -> (r: Result<RuleLut, CfgError>)
        ensures
            match parse_cfg_text(cfg@) {
                Err(e) => r == Err::<RuleLut, CfgError>(e),
                Ok(es) => r matches Ok(lut) && lut.matches_entries(es) && lut.weightage_grid is None,
            },
    {
        let v = chars_of(cfg);
        let ls = line_bounds(&v);
        let ghost lsv = lines(v@);
        let mut transition_allowed: Vec<bool> = vec![false; 1024];
        let mut transition_cost: Vec<i32> = vec![0; 1024];
        let ghost mut es: Seq<CfgEntry> = Seq::empty();
        proof {
            assert(pieces(v@, ls@) == lsv);
            assert forall|g: u32, c: CACell| g < 512 implies (transition_allowed@[
                #[trigger] lut_index(g, c)] <==> has_entry(es, g, c)) && transition_cost@[lut_index(g, c)]
                == last_score(es, g, c) by {
                lemma_lut_index(g, c);
                assert(cloned(false, transition_allowed@[lut_index(g, c)]));
                assert(cloned(0i32, transition_cost@[lut_index(g, c)]));
            }
        }
        for k in 0..ls.len()
            invariant
                pieces(v@, ls@) == lsv,
                lsv == lines(cfg@),
                v@ == cfg@,
                forall|j: int| 0 <= j < ls@.len() ==> (#[trigger] ls@[j]).0 <= ls@[j].1 <= v@.len(),
                parse_cfg_lines(lsv, k as int) == Ok::<Seq<CfgEntry>, CfgError>(es),
                transition_allowed@.len() == 1024,
                transition_cost@.len() == 1024,
                forall|g: u32, c: CACell|
                    g < 512 ==> (transition_allowed@[#[trigger] lut_index(g, c)] <==> has_entry(es, g, c)),
                forall|g: u32, c: CACell|
                    g < 512 ==> transition_cost@[#[trigger] lut_index(g, c)] == last_score(es, g, c),
        {
            let (lo, hi) = ls[k];
            proof {
                assert(lsv[k as int] == v@.subrange(lo as int, hi as int));
            }
            match Self::parse_line(&v, lo, hi, k + 1) {
                Err(e) => {
                    proof {
                        lemma_parse_cfg_err_sticky(lsv, k + 1, lsv.len() as int);
                    }
                    return Err(e);
                },
                Ok(None) => {},
                Ok(Some(entry)) => {
                    let g = entry.gen0;
                    let idx = Self::get_idx(PackedCells(g as u128), entry.gen1);
                    let ghost key = (g & 0x1ffu32);
                    proof {
                        assert((g as u128) & 0x1ffu128 == (g & 0x1ffu32) as u128) by (bit_vector);
                        lemma_lut_index_low_bits(g, entry.gen1);
                    }
                    transition_allowed.set(idx, true);
                    transition_cost.set(idx, entry.score);
                    let ghost old_es = es;
                    proof {
                        es = es.push(entry);
                        assert(es.drop_last() =~= old_es);
                        assert forall|g2: u32, c: CACell| g2 < 512 implies (transition_allowed@[
                            #[trigger] lut_index(g2, c)] <==> has_entry(es, g2, c)) && transition_cost@[lut_index(g2, c)]
                            == last_score(es, g2, c) by {
                            lemma_lut_index(g2, c);
                            if lut_index(g2, c) == idx as int {
                                lemma_lut_index_injective(g2, c, key, entry.gen1);
                                assert(es[es.len() - 1] == entry);
                            } else {
                                if g2 == key && c == entry.gen1 {
                                    assert(lut_index(key, entry.gen1) == idx as int);
                                }
                                if has_entry(es, g2, c) {
                                    let i = choose|i: int|
                                        0 <= i < es.len() && (es[i].gen0 & 0x1ffu32) == g2 && es[i].gen1 == c;
                                    if i < old_es.len() {
                                        assert(old_es[i] == es[i]);
                                    }
                                }
                                if has_entry(old_es, g2, c) {
                                    let i = choose|i: int|
                                        0 <= i < old_es.len() && (old_es[i].gen0 & 0x1ffu32) == g2 && old_es[i].gen1 == c;
                                    assert(es[i] == old_es[i]);
                                }
                            }
                        }
                    }
                },
            }
        }
        proof {
            assert(parse_cfg_text(cfg@) == parse_cfg_lines(lsv, lsv.len() as int));
        }
        let lut = RuleLut { transition_allowed, transition_cost, weightage_grid: None };
        Ok(lut)
    }

    /// One line of a rule table, as `parse_cfg_line` states it.
    fn parse_line(v: &Vec<char>, lo: usize, hi: usize, line_no: usize) -> (r: Result<Option<CfgEntry>, CfgError>)
        requires
            lo <= hi <= v@.len(),
        ensures
            r == parse_cfg_line(v@.subrange(lo as int, hi as int), line_no as int),
    {
        let ghost line = v@.subrange(lo as int, hi as int);
        let (a, b) = trim_bounds(v, lo, hi);
        let ghost t = trim(line);
        if a == b {
            return Ok(None);
        }
        let parts = split_bounds(v, a, b, '=');
        proof {
            assert(pieces(v@, parts@) == split(t, '='));
        }
        if parts.len() != 2 {
            return Err(CfgError::MissingScoreSeparator(line_no));
        }
        let (p0a, p0b) = parts[0];
        let (p1a, p1b) = parts[1];
        proof {
            assert(split(t, '=')[0] == v@.subrange(p0a as int, p0b as int));
            assert(split(t, '=')[1] == v@.subrange(p1a as int, p1b as int));
        }
        let (sa, sb) = trim_bounds(v, p1a, p1b);
        let score = match parse_int_in(v, sa, sb, true, i32::MIN as i64, i32::MAX as i64) {
            None => {
                return Err(CfgError::InvalidScore(line_no));
            },
            Some(x) => x as i32,
        };
        proof {
            assert(v@.subrange(a as int, b as int) == t);
        }
        let sts = split_bounds(v, p0a, p0b, ',');
        let ghost stsv = split(split(t, '=')[0], ',');
        proof {
            assert(pieces(v@, sts@) == stsv);
        }
        let mut states: Vec<i64> = Vec::new();
        for k in 0..sts.len()
            invariant
                pieces(v@, sts@) == stsv,
                line == v@.subrange(lo as int, hi as int),
                t == trim(line),
                t.len() != 0,
                split(t, '=').len() == 2,
                parse_int(trim(split(t, '=')[1]), true, i32::MIN as int, i32::MAX as int) == Some(score as int),
                stsv == split(split(t, '=')[0], ','),
                forall|j: int| 0 <= j < sts@.len() ==> p0a <= (#[trigger] sts@[j]).0 <= sts@[j].1 <= p0b,
                p0b <= v@.len(),
                states@.len() == k,
                forall|j: int|
                    #![trigger stsv[j]]
                    0 <= j < k ==> parse_int(trim(stsv[j]), false, 0, 255) == Some(states@[j] as int),
        {
            let (qa, qb) = sts[k];
            proof {
                assert(stsv[k as int] == v@.subrange(qa as int, qb as int));
            }
            let (ta, tb) = trim_bounds(v, qa, qb);
            match parse_int_in(v, ta, tb, false, 0, 255) {
                None => {
                    proof {
                        assert(parse_int(trim(stsv[k as int]), false, 0, 255) is None);
                        assert(exists|j: int|
                            0 <= j < stsv.len() && #[trigger] parse_int(trim(stsv[j]), false, 0, 255) is None);
                    }
                    return Err(CfgError::InvalidState(line_no));
                },
                Some(x) => {
                    states.push(x);
                },
            }
        }
        proof {
            assert forall|j: int| 0 <= j < stsv.len() implies !(#[trigger] parse_int(trim(stsv[j]), false, 0, 255) is None) by {
                assert(parse_int(trim(stsv[j]), false, 0, 255) == Some(states@[j] as int));
            }
        }
        if sts.len() != 10 {
            return Err(CfgError::WrongStateCount(line_no, sts.len()));
        }
        let ghost st = states_of(stsv);
        proof {
            assert forall|j: int| 0 <= j < 10 implies st[j] == states@[j] as int && 0 <= st[j] <= 255 by {
                assert(parse_int(trim(stsv[j]), false, 0, 255) == Some(states@[j] as int));
            }
        }
        let gen0: u32 = ((states[4] as u32) << 8) | ((states[5] as u32) << 7) | ((states[6] as u32)
            << 6) | ((states[3] as u32) << 5) | ((states[0] as u32) << 4) | ((states[7] as u32) << 3)
            | ((states[2] as u32) << 2) | ((states[1] as u32) << 1) | (states[8] as u32);
        let gen1 = if states[9] == 1 {
            CACell::ALIVE
        } else {
            CACell::DEAD
        };
        proof {
            assert(gen0 == states_gen0(st));
        }
        Ok(Some(CfgEntry { gen0, gen1, score }))
    }
}

/// The centre of the neighbourhood agrees with `gen0` (if given).
pub open spec fn center_matches(x: (PackedCells, i32), gen0: Option<CACell>) -> bool {
    match gen0 {
        None => true,
        Some(c) => bit(x.0.0, 4) == (c == CACell::ALIVE),
    }
}

/// The pieces of `s` whose centre agrees with `gen0`, in order.
pub open spec fn keep_center(s: Seq<(PackedCells, i32)>, gen0: Option<CACell>) -> Seq<(PackedCells, i32)>
    decreases s.len(),
{
    if s.len() == 0 {
        s
    } else if center_matches(s.last(), gen0) {
        keep_center(s.drop_last(), gen0).push(s.last())
    } else {
        keep_center(s.drop_last(), gen0)
    }
}

/// A rule string was rejected.
#[derive(Debug, Clone, Copy, PartialEq, Eq, Structural)]
pub enum RulePart {
    Birth,
    Survival,
}

/// Why a `B.../S...` rule string was rejected.
#[derive(Debug, Clone, Copy, PartialEq, Eq, Structural)]
pub enum RuleError {
    /// The (upper-cased) rule does not start with `B`.
    MissingBirthMarker,
    /// The rule holds no `S`.
    MissingSurvivalMarker,
    /// A `B` or `S` follows the first `S`.
    RepeatedMarker,
    /// A character that is not a decimal digit.
    InvalidCharacter(char, RulePart),
    /// A digit above 8.
    DigitOutOfRange(u32, RulePart),
    /// A digit given twice.
    DuplicateDigit(u32, RulePart),
}

/// `str::to_uppercase`, character by character.
pub uninterp spec fn uppercase(s: Seq<char>) -> Seq<char>;

/// Calls `str::to_uppercase`; the result is named `uppercase`.
#[verifier::external_body]
fn uppercase_chars(s: &str) -> (r: Vec<char>)
    ensures
        r@ == uppercase(s@),
{
    s.to_uppercase().chars().collect()
}

/// The digits of the first `k` characters of one part of a rule, or the first error.
pub open spec fn parse_digit_set(part: Seq<char>, which: RulePart, k: int) -> Result<Set<int>, RuleError>
    decreases k,
{
    if k <= 0 {
        Ok(Set::empty())
    } else {
        match parse_digit_set(part, which, k - 1) {
            Err(e) => Err(e),
            Ok(set) => {
                let c = part[k - 1];
                if !is_digit(c) {
                    Err(RuleError::InvalidCharacter(c, which))
                } else if digit_value(c) > 8 {
                    Err(RuleError::DigitOutOfRange(digit_value(c) as u32, which))
                } else if set.contains(digit_value(c)) {
                    Err(RuleError::DuplicateDigit(digit_value(c) as u32, which))
                } else {
                    Ok(set.insert(digit_value(c)))
                }
            },
        }
    }
}

/// The birth and survival neighbour counts of an upper-cased rule `B<digits>S<digits>`,
/// or the first error.
pub open spec fn parse_rule_text(u: Seq<char>) -> Result<(Set<int>, Set<int>), RuleError> {
    if u.len() == 0 || u[0] != 'B' {
        Err(RuleError::MissingBirthMarker)
    } else {
        let i = find_char(u, 'S');
        if i < 0 {
            Err(RuleError::MissingSurvivalMarker)
        } else {
            let b = u.subrange(1, i);
            let s = u.skip(i + 1);
            if has_char(s, 'S') || has_char(s, 'B') {
                Err(RuleError::RepeatedMarker)
            } else {
                match parse_digit_set(b, RulePart::Birth, b.len() as int) {
                    Err(e) => Err(e),
                    Ok(born) => match parse_digit_set(s, RulePart::Survival, s.len() as int) {
                        Err(e) => Err(e),
                        Ok(surv) => Ok((born, surv)),
                    },
                }
            }
        }
    }
}

/// Bit `k` of a neighbourhood, as 0 or 1.
pub open spec fn nb(g: u32, k: u32) -> u32 {
    (g >> k) & 1u32
}

/// `g` with its nine low bits in reverse order: the 3x3 window turned half a turn.
pub open spec fn reversed_window(g: u32) -> u32 {
    (nb(g, 0) << 8u32) | (nb(g, 1) << 7u32) | (nb(g, 2) << 6u32) | (nb(g, 3) << 5u32) | (nb(g, 4) << 4u32)
        | (nb(g, 5) << 3u32) | (nb(g, 6) << 2u32) | (nb(g, 7) << 1u32) | nb(g, 8)
}

/// Live neighbours of the centre of `g`.
pub open spec fn neighbour_count(g: u32) -> u32 {
    (nb(g, 7) + nb(g, 6) + nb(g, 3) + nb(g, 0) + nb(g, 1) + nb(g, 2) + nb(g, 5) + nb(g, 8)) as u32
}

/// The next centre state of `g` under the rule `B<born>/S<surv>`, as 0 or 1.
pub open spec fn life_next(g: u32, born: Set<int>, surv: Set<int>) -> u32 {
    if nb(g, 4) == 1 {
        if surv.contains(neighbour_count(g) as int) {
            1
        } else {
            0
        }
    } else {
        if born.contains(neighbour_count(g) as int) {
            1
        } else {
            0
        }
    }
}

pub open spec fn bit_char(b: u32) -> char {
    if b == 1 {
        '1'
    } else {
        '0'
    }
}

/// The table line for the value `g`: `C,N,NE,E,SE,S,SW,W,NW,C'=C`, each field the bit of `g`
/// that names it (SE bit 0, S bit 1, SW bit 2, E bit 3, C bit 4, W bit 5, NE bit 6, N bit 7,
/// NW bit 8), `C'` the centre's next state under the rule.
pub open spec fn cfg_line_text(g: u32, born: Set<int>, surv: Set<int>) -> Seq<char> {
    seq![
        bit_char(nb(g, 4)), ',', bit_char(nb(g, 7)), ',', bit_char(nb(g, 6)), ',',
        bit_char(nb(g, 3)), ',', bit_char(nb(g, 0)), ',', bit_char(nb(g, 1)), ',',
        bit_char(nb(g, 2)), ',', bit_char(nb(g, 5)), ',', bit_char(nb(g, 8)), ',',
        bit_char(life_next(g, born, surv)), '=', bit_char(nb(g, 4)), '\n'
    ]
}

/// The table lines for the neighbourhoods `0..n`.
pub open spec fn cfg_text(n: int, born: Set<int>, surv: Set<int>) -> Seq<char>
    decreases n,
{
    if n <= 0 {
        Seq::empty()
    } else {
        cfg_text(n - 1, born, surv) + cfg_line_text((n - 1) as u32, born, surv)
    }
}

impl RuleLut {
    /// `transition_allowed`/`transition_cost` lookups for `evolve`.
    pub open spec fn spec_evolve(self, g: u32) -> Option<CACell> {
        let a = self.allowed(g, CACell::ALIVE);
        let d = self.allowed(g, CACell::DEAD);
        if a != d {
            Some(
                if a {
                    CACell::ALIVE
                } else {
                    CACell::DEAD
                },
            )
        } else {
            None
        }
    }

    /// The next state of the centre of `gen0`, where the table allows exactly one.
    pub fn evolve(&self, gen0: PackedCells) -> (r: Option<CACell>)
        requires
            self.wf(),
        ensures
            r == self.spec_evolve((gen0.0 & 0x1ffu128) as u32),
    {
        let ia = Self::get_idx(gen0, CACell::ALIVE);
        let id = Self::get_idx(gen0, CACell::DEAD);
        if self.transition_allowed[ia] != self.transition_allowed[id] {
            Some(
                if self.transition_allowed[ia] {
                    CACell::ALIVE
                } else {
                    CACell::DEAD
                },
            )
        } else {
            None
        }
    }

    /// The multiplier that `weightage_grid` gives to costs at `p` (1 without a grid).
    pub open spec fn weight_at(self, p: Coord) -> int {
        match self.weightage_grid {
            Some(g) => g.at(p) as int,
            None => 1,
        }
    }

    /// The allowed transitions into `gen1` from the neighbourhoods `0..n`, with costs
    /// multiplied by `wt`.
    pub open spec fn pieces_upto(self, gen1: CACell, wt: int, n: int) -> Seq<(PackedCells, i32)>
        decreases n,
    {
        if n <= 0 {
            Seq::empty()
        } else {
            let prev = self.pieces_upto(gen1, wt, n - 1);
            if self.allowed((n - 1) as u32, gen1) {
                prev.push((PackedCells((n - 1) as u128), (self.cost((n - 1) as u32, gen1) * wt) as i32))
            } else {
                prev
            }
        }
    }

    /// Some piece of `s` is the neighbourhood `g`.
    pub open spec fn lists_piece(s: Seq<(PackedCells, i32)>, g: u32) -> bool {
        exists|k: int| 0 <= k < s.len() && (#[trigger] s[k]).0.0 == g as u128
    }

    /// The pieces into `gen1` among the first `n` neighbourhoods are those the table
    /// allows.
    pub proof fn lemma_pieces_listed(self, gen1: CACell, wt: int, n: int, g: u32)
        requires
            0 <= g < n <= 512,
        ensures
            Self::lists_piece(self.pieces_upto(gen1, wt, n), g) <==> self.allowed(g, gen1),
        decreases n,
    {
        let prev = self.pieces_upto(gen1, wt, n - 1);
        let cur = self.pieces_upto(gen1, wt, n);
        assert forall|k: int| 0 <= k < prev.len() implies (#[trigger] prev[k]).0.0 < n - 1 by {
            self.lemma_pieces_below(gen1, wt, n - 1, k);
        }
        if g < n - 1 {
            self.lemma_pieces_listed(gen1, wt, n - 1, g);
            if Self::lists_piece(cur, g) {
                let k = choose|k: int| 0 <= k < cur.len() && (#[trigger] cur[k]).0.0 == g as u128;
                if k < prev.len() {
                    assert(cur[k] == prev[k]);
                    assert(Self::lists_piece(prev, g));
                } else {
                    assert(cur[k].0.0 == (n - 1) as u128);
                }
            }
            if Self::lists_piece(prev, g) {
                let k = choose|k: int| 0 <= k < prev.len() && (#[trigger] prev[k]).0.0 == g as u128;
                assert(cur[k] == prev[k]);
            }
        } else {
            if self.allowed(g, gen1) {
                assert(cur[prev.len() as int].0.0 == g as u128);
            }
            if Self::lists_piece(cur, g) {
                let k = choose|k: int| 0 <= k < cur.len() && (#[trigger] cur[k]).0.0 == g as u128;
                if k < prev.len() {
                    assert(cur[k] == prev[k]);
                    assert(prev[k].0.0 < n - 1);
                } else {
                    assert(self.allowed(g, gen1));
                }
            }
        }
    }

    /// The pieces among the first `n` neighbourhoods are below `n`.
    proof fn lemma_pieces_below(self, gen1: CACell, wt: int, n: int, k: int)
        requires
            0 <= k < self.pieces_upto(gen1, wt, n).len(),
            n <= 512,
        ensures
            0 <= self.pieces_upto(gen1, wt, n)[k].0.0 < n,
        decreases n,
    {
        let prev = self.pieces_upto(gen1, wt, n - 1);
        if k < prev.len() {
            self.lemma_pieces_below(gen1, wt, n - 1, k);
        }
    }

    /// `evolve` gives `c` exactly when the pieces into `c` hold the neighbourhood and the
    /// pieces into the other state do not; it gives `None` exactly when both or neither
    /// hold it.
    pub proof fn law_evolve_pieces(self, g: u32, c: CACell, wt: int)
        requires
            g < 512,
        ensures
            self.spec_evolve(g) == Some(c) <==> Self::lists_piece(self.pieces_upto(c, wt, 512), g) && !Self::lists_piece(
                self.pieces_upto(other_cell(c), wt, 512),
                g,
            ),
            self.spec_evolve(g) is None <==> (Self::lists_piece(self.pieces_upto(c, wt, 512), g) == Self::lists_piece(
                self.pieces_upto(other_cell(c), wt, 512),
                g,
            )),
    {
        self.lemma_pieces_listed(c, wt, 512, g);
        self.lemma_pieces_listed(other_cell(c), wt, 512, g);
    }

    /// Where every neighbourhood has exactly one next state, the pieces into the two
    /// states together number the neighbourhoods: 512 in all.
    pub proof fn law_pieces_partition(self, wt: int, n: int)
        requires
            0 <= n <= 512,
            forall|g: u32| g < 512 ==> #[trigger] self.spec_evolve(g) is Some,
        ensures
            self.pieces_upto(CACell::DEAD, wt, n).len() + self.pieces_upto(CACell::ALIVE, wt, n).len() == n,
        decreases n,
    {
        if n > 0 {
            self.law_pieces_partition(wt, n - 1);
            assert(self.spec_evolve((n - 1) as u32) is Some);
        }
    }

    /// Under a table where every allowed transition costs the old centre's state (as
    /// `cost_as_population_from_rule` builds), each piece scores its centre, 0 or 1.
    pub proof fn law_population_piece_scores(self, c: CACell, n: int, k: int)
        requires
            0 <= n <= 512,
            forall|g: u32| g < 512 && #[trigger] self.allowed(g, c) ==> self.cost(g, c) == nb(g, 4) as i32,
            0 <= k < self.pieces_upto(c, 1, n).len(),
        ensures
            self.pieces_upto(c, 1, n)[k].1 == nb(self.pieces_upto(c, 1, n)[k].0.0 as u32, 4) as i32,
        decreases n,
    {
        let prev = self.pieces_upto(c, 1, n - 1);
        if k < prev.len() {
            self.law_population_piece_scores(c, n - 1, k);
        } else {
            let g = (n - 1) as u32;
            assert(self.allowed(g, c));
            assert(nb(g, 4) <= 1) by (bit_vector)
                requires
                    true,
            ;
        }
    }

    /// `get_pieces` can look up the weight at `p` and no weighted cost overflows.
    pub open spec fn pieces_ok(self, gen1: CACell, p: Coord) -> bool {
        &&& self.wf()
        &&& (self.weightage_grid matches Some(g) ==> g.wf() && g.size.contains(p))
        &&& forall|g: u32|
            g < 512 && #[trigger] self.allowed(g, gen1) ==> i32::MIN <= self.cost(g, gen1) * self.weight_at(p)
                <= i32::MAX
    }

    fn weight(&self, p: Coord) -> (w: i32)
        requires
            self.weightage_grid matches Some(g) ==> g.wf() && g.size.contains(p),
        ensures
            w as int == self.weight_at(p),
    {
        match &self.weightage_grid {
            Some(g) => *g.get(p),
            None => 1,
        }
    }

    /// Every neighbourhood that may turn into `gen1`, with its cost weighted at `p`,
    /// in increasing order of the neighbourhood.
    pub fn get_pieces(&self, gen1: CACell, p: Coord) -> (r: Vec<(PackedCells, i32)>)
        requires
            self.pieces_ok(gen1, p),
        ensures
            r@ == self.pieces_upto(gen1, self.weight_at(p), 512),
    {
        let wt = self.weight(p);
        let mut out: Vec<(PackedCells, i32)> = Vec::new();
        let mut g: u32 = 0;
        while g < 512
            invariant
                g <= 512,
                self.pieces_ok(gen1, p),
                wt as int == self.weight_at(p),
                out@ == self.pieces_upto(gen1, wt as int, g as int),
            decreases 512 - g,
        {
            let i = Self::get_idx(PackedCells(g as u128), gen1);
            proof {
                assert((g as u128) & 0x1ffu128 == g as u128) by (bit_vector)
                    requires
                        g < 512,
                ;
            }
            if self.transition_allowed[i] {
                proof {
                    assert(self.allowed(g, gen1));
                }
                out.push((PackedCells(g as u128), self.transition_cost[i] * wt));
            }
            g = g + 1;
        }
        out
    }

    /// The pieces into `gen1` (both states when it is `None`) whose centre matches `gen0`.
    pub fn filter_pieces(&self, gen0: Option<CACell>, gen1: Option<CACell>, p: Coord) -> (r: Vec<
        (PackedCells, i32),
    >)
        requires
            gen1 != Some(CACell::ALIVE) ==> self.pieces_ok(CACell::DEAD, p),
            gen1 != Some(CACell::DEAD) ==> self.pieces_ok(CACell::ALIVE, p),
        ensures
            r@ == keep_center(
                (if gen1 != Some(CACell::ALIVE) {
                    self.pieces_upto(CACell::DEAD, self.weight_at(p), 512)
                } else {
                    Seq::empty()
                }) + (if gen1 != Some(CACell::DEAD) {
                    self.pieces_upto(CACell::ALIVE, self.weight_at(p), 512)
                } else {
                    Seq::empty()
                }),
                gen0,
            ),
    {
        let mut all: Vec<(PackedCells, i32)> = Vec::new();
        if gen1 != Some(CACell::ALIVE) {
            let mut d = self.get_pieces(CACell::DEAD, p);
            all.append(&mut d);
        }
        if gen1 != Some(CACell::DEAD) {
            let mut a = self.get_pieces(CACell::ALIVE, p);
            all.append(&mut a);
        }
        let ghost whole = all@;
        let mut out: Vec<(PackedCells, i32)> = Vec::new();
        for i in 0..all.len()
            invariant
                whole == all@,
                out@ == keep_center(whole.take(i as int), gen0),
        {
            let x = all[i];
            let raw = x.0.0;
            let c4 = ((raw >> 4u128) & 1) as u8;
            proof {
                assert(whole.take(i + 1).drop_last() =~= whole.take(i as int));
                assert(((raw >> 4u128) & 1u128) == 1u128 || ((raw >> 4u128) & 1u128) == 0u128) by (bit_vector);
            }
            let keep = match gen0 {
                None => true,
                Some(c) => c4 == c.into_u8(),
            };
            if keep {
                out.push(x);
            }
        }
        proof {
            assert(whole.take(whole.len() as int) =~= whole);
        }
        out
    }
}

/// Reads the digits `u[lo..hi]` of one part of a rule into a table of nine flags.
fn parse_part(u: &Vec<char>, lo: usize, hi: usize, which: RulePart) -> (r: Result<Vec<bool>, RuleError>)
    requires
        lo <= hi <= u@.len(),
    ensures
        match parse_digit_set(u@.subrange(lo as int, hi as int), which, hi - lo) {
            Err(e) => r == Err::<Vec<bool>, RuleError>(e),
            Ok(set) => r matches Ok(req) && req@.len() == 9 && (forall|d: int|
                0 <= d < 9 ==> req@[d] == set.contains(d)) && (forall|d: int| set.contains(d) ==> 0 <= d < 9),
        },
{
    let ghost part = u@.subrange(lo as int, hi as int);
    let mut req: Vec<bool> = vec![false; 9];
    let ghost mut set: Set<int> = Set::empty();
    proof {
        assert forall|d: int| 0 <= d < 9 implies req@[d] == set.contains(d) by {
            assert(cloned(false, req@[d]));
        }
    }
    let mut k = lo;
    while k < hi
        invariant
            lo <= k <= hi <= u@.len(),
            part == u@.subrange(lo as int, hi as int),
            parse_digit_set(part, which, k - lo) == Ok::<Set<int>, RuleError>(set),
            req@.len() == 9,
            forall|d: int| 0 <= d < 9 ==> req@[d] == set.contains(d),
            forall|d: int| set.contains(d) ==> 0 <= d < 9,
        decreases hi - k,
    {
        let c = u[k];
        proof {
            assert(part[k - lo] == c);
        }
        if !(c >= '0' && c <= '9') {
            proof {
                lemma_digit_set_err_sticky(part, which, k - lo + 1, hi - lo);
            }
            return Err(RuleError::InvalidCharacter(c, which));
        }
        let digit = c as u32 - '0' as u32;
        if digit > 8 {
            proof {
                lemma_digit_set_err_sticky(part, which, k - lo + 1, hi - lo);
            }
            return Err(RuleError::DigitOutOfRange(digit, which));
        }
        if req[digit as usize] {
            proof {
                lemma_digit_set_err_sticky(part, which, k - lo + 1, hi - lo);
            }
            return Err(RuleError::DuplicateDigit(digit, which));
        }
        req.set(digit as usize, true);
        proof {
            set = set.insert(digit as int);
        }
        k = k + 1;
    }
    Ok(req)
}

proof fn lemma_digit_set_err_sticky(part: Seq<char>, which: RulePart, k: int, n: int)
    requires
        0 <= k <= n,
        parse_digit_set(part, which, k) is Err,
    ensures
        parse_digit_set(part, which, n) == parse_digit_set(part, which, k),
    decreases n - k,
{
    if k < n {
        lemma_digit_set_err_sticky(part, which, k + 1, n);
    }
}

/// The rule `rule_str` (any case) as tables of the birth and survival neighbour counts.
pub fn parse_rule(rule_str: &str) -> (r: Result<(Vec<bool>, Vec<bool>), RuleError>)
    ensures
        match parse_rule_text(uppercase(rule_str@)) {
            Err(e) => r == Err::<(Vec<bool>, Vec<bool>), RuleError>(e),
            Ok((born, surv)) => r matches Ok((b, s)) && b@.len() == 9 && s@.len() == 9 && (forall|d: int|
                0 <= d < 9 ==> b@[d] == born.contains(d) && s@[d] == surv.contains(d)),
        },
{
    let u = uppercase_chars(rule_str);
    let n = u.len();
    if n == 0 || u[0] != 'B' {
        return Err(RuleError::MissingBirthMarker);
    }
    let i = find_in(&u, 0, n, 'S');
    proof {
        assert(u@.subrange(0, n as int) =~= u@);
    }
    if i == n {
        return Err(RuleError::MissingSurvivalMarker);
    }
    proof {
        assert(u@.skip(i + 1) =~= u@.subrange(i + 1, n as int));
    }
    if find_in(&u, i + 1, n, 'S') < n || find_in(&u, i + 1, n, 'B') < n {
        return Err(RuleError::RepeatedMarker);
    }
    let b_req = match parse_part(&u, 1, i, RulePart::Birth) {
        Err(e) => {
            return Err(e);
        },
        Ok(x) => x,
    };
    let s_req = match parse_part(&u, i + 1, n, RulePart::Survival) {
        Err(e) => {
            return Err(e);
        },
        Ok(x) => x,
    };
    Ok((b_req, s_req))
}

proof fn lemma_nb_bit(g: u32, k: u32)
    requires
        k < 32,
    ensures
        nb(g, k) == 0 || nb(g, k) == 1,
{
    assert(((g >> k) & 1u32) == 0u32 || ((g >> k) & 1u32) == 1u32) by (bit_vector);
}

fn bit_char_of(b: u32) -> (c: char)
    ensures
        c == bit_char(b),
{
    if b == 1 {
        '1'
    } else {
        '0'
    }
}

/// Appends the table line for `g` under the rule given by the flag tables.
fn push_cfg_line(out: &mut String, g: u32, b_req: &Vec<bool>, s_req: &Vec<bool>, Ghost(born): Ghost<Set<int>>, Ghost(surv): Ghost<Set<int>>)
    requires
        g < 512,
        b_req@.len() == 9,
        s_req@.len() == 9,
        forall|d: int| 0 <= d < 9 ==> b_req@[d] == born.contains(d) && s_req@[d] == surv.contains(d),
    ensures
        final(out)@ == old(out)@ + cfg_line_text(g, born, surv),
{
    let se = (g >> 0) & 1;
    let s = (g >> 1) & 1;
    let sw = (g >> 2) & 1;
    let e = (g >> 3) & 1;
    let c = (g >> 4) & 1;
    let w = (g >> 5) & 1;
    let ne = (g >> 6) & 1;
    let n = (g >> 7) & 1;
    let nw = (g >> 8) & 1;
    proof {
        lemma_nb_bit(g, 0);
        lemma_nb_bit(g, 1);
        lemma_nb_bit(g, 2);
        lemma_nb_bit(g, 3);
        lemma_nb_bit(g, 4);
        lemma_nb_bit(g, 5);
        lemma_nb_bit(g, 6);
        lemma_nb_bit(g, 7);
        lemma_nb_bit(g, 8);
    }
    let neighbors = n + ne + e + se + s + sw + w + nw;
    let c_prime: u32 = if c == 1 {
        if s_req[neighbors as usize] {
            1
        } else {
            0
        }
    } else {
        if b_req[neighbors as usize] {
            1
        } else {
            0
        }
    };
    let line: Vec<char> = vec![
        bit_char_of(c), ',', bit_char_of(n), ',', bit_char_of(ne), ',', bit_char_of(e), ',',
        bit_char_of(se), ',', bit_char_of(s), ',', bit_char_of(sw), ',', bit_char_of(w), ',',
        bit_char_of(nw), ',', bit_char_of(c_prime), '=', bit_char_of(c), '\n'
    ];
    proof {
        assert(c_prime == life_next(g, born, surv));
        assert(line@ =~= cfg_line_text(g, born, surv));
    }
    push_chars(out, &line);
}

impl RuleLut {
    /// The rule table of the outer-totalistic rule `rule_str` (`B<digits>S<digits>`, any case),
    /// each transition at a cost of 1 when the old centre is alive and 0 otherwise: one
    /// line for each value `0..512` in turn, its fields read from the value's bits as
    /// `cfg_line_text` says.
    pub fn generate_count_pop_cfg(rule_str: &str) -> (r: String)
        requires
            parse_rule_text(uppercase(rule_str@)) is Ok,
        ensures
            r@ == cfg_text(512, parse_rule_text(uppercase(rule_str@))->Ok_0.0, parse_rule_text(uppercase(rule_str@))->Ok_0.1),
    {
        let ghost born = parse_rule_text(uppercase(rule_str@))->Ok_0.0;
        let ghost surv = parse_rule_text(uppercase(rule_str@))->Ok_0.1;
        let (b_req, s_req) = match parse_rule(rule_str) {
            Ok(x) => x,
            Err(_) => {
                proof {
                    assert(false);
                }
                (Vec::new(), Vec::new())
            },
        };
        let mut cfg = String::new();
        let mut g: u32 = 0;
        while g < 512
            invariant
                g <= 512,
                b_req@.len() == 9,
                s_req@.len() == 9,
                forall|d: int| 0 <= d < 9 ==> b_req@[d] == born.contains(d) && s_req@[d] == surv.contains(d),
                cfg@ == cfg_text(g as int, born, surv),
            decreases 512 - g,
        {
            push_cfg_line(&mut cfg, g, &b_req, &s_req, Ghost(born), Ghost(surv));
            g = g + 1;
        }
        cfg
    }

    /// Builds the table from a rule table text (see `parse_cfg`).
    pub fn from_cfg(cfg: &str) -> (r: RuleLut)
        requires
            parse_cfg_text(cfg@) is Ok,
        ensures
            r.matches_entries(parse_cfg_text(cfg@)->Ok_0),
            r.weightage_grid is None,
    {
        match Self::parse_cfg(cfg) {
            Ok(lut) => lut,
            Err(_) => {
                proof {
                    assert(false);
                }
                RuleLut { transition_allowed: Vec::new(), transition_cost: Vec::new(), weightage_grid: None }
            },
        }
    }
}

/// The state that the rule `B<born>/S<surv>` gives the centre of `g`.
pub open spec fn life_cell(g: u32, born: Set<int>, surv: Set<int>) -> CACell {
    if life_next(g, born, surv) == 1 {
        CACell::ALIVE
    } else {
        CACell::DEAD
    }
}

/// The neighbourhoods `0..n` that may turn into `gen1`.
pub open spec fn preds_upto(lut: RuleLut, gen1: CACell, n: int) -> Seq<PackedCells>
    decreases n,
{
    if n <= 0 {
        Seq::empty()
    } else if lut.allowed((n - 1) as u32, gen1) {
        preds_upto(lut, gen1, n - 1).push(PackedCells((n - 1) as u128))
    } else {
        preds_upto(lut, gen1, n - 1)
    }
}

/// The rule `B3S23` (Conway's Life) reads as birth on three neighbours and survival on
/// two or three.
pub proof fn law_b3s23_parses()
    ensures
        parse_rule_text(seq!['B', '3', 'S', '2', '3']) == Ok::<(Set<int>, Set<int>), RuleError>((set![3int], set![2int, 3int])),
{
    let u = seq!['B', '3', 'S', '2', '3'];
    assert(u.drop_first() =~= seq!['3', 'S', '2', '3']);
    assert(u.drop_first().drop_first() =~= seq!['S', '2', '3']);
    assert(find_char(seq!['S', '2', '3'], 'S') == 0);
    assert(find_char(seq!['3', 'S', '2', '3'], 'S') == 1);
    assert(find_char(u, 'S') == 2);
    let b = u.subrange(1, 2);
    let sv = u.skip(3);
    assert(b =~= seq!['3']);
    assert(sv =~= seq!['2', '3']);
    assert(!has_char(sv, 'S') && !has_char(sv, 'B'));
    assert(digit_value('3') == 3 && digit_value('2') == 2);
    assert(parse_digit_set(b, RulePart::Birth, 0) == Ok::<Set<int>, RuleError>(Set::empty()));
    assert(parse_digit_set(b, RulePart::Birth, 1) == Ok::<Set<int>, RuleError>(Set::<int>::empty().insert(3)));
    assert(parse_digit_set(sv, RulePart::Survival, 0) == Ok::<Set<int>, RuleError>(Set::empty()));
    assert(parse_digit_set(sv, RulePart::Survival, 1) == Ok::<Set<int>, RuleError>(Set::<int>::empty().insert(2)));
    assert(parse_digit_set(sv, RulePart::Survival, 2) == Ok::<Set<int>, RuleError>(Set::<int>::empty().insert(2).insert(3)));
    assert(Set::<int>::empty().insert(3) =~= set![3int]);
    assert(Set::<int>::empty().insert(2).insert(3) =~= set![2int, 3int]);
}

/// The neighbour counts written as the first `k` characters of a rule part: the values
/// of those digit characters.
pub open spec fn written_counts(part: Seq<char>, k: int) -> Set<int> {
    Set::new(|n: int| exists|i: int| 0 <= i < k && #[trigger] part[i] as int - '0' as int == n)
}

/// A rule part of distinct digits from `0` to `8` reads as exactly the counts written.
proof fn lemma_digit_part(part: Seq<char>, which: RulePart, k: int)
    requires
        0 <= k <= part.len(),
        forall|i: int| 0 <= i < part.len() ==> '0' <= #[trigger] part[i] <= '8',
        part.no_duplicates(),
    ensures
        parse_digit_set(part, which, k) == Ok::<Set<int>, RuleError>(written_counts(part, k)),
    decreases k,
{
    if k == 0 {
        assert(written_counts(part, 0) =~= Set::<int>::empty());
    } else {
        lemma_digit_part(part, which, k - 1);
        let c = part[k - 1];
        let v = c as int - '0' as int;
        assert(is_digit(c) && digit_value(c) == v && v <= 8);
        if written_counts(part, k - 1).contains(v) {
            let i = choose|i: int| 0 <= i < k - 1 && #[trigger] part[i] as int - '0' as int == v;
            assert(part[i] as int == c as int);
            assert(part[i] == c);
            assert(false);
        }
        assert(written_counts(part, k - 1).insert(v) =~= written_counts(part, k));
    }
}

/// A rule `B<digits>S<digits>` whose two parts each hold distinct digits from `0` to `8`
/// (8 being the most neighbours a cell has) parses, with exactly the digits written as
/// its birth and survival counts.
pub proof fn law_rule_counts_parse(bs: Seq<char>, ss: Seq<char>)
    requires
        forall|i: int| 0 <= i < bs.len() ==> '0' <= #[trigger] bs[i] <= '8',
        forall|i: int| 0 <= i < ss.len() ==> '0' <= #[trigger] ss[i] <= '8',
        bs.no_duplicates(),
        ss.no_duplicates(),
    ensures
        parse_rule_text(seq!['B'] + bs + seq!['S'] + ss) == Ok::<(Set<int>, Set<int>), RuleError>(
            (written_counts(bs, bs.len() as int), written_counts(ss, ss.len() as int)),
        ),
{
    let u = seq!['B'] + bs + seq!['S'] + ss;
    let i: int = bs.len() as int + 1;
    assert(u[i] == 'S');
    assert forall|j: int| 0 <= j < i implies u[j] != 'S' by {
        if j > 0 {
            assert(u[j] == bs[j - 1]);
        }
    }
    crate::rule_table::lemma_find_char_at(u, 'S', i);
    assert(u.subrange(1, i) =~= bs);
    assert(u.skip(i + 1) =~= ss);
    assert(!has_char(ss, 'S')) by {
        if has_char(ss, 'S') {
            let j = choose|j: int| 0 <= j < ss.len() && ss[j] == 'S';
            assert('0' <= ss[j] <= '8');
        }
    }
    assert(!has_char(ss, 'B')) by {
        if has_char(ss, 'B') {
            let j = choose|j: int| 0 <= j < ss.len() && ss[j] == 'B';
            assert('0' <= ss[j] <= '8');
        }
    }
    lemma_digit_part(bs, RulePart::Birth, bs.len() as int);
    lemma_digit_part(ss, RulePart::Survival, ss.len() as int);
}

/// Under the rule `B3S23`, a dead centre comes alive with exactly three live neighbours
/// and a live centre stays alive with two or three; every other neighbourhood leaves
/// the centre dead.
pub proof fn law_b3s23_transitions(lut: RuleLut, g: u32)
    requires
        g < 512,
        forall|h: u32| h < 512 ==> #[trigger] lut.spec_evolve(h) == Some(
            life_cell(
                h,
                parse_rule_text(seq!['B', '3', 'S', '2', '3'])->Ok_0.0,
                parse_rule_text(seq!['B', '3', 'S', '2', '3'])->Ok_0.1,
            ),
        ),
    ensures
        lut.spec_evolve(g) == Some(
            if nb(g, 4) == 1 {
                if neighbour_count(g) == 2 || neighbour_count(g) == 3 {
                    CACell::ALIVE
                } else {
                    CACell::DEAD
                }
            } else if neighbour_count(g) == 3 {
                CACell::ALIVE
            } else {
                CACell::DEAD
            },
        ),
{
    law_b3s23_parses();
    assert(lut.spec_evolve(g) == Some(life_cell(g, set![3int], set![2int, 3int])));
}

impl RuleLut {
    /// The table of `rule_str` read back from its generated text: every neighbourhood
    /// turns into exactly the state the rule gives it, at a cost of the old centre's state.
    pub fn cost_as_population_from_rule(rule_str: &str) -> (r: RuleLut)
        requires
            parse_rule_text(uppercase(rule_str@)) is Ok,
        ensures
            r.wf(),
            r.weightage_grid is None,
            ({
                let born = parse_rule_text(uppercase(rule_str@))->Ok_0.0;
                let surv = parse_rule_text(uppercase(rule_str@))->Ok_0.1;
                &&& forall|g: u32, c: CACell|
                    g < 512 ==> (#[trigger] r.allowed(g, c) <==> c == life_cell(g, born, surv))
                &&& forall|g: u32|
                    g < 512 ==> #[trigger] r.cost(g, life_cell(g, born, surv)) == nb(g, 4) as i32
                &&& forall|g: u32|
                    g < 512 ==> #[trigger] r.cost(g, other_cell(life_cell(g, born, surv))) == 0
                &&& forall|g: u32| g < 512 ==> #[trigger] r.spec_evolve(g) == Some(life_cell(g, born, surv))
            }),
    {
        let ghost born = parse_rule_text(uppercase(rule_str@))->Ok_0.0;
        let ghost surv = parse_rule_text(uppercase(rule_str@))->Ok_0.1;
        let cfg_string = Self::generate_count_pop_cfg(rule_str);
        proof {
            crate::rule_table::lemma_rule_table_parses(born, surv);
        }
        let r = Self::from_cfg(cfg_string.as_str());
        proof {
            let es = crate::rule_table::rule_entries(512, born, surv);
            assert forall|g: u32, c: CACell| g < 512 implies (#[trigger] r.allowed(g, c) <==> c == life_cell(g, born, surv)) by {
                crate::rule_table::lemma_rule_entries(g, c, born, surv);
            }
            assert forall|g: u32| g < 512 implies #[trigger] r.cost(g, life_cell(g, born, surv)) == nb(g, 4) as i32 by {
                crate::rule_table::lemma_rule_entries(g, CACell::DEAD, born, surv);
            }
            assert forall|g: u32| g < 512 implies #[trigger] r.cost(g, other_cell(life_cell(g, born, surv))) == 0 by {
                crate::rule_table::lemma_rule_entries(g, CACell::DEAD, born, surv);
            }
            assert forall|g: u32| g < 512 implies #[trigger] r.spec_evolve(g) == Some(life_cell(g, born, surv)) by {
                crate::rule_table::lemma_rule_entries(g, CACell::DEAD, born, surv);
                crate::rule_table::lemma_rule_entries(g, CACell::ALIVE, born, surv);
                assert(r.allowed(g, CACell::DEAD) <==> CACell::DEAD == life_cell(g, born, surv));
                assert(r.allowed(g, CACell::ALIVE) <==> CACell::ALIVE == life_cell(g, born, surv));
            }
        }
        r
    }

    /// `cost_as_population_from_rule`, or why the rule string was rejected.
    pub fn try_cost_as_population_from_rule(rule_str: &str) -> (r: Result<RuleLut, RuleError>)
        ensures
            match parse_rule_text(uppercase(rule_str@)) {
                Err(e) => r == Err::<RuleLut, RuleError>(e),
                Ok((born, surv)) => r matches Ok(lut) && lut.wf() && (forall|g: u32|
                    g < 512 ==> #[trigger] lut.spec_evolve(g) == Some(life_cell(g, born, surv))),
            },
    {
        match parse_rule(rule_str) {
            Err(e) => Err(e),
            Ok(_) => Ok(Self::cost_as_population_from_rule(rule_str)),
        }
    }

    /// `generate_count_pop_cfg`, or why the rule string was rejected.
    pub fn try_generate_count_pop_cfg(rule_str: &str) -> (r: Result<String, RuleError>)
        ensures
            match parse_rule_text(uppercase(rule_str@)) {
                Err(e) => r == Err::<String, RuleError>(e),
                Ok((born, surv)) => r matches Ok(t) && t@ == cfg_text(512, born, surv),
            },
    {
        match parse_rule(rule_str) {
            Err(e) => Err(e),
            Ok(_) => Ok(Self::generate_count_pop_cfg(rule_str)),
        }
    }

    /// Every neighbourhood that may turn into `gen1`, in increasing order.
    pub fn get_pred(&self, gen1: CACell) -> (r: Vec<PackedCells>)
        requires
            self.wf(),
        ensures
            r@ == preds_upto(*self, gen1, 512),
    {
        let mut out: Vec<PackedCells> = Vec::new();
        let mut g: u32 = 0;
        while g < 512
            invariant
                g <= 512,
                self.wf(),
                out@ == preds_upto(*self, gen1, g as int),
            decreases 512 - g,
        {
            let i = Self::get_idx(PackedCells(g as u128), gen1);
            proof {
                assert((g as u128) & 0x1ffu128 == g as u128) by (bit_vector)
                    requires
                        g < 512,
                ;
            }
            if self.transition_allowed[i] {
                out.push(PackedCells(g as u128));
            }
            g = g + 1;
        }
        out
    }

    /// The cost of the transition from `pred` to `gen1` (0 when `gen1` is unknown).
    pub fn get_score(&self, pred: &PackedCells, gen1: Option<CACell>) -> (r: i32)
        requires
            self.wf(),
        ensures
            r == match gen1 {
                Some(c) => self.cost((pred.0 & 0x1ffu128) as u32, c),
                None => 0,
            },
    {
        match gen1 {
            Some(c) => self.transition_cost[Self::get_idx(*pred, c)],
            None => 0,
        }
    }
}

proof fn lemma_parse_cfg_err_sticky(ls: Seq<Seq<char>>, k: int, n: int)
    requires
        0 <= k <= n,
        parse_cfg_lines(ls, k) is Err,
    ensures
        parse_cfg_lines(ls, n) == parse_cfg_lines(ls, k),
    decreases n - k,
{
    if k < n {
        lemma_parse_cfg_err_sticky(ls, k + 1, n);
    }
}

} // verus!
