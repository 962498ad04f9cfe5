//! Choices made between the searches of a deep search.
use vstd::prelude::*;
use crate::outside::{score_pair_le, select_nth_pairs};
use crate::scores::lemma_score_pairs;
use crate::basic_grids::{spec_rotate_90_cw, Coord, Direction, Grid, Rect};
use crate::ca::{cell_u8, CACell};
use crate::format::grown;

verus! {

/// Indices of `k` of the largest values: every value left out is at most every value
/// chosen. All indices, in order, when there are at most `k` values.
pub fn top_k_indices(values: &Vec<i32>, k: usize) -> (r: Vec<usize>)
    requires
        values@.len() <= k || k > 0,
    ensures
        values@.len() <= k ==> r@ == Seq::new(values@.len(), |i: int| i as usize),
        values@.len() > k ==> {
            &&& r@.len() == k
            &&& r@.no_duplicates()
            &&& forall|a: int| 0 <= a < k ==> #[trigger] r@[a] < values@.len()
            &&& forall|i: int, a: int|
                0 <= i < values@.len() && !r@.contains(i as usize) && 0 <= a < k ==> #[trigger] values@[i]
                    <= #[trigger] values@[r@[a] as int]
        },
{
    let n = values.len();
    if n <= k {
        let mut all: Vec<usize> = Vec::new();
        let mut i: usize = 0;
        while i < n
            invariant
                n == values@.len(),
                i <= n,
                all@ == Seq::new(i as nat, |j: int| j as usize),
            decreases n - i,
        {
            all.push(i);
            assert(all@ =~= Seq::new((i + 1) as nat, |j: int| j as usize));
            i = i + 1;
        }
        return all;
    }
    let mut pairs: Vec<(i32, usize)> = Vec::new();
    let mut i: usize = 0;
    while i < n
        invariant
            n == values@.len(),
            i <= n,
            pairs@.len() == i,
            forall|x: int| 0 <= x < i ==> #[trigger] pairs@[x] == (values@[x], x as usize),
        decreases n - i,
    {
        pairs.push((values[i], i));
        i = i + 1;
    }
    let ghost orig = pairs@;
    let pivot = n - k;
    select_nth_pairs(&mut pairs, pivot);
    proof {
        lemma_score_pairs(values@, orig, pairs@);
    }
    let ghost s = pairs@;
    let mut out: Vec<usize> = Vec::new();
    let mut p = pivot;
    while p < n
        invariant
            n == values@.len() == s.len(),
            pairs@ == s,
            pivot == n - k,
            0 < k < n,
            pivot <= p <= n,
            out@.len() == p - pivot,
            forall|q: int| 0 <= q < out@.len() ==> #[trigger] out@[q] == s[pivot + q].1,
        decreases n - p,
    {
        out.push(pairs[p].1);
        p = p + 1;
    }
    proof {
        assert forall|a: int, b: int| 0 <= a < b < out@.len() implies out@[a] != out@[b] by {
            assert(s[pivot + a] != s[pivot + b]);
            assert(s[pivot + a] == (values@[s[pivot + a].1 as int], s[pivot + a].1));
            assert(s[pivot + b] == (values@[s[pivot + b].1 as int], s[pivot + b].1));
        }
        assert forall|i: int, a: int|
            0 <= i < values@.len() && !out@.contains(i as usize) && 0 <= a < k implies #[trigger] values@[i]
                <= #[trigger] values@[out@[a] as int] by {
            assert(s.contains((values@[i], i as usize)));
            let q = choose|q: int| 0 <= q < s.len() && s[q] == (values@[i], i as usize);
            if q >= pivot {
                assert(out@[q - pivot] == i as usize);
                assert(out@.contains(i as usize));
            }
            assert(score_pair_le(s[q], s[pivot as int]));
            assert(score_pair_le(s[pivot as int], s[pivot + a]));
            assert(s[pivot + a] == (values@[s[pivot + a].1 as int], s[pivot + a].1));
        }
    }
    out
}

/// Where a deep search stands between two searches: generations still to find, the
/// candidate being tried, and how many border cells it gets, added one side at a time
/// going round clockwise from `start_side`.
#[derive(Debug, Clone, Copy, PartialEq, Eq, Structural)]
pub struct DeepState {
    pub gens_left: u32,
    pub input_num: usize,
    pub border_size: u32,
    pub start_side: Direction,
}

impl DeepState {
    /// Before the first search: the first candidate, no border, starting at the top.
    pub fn start(gens: u32) -> (r: DeepState)
        ensures
            r == (DeepState { gens_left: gens, input_num: 0, border_size: 0, start_side: Direction::Up }),
    {
        DeepState { gens_left: gens, input_num: 0, border_size: 0, start_side: Direction::Up }
    }

    /// After a search that found no predecessor: the next candidate; once all
    /// `n_candidates` have failed, the first again, with the start side turned a quarter
    /// clockwise and one more border cell when the side was `Left` or the border size a
    /// multiple of four.
    pub fn after_failure(self, n_candidates: usize) -> (r: DeepState)
        requires
            self.input_num < n_candidates,
            self.border_size < u32::MAX,
        ensures
            self.input_num + 1 < n_candidates ==> r == (DeepState { input_num: (self.input_num + 1) as usize, ..self }),
            self.input_num + 1 == n_candidates ==> r == (DeepState {
                gens_left: self.gens_left,
                input_num: 0,
                border_size: if self.start_side == Direction::Left || self.border_size % 4 == 0 {
                    (self.border_size + 1) as u32
                } else {
                    self.border_size
                },
                start_side: spec_rotate_90_cw(self.start_side),
            }),
    {
        let mut next = self;
        next.input_num = self.input_num + 1;
        if next.input_num == n_candidates {
            if self.start_side == Direction::Left || self.border_size % 4 == 0 {
                next.border_size = self.border_size + 1;
            }
            next.start_side = self.start_side.rotate_90_cw();
            next.input_num = 0;
        }
        next
    }

    /// After a search that found predecessors: one generation fewer, and the new
    /// candidates tried from the first, with no border, starting at the top.
    pub fn after_success(self) -> (r: DeepState)
        requires
            self.gens_left > 0,
        ensures
            r == (DeepState {
                gens_left: (self.gens_left - 1) as u32,
                input_num: 0,
                border_size: 0,
                start_side: Direction::Up,
            }),
    {
        DeepState { gens_left: self.gens_left - 1, input_num: 0, border_size: 0, start_side: Direction::Up }
    }
}

/// `r` grown by one cell on each of `n` sides in turn, going round clockwise from `d`.
pub open spec fn round_rect(r: Rect, n: nat, d: Direction) -> Rect
    decreases n,
{
    if n == 0 {
        r
    } else {
        round_rect(grown(r, 1, d), (n - 1) as nat, spec_rotate_90_cw(d))
    }
}

/// `g` with `n` dead border cells added one side at a time, going round clockwise from
/// `start`.
pub fn bordered_round(g: &Grid<CACell>, n: u32, start: Direction) -> (r: Grid<CACell>)
    requires
        g.wf(),
        g.size.top - n >= i32::MIN,
        g.size.left - n >= i32::MIN,
        g.size.bottom + n <= i32::MAX,
        g.size.right + n <= i32::MAX,
        (g.size.spec_width() + n) * (g.size.spec_height() + n) <= i32::MAX,
    ensures
        r.wf(),
        r.size == round_rect(g.size, n as nat, start),
        forall|p: Coord| #[trigger]
            r.size.contains(p) ==> r.at(p) == if g.size.contains(p) {
                g.at(p)
            } else {
                CACell::DEAD
            },
{
    let mut cur = g.with_border_direction(0, start);
    let mut dir = start;
    let mut j: u32 = 0;
    proof {
        assert(grown(g.size, 0, start) == g.size);
    }
    while j < n
        invariant
            g.wf(),
            cur.wf(),
            j <= n,
            g.size.top - n >= i32::MIN,
            g.size.left - n >= i32::MIN,
            g.size.bottom + n <= i32::MAX,
            g.size.right + n <= i32::MAX,
            (g.size.spec_width() + n) * (g.size.spec_height() + n) <= i32::MAX,
            round_rect(cur.size, (n - j) as nat, dir) == round_rect(g.size, n as nat, start),
            g.size.top - j <= cur.size.top <= g.size.top,
            g.size.left - j <= cur.size.left <= g.size.left,
            g.size.bottom <= cur.size.bottom <= g.size.bottom + j,
            g.size.right <= cur.size.right <= g.size.right + j,
            cur.size.spec_width() <= g.size.spec_width() + j,
            cur.size.spec_height() <= g.size.spec_height() + j,
            forall|p: Coord| #[trigger]
                cur.size.contains(p) ==> cur.at(p) == if g.size.contains(p) {
                    g.at(p)
                } else {
                    CACell::DEAD
                },
        decreases n - j,
    {
        proof {
            let (w, h, gw, gh) = (
                cur.size.spec_width(),
                cur.size.spec_height(),
                g.size.spec_width(),
                g.size.spec_height(),
            );
            let big = grown(cur.size, 1, dir);
            assert(gh + n <= (gw + n) * (gh + n) && gw + n <= (gw + n) * (gh + n)) by (nonlinear_arith)
                requires
                    gw >= 0,
                    gh >= 0,
                    n >= 1,
            ;
            assert(big.spec_width() <= w + 1 && big.spec_height() <= h + 1);
            assert(big.spec_width() * big.spec_height() <= (gw + n) * (gh + n)) by (nonlinear_arith)
                requires
                    0 <= big.spec_width() <= gw + n,
                    0 <= big.spec_height() <= gh + n,
            ;
        }
        let next = cur.with_border_direction(1, dir);
        proof {
            assert forall|p: Coord| #[trigger] next.size.contains(p) implies next.at(p) == if g.size.contains(p) {
                g.at(p)
            } else {
                CACell::DEAD
            } by {
                if !cur.size.contains(p) {
                    assert(!g.size.contains(p));
                }
            }
        }
        cur = next;
        dir = dir.rotate_90_cw();
        j = j + 1;
    }
    cur
}

/// How many cells of `s` are alive.
pub open spec fn alive_cells(s: Seq<CACell>) -> int
    decreases s.len(),
{
    if s.len() == 0 {
        0
    } else {
        alive_cells(s.drop_last()) + cell_u8(s.last())
    }
}

impl Grid<CACell> {
    /// How many cells are alive.
    pub fn population(&self) -> (r: u32)
        requires
            self.wf(),
        ensures
            r == alive_cells(self.data@),
    {
        let n = self.data.len();
        let mut total: u32 = 0;
        let mut i: usize = 0;
        while i < n
            invariant
                n == self.data@.len() <= i32::MAX,
                i <= n,
                total == alive_cells(self.data@.take(i as int)),
                total <= i,
            decreases n - i,
        {
            proof {
                assert(self.data@.take(i + 1).drop_last() =~= self.data@.take(i as int));
            }
            total = total + self.data[i].into_u8() as u32;
            i = i + 1;
        }
        proof {
            assert(self.data@.take(n as int) =~= self.data@);
        }
        total
    }
}

/// `(key, index)` pairs in lexicographic order.
pub open spec fn key_index_lt(a: (u32, usize), b: (u32, usize)) -> bool {
    a.0 < b.0 || (a.0 == b.0 && a.1 < b.1)
}

/// The indices of `keys`, each once, ordered by key and, among equal keys, by index.
pub fn key_order(keys: &Vec<u32>) -> (r: Vec<usize>)
    ensures
        r@.len() == keys@.len(),
        forall|a: int| 0 <= a < r@.len() ==> #[trigger] r@[a] < keys@.len(),
        forall|a: int, b: int|
            0 <= a < b < r@.len() ==> key_index_lt(
                (keys@[r@[a] as int], r@[a]),
                (keys@[r@[b] as int], r@[b]),
            ),
{
    let n = keys.len();
    let mut out: Vec<usize> = Vec::new();
    let mut i: usize = 0;
    while i < n
        invariant
            n == keys@.len(),
            i <= n,
            out@.len() == i,
            forall|a: int| 0 <= a < out@.len() ==> #[trigger] out@[a] < i,
            forall|a: int, b: int|
                0 <= a < b < out@.len() ==> key_index_lt(
                    (keys@[out@[a] as int], out@[a]),
                    (keys@[out@[b] as int], out@[b]),
                ),
        decreases n - i,
    {
        let mut pos: usize = 0;
        while pos < out.len() && !(keys[i] < keys[out[pos]])
            invariant
                n == keys@.len(),
                i < n,
                pos <= out@.len() == i,
                forall|a: int| 0 <= a < out@.len() ==> #[trigger] out@[a] < i,
                forall|a: int| 0 <= a < pos ==> key_index_lt((keys@[out@[a] as int], out@[a]), (keys@[i as int], i)),
            decreases out@.len() - pos,
        {
            pos = pos + 1;
        }
        let ghost before = out@;
        proof {
            if pos < before.len() {
                assert forall|b: int| pos <= b < before.len() implies key_index_lt(
                    (keys@[i as int], i),
                    (keys@[before[b] as int], before[b]),
                ) by {
                    if b > pos {
                        assert(key_index_lt(
                            (keys@[before[pos as int] as int], before[pos as int]),
                            (keys@[before[b] as int], before[b]),
                        ));
                    }
                }
            }
        }
        out.insert(pos, i);
        proof {
            assert forall|a: int, b: int| 0 <= a < b < out@.len() implies key_index_lt(
                (keys@[out@[a] as int], out@[a]),
                (keys@[out@[b] as int], out@[b]),
            ) by {
                if b < pos {
                    assert(out@[a] == before[a] && out@[b] == before[b]);
                } else if b == pos {
                    assert(out@[a] == before[a]);
                } else if a < pos {
                    assert(out@[a] == before[a] && out@[b] == before[b - 1]);
                    assert(key_index_lt((keys@[before[a] as int], before[a]), (keys@[i as int], i)));
                } else if a == pos {
                    assert(out@[b] == before[b - 1]);
                } else {
                    assert(out@[a] == before[a - 1] && out@[b] == before[b - 1]);
                }
            }
        }
        i = i + 1;
    }
    out
}

} // verus!
