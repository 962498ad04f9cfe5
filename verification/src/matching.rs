//! Unrolling the blocks of equal keys that two sorted `(key, board)` tables share into
//! pairs of boards.
use vstd::prelude::*;
use crate::board::{blocks_ok, in_block};
use crate::retain::names_each_once;

verus! {

/// Number of pairs in block `k`.
pub open spec fn block_size(r: Seq<((usize, usize), (usize, usize))>, k: int) -> int {
    (r[k].0.1 - r[k].0.0) * (r[k].1.1 - r[k].1.0)
}

/// Number of pairs in the first `t` blocks.
pub open spec fn prefix_total(r: Seq<((usize, usize), (usize, usize))>, t: int) -> int
    decreases t,
{
    if t <= 0 {
        0
    } else {
        prefix_total(r, t - 1) + block_size(r, t - 1)
    }
}

/// `p` comes before `q`, first position first.
pub open spec fn lex_lt(p: (int, int), q: (int, int)) -> bool {
    p.0 < q.0 || (p.0 == q.0 && p.1 < q.1)
}

/// Some entry of `pos` is `(a, c)`.
pub open spec fn has_pos(pos: Seq<(int, int)>, a: int, c: int) -> bool {
    exists|m: int| 0 <= m < pos.len() && #[trigger] pos[m] == (a, c)
}

/// `v` names the boards at the position pairs `pos` of the two tables; each pair has
/// equal keys, and the pairs come in strictly increasing order.
pub open spec fn block_pairs(
    o1: Seq<(u128, u64)>,
    o2: Seq<(u128, u64)>,
    v: Seq<(u64, u64)>,
    pos: Seq<(int, int)>,
) -> bool {
    &&& v.len() == pos.len()
    &&& forall|m: int|
        0 <= m < v.len() ==> {
            &&& 0 <= (#[trigger] pos[m]).0 < o1.len()
            &&& 0 <= pos[m].1 < o2.len()
            &&& o1[pos[m].0].0 == o2[pos[m].1].0
            &&& v[m] == (o1[pos[m].0].1, o2[pos[m].1].1)
        }
    &&& forall|m1: int, m2: int| 0 <= m1 < m2 < v.len() ==> lex_lt(#[trigger] pos[m1], #[trigger] pos[m2])
}

/// Appending a later pair of positions with equal keys keeps the pairs in order.
pub proof fn lemma_block_pairs_push(
    o1: Seq<(u128, u64)>,
    o2: Seq<(u128, u64)>,
    v: Seq<(u64, u64)>,
    pos: Seq<(int, int)>,
    p: (int, int),
)
    requires
        block_pairs(o1, o2, v, pos),
        0 <= p.0 < o1.len(),
        0 <= p.1 < o2.len(),
        o1[p.0].0 == o2[p.1].0,
        pos.len() > 0 ==> lex_lt(pos[pos.len() - 1], p),
    ensures
        block_pairs(o1, o2, v.push((o1[p.0].1, o2[p.1].1)), pos.push(p)),
{
    let nv = v.push((o1[p.0].1, o2[p.1].1));
    let np = pos.push(p);
    assert forall|m: int| 0 <= m < pos.len() implies np[m] == pos[m] && nv[m] == v[m] by {}
    assert forall|m1: int, m2: int| 0 <= m1 < m2 < nv.len() implies lex_lt(#[trigger] np[m1], #[trigger] np[m2]) by {
        if m2 == pos.len() {
            if m1 < pos.len() - 1 {
                assert(lex_lt(pos[m1], pos[pos.len() - 1]));
            }
        }
    }
}

/// `long` begins with `short`.
pub open spec fn extends(long: Seq<(int, int)>, short: Seq<(int, int)>) -> bool {
    &&& short.len() <= long.len()
    &&& forall|m: int| 0 <= m < short.len() ==> #[trigger] long[m] == short[m]
}

/// Appends the pairs `(a, c)`, then `(a, c + 1)` up to the end of block `k`'s second run.
proof fn lemma_list_cols(
    o1: Seq<(u128, u64)>,
    o2: Seq<(u128, u64)>,
    r: Seq<((usize, usize), (usize, usize))>,
    k: int,
    a: int,
    c: int,
    v: Seq<(u64, u64)>,
    pos: Seq<(int, int)>,
) -> (res: (Seq<(u64, u64)>, Seq<(int, int)>))
    requires
        blocks_ok(o1, o2, r),
        0 <= k < r.len(),
        r[k].0.0 <= a < r[k].0.1,
        r[k].1.0 <= c <= r[k].1.1,
        block_pairs(o1, o2, v, pos),
        forall|m: int| 0 <= m < pos.len() ==> lex_lt(#[trigger] pos[m], (a, c)),
    ensures
        block_pairs(o1, o2, res.0, res.1),
        extends(res.1, pos),
        res.0.len() == v.len() + (r[k].1.1 - c),
        forall|m: int| 0 <= m < res.1.len() ==> (#[trigger] res.1[m]).0 <= a,
        forall|c2: int| c <= c2 < r[k].1.1 ==> has_pos(res.1, a, c2),
    decreases r[k].1.1 - c,
{
    if c == r[k].1.1 {
        (v, pos)
    } else {
        assert(o1[a].0 == o1[r[k].0.0 as int].0);
        assert(o2[c].0 == o1[r[k].0.0 as int].0);
        if pos.len() > 0 {
            assert(lex_lt(pos[pos.len() - 1], (a, c)));
        }
        lemma_block_pairs_push(o1, o2, v, pos, (a, c));
        let v1 = v.push((o1[a].1, o2[c].1));
        let p1 = pos.push((a, c));
        assert forall|m: int| 0 <= m < p1.len() implies lex_lt(#[trigger] p1[m], (a, c + 1)) by {
            if m < pos.len() {
                assert(p1[m] == pos[m]);
            }
        }
        let res = lemma_list_cols(o1, o2, r, k, a, c + 1, v1, p1);
        assert(res.1[pos.len() as int] == p1[pos.len() as int]);
        assert(has_pos(res.1, a, c));
        assert forall|m: int| 0 <= m < pos.len() implies #[trigger] res.1[m] == pos[m] by {
            assert(res.1[m] == p1[m]);
        }
        assert forall|m: int| 0 <= m < res.1.len() implies (#[trigger] res.1[m]).0 <= a by {
            if m < p1.len() {
                assert(res.1[m] == p1[m]);
                if m < pos.len() {
                    assert(lex_lt(pos[m], (a, c)));
                }
            }
        }
        res
    }
}

/// Appends the pairs of rows `a` up to the end of block `k`'s first run.
proof fn lemma_list_rows(
    o1: Seq<(u128, u64)>,
    o2: Seq<(u128, u64)>,
    r: Seq<((usize, usize), (usize, usize))>,
    k: int,
    a: int,
    v: Seq<(u64, u64)>,
    pos: Seq<(int, int)>,
) -> (res: (Seq<(u64, u64)>, Seq<(int, int)>))
    requires
        blocks_ok(o1, o2, r),
        0 <= k < r.len(),
        r[k].0.0 <= a <= r[k].0.1,
        block_pairs(o1, o2, v, pos),
        forall|m: int| 0 <= m < pos.len() ==> (#[trigger] pos[m]).0 < a,
    ensures
        block_pairs(o1, o2, res.0, res.1),
        extends(res.1, pos),
        res.0.len() == v.len() + (r[k].0.1 - a) * (r[k].1.1 - r[k].1.0),
        forall|m: int| 0 <= m < res.1.len() ==> (#[trigger] res.1[m]).0 < r[k].0.1,
        forall|a2: int, c2: int| a <= a2 < r[k].0.1 && r[k].1.0 <= c2 < r[k].1.1 ==> has_pos(res.1, a2, c2),
    decreases r[k].0.1 - a,
{
    if a == r[k].0.1 {
        (v, pos)
    } else {
        let s2 = r[k].1.0 as int;
        assert forall|m: int| 0 <= m < pos.len() implies lex_lt(#[trigger] pos[m], (a, s2)) by {}
        let cols = lemma_list_cols(o1, o2, r, k, a, s2, v, pos);
        let res = lemma_list_rows(o1, o2, r, k, a + 1, cols.0, cols.1);
        let e2 = r[k].1.1 as int;
        assert((r[k].0.1 - (a + 1)) * (e2 - s2) + (e2 - s2) == (r[k].0.1 - a) * (e2 - s2)) by (nonlinear_arith);
        assert forall|m: int| 0 <= m < pos.len() implies #[trigger] res.1[m] == pos[m] by {
            assert(res.1[m] == cols.1[m]);
        }
        assert forall|a2: int, c2: int| a <= a2 < r[k].0.1 && r[k].1.0 <= c2 < r[k].1.1 implies has_pos(res.1, a2, c2) by {
            if a2 == a {
                assert(has_pos(cols.1, a, c2));
                let m = choose|m: int| 0 <= m < cols.1.len() && #[trigger] cols.1[m] == (a2, c2);
                assert(res.1[m] == cols.1[m]);
            }
        }
        res
    }
}

/// The pairs of the first `t` blocks, in order.
proof fn lemma_list_blocks(
    o1: Seq<(u128, u64)>,
    o2: Seq<(u128, u64)>,
    r: Seq<((usize, usize), (usize, usize))>,
    t: int,
) -> (res: (Seq<(u64, u64)>, Seq<(int, int)>))
    requires
        blocks_ok(o1, o2, r),
        0 <= t <= r.len(),
    ensures
        block_pairs(o1, o2, res.0, res.1),
        res.0.len() == prefix_total(r, t),
        t < r.len() ==> forall|m: int| 0 <= m < res.1.len() ==> (#[trigger] res.1[m]).0 < r[t].0.0,
        forall|k: int, a: int, c: int| k < t && #[trigger] in_block(r, k, a, c) ==> has_pos(res.1, a, c),
    decreases t,
{
    if t == 0 {
        (Seq::empty(), Seq::empty())
    } else {
        let prev = lemma_list_blocks(o1, o2, r, t - 1);
        let k = t - 1;
        let res = lemma_list_rows(o1, o2, r, k, r[k].0.0 as int, prev.0, prev.1);
        if t < r.len() {
            assert(r[k].0.1 <= r[t].0.0);
        }
        assert forall|k2: int, a: int, c: int| k2 < t && #[trigger] in_block(r, k2, a, c) implies has_pos(res.1, a, c) by {
            if k2 < k {
                let m = choose|m: int| 0 <= m < prev.1.len() && #[trigger] prev.1[m] == (a, c);
                assert(res.1[m] == prev.1[m]);
            }
        }
        res
    }
}

/// Every block of equal keys unrolls into a list of pairs: one for every pair of
/// positions in a block, in order, as many as the blocks hold in all.
pub proof fn lemma_block_listing(o1: Seq<(u128, u64)>, o2: Seq<(u128, u64)>, r: Seq<((usize, usize), (usize, usize))>) -> (v: Seq<(u64, u64)>)
    requires
        blocks_ok(o1, o2, r),
    ensures
        exists|pos: Seq<(int, int)>| block_pairs(o1, o2, v, pos),
        v.len() == prefix_total(r, r.len() as int),
        forall|k: int, a: int, c: int|
            #[trigger] in_block(r, k, a, c) ==> exists|m: int| 0 <= m < v.len() && #[trigger] v[m] == (o1[a].1, o2[c].1),
{
    let res = lemma_list_blocks(o1, o2, r, r.len() as int);
    let (v, pos) = res;
    assert forall|k: int, a: int, c: int| #[trigger] in_block(r, k, a, c) implies exists|m: int|
        0 <= m < v.len() && #[trigger] v[m] == (o1[a].1, o2[c].1) by {
        assert(has_pos(pos, a, c));
        let m = choose|m: int| 0 <= m < pos.len() && #[trigger] pos[m] == (a, c);
        assert(v[m] == (o1[pos[m].0].1, o2[pos[m].1].1));
    }
    v
}

/// Pairs read at distinct positions of tables that name each board once are distinct.
pub proof fn lemma_block_pairs_distinct(
    o1: Seq<(u128, u64)>,
    o2: Seq<(u128, u64)>,
    v: Seq<(u64, u64)>,
    pos: Seq<(int, int)>,
)
    requires
        names_each_once(o1, o1.len() as int),
        names_each_once(o2, o2.len() as int),
        block_pairs(o1, o2, v, pos),
    ensures
        v.no_duplicates(),
{
    assert forall|m1: int, m2: int| 0 <= m1 < v.len() && 0 <= m2 < v.len() && m1 != m2 implies v[m1] != v[m2] by {
        let p1 = pos[m1];
        let p2 = pos[m2];
        if m1 < m2 {
            assert(lex_lt(p1, p2));
        } else {
            assert(lex_lt(p2, p1));
        }
        if p1.0 != p2.0 {
            assert(o1[p1.0].1 != o1[p2.0].1);
        } else {
            assert(o2[p1.1].1 != o2[p2.1].1);
        }
    }
}

/// The pairs of the first `t` blocks number at most the product of where they end.
pub proof fn lemma_prefix_total(o1: Seq<(u128, u64)>, o2: Seq<(u128, u64)>, r: Seq<((usize, usize), (usize, usize))>, t: int)
    requires
        blocks_ok(o1, o2, r),
        0 <= t <= r.len(),
    ensures
        0 <= prefix_total(r, t),
        t == 0 ==> prefix_total(r, t) == 0,
        t > 0 ==> prefix_total(r, t) <= r[t - 1].0.1 * r[t - 1].1.1,
        prefix_total(r, t) <= o1.len() * o2.len(),
    decreases t,
{
    if t > 0 {
        lemma_prefix_total(o1, o2, r, t - 1);
        let x: int = if t == 1 { 0 } else { r[t - 2].0.1 as int };
        let y: int = if t == 1 { 0 } else { r[t - 2].1.1 as int };
        let s1 = r[t - 1].0.0 as int;
        let e1 = r[t - 1].0.1 as int;
        let s2 = r[t - 1].1.0 as int;
        let e2 = r[t - 1].1.1 as int;
        if t > 1 {
            assert(r[t - 2].0.1 <= r[t - 1].0.0 && r[t - 2].1.1 <= r[t - 1].1.0);
        }
        assert(0 <= x <= s1 < e1 && 0 <= y <= s2 < e2);
        let p = prefix_total(r, t - 1);
        assert(p <= x * y);
        assert(x * y + (e1 - s1) * (e2 - s2) <= e1 * e2) by (nonlinear_arith)
            requires
                0 <= x <= s1 < e1,
                0 <= y <= s2 < e2,
        ;
        assert(e1 * e2 <= o1.len() * o2.len()) by (nonlinear_arith)
            requires
                0 <= e1 <= o1.len(),
                0 <= e2 <= o2.len(),
        ;
        assert(0 <= (e1 - s1) * (e2 - s2)) by (nonlinear_arith)
            requires
                s1 < e1,
                s2 < e2,
        ;
    }
}

/// Every pair of positions, one in each range of a block, read as a pair of boards.
pub fn all_block_pairs(o1: &[(u128, u64)], o2: &[(u128, u64)], r: &Vec<((usize, usize), (usize, usize))>) -> (v: Vec<(u64, u64)>)
    requires
        blocks_ok(o1@, o2@, r@),
    ensures
        exists|pos: Seq<(int, int)>| block_pairs(o1@, o2@, v@, pos),
        forall|k: int, a: int, c: int|
            #[trigger] in_block(r@, k, a, c) ==> exists|m: int| 0 <= m < v@.len() && #[trigger] v@[m] == (o1@[a].1, o2@[c].1),
        v@.len() == prefix_total(r@, r@.len() as int),
{
    let mut v: Vec<(u64, u64)> = Vec::new();
    let ghost mut pos: Seq<(int, int)> = Seq::empty();
    let nb = r.len();
    let mut t: usize = 0;
    while t < nb
        invariant
            blocks_ok(o1@, o2@, r@),
            nb == r@.len(),
            t <= nb,
            block_pairs(o1@, o2@, v@, pos),
            v@.len() == prefix_total(r@, t as int),
            forall|m: int| 0 <= m < pos.len() && t < nb ==> (#[trigger] pos[m]).0 < r@[t as int].0.0,
            forall|k: int, a: int, c: int| k < t && #[trigger] in_block(r@, k, a, c) ==> has_pos(pos, a, c),
        decreases nb - t,
    {
        let ((s1, e1), (s2, e2)) = r[t];
        proof {
            assert(s1 < e1 <= o1@.len() && s2 < e2 <= o2@.len());
        }
        let mut a: usize = s1;
        while a < e1
            invariant
                blocks_ok(o1@, o2@, r@),
                nb == r@.len(),
                t < nb,
                r@[t as int] == ((s1, e1), (s2, e2)),
                s1 <= a <= e1,
                s2 < e2,
                block_pairs(o1@, o2@, v@, pos),
                v@.len() == prefix_total(r@, t as int) + (a - s1) * (e2 - s2),
                forall|m: int| 0 <= m < pos.len() ==> (#[trigger] pos[m]).0 < a,
                forall|k: int, a2: int, c: int|
                    (k < t || (k == t && a2 < a)) && #[trigger] in_block(r@, k, a2, c) ==> has_pos(pos, a2, c),
            decreases e1 - a,
        {
            let mut c: usize = s2;
            while c < e2
                invariant
                    blocks_ok(o1@, o2@, r@),
                    nb == r@.len(),
                    t < nb,
                    r@[t as int] == ((s1, e1), (s2, e2)),
                    s1 <= a < e1,
                    s2 <= c <= e2,
                    block_pairs(o1@, o2@, v@, pos),
                    v@.len() == prefix_total(r@, t as int) + (a - s1) * (e2 - s2) + (c - s2),
                    forall|m: int| 0 <= m < pos.len() ==> lex_lt(#[trigger] pos[m], (a as int, c as int)),
                    forall|k: int, a2: int, c2: int|
                        (k < t || (k == t && (a2 < a || (a2 == a && c2 < c)))) && #[trigger] in_block(r@, k, a2, c2)
                            ==> has_pos(pos, a2, c2),
                decreases e2 - c,
            {
                proof {
                    assert(o1@[a as int].0 == o1@[s1 as int].0);
                    assert(o2@[c as int].0 == o1@[s1 as int].0);
                }
                let ghost old_pos = pos;
                let ghost old_v = v@;
                v.push((o1[a].1, o2[c].1));
                proof {
                    pos = pos.push((a as int, c as int));
                    assert forall|m: int| 0 <= m < old_pos.len() implies pos[m] == old_pos[m] && v@[m] == old_v[m] by {}
                    assert(pos[old_pos.len() as int] == (a as int, c as int));
                    assert forall|k: int, a2: int, c2: int|
                        (k < t || (k == t && (a2 < a || (a2 == a && c2 < c + 1)))) && #[trigger] in_block(r@, k, a2, c2)
                            implies has_pos(pos, a2, c2) by {
                        if a2 == a && c2 == c && k == t {
                            assert(pos[old_pos.len() as int] == (a2, c2));
                        } else {
                            let m = choose|m: int| 0 <= m < old_pos.len() && #[trigger] old_pos[m] == (a2, c2);
                            assert(pos[m] == (a2, c2));
                        }
                    }
                    assert forall|m1: int, m2: int| 0 <= m1 < m2 < v@.len() implies lex_lt(#[trigger] pos[m1], #[trigger] pos[m2]) by {
                        if m2 == old_pos.len() {
                            assert(lex_lt(old_pos[m1], (a as int, c as int)));
                        }
                    }
                }
                c = c + 1;
            }
            proof {
                assert((a - s1) * (e2 - s2) + (e2 - s2) == (a + 1 - s1) * (e2 - s2)) by (nonlinear_arith);
                assert forall|k: int, a2: int, c2: int|
                    (k < t || (k == t && a2 < a + 1)) && #[trigger] in_block(r@, k, a2, c2) implies has_pos(pos, a2, c2) by {
                    if k == t && a2 == a {
                        assert(c2 < e2);
                    }
                }
            }
            a = a + 1;
        }
        proof {
            if t + 1 < nb {
                assert(r@[t as int].0.1 <= r@[t + 1].0.0);
            }
            assert forall|k: int, a2: int, c2: int| k < t + 1 && #[trigger] in_block(r@, k, a2, c2) implies has_pos(pos, a2, c2) by {
                if k == t {
                    assert(a2 < e1);
                }
            }
        }
        t = t + 1;
    }
    proof {
        assert forall|k: int, a: int, c: int| #[trigger] in_block(r@, k, a, c) implies exists|m: int|
            0 <= m < v@.len() && #[trigger] v@[m] == (o1@[a].1, o2@[c].1) by {
            assert(has_pos(pos, a, c));
            let m = choose|m: int| 0 <= m < pos.len() && #[trigger] pos[m] == (a, c);
            assert(v@[m] == (o1@[a].1, o2@[c].1));
        }
    }
    v
}

/// Block sizes are never negative, so the running totals never decrease.
pub proof fn lemma_prefix_mono(o1: Seq<(u128, u64)>, o2: Seq<(u128, u64)>, r: Seq<((usize, usize), (usize, usize))>, i: int, j: int)
    requires
        blocks_ok(o1, o2, r),
        0 <= i <= j <= r.len(),
    ensures
        prefix_total(r, i) <= prefix_total(r, j),
    decreases j - i,
{
    if i < j {
        lemma_prefix_mono(o1, o2, r, i, j - 1);
        let k = j - 1;
        assert(r[k].0.0 < r[k].0.1 && r[k].1.0 < r[k].1.1);
        assert(0 <= block_size(r, k)) by (nonlinear_arith)
            requires
                block_size(r, k) == (r[k].0.1 - r[k].0.0) * (r[k].1.1 - r[k].1.0),
                r[k].0.0 < r[k].0.1,
                r[k].1.0 < r[k].1.1,
        ;
    }
}

/// Place `u` of a block of `l1` by `l2` pairs, counted row by row, is row `u / l2`,
/// column `u % l2`; later places come later in that order.
pub proof fn lemma_place_in_block(u1: int, u2: int, l1: int, l2: int)
    requires
        0 <= u1 < u2 < l1 * l2,
        0 < l2,
    ensures
        0 <= u2 / l2 < l1,
        0 <= u2 % l2 < l2,
        0 <= u1 / l2 < l1,
        0 <= u1 % l2 < l2,
        lex_lt((u1 / l2, u1 % l2), (u2 / l2, u2 % l2)),
{
    assert(0 <= u1 / l2 <= u2 / l2 < l1 && 0 <= u1 % l2 < l2 && 0 <= u2 % l2 < l2) by (nonlinear_arith)
        requires
            0 <= u1 < u2 < l1 * l2,
            0 < l2,
    ;
    assert(u1 == (u1 / l2) * l2 + u1 % l2 && u2 == (u2 / l2) * l2 + u2 % l2) by (nonlinear_arith)
        requires
            0 < l2,
    ;
    if u1 / l2 == u2 / l2 {
        assert(u1 % l2 < u2 % l2);
    }
}

/// The position of place `u` of block `k`, row by row.
pub open spec fn place_pos(r: Seq<((usize, usize), (usize, usize))>, k: int, u: int) -> (int, int) {
    let l2 = r[k].1.1 - r[k].1.0;
    (r[k].0.0 + u / l2, r[k].1.0 + u % l2)
}

/// The block that holds place `x` of the enumeration, among the first `t` blocks: the
/// last of them that starts at or before `x`.
pub open spec fn holding_block(r: Seq<((usize, usize), (usize, usize))>, t: int, x: int) -> int
    decreases t,
{
    if t <= 0 {
        0
    } else if prefix_total(r, t - 1) <= x {
        t - 1
    } else {
        holding_block(r, t - 1, x)
    }
}

/// The positions of place `x` of the block-by-block, row-by-row enumeration of all pairs:
/// place `x - prefix_total(r, k)` of the block `k` that holds it.
pub open spec fn enum_pos(r: Seq<((usize, usize), (usize, usize))>, x: int) -> (int, int) {
    let k = holding_block(r, r.len() as int, x);
    place_pos(r, k, x - prefix_total(r, k))
}

/// A place that block `k` covers is held by block `k`.
pub proof fn lemma_holding_block(
    o1: Seq<(u128, u64)>,
    o2: Seq<(u128, u64)>,
    r: Seq<((usize, usize), (usize, usize))>,
    t: int,
    k: int,
    x: int,
)
    requires
        blocks_ok(o1, o2, r),
        0 <= k < t <= r.len(),
        prefix_total(r, k) <= x < prefix_total(r, k + 1),
    ensures
        holding_block(r, t, x) == k,
    decreases t,
{
    if t - 1 > k {
        lemma_prefix_mono(o1, o2, r, k + 1, t - 1);
        lemma_holding_block(o1, o2, r, t - 1, k, x);
    }
}

/// Place `u` of block `k` is a pair of positions of that block, with equal keys.
pub proof fn lemma_place_in(o1: Seq<(u128, u64)>, o2: Seq<(u128, u64)>, r: Seq<((usize, usize), (usize, usize))>, k: int, u: int)
    requires
        blocks_ok(o1, o2, r),
        0 <= k < r.len(),
        0 <= u < block_size(r, k),
    ensures
        r[k].0.0 <= place_pos(r, k, u).0 < r[k].0.1,
        r[k].1.0 <= place_pos(r, k, u).1 < r[k].1.1,
        o1[place_pos(r, k, u).0].0 == o2[place_pos(r, k, u).1].0,
{
    let l1 = r[k].0.1 - r[k].0.0;
    let l2 = r[k].1.1 - r[k].1.0;
    assert(r[k].0.0 < r[k].0.1 && r[k].1.0 < r[k].1.1);
    assert(0 <= u / l2 < l1 && 0 <= u % l2 < l2) by (nonlinear_arith)
        requires
            0 <= u < l1 * l2,
            0 < l2,
    ;
    let pp = place_pos(r, k, u);
    assert(o1[pp.0].0 == o1[r[k].0.0 as int].0);
    assert(o2[pp.1].0 == o1[r[k].0.0 as int].0);
}

/// Later places (in a later block, or later in the same block) have later positions.
pub proof fn lemma_place_order(
    o1: Seq<(u128, u64)>,
    o2: Seq<(u128, u64)>,
    r: Seq<((usize, usize), (usize, usize))>,
    k1: int,
    u1: int,
    k2: int,
    u2: int,
)
    requires
        blocks_ok(o1, o2, r),
        0 <= k1 <= k2 < r.len(),
        0 <= u1 < block_size(r, k1),
        0 <= u2 < block_size(r, k2),
        k1 == k2 ==> u1 < u2,
    ensures
        lex_lt(place_pos(r, k1, u1), place_pos(r, k2, u2)),
{
    lemma_place_in(o1, o2, r, k1, u1);
    lemma_place_in(o1, o2, r, k2, u2);
    if k1 == k2 {
        lemma_place_in_block(u1, u2, r[k1].0.1 - r[k1].0.0, r[k1].1.1 - r[k1].1.0);
    } else {
        assert(r[k1].0.1 <= r[k2].0.0);
    }
}

/// The pairs at the given places of the block-by-block, row-by-row enumeration of all
/// pairs; `picks` holds the places as keys, in increasing order.
#[verifier::rlimit(40)]
pub fn picked_block_pairs(
    o1: &[(u128, u64)],
    o2: &[(u128, u64)],
    r: &Vec<((usize, usize), (usize, usize))>,
    tot: usize,
    picks: &Vec<(u128, u64)>,
) -> (v: Vec<(u64, u64)>)
    requires
        blocks_ok(o1@, o2@, r@),
        tot == prefix_total(r@, r@.len() as int),
        forall|q: int| 0 <= q < picks@.len() ==> (#[trigger] picks@[q]).0 < tot,
        forall|q1: int, q2: int| 0 <= q1 < q2 < picks@.len() ==> (#[trigger] picks@[q1]).0 < (#[trigger] picks@[q2]).0,
    ensures
        v@.len() == picks@.len(),
        block_pairs(o1@, o2@, v@, Seq::new(picks@.len(), |q: int| enum_pos(r@, picks@[q].0 as int))),
        exists|pos: Seq<(int, int)>| block_pairs(o1@, o2@, v@, pos),
{
    let mut v: Vec<(u64, u64)> = Vec::new();
    let ghost mut pos: Seq<(int, int)> = Seq::empty();
    let ghost mut last_k: int = 0;
    let ghost mut last_u: int = 0;
    let nb = r.len();
    let n = picks.len();
    let mut processed: usize = 0;
    let mut finished: usize = 0;
    let mut vc_i: usize = 0;
    let mut q: usize = 0;
    while q < n
        invariant
            blocks_ok(o1@, o2@, r@),
            nb == r@.len(),
            n == picks@.len(),
            tot == prefix_total(r@, nb as int),
            forall|q2: int| 0 <= q2 < picks@.len() ==> (#[trigger] picks@[q2]).0 < tot,
            forall|q1: int, q2: int| 0 <= q1 < q2 < picks@.len() ==> (#[trigger] picks@[q1]).0 < (#[trigger] picks@[q2]).0,
            q <= n,
            vc_i <= nb,
            processed == prefix_total(r@, vc_i as int),
            vc_i > 0 ==> finished == prefix_total(r@, vc_i - 1),
            block_pairs(o1@, o2@, v@, pos),
            v@.len() == q,
            forall|j: int| 0 <= j < q ==> #[trigger] pos[j] == enum_pos(r@, picks@[j].0 as int),
            q == 0 ==> vc_i == 0,
            q > 0 ==> {
                &&& vc_i > 0
                &&& last_k == vc_i - 1
                &&& last_u == picks@[q - 1].0 - finished
                &&& 0 <= last_u
                &&& picks@[q - 1].0 < processed
                &&& pos[q - 1] == place_pos(r@, last_k, last_u)
            },
        decreases n - q,
    {
        let g = picks[q].0 as usize;
        let ghost k_before = vc_i;
        while vc_i < nb && processed <= g
            invariant
                blocks_ok(o1@, o2@, r@),
                nb == r@.len(),
                tot == prefix_total(r@, nb as int),
                g < tot,
                vc_i <= nb,
                k_before <= vc_i,
                processed == prefix_total(r@, vc_i as int),
                vc_i > 0 ==> finished == prefix_total(r@, vc_i - 1),
                (vc_i > k_before) ==> finished <= g,
            decreases nb - vc_i,
        {
            let ((s1, e1), (s2, e2)) = r[vc_i];
            proof {
                lemma_prefix_mono(o1@, o2@, r@, vc_i + 1, nb as int);
                assert(s1 < e1 && s2 < e2);
                assert(0 <= (e1 - s1) * (e2 - s2)) by (nonlinear_arith)
                    requires
                        s1 < e1,
                        s2 < e2,
                ;
            }
            finished = processed;
            processed = processed + (e1 - s1) * (e2 - s2);
            vc_i = vc_i + 1;
        }
        proof {
            assert(processed > g);
            if vc_i == 0 {
                assert(processed == 0);
            }
        }
        let ((s1, e1), (s2, e2)) = r[vc_i - 1];
        let l2 = e2 - s2;
        proof {
            let k = vc_i - 1;
            assert(s1 < e1 && s2 < e2);
            assert(processed == finished + (e1 - s1) * (e2 - s2));
            assert(g >= finished) by {
                if vc_i == k_before {
                    assert(q > 0);
                    assert(picks@[q - 1].0 < picks@[q as int].0);
                }
            }
        }
        let u = g - finished;
        proof {
            lemma_place_in(o1@, o2@, r@, vc_i - 1, u as int);
        }
        let a = s1 + u / l2;
        let c = s2 + u % l2;
        proof {
            let newp = (a as int, c as int);
            assert(newp == place_pos(r@, vc_i - 1, u as int));
            lemma_holding_block(o1@, o2@, r@, nb as int, vc_i - 1, g as int);
            assert(newp == enum_pos(r@, picks@[q as int].0 as int));
            if q > 0 {
                assert(0 <= last_u < block_size(r@, last_k));
                if vc_i == k_before {
                    assert(picks@[q - 1].0 < picks@[q as int].0);
                }
                lemma_place_order(o1@, o2@, r@, last_k, last_u, vc_i - 1, u as int);
            }
            lemma_block_pairs_push(o1@, o2@, v@, pos, newp);
        }
        v.push((o1[a].1, o2[c].1));
        proof {
            pos = pos.push((a as int, c as int));
            last_k = vc_i - 1;
            last_u = u as int;
        }
        q = q + 1;
    }
    proof {
        assert(pos =~= Seq::new(picks@.len(), |q: int| enum_pos(r@, picks@[q].0 as int)));
    }
    v
}

/// The number of pairs in all blocks, when it fits in `usize`.
pub fn total_pairs(o1: &[(u128, u64)], o2: &[(u128, u64)], r: &Vec<((usize, usize), (usize, usize))>) -> (t: Option<usize>)
    requires
        blocks_ok(o1@, o2@, r@),
    ensures
        t matches Some(x) ==> x == prefix_total(r@, r@.len() as int),
        t is None ==> prefix_total(r@, r@.len() as int) > usize::MAX,
{
    let nb = r.len();
    let mut acc: usize = 0;
    let mut k: usize = 0;
    while k < nb
        invariant
            blocks_ok(o1@, o2@, r@),
            nb == r@.len(),
            k <= nb,
            acc == prefix_total(r@, k as int),
        decreases nb - k,
    {
        let ((s1, e1), (s2, e2)) = r[k];
        proof {
            assert(s1 < e1 && s2 < e2);
            lemma_prefix_mono(o1@, o2@, r@, k + 1, nb as int);
            lemma_prefix_mono(o1@, o2@, r@, k as int, k + 1);
        }
        match (e1 - s1).checked_mul(e2 - s2) {
            Some(size) => match acc.checked_add(size) {
                Some(next) => {
                    acc = next;
                },
                None => {
                    return None;
                },
            },
            None => {
                proof {
                    assert(prefix_total(r@, k + 1) == acc + block_size(r@, k as int));
                }
                return None;
            },
        }
        k = k + 1;
    }
    Some(acc)
}

/// Distinct sampled places, sorted as `(place, 0)` pairs, come in strictly increasing order.
proof fn lemma_sorted_places(orig: Seq<(u128, u64)>, s: Seq<(u128, u64)>, tot: int)
    requires
        orig.no_duplicates(),
        forall|k: int| 0 <= k < orig.len() ==> (#[trigger] orig[k]).1 == 0 && orig[k].0 < tot,
        s.to_multiset() == orig.to_multiset(),
        crate::outside::sorted_pairs(s),
    ensures
        s.len() == orig.len(),
        forall|q: int| 0 <= q < s.len() ==> (#[trigger] s[q]).0 < tot,
        forall|q1: int, q2: int| 0 <= q1 < q2 < s.len() ==> (#[trigger] s[q1]).0 < (#[trigger] s[q2]).0,
{
    broadcast use vstd::seq_lib::group_to_multiset_ensures;

    vstd::seq_lib::to_multiset_len(s);
    vstd::seq_lib::to_multiset_len(orig);
    orig.lemma_multiset_has_no_duplicates();
    assert forall|x: (u128, u64)| s.to_multiset().contains(x) implies s.to_multiset().count(x) == 1 by {}
    s.lemma_multiset_has_no_duplicates_conv();
    assert forall|q: int| 0 <= q < s.len() implies (#[trigger] s[q]).0 < tot && s[q].1 == 0 by {
        assert(s.contains(s[q]));
        assert(s.to_multiset().count(s[q]) > 0);
        assert(orig.contains(s[q]));
        let k = choose|k: int| 0 <= k < orig.len() && orig[k] == s[q];
        assert(orig[k].1 == 0);
    }
    assert forall|q1: int, q2: int| 0 <= q1 < q2 < s.len() implies (#[trigger] s[q1]).0 < (#[trigger] s[q2]).0 by {
        assert(crate::outside::pair_le(s[q1], s[q2]));
        assert(s[q1] != s[q2]);
        assert(s[q1].1 == 0 && s[q2].1 == 0);
    }
}

/// `ps` is `places` in increasing order.
pub open spec fn in_order_of(ps: Seq<usize>, places: Seq<usize>) -> bool {
    &&& ps.len() == places.len()
    &&& forall|q1: int, q2: int| 0 <= q1 < q2 < ps.len() ==> #[trigger] ps[q1] < #[trigger] ps[q2]
    &&& forall|q: int| 0 <= q < ps.len() ==> places.contains(#[trigger] ps[q])
    &&& forall|i: int| 0 <= i < places.len() ==> ps.contains(#[trigger] places[i])
}

/// The pairs at the given distinct places of the block-by-block, row-by-row enumeration
/// of the `tot` pairs of the blocks, in enumeration order.
pub fn pairs_at_places(
    o1: &[(u128, u64)],
    o2: &[(u128, u64)],
    r: &Vec<((usize, usize), (usize, usize))>,
    tot: usize,
    places: &Vec<usize>,
) -> (v: Vec<(u64, u64)>)
    requires
        blocks_ok(o1@, o2@, r@),
        tot == prefix_total(r@, r@.len() as int),
        places@.no_duplicates(),
        forall|i: int| 0 <= i < places@.len() ==> #[trigger] places@[i] < tot,
    ensures
        v@.len() == places@.len(),
        exists|ps: Seq<usize>|
            in_order_of(ps, places@) && block_pairs(o1@, o2@, v@, Seq::new(ps.len(), |q: int| enum_pos(r@, ps[q] as int))),
        exists|pos: Seq<(int, int)>| block_pairs(o1@, o2@, v@, pos),
{
    broadcast use vstd::seq_lib::group_to_multiset_ensures;

    let mut keyed: Vec<(u128, u64)> = Vec::new();
    let n = places.len();
    let mut i: usize = 0;
    while i < n
        invariant
            n == places@.len(),
            i <= n,
            keyed@.len() == i,
            forall|k: int| 0 <= k < i ==> #[trigger] keyed@[k] == (places@[k] as u128, 0u64),
        decreases n - i,
    {
        keyed.push((places[i] as u128, 0));
        i = i + 1;
    }
    let ghost orig = keyed@;
    proof {
        assert(orig.no_duplicates()) by {
            assert forall|a: int, b: int| 0 <= a < orig.len() && 0 <= b < orig.len() && a != b implies orig[a] != orig[b] by {
                assert(places@[a] != places@[b]);
            }
        }
    }
    crate::outside::par_sort(&mut keyed);
    let ghost s = keyed@;
    proof {
        crate::outside::lemma_sorted_pairs(s);
        lemma_sorted_places(orig, s, tot as int);
    }
    let v = picked_block_pairs(o1, o2, r, tot, &keyed);
    proof {
        let ps = Seq::new(s.len(), |q: int| s[q].0 as usize);
        assert forall|q: int| 0 <= q < ps.len() implies places@.contains(#[trigger] ps[q]) by {
            assert(s.contains(s[q]));
            assert(s.to_multiset().count(s[q]) > 0);
            assert(orig.contains(s[q]));
            let i = choose|i: int| 0 <= i < orig.len() && orig[i] == s[q];
            assert(places@[i] == ps[q]);
        }
        assert forall|i: int| 0 <= i < places@.len() implies ps.contains(#[trigger] places@[i]) by {
            assert(orig.contains(orig[i]));
            assert(orig.to_multiset().count(orig[i]) > 0);
            assert(s.contains(orig[i]));
            let q = choose|q: int| 0 <= q < s.len() && s[q] == orig[i];
            assert(ps[q] == places@[i]);
        }
        assert forall|q1: int, q2: int| 0 <= q1 < q2 < ps.len() implies #[trigger] ps[q1] < #[trigger] ps[q2] by {
            assert(s[q1].0 < s[q2].0);
        }
        assert(ps.len() == places@.len());
        assert(in_order_of(ps, places@));
        assert(Seq::new(ps.len(), |q: int| enum_pos(r@, ps[q] as int)) =~= Seq::new(s.len(), |q: int| enum_pos(r@, s[q].0 as int)));
    }
    v
}

/// `amount` pairs drawn at random, without repeats, from the block-by-block enumeration
/// of the `tot` pairs of the blocks, in enumeration order. Which places are drawn is left
/// to chance: the result holds the pairs at some `amount` distinct places below `tot`.
pub fn sample_block_pairs(
    o1: &[(u128, u64)],
    o2: &[(u128, u64)],
    r: &Vec<((usize, usize), (usize, usize))>,
    tot: usize,
    amount: usize,
) -> (v: Vec<(u64, u64)>)
    requires
        blocks_ok(o1@, o2@, r@),
        tot == prefix_total(r@, r@.len() as int),
        amount <= tot,
    ensures
        v@.len() == amount,
        exists|ps: Seq<usize>| {
            &&& ps.len() == amount
            &&& forall|q1: int, q2: int| 0 <= q1 < q2 < ps.len() ==> #[trigger] ps[q1] < #[trigger] ps[q2]
            &&& forall|q: int| 0 <= q < ps.len() ==> #[trigger] ps[q] < tot
            &&& block_pairs(o1@, o2@, v@, Seq::new(ps.len(), |q: int| enum_pos(r@, ps[q] as int)))
        },
        exists|pos: Seq<(int, int)>| block_pairs(o1@, o2@, v@, pos),
{
    let places = crate::outside::sample_indices(tot, amount);
    let v = pairs_at_places(o1, o2, r, tot, &places);
    proof {
        let ps = choose|ps: Seq<usize>|
            in_order_of(ps, places@) && block_pairs(o1@, o2@, v@, Seq::new(ps.len(), |q: int| enum_pos(r@, ps[q] as int)));
        assert forall|q: int| 0 <= q < ps.len() implies #[trigger] ps[q] < tot by {
            assert(places@.contains(ps[q]));
            let i = choose|i: int| 0 <= i < places@.len() && places@[i] == ps[q];
            assert(places@[i] < tot);
        }
    }
    v
}

} // verus!
