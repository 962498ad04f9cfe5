//! Combining the boards of the two halves of every window, from the leaves up.
use vstd::prelude::*;
use crate::basic_grids::{lemma_opposite_involutive, spec_opposite, Direction, Rect};
use crate::board::{
    exposable, exposure_rect_of, fits_together, inner_within, lists_all_fitting, picks, sub_list, BoardWindow, BoardWindowData,
};
use crate::scores::{area, cull_trace, subset_of, lowest};

verus! {

/// How the boards of two halves are combined.
pub enum CombinerCfg {
    /// Every pair of boards that fit together.
    Exhaustive,
    /// Drop the highest-scoring boards of both halves, round after round (a fraction of
    /// `cull_ppm` millionths each round), until at most `patt_limit` pairs fit together;
    /// then every pair that fits.
    KeepLowCost { patt_limit: usize, cull_ppm: u32 },
    /// At most `patt_limit` of the pairs that fit together, drawn at random.
    KeepRandom { patt_limit: usize },
}

/// The settings can be run: a culling round drops at least one board.
pub open spec fn cfg_ok(cfg: CombinerCfg) -> bool {
    cfg matches CombinerCfg::KeepLowCost { cull_ppm, .. } ==> cull_ppm > 0
}

/// The pairs `v` of boards of `a` and `b` are what `cfg` asks for: pairs that fit
/// together, each once; all of them when combining exhaustively; with a limit, no more
/// than it (the halves' boards may since have been culled by the split above, so that
/// not every pair of what is left need be listed); drawn at random, in the order of the
/// sorted scan.
pub open spec fn pairs_per_cfg(v: Seq<(u64, u64)>, a: BoardWindow, d: Direction, b: BoardWindow, cfg: CombinerCfg) -> bool {
    &&& forall|m: int| 0 <= m < v.len() ==> fits_together(a, d, b, #[trigger] v[m])
    &&& v.no_duplicates()
    &&& match cfg {
        CombinerCfg::Exhaustive => lists_all_fitting(v, a, d, b),
        CombinerCfg::KeepLowCost { patt_limit, .. } => v.len() <= patt_limit,
        CombinerCfg::KeepRandom { patt_limit } => v.len() <= patt_limit && (lists_all_fitting(v, a, d, b) || v.len() == patt_limit)
            && crate::board::scan_ordered(v, a, d),
    }
}

/// Every combination of every split below names two boards that fit together.
pub open spec fn consistent(w: BoardWindow) -> bool
    decreases w,
{
    match w.inner {
        BoardWindowData::Leaf { .. } => true,
        BoardWindowData::SplitHorizontal { left, right, valid_combos } => consistent(*left) && consistent(*right) && (
        valid_combos matches Some(v) ==> forall|m: int| 0 <= m < v@.len() ==> fits_together(*left, Direction::Right, *right, #[trigger] v@[m])),
        BoardWindowData::SplitVertical { top, bottom, valid_combos } => consistent(*top) && consistent(*bottom) && (
        valid_combos matches Some(v) ==> forall|m: int| 0 <= m < v@.len() ==> fits_together(*top, Direction::Down, *bottom, #[trigger] v@[m])),
    }
}

/// Every leaf below has its boards.
pub open spec fn leaves_filled(w: BoardWindow) -> bool
    decreases w,
{
    match w.inner {
        BoardWindowData::Leaf { valid_boards } => valid_boards is Some,
        BoardWindowData::SplitHorizontal { left, right, .. } => leaves_filled(*left) && leaves_filled(*right),
        BoardWindowData::SplitVertical { top, bottom, .. } => leaves_filled(*top) && leaves_filled(*bottom),
    }
}

/// Every window below has its boards.
pub open spec fn all_filled(w: BoardWindow) -> bool
    decreases w,
{
    &&& w.nboards() is Some
    &&& match w.inner {
        BoardWindowData::Leaf { .. } => true,
        BoardWindowData::SplitHorizontal { left, right, .. } => all_filled(*left) && all_filled(*right),
        BoardWindowData::SplitVertical { top, bottom, .. } => all_filled(*top) && all_filled(*bottom),
    }
}

/// Some split below has halves whose pairs of boards number more than `usize::MAX`.
pub open spec fn some_split_overflows(w: BoardWindow) -> bool
    decreases w,
{
    match w.inner {
        BoardWindowData::Leaf { .. } => false,
        BoardWindowData::SplitHorizontal { left, right, .. } => some_split_overflows(*left) || some_split_overflows(*right) || (
        left.nboards()->Some_0 * right.nboards()->Some_0 > usize::MAX),
        BoardWindowData::SplitVertical { top, bottom, .. } => some_split_overflows(*top) || some_split_overflows(*bottom) || (
        top.nboards()->Some_0 * bottom.nboards()->Some_0 > usize::MAX),
    }
}

/// `new` is `old` with every split that had no combinations yet combined as `cfg` asks,
/// over halves that (for `KeepLowCost`) may have lost boards; splits combined before are
/// kept, possibly with fewer combinations.
pub open spec fn combined(new: BoardWindow, old: BoardWindow, cfg: CombinerCfg) -> bool
    decreases old,
{
    &&& new.rect == old.rect
    &&& new.forced_dead == old.forced_dead
    &&& match (new.inner, old.inner) {
        (BoardWindowData::Leaf { valid_boards: a }, BoardWindowData::Leaf { valid_boards: b }) => sub_list(a, b),
        (
            BoardWindowData::SplitHorizontal { left: l1, right: r1, valid_combos: c1 },
            BoardWindowData::SplitHorizontal { left: l2, right: r2, valid_combos: c2 },
        ) => if c2 is Some {
            l1 == l2 && r1 == r2 && sub_list(c1, c2)
        } else {
            combined(*l1, *l2, cfg) && combined(*r1, *r2, cfg) && (c1 matches Some(v) && pairs_per_cfg(v@, *l1, Direction::Right, *r1, cfg))
        },
        (
            BoardWindowData::SplitVertical { top: t1, bottom: b1, valid_combos: c1 },
            BoardWindowData::SplitVertical { top: t2, bottom: b2, valid_combos: c2 },
        ) => if c2 is Some {
            t1 == t2 && b1 == b2 && sub_list(c1, c2)
        } else {
            combined(*t1, *t2, cfg) && combined(*b1, *b2, cfg) && (c1 matches Some(v) && pairs_per_cfg(v@, *t1, Direction::Down, *b1, cfg))
        },
        _ => false,
    }
}

/// `l` and `r` are what the low-cost cull left of `lf` and `rf`: round after round the
/// lowest-scoring part of their boards kept, until at most `limit` pairs fit together
/// along side `d` of `l` (see `cull_trace`).
pub open spec fn halves_culled(
    l: BoardWindow,
    r: BoardWindow,
    lf: BoardWindow,
    rf: BoardWindow,
    d: Direction,
    limit: int,
    cull_ppm: int,
) -> bool {
    exists|ws1: Seq<BoardWindow>, ws2: Seq<BoardWindow>|
        #[trigger] cull_trace(ws1, ws2, d, limit, cull_ppm) && ws1[0] == lf && ws2[0] == rf && l.same_content(ws1.last())
            && r.same_content(ws2.last())
}

/// `new` is what combining with the low-cost cull makes of `old`: a window that has its
/// boards stays as it is; a split without combinations first has both parts combined the
/// same way, then both culled by `halves_culled`, then every pair of what is left that fits
/// together listed, each once.
pub open spec fn combined_low(new: BoardWindow, old: BoardWindow, limit: int, cull_ppm: int) -> bool
    decreases old,
{
    &&& new.rect == old.rect
    &&& new.forced_dead == old.forced_dead
    &&& match (new.inner, old.inner) {
        (BoardWindowData::Leaf { valid_boards: a }, BoardWindowData::Leaf { valid_boards: b }) => a == b,
        (
            BoardWindowData::SplitHorizontal { left: l1, right: r1, valid_combos: c1 },
            BoardWindowData::SplitHorizontal { left: l2, right: r2, valid_combos: c2 },
        ) => if c2 is Some {
            l1 == l2 && r1 == r2 && c1 == c2
        } else {
            &&& exists|lf: BoardWindow, rf: BoardWindow|
                combined_low(lf, *l2, limit, cull_ppm) && combined_low(rf, *r2, limit, cull_ppm) && #[trigger] halves_culled(
                    *l1,
                    *r1,
                    lf,
                    rf,
                    Direction::Right,
                    limit,
                    cull_ppm,
                )
            &&& c1 matches Some(v) && v@.no_duplicates() && lists_all_fitting(v@, *l1, Direction::Right, *r1) && crate::board::scan_ordered(
                v@,
                *l1,
                Direction::Right,
            )
        },
        (
            BoardWindowData::SplitVertical { top: t1, bottom: b1, valid_combos: c1 },
            BoardWindowData::SplitVertical { top: t2, bottom: b2, valid_combos: c2 },
        ) => if c2 is Some {
            t1 == t2 && b1 == b2 && c1 == c2
        } else {
            &&& exists|tf: BoardWindow, bf: BoardWindow|
                combined_low(tf, *t2, limit, cull_ppm) && combined_low(bf, *b2, limit, cull_ppm) && #[trigger] halves_culled(
                    *t1,
                    *b1,
                    tf,
                    bf,
                    Direction::Down,
                    limit,
                    cull_ppm,
                )
            &&& c1 matches Some(v) && v@.no_duplicates() && lists_all_fitting(v@, *t1, Direction::Down, *b1) && crate::board::scan_ordered(
                v@,
                *t1,
                Direction::Down,
            )
        },
        _ => false,
    }
}

/// `new` is `old` with every split that had no combinations yet given every pair of its
/// parts' boards that fit together, and nothing else changed: no board of `old` is gone.
pub open spec fn combined_keeping(new: BoardWindow, old: BoardWindow) -> bool
    decreases old,
{
    &&& new.rect == old.rect
    &&& new.forced_dead == old.forced_dead
    &&& match (new.inner, old.inner) {
        (BoardWindowData::Leaf { valid_boards: a }, BoardWindowData::Leaf { valid_boards: b }) => a == b,
        (
            BoardWindowData::SplitHorizontal { left: l1, right: r1, valid_combos: c1 },
            BoardWindowData::SplitHorizontal { left: l2, right: r2, valid_combos: c2 },
        ) => if c2 is Some {
            l1 == l2 && r1 == r2 && c1 == c2
        } else {
            combined_keeping(*l1, *l2) && combined_keeping(*r1, *r2) && (c1 matches Some(v) && lists_all_fitting(
                v@,
                *l1,
                Direction::Right,
                *r1,
            ) && crate::board::scan_ordered(v@, *l1, Direction::Right))
        },
        (
            BoardWindowData::SplitVertical { top: t1, bottom: b1, valid_combos: c1 },
            BoardWindowData::SplitVertical { top: t2, bottom: b2, valid_combos: c2 },
        ) => if c2 is Some {
            t1 == t2 && b1 == b2 && c1 == c2
        } else {
            combined_keeping(*t1, *t2) && combined_keeping(*b1, *b2) && (c1 matches Some(v) && lists_all_fitting(
                v@,
                *t1,
                Direction::Down,
                *b1,
            ) && crate::board::scan_ordered(v@, *t1, Direction::Down))
        },
        _ => false,
    }
}

/// A window combines into itself when it has nothing left to combine.
proof fn lemma_keeping_refl(w: BoardWindow)
    requires
        !(w.inner is SplitHorizontal && w.nboards() is None),
        !(w.inner is SplitVertical && w.nboards() is None),
    ensures
        combined_keeping(w, w),
{
}

/// Windows that differ only in their caches combine into the same windows.
proof fn lemma_keeping_same_content(a: BoardWindow, b: BoardWindow, old: BoardWindow)
    requires
        a.same_content(b),
        combined_keeping(b, old),
    ensures
        combined_keeping(a, old),
{
}

/// Taking boards out of a window keeps its tree consistent and filled.
pub proof fn lemma_within_keeps(new: BoardWindow, old: BoardWindow)
    requires
        inner_within(new.inner, old.inner),
        consistent(old),
    ensures
        consistent(new),
        leaves_filled(old) ==> leaves_filled(new),
        all_filled(old) ==> all_filled(new),
{
    match (new.inner, old.inner) {
        (BoardWindowData::SplitHorizontal { left, right, valid_combos: Some(a) }, BoardWindowData::SplitHorizontal { valid_combos: Some(b), .. }) => {
            let ks = choose|ks: Seq<int>| #[trigger] picks(a@, b@, ks);
            assert forall|m: int| 0 <= m < a@.len() implies fits_together(*left, Direction::Right, *right, #[trigger] a@[m]) by {
                assert(a@[m] == b@[ks[m]]);
            }
        },
        (BoardWindowData::SplitVertical { top, bottom, valid_combos: Some(a) }, BoardWindowData::SplitVertical { valid_combos: Some(b), .. }) => {
            let ks = choose|ks: Seq<int>| #[trigger] picks(a@, b@, ks);
            assert forall|m: int| 0 <= m < a@.len() implies fits_together(*top, Direction::Down, *bottom, #[trigger] a@[m]) by {
                assert(a@[m] == b@[ks[m]]);
            }
        },
        _ => {},
    }
}

/// The halves of a window that fits the exposure strips fit them too.
pub(crate) proof fn lemma_halves_exposable(w: BoardWindow)
    requires
        w.inv(),
        exposable(w.rect),
    ensures
        match w.inner {
            BoardWindowData::Leaf { .. } => true,
            BoardWindowData::SplitHorizontal { left, right, .. } => exposable(left.rect) && exposable(right.rect)
                && exposure_rect_of(left.rect, Direction::Right) == exposure_rect_of(right.rect, Direction::Left),
            BoardWindowData::SplitVertical { top, bottom, .. } => exposable(top.rect) && exposable(bottom.rect)
                && exposure_rect_of(top.rect, Direction::Down) == exposure_rect_of(bottom.rect, Direction::Up),
        },
{
}

/// Every window below that has its boards has them all the way down.
pub open spec fn down_closed(w: BoardWindow) -> bool
    decreases w,
{
    &&& (w.nboards() is Some ==> all_filled(w))
    &&& match w.inner {
        BoardWindowData::Leaf { .. } => true,
        BoardWindowData::SplitHorizontal { left, right, .. } => down_closed(*left) && down_closed(*right),
        BoardWindowData::SplitVertical { top, bottom, .. } => down_closed(*top) && down_closed(*bottom),
    }
}

/// What only depends on a window's boards stays when only its caches change.
pub proof fn lemma_same_content_tree(a: BoardWindow, b: BoardWindow)
    requires
        a.same_content(b),
    ensures
        consistent(a) == consistent(b),
        leaves_filled(a) == leaves_filled(b),
        all_filled(a) == all_filled(b),
        down_closed(a) == down_closed(b),
        forall|x: BoardWindow, cfg: CombinerCfg| #[trigger] combined(a, x, cfg) == combined(b, x, cfg),
{
    crate::board::lemma_same_content(a, b);
}

/// A list keeps all of itself.
pub proof fn lemma_sub_list_refl<T>(a: Option<Vec<T>>)
    ensures
        sub_list(a, a),
{
    if let Some(x) = a {
        assert(picks(x@, x@, crate::scores::all_positions(x@.len() as int)));
    }
}

/// Filled trees are closed downwards.
pub proof fn lemma_all_filled_closed(w: BoardWindow)
    requires
        all_filled(w),
    ensures
        down_closed(w),
    decreases w,
{
    match w.inner {
        BoardWindowData::SplitHorizontal { left, right, .. } => {
            lemma_all_filled_closed(*left);
            lemma_all_filled_closed(*right);
        },
        BoardWindowData::SplitVertical { top, bottom, .. } => {
            lemma_all_filled_closed(*top);
            lemma_all_filled_closed(*bottom);
        },
        _ => {},
    }
}

/// Where `old` had no combinations, `new` lists every pair of its halves' boards that
/// fit together, unless `cfg` draws them at random.
pub open spec fn top_complete(new: BoardWindow, old: BoardWindow, cfg: CombinerCfg) -> bool {
    match (new.inner, old.inner) {
        (BoardWindowData::SplitHorizontal { left, right, valid_combos: Some(v) }, BoardWindowData::SplitHorizontal { valid_combos: None, .. }) => cfg is KeepRandom
            || lists_all_fitting(v@, *left, Direction::Right, *right),
        (BoardWindowData::SplitVertical { top, bottom, valid_combos: Some(v) }, BoardWindowData::SplitVertical { valid_combos: None, .. }) => cfg is KeepRandom
            || lists_all_fitting(v@, *top, Direction::Down, *bottom),
        _ => true,
    }
}

/// Combining survives dropping boards from the top list, when halves may lose boards.
proof fn lemma_combined_within(c2: BoardWindow, c: BoardWindow, old: BoardWindow, cfg: CombinerCfg)
    requires
        combined(c, old, cfg),
        inner_within(c2.inner, c.inner),
        c2.rect == c.rect,
        c2.forced_dead == c.forced_dead,
        cfg is KeepLowCost,
    ensures
        combined(c2, old, cfg),
{
    match (c2.inner, c.inner, old.inner) {
        (BoardWindowData::Leaf { valid_boards: x }, BoardWindowData::Leaf { valid_boards: y }, BoardWindowData::Leaf { valid_boards: z }) => {
            crate::board::lemma_sub_list_trans(x, y, z);
        },
        (
            BoardWindowData::SplitHorizontal { left, right, valid_combos: x },
            BoardWindowData::SplitHorizontal { valid_combos: y, .. },
            BoardWindowData::SplitHorizontal { valid_combos: z, .. },
        ) => {
            if z is Some {
                crate::board::lemma_sub_list_trans(x, y, z);
            } else {
                let (a, b) = (x->Some_0, y->Some_0);
                let ks = choose|ks: Seq<int>| #[trigger] picks(a@, b@, ks);
                crate::board::lemma_picks_distinct(a@, b@, ks);
                assert forall|m: int| 0 <= m < a@.len() implies fits_together(*left, Direction::Right, *right, #[trigger] a@[m]) by {
                    assert(a@[m] == b@[ks[m]]);
                }
            }
        },
        (
            BoardWindowData::SplitVertical { top, bottom, valid_combos: x },
            BoardWindowData::SplitVertical { valid_combos: y, .. },
            BoardWindowData::SplitVertical { valid_combos: z, .. },
        ) => {
            if z is Some {
                crate::board::lemma_sub_list_trans(x, y, z);
            } else {
                let (a, b) = (x->Some_0, y->Some_0);
                let ks = choose|ks: Seq<int>| #[trigger] picks(a@, b@, ks);
                crate::board::lemma_picks_distinct(a@, b@, ks);
                assert forall|m: int| 0 <= m < a@.len() implies fits_together(*top, Direction::Down, *bottom, #[trigger] a@[m]) by {
                    assert(a@[m] == b@[ks[m]]);
                }
            }
        },
        _ => {},
    }
}

/// Combines the boards of the two halves of `left` and `right` (a split across
/// `direction`) as `cfg` asks.
fn combine_halves(left: &mut BoardWindow, direction: Direction, right: &mut BoardWindow, cfg: &CombinerCfg) -> (r: Option<
    Vec<(u64, u64)>,
>)
    requires
        old(left).inv(),
        old(right).inv(),
        exposable(old(left).rect),
        exposable(old(right).rect),
        old(left).nboards() is Some,
        old(right).nboards() is Some,
        exposure_rect_of(old(left).rect, direction) == exposure_rect_of(old(right).rect, spec_opposite(direction)),
        old(left).scores_fit(),
        old(right).scores_fit(),
        cfg_ok(*cfg),
    ensures
        final(left).inv(),
        final(right).inv(),
        final(left).rect == old(left).rect,
        final(right).rect == old(right).rect,
        final(left).forced_dead == old(left).forced_dead,
        final(right).forced_dead == old(right).forced_dead,
        forall|b: int| #[trigger] old(left).scores_within(b) ==> final(left).scores_within(b),
        forall|b: int| #[trigger] old(right).scores_within(b) ==> final(right).scores_within(b),
        final(left).nboards() is Some,
        final(right).nboards() is Some,
        cfg is KeepLowCost ==> inner_within(final(left).inner, old(left).inner) && inner_within(final(right).inner, old(right).inner),
        !(cfg is KeepLowCost) ==> final(left).same_content(*old(left)) && final(right).same_content(*old(right)),
        r is None ==> final(left).nboards()->Some_0 * final(right).nboards()->Some_0 > usize::MAX,
        r matches Some(v) ==> pairs_per_cfg(v@, *final(left), direction, *final(right), *cfg) && (cfg is KeepRandom
            || lists_all_fitting(v@, *final(left), direction, *final(right))),
        r matches Some(v) ==> crate::board::scan_ordered(v@, *final(left), direction),
        cfg matches CombinerCfg::KeepLowCost { patt_limit, cull_ppm } ==> r is Some && halves_culled(
            *final(left),
            *final(right),
            *old(left),
            *old(right),
            direction,
            patt_limit as int,
            cull_ppm as int,
        ),
{
    match cfg {
        CombinerCfg::Exhaustive | CombinerCfg::KeepRandom { .. } => {
            let lim = match cfg {
                CombinerCfg::KeepRandom { patt_limit } => Some(*patt_limit),
                _ => None,
            };
            let r = BoardWindow::match_exposures(left, direction, right, lim);
            proof {
                crate::board::lemma_same_content(*left, *old(left));
                crate::board::lemma_same_content(*right, *old(right));
                if r is Some {
                    let v = r->Some_0;
                    assert forall|m: int| 0 <= m < v@.len() implies fits_together(*left, direction, *right, #[trigger] v@[m]) by {
                        assert(fits_together(*old(left), direction, *old(right), v@[m]));
                    }
                    assert forall|m1: int, m2: int| 0 <= m1 < m2 < v@.len() implies crate::board::scan_before(
                        *left,
                        direction,
                        #[trigger] v@[m1],
                        #[trigger] v@[m2],
                    ) by {
                        assert(crate::board::scan_before(*old(left), direction, v@[m1], v@[m2]));
                    }
                    if lists_all_fitting(v@, *old(left), direction, *old(right)) {
                        assert forall|i: int, j: int|
                            0 <= i < left.nboards()->Some_0 && 0 <= j < right.nboards()->Some_0 && #[trigger] left.exposure(i, direction)
                                == #[trigger] right.exposure(j, spec_opposite(direction)) implies v@.contains((i as u64, j as u64)) by {
                            assert(old(left).exposure(i, direction) == old(right).exposure(j, spec_opposite(direction)));
                        }
                    }
                }
            }
            r
        },
        CombinerCfg::KeepLowCost { patt_limit, cull_ppm } => {
            let r = BoardWindow::cull_badscore_tillmatch(left, direction, right, *patt_limit, *cull_ppm);
            proof {
                let ks1 = choose|ks: Seq<int>| #[trigger] subset_of(*left, *old(left), ks) && lowest(*old(left), ks);
                let ks2 = choose|ks: Seq<int>| #[trigger] subset_of(*right, *old(right), ks) && lowest(*old(right), ks);
            }
            r
        },
    }
}

/// Combines the boards of every split below that has none yet, from the leaves up, as
/// `cfg` asks. `None` when some split's halves have more pairs of boards than `usize`
/// can count.
pub fn fill_all_combinations(board: &mut BoardWindow, cfg: &CombinerCfg) -> (r: Option<()>)
    requires
        old(board).inv(),
        exposable(old(board).rect),
        leaves_filled(*old(board)),
        consistent(*old(board)),
        down_closed(*old(board)),
        old(board).scores_fit(),
        cfg_ok(*cfg),
    ensures
        final(board).inv(),
        consistent(*final(board)),
        leaves_filled(*final(board)),
        down_closed(*final(board)),
        final(board).rect == old(board).rect,
        final(board).forced_dead == old(board).forced_dead,
        forall|b: int| #[trigger] old(board).scores_within(b) ==> final(board).scores_within(b),
        r is Some ==> all_filled(*final(board)) && combined(*final(board), *old(board), *cfg) && top_complete(
            *final(board),
            *old(board),
            *cfg,
        ),
        r is Some && *cfg is Exhaustive ==> combined_keeping(*final(board), *old(board)),
        r is Some ==> match *cfg {
            CombinerCfg::KeepLowCost { patt_limit, cull_ppm } => combined_low(*final(board), *old(board), patt_limit as int, cull_ppm as int),
            _ => true,
        },
        r is None ==> some_split_overflows(*final(board)),
        old(board).nboards() is Some ==> *final(board) == *old(board) && r is Some,
    decreases old(board).rect.spec_width() + old(board).rect.spec_height(),
{
    let ghost w0 = *board;
    let ghost b0 = choose|b: int| 0 <= b && b * area(w0.rect) <= i32::MAX && #[trigger] w0.scores_within(b);
    proof {
        lemma_halves_exposable(w0);
        assert(w0.score_cache_ok());
        assert(w0.exposure_cache_ok(Direction::Up));
        assert(w0.exposure_cache_ok(Direction::Down));
        assert(w0.exposure_cache_ok(Direction::Left));
        assert(w0.exposure_cache_ok(Direction::Right));
        assert(w0.sort_cache_ok(Direction::Up));
        assert(w0.sort_cache_ok(Direction::Down));
        assert(w0.sort_cache_ok(Direction::Left));
        assert(w0.sort_cache_ok(Direction::Right));
        match w0.inner {
            BoardWindowData::SplitHorizontal { left, right, .. } => {
                crate::scores::lemma_split_area(w0.rect, left.rect, right.rect);
                assert(b0 * area(left.rect) <= b0 * area(w0.rect) && b0 * area(right.rect) <= b0 * area(w0.rect)) by (nonlinear_arith)
                    requires
                        0 <= b0,
                        area(left.rect) <= area(w0.rect),
                        area(right.rect) <= area(w0.rect),
                ;
            },
            BoardWindowData::SplitVertical { top, bottom, .. } => {
                crate::scores::lemma_split_area(w0.rect, top.rect, bottom.rect);
                assert(b0 * area(top.rect) <= b0 * area(w0.rect) && b0 * area(bottom.rect) <= b0 * area(w0.rect)) by (nonlinear_arith)
                    requires
                        0 <= b0,
                        area(top.rect) <= area(w0.rect),
                        area(bottom.rect) <= area(w0.rect),
                ;
            },
            _ => {},
        }
    }
    let mut inner = BoardWindowData::Leaf { valid_boards: None };
    std::mem::swap(&mut inner, &mut board.inner);
    match inner {
        BoardWindowData::SplitHorizontal { left, right, valid_combos: None } => {
            let mut left = *left;
            let mut right = *right;
            proof {
                assert(left.scores_within(b0));
                assert(right.scores_within(b0));
            }
            let ghost l0 = left;
            let ghost r0 = right;
            let a = fill_all_combinations(&mut left, cfg);
            let c = fill_all_combinations(&mut right, cfg);
            let ghost lf = left;
            let ghost rf = right;
            if a.is_none() || c.is_none() {
                board.inner = BoardWindowData::SplitHorizontal { left: Box::new(left), right: Box::new(right), valid_combos: None };
                proof {
                    assert forall|d: Direction| #[trigger] board.exposure_cache_ok(d) by {
                        assert(w0.exposure_cache_ok(d));
                    }
                    assert forall|d: Direction| #[trigger] board.sort_cache_ok(d) by {
                        assert(w0.sort_cache_ok(d));
                    }
                    assert forall|bb: int| #[trigger] w0.scores_within(bb) implies board.scores_within(bb) by {
                        assert(l0.scores_within(bb));
                        assert(r0.scores_within(bb));
                    }
                }
                return None;
            }
            proof {
                assert(lf.scores_within(b0));
                assert(rf.scores_within(b0));
            }
            let combos = combine_halves(&mut left, Direction::Right, &mut right, cfg);
            proof {
                if !(cfg is KeepLowCost) {
                    lemma_same_content_tree(left, lf);
                    lemma_same_content_tree(right, rf);
                }
                if cfg is KeepLowCost {
                    lemma_within_keeps(left, lf);
                    lemma_within_keeps(right, rf);
                    lemma_combined_within(left, lf, l0, *cfg);
                    lemma_combined_within(right, rf, r0, *cfg);
                }
                lemma_all_filled_closed(left);
                lemma_all_filled_closed(right);
            }
            match combos {
                Some(v) => {
                    board.inner = BoardWindowData::SplitHorizontal { left: Box::new(left), right: Box::new(right), valid_combos: Some(v) };
                    proof {
                        assert forall|d: Direction| #[trigger] board.exposure_cache_ok(d) by {
                            assert(w0.exposure_cache_ok(d));
                        }
                        assert forall|d: Direction| #[trigger] board.sort_cache_ok(d) by {
                            assert(w0.sort_cache_ok(d));
                        }
                        assert forall|k: int| 0 <= k < v@.len() implies (#[trigger] v@[k]).0 < left.nboards()->Some_0 && v@[k].1
                            < right.nboards()->Some_0 by {
                            assert(fits_together(left, Direction::Right, right, v@[k]));
                        }
                        lemma_all_filled_closed(*board);
                        assert(combined(left, l0, *cfg));
                        assert(combined(right, r0, *cfg));
                        if *cfg is Exhaustive {
                            lemma_keeping_same_content(left, lf, l0);
                            lemma_keeping_same_content(right, rf, r0);
                        }
                        assert(pairs_per_cfg(v@, left, Direction::Right, right, *cfg));
                        if let CombinerCfg::KeepLowCost { patt_limit, cull_ppm } = *cfg {
                            assert(halves_culled(left, right, lf, rf, Direction::Right, patt_limit as int, cull_ppm as int));
                            assert(combined_low(lf, l0, patt_limit as int, cull_ppm as int));
                            assert(combined_low(rf, r0, patt_limit as int, cull_ppm as int));
                            assert(combined_low(*board, w0, patt_limit as int, cull_ppm as int));
                        }
                        assert forall|bb: int| #[trigger] w0.scores_within(bb) implies board.scores_within(bb) by {
                            assert(l0.scores_within(bb));
                            assert(r0.scores_within(bb));
                            assert(lf.scores_within(bb));
                            assert(rf.scores_within(bb));
                        }
                    }
                    Some(())
                },
                None => {
                    board.inner = BoardWindowData::SplitHorizontal { left: Box::new(left), right: Box::new(right), valid_combos: None };
                    proof {
                        assert forall|d: Direction| #[trigger] board.exposure_cache_ok(d) by {
                            assert(w0.exposure_cache_ok(d));
                        }
                        assert forall|d: Direction| #[trigger] board.sort_cache_ok(d) by {
                            assert(w0.sort_cache_ok(d));
                        }
                        assert forall|bb: int| #[trigger] w0.scores_within(bb) implies board.scores_within(bb) by {
                            assert(l0.scores_within(bb));
                            assert(r0.scores_within(bb));
                            assert(lf.scores_within(bb));
                            assert(rf.scores_within(bb));
                        }
                    }
                    None
                },
            }
        },
        BoardWindowData::SplitVertical { top, bottom, valid_combos: None } => {
            let mut top = *top;
            let mut bottom = *bottom;
            proof {
                assert(top.scores_within(b0));
                assert(bottom.scores_within(b0));
            }
            let ghost t0 = top;
            let ghost u0 = bottom;
            let a = fill_all_combinations(&mut top, cfg);
            let c = fill_all_combinations(&mut bottom, cfg);
            let ghost tf = top;
            let ghost uf = bottom;
            if a.is_none() || c.is_none() {
                board.inner = BoardWindowData::SplitVertical { top: Box::new(top), bottom: Box::new(bottom), valid_combos: None };
                proof {
                    assert forall|d: Direction| #[trigger] board.exposure_cache_ok(d) by {
                        assert(w0.exposure_cache_ok(d));
                    }
                    assert forall|d: Direction| #[trigger] board.sort_cache_ok(d) by {
                        assert(w0.sort_cache_ok(d));
                    }
                    assert forall|bb: int| #[trigger] w0.scores_within(bb) implies board.scores_within(bb) by {
                        assert(t0.scores_within(bb));
                        assert(u0.scores_within(bb));
                    }
                }
                return None;
            }
            proof {
                assert(tf.scores_within(b0));
                assert(uf.scores_within(b0));
            }
            let combos = combine_halves(&mut top, Direction::Down, &mut bottom, cfg);
            proof {
                if !(cfg is KeepLowCost) {
                    lemma_same_content_tree(top, tf);
                    lemma_same_content_tree(bottom, uf);
                }
                if cfg is KeepLowCost {
                    lemma_within_keeps(top, tf);
                    lemma_within_keeps(bottom, uf);
                    lemma_combined_within(top, tf, t0, *cfg);
                    lemma_combined_within(bottom, uf, u0, *cfg);
                }
                lemma_all_filled_closed(top);
                lemma_all_filled_closed(bottom);
            }
            match combos {
                Some(v) => {
                    board.inner = BoardWindowData::SplitVertical { top: Box::new(top), bottom: Box::new(bottom), valid_combos: Some(v) };
                    proof {
                        assert forall|d: Direction| #[trigger] board.exposure_cache_ok(d) by {
                            assert(w0.exposure_cache_ok(d));
                        }
                        assert forall|d: Direction| #[trigger] board.sort_cache_ok(d) by {
                            assert(w0.sort_cache_ok(d));
                        }
                        assert forall|k: int| 0 <= k < v@.len() implies (#[trigger] v@[k]).0 < top.nboards()->Some_0 && v@[k].1
                            < bottom.nboards()->Some_0 by {
                            assert(fits_together(top, Direction::Down, bottom, v@[k]));
                        }
                        lemma_all_filled_closed(*board);
                        assert(combined(top, t0, *cfg));
                        assert(combined(bottom, u0, *cfg));
                        if *cfg is Exhaustive {
                            lemma_keeping_same_content(top, tf, t0);
                            lemma_keeping_same_content(bottom, uf, u0);
                        }
                        assert(pairs_per_cfg(v@, top, Direction::Down, bottom, *cfg));
                        if let CombinerCfg::KeepLowCost { patt_limit, cull_ppm } = *cfg {
                            assert(halves_culled(top, bottom, tf, uf, Direction::Down, patt_limit as int, cull_ppm as int));
                            assert(combined_low(tf, t0, patt_limit as int, cull_ppm as int));
                            assert(combined_low(uf, u0, patt_limit as int, cull_ppm as int));
                            assert(combined_low(*board, w0, patt_limit as int, cull_ppm as int));
                        }
                        assert forall|bb: int| #[trigger] w0.scores_within(bb) implies board.scores_within(bb) by {
                            assert(t0.scores_within(bb));
                            assert(u0.scores_within(bb));
                            assert(tf.scores_within(bb));
                            assert(uf.scores_within(bb));
                        }
                    }
                    Some(())
                },
                None => {
                    board.inner = BoardWindowData::SplitVertical { top: Box::new(top), bottom: Box::new(bottom), valid_combos: None };
                    proof {
                        assert forall|d: Direction| #[trigger] board.exposure_cache_ok(d) by {
                            assert(w0.exposure_cache_ok(d));
                        }
                        assert forall|d: Direction| #[trigger] board.sort_cache_ok(d) by {
                            assert(w0.sort_cache_ok(d));
                        }
                        assert forall|bb: int| #[trigger] w0.scores_within(bb) implies board.scores_within(bb) by {
                            assert(t0.scores_within(bb));
                            assert(u0.scores_within(bb));
                            assert(tf.scores_within(bb));
                            assert(uf.scores_within(bb));
                        }
                    }
                    None
                },
            }
        },
        other => {
            board.inner = other;
            proof {
                assert(*board == w0);
                match w0.inner {
                    BoardWindowData::Leaf { valid_boards } => {
                        lemma_sub_list_refl(valid_boards);
                    },
                    BoardWindowData::SplitHorizontal { valid_combos, .. } => {
                        lemma_sub_list_refl(valid_combos);
                    },
                    BoardWindowData::SplitVertical { valid_combos, .. } => {
                        lemma_sub_list_refl(valid_combos);
                    },
                }
                lemma_keeping_refl(w0);
            }
            Some(())
        },
    }
}

/// The windows `depth` splits below `new` are combined as `cfg` asks (see `combined`);
/// above them nothing changed.
pub open spec fn combined_at(new: BoardWindow, old: BoardWindow, depth: nat, cfg: CombinerCfg) -> bool
    decreases depth,
{
    if depth == 0 {
        combined(new, old, cfg) && top_complete(new, old, cfg) && all_filled(new)
    } else {
        &&& new.rect == old.rect
        &&& new.forced_dead == old.forced_dead
        &&& match (new.inner, old.inner) {
            (
                BoardWindowData::SplitHorizontal { left: l1, right: r1, valid_combos: c1 },
                BoardWindowData::SplitHorizontal { left: l2, right: r2, valid_combos: c2 },
            ) => c1 == c2 && combined_at(*l1, *l2, (depth - 1) as nat, cfg) && combined_at(*r1, *r2, (depth - 1) as nat, cfg),
            (
                BoardWindowData::SplitVertical { top: t1, bottom: b1, valid_combos: c1 },
                BoardWindowData::SplitVertical { top: t2, bottom: b2, valid_combos: c2 },
            ) => c1 == c2 && combined_at(*t1, *t2, (depth - 1) as nat, cfg) && combined_at(*b1, *b2, (depth - 1) as nat, cfg),
            _ => false,
        }
    }
}

/// `new` is `old` with every window `depth` splits below combined as `combined_low`
/// says, and nothing above changed.
pub open spec fn combined_low_at(new: BoardWindow, old: BoardWindow, depth: nat, limit: int, cull_ppm: int) -> bool
    decreases depth,
{
    if depth == 0 {
        combined_low(new, old, limit, cull_ppm)
    } else {
        &&& new.rect == old.rect
        &&& new.forced_dead == old.forced_dead
        &&& match (new.inner, old.inner) {
            (
                BoardWindowData::SplitHorizontal { left: l1, right: r1, valid_combos: c1 },
                BoardWindowData::SplitHorizontal { left: l2, right: r2, valid_combos: c2 },
            ) => c1 == c2 && combined_low_at(*l1, *l2, (depth - 1) as nat, limit, cull_ppm) && combined_low_at(
                *r1,
                *r2,
                (depth - 1) as nat,
                limit,
                cull_ppm,
            ),
            (
                BoardWindowData::SplitVertical { top: t1, bottom: b1, valid_combos: c1 },
                BoardWindowData::SplitVertical { top: t2, bottom: b2, valid_combos: c2 },
            ) => c1 == c2 && combined_low_at(*t1, *t2, (depth - 1) as nat, limit, cull_ppm) && combined_low_at(
                *b1,
                *b2,
                (depth - 1) as nat,
                limit,
                cull_ppm,
            ),
            _ => false,
        }
    }
}

/// `new` is `old` with every window `depth` splits below combined as
/// `combined_keeping` says, and nothing above changed.
pub open spec fn combined_keeping_at(new: BoardWindow, old: BoardWindow, depth: nat) -> bool
    decreases depth,
{
    if depth == 0 {
        combined_keeping(new, old)
    } else {
        &&& new.rect == old.rect
        &&& new.forced_dead == old.forced_dead
        &&& match (new.inner, old.inner) {
            (
                BoardWindowData::SplitHorizontal { left: l1, right: r1, valid_combos: c1 },
                BoardWindowData::SplitHorizontal { left: l2, right: r2, valid_combos: c2 },
            ) => c1 == c2 && combined_keeping_at(*l1, *l2, (depth - 1) as nat) && combined_keeping_at(
                *r1,
                *r2,
                (depth - 1) as nat,
            ),
            (
                BoardWindowData::SplitVertical { top: t1, bottom: b1, valid_combos: c1 },
                BoardWindowData::SplitVertical { top: t2, bottom: b2, valid_combos: c2 },
            ) => c1 == c2 && combined_keeping_at(*t1, *t2, (depth - 1) as nat) && combined_keeping_at(
                *b1,
                *b2,
                (depth - 1) as nat,
            ),
            _ => false,
        }
    }
}

/// Combines the windows `depth` splits below `board`, each down to its leaves (see
/// `fill_all_combinations`). `None` when some split's halves have more pairs of boards
/// than `usize` can count.
pub fn fill_combinations(board: &mut BoardWindow, depth: usize, cfg: &CombinerCfg) -> (r: Option<()>)
    requires
        old(board).inv(),
        exposable(old(board).rect),
        leaves_filled(*old(board)),
        consistent(*old(board)),
        down_closed(*old(board)),
        old(board).scores_fit(),
        cfg_ok(*cfg),
        depth <= crate::board::min_leaf(*old(board)),
    ensures
        final(board).inv(),
        consistent(*final(board)),
        leaves_filled(*final(board)),
        down_closed(*final(board)),
        final(board).rect == old(board).rect,
        final(board).forced_dead == old(board).forced_dead,
        forall|b: int| #[trigger] old(board).scores_within(b) ==> final(board).scores_within(b),
        r is Some ==> combined_at(*final(board), *old(board), depth as nat, *cfg),
        r is Some && *cfg is Exhaustive ==> combined_keeping_at(*final(board), *old(board), depth as nat),
        r is Some ==> match *cfg {
            CombinerCfg::KeepLowCost { patt_limit, cull_ppm } => combined_low_at(
                *final(board),
                *old(board),
                depth as nat,
                patt_limit as int,
                cull_ppm as int,
            ),
            _ => true,
        },
        r is None ==> some_split_overflows(*final(board)),
        all_filled(*old(board)) ==> *final(board) == *old(board) && r is Some,
    decreases depth,
{
    if depth == 0 {
        return fill_all_combinations(board, cfg);
    }
    let ghost w0 = *board;
    let ghost b0 = choose|b: int| 0 <= b && b * area(w0.rect) <= i32::MAX && #[trigger] w0.scores_within(b);
    proof {
        lemma_halves_exposable(w0);
        assert(w0.score_cache_ok());
        assert(w0.exposure_cache_ok(Direction::Up));
        assert(w0.exposure_cache_ok(Direction::Down));
        assert(w0.exposure_cache_ok(Direction::Left));
        assert(w0.exposure_cache_ok(Direction::Right));
        assert(w0.sort_cache_ok(Direction::Up));
        assert(w0.sort_cache_ok(Direction::Down));
        assert(w0.sort_cache_ok(Direction::Left));
        assert(w0.sort_cache_ok(Direction::Right));
        match w0.inner {
            BoardWindowData::SplitHorizontal { left, right, .. } => {
                crate::scores::lemma_split_area(w0.rect, left.rect, right.rect);
                assert(b0 * area(left.rect) <= b0 * area(w0.rect) && b0 * area(right.rect) <= b0 * area(w0.rect)) by (nonlinear_arith)
                    requires
                        0 <= b0,
                        area(left.rect) <= area(w0.rect),
                        area(right.rect) <= area(w0.rect),
                ;
            },
            BoardWindowData::SplitVertical { top, bottom, .. } => {
                crate::scores::lemma_split_area(w0.rect, top.rect, bottom.rect);
                assert(b0 * area(top.rect) <= b0 * area(w0.rect) && b0 * area(bottom.rect) <= b0 * area(w0.rect)) by (nonlinear_arith)
                    requires
                        0 <= b0,
                        area(top.rect) <= area(w0.rect),
                        area(bottom.rect) <= area(w0.rect),
                ;
            },
            _ => {},
        }
    }
    let mut inner = BoardWindowData::Leaf { valid_boards: None };
    std::mem::swap(&mut inner, &mut board.inner);
    match inner {
        BoardWindowData::SplitHorizontal { left, right, valid_combos } => {
            let mut left = *left;
            let mut right = *right;
            let ghost l0 = left;
            let ghost r0 = right;
            proof {
                assert(left.scores_within(b0));
                assert(right.scores_within(b0));
            }
            let a = fill_combinations(&mut left, depth - 1, cfg);
            let c = fill_combinations(&mut right, depth - 1, cfg);
            board.inner = BoardWindowData::SplitHorizontal { left: Box::new(left), right: Box::new(right), valid_combos };
            proof {
                if valid_combos is Some {
                    assert(all_filled(w0));
                    assert(left == l0 && right == r0);
                }
                assert forall|d: Direction| #[trigger] board.exposure_cache_ok(d) by {
                    assert(w0.exposure_cache_ok(d));
                }
                assert forall|d: Direction| #[trigger] board.sort_cache_ok(d) by {
                    assert(w0.sort_cache_ok(d));
                }
                assert forall|bb: int| #[trigger] w0.scores_within(bb) implies board.scores_within(bb) by {
                    assert(l0.scores_within(bb));
                    assert(r0.scores_within(bb));
                }
                if all_filled(w0) {
                    assert(*board == w0);
                }
            }
            if a.is_none() || c.is_none() {
                return None;
            }
            Some(())
        },
        BoardWindowData::SplitVertical { top, bottom, valid_combos } => {
            let mut top = *top;
            let mut bottom = *bottom;
            let ghost t0 = top;
            let ghost u0 = bottom;
            proof {
                assert(top.scores_within(b0));
                assert(bottom.scores_within(b0));
            }
            let a = fill_combinations(&mut top, depth - 1, cfg);
            let c = fill_combinations(&mut bottom, depth - 1, cfg);
            board.inner = BoardWindowData::SplitVertical { top: Box::new(top), bottom: Box::new(bottom), valid_combos };
            proof {
                if valid_combos is Some {
                    assert(all_filled(w0));
                    assert(top == t0 && bottom == u0);
                }
                assert forall|d: Direction| #[trigger] board.exposure_cache_ok(d) by {
                    assert(w0.exposure_cache_ok(d));
                }
                assert forall|d: Direction| #[trigger] board.sort_cache_ok(d) by {
                    assert(w0.sort_cache_ok(d));
                }
                assert forall|bb: int| #[trigger] w0.scores_within(bb) implies board.scores_within(bb) by {
                    assert(t0.scores_within(bb));
                    assert(u0.scores_within(bb));
                }
                if all_filled(w0) {
                    assert(*board == w0);
                }
            }
            if a.is_none() || c.is_none() {
                return None;
            }
            Some(())
        },
        BoardWindowData::Leaf { .. } => {
            proof {
                assert(false);
            }
            None
        },
    }
}

} // verus!
