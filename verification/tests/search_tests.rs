use std::collections::{BTreeMap, BTreeSet};

use golly_preds::basic_grids::{Coord, Directions, Grid};
use golly_preds::board::BoardWindow;
use golly_preds::ca::{CACell, RuleLut};
use golly_preds::layers::extract_and_cull;
use golly_preds::matching::{all_block_pairs, pairs_at_places, sample_block_pairs, total_pairs};
use golly_preds::packed::PackedCells;
use golly_preds::culled::exhaustive_search_culled;
use golly_preds::predecessors::exhaustive_search;
use golly_preds::search::{fill_combinations, CombinerCfg};

/// The 3x3 neighbourhood of `(x, y)` in the `n` by `n` board `p` (dead outside).
fn neighborhood(p: u32, n: i32, x: i32, y: i32) -> PackedCells {
    let mut v = 0u128;
    for dy in -1..=1 {
        for dx in -1..=1 {
            let (xx, yy) = (x + dx, y + dy);
            if xx >= 0 && xx < n && yy >= 0 && yy < n && (p >> (yy * n + xx)) & 1 == 1 {
                v |= 1 << ((dy + 1) * 3 + (dx + 1));
            }
        }
    }
    PackedCells(v)
}

/// The successor of `p` when it stays inside the `n` by `n` window.
fn evolve_square(rule: &RuleLut, n: i32, p: u32) -> Option<u32> {
    for y in -1..=n {
        for x in -1..=n {
            let on_ring = x == -1 || x == n || y == -1 || y == n;
            if on_ring && rule.evolve(neighborhood(p, n, x, y)).unwrap() == CACell::ALIVE {
                return None;
            }
        }
    }
    let mut t = 0u32;
    for y in 0..n {
        for x in 0..n {
            if rule.evolve(neighborhood(p, n, x, y)).unwrap() == CACell::ALIVE {
                t |= 1 << (y * n + x);
            }
        }
    }
    Some(t)
}

fn ground_truth(rule: &RuleLut, n: i32) -> BTreeMap<u32, BTreeSet<u32>> {
    let mut truth: BTreeMap<u32, BTreeSet<u32>> = BTreeMap::new();
    for p in 0..(1u32 << (n * n)) {
        if let Some(t) = evolve_square(rule, n, p) {
            truth.entry(t).or_default().insert(p);
        }
    }
    truth
}

fn target_grid(n: i32, target: u32) -> Grid<CACell> {
    let mut g = Grid::new(n, n, CACell::DEAD);
    for y in 0..n {
        for x in 0..n {
            if (target >> (y * n + x)) & 1 == 1 {
                *g.get_mut(Coord { x, y }) = CACell::ALIVE;
            }
        }
    }
    g
}

fn grid_to_u32(n: i32, g: &Grid<CACell>) -> u32 {
    let mut p = 0u32;
    for y in 0..n {
        for x in 0..n {
            if *g.get(Coord { x, y }) == CACell::ALIVE {
                p |= 1 << (y * n + x);
            }
        }
    }
    p
}

fn search_predecessors(rule: &RuleLut, n: i32, target: u32, cull: bool) -> BTreeSet<u32> {
    let grid = target_grid(n, target);
    let mut bw = BoardWindow::new(grid.size, Directions::all(), n as u64, n as u64);
    bw.fill_leaves(rule, &Grid::from_rect(bw.rect, None), &grid.map(|&x| Some(x)))
        .unwrap();
    if cull {
        for d in (1..=bw.min_leaf_depth()).rev() {
            fill_combinations(&mut bw, d, &CombinerCfg::Exhaustive).unwrap();
            extract_and_cull(&mut bw, d).unwrap();
            bw.free_caches(d as i32);
        }
    }
    fill_combinations(&mut bw, 0, &CombinerCfg::Exhaustive).unwrap();
    let k = bw.get_num_valid_boards().unwrap();
    let mut out = BTreeSet::new();
    for i in 0..k {
        let board = bw.extract_board(i).unwrap();
        assert_eq!(board.size.width(), n + 2);
        out.insert(grid_to_u32(n, &board));
    }
    out
}

fn check_targets(n: i32, stride: usize) {
    let rule = RuleLut::cost_as_population_from_rule("B3S23");
    let truth = ground_truth(&rule, n);
    assert!(!truth.is_empty());
    for (t, expected) in truth.iter().step_by(stride) {
        for &cull in &[false, true] {
            let found = search_predecessors(&rule, n, *t, cull);
            assert_eq!(&found, expected, "target {t:#b}, cull {cull}");
        }
    }
}

#[test]
fn exhaustive_3x3_every_target() {
    check_targets(3, 1);
}

#[test]
fn exhaustive_4x4_sample() {
    check_targets(4, 97);
}

#[test]
fn every_found_board_evolves_into_the_target() {
    let rule = RuleLut::cost_as_population_from_rule("B3S23");
    // A blinker in a 3x3 window.
    let target = 0b000_111_000;
    let found = search_predecessors(&rule, 3, target, false);
    assert!(!found.is_empty());
    for p in found {
        assert_eq!(evolve_square(&rule, 3, p), Some(target));
    }
}

#[test]
fn unreachable_target_has_no_predecessor() {
    let rule = RuleLut::cost_as_population_from_rule("B3S23");
    let truth = ground_truth(&rule, 3);
    let missing = (0..512u32).find(|t| !truth.contains_key(t)).unwrap();
    assert!(search_predecessors(&rule, 3, missing, false).is_empty());
    assert!(search_predecessors(&rule, 3, missing, true).is_empty());
}

#[test]
fn stats_count_alive_and_dead_boards() {
    let rule = RuleLut::cost_as_population_from_rule("B3S23");
    let grid = target_grid(2, 0b11_11);
    let mut bw = BoardWindow::new(grid.size, Directions::all(), 2, 2);
    bw.fill_leaves(&rule, &Grid::from_rect(bw.rect, None), &grid.map(|&x| Some(x)))
        .unwrap();
    fill_combinations(&mut bw, 0, &CombinerCfg::Exhaustive).unwrap();
    let n = bw.get_num_valid_boards().unwrap();
    assert!(n > 0);
    let stats = bw.get_all_boards_stats().unwrap();
    for y in 0..2 {
        for x in 0..2 {
            let p = Coord { x, y };
            let alive = (0..n)
                .filter(|&i| *bw.extract_board(i).unwrap().get(p) == CACell::ALIVE)
                .count() as u32;
            assert_eq!(*stats.get(p), (alive, n as u32 - alive));
        }
    }
}

#[test]
fn culling_by_score_keeps_the_lowest() {
    let rule = RuleLut::cost_as_population_from_rule("B3S23");
    // Many boards die out within a 3x3 window.
    let grid = target_grid(3, 0);
    let mut bw = BoardWindow::new(grid.size, Directions::all(), 3, 3);
    bw.fill_leaves(&rule, &Grid::from_rect(bw.rect, None), &grid.map(|&x| Some(x)))
        .unwrap();
    fill_combinations(&mut bw, 0, &CombinerCfg::Exhaustive).unwrap();
    let n = bw.get_num_valid_boards().unwrap();
    assert!(n > 2);
    bw.build_score_cache();
    let mut scores: Vec<i32> = (0..n).map(|i| bw.get_score(i).unwrap()).collect();
    scores.sort();
    bw.cull_worst_scores(2).unwrap();
    assert_eq!(bw.get_num_valid_boards(), Some(2));
    bw.build_score_cache();
    let mut kept: Vec<i32> = (0..2).map(|i| bw.get_score(i).unwrap()).collect();
    kept.sort();
    assert_eq!(kept, scores[..2].to_vec());
}

#[test]
fn exhaustive_search_finds_exactly_the_predecessors() {
    let rule = RuleLut::cost_as_population_from_rule("B3S23");
    let truth = ground_truth(&rule, 3);
    for (t, expected) in truth.iter().step_by(7) {
        let grid = target_grid(3, *t);
        let gen0: Grid<Option<CACell>> = Grid::from_rect(grid.size, None);
        let gen1 = grid.map(|&x| Some(x));
        let w = match exhaustive_search(&rule, &gen0, &gen1) {
            Ok(w) => w,
            Err(_) => panic!("too many combinations"),
        };
        let n = w.get_num_valid_boards().unwrap();
        let found: BTreeSet<u32> = (0..n).map(|i| grid_to_u32(3, &w.extract_board(i).unwrap())).collect();
        assert_eq!(&found, expected);
        assert_eq!(n as usize, expected.len());
    }
}

#[test]
fn exhaustive_search_respects_the_earlier_generation() {
    let rule = RuleLut::cost_as_population_from_rule("B3S23");
    // Block: only boards whose centre cell (1, 1) is alive.
    let grid = target_grid(3, 0b000_011_011);
    let mut gen0: Grid<Option<CACell>> = Grid::from_rect(grid.size, None);
    *gen0.get_mut(Coord { x: 1, y: 1 }) = Some(CACell::ALIVE);
    let gen1 = grid.map(|&x| Some(x));
    let w = match exhaustive_search(&rule, &gen0, &gen1) {
        Ok(w) => w,
        Err(_) => panic!("too many combinations"),
    };
    let n = w.get_num_valid_boards().unwrap();
    let truth = ground_truth(&rule, 3);
    let expected: BTreeSet<u32> = truth[&0b000_011_011].iter().copied().filter(|p| (p >> 4) & 1 == 1).collect();
    let found: BTreeSet<u32> = (0..n).map(|i| grid_to_u32(3, &w.extract_board(i).unwrap())).collect();
    assert_eq!(found, expected);
}

#[test]
fn culled_search_keeps_every_predecessor() {
    let rule = RuleLut::cost_as_population_from_rule("B3S23");
    for n in [3, 4] {
        let truth = ground_truth(&rule, n);
        let stride = if n == 3 { 5 } else { 997 };
        for (t, expected) in truth.iter().step_by(stride) {
            let grid = target_grid(n, *t);
            let gen0: Grid<Option<CACell>> = Grid::from_rect(grid.size, None);
            let gen1 = grid.map(|&x| Some(x));
            let w = match exhaustive_search_culled(&rule, &gen0, &gen1) {
                Ok(w) => w,
                Err(_) => panic!("too many combinations"),
            };
            let k = w.get_num_valid_boards().unwrap();
            let found: BTreeSet<u32> = (0..k).map(|i| grid_to_u32(n, &w.extract_board(i).unwrap())).collect();
            assert_eq!(&found, expected);
            assert_eq!(k as usize, expected.len());
        }
    }
}

#[test]
fn pairs_at_drawn_places_in_enumeration_order() {
    let o1: Vec<(u128, u64)> = vec![(1, 0), (1, 1), (2, 2)];
    let o2: Vec<(u128, u64)> = vec![(1, 5), (2, 6), (2, 7)];
    let blocks = BoardWindow::get_matches(&o1, &o2);
    assert_eq!(blocks, vec![((0, 2), (0, 1)), ((2, 3), (1, 3))]);
    assert_eq!(total_pairs(&o1, &o2, &blocks), Some(4));
    assert_eq!(all_block_pairs(&o1, &o2, &blocks), vec![(0, 5), (1, 5), (2, 6), (2, 7)]);
    assert_eq!(pairs_at_places(&o1, &o2, &blocks, 4, &vec![3, 0]), vec![(0, 5), (2, 7)]);
    assert_eq!(pairs_at_places(&o1, &o2, &blocks, 4, &vec![2, 1]), vec![(1, 5), (2, 6)]);
    assert_eq!(pairs_at_places(&o1, &o2, &blocks, 4, &vec![]), vec![]);
    let drawn = sample_block_pairs(&o1, &o2, &blocks, 4, 3);
    assert_eq!(drawn.len(), 3);
    let all = all_block_pairs(&o1, &o2, &blocks);
    let mut at = 0;
    for p in &drawn {
        while all[at] != *p {
            at += 1;
        }
        at += 1;
    }
}
