use golly_preds::basic_grids::{Coord, Direction, Directions, Grid, Rect};
use golly_preds::ca::CACell;
use golly_preds::deep::{bordered_round, key_order, top_k_indices, DeepState};
use golly_preds::packed::PackedCells;
use golly_preds::rle::{header_error, parse_generic_rle, rle_fits};

fn cells(pattern: &[&str]) -> Grid<CACell> {
    let h = pattern.len() as i32;
    let w = pattern[0].len() as i32;
    let mut g = Grid::new(h, w, CACell::DEAD);
    for (y, row) in pattern.iter().enumerate() {
        for (x, c) in row.chars().enumerate() {
            if c == '*' {
                *g.get_mut(Coord { x: x as i32, y: y as i32 }) = CACell::ALIVE;
            }
        }
    }
    g
}

#[test]
fn directions_turn_and_face_back() {
    for d in [Direction::Up, Direction::Down, Direction::Left, Direction::Right] {
        assert_eq!(d.opposite().opposite(), d);
        assert_eq!(d.rotate_90_cw().rotate_90_cw(), d.opposite());
        assert_eq!(d.rotate_90_cw().rotate_90_cw().rotate_90_cw().rotate_90_cw(), d);
    }
    assert_eq!(Direction::Up.rotate_90_cw(), Direction::Right);
    assert_eq!(Direction::Left.rotate_90_cw(), Direction::Up);
}

#[test]
fn direction_sets() {
    let all = Directions::all();
    assert!(all.contains(Direction::Up) && all.contains(Direction::Right));
    assert_eq!(all.to_single(), None);
    assert_eq!(Directions::single(Direction::Left).to_single(), Some(Direction::Left));
    assert_eq!(Directions::empty().to_single(), None);
    let three = all.without(Direction::Down);
    assert!(!three.contains(Direction::Down));
    assert_eq!(three.iter().len(), 3);
    assert_eq!(Directions::from(Direction::Up), Directions::single(Direction::Up));
}

#[test]
fn rect_trim_and_size() {
    let r = Rect::new(0, 0, 4, 5);
    assert_eq!((r.width(), r.height()), (5, 4));
    assert_eq!(r.trim(Direction::Up, 1), Rect::new(1, 0, 4, 5));
    assert_eq!(r.trim(Direction::Down, 2), Rect::new(0, 0, 2, 5));
    assert_eq!(r.trim(Direction::Left, 3), Rect::new(0, 3, 4, 5));
    assert_eq!(r.trim(Direction::Right, 1), Rect::new(0, 0, 4, 4));
    assert!(r.is_inside(Coord { x: 4, y: 3 }));
    assert!(!r.is_inside(Coord { x: 5, y: 3 }));
}

#[test]
fn grid_rotation_and_four_turns() {
    let mut g = Grid::from_flat(3, vec![0, 1, 2, 3, 4, 5]);
    let orig = g.clone();
    g.rotate_90_cw_inplace();
    assert_eq!(g.size, Rect::new(0, 0, 3, 2));
    assert_eq!(g.data, vec![3, 0, 4, 1, 5, 2]);
    g.rotate_90_cw_inplace();
    g.rotate_90_cw_inplace();
    g.rotate_90_cw_inplace();
    assert_eq!(g.size, orig.size);
    assert_eq!(g.data, orig.data);
}

#[test]
fn grid_origin_and_map() {
    let mut g = Grid::from_flat(2, vec![1, 2, 3, 4]);
    g.set_origin(Coord { x: 10, y: -3 });
    assert_eq!(g.size, Rect::new(-3, 10, -1, 12));
    assert_eq!(*g.get(Coord { x: 11, y: -2 }), 4);
    let doubled = g.map(|v| v * 2);
    assert_eq!(doubled.data, vec![2, 4, 6, 8]);
    assert_eq!(doubled.size, g.size);
}

#[test]
fn plaintext_rendering() {
    let g = cells(&["*.", ".*"]);
    assert_eq!(g.to_plaintext(), "*.\n.*\n");
    let q = g.map(|&c| if c == CACell::ALIVE { Some(c) } else { None });
    let text = q.to_plaintext_generic(|c: &Option<CACell>| match c {
        None => '?',
        Some(CACell::ALIVE) => '*',
        Some(CACell::DEAD) => '.',
    });
    assert_eq!(text, "*?\n?*\n");
}

#[test]
fn pretty_rle_rendering() {
    let g = cells(&["*..", ".**"]);
    assert_eq!(g.to_pretty_rle("B3/S23"), "x = 3, y = 2, rule = B3/S23\nobb$\nboo!\n");
}

#[test]
fn pretty_rle_ends_the_last_row_of_a_moved_grid() {
    let mut g = cells(&["*", "*"]);
    g.set_origin(Coord { x: 0, y: 5 });
    assert_eq!(g.to_pretty_rle("B3/S23"), "x = 1, y = 2, rule = B3/S23\no$\no!\n");
    let mut h = cells(&["*.", ".*"]);
    h.set_origin(Coord { x: 0, y: 1 });
    assert_eq!(h.to_pretty_rle("B3/S23"), "x = 2, y = 2, rule = B3/S23\nob$\nbo!\n");
}

#[test]
fn borders_added_and_taken_off() {
    let g = cells(&["**", "*."]);
    let b = g.with_border(2);
    assert_eq!(b.size, Rect::new(-2, -2, 4, 4));
    assert_eq!(*b.get(Coord { x: -2, y: -2 }), CACell::DEAD);
    assert_eq!(*b.get(Coord { x: 1, y: 0 }), CACell::ALIVE);
    let back = b.without_border(2);
    assert_eq!(back.size, g.size);
    assert_eq!(back.data, g.data);

    let up = g.with_border_direction(3, Direction::Up);
    assert_eq!(up.size, Rect::new(-3, 0, 2, 2));
    assert_eq!(*up.get(Coord { x: 0, y: -1 }), CACell::DEAD);
    assert_eq!(*up.get(Coord { x: 0, y: 1 }), CACell::ALIVE);
    let right = g.with_border_direction(1, Direction::Right);
    assert_eq!(right.size, Rect::new(0, 0, 2, 3));

    let empty = cells(&["***", "***", "***"]).without_border(2);
    assert_eq!(empty.size, Rect::new(2, 2, 2, 2));
    assert!(empty.data.is_empty());
}

#[test]
fn border_rounds_go_clockwise() {
    let g = cells(&["*"]);
    let r = bordered_round(&g, 2, Direction::Up);
    assert_eq!(r.size, Rect::new(-1, 0, 1, 2));
    assert_eq!(*r.get(Coord { x: 0, y: 0 }), CACell::ALIVE);
    assert_eq!(r.population(), 1);
    let r5 = bordered_round(&g, 5, Direction::Left);
    assert_eq!(r5.size, Rect::new(-1, -2, 2, 2));
}

#[test]
fn population_counts_live_cells() {
    assert_eq!(cells(&["*.*", "..*"]).population(), 3);
    assert_eq!(cells(&["...", "..."]).population(), 0);
}

#[test]
fn rle_with_header() {
    let g = parse_generic_rle("#C a comment\nx = 3, y = 2, rule = B3/S23\nbo$2o!\n").unwrap();
    assert_eq!(g.size, Rect::new(0, 0, 2, 3));
    assert_eq!(g.data, vec!['b', 'o', '.', 'o', 'o', '.']);
}

#[test]
fn rle_without_header() {
    let g = parse_generic_rle("bo$obo!").unwrap();
    assert_eq!(g.size, Rect::new(0, 0, 2, 3));
    assert_eq!(g.data, vec!['b', 'o', '.', 'o', 'b', 'o']);
}

#[test]
fn rle_row_skips_and_data_over_lines() {
    let g = parse_generic_rle("x = 2, y = 3\r\no2$\n  o!  \nignored").unwrap();
    assert_eq!(g.data, vec!['o', '.', '.', '.', 'o', '.']);
}

#[test]
fn rle_zero_dimension() {
    assert_eq!(
        parse_generic_rle("x = 0, y = 3\n!").unwrap_err(),
        "RLE pattern has zero dimension"
    );
}

#[test]
fn rle_data_beyond_the_size() {
    assert_eq!(
        parse_generic_rle("x = 2, y = 1\n3o!").unwrap_err(),
        "RLE data exceeds declared dimensions x=2,y=1 at 2,0"
    );
    assert_eq!(
        parse_generic_rle("x = 2, y = 1\no$o!").unwrap_err(),
        "RLE data exceeds declared dimensions x=2,y=1 at 0,1"
    );
}

#[test]
fn rle_bad_header() {
    assert_eq!(
        parse_generic_rle("x = a, y = 2\no!").unwrap_err(),
        "could not parse RLE header: \"x = a, y = 2\""
    );
    assert_eq!(header_error("\"q\""), "could not parse RLE header: \"q\"");
}

#[test]
fn rle_reads_back_pretty_rle() {
    let g = cells(&["*..*", ".**.", "*..."]);
    let back = parse_generic_rle(&g.to_pretty_rle("B3/S23")).unwrap();
    assert_eq!(back.size, g.size);
    let expect: Vec<char> = g
        .data
        .iter()
        .map(|&c| if c == CACell::ALIVE { 'o' } else { 'b' })
        .collect();
    assert_eq!(back.data, expect);
}

#[test]
fn packed_join_then_trim() {
    let top = Rect::new(0, 0, 1, 2);
    let bottom = Rect::new(1, 0, 2, 2);
    let both = Rect::new(0, 0, 2, 2);
    let a = PackedCells(0b01);
    let b = PackedCells(0b10);
    let j = a.join(b, top, bottom, Direction::Down);
    assert_eq!(j, PackedCells(0b1001));
    assert_eq!(j.trim(both, Direction::Down, 1), a);
    assert_eq!(j.trim(both, Direction::Up, 1), b);
    let left = Rect::new(0, 0, 2, 1);
    let right = Rect::new(0, 1, 2, 2);
    let h = PackedCells(0b11).join(PackedCells(0b00), left, right, Direction::Right);
    assert_eq!(h, PackedCells(0b0101));
    assert_eq!(h.trim(both, Direction::Right, 1), PackedCells(0b11));
    assert_eq!(PackedCells::all_dead(), PackedCells(0));
}

#[test]
fn packed_cells_to_grid() {
    let g = PackedCells(0b100_010_001).to_grid(Rect::new(0, 0, 3, 3));
    assert_eq!(g.to_plaintext(), "*..\n.*.\n..*\n");
}

#[test]
fn top_k_picks_the_largest() {
    let mut r = top_k_indices(&vec![5, 1, 9, 3], 2);
    r.sort();
    assert_eq!(r, vec![0, 2]);
    assert_eq!(top_k_indices(&vec![4, 4], 3), vec![0, 1]);
    let r1 = top_k_indices(&vec![-7, i32::MIN, i32::MAX], 1);
    assert_eq!(r1, vec![2]);
}

#[test]
fn key_order_is_stable() {
    assert_eq!(key_order(&vec![3, 1, 3, 0]), vec![3, 1, 0, 2]);
    assert_eq!(key_order(&vec![]), Vec::<usize>::new());
}

#[test]
fn deep_search_steps() {
    let s = DeepState::start(3);
    assert_eq!(
        s,
        DeepState { gens_left: 3, input_num: 0, border_size: 0, start_side: Direction::Up }
    );
    let f1 = s.after_failure(2);
    assert_eq!(f1, DeepState { input_num: 1, ..s });
    let f2 = f1.after_failure(2);
    assert_eq!(
        f2,
        DeepState { gens_left: 3, input_num: 0, border_size: 1, start_side: Direction::Right }
    );
    let f3 = f2.after_failure(1);
    assert_eq!(
        f3,
        DeepState { gens_left: 3, input_num: 0, border_size: 1, start_side: Direction::Down }
    );
    let left = DeepState { gens_left: 3, input_num: 0, border_size: 2, start_side: Direction::Left };
    assert_eq!(left.after_failure(1).border_size, 3);
    assert_eq!(left.after_failure(1).start_side, Direction::Up);
    assert_eq!(
        f3.after_success(),
        DeepState { gens_left: 2, input_num: 0, border_size: 0, start_side: Direction::Up }
    );
}

#[test]
fn pretty_rle_reads_back() {
    let g = cells(&["*..*", ".**.", "*.*."]);
    let back = parse_generic_rle(&g.to_pretty_rle("B3/S23")).unwrap();
    assert_eq!(back.size, g.size);
    let expected: Vec<char> = g
        .data
        .iter()
        .map(|&c| if c == CACell::ALIVE { 'o' } else { 'b' })
        .collect();
    assert_eq!(back.data, expected);
}

#[test]
fn packed_to_grid_of_an_empty_long_strip() {
    let g = PackedCells(0).to_grid(Rect { top: 0, left: 0, bottom: 0, right: 500 });
    assert_eq!(g.size, Rect { top: 0, left: 0, bottom: 0, right: 500 });
    assert!(g.data.is_empty());
    let h = PackedCells(0b101).to_grid(Rect { top: 0, left: 0, bottom: 1, right: 3 });
    assert_eq!(h.data, vec![CACell::ALIVE, CACell::DEAD, CACell::ALIVE]);
}

#[test]
fn pretty_rle_of_a_moved_grid_reads_back() {
    let mut g = cells(&["*.*", ".**"]);
    g.set_origin(Coord { x: -4, y: 7 });
    let back = parse_generic_rle(&g.to_pretty_rle("B36/S23")).unwrap();
    assert_eq!(back.size, Rect::new(0, 0, 2, 3));
    assert_eq!(back.data, vec!['o', 'b', 'o', 'b', 'o', 'o']);
}

#[test]
fn rle_limits_checked() {
    assert!(rle_fits("x = 3, y = 1\n3o!"));
    assert!(rle_fits("bo$2bo$3o!"));
    assert!(rle_fits("x = 0, y = 2\n!"));
    assert!(rle_fits("x = 3\n"));
    assert!(!rle_fits("99999999999o!"));
    assert!(!rle_fits("x = 100000, y = 100000\nbo!"));
    assert!(!rle_fits("x = 3, y = 3\n3000000000$o!"));
    assert!(!rle_fits("x = 3, y = 3\n99999999999!"));
    assert!(rle_fits("x = 3, y = 3\n5o99999999999!"));
}
