use golly_preds::basic_grids::Coord;
use golly_preds::ca::{parse_rule, CACell, CfgError, RuleError, RuleLut, RulePart};
use golly_preds::packed::PackedCells;

#[test]
fn life_transitions() {
    let lut = RuleLut::cost_as_population_from_rule("B3S23");
    // A live centre with two live neighbours survives.
    assert_eq!(lut.evolve(PackedCells(0b010_010_010)), Some(CACell::ALIVE));
    // A dead centre with three live neighbours is born.
    assert_eq!(lut.evolve(PackedCells(0b000_000_111)), Some(CACell::ALIVE));
    // Loneliness and overcrowding.
    assert_eq!(lut.evolve(PackedCells(0b000_010_000)), Some(CACell::DEAD));
    assert_eq!(lut.evolve(PackedCells(0b111_111_111)), Some(CACell::DEAD));
    // Bits above the nine cells are ignored.
    assert_eq!(lut.evolve(PackedCells(0b1_000_000_000 | 0b000_000_111)), Some(CACell::ALIVE));
}

#[test]
fn rule_case_does_not_matter() {
    let a = RuleLut::cost_as_population_from_rule("b3s23");
    let b = RuleLut::cost_as_population_from_rule("B3S23");
    assert_eq!(a.transition_allowed, b.transition_allowed);
    assert_eq!(a.transition_cost, b.transition_cost);
}

#[test]
fn predecessor_counts() {
    let lut = RuleLut::cost_as_population_from_rule("B3S23");
    // Births: 8 choose 3; survivals: 8 choose 2 plus 8 choose 3.
    assert_eq!(lut.get_pred(CACell::ALIVE).len(), 56 + 28 + 56);
    assert_eq!(lut.get_pred(CACell::DEAD).len(), 512 - 140);
    let p = Coord { x: 0, y: 0 };
    assert_eq!(lut.get_pieces(CACell::ALIVE, p).len(), 140);
    assert_eq!(lut.filter_pieces(Some(CACell::ALIVE), Some(CACell::ALIVE), p).len(), 84);
    assert_eq!(lut.filter_pieces(Some(CACell::DEAD), Some(CACell::ALIVE), p).len(), 56);
    assert_eq!(lut.filter_pieces(None, None, p).len(), 512);
}

#[test]
fn scores_count_the_old_centre() {
    let lut = RuleLut::cost_as_population_from_rule("B3S23");
    assert_eq!(lut.get_score(&PackedCells(0b010_010_010), Some(CACell::ALIVE)), 1);
    assert_eq!(lut.get_score(&PackedCells(0b000_000_111), Some(CACell::ALIVE)), 0);
    assert_eq!(lut.get_score(&PackedCells(0b000_010_000), None), 0);
    for (piece, cost) in lut.get_pieces(CACell::ALIVE, Coord { x: 3, y: 4 }) {
        assert_eq!(cost, ((piece.0 >> 4) & 1) as i32);
    }
}

#[test]
fn rule_errors() {
    assert_eq!(parse_rule("S23").unwrap_err(), RuleError::MissingBirthMarker);
    assert_eq!(parse_rule("").unwrap_err(), RuleError::MissingBirthMarker);
    assert_eq!(parse_rule("B3").unwrap_err(), RuleError::MissingSurvivalMarker);
    assert_eq!(parse_rule("B3S2B").unwrap_err(), RuleError::RepeatedMarker);
    assert_eq!(parse_rule("B9S23").unwrap_err(), RuleError::DigitOutOfRange(9, RulePart::Birth));
    assert_eq!(parse_rule("B33S").unwrap_err(), RuleError::DuplicateDigit(3, RulePart::Birth));
    assert_eq!(
        parse_rule("B3S2x").unwrap_err(),
        RuleError::InvalidCharacter('X', RulePart::Survival)
    );
    assert!(RuleLut::try_cost_as_population_from_rule("Q").is_err());
    assert!(RuleLut::try_generate_count_pop_cfg("B3").is_err());
}

#[test]
fn rule_sets() {
    let (born, surv) = parse_rule("B36S23").unwrap();
    let b: Vec<usize> = (0..9).filter(|&d| born[d]).collect();
    let s: Vec<usize> = (0..9).filter(|&d| surv[d]).collect();
    assert_eq!(b, vec![3, 6]);
    assert_eq!(s, vec![2, 3]);
}

#[test]
fn generated_table() {
    let cfg = RuleLut::generate_count_pop_cfg("B3S23");
    assert_eq!(cfg.lines().count(), 512);
    assert_eq!(cfg.lines().next(), Some("0,0,0,0,0,0,0,0,0,0=0"));
    let lines: Vec<&str> = cfg.lines().collect();
    assert_eq!(lines[1], "0,0,0,0,1,0,0,0,0,0=0");
    assert_eq!(lines[7], "0,0,0,0,1,1,1,0,0,1=0");
    assert_eq!(lines[16], "1,0,0,0,0,0,0,0,0,0=1");
    assert_eq!(lines[256], "0,0,0,0,0,0,0,0,1,0=0");
    assert_eq!(lines[0b1_1101_0000], "1,1,1,0,0,0,0,0,1,1=1");
    let lut = RuleLut::from_cfg(&cfg);
    let direct = RuleLut::cost_as_population_from_rule("B3S23");
    assert_eq!(lut.transition_allowed, direct.transition_allowed);
    assert_eq!(lut.transition_cost, direct.transition_cost);
}

#[test]
fn table_errors() {
    assert_eq!(
        RuleLut::parse_cfg("0,0,0,0,0,0,0,0,0,0\n").err(),
        Some(CfgError::MissingScoreSeparator(1))
    );
    assert_eq!(
        RuleLut::parse_cfg("\n0,0,0,0,0,0,0,0,0,1=x\n").err(),
        Some(CfgError::InvalidScore(2))
    );
    assert_eq!(
        RuleLut::parse_cfg("0,0,0,0,0,0,0,0,300,1=0").err(),
        Some(CfgError::InvalidState(1))
    );
    assert_eq!(
        RuleLut::parse_cfg("0,0,0,0,0,0,0,0,1=0").err(),
        Some(CfgError::WrongStateCount(1, 9))
    );
    let lut = RuleLut::parse_cfg("0,0,0,1,0,1,0,1,0,1=5\n").ok().unwrap();
    assert_eq!(lut.evolve(PackedCells(0)), None);
    let alive: Vec<u128> = (0..512u128)
        .filter(|&g| lut.evolve(PackedCells(g)) == Some(CACell::ALIVE))
        .collect();
    assert_eq!(alive.len(), 1);
    assert_eq!(lut.get_score(&PackedCells(alive[0]), Some(CACell::ALIVE)), 5);
}

#[test]
fn table_fields_land_on_their_cells() {
    // Only the northern neighbour alive: row 0, column 1 of the window, bit 1.
    let r = RuleLut::from_cfg("0,1,0,0,0,0,0,0,0,1=0");
    assert_eq!(r.evolve(PackedCells(0b10)), Some(CACell::ALIVE));
    assert_eq!(r.evolve(PackedCells(1 << 7)), None);
    // North-west is bit 0, south-east bit 8, east bit 5, west bit 3.
    assert_eq!(RuleLut::from_cfg("0,0,0,0,0,0,0,0,1,1=0").evolve(PackedCells(1)), Some(CACell::ALIVE));
    assert_eq!(RuleLut::from_cfg("0,0,0,0,1,0,0,0,0,1=0").evolve(PackedCells(1 << 8)), Some(CACell::ALIVE));
    assert_eq!(RuleLut::from_cfg("0,0,0,1,0,0,0,0,0,1=0").evolve(PackedCells(1 << 5)), Some(CACell::ALIVE));
    assert_eq!(RuleLut::from_cfg("0,0,0,0,0,0,0,1,0,1=0").evolve(PackedCells(1 << 3)), Some(CACell::ALIVE));
}

#[test]
fn filter_pieces_composes_get_pieces() {
    let lut = RuleLut::cost_as_population_from_rule("B36S23");
    let p = Coord { x: 1, y: 2 };
    let states = [None, Some(CACell::DEAD), Some(CACell::ALIVE)];
    for g0 in states {
        for g1 in states {
            let mut expected: Vec<(PackedCells, i32)> = Vec::new();
            for c in [CACell::DEAD, CACell::ALIVE] {
                if g1.is_none_or(|x| x == c) {
                    expected.extend(lut.get_pieces(c, p));
                }
            }
            expected.retain(|(g, _)| g0.is_none_or(|x| ((g.0 >> 4) & 1) as u8 == x.into_u8()));
            assert_eq!(lut.filter_pieces(g0, g1, p), expected);
        }
    }
}

#[test]
fn evolve_agrees_with_pieces() {
    let lut = RuleLut::cost_as_population_from_rule("B36S23");
    let p = Coord { x: 0, y: 0 };
    let dead: Vec<u128> = lut.get_pieces(CACell::DEAD, p).iter().map(|(g, _)| g.0).collect();
    let alive: Vec<u128> = lut.get_pieces(CACell::ALIVE, p).iter().map(|(g, _)| g.0).collect();
    assert_eq!(dead.len() + alive.len(), 512);
    for g in 0..512u128 {
        let expected = match (alive.contains(&g), dead.contains(&g)) {
            (true, false) => Some(CACell::ALIVE),
            (false, true) => Some(CACell::DEAD),
            _ => None,
        };
        assert_eq!(lut.evolve(PackedCells(g)), expected);
        let k = (g & !16).count_ones();
        let next = if (g >> 4) & 1 == 1 { k == 2 || k == 3 } else { k == 3 || k == 6 };
        assert_eq!(expected, Some(if next { CACell::ALIVE } else { CACell::DEAD }));
    }
}
