use std::collections::HashSet;
use tile_life::{CellState, ParseError, Pattern, RuleSet, Universe};

fn live_set(universe: &Universe) -> HashSet<(i64, i64)> {
    universe.live_cells().into_iter().collect()
}

#[test]
fn glider_rle_applies() {
    let mut universe = Universe::default();
    let r = universe.set_rle(0, 0, "bob$2bo$3o!");
    assert_eq!(Ok(()), r);
    let expected: HashSet<(i64, i64)> =
        [(1, 0), (2, 1), (0, 2), (1, 2), (2, 2)].into_iter().collect();
    assert_eq!(expected, live_set(&universe));
}

#[test]
fn rle_applies_at_anchor() {
    let mut universe = Universe::default();
    let r = universe.set_rle(-3, 5, "2o$2o!");
    assert_eq!(Ok(()), r);
    let expected: HashSet<(i64, i64)> =
        [(-3, 5), (-2, 5), (-3, 6), (-2, 6)].into_iter().collect();
    assert_eq!(expected, live_set(&universe));
}

#[test]
fn rle_header_and_comment_lines_are_skipped() {
    let mut universe = Universe::default();
    let text = "#N Blinker\n#C a comment with digits 123 and oo\nx = 3, y = 1, rule = B3/S23\n3o!";
    let r = universe.set_rle(1, 1, text);
    assert_eq!(Ok(()), r);
    let expected: HashSet<(i64, i64)> = [(1, 1), (2, 1), (3, 1)].into_iter().collect();
    assert_eq!(expected, live_set(&universe));
}

#[test]
fn rle_stops_at_bang() {
    let mut universe = Universe::default();
    let r = universe.set_rle(0, 0, "oo!oooo$oo");
    assert_eq!(Ok(()), r);
    let expected: HashSet<(i64, i64)> = [(0, 0), (1, 0)].into_iter().collect();
    assert_eq!(expected, live_set(&universe));
}

#[test]
fn rle_run_counts_and_row_breaks() {
    let mut universe = Universe::default();
    let r = universe.set_rle(0, 0, "4o$2b2o$2$o!");
    assert_eq!(Ok(()), r);
    let expected: HashSet<(i64, i64)> = [
        (0, 0),
        (1, 0),
        (2, 0),
        (3, 0),
        (2, 1),
        (3, 1),
        (0, 4),
    ]
    .into_iter()
    .collect();
    assert_eq!(expected, live_set(&universe));
}

#[test]
fn rle_dead_runs_kill_cells() {
    let mut universe = Universe::default();
    universe.set_cell(0, 0);
    universe.set_cell(1, 0);
    universe.set_cell(2, 0);
    let r = universe.set_rle(0, 0, "bBo!");
    assert_eq!(Ok(()), r);
    let expected: HashSet<(i64, i64)> = [(2, 0)].into_iter().collect();
    assert_eq!(expected, live_set(&universe));
}

#[test]
fn rle_whitespace_is_ignored() {
    let mut universe = Universe::default();
    let r = universe.set_rle(0, 0, " 2 o \t$\r\n o !");
    assert_eq!(Ok(()), r);
    let expected: HashSet<(i64, i64)> = [(0, 0), (1, 0), (0, 1)].into_iter().collect();
    assert_eq!(expected, live_set(&universe));
}

#[test]
fn rle_count_overflow_reports_error() {
    let mut universe = Universe::default();
    let r = universe.set_rle(0, 0, "o9999999999o!");
    assert_eq!(Err(ParseError::CountOverflow), r);
    // The writes decoded before the overflow stay applied.
    assert_eq!(CellState::Alive, universe.get_cell(0, 0));
    assert_eq!(1, universe.live_cells().len());
}

#[test]
fn rle_multi_digit_counts_accumulate() {
    let mut universe = Universe::default();
    let r = universe.set_rle(0, 0, "12bo$3$o!");
    assert_eq!(Ok(()), r);
    let expected: HashSet<(i64, i64)> = [(12, 0), (0, 4)].into_iter().collect();
    assert_eq!(expected, live_set(&universe));
}

#[test]
fn ruleset_names() {
    assert_eq!("Conway - B3/S23", RuleSet::Conway.to_string());
    assert_eq!(
        "Life without death - B3/S012345678",
        RuleSet::LifeWithoutDeath.to_string()
    );
    assert_eq!("Day & Night - B3678/S34678", RuleSet::DayAndNight.to_string());
    assert_eq!("Live Free Or Die - B2/S0", RuleSet::LiveFreeOrDie.to_string());
}

#[test]
fn ruleset_rule_vectors() {
    assert_eq!(vec![3u32], RuleSet::Conway.births());
    assert_eq!(vec![2u32, 3], RuleSet::Conway.survivals());
    assert_eq!(vec![3u32], RuleSet::LifeWithoutDeath.births());
    assert_eq!(
        vec![0u32, 1, 2, 3, 4, 5, 6, 7, 8],
        RuleSet::LifeWithoutDeath.survivals()
    );
    assert_eq!(vec![3u32, 6, 7, 8], RuleSet::DayAndNight.births());
    assert_eq!(vec![3u32, 4, 6, 7, 8], RuleSet::DayAndNight.survivals());
    assert_eq!(vec![2u32], RuleSet::LiveFreeOrDie.births());
    assert_eq!(vec![0u32], RuleSet::LiveFreeOrDie.survivals());
}

#[test]
fn ruleset_vectors_drive_the_engine() {
    // Life without death: nothing ever dies.
    let mut universe = Universe::new(
        RuleSet::LifeWithoutDeath.births(),
        RuleSet::LifeWithoutDeath.survivals(),
    );
    universe.set_cell(0, 0);
    universe.set_cell(1, 0);
    universe.set_cell(2, 0);
    for _ in 0..8 {
        universe.step();
        assert_eq!(CellState::Alive, universe.get_cell(0, 0));
        assert_eq!(CellState::Alive, universe.get_cell(1, 0));
        assert_eq!(CellState::Alive, universe.get_cell(2, 0));
    }
}

#[test]
fn pattern_names() {
    assert_eq!("Toggle Cell", Pattern::ToggleCell.to_string());
    assert_eq!("Glider", Pattern::Glider.to_string());
    assert_eq!("Gosper glider gun", Pattern::GosperGliderGun.to_string());
    assert_eq!("c/3 ladder", Pattern::C3Ladder.to_string());
    assert_eq!("Miscellaneous", Pattern::LFODMisc.to_string());
}
