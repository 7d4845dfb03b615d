use dice::dispatch::get_args;
use dice::distribution::{cartesian_product, distribution, pools, sort_distribution, stats};
use dice::mode::{resolve_mode, same_text, HelpTopic, Mode, RollKind, StatsOrder};
use dice::notation::{parse_die, parse_numeral, DiceError};
use dice::roller::{individual_sides, max_sum, roll, roll_rolls, roll_sum, roll_sum_rolls, RollOutcome};

fn words(ws: &[&str]) -> Vec<String> {
    ws.iter().map(|w| w.to_string()).collect()
}

#[test]
fn parses_plain_tokens() {
    assert_eq!(parse_die("4d6"), Ok((4, 6)));
    assert_eq!(parse_die("0d6"), Ok((0, 6)));
    assert_eq!(parse_die("12d20"), Ok((12, 20)));
    assert_eq!(parse_die("+2d+8"), Ok((2, 8)));
}

#[test]
fn rejects_malformed_tokens() {
    for t in ["4x6", "4d", "dd6", "4d6d2", "d6", "", "d", "4d0", "-1d6", "4 d6", "4d6 ", "+d6", "é4d6"] {
        assert_eq!(parse_die(t), Err(DiceError::InvalidDiceToken), "{}", t);
    }
}

#[test]
fn rejects_counts_past_usize() {
    assert_eq!(parse_die("99999999999999999999999d6"), Err(DiceError::InvalidDiceToken));
    let max = format!("{}d6", usize::MAX);
    assert_eq!(parse_die(&max), Ok((usize::MAX, 6)));
}

#[test]
fn numerals_read_a_range_of_bytes() {
    let b = b"x123y";
    assert_eq!(parse_numeral(b, 1, 4), Some(123));
    assert_eq!(parse_numeral(b, 1, 1), None);
    assert_eq!(parse_numeral(b, 0, 4), None);
}

#[test]
fn two_two_sided_dice() {
    let dice = vec![(2, 2)];
    let r = stats(&dice, StatsOrder::Val);
    assert_eq!(r, vec![(2, 1), (3, 2), (4, 1)]);
    let combos: usize = r.iter().map(|e| e.1).sum();
    assert_eq!(combos, 4);
}

#[test]
fn one_sided_die_shifts_sums() {
    let dice = vec![(1, 1), (2, 2)];
    let r = stats(&dice, StatsOrder::Val);
    assert_eq!(r, vec![(3, 1), (4, 2), (5, 1)]);
    let combos: usize = r.iter().map(|e| e.1).sum();
    assert_eq!(combos, 4);
}

#[test]
fn orders_by_value_and_by_frequency() {
    let dice = vec![(2, 6)];
    let by_val = stats(&dice, StatsOrder::Val);
    assert_eq!(by_val.len(), 11);
    assert!(by_val.windows(2).all(|w| w[0].0 <= w[1].0));
    assert_eq!(by_val[5], (7, 6));
    let by_freq = stats(&dice, StatsOrder::Freq);
    assert_eq!(by_freq.len(), 11);
    assert!(by_freq.windows(2).all(|w| w[0].1 <= w[1].1));
    assert_eq!(by_freq.last(), Some(&(7, 6)));
    assert_eq!(by_freq[0].1, 1);
}

#[test]
fn three_six_sided_dice_count() {
    let r = stats(&vec![(3, 6)], StatsOrder::Val);
    let combos: usize = r.iter().map(|e| e.1).sum();
    assert_eq!(combos, 216);
    assert_eq!(r[0], (3, 1));
    assert_eq!(r[7], (10, 27));
}

#[test]
fn distribution_is_repeatable() {
    let dice = vec![(2, 4), (1, 3)];
    assert_eq!(stats(&dice, StatsOrder::Val), stats(&dice, StatsOrder::Val));
    assert_eq!(stats(&dice, StatsOrder::Freq), stats(&dice, StatsOrder::Freq));
    assert_eq!(distribution(&dice), distribution(&dice));
}

#[test]
fn no_dice_gives_one_empty_combination() {
    assert_eq!(stats(&vec![], StatsOrder::Val), vec![(0, 1)]);
    assert_eq!(stats(&vec![], StatsOrder::Freq), vec![(0, 1)]);
    assert_eq!(stats(&vec![(0, 6)], StatsOrder::Freq), vec![(0, 1)]);
}

#[test]
fn stats_without_dice_is_refused() {
    assert_eq!(get_args(&words(&["stats"])), Err(DiceError::MissingDice));
    assert_eq!(get_args(&words(&["stats", "val"])), Err(DiceError::MissingDice));
    assert_eq!(get_args(&words(&["stats", "freq"])), Err(DiceError::MissingDice));
}

#[test]
fn roll_defaults_to_one_six_sided_die() {
    assert_eq!(get_args(&words(&[])), get_args(&words(&["1d6"])));
    assert_eq!(get_args(&words(&[])), Ok((vec![(1, 6)], Mode::Roll(RollKind::SumRolls))));
    assert_eq!(get_args(&words(&["roll"])), get_args(&words(&["roll", "1d6"])));
    assert_eq!(get_args(&words(&["roll", "sum"])), get_args(&words(&["roll", "sum", "1d6"])));
    assert_eq!(
        get_args(&words(&["roll", "rolls"])),
        Ok((vec![(1, 6)], Mode::Roll(RollKind::Rolls)))
    );
}

#[test]
fn resolves_modes() {
    assert_eq!(
        get_args(&words(&["stats", "val", "2d2", "1d4"])),
        Ok((vec![(2, 2), (1, 4)], Mode::Stats(StatsOrder::Val)))
    );
    assert_eq!(get_args(&words(&["stats", "3d6"])), Ok((vec![(3, 6)], Mode::Stats(StatsOrder::Freq))));
    assert_eq!(get_args(&words(&["help"])), Ok((vec![(1, 6)], Mode::Help(HelpTopic::General))));
    assert_eq!(get_args(&words(&["help", "roll"])), Ok((vec![(1, 6)], Mode::Help(HelpTopic::Roll))));
    assert_eq!(get_args(&words(&["help", "stats"])), Ok((vec![(1, 6)], Mode::Help(HelpTopic::Stats))));
    assert_eq!(
        get_args(&words(&["roll", "sum_rolls", "2d8"])),
        Ok((vec![(2, 8)], Mode::Roll(RollKind::SumRolls)))
    );
    assert_eq!(get_args(&words(&["5d4"])), Ok((vec![(5, 4)], Mode::Roll(RollKind::SumRolls))));
    assert_eq!(resolve_mode(&words(&["roll", "4d6"])), (Mode::Roll(RollKind::SumRolls), 1));
    assert_eq!(resolve_mode(&words(&["stats", "val"])), (Mode::Stats(StatsOrder::Val), 2));
    assert_eq!(resolve_mode(&words(&["4d6", "roll"])), (Mode::Roll(RollKind::SumRolls), 0));
}

#[test]
fn unknown_words_reach_the_parser() {
    assert_eq!(get_args(&words(&["roll", "twice"])), Err(DiceError::InvalidDiceToken));
    assert_eq!(get_args(&words(&["stats", "mean", "2d6"])), Err(DiceError::InvalidDiceToken));
    assert_eq!(get_args(&words(&["2d6", "x"])), Err(DiceError::InvalidDiceToken));
    assert_eq!(get_args(&words(&["help", "me"])), Err(DiceError::InvalidDiceToken));
}

#[test]
fn error_messages() {
    assert_eq!(DiceError::InvalidDiceToken.message(), "Invalid argument");
    assert_eq!(DiceError::MissingDice.message(), "No dice provided");
}

#[test]
fn compares_text() {
    assert!(same_text("roll", "roll"));
    assert!(!same_text("roll", "rolls"));
    assert!(!same_text("", "a"));
    assert!(same_text("", ""));
}

#[test]
fn rolls_stay_on_the_faces() {
    for _ in 0..50 {
        let rolls = roll_rolls(&vec![(3, 6), (2, 4)]);
        assert_eq!(rolls.len(), 5);
        assert!(rolls[..3].iter().all(|&r| (1..=6).contains(&r)));
        assert!(rolls[3..].iter().all(|&r| (1..=4).contains(&r)));
        let s = roll_sum(&vec![(3, 6)]);
        assert!((3..=18).contains(&s));
    }
}

#[test]
fn rolls_are_not_all_the_highest_face() {
    let rolls = roll_rolls(&vec![(200, 6)]);
    assert!(rolls.iter().any(|&r| r != 6));
    assert!(rolls.iter().any(|&r| r != 1));
}

#[test]
fn one_sided_dice_always_show_one() {
    assert_eq!(roll_rolls(&vec![(4, 1)]), vec![1, 1, 1, 1]);
    assert_eq!(roll_sum(&vec![(4, 1), (0, 9)]), 4);
    assert_eq!(roll_sum(&vec![]), 0);
}

#[test]
fn roll_reports_what_is_asked() {
    let dice = vec![(2, 1)];
    assert_eq!(roll(&dice, RollKind::Sum), RollOutcome::Sum(2));
    assert_eq!(roll(&dice, RollKind::Rolls), RollOutcome::Rolls(vec![1, 1]));
    assert_eq!(roll(&dice, RollKind::SumRolls), RollOutcome::SumRolls(2, vec![1, 1]));
    let (s, v) = roll_sum_rolls(&vec![(2, 6)]);
    assert!((2..=12).contains(&s));
    assert_eq!(v.len(), 2);
}

#[test]
fn largest_total() {
    assert_eq!(max_sum(&vec![(3, 6), (2, 4)]), Some(26));
    assert_eq!(max_sum(&vec![]), Some(0));
    assert_eq!(max_sum(&vec![(usize::MAX, 2)]), None);
    assert_eq!(max_sum(&vec![(1, usize::MAX), (1, 1)]), None);
    assert_eq!(max_sum(&vec![(1, usize::MAX)]), Some(usize::MAX));
}

#[test]
fn expands_dice_into_pools() {
    assert_eq!(individual_sides(&vec![(2, 6), (0, 3), (1, 4)]), vec![6, 6, 4]);
    assert_eq!(pools(&vec![(2, 3)]), vec![vec![1, 2, 3], vec![1, 2, 3]]);
}

#[test]
fn enumerates_the_cartesian_product() {
    let r = cartesian_product(vec![vec![1, 2], vec![5, 6, 7]]);
    assert_eq!(
        r,
        vec![vec![1, 5], vec![2, 5], vec![1, 6], vec![2, 6], vec![1, 7], vec![2, 7]]
    );
    assert_eq!(cartesian_product(vec![]), vec![Vec::<usize>::new()]);
    assert_eq!(cartesian_product(vec![vec![1], vec![]]), Vec::<Vec<usize>>::new());
}

#[test]
fn sorting_keeps_every_entry() {
    let d = vec![(5, 2), (3, 9), (4, 1)];
    assert_eq!(sort_distribution(d.clone(), StatsOrder::Val), vec![(3, 9), (4, 1), (5, 2)]);
    assert_eq!(sort_distribution(d, StatsOrder::Freq), vec![(4, 1), (5, 2), (3, 9)]);
}
