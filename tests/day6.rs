use aoc2023::day6::{part_one, Day6, Race, RaceError};

#[test]
fn test_race_has_correct_amount_of_options() {
    let race = Race::new(7, 9);
    assert_eq!(race.get_number_of_options_to_win(), 4);
}

#[test]
fn test_race_has_correct_amount_of_options_2() {
    let race = Race::new(15, 40);
    assert_eq!(race.get_number_of_options_to_win(), 8);
}

#[test]
fn test_race_has_correct_amount_of_options_3() {
    let race = Race::new(30, 200);
    assert_eq!(race.get_number_of_options_to_win(), 9);
}

const SHEET: &str = "Time:      7  15   30\nDistance:  9  40  200\n";

#[test]
fn test_day6_part_one_test_data() {
    let day6 = Day6::from_str(SHEET).expect("Error parsing day6");
    assert_eq!(day6.run_one().expect("Error running day6"), 288);
}

#[test]
fn options_list_every_hold_time() {
    assert_eq!(Race::new(7, 9).get_options(), vec![0, 6, 10, 12, 12, 10, 6]);
    assert_eq!(Race::new(0, 9).get_options(), Vec::<i64>::new());
}

#[test]
fn part_one_reads_the_sheet() {
    assert_eq!(part_one(SHEET), Ok(288));
}

#[test]
fn no_races_give_the_empty_product() {
    assert_eq!(Day6::new(Vec::new()).run_one(), Ok(1));
}

#[test]
fn sheet_errors_are_parse_errors() {
    assert_eq!(part_one("Time: 7 15\n").err(), Some(RaceError::Parse));
    assert_eq!(part_one("Time 7\nDistance: 9\n").err(), Some(RaceError::Parse));
    assert_eq!(part_one("Time: 7 x\nDistance: 9 9\n").err(), Some(RaceError::Parse));
    assert_eq!(part_one("Time: 7 15\nDistance: 9\n").err(), Some(RaceError::Parse));
}

#[test]
fn oversized_race_is_reported() {
    let races = vec![Race::new(3, 0), Race::new(3, 0)];
    assert_eq!(Day6::new(races).run_one(), Ok(4));
    assert_eq!(part_one("Time: 7000000000\nDistance: 0\n").err(), Some(RaceError::Overflow));
}

#[test]
fn a_race_without_wins_makes_the_product_zero() {
    let mut races = vec![Race::new(10000, 0); 5];
    assert_eq!(Day6::new(races.clone()).run_one(), Err(RaceError::Overflow));
    races.push(Race::new(1, 0));
    assert_eq!(Day6::new(races).run_one(), Ok(0));
}
