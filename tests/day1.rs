use aoc2023::day1::{handle_part1_line, handle_part2_line, part1, part2};

#[test]
fn line1_with_only_one_digit_is_correct() {
    let line = "treb7uchet".to_owned();
    assert_eq!(handle_part1_line(line), 77)
}

#[test]
fn line1_with_exactly_two_digits_is_correct() {
    let line = "1abc2".to_owned();
    assert_eq!(handle_part1_line(line), 12);
}

#[test]
fn line1_with_more_than_two_digits_is_correct() {
    let line = "a1b2c3d4e5f".to_owned();
    assert_eq!(handle_part1_line(line), 15)
}

#[test]
fn aoc1_test_input_is_correct() {
    let file = "1abc2\n\
pqr3stu8vwx\n\
a1b2c3d4e5f\n\
treb7uchet"
        .to_owned();

    let res = part1(file.lines().map(|l| l.to_owned()).collect()).expect("Error running task");
    assert_eq!(res, 142)
}

#[test]
fn line2_with_exactly_two_digits_is_correct() {
    let line = "7pqrstsixteen".to_owned();
    assert_eq!(handle_part2_line(line), 76)
}

#[test]
fn line2_with_three_digits_is_correct() {
    let line = "eightwothree".to_owned();
    assert_eq!(handle_part2_line(line), 83)
}

#[test]
fn line2_with_one_digit_is_correct() {
    let line = "two".to_owned();
    assert_eq!(handle_part2_line(line), 22)
}

#[test]
fn aoc2_test_input_is_correct() {
    let file = "two1nine\n\
eightwothree\n\
abcone2threexyz\n\
xtwone3four\n\
4nineeightseven2\n\
zoneight234\n\
7pqrstsixteen"
        .to_owned();

    let res = part2(file.lines().map(|l| l.to_owned()).collect()).expect("Error running task");
    assert_eq!(res, 281)
}

#[test]
fn line_without_digits_scores_minus_eleven() {
    assert_eq!(handle_part1_line("abc".to_owned()), -11);
    assert_eq!(handle_part2_line("xyz".to_owned()), -11);
}

#[test]
fn spelled_digits_are_ignored_in_plain_mode() {
    assert_eq!(handle_part1_line("one2three4".to_owned()), 24);
    assert_eq!(handle_part2_line("one2three4".to_owned()), 14);
}

#[test]
fn empty_input_sums_to_zero() {
    assert_eq!(part1(Vec::new()), Ok(0));
    assert_eq!(part2(Vec::new()), Ok(0));
}
