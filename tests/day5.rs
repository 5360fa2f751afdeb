use aoc2023::day5::{
    merge_min, part_one, part_two, partition, seed_range_fits, Almanach, AlmanacError, Rule,
    RuleRange, Stage,
};
use aoc2023::text::{chars_of, parse_i64};

const ALMANAC: &str = "seeds: 79 14 55 13

seed-to-soil map:
50 98 2
52 50 48

soil-to-fertilizer map:
0 15 37
37 52 2
39 0 15

fertilizer-to-water map:
49 53 8
0 11 42
42 0 7
57 7 4

water-to-light map:
88 18 7
18 25 70

light-to-temperature map:
45 77 23
81 45 19
68 64 13

temperature-to-humidity map:
0 69 1
1 0 69

humidity-to-location map:
60 56 37
56 93 4
";

fn stage_of(rules: &[(i64, i64, i64)]) -> Stage {
    let mut stage = Stage::new();
    for (s, l, d) in rules {
        stage.insert(Rule::new(*s, *l, *d)).expect("disjoint rules");
    }
    stage
}

#[test]
fn test_partial_range_is_equal_to_rule_range() {
    let rule = RuleRange::Rule(1, 3);
    let partial = RuleRange::Partial(2);
    assert_eq!(rule, partial);
}

#[test]
fn test_partial_range_is_less_than_rule_range() {
    let rule = RuleRange::Rule(1, 3);
    let partial = RuleRange::Partial(0);
    assert!(partial < rule);
}

#[test]
fn test_partial_range_is_greater_than_rule_range() {
    let rule = RuleRange::Rule(1, 3);
    let partial = RuleRange::Partial(5);
    assert!(partial > rule);
}

#[test]
fn test_partial_range_is_greater_than_rule_edge() {
    let rule = RuleRange::Rule(1, 3);
    let partial = RuleRange::Partial(4);
    assert!(partial > rule);
}

#[test]
fn test_partial_range_is_equal_to_rule_top_edge() {
    let rule = RuleRange::Rule(98, 2);
    let partial = RuleRange::Partial(99);
    assert_eq!(rule, partial);
}

#[test]
fn test_partial_range_is_equal_to_rule_bottom_edge() {
    let rule = RuleRange::Rule(98, 2);
    let partial = RuleRange::Partial(98);
    assert_eq!(rule, partial);
}

#[test]
fn test_partial_range_is_less_than_rule_bottom_edge() {
    let rule = RuleRange::Rule(98, 2);
    let partial = RuleRange::Partial(97);
    assert!(partial < rule);
}

#[test]
fn test_two_different_rule_ranges_are_not_equal() {
    let rule = RuleRange::Rule(1, 3);
    let rule2 = RuleRange::Rule(5, 3);
    assert_ne!(rule, rule2);
}

#[test]
fn test_rule_map_gets_correct_rule_range() {
    let mut rule_map = Stage::new();
    rule_map.insert(Rule::new(1, 3, 2)).expect("insert");
    let search_rule = RuleRange::Partial(2);
    let rule = rule_map.get_key_value(&search_rule);
    assert_eq!(rule, Some((RuleRange::Rule(1, 3), 2)));
}

#[test]
fn test_insert_multiple_rule_ranges_into_map() {
    let mut rule_map = Stage::new();
    rule_map.insert(Rule::new(1, 3, 2)).expect("insert");
    rule_map.insert(Rule::new(5, 3, 6)).expect("insert");
    let search_rule = RuleRange::Partial(2);
    let rule = rule_map.get_key_value(&search_rule);
    assert_eq!(rule, Some((RuleRange::Rule(1, 3), 2)));
}

#[test]
fn test_part_one_from_file() {
    let part_one = Almanach::from_str(ALMANAC).expect("Error parsing file");
    assert_eq!(part_one.run_one().expect("Error running part one"), 35);
}

#[test]
fn test_part_two_from_file() {
    let part_one = Almanach::from_str(ALMANAC).expect("Error parsing file");
    assert_eq!(part_one.run_two(4).expect("Error running part two"), 46);
}

#[test]
fn entry_points_on_the_sample() {
    assert_eq!(part_one(ALMANAC), Ok(35));
    for workers in 1..9 {
        assert_eq!(part_two(ALMANAC, workers), Ok(46));
    }
}

#[test]
fn inside_a_rule_the_offset_applies() {
    let stage = stage_of(&[(50, 48, 52), (98, 2, 50)]);
    assert_eq!(stage.apply(79), 81);
    assert_eq!(stage.apply(50), 52);
    assert_eq!(stage.apply(97), 99);
    assert_eq!(stage.apply(98), 50);
}

#[test]
fn outside_every_rule_the_point_is_kept() {
    let stage = stage_of(&[(50, 48, 52), (98, 2, 50)]);
    assert_eq!(stage.apply(14), 14);
    assert_eq!(stage.apply(49), 49);
    assert_eq!(stage.apply(100), 100);
    assert_eq!(Stage::new().apply(-7), -7);
}

#[test]
fn boundaries_of_a_rule() {
    let stage = stage_of(&[(98, 2, 50)]);
    assert_eq!(stage.apply(97), 97);
    assert_eq!(stage.apply(98), 50);
    assert_eq!(stage.apply(99), 51);
    assert_eq!(stage.apply(100), 100);
}

#[test]
fn comparator_orders_rules_and_points() {
    let a = RuleRange::Rule(1, 3);
    let b = RuleRange::Rule(5, 3);
    assert!(a < b && b > a);
    assert!(RuleRange::Rule(1, 2) < RuleRange::Rule(1, 3));
    assert!(RuleRange::Partial(4) > a && RuleRange::Partial(4) < b);
    assert!(a < RuleRange::Partial(4) && b > RuleRange::Partial(4));
    assert_ne!(RuleRange::Partial(4), a);
    assert_ne!(RuleRange::Partial(4), b);
    assert_eq!(RuleRange::Partial(3), RuleRange::Partial(3));
    assert_ne!(RuleRange::Partial(3), RuleRange::Partial(4));
    assert_eq!(RuleRange::Rule(1, 3).compare(&RuleRange::Partial(0)), std::cmp::Ordering::Greater);
}

#[test]
fn stage_order_matters() {
    let first = stage_of(&[(0, 10, 100)]);
    let second = stage_of(&[(100, 10, 0), (5, 1, 7)]);
    let forward = vec![stage_of(&[(0, 10, 100)]), stage_of(&[(100, 10, 0), (5, 1, 7)])];
    let backward = vec![second, first];
    assert_eq!(Almanach::location_from_seed(&forward, 5), 5);
    assert_eq!(Almanach::location_from_seed(&backward, 5), 107);
}

#[test]
fn no_seeds_is_an_empty_result() {
    let almanac = Almanach::from_str("seeds:\n\na map:\n1 2 3\n").expect("parse");
    assert_eq!(almanac.run_one(), Err(AlmanacError::EmptyResult));
    assert_eq!(almanac.run_two(4), Err(AlmanacError::EmptyResult));
    let empty_ranges = Almanach::from_str("seeds: 5 0 9 -2\n").expect("parse");
    assert_eq!(empty_ranges.run_two(3), Err(AlmanacError::EmptyResult));
}

#[test]
fn partition_covers_the_range_once() {
    let chunks = partition(10, 10, 3);
    assert_eq!(chunks, vec![(10, 13), (13, 16), (16, 20)]);
    let chunks = partition(0, 2, 4);
    assert_eq!(chunks, vec![(0, 0), (0, 0), (0, 0), (0, 2)]);
    let chunks = partition(-5, 12, 4);
    assert_eq!(chunks, vec![(-5, -2), (-2, 1), (1, 4), (4, 7)]);
    for workers in 1..12usize {
        let chunks = partition(7, 23, workers);
        assert_eq!(chunks.len(), workers);
        let mut next = 7;
        for (lo, hi) in chunks {
            assert_eq!(lo, next);
            assert!(lo <= hi);
            next = hi;
        }
        assert_eq!(next, 30);
    }
}

#[test]
fn range_minimum_scans_each_value() {
    let almanac = Almanach::from_str(ALMANAC).expect("parse");
    assert_eq!(almanac.min_location_in_range(82, 83), Some(46));
    assert_eq!(almanac.min_location_in_range(79, 79), None);
    assert_eq!(almanac.min_location_over_range(79, 14, 5), Some(46));
    assert_eq!(almanac.min_location_over_range(79, 0, 5), None);
}

#[test]
fn seed_ranges_are_pairs() {
    let almanac = Almanach::from_str(ALMANAC).expect("parse");
    assert_eq!(almanac.get_seed_ranges(), Ok(vec![(79, 14), (55, 13)]));
    let odd = Almanach::from_str("seeds: 1 2 3\n").expect("parse");
    assert_eq!(odd.get_seed_ranges(), Err(AlmanacError::UnpairedSeed));
    assert_eq!(odd.run_two(2), Err(AlmanacError::UnpairedSeed));
    assert_eq!(odd.run_one(), Ok(1));
}

#[test]
fn seed_range_past_the_largest_integer() {
    let almanac = Almanach::from_str("seeds: 9223372036854775800 100\n").expect("parse");
    assert_eq!(almanac.run_two(2), Err(AlmanacError::SeedRangeTooLarge));
}

#[test]
fn parse_errors() {
    assert_eq!(part_one("79 14\n").err(), Some(AlmanacError::Parse));
    assert_eq!(part_one("seeds: 79 x\n").err(), Some(AlmanacError::Parse));
    assert_eq!(part_one("seeds: 79\n\na map:\n1 2\n").err(), Some(AlmanacError::Parse));
    assert_eq!(part_one("seeds: 79\n\na map:\n1 2 q\n").err(), Some(AlmanacError::Parse));
    assert_eq!(
        part_one("seeds: 79\n\na map:\n0 9223372036854775800 100\n").err(),
        Some(AlmanacError::Parse)
    );
}

#[test]
fn overlapping_rules_are_refused() {
    let mut stage = Stage::new();
    assert_eq!(stage.insert(Rule::new(10, 5, 0)), Ok(()));
    assert_eq!(stage.insert(Rule::new(14, 2, 0)), Err(AlmanacError::OverlappingRules));
    assert_eq!(stage.insert(Rule::new(5, 5, 0)), Ok(()));
    assert_eq!(stage.len(), 2);
    assert_eq!(
        part_one("seeds: 79\n\na map:\n0 10 5\n0 12 1\n").err(),
        Some(AlmanacError::OverlappingRules)
    );
}

#[test]
fn integers_parse_with_sign() {
    let cs = chars_of("-5 +7 12 9223372036854775808 -9223372036854775808 - 1x");
    assert_eq!(parse_i64(&cs, 0, 2), Some(-5));
    assert_eq!(parse_i64(&cs, 3, 5), Some(7));
    assert_eq!(parse_i64(&cs, 6, 8), Some(12));
    assert_eq!(parse_i64(&cs, 9, 28), None);
    assert_eq!(parse_i64(&cs, 29, 49), Some(i64::MIN));
    assert_eq!(parse_i64(&cs, 50, 51), None);
    assert_eq!(parse_i64(&cs, 52, 54), None);
    assert_eq!(parse_i64(&cs, 0, 0), None);
}

#[test]
fn last_chunk_takes_the_remainder() {
    let almanac = Almanach::new(vec![stage_of(&[(14, 1, 0)])], vec![10, 5]);
    assert_eq!(almanac.run_two(4), Ok(0));
}

#[test]
fn range_shorter_than_worker_count_is_covered() {
    let almanac = Almanach::new(Vec::new(), vec![7, 1]);
    assert_eq!(almanac.run_two(4), Ok(7));
}

#[test]
fn worker_count_does_not_change_the_answer() {
    let almanac = Almanach::from_str(ALMANAC).expect("parse");
    for workers in 1..20 {
        assert_eq!(almanac.run_two(workers), Ok(46));
    }
}

#[test]
fn unreadable_field_is_a_parse_error_even_beside_an_overlap() {
    assert_eq!(
        part_one("seeds: 1\n\na map:\n0 10 5\n0 12 1\nx 1 1\n").err(),
        Some(AlmanacError::Parse)
    );
    assert_eq!(
        part_one("seeds: 1\n\na map:\n0 10 5\n0 12 1\n\nb map:\n1 2\n").err(),
        Some(AlmanacError::Parse)
    );
    assert_eq!(
        part_two("seeds: 1 2\n\na map:\n0 10 5\n0 12 1\n", 3).err(),
        Some(AlmanacError::OverlappingRules)
    );
}

#[test]
fn unicode_spaces_separate_fields() {
    let text = "seeds:\u{a0}79\u{3000}14\n\na map:\n50\u{2009}79\u{85}1\n";
    assert_eq!(part_one(text), Ok(14));
}

#[test]
fn part_two_errors() {
    assert_eq!(part_two("seeds: 1 2 3\n", 2), Err(AlmanacError::UnpairedSeed));
    assert_eq!(part_two("seeds: 1 0\n", 2), Err(AlmanacError::EmptyResult));
    assert_eq!(
        part_two("seeds: 9223372036854775807 2\n", 2),
        Err(AlmanacError::SeedRangeTooLarge)
    );
    assert_eq!(part_two("seeds 1 2\n", 2), Err(AlmanacError::Parse));
}

#[test]
fn helpers_for_parallel_scans() {
    assert_eq!(merge_min(Some(3), Some(2)), Some(2));
    assert_eq!(merge_min(None, Some(5)), Some(5));
    assert_eq!(merge_min(Some(4), None), Some(4));
    assert_eq!(merge_min(None, None), None);
    assert!(seed_range_fits((5, 10)));
    assert!(seed_range_fits((i64::MAX, 0)));
    assert!(!seed_range_fits((i64::MAX - 1, 2)));
}

#[test]
fn rules_that_cover_no_point_are_kept_out() {
    assert_eq!(part_one("seeds: 79\n\na map:\n1 2 -3\n"), Ok(79));
    assert_eq!(part_one("seeds: 79\n\na map:\n0 79 0\n5 79 0\n9 70 20\n"), Ok(18));
    assert_eq!(part_one("seeds: 5\n\na map:\n0 9223372036854775800 -100\n"), Ok(5));
}
