use puzzles::year2023::day05::{
    compute_closest_seed_location, lowest_start, CategoryTable, Day, Mapping, ParseError,
    ResolveError,
};
use std::ops::Range;

const EXAMPLE: &str = "seeds: 79 14 55 13

seed-to-soil map:
50 98 2
52 50 48

soil-to-fertilizer map:
0 15 37
37 52 2
39 0 15

fertilizer-to-water map:
49 53 8
0 11 42
42 0 7
57 7 4

water-to-light map:
88 18 7
18 25 70

light-to-temperature map:
45 77 23
81 45 19
68 64 13

temperature-to-humidity map:
0 69 1
1 0 69

humidity-to-location map:
60 56 37
56 93 4
";

fn rule(src: Range<u64>, dst: u64) -> Mapping {
    Mapping { src, dst }
}

fn table(src: &str, dst: &str, rules: Vec<Mapping>) -> CategoryTable {
    CategoryTable {
        src: src.as_bytes().to_vec(),
        dst: dst.as_bytes().to_vec(),
        rules,
    }
}

#[test]
fn day05_test_example() {
    let day = Day::parse(EXAMPLE).unwrap();
    assert_eq!(day.solve_problem_1().unwrap(), 35);
    assert_eq!(day.solve_problem_2().unwrap(), 46);
}

#[test]
fn example_parses_into_seven_tables() {
    let day = Day::parse(EXAMPLE).unwrap();
    assert_eq!(day.seeds, vec![79, 14, 55, 13]);
    assert_eq!(day.mappings.len(), 7);
    assert_eq!(day.mappings[0].src, b"seed".to_vec());
    assert_eq!(day.mappings[0].dst, b"soil".to_vec());
    assert_eq!(day.mappings[0].rules[1].src, 50..98);
    assert_eq!(day.mappings[0].rules[1].dst, 52);
}

#[test]
fn crlf_line_endings_are_accepted() {
    let input = EXAMPLE.replace('\n', "\r\n");
    let day = Day::parse(&input).unwrap();
    assert_eq!(day.solve_problem_1().unwrap(), 35);
    assert_eq!(day.solve_problem_2().unwrap(), 46);
}

#[test]
fn degenerate_split_has_no_empty_ranges() {
    let mut mapped = Vec::new();
    let mut unmapped = Vec::new();
    rule(5..10, 100).map(5..10, &mut mapped, &mut unmapped);
    assert_eq!(mapped, vec![100..105]);
    assert!(unmapped.is_empty());
}

#[test]
fn containment_split() {
    let mut mapped = Vec::new();
    let mut unmapped = Vec::new();
    rule(5..10, 100).map(0..20, &mut mapped, &mut unmapped);
    assert_eq!(mapped, vec![100..105]);
    assert_eq!(unmapped, vec![0..5, 10..20]);
}

#[test]
fn partial_splits() {
    let mut mapped = Vec::new();
    let mut unmapped = Vec::new();
    rule(5..10, 100).map(0..7, &mut mapped, &mut unmapped);
    rule(5..10, 100).map(8..15, &mut mapped, &mut unmapped);
    assert_eq!(mapped, vec![100..102, 103..105]);
    assert_eq!(unmapped, vec![0..5, 10..15]);
}

#[test]
fn split_without_overlap_keeps_range() {
    let mut mapped = Vec::new();
    let mut unmapped = Vec::new();
    rule(5..10, 100).map(10..12, &mut mapped, &mut unmapped);
    rule(5..10, 100).map(4..5, &mut mapped, &mut unmapped);
    assert!(mapped.is_empty());
    assert_eq!(unmapped, vec![10..12, 4..5]);
}

#[test]
fn single_value_range_is_mapped() {
    let mut mapped = Vec::new();
    let mut unmapped = Vec::new();
    rule(5..10, 100).map(9..10, &mut mapped, &mut unmapped);
    assert_eq!(mapped, vec![104..105]);
    assert!(unmapped.is_empty());
}

#[test]
fn range_without_overlapping_rule_passes_through() {
    let t = table("a", "b", vec![rule(0..10, 50), rule(20..30, 70)]);
    let out = t.apply(&vec![12..18, 5..25]).unwrap();
    assert!(out.contains(&(12..18)));
    assert_eq!(out, vec![12..18, 55..60, 70..75, 10..20]);
}

#[test]
fn rules_apply_in_listed_order() {
    let t = table("a", "b", vec![rule(0..10, 100), rule(5..15, 200)]);
    let out = t.apply(&vec![0..15]).unwrap();
    assert_eq!(out, vec![100..110, 205..210]);
}

#[test]
fn cycle_is_detected() {
    let input = "seeds: 1\n\nA-to-B map:\n10 0 5\n\nB-to-A map:\n0 10 5\n";
    let day = Day::parse(input).unwrap();
    let graph = day.mappings;
    match puzzles::year2023::day05::resolve(&graph, vec![1..2], &b"A".to_vec(), &b"location".to_vec()) {
        Err(ResolveError::Cycle(name)) => assert_eq!(name, b"A".to_vec()),
        _ => panic!("expected a cycle"),
    }
}

#[test]
fn missing_table_is_a_lookup_error() {
    let graph = vec![table("seed", "soil", vec![])];
    match compute_closest_seed_location(vec![1..2], &graph) {
        Err(ResolveError::Lookup(name)) => assert_eq!(name, b"soil".to_vec()),
        _ => panic!("expected a lookup error"),
    }
}

#[test]
fn empty_final_set_is_an_error() {
    let graph = vec![table("seed", "location", vec![])];
    assert!(matches!(
        compute_closest_seed_location(vec![], &graph),
        Err(ResolveError::EmptyResult)
    ));
}

#[test]
fn minimum_selection() {
    assert_eq!(lowest_start(&vec![50..60, 10..20, 30..31]), Some(10));
    assert_eq!(lowest_start(&vec![]), None);
    let graph = vec![table("seed", "location", vec![])];
    assert_eq!(
        compute_closest_seed_location(vec![50..60, 10..20, 30..31], &graph).unwrap(),
        10
    );
}

#[test]
fn duplicate_category_is_refused() {
    let input = "seeds: 1\n\nseed-to-soil map:\n1 2 3\n\nseed-to-water map:\n1 2 3\n";
    match Day::parse(input) {
        Err(ParseError::DuplicateCategory(name)) => assert_eq!(name, b"seed".to_vec()),
        _ => panic!("expected a duplicate category"),
    }
}

#[test]
fn missing_seeds_is_refused() {
    let input = "seed-to-location map:\n1 2 3\n";
    assert!(matches!(Day::parse(input), Err(ParseError::MissingSeeds)));
}

#[test]
fn malformed_text_is_refused() {
    assert!(matches!(Day::parse("seeds 1 2"), Err(ParseError::MissingColon)));
    assert!(matches!(Day::parse("seeds: 1 x"), Err(ParseError::BadNumber)));
    assert!(matches!(
        Day::parse("seeds: 1\n\nseed-location map:\n1 2 3"),
        Err(ParseError::UnknownTitle)
    ));
    assert!(matches!(
        Day::parse("seeds: 1\n\nseed-to-location map:\n1 2"),
        Err(ParseError::BadRule)
    ));
    assert!(matches!(
        Day::parse("seeds: 1\n\nseed-to-location map:\n1 18446744073709551615 2"),
        Err(ParseError::BadRule)
    ));
}

#[test]
fn seed_pairs_ignore_a_last_unpaired_number() {
    let day = Day::parse("seeds: 40 5 7\n\nseed-to-location map:\n0 100 5\n").unwrap();
    assert_eq!(day.solve_problem_2().unwrap(), 40);
    assert_eq!(day.solve_problem_1().unwrap(), 5);
}

#[test]
fn empty_seed_range_is_refused() {
    let day = Day::parse("seeds: 40 0\n\nseed-to-location map:\n0 100 5\n").unwrap();
    assert!(matches!(day.solve_problem_2(), Err(ResolveError::BadSeedRange)));
}

#[test]
fn largest_seed_is_refused_as_single_value() {
    let day =
        Day::parse("seeds: 18446744073709551615\n\nseed-to-location map:\n0 100 5\n").unwrap();
    assert!(matches!(day.solve_problem_1(), Err(ResolveError::BadSeedRange)));
}

#[test]
fn table_keeps_total_length() {
    let t = table("a", "b", vec![rule(3..8, 100), rule(10..12, 0), rule(0..50, 1000)]);
    let input = vec![0..20, 5..6, 30..31];
    let out = t.apply(&input).unwrap();
    let len = |v: &Vec<Range<u64>>| v.iter().map(|r| r.end - r.start).sum::<u64>();
    assert_eq!(len(&out), len(&input));
    assert!(out.contains(&(100..105)));
    assert!(out.contains(&(0..2)));
    assert!(out.contains(&(1000..1003)));
    assert!(out.contains(&(1030..1031)));
}

#[test]
fn missing_start_table_is_a_lookup_error() {
    let graph = vec![table("soil", "location", vec![])];
    match compute_closest_seed_location(vec![1..2], &graph) {
        Err(ResolveError::Lookup(name)) => assert_eq!(name, b"seed".to_vec()),
        _ => panic!("expected a lookup error"),
    }
}

#[test]
fn rule_with_destination_near_the_top_is_accepted() {
    let m = Mapping::from_str(b"18446744073709551615 0 1").unwrap();
    assert_eq!(m.src, 0..1);
    assert_eq!(m.dst, u64::MAX);
    let day = Day::parse("seeds: 5 6\n\nseed-to-location map:\n18446744073709551615 0 1\n").unwrap();
    assert_eq!(day.solve_problem_1().unwrap(), 5);
}

#[test]
fn image_past_the_top_is_an_overflow_error() {
    let mut mapped = Vec::new();
    let mut unmapped = Vec::new();
    assert!(!rule(0..1, u64::MAX).map(0..1, &mut mapped, &mut unmapped));
    assert!(mapped.is_empty() && unmapped.is_empty());
    assert!(rule(0..1, u64::MAX).map(1..2, &mut mapped, &mut unmapped));
    let t = table("seed", "location", vec![rule(0..1, u64::MAX)]);
    assert_eq!(t.apply(&vec![0..1]), None);
    let day = Day::parse("seeds: 0 7\n\nseed-to-location map:\n18446744073709551615 0 1\n").unwrap();
    match day.solve_problem_1() {
        Err(ResolveError::Overflow(name)) => assert_eq!(name, b"seed".to_vec()),
        _ => panic!("expected an overflow"),
    }
}

#[test]
fn seed_list_may_span_lines() {
    let input = EXAMPLE.replace("seeds: 79 14 55 13", "seeds: 79 14\n55 13");
    let day = Day::parse(&input).unwrap();
    assert_eq!(day.seeds, vec![79, 14, 55, 13]);
    assert_eq!(day.solve_problem_1().unwrap(), 35);
    assert_eq!(day.solve_problem_2().unwrap(), 46);
}

#[test]
fn numbers_may_carry_a_plus_sign() {
    let day = Day::parse("seeds: +3\n\nseed-to-location map:\n+10 +0 +5\n").unwrap();
    assert_eq!(day.seeds, vec![3]);
    assert_eq!(day.solve_problem_1().unwrap(), 13);
    assert!(matches!(Day::parse("seeds: ++3"), Err(ParseError::BadNumber)));
    assert!(matches!(Day::parse("seeds: +"), Err(ParseError::BadNumber)));
}
