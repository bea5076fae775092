use puzzles::year2023::{day01, day02, day03, day04, day06, day07};

#[test]
fn test_parsing() {
    const INPUT: &str = "123+=.*7894\n56.633.../.\n..*......21\n";
    let parsed: Vec<_> = day03::Day::parse(INPUT)
        .unwrap()
        .part_nums
        .iter()
        .map(|num| num.value)
        .collect();
    let expected = [123, 7894, 56, 633, 21];

    assert_eq!(parsed, expected);
}

#[test]
fn schematic_example() {
    let input = "467..114..\n...*......\n..35..633.\n......#...\n617*......\n.....+.58.\n..592.....\n......755.\n...$.*....\n.664.598..\n";
    let day = day03::Day::parse(input).unwrap();
    assert_eq!(day.solve_problem_1(), Some(4361));
    assert_eq!(day.solve_problem_2(), Some(467835));
}

#[test]
fn schematic_symbols_and_columns() {
    let day = day03::Day::parse("12*\n.#.\n").unwrap();
    assert_eq!(day.part_nums.len(), 1);
    assert_eq!(day.part_nums[0].columns, 0..2);
    assert_eq!(day.symbols.len(), 2);
    assert_eq!(day.symbols[0].value, b'*');
    assert_eq!(day.symbols[1].row, 1);
    assert_eq!(day.symbols[1].col, 1);
}

#[test]
fn schematic_number_too_large_is_refused() {
    assert!(day03::Day::parse("123456789012345678901234567890\n").is_err());
}

#[test]
fn adjacency_by_columns() {
    let p = day03::PartNumber { row: 3, columns: 2..5, value: 7 };
    let at = |col| day03::Symbol { row: 0, col, value: b'*' };
    assert!(!p.is_adjacent_to(&at(0)));
    assert!(p.is_adjacent_to(&at(1)));
    assert!(p.is_adjacent_to(&at(5)));
    assert!(!p.is_adjacent_to(&at(6)));
    let left = day03::PartNumber { row: 0, columns: 0..1, value: 1 };
    assert!(left.is_adjacent_to(&at(0)));
}

#[test]
fn adjacency_candidates_window() {
    let syms: Vec<day03::Symbol> = [0usize, 1, 1, 3, 4, 6]
        .iter()
        .map(|&row| day03::Symbol { row, col: 0, value: b'#' })
        .collect();
    let mut c = day03::AdjacencyCandidates::from(&syms[..]);
    let target = |row| day03::PartNumber { row, columns: 0..1, value: 1 };
    assert_eq!(c.get_for(&target(0)), 0..3);
    assert_eq!(c.get_for(&target(0)), 0..3);
    assert_eq!(c.get_for(&target(2)), 1..4);
    assert_eq!(c.get_for(&target(5)), 4..6);
    assert_eq!(c.get_for(&target(9)), 6..6);
}

#[test]
fn day04_test_example() {
    let input = "Card 1: 41 48 83 86 17 | 83 86  6 31 17  9 48 53
Card 2: 13 32 20 16 61 | 61 30 68 82 17 32 24 19
Card 3:  1 21 53 59 44 | 69 82 63 72 16 21 14  1
Card 4: 41 92 73 84 69 | 59 84 76 51 58  5 54 83
Card 5: 87 83 26 28 32 | 88 30 70 12 93 22 82 36
Card 6: 31 18 13 56 72 | 74 77 10 23 35 67 36 11
";
    let day = day04::Day::parse(input).unwrap();
    assert_eq!(day.solve_problem_1().unwrap(), 13);
    assert_eq!(day.solve_problem_2().unwrap(), 30);
}

#[test]
fn card_matches_count_repeats() {
    let card = day04::Card::from_str(b"Card 9: 1 2 | 2 2 3").unwrap();
    assert_eq!(card.winners, vec![1, 2]);
    assert_eq!(card.draws, vec![2, 2, 3]);
    assert_eq!(card.count_matches(), 2);
}

#[test]
fn card_errors() {
    assert!(matches!(
        day04::Card::from_str(b"Card 1 1 2 | 3"),
        Err(day04::ParseError::MissingSeparator)
    ));
    assert!(matches!(
        day04::Card::from_str(b"Card 1: 1 2 3"),
        Err(day04::ParseError::MissingSeparator)
    ));
    assert!(matches!(
        day04::Card::from_str(b"Card 1: 1 x | 3"),
        Err(day04::ParseError::BadNumber)
    ));
}

#[test]
fn card_wins_past_the_end_give_no_total() {
    let day = day04::Day::parse("Card 1: 1 | 1\n").unwrap();
    assert_eq!(day.solve_problem_1(), Some(1));
    assert_eq!(day.solve_problem_2(), None);
}

#[test]
fn cube_games_example() {
    let input = "Game 1: 3 blue, 4 red; 1 red, 2 green, 6 blue; 2 green
Game 2: 1 blue, 2 green; 3 green, 4 blue, 1 red; 1 green, 1 blue
Game 3: 8 green, 6 blue, 20 red; 5 blue, 4 red, 13 green; 5 green, 1 red
Game 4: 1 green, 3 red, 6 blue; 3 green, 6 red; 3 green, 15 blue, 14 red
Game 5: 6 red, 1 blue, 3 green; 2 blue, 1 red, 2 green
";
    let day = day02::Day02::parse(input).unwrap();
    assert_eq!(day.games.len(), 5);
    assert_eq!(day.games[0].max_cube_numbers(), (4, 2, 6));
    assert_eq!(day.solve_problem_1(), Some(8));
    assert_eq!(day.solve_problem_2(), Some(2286));
}

#[test]
fn cube_set_parsing() {
    let set = day02::GameSet::from_str(b"3 green, 1 red, 5 green").unwrap();
    assert_eq!((set.red, set.green, set.blue), (1, 5, 0));
    assert_eq!(
        day02::GameSet::from_str(b"3 purple"),
        Err(day02::ParseError::UnknownColor)
    );
    assert_eq!(
        day02::GameSet::from_str(b"three red"),
        Err(day02::ParseError::BadNumber)
    );
    assert_eq!(
        day02::GameSet::from_str(b"3red"),
        Err(day02::ParseError::MissingSeparator)
    );
}

#[test]
fn calibration_digits() {
    let day = day01::Day01::parse("1abc2\npqr3stu8vwx\na1b2c3d4e5f\ntreb7uchet\n");
    assert_eq!(day.solve_problem_1(), Some(142));
}

#[test]
fn calibration_spelled_digits() {
    let day = day01::Day01::parse(
        "two1nine\neightwothree\nabcone2threexyz\nxtwone3four\n4nineeightseven2\nzoneight234\n7pqrstsixteen\n",
    );
    assert_eq!(day.solve_problem_2(), Some(281));
    let overlap = day01::Day01::parse("oneight\n");
    assert_eq!(overlap.solve_problem_2(), Some(18));
    assert_eq!(overlap.solve_problem_1(), Some(0));
}

#[test]
fn day06_test_example() {
    let day = day06::Day::parse("Time:      7  15   30\nDistance:  9  40  200\n").unwrap();
    assert_eq!(day.solve_problem_1().unwrap(), 288);
    assert_eq!(day.solve_problem_2().unwrap(), 71503);
}

#[test]
fn test_u32_overflow() {
    const INPUT: &str =
        "Time:        69     92     97     87\nDistance:   445   2182   3320   2329\n";

    let day = day06::Day::parse(INPUT).unwrap();
    assert_eq!(day.solve_problem_2().unwrap(), 55761118);
}

#[test]
fn race_counts() {
    let r = day06::Race { time: 30, distance: 200 };
    assert_eq!(r.num_possible_winning_moves(), Some(9));
    let tie = day06::Race { time: 4, distance: 4 };
    assert_eq!(tie.num_possible_winning_moves(), Some(0));
    let none = day06::Race { time: 3, distance: 100 };
    assert_eq!(none.num_possible_winning_moves(), Some(0));
}

#[test]
fn race_sheet_errors() {
    assert!(matches!(
        day06::Day::parse("Time: 7"),
        Err(day06::ParseError::MissingLine)
    ));
    assert!(matches!(
        day06::Day::parse("Time 7\nDistance: 9"),
        Err(day06::ParseError::MissingColon)
    ));
    assert!(matches!(
        day06::Day::parse("Time: 7\nDistance: x"),
        Err(day06::ParseError::BadNumber)
    ));
}

#[test]
fn day07_test_example() {
    let input = "32T3K 765\nT55J5 684\nKK677 28\nKTJJT 220\nQQQJA 483\n";
    let day = day07::Day::parse(input).unwrap();
    assert_eq!(day.solve_problem_1().unwrap(), 6440);
    assert_eq!(day.solve_problem_2().unwrap(), 5905);
}

#[test]
fn test_j() {
    // - J is weakest
    // - an all J hand works
    // - a hand with two Js and three unique other cards works
    const INPUT: &str = "JJJJJ 100\n22222 300\nKJJ62 1\n";

    let day = day07::Day::parse(INPUT).unwrap();
    assert_eq!(day.solve_problem_2().unwrap(), 1101);
}

#[test]
fn winnings_by_rule() {
    let day = day07::Day::parse("JJJJJ 100\n22222 300\nKJJ62 1\n").unwrap();
    assert_eq!(day.winnings(true), Some(1101));
    assert_eq!(day.winnings(false), Some(100 * 3 + 300 * 2 + 1));
}

#[test]
fn hand_errors() {
    assert!(matches!(
        day07::Day::parse("32T3K"),
        Err(day07::ParseError::MissingSeparator)
    ));
    assert!(matches!(
        day07::Day::parse("32T3X 1"),
        Err(day07::ParseError::UnknownCard)
    ));
    assert!(matches!(
        day07::Day::parse("32T3K 99999999999"),
        Err(day07::ParseError::BadBid)
    ));
}

#[test]
fn schematic_multibyte_symbol_counts_once() {
    let day = day03::Day::parse("4é5\n").unwrap();
    assert_eq!(day.symbols.len(), 1);
    assert_eq!(day.symbols[0].col, 1);
    assert_eq!(day.part_nums.len(), 2);
    assert_eq!(day.part_nums[1].columns, 3..4);
    assert_eq!(day.solve_problem_1(), Some(4));
}
