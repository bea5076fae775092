use puzzles::year2022::day01::{sum_of_calories_per_elf, Day01, Elf, Food};

const EXAMPLE: &str = "1000
2000
3000

4000

5000
6000

7000
8000
9000

10000
";

#[test]
fn calories_example() {
    let day = Day01::parse(EXAMPLE).unwrap();
    assert_eq!(day.elfs.len(), 5);
    assert_eq!(day.solve_problem_1(), Some(Some(24000)));
    assert_eq!(day.solve_problem_2(), Some(45000));
}

#[test]
fn calories_per_elf() {
    let day = Day01::parse(EXAMPLE).unwrap();
    assert_eq!(
        sum_of_calories_per_elf(&day.elfs),
        Some(vec![6000, 4000, 11000, 24000, 10000])
    );
}

#[test]
fn fewer_than_three_elves() {
    let day = Day01::parse("5\n\n7\n").unwrap();
    assert_eq!(day.solve_problem_2(), Some(12));
    let none = Day01::parse("").unwrap();
    assert_eq!(none.solve_problem_1(), Some(None));
    assert_eq!(none.solve_problem_2(), Some(0));
}

#[test]
fn equal_totals_are_all_kept() {
    let day = Day01::parse("5\n\n5\n\n5\n\n5\n\n1\n").unwrap();
    assert_eq!(day.solve_problem_2(), Some(15));
}

#[test]
fn consecutive_empty_lines_make_an_empty_elf() {
    let day = Day01::parse("1\n\n\n2\n").unwrap();
    assert_eq!(day.elfs.len(), 3);
    assert!(day.elfs[1].inventory.is_empty());
}

#[test]
fn calorie_overflow_gives_no_total() {
    let elfs = vec![Elf {
        inventory: vec![Food { calories: u64::MAX }, Food { calories: 1 }],
    }];
    assert_eq!(sum_of_calories_per_elf(&elfs), None);
    let day = Day01 { elfs };
    assert_eq!(day.solve_problem_1(), None);
}

#[test]
fn bad_calories_are_refused() {
    assert!(Day01::parse("12\nabc\n").is_err());
    assert!(Food::from_str(b"12a").is_err());
    assert_eq!(Food::from_str(b"42").unwrap().calories, 42);
}
