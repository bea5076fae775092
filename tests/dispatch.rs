use puzzles::dispatch::{year_2022, year_2023, Answer, DispatchError};

#[test]
fn dispatch_by_day() {
    let p = year_2023(6, "Time:      7  15   30\nDistance:  9  40  200\n").unwrap();
    assert!(matches!(p.solve_problem_1(), Answer::Value(288)));
    assert!(matches!(p.solve_problem_2(), Answer::Value(71503)));
    let q = year_2022(1, "1\n2\n\n4\n").unwrap();
    assert!(matches!(q.solve_problem_1(), Answer::Value(4)));
}

#[test]
fn dispatch_errors() {
    assert!(matches!(year_2023(8, ""), Err(DispatchError::UnknownDay)));
    assert!(matches!(year_2022(2, ""), Err(DispatchError::UnknownDay)));
    assert!(matches!(year_2023(2, "nonsense"), Err(DispatchError::BadInput)));
    let p = year_2023(5, "seeds: 1\n\nseed-to-soil map:\n1 2 3\n").unwrap();
    assert!(matches!(p.solve_problem_1(), Answer::Unresolved(_)));
}
