//! Choosing a solver by year and day, and its two answers.
use crate::year2022;
use crate::year2023;
use crate::text::bytes_view;
use crate::year2023::day05::{outcome_of, Outcome, ResolveError};
use vstd::prelude::*;
use vstd::string::StringSliceAdditionalSpecFns;

verus! {

/// A parsed puzzle, ready to be solved.
pub enum Puzzle {
    Calories(year2022::day01::Day01),
    Calibration(year2023::day01::Day01),
    Cubes(year2023::day02::Day02),
    Schematic(year2023::day03::Day),
    Scratchcards(year2023::day04::Day),
    Almanac(year2023::day05::Day),
    Races(year2023::day06::Day),
    CamelCards(year2023::day07::Day),
}

/// One answer of a puzzle.
#[derive(Debug)]
pub enum Answer {
    /// The answer.
    Value(u64),
    /// The puzzle has no answer (no elf at all).
    NoValue,
    /// The answer does not fit in the solver's integer type, or the input
    /// breaks a limit of the puzzle.
    Overflow,
    /// The conversion chain could not be followed.
    Unresolved(ResolveError),
}

/// Why no puzzle could be set up.
#[derive(Debug)]
pub enum DispatchError {
    /// No solver for this day of the year.
    UnknownDay,
    /// The input text is not what the solver reads.
    BadInput,
}

/// The answer for a count `n` that must fit below `bound`.
pub open spec fn counted(n: nat, bound: nat) -> Answer {
    if n <= bound {
        Answer::Value(n as u64)
    } else {
        Answer::Overflow
    }
}

/// Whether an answer reports the outcome of following the conversion chain.
pub open spec fn reports(r: Answer, o: Outcome) -> bool {
    match r {
        Answer::Value(v) => o == Outcome::Lowest(v),
        Answer::Unresolved(e) => outcome_of(Err(e)) == o,
        _ => false,
    }
}

/// Whether an answer reports the lowest location reached from the seed
/// ranges `rs`, or their failure to form ranges.
pub open spec fn reports_seeds(r: Answer, d: year2023::day05::Day, rs: Option<Seq<std::ops::Range<u64>>>) -> bool {
    match rs {
        None => r matches Answer::Unresolved(ResolveError::BadSeedRange),
        Some(rs) => reports(
            r,
            year2023::day05::resolve_from(
                d@.tables,
                rs,
                seq![year2023::day05::seed_name()],
                year2023::day05::location_name(),
            ),
        ),
    }
}

impl Puzzle {
    /// The invariants that the solvers rely on, as the parsers establish them.
    pub open spec fn wf(&self) -> bool {
        match self {
            Puzzle::Schematic(d) => d.wf(),
            Puzzle::Almanac(d) => d.wf(),
            Puzzle::CamelCards(d) => d.wf(),
            _ => true,
        }
    }

    /// The first answer.
    pub fn solve_problem_1(&self) -> (r: Answer)
        requires
            self.wf(),
        ensures
            match self {
                Puzzle::Calories(d) => r == (if !d.totals_fit() {
                    Answer::Overflow
                } else {
                    match year2022::day01::max_total(year2022::day01::elf_totals(d.elfs@)) {
                        Some(m) => Answer::Value(m as u64),
                        None => Answer::NoValue,
                    }
                }),
                Puzzle::Calibration(d) => r == counted(
                    year2023::day01::calibration_sum(bytes_view(d.lines@), false),
                    u32::MAX as nat,
                ),
                Puzzle::Cubes(d) => r == counted(
                    year2023::day02::sum_possible_ids(year2023::day02::games_view(d.games@)),
                    u32::MAX as nat,
                ),
                Puzzle::Schematic(d) => r == counted(
                    year2023::day03::part_sum(d.part_nums@, d.symbols@),
                    u64::MAX as nat,
                ),
                Puzzle::Scratchcards(d) => r == counted(
                    year2023::day04::total_points(year2023::day04::cards_view(d.cards@)),
                    u64::MAX as nat,
                ),
                Puzzle::Almanac(d) => reports_seeds(r, *d, year2023::day05::single_ranges(d.seeds@)),
                Puzzle::Races(d) => r == (if year2023::day06::products_fit(d.races@) {
                    Answer::Value(year2023::day06::product_of_moves(d.races@) as u32 as u64)
                } else {
                    Answer::Overflow
                }),
                Puzzle::CamelCards(d) => r == counted(
                    year2023::day07::total_winnings(
                        year2023::day07::hands_view(d.hands@),
                        d.hands@.len() as int,
                        false,
                    ),
                    u32::MAX as nat,
                ),
            },
    {
        match self {
            Puzzle::Calories(d) => match d.solve_problem_1() {
                Some(Some(v)) => Answer::Value(v),
                Some(None) => Answer::NoValue,
                None => Answer::Overflow,
            },
            Puzzle::Calibration(d) => u32_answer(d.solve_problem_1()),
            Puzzle::Cubes(d) => u32_answer(d.solve_problem_1()),
            Puzzle::Schematic(d) => u64_answer(d.solve_problem_1()),
            Puzzle::Scratchcards(d) => u64_answer(d.solve_problem_1()),
            Puzzle::Almanac(d) => resolved_answer(d.solve_problem_1()),
            Puzzle::Races(d) => u32_answer(d.solve_problem_1()),
            Puzzle::CamelCards(d) => u32_answer(d.solve_problem_1()),
        }
    }

    /// The second answer.
    pub fn solve_problem_2(&self) -> (r: Answer)
        requires
            self.wf(),
        ensures
            match self {
                Puzzle::Calories(d) => r == (if d.totals_fit() {
                    counted(year2022::day01::total(year2022::day01::best_three(d.totals())), u64::MAX as nat)
                } else {
                    Answer::Overflow
                }),
                Puzzle::Calibration(d) => r == counted(
                    year2023::day01::calibration_sum(bytes_view(d.lines@), true),
                    u32::MAX as nat,
                ),
                Puzzle::Cubes(d) => r == counted(
                    year2023::day02::sum_powers(year2023::day02::games_view(d.games@)),
                    u32::MAX as nat,
                ),
                Puzzle::Schematic(d) => r == counted(
                    year2023::day03::gear_sum(d.part_nums@, d.symbols@),
                    u64::MAX as nat,
                ),
                Puzzle::Scratchcards(d) => r == (if year2023::day04::wins_in_range(year2023::day04::cards_view(d.cards@)) {
                    counted(
                        year2023::day04::total_copies(year2023::day04::cards_view(d.cards@), d.cards@.len() as nat),
                        u64::MAX as nat,
                    )
                } else {
                    Answer::Overflow
                }),
                Puzzle::Almanac(d) => reports_seeds(r, *d, year2023::day05::paired_ranges(d.seeds@)),
                Puzzle::Races(d) => r == counted(year2023::day06::winning_moves(d.combined_race), u32::MAX as nat),
                Puzzle::CamelCards(d) => r == counted(
                    year2023::day07::total_winnings(
                        year2023::day07::hands_view(d.hands@),
                        d.hands@.len() as int,
                        true,
                    ),
                    u32::MAX as nat,
                ),
            },
    {
        match self {
            Puzzle::Calories(d) => u64_answer(d.solve_problem_2()),
            Puzzle::Calibration(d) => u32_answer(d.solve_problem_2()),
            Puzzle::Cubes(d) => u32_answer(d.solve_problem_2()),
            Puzzle::Schematic(d) => u64_answer(d.solve_problem_2()),
            Puzzle::Scratchcards(d) => u64_answer(d.solve_problem_2()),
            Puzzle::Almanac(d) => resolved_answer(d.solve_problem_2()),
            Puzzle::Races(d) => u32_answer(d.solve_problem_2()),
            Puzzle::CamelCards(d) => u32_answer(d.solve_problem_2()),
        }
    }
}

fn u32_answer(v: Option<u32>) -> (r: Answer)
    ensures
        match v {
            Some(x) => r == Answer::Value(x as u64),
            None => r == Answer::Overflow,
        },
{
    match v {
        Some(x) => Answer::Value(x as u64),
        None => Answer::Overflow,
    }
}

fn u64_answer(v: Option<u64>) -> (r: Answer)
    ensures
        match v {
            Some(x) => r == Answer::Value(x),
            None => r == Answer::Overflow,
        },
{
    match v {
        Some(x) => Answer::Value(x),
        None => Answer::Overflow,
    }
}

fn resolved_answer(v: Result<u64, ResolveError>) -> (r: Answer)
    ensures
        reports(r, outcome_of(v)),
{
    match v {
        Ok(x) => Answer::Value(x),
        Err(e) => Answer::Unresolved(e),
    }
}

/// Sets up the 2022 puzzle of `day` from its input text.
pub fn year_2022(day: u8, input: &str) -> (r: Result<Puzzle, DispatchError>)
    ensures
        day != 1 ==> r matches Err(DispatchError::UnknownDay),
        day == 1 ==> (r matches Ok(Puzzle::Calories(_)) || r matches Err(DispatchError::BadInput)),
        day == 1 ==> (r matches Err(DispatchError::BadInput) <==> exists|i: int|
            0 <= i < crate::text::lines(input.spec_bytes()).len()
                && (#[trigger] crate::text::lines(input.spec_bytes())[i]).len() > 0
                && crate::text::parse_number(crate::text::lines(input.spec_bytes())[i]) is None),
        r matches Ok(Puzzle::Calories(d)) ==> d.elfs@.len() == year2022::day01::groups(
            crate::text::lines(input.spec_bytes()),
        ).len() && forall|i: int|
            0 <= i < d.elfs@.len() ==> year2022::day01::parse_inventory(
                year2022::day01::groups(crate::text::lines(input.spec_bytes()))[i],
            ) == Some(year2022::day01::calories_of(#[trigger] d.elfs@[i])),
        r matches Ok(p) ==> p.wf(),
{
    if day == 1 {
        match year2022::day01::Day01::parse(input) {
            Ok(d) => Ok(Puzzle::Calories(d)),
            Err(_) => Err(DispatchError::BadInput),
        }
    } else {
        Err(DispatchError::UnknownDay)
    }
}

/// Sets up the 2023 puzzle of `day` (1 to 7) from its input text.
pub fn year_2023(day: u8, input: &str) -> (r: Result<Puzzle, DispatchError>)
    ensures
        (day < 1 || day > 7) ==> r matches Err(DispatchError::UnknownDay),
        day == 1 ==> r matches Ok(Puzzle::Calibration(_)),
        day == 2 ==> (r matches Ok(Puzzle::Cubes(_)) || r matches Err(DispatchError::BadInput)),
        day == 3 ==> (r matches Ok(Puzzle::Schematic(_)) || r matches Err(DispatchError::BadInput)),
        day == 4 ==> (r matches Ok(Puzzle::Scratchcards(_)) || r matches Err(DispatchError::BadInput)),
        day == 5 ==> (r matches Ok(Puzzle::Almanac(_)) || r matches Err(DispatchError::BadInput)),
        day == 6 ==> (r matches Ok(Puzzle::Races(_)) || r matches Err(DispatchError::BadInput)),
        day == 7 ==> (r matches Ok(Puzzle::CamelCards(_)) || r matches Err(DispatchError::BadInput)),
        r matches Ok(Puzzle::Calibration(d)) ==> bytes_view(d.lines@) == crate::text::lines(input.spec_bytes()),
        r matches Ok(Puzzle::Cubes(d)) ==> year2023::day02::parse_games(crate::text::lines(input.spec_bytes()))
            == Ok::<Seq<year2023::day02::GameView>, year2023::day02::ParseError>(year2023::day02::games_view(d.games@)),
        day == 2 ==> (r matches Err(DispatchError::BadInput) <==> year2023::day02::parse_games(
            crate::text::lines(input.spec_bytes()),
        ) is Err),
        r matches Ok(Puzzle::Schematic(d)) ==> year2023::day03::scan_rows(crate::text::lines(input.spec_bytes()))
            == Some(year2023::day03::ScanState { parts: d.part_nums@, symbols: d.symbols@, current: None }),
        day == 3 ==> (r matches Err(DispatchError::BadInput) <==> year2023::day03::scan_rows(
            crate::text::lines(input.spec_bytes()),
        ) is None),
        r matches Ok(Puzzle::Scratchcards(d)) ==> year2023::day04::parse_cards(crate::text::lines(input.spec_bytes()))
            == Ok::<Seq<year2023::day04::CardView>, year2023::day04::ParseError>(year2023::day04::cards_view(d.cards@)),
        day == 4 ==> (r matches Err(DispatchError::BadInput) <==> year2023::day04::parse_cards(
            crate::text::lines(input.spec_bytes()),
        ) is Err),
        r matches Ok(Puzzle::Almanac(d)) ==> year2023::day05::parse_input(input.spec_bytes())
            == Ok::<year2023::day05::DayView, year2023::day05::ParseFailure>(d@),
        day == 5 ==> (r matches Err(DispatchError::BadInput) <==> year2023::day05::parse_input(input.spec_bytes()) is Err),
        r matches Ok(Puzzle::Races(d)) ==> year2023::day06::parse_sheet(input.spec_bytes())
            == Ok::<year2023::day06::DayView, year2023::day06::ParseError>(d@),
        day == 6 ==> (r matches Err(DispatchError::BadInput) <==> year2023::day06::parse_sheet(input.spec_bytes()) is Err),
        r matches Ok(Puzzle::CamelCards(d)) ==> year2023::day07::parse_hands(crate::text::lines(input.spec_bytes()))
            == Ok::<Seq<year2023::day07::HandView>, year2023::day07::ParseError>(year2023::day07::hands_view(d.hands@)),
        day == 7 ==> (r matches Err(DispatchError::BadInput) <==> year2023::day07::parse_hands(
            crate::text::lines(input.spec_bytes()),
        ) is Err),
        r matches Ok(p) ==> p.wf(),
{
    if day == 1 {
        Ok(Puzzle::Calibration(year2023::day01::Day01::parse(input)))
    } else if day == 2 {
        match year2023::day02::Day02::parse(input) {
            Ok(d) => Ok(Puzzle::Cubes(d)),
            Err(_) => Err(DispatchError::BadInput),
        }
    } else if day == 3 {
        match year2023::day03::Day::parse(input) {
            Ok(d) => Ok(Puzzle::Schematic(d)),
            Err(_) => Err(DispatchError::BadInput),
        }
    } else if day == 4 {
        match year2023::day04::Day::parse(input) {
            Ok(d) => Ok(Puzzle::Scratchcards(d)),
            Err(_) => Err(DispatchError::BadInput),
        }
    } else if day == 5 {
        match year2023::day05::Day::parse(input) {
            Ok(d) => Ok(Puzzle::Almanac(d)),
            Err(_) => Err(DispatchError::BadInput),
        }
    } else if day == 6 {
        match year2023::day06::Day::parse(input) {
            Ok(d) => Ok(Puzzle::Races(d)),
            Err(_) => Err(DispatchError::BadInput),
        }
    } else if day == 7 {
        match year2023::day07::Day::parse(input) {
            Ok(d) => Ok(Puzzle::CamelCards(d)),
            Err(_) => Err(DispatchError::BadInput),
        }
    } else {
        Err(DispatchError::UnknownDay)
    }
}

} // verus!
