//! Cube games: each game shows handfuls of red, green and blue cubes; games
//! are judged by the most cubes of each colour that they showed.
use crate::text::{
    bytes_view, find, find_byte, find_byte_from, find_from, lemma_find_from_bounds, lines,
    parse_number, parse_u32, same_bytes, slice_to_vec, split_lines, split_on, split_on_pattern,
};
use vstd::prelude::*;
use vstd::string::StringSliceAdditionalSpecFns;

verus! {

/// One handful of cubes, by colour.
#[derive(PartialEq, Eq, Structural, Clone, Copy, Debug)]
pub struct GameSet {
    pub red: u32,
    pub green: u32,
    pub blue: u32,
}

/// One game: its number and the handfuls it showed.
pub struct Game {
    pub id: u32,
    pub sets: Vec<GameSet>,
}

/// Why a game could not be read.
#[derive(PartialEq, Eq, Structural, Clone, Copy, Debug)]
pub enum ParseError {
    /// A separator (`: `, or the space after `Game` or after a count) is
    /// missing.
    MissingSeparator,
    /// A count or a game number is not a number that fits in `u32`.
    BadNumber,
    /// A colour other than `red`, `green` or `blue`.
    UnknownColor,
}

/// `red`.
pub open spec fn red_word() -> Seq<u8> {
    seq![114u8, 101, 100]
}

/// `green`.
pub open spec fn green_word() -> Seq<u8> {
    seq![103u8, 114, 101, 101, 110]
}

/// `blue`.
pub open spec fn blue_word() -> Seq<u8> {
    seq![98u8, 108, 117, 101]
}

/// The `u32` that `s` writes in decimal, if any.
pub open spec fn parse_u32_spec(s: Seq<u8>) -> Option<u32> {
    match parse_number(s) {
        Some(n) => if n <= u32::MAX {
            Some(n as u32)
        } else {
            None
        },
        None => None,
    }
}

/// The handful described by the entries `items` (`<count> <colour>` each),
/// read in order; a colour named again overrides its earlier count, and a
/// colour never named counts 0.
pub open spec fn parse_set_items(items: Seq<Seq<u8>>) -> Result<GameSet, ParseError>
    decreases items.len(),
{
    if items.len() == 0 {
        Ok(GameSet { red: 0, green: 0, blue: 0 })
    } else {
        match parse_set_items(items.drop_last()) {
            Err(e) => Err(e),
            Ok(acc) => {
                let item = items.last();
                match find_byte_from(item, 32, 0) {
                    None => Err(ParseError::MissingSeparator),
                    Some(sp) => match parse_u32_spec(item.take(sp)) {
                        None => Err(ParseError::BadNumber),
                        Some(n) => {
                            let color = item.skip(sp + 1);
                            if color == red_word() {
                                Ok(GameSet { red: n, ..acc })
                            } else if color == green_word() {
                                Ok(GameSet { green: n, ..acc })
                            } else if color == blue_word() {
                                Ok(GameSet { blue: n, ..acc })
                            } else {
                                Err(ParseError::UnknownColor)
                            }
                        },
                    },
                }
            },
        }
    }
}

/// The handful written as `s`: entries separated by `, `.
pub open spec fn parse_set(s: Seq<u8>) -> Result<GameSet, ParseError> {
    parse_set_items(split_on(s, seq![44u8, 32]))
}

/// The handfuls written as `texts`, or the first one's failure.
pub open spec fn parse_sets(texts: Seq<Seq<u8>>) -> Result<Seq<GameSet>, ParseError>
    decreases texts.len(),
{
    if texts.len() == 0 {
        Ok(seq![])
    } else {
        match parse_sets(texts.drop_last()) {
            Err(e) => Err(e),
            Ok(ss) => match parse_set(texts.last()) {
                Err(e) => Err(e),
                Ok(g) => Ok(ss.push(g)),
            },
        }
    }
}

/// A game as plain values.
pub struct GameView {
    pub id: u32,
    pub sets: Seq<GameSet>,
}

impl View for Game {
    type V = GameView;

    open spec fn view(&self) -> GameView {
        GameView { id: self.id, sets: self.sets@ }
    }
}

/// The game written on `line`: `Game <id>: <handful>; <handful>; ...`.
pub open spec fn parse_game(line: Seq<u8>) -> Result<GameView, ParseError> {
    match find_from(line, seq![58u8, 32], 0) {
        None => Err(ParseError::MissingSeparator),
        Some(c) => {
            let head = line.take(c);
            match find_byte_from(head, 32, 0) {
                None => Err(ParseError::MissingSeparator),
                Some(sp) => match parse_u32_spec(head.skip(sp + 1)) {
                    None => Err(ParseError::BadNumber),
                    Some(id) => match parse_sets(split_on(line.skip(c + 2), seq![59u8, 32])) {
                        Err(e) => Err(e),
                        Ok(sets) => Ok(GameView { id, sets }),
                    },
                },
            }
        },
    }
}

/// The largest count of each colour among the handfuls `sets`.
pub open spec fn max_counts(sets: Seq<GameSet>) -> (u32, u32, u32)
    decreases sets.len(),
{
    if sets.len() == 0 {
        (0, 0, 0)
    } else {
        let m = max_counts(sets.drop_last());
        let s = sets.last();
        (
            if s.red > m.0 { s.red } else { m.0 },
            if s.green > m.1 { s.green } else { m.1 },
            if s.blue > m.2 { s.blue } else { m.2 },
        )
    }
}

/// Once a prefix fails, the whole sequence fails the same way.
proof fn lemma_parse_set_items_prefix(items: Seq<Seq<u8>>, i: int, e: ParseError)
    requires
        0 <= i <= items.len(),
        parse_set_items(items.take(i)) == Err::<GameSet, ParseError>(e),
    ensures
        parse_set_items(items) == Err::<GameSet, ParseError>(e),
    decreases items.len() - i,
{
    if i < items.len() {
        assert(items.take(i + 1).drop_last() =~= items.take(i));
        lemma_parse_set_items_prefix(items, i + 1, e);
    } else {
        assert(items.take(i) =~= items);
    }
}

/// Once a prefix fails, the whole sequence fails the same way.
proof fn lemma_parse_sets_prefix(texts: Seq<Seq<u8>>, i: int, e: ParseError)
    requires
        0 <= i <= texts.len(),
        parse_sets(texts.take(i)) == Err::<Seq<GameSet>, ParseError>(e),
    ensures
        parse_sets(texts) == Err::<Seq<GameSet>, ParseError>(e),
    decreases texts.len() - i,
{
    if i < texts.len() {
        assert(texts.take(i + 1).drop_last() =~= texts.take(i));
        lemma_parse_sets_prefix(texts, i + 1, e);
    } else {
        assert(texts.take(i) =~= texts);
    }
}

impl GameSet {
    /// Reads a handful: `<count> <colour>` entries separated by `, `.
    pub fn from_str(set: &[u8]) -> (r: Result<GameSet, ParseError>)
        ensures
            r == parse_set(set@),
    {
        let sep: Vec<u8> = vec![44u8, 32];
        assert(sep@ =~= seq![44u8, 32]);
        let items = split_on_pattern(set, sep.as_slice());
        let ghost iv = bytes_view(items@);
        let red: Vec<u8> = vec![114u8, 101, 100];
        let green: Vec<u8> = vec![103u8, 114, 101, 101, 110];
        let blue: Vec<u8> = vec![98u8, 108, 117, 101];
        assert(red@ =~= red_word());
        assert(green@ =~= green_word());
        assert(blue@ =~= blue_word());
        let mut acc = GameSet { red: 0, green: 0, blue: 0 };
        let mut i: usize = 0;
        assert(iv.take(0) =~= Seq::<Seq<u8>>::empty());
        while i < items.len()
            invariant
                iv == bytes_view(items@),
                iv == split_on(set@, seq![44u8, 32]),
                red@ == red_word(),
                green@ == green_word(),
                blue@ == blue_word(),
                i <= items@.len(),
                parse_set_items(iv.take(i as int)) == Ok::<GameSet, ParseError>(acc),
            decreases items@.len() - i,
        {
            assert(iv.take(i + 1).drop_last() =~= iv.take(i as int));
            assert(iv.take(i + 1).last() == items@[i as int]@);
            let item = items[i].as_slice();
            let step: Result<GameSet, ParseError> = match find_byte(item, 32) {
                None => Err(ParseError::MissingSeparator),
                Some(sp) => {
                    proof {
                        crate::text::lemma_find_byte(item@, 32, 0);
                    }
                    let il: usize = item.len();
                    let count_text = slice_to_vec(item, 0, sp);
                    let color = slice_to_vec(item, sp + 1, il);
                    assert(count_text@ =~= item@.take(sp as int));
                    assert(color@ =~= item@.skip(sp + 1));
                    match parse_u32(count_text.as_slice()) {
                        None => Err(ParseError::BadNumber),
                        Some(n) => {
                            if same_bytes(color.as_slice(), red.as_slice()) {
                                Ok(GameSet { red: n, ..acc })
                            } else if same_bytes(color.as_slice(), green.as_slice()) {
                                Ok(GameSet { green: n, ..acc })
                            } else if same_bytes(color.as_slice(), blue.as_slice()) {
                                Ok(GameSet { blue: n, ..acc })
                            } else {
                                Err(ParseError::UnknownColor)
                            }
                        },
                    }
                },
            };
            match step {
                Err(e) => {
                    proof {
                        lemma_parse_set_items_prefix(iv, i + 1, e);
                    }
                    return Err(e);
                },
                Ok(g) => {
                    acc = g;
                },
            }
            i = i + 1;
        }
        assert(iv.take(i as int) =~= iv);
        Ok(acc)
    }
}

/// Reads the handfuls of a game, separated by `; `.
fn parse_sets_exec(body: &[u8]) -> (r: Result<Vec<GameSet>, ParseError>)
    ensures
        match r {
            Ok(v) => parse_sets(split_on(body@, seq![59u8, 32])) == Ok::<Seq<GameSet>, ParseError>(v@),
            Err(e) => parse_sets(split_on(body@, seq![59u8, 32])) == Err::<Seq<GameSet>, ParseError>(e),
        },
{
        let semi: Vec<u8> = vec![59u8, 32];
        assert(semi@ =~= seq![59u8, 32]);
        let texts = split_on_pattern(body, semi.as_slice());
        let ghost tv = bytes_view(texts@);
        let mut sets: Vec<GameSet> = Vec::new();
        let mut i: usize = 0;
        assert(tv.take(0) =~= Seq::<Seq<u8>>::empty());
        while i < texts.len()
            invariant
                tv == bytes_view(texts@),
                tv == split_on(body@, seq![59u8, 32]),
                i <= texts@.len(),
                parse_sets(tv.take(i as int)) == Ok::<Seq<GameSet>, ParseError>(sets@),
            decreases texts@.len() - i,
        {
            assert(tv.take(i + 1).drop_last() =~= tv.take(i as int));
            assert(tv.take(i + 1).last() == texts@[i as int]@);
            match GameSet::from_str(texts[i].as_slice()) {
                Err(e) => {
                    proof {
                        lemma_parse_sets_prefix(tv, i + 1, e);
                    }
                    return Err(e);
                },
                Ok(g) => {
                    sets.push(g);
                },
            }
            i = i + 1;
        }
        assert(tv.take(i as int) =~= tv);
        Ok(sets)
}

impl Game {
    /// The largest count of each colour over the game's handfuls, as
    /// (red, green, blue).
    pub fn max_cube_numbers(&self) -> (r: (u32, u32, u32))
        ensures
            r == max_counts(self.sets@),
    {
        let mut acc: (u32, u32, u32) = (0, 0, 0);
        let mut i: usize = 0;
        while i < self.sets.len()
            invariant
                i <= self.sets@.len(),
                acc == max_counts(self.sets@.take(i as int)),
            decreases self.sets@.len() - i,
        {
            assert(self.sets@.take(i + 1).drop_last() =~= self.sets@.take(i as int));
            let s = self.sets[i];
            acc = (
                if s.red > acc.0 { s.red } else { acc.0 },
                if s.green > acc.1 { s.green } else { acc.1 },
                if s.blue > acc.2 { s.blue } else { acc.2 },
            );
            i = i + 1;
        }
        assert(self.sets@.take(i as int) =~= self.sets@);
        acc
    }

    /// Reads a game from its line: `Game <id>: <handful>; <handful>; ...`.
    pub fn from_str(s: &[u8]) -> (r: Result<Game, ParseError>)
        ensures
            match r {
                Ok(g) => parse_game(s@) == Ok::<GameView, ParseError>(g@),
                Err(e) => parse_game(s@) == Err::<GameView, ParseError>(e),
            },
    {
        let colon: Vec<u8> = vec![58u8, 32];
        assert(colon@ =~= seq![58u8, 32]);
        let c = match find(s, colon.as_slice()) {
            None => {
                return Err(ParseError::MissingSeparator);
            },
            Some(c) => c,
        };
        proof {
            lemma_find_from_bounds(s@, seq![58u8, 32], 0);
        }
        let n: usize = s.len();
        let head = slice_to_vec(s, 0, c);
        assert(head@ =~= s@.take(c as int));
        let sp = match find_byte(head.as_slice(), 32) {
            None => {
                return Err(ParseError::MissingSeparator);
            },
            Some(sp) => sp,
        };
        proof {
            crate::text::lemma_find_byte(head@, 32, 0);
        }
        let id_text = slice_to_vec(head.as_slice(), sp + 1, head.len());
        assert(id_text@ =~= head@.skip(sp + 1));
        let id = match parse_u32(id_text.as_slice()) {
            None => {
                return Err(ParseError::BadNumber);
            },
            Some(id) => id,
        };
        let body = slice_to_vec(s, c + 2, n);
        assert(body@ =~= s@.skip(c + 2));
        let sets = match parse_sets_exec(body.as_slice()) {
            Err(e) => {
                return Err(e);
            },
            Ok(sets) => sets,
        };
        Ok(Game { id, sets })
    }
}

/// The games of a puzzle, as plain values.
pub open spec fn games_view(gs: Seq<Game>) -> Seq<GameView> {
    gs.map_values(|g: Game| g@)
}

/// The games written on the lines `ls`, or the first line's failure.
pub open spec fn parse_games(ls: Seq<Seq<u8>>) -> Result<Seq<GameView>, ParseError>
    decreases ls.len(),
{
    if ls.len() == 0 {
        Ok(seq![])
    } else {
        match parse_games(ls.drop_last()) {
            Err(e) => Err(e),
            Ok(gs) => match parse_game(ls.last()) {
                Err(e) => Err(e),
                Ok(g) => Ok(gs.push(g)),
            },
        }
    }
}

/// Once a prefix of the lines fails, all the lines fail the same way.
proof fn lemma_parse_games_prefix(ls: Seq<Seq<u8>>, i: int, e: ParseError)
    requires
        0 <= i <= ls.len(),
        parse_games(ls.take(i)) == Err::<Seq<GameView>, ParseError>(e),
    ensures
        parse_games(ls) == Err::<Seq<GameView>, ParseError>(e),
    decreases ls.len() - i,
{
    if i < ls.len() {
        assert(ls.take(i + 1).drop_last() =~= ls.take(i));
        lemma_parse_games_prefix(ls, i + 1, e);
    } else {
        assert(ls.take(i) =~= ls);
    }
}

/// The bag's content that a game must not exceed: 12 red, 13 green, 14 blue.
pub open spec fn possible(g: GameView) -> bool {
    let m = max_counts(g.sets);
    m.0 <= 12 && m.1 <= 13 && m.2 <= 14
}

/// Sum of the numbers of the possible games.
pub open spec fn sum_possible_ids(gs: Seq<GameView>) -> nat
    decreases gs.len(),
{
    if gs.len() == 0 {
        0
    } else {
        sum_possible_ids(gs.drop_last()) + if possible(gs.last()) {
            gs.last().id as nat
        } else {
            0
        }
    }
}

/// The power of a game: the product of its largest counts.
pub open spec fn power(g: GameView) -> nat {
    let m = max_counts(g.sets);
    (m.0 * m.1 * m.2) as nat
}

/// Sum of the powers of the games.
pub open spec fn sum_powers(gs: Seq<GameView>) -> nat
    decreases gs.len(),
{
    if gs.len() == 0 {
        0
    } else {
        sum_powers(gs.drop_last()) + power(gs.last())
    }
}

/// The games of the puzzle.
pub struct Day02 {
    pub games: Vec<Game>,
}

impl Day02 {
    /// Reads one game per line.
    pub fn parse(input: &str) -> (r: Result<Day02, ParseError>)
        ensures
            match r {
                Ok(d) => parse_games(lines(input.spec_bytes())) == Ok::<Seq<GameView>, ParseError>(
                    games_view(d.games@),
                ),
                Err(e) => parse_games(lines(input.spec_bytes())) == Err::<Seq<GameView>, ParseError>(e),
            },
    {
        let ls = split_lines(input.as_bytes());
        let ghost lv = bytes_view(ls@);
        let mut games: Vec<Game> = Vec::new();
        let mut i: usize = 0;
        assert(lv.take(0) =~= Seq::<Seq<u8>>::empty());
        assert(games_view(games@) =~= Seq::<GameView>::empty());
        while i < ls.len()
            invariant
                lv == bytes_view(ls@),
                lv == lines(input.spec_bytes()),
                i <= ls@.len(),
                parse_games(lv.take(i as int)) == Ok::<Seq<GameView>, ParseError>(games_view(games@)),
            decreases ls@.len() - i,
        {
            assert(lv.take(i + 1).drop_last() =~= lv.take(i as int));
            assert(lv.take(i + 1).last() == ls@[i as int]@);
            match Game::from_str(ls[i].as_slice()) {
                Err(e) => {
                    proof {
                        lemma_parse_games_prefix(lv, i + 1, e);
                    }
                    return Err(e);
                },
                Ok(g) => {
                    let ghost before = games_view(games@);
                    games.push(g);
                    assert(games_view(games@) =~= before.push(g@));
                },
            }
            i = i + 1;
        }
        assert(lv.take(i as int) =~= lv);
        Ok(Day02 { games })
    }

    /// Sum of the numbers of the games possible with 12 red, 13 green and 14
    /// blue cubes.
    pub fn solve_problem_1(&self) -> (r: Option<u32>)
        ensures
            r == (if sum_possible_ids(games_view(self.games@)) <= u32::MAX {
                Some(sum_possible_ids(games_view(self.games@)) as u32)
            } else {
                None
            }),
    {
        let ghost gs = games_view(self.games@);
        let mut sum: u32 = 0;
        let mut i: usize = 0;
        while i < self.games.len()
            invariant
                gs == games_view(self.games@),
                i <= self.games@.len(),
                sum == sum_possible_ids(gs.take(i as int)),
            decreases self.games@.len() - i,
        {
            assert(gs.take(i + 1).drop_last() =~= gs.take(i as int));
            assert(gs[i as int] == self.games@[i as int]@);
            proof {
                lemma_sum_possible_prefix(gs, i + 1);
            }
            let (r, g, b) = self.games[i].max_cube_numbers();
            if r <= 12 && g <= 13 && b <= 14 {
                let id = self.games[i].id;
                if id > u32::MAX - sum {
                    return None;
                }
                sum = sum + id;
            }
            i = i + 1;
        }
        assert(gs.take(i as int) =~= gs);
        Some(sum)
    }

    /// Sum of the powers of all games.
    pub fn solve_problem_2(&self) -> (r: Option<u32>)
        ensures
            r == (if sum_powers(games_view(self.games@)) <= u32::MAX {
                Some(sum_powers(games_view(self.games@)) as u32)
            } else {
                None
            }),
    {
        let ghost gs = games_view(self.games@);
        let mut sum: u32 = 0;
        let mut i: usize = 0;
        while i < self.games.len()
            invariant
                gs == games_view(self.games@),
                i <= self.games@.len(),
                sum == sum_powers(gs.take(i as int)),
            decreases self.games@.len() - i,
        {
            assert(gs.take(i + 1).drop_last() =~= gs.take(i as int));
            assert(gs[i as int] == self.games@[i as int]@);
            proof {
                lemma_sum_powers_prefix(gs, i + 1);
            }
            let (r, g, b) = self.games[i].max_cube_numbers();
            proof {
                assert((r as int) * (g as int) <= 0xFFFF_FFFF * 0xFFFF_FFFF) by (nonlinear_arith)
                    requires
                        r <= 0xFFFF_FFFFu32,
                        g <= 0xFFFF_FFFFu32,
                ;
                assert((r as int) * (g as int) * (b as int) <= 0xFFFF_FFFF * 0xFFFF_FFFF * 0xFFFF_FFFF) by (nonlinear_arith)
                    requires
                        (r as int) * (g as int) <= 0xFFFF_FFFF * 0xFFFF_FFFF,
                        b <= 0xFFFF_FFFFu32,
                        0 <= (r as int) * (g as int),
                ;
            }
            let p = (r as u128) * (g as u128) * (b as u128);
            if p > (u32::MAX - sum) as u128 {
                return None;
            }
            sum = sum + (p as u32);
            i = i + 1;
        }
        assert(gs.take(i as int) =~= gs);
        Some(sum)
    }
}

/// The sum over a prefix of the games is at most the sum over all of them.
proof fn lemma_sum_possible_prefix(gs: Seq<GameView>, i: int)
    requires
        0 <= i <= gs.len(),
    ensures
        sum_possible_ids(gs.take(i)) <= sum_possible_ids(gs),
    decreases gs.len() - i,
{
    if i < gs.len() {
        lemma_sum_possible_prefix(gs, i + 1);
        assert(gs.take(i + 1).drop_last() =~= gs.take(i));
    } else {
        assert(gs.take(i) =~= gs);
    }
}

/// The sum over a prefix of the games is at most the sum over all of them.
proof fn lemma_sum_powers_prefix(gs: Seq<GameView>, i: int)
    requires
        0 <= i <= gs.len(),
    ensures
        sum_powers(gs.take(i)) <= sum_powers(gs),
    decreases gs.len() - i,
{
    if i < gs.len() {
        lemma_sum_powers_prefix(gs, i + 1);
        assert(gs.take(i + 1).drop_last() =~= gs.take(i));
    } else {
        assert(gs.take(i) =~= gs);
    }
}

} // verus!
