//! Scratchcards: each card lists winning numbers and drawn numbers; matches
//! score points, or win copies of the cards that follow.
use crate::text::{
    bytes_view, find, find_from, lemma_find_from_bounds, lines, parse_numbers_u32, parse_u32_list, slice_to_vec,
    split_lines, words,
};
use vstd::arithmetic::power2::pow2;
use vstd::prelude::*;
use vstd::string::StringSliceAdditionalSpecFns;

verus! {

/// One scratchcard.
pub struct Card {
    pub winners: Vec<u32>,
    pub draws: Vec<u32>,
}

/// A scratchcard as plain values.
pub struct CardView {
    pub winners: Seq<u32>,
    pub draws: Seq<u32>,
}

impl View for Card {
    type V = CardView;

    open spec fn view(&self) -> CardView {
        CardView { winners: self.winners@, draws: self.draws@ }
    }
}

/// How many drawn numbers (counted with repetition) are winning numbers.
pub open spec fn matches_of(c: CardView) -> nat {
    c.draws.filter(|d: u32| c.winners.contains(d)).len()
}

/// Why a card could not be read.
#[derive(Debug)]
pub enum ParseError {
    /// The line lacks `: ` or ` | `.
    MissingSeparator,
    /// A word is not a number that fits in `u32`.
    BadNumber,
}

/// `: `, which ends the card's name.
pub open spec fn colon_sep() -> Seq<u8> {
    seq![58u8, 32]
}

/// ` | `, which separates winning numbers from drawn numbers.
pub open spec fn bar_sep() -> Seq<u8> {
    seq![32u8, 124, 32]
}

/// The card written on `line`: `Card <n>: <winners> | <draws>`.
pub open spec fn parse_card(line: Seq<u8>) -> Result<CardView, ParseError> {
    match find_from(line, colon_sep(), 0) {
        None => Err(ParseError::MissingSeparator),
        Some(c) => {
            let numbers = line.skip(c + 2);
            match find_from(numbers, bar_sep(), 0) {
                None => Err(ParseError::MissingSeparator),
                Some(p) => match (
                    parse_numbers_u32(words(numbers.take(p))),
                    parse_numbers_u32(words(numbers.skip(p + 3))),
                ) {
                    (Some(w), Some(d)) => Ok(CardView { winners: w, draws: d }),
                    _ => Err(ParseError::BadNumber),
                },
            }
        },
    }
}

/// The cards written on the lines `ls`, or the first line's failure.
pub open spec fn parse_cards(ls: Seq<Seq<u8>>) -> Result<Seq<CardView>, ParseError>
    decreases ls.len(),
{
    if ls.len() == 0 {
        Ok(seq![])
    } else {
        match parse_cards(ls.drop_last()) {
            Err(e) => Err(e),
            Ok(cs) => match parse_card(ls.last()) {
                Err(e) => Err(e),
                Ok(c) => Ok(cs.push(c)),
            },
        }
    }
}

impl Card {
    /// How many drawn numbers are winning numbers.
    pub fn count_matches(&self) -> (r: usize)
        ensures
            r == matches_of(self@),
    {
        let ghost f = |d: u32| self.winners@.contains(d);
        let mut count: usize = 0;
        let mut i: usize = 0;
        while i < self.draws.len()
            invariant
                i <= self.draws@.len(),
                f == (|d: u32| self.winners@.contains(d)),
                count == self.draws@.take(i as int).filter(f).len(),
                count <= i,
            decreases self.draws@.len() - i,
        {
            let d = self.draws[i];
            let mut found = false;
            let mut k: usize = 0;
            while k < self.winners.len()
                invariant
                    k <= self.winners@.len(),
                    found == (exists|j: int| 0 <= j < k && self.winners@[j] == d),
                decreases self.winners@.len() - k,
            {
                if self.winners[k] == d {
                    found = true;
                }
                k = k + 1;
            }
            proof {
                assert(self.draws@.take(i + 1).drop_last() =~= self.draws@.take(i as int));
                reveal(Seq::filter);
                if found {
                    let j = choose|j: int| 0 <= j < k && self.winners@[j] == d;
                    assert(self.winners@.contains(d));
                }
            }
            if found {
                count = count + 1;
            }
            i = i + 1;
        }
        assert(self.draws@.take(i as int) =~= self.draws@);
        count
    }

    /// Reads a card from its line: `Card <n>: <winners> | <draws>`.
    pub fn from_str(s: &[u8]) -> (r: Result<Card, ParseError>)
        ensures
            match r {
                Ok(c) => parse_card(s@) == Ok::<CardView, ParseError>(c@),
                Err(e) => parse_card(s@) == Err::<CardView, ParseError>(e),
            },
    {
        let colon: Vec<u8> = vec![58u8, 32];
        assert(colon@ =~= colon_sep());
        let c = match find(s, colon.as_slice()) {
            None => {
                return Err(ParseError::MissingSeparator);
            },
            Some(c) => c,
        };
        proof {
            lemma_find_from_bounds(s@, colon_sep(), 0);
        }
        let n: usize = s.len();
        let numbers = slice_to_vec(s, c + 2, n);
        assert(numbers@ =~= s@.skip(c + 2));
        let bar: Vec<u8> = vec![32u8, 124, 32];
        assert(bar@ =~= bar_sep());
        let p = match find(numbers.as_slice(), bar.as_slice()) {
            None => {
                return Err(ParseError::MissingSeparator);
            },
            Some(p) => p,
        };
        proof {
            lemma_find_from_bounds(numbers@, bar_sep(), 0);
        }
        let winners_text = slice_to_vec(numbers.as_slice(), 0, p);
        let draws_text = slice_to_vec(numbers.as_slice(), p + 3, numbers.len());
        assert(winners_text@ =~= numbers@.take(p as int));
        assert(draws_text@ =~= numbers@.skip(p + 3));
        let winners = parse_u32_list(winners_text.as_slice());
        let draws = parse_u32_list(draws_text.as_slice());
        match (winners, draws) {
            (Some(winners), Some(draws)) => Ok(Card { winners, draws }),
            _ => Err(ParseError::BadNumber),
        }
    }
}

/// Points of a card: none without a match, else 2 to the power of one less
/// than its matches.
pub open spec fn points(m: nat) -> nat {
    if m == 0 {
        0
    } else {
        pow2((m - 1) as nat)
    }
}

/// Sum of the points of the cards.
pub open spec fn total_points(cs: Seq<CardView>) -> nat
    decreases cs.len(),
{
    if cs.len() == 0 {
        0
    } else {
        total_points(cs.drop_last()) + points(matches_of(cs.last()))
    }
}

/// Whether card `k` wins a copy of card `j`: `j` is among the cards right
/// after `k`, as many as `k` has matches.
pub open spec fn wins_copy(cs: Seq<CardView>, k: int, j: int) -> bool {
    k < j <= k + matches_of(cs[k])
}

/// How many copies of card `j` there are once the first `i` cards have handed
/// out their wins (each copy of card `k` wins one copy of each card it wins).
pub open spec fn copies_after(cs: Seq<CardView>, i: nat, j: int) -> nat
    decreases i,
{
    if i == 0 {
        1
    } else {
        let k = i - 1;
        copies_after(cs, (i - 1) as nat, j) + if wins_copy(cs, k, j) {
            copies_after(cs, (i - 1) as nat, k)
        } else {
            0
        }
    }
}

/// Sum of the copies of the first `j` cards, once every card has handed out
/// its wins.
pub open spec fn total_copies(cs: Seq<CardView>, j: nat) -> nat
    decreases j,
{
    if j == 0 {
        0
    } else {
        total_copies(cs, (j - 1) as nat) + copies_after(cs, cs.len(), j - 1)
    }
}

/// The copies of a card only grow as cards hand out their wins.
proof fn lemma_copies_grow(cs: Seq<CardView>, i: nat, n: nat, j: int)
    requires
        i <= n,
    ensures
        copies_after(cs, i, j) <= copies_after(cs, n, j),
    decreases n - i,
{
    if i < n {
        lemma_copies_grow(cs, i, (n - 1) as nat, j);
    }
}

/// A card's copies are part of the total over the cards up to it.
proof fn lemma_total_copies_grow(cs: Seq<CardView>, j: nat, n: nat)
    requires
        j <= n,
    ensures
        total_copies(cs, j) <= total_copies(cs, n),
    decreases n - j,
{
    if j < n {
        lemma_total_copies_grow(cs, j, (n - 1) as nat);
    }
}

/// The scratchcards of the puzzle.
pub struct Day {
    pub cards: Vec<Card>,
}

/// The cards of a puzzle, as plain values.
pub open spec fn cards_view(cs: Seq<Card>) -> Seq<CardView> {
    cs.map_values(|c: Card| c@)
}

impl Day {
    /// Reads one card per line.
    pub fn parse(input: &str) -> (r: Result<Day, ParseError>)
        ensures
            match r {
                Ok(d) => parse_cards(lines(input.spec_bytes())) == Ok::<Seq<CardView>, ParseError>(
                    cards_view(d.cards@),
                ),
                Err(e) => parse_cards(lines(input.spec_bytes())) == Err::<Seq<CardView>, ParseError>(e),
            },
    {
        let ls = split_lines(input.as_bytes());
        let ghost lv = bytes_view(ls@);
        let mut cards: Vec<Card> = Vec::new();
        let mut i: usize = 0;
        assert(lv.take(0) =~= Seq::<Seq<u8>>::empty());
        assert(cards_view(cards@) =~= Seq::<CardView>::empty());
        while i < ls.len()
            invariant
                lv == bytes_view(ls@),
                lv == lines(input.spec_bytes()),
                i <= ls@.len(),
                parse_cards(lv.take(i as int)) == Ok::<Seq<CardView>, ParseError>(cards_view(cards@)),
            decreases ls@.len() - i,
        {
            assert(lv.take(i + 1).drop_last() =~= lv.take(i as int));
            assert(lv.take(i + 1).last() == ls@[i as int]@);
            match Card::from_str(ls[i].as_slice()) {
                Err(e) => {
                    proof {
                        lemma_parse_cards_prefix(lv, i + 1, e);
                    }
                    return Err(e);
                },
                Ok(c) => {
                    let ghost before = cards_view(cards@);
                    cards.push(c);
                    assert(cards_view(cards@) =~= before.push(c@));
                },
            }
            i = i + 1;
        }
        assert(lv.take(i as int) =~= lv);
        Ok(Day { cards })
    }

    /// Sum of the points of all cards, if it fits in `u64`.
    pub fn solve_problem_1(&self) -> (r: Option<u64>)
        ensures
            r == (if total_points(cards_view(self.cards@)) <= u64::MAX {
                Some(total_points(cards_view(self.cards@)) as u64)
            } else {
                None
            }),
    {
        let ghost cs = cards_view(self.cards@);
        let mut sum: u64 = 0;
        let mut i: usize = 0;
        assert(cs.take(0) =~= Seq::<CardView>::empty());
        while i < self.cards.len()
            invariant
                cs == cards_view(self.cards@),
                i <= self.cards@.len(),
                sum == total_points(cs.take(i as int)),
            decreases self.cards@.len() - i,
        {
            assert(cs.take(i + 1).drop_last() =~= cs.take(i as int));
            assert(cs[i as int] == self.cards@[i as int]@);
            proof {
                lemma_total_points_prefix(cs, i + 1);
            }
            let m = self.cards[i].count_matches();
            if m > 0 {
                if m > 64 {
                    proof {
                        vstd::arithmetic::power2::lemma2_to64_rest();
                        if m - 1 > 64 {
                            vstd::arithmetic::power2::lemma_pow2_strictly_increases(64, (m - 1) as nat);
                        }
                    }
                    return None;
                }
                let e = m - 1;
                proof {
                    vstd::bits::lemma_u64_pow2_no_overflow(e as nat);
                    vstd::bits::lemma_u64_shl_is_mul(1u64, e as u64);
                }
                let p: u64 = 1u64 << (e as u64);
                if p > u64::MAX - sum {
                    return None;
                }
                sum = sum + p;
            }
            i = i + 1;
        }
        assert(cs.take(i as int) =~= cs);
        Some(sum)
    }

    /// Total number of cards held once every card has won its copies; `None`
    /// when a card wins copies past the last card, or the total does not fit
    /// in `u64`.
    pub fn solve_problem_2(&self) -> (r: Option<u64>)
        ensures
            r == (if wins_in_range(cards_view(self.cards@)) && total_copies(cards_view(self.cards@), self.cards@.len() as nat) <= u64::MAX {
                Some(total_copies(cards_view(self.cards@), self.cards@.len() as nat) as u64)
            } else {
                None
            }),
    {
        let ghost cs = cards_view(self.cards@);
        let n = self.cards.len();
        let mut j: usize = 0;
        while j < n
            invariant
                cs == cards_view(self.cards@),
                n == self.cards@.len(),
                j <= n,
                forall|k: int| 0 <= k < j ==> k + 1 + matches_of(#[trigger] cs[k]) <= n,
            decreases n - j,
        {
            assert(cs[j as int] == self.cards@[j as int]@);
            let m = self.cards[j].count_matches();
            if m > n - j - 1 {
                return None;
            }
            j = j + 1;
        }
        let mut counts: Vec<u64> = Vec::new();
        let mut j: usize = 0;
        while j < n
            invariant
                n == self.cards@.len(),
                j <= n,
                counts@.len() == j,
                forall|x: int| 0 <= x < j ==> counts@[x] == 1,
            decreases n - j,
        {
            counts.push(1);
            j = j + 1;
        }
        let mut i: usize = 0;
        while i < n
            invariant
                cs == cards_view(self.cards@),
                n == self.cards@.len(),
                cs.len() == n,
                wins_in_range(cs),
                i <= n,
                counts@.len() == n,
                forall|x: int| 0 <= x < n ==> counts@[x] == copies_after(cs, i as nat, x),
            decreases n - i,
        {
            assert(cs[i as int] == self.cards@[i as int]@);
            let m = self.cards[i].count_matches();
            assert(i + 1 + matches_of(cs[i as int]) <= n);
            let cur = counts[i];
            let ghost before = counts@;
            let mut j: usize = i + 1;
            while j < i + 1 + m
                invariant
                    cs == cards_view(self.cards@),
                    n == self.cards@.len(),
                    cs.len() == n,
                    i < n,
                    m == matches_of(cs[i as int]),
                    i + 1 + m <= n,
                    cur == copies_after(cs, i as nat, i as int),
                    i + 1 <= j <= i + 1 + m,
                    counts@.len() == n,
                    forall|x: int| 0 <= x < n ==> counts@[x] == if i < x < j {
                        copies_after(cs, (i + 1) as nat, x)
                    } else {
                        before[x] as nat
                    },
                    forall|x: int| 0 <= x < n ==> before[x] == copies_after(cs, i as nat, x),
                decreases i + 1 + m - j,
            {
                let v = counts[j];
                if cur > u64::MAX - v {
                    proof {
                        assert(copies_after(cs, (i + 1) as nat, j as int) == v + cur);
                        lemma_copies_grow(cs, (i + 1) as nat, n as nat, j as int);
                        lemma_total_copies_grow(cs, (j + 1) as nat, n as nat);
                    }
                    return None;
                }
                counts.set(j, v + cur);
                j = j + 1;
            }
            i = i + 1;
        }
        let mut sum: u64 = 0;
        let mut k: usize = 0;
        while k < n
            invariant
                cs == cards_view(self.cards@),
                n == self.cards@.len(),
                cs.len() == n,
                k <= n,
                counts@.len() == n,
                forall|x: int| 0 <= x < n ==> counts@[x] == copies_after(cs, n as nat, x),
                sum == total_copies(cs, k as nat),
            decreases n - k,
        {
            proof {
                lemma_total_copies_grow(cs, (k + 1) as nat, n as nat);
            }
            if counts[k] > u64::MAX - sum {
                assert(total_copies(cs, (k + 1) as nat) == sum + counts@[k as int]);
                return None;
            }
            sum = sum + counts[k];
            k = k + 1;
        }
        Some(sum)
    }
}

/// Every card's wins stay among the cards that follow it.
pub open spec fn wins_in_range(cs: Seq<CardView>) -> bool {
    forall|k: int| 0 <= k < cs.len() ==> k + 1 + matches_of(#[trigger] cs[k]) <= cs.len()
}

/// The points of a prefix of the cards are at most those of all cards.
proof fn lemma_total_points_prefix(cs: Seq<CardView>, i: int)
    requires
        0 <= i <= cs.len(),
    ensures
        total_points(cs.take(i)) <= total_points(cs),
    decreases cs.len() - i,
{
    if i < cs.len() {
        lemma_total_points_prefix(cs, i + 1);
        assert(cs.take(i + 1).drop_last() =~= cs.take(i));
    } else {
        assert(cs.take(i) =~= cs);
    }
}

/// Once a prefix of the lines fails, all the lines fail the same way.
proof fn lemma_parse_cards_prefix(ls: Seq<Seq<u8>>, i: int, e: ParseError)
    requires
        0 <= i <= ls.len(),
        parse_cards(ls.take(i)) == Err::<Seq<CardView>, ParseError>(e),
    ensures
        parse_cards(ls) == Err::<Seq<CardView>, ParseError>(e),
    decreases ls.len() - i,
{
    if i < ls.len() {
        assert(ls.take(i + 1).drop_last() =~= ls.take(i));
        lemma_parse_cards_prefix(ls, i + 1, e);
    } else {
        assert(ls.take(i) =~= ls);
    }
}

} // verus!
