//! Camel cards: hands of five cards are ranked by type, then card by card;
//! each hand wins its bid times its rank. In the second part `J` is a joker:
//! it counts as whatever card makes the best type, and is the weakest card.
use crate::text::{bytes_view, find_byte, find_byte_from, lines, parse_number, parse_u64, slice_to_vec, split_lines};
use vstd::prelude::*;
use vstd::string::StringSliceAdditionalSpecFns;

verus! {

/// A card label, weakest first (`Joker` stands for `J` in the second part).
#[derive(PartialEq, Eq, Structural, Clone, Copy)]
pub enum Card {
    Joker,
    Two,
    Three,
    Four,
    Five,
    Six,
    Seven,
    Eight,
    Nine,
    T,
    J,
    Q,
    K,
    A,
}

/// The strength of a card, `Joker` lowest and `A` highest; with jokers, `J`
/// is as weak as `Joker`.
pub open spec fn strength(c: Card, jokers: bool) -> u64 {
    match c {
        Card::Joker => 0,
        Card::Two => 1,
        Card::Three => 2,
        Card::Four => 3,
        Card::Five => 4,
        Card::Six => 5,
        Card::Seven => 6,
        Card::Eight => 7,
        Card::Nine => 8,
        Card::T => 9,
        Card::J => if jokers {
            0
        } else {
            10
        },
        Card::Q => 11,
        Card::K => 12,
        Card::A => 13,
    }
}

fn card_strength(c: Card, jokers: bool) -> (r: u64)
    ensures
        r == strength(c, jokers),
{
    match c {
        Card::Joker => 0,
        Card::Two => 1,
        Card::Three => 2,
        Card::Four => 3,
        Card::Five => 4,
        Card::Six => 5,
        Card::Seven => 6,
        Card::Eight => 7,
        Card::Nine => 8,
        Card::T => 9,
        Card::J => if jokers {
            0
        } else {
            10
        },
        Card::Q => 11,
        Card::K => 12,
        Card::A => 13,
    }
}

/// Index of the counter of `J` among the 13 label counters.
pub const J_INDEX: usize = 12;

/// A hand: its five cards, how many of each label it holds (`A`, `K`, `Q`,
/// `T`, `9` down to `2`, then `J`), and its bid.
pub struct Hand {
    pub cards: Vec<Card>,
    pub card_counters: Vec<usize>,
    pub bid: u32,
}

/// A hand as plain values.
pub struct HandView {
    pub cards: Seq<Card>,
    pub counters: Seq<usize>,
    pub bid: u32,
}

impl View for Hand {
    type V = HandView;

    open spec fn view(&self) -> HandView {
        HandView { cards: self.cards@, counters: self.card_counters@, bid: self.bid }
    }
}

/// A hand holds five cards and thirteen counters.
pub open spec fn hand_wf(h: HandView) -> bool {
    h.cards.len() == 5 && h.counters.len() == 13
}

/// How many of the first `n` counters are not zero.
pub open spec fn nonzero(s: Seq<usize>, n: int) -> nat
    decreases n,
{
    if n <= 0 {
        0
    } else {
        nonzero(s, n - 1) + if s[n - 1] != 0 {
            1nat
        } else {
            0
        }
    }
}

/// The largest of the first `n` counters (0 for none).
pub open spec fn largest(s: Seq<usize>, n: int) -> nat
    decreases n,
{
    if n <= 0 {
        0
    } else if s[n - 1] > largest(s, n - 1) {
        s[n - 1] as nat
    } else {
        largest(s, n - 1)
    }
}

/// How many labels a hand holds, and how many cards its commonest label (with
/// jokers: its commonest other label, plus the jokers).
pub open spec fn stats(h: HandView, jokers: bool) -> (nat, nat) {
    if jokers {
        (nonzero(h.counters, 12), (h.counters[12] + largest(h.counters, 12)) as nat)
    } else {
        (nonzero(h.counters, 13), largest(h.counters, 13))
    }
}

/// The rank of a hand type from its statistics: five of a kind 6, four of a
/// kind 5, full house 4, three of a kind 3, two pair 2, one pair 1, high card
/// 0.
pub open spec fn type_rank(n: nat, m: nat) -> u64 {
    if n <= 1 {
        6
    } else if n == 2 && m == 4 {
        5
    } else if n == 2 && m == 3 {
        4
    } else if n == 3 && m == 3 {
        3
    } else if n == 3 && m == 2 {
        2
    } else if n == 4 {
        1
    } else {
        0
    }
}

/// What hands are ordered by: the type, then the strengths of the five cards
/// in order.
pub open spec fn key(h: HandView, jokers: bool) -> Seq<u64> {
    let st = stats(h, jokers);
    seq![type_rank(st.0, st.1)] + h.cards.map_values(|c: Card| strength(c, jokers))
}

/// Lexicographic order on keys, from position `i` on.
pub open spec fn lex_less(a: Seq<u64>, b: Seq<u64>, i: int) -> bool
    decreases a.len() - i,
{
    if i < 0 || i >= a.len() || i >= b.len() {
        false
    } else if a[i] < b[i] {
        true
    } else if a[i] > b[i] {
        false
    } else {
        lex_less(a, b, i + 1)
    }
}

/// Whether hand `j` ranks below hand `i`: a weaker key, or an equal key and
/// an earlier place in the list.
pub open spec fn ranks_below(hs: Seq<HandView>, j: int, i: int, jokers: bool) -> bool {
    lex_less(key(hs[j], jokers), key(hs[i], jokers), 0) || (key(hs[j], jokers) == key(hs[i], jokers) && j < i)
}

/// How many of the first `n` hands rank below hand `i`.
pub open spec fn below_count(hs: Seq<HandView>, i: int, n: int, jokers: bool) -> nat
    decreases n,
{
    if n <= 0 {
        0
    } else {
        below_count(hs, i, n - 1, jokers) + if ranks_below(hs, n - 1, i, jokers) {
            1nat
        } else {
            0
        }
    }
}

/// Bid times rank (1 for the weakest hand) summed over the first `n` hands.
pub open spec fn total_winnings(hs: Seq<HandView>, n: int, jokers: bool) -> nat
    decreases n,
{
    if n <= 0 {
        0
    } else {
        (total_winnings(hs, n - 1, jokers) + hs[n - 1].bid * (below_count(hs, n - 1, hs.len() as int, jokers) + 1)) as nat
    }
}

/// The hands of a puzzle, as plain values.
pub open spec fn hands_view(hs: Seq<Hand>) -> Seq<HandView> {
    hs.map_values(|h: Hand| h@)
}

fn hand_key(h: &Hand, jokers: bool) -> (r: Vec<u64>)
    requires
        hand_wf(h@),
    ensures
        r@ == key(h@, jokers),
{
    let end: usize = if jokers {
        J_INDEX
    } else {
        13
    };
    let mut n: usize = 0;
    let mut m: usize = 0;
    let mut k: usize = 0;
    while k < end
        invariant
            h.card_counters@.len() == 13,
            end <= 13,
            k <= end,
            n == nonzero(h.card_counters@, k as int),
            m == largest(h.card_counters@, k as int),
            n <= k,
        decreases end - k,
    {
        let c = h.card_counters[k];
        if c != 0 {
            n = n + 1;
        }
        if c > m {
            m = c;
        }
        k = k + 1;
    }
    let stat_max: u128 = if jokers {
        (h.card_counters[J_INDEX] as u128) + (m as u128)
    } else {
        m as u128
    };
    let t: u64 = if n <= 1 {
        6
    } else if n == 2 && stat_max == 4 {
        5
    } else if n == 2 && stat_max == 3 {
        4
    } else if n == 3 && stat_max == 3 {
        3
    } else if n == 3 && stat_max == 2 {
        2
    } else if n == 4 {
        1
    } else {
        0
    };
    let mut r: Vec<u64> = Vec::new();
    r.push(t);
    let mut i: usize = 0;
    while i < 5
        invariant
            h.cards@.len() == 5,
            i <= 5,
            r@ == seq![t] + h.cards@.take(i as int).map_values(|c: Card| strength(c, jokers)),
        decreases 5 - i,
    {
        r.push(card_strength(h.cards[i], jokers));
        i = i + 1;
        assert(r@ =~= seq![t] + h.cards@.take(i as int).map_values(|c: Card| strength(c, jokers)));
    }
    assert(h.cards@.take(5) =~= h.cards@);
    r
}

fn key_less(a: &Vec<u64>, b: &Vec<u64>) -> (r: bool)
    ensures
        r == lex_less(a@, b@, 0),
{
    let mut i: usize = 0;
    while i < a.len() && i < b.len()
        invariant
            i <= a@.len(),
            lex_less(a@, b@, 0) == lex_less(a@, b@, i as int),
            forall|k: int| 0 <= k < i ==> a@[k] == b@[k],
        decreases a@.len() - i,
    {
        if a[i] < b[i] {
            return true;
        }
        if a[i] > b[i] {
            return false;
        }
        i = i + 1;
    }
    false
}

fn same_key(a: &Vec<u64>, b: &Vec<u64>) -> (r: bool)
    ensures
        r == (a@ == b@),
{
    if a.len() != b.len() {
        return false;
    }
    let mut i: usize = 0;
    while i < a.len()
        invariant
            a@.len() == b@.len(),
            i <= a@.len(),
            forall|k: int| 0 <= k < i ==> a@[k] == b@[k],
        decreases a@.len() - i,
    {
        if a[i] != b[i] {
            return false;
        }
        i = i + 1;
    }
    assert(a@ =~= b@);
    true
}

/// Why a list of hands could not be read.
#[derive(Debug)]
pub enum ParseError {
    /// A line has no space between cards and bid.
    MissingSeparator,
    /// A bid is not a number that fits in `u32`.
    BadBid,
    /// A card label other than `A K Q J T 9 8 7 6 5 4 3 2`.
    UnknownCard,
}

/// The card and the counter index of label byte `b`.
pub open spec fn label(b: u8) -> Option<(usize, Card)> {
    if b == 65 {
        Some((0usize, Card::A))
    } else if b == 75 {
        Some((1usize, Card::K))
    } else if b == 81 {
        Some((2usize, Card::Q))
    } else if b == 84 {
        Some((3usize, Card::T))
    } else if b == 57 {
        Some((4usize, Card::Nine))
    } else if b == 56 {
        Some((5usize, Card::Eight))
    } else if b == 55 {
        Some((6usize, Card::Seven))
    } else if b == 54 {
        Some((7usize, Card::Six))
    } else if b == 53 {
        Some((8usize, Card::Five))
    } else if b == 52 {
        Some((9usize, Card::Four))
    } else if b == 51 {
        Some((10usize, Card::Three))
    } else if b == 50 {
        Some((11usize, Card::Two))
    } else if b == 74 {
        Some((12usize, Card::J))
    } else {
        None
    }
}

fn label_exec(b: u8) -> (r: Option<(usize, Card)>)
    ensures
        r == label(b),
{
    if b == 65 {
        Some((0, Card::A))
    } else if b == 75 {
        Some((1, Card::K))
    } else if b == 81 {
        Some((2, Card::Q))
    } else if b == 84 {
        Some((3, Card::T))
    } else if b == 57 {
        Some((4, Card::Nine))
    } else if b == 56 {
        Some((5, Card::Eight))
    } else if b == 55 {
        Some((6, Card::Seven))
    } else if b == 54 {
        Some((7, Card::Six))
    } else if b == 53 {
        Some((8, Card::Five))
    } else if b == 52 {
        Some((9, Card::Four))
    } else if b == 51 {
        Some((10, Card::Three))
    } else if b == 50 {
        Some((11, Card::Two))
    } else if b == 74 {
        Some((12, Card::J))
    } else {
        None
    }
}

/// The cards and counters after reading the first `n` labels of `s`
/// (positions past the labels keep an `A` and count nothing); `None` on an
/// unknown label.
pub open spec fn read_cards(s: Seq<u8>, n: int) -> Option<(Seq<Card>, Seq<usize>)>
    decreases n,
{
    if n <= 0 {
        Some((Seq::new(5, |i: int| Card::A), Seq::new(13, |i: int| 0usize)))
    } else {
        match read_cards(s, n - 1) {
            None => None,
            Some(st) => match label(s[n - 1]) {
                None => None,
                Some((i, c)) => Some((st.0.update(n - 1, c), st.1.update(i as int, (st.1[i as int] + 1) as usize))),
            },
        }
    }
}

/// The hand written on `line`: up to five labels, a space, the bid. Labels
/// past the fifth are ignored.
pub open spec fn parse_hand(line: Seq<u8>) -> Result<HandView, ParseError> {
    match find_byte_from(line, 32, 0) {
        None => Err(ParseError::MissingSeparator),
        Some(sp) => match parse_number(line.skip(sp + 1)) {
            Some(bid) => if bid > u32::MAX {
                Err(ParseError::BadBid)
            } else {
                let n = if sp < 5 {
                    sp
                } else {
                    5
                };
                match read_cards(line.take(sp), n) {
                    None => Err(ParseError::UnknownCard),
                    Some(st) => Ok(HandView { cards: st.0, counters: st.1, bid: bid as u32 }),
                }
            },
            None => Err(ParseError::BadBid),
        },
    }
}

/// The hands written on the lines `ls`, or the first line's failure.
pub open spec fn parse_hands(ls: Seq<Seq<u8>>) -> Result<Seq<HandView>, ParseError>
    decreases ls.len(),
{
    if ls.len() == 0 {
        Ok(seq![])
    } else {
        match parse_hands(ls.drop_last()) {
            Err(e) => Err(e),
            Ok(hs) => match parse_hand(ls.last()) {
                Err(e) => Err(e),
                Ok(h) => Ok(hs.push(h)),
            },
        }
    }
}

/// Once a prefix of the lines fails, all the lines fail the same way.
proof fn lemma_parse_hands_prefix(ls: Seq<Seq<u8>>, i: int, e: ParseError)
    requires
        0 <= i <= ls.len(),
        parse_hands(ls.take(i)) == Err::<Seq<HandView>, ParseError>(e),
    ensures
        parse_hands(ls) == Err::<Seq<HandView>, ParseError>(e),
    decreases ls.len() - i,
{
    if i < ls.len() {
        assert(ls.take(i + 1).drop_last() =~= ls.take(i));
        lemma_parse_hands_prefix(ls, i + 1, e);
    } else {
        assert(ls.take(i) =~= ls);
    }
}

/// Once a label fails, the whole hand fails.
proof fn lemma_read_cards_none(s: Seq<u8>, k: int, n: int)
    requires
        0 <= k <= n,
        read_cards(s, k) is None,
    ensures
        read_cards(s, n) is None,
    decreases n - k,
{
    if k < n {
        lemma_read_cards_none(s, k, n - 1);
    }
}

/// Counters never exceed the number of labels read.
proof fn lemma_read_cards_counts(s: Seq<u8>, n: int)
    requires
        0 <= n <= 5,
    ensures
        read_cards(s, n) matches Some(st) ==> st.0.len() == 5 && st.1.len() == 13 && forall|i: int| 0 <= i < 13 ==> #[trigger] st.1[i] <= n,
    decreases n,
{
    if n > 0 {
        lemma_read_cards_counts(s, n - 1);
    }
}

fn parse_hand_exec(line: &[u8]) -> (r: Result<Hand, ParseError>)
    ensures
        match r {
            Ok(h) => parse_hand(line@) == Ok::<HandView, ParseError>(h@),
            Err(e) => parse_hand(line@) == Err::<HandView, ParseError>(e),
        },
{
    let sp = match find_byte(line, 32) {
        None => {
            return Err(ParseError::MissingSeparator);
        },
        Some(sp) => sp,
    };
    proof {
        crate::text::lemma_find_byte(line@, 32, 0);
    }
    let ln: usize = line.len();
    let bid_text = slice_to_vec(line, sp + 1, ln);
    assert(bid_text@ =~= line@.skip(sp + 1));
    let bid = match parse_u64(bid_text.as_slice()) {
        None => {
            return Err(ParseError::BadBid);
        },
        Some(b) => b,
    };
    if bid > 4294967295 {
        return Err(ParseError::BadBid);
    }
    let n: usize = if sp < 5 {
        sp
    } else {
        5
    };
    let ghost head = line@.take(sp as int);
    let mut cards: Vec<Card> = vec![Card::A, Card::A, Card::A, Card::A, Card::A];
    let mut counters: Vec<usize> = vec![0, 0, 0, 0, 0, 0, 0, 0, 0, 0, 0, 0, 0];
    assert(cards@ =~= Seq::new(5, |i: int| Card::A));
    assert(counters@ =~= Seq::new(13, |i: int| 0usize));
    let mut k: usize = 0;
    while k < n
        invariant
            n <= 5,
            n <= sp,
            sp < line@.len(),
            head == line@.take(sp as int),
            find_byte_from(line@, 32, 0) == Some(sp as int),
            parse_number(line@.skip(sp + 1)) == Some(bid),
            bid <= u32::MAX,
            n == (if sp < 5 { sp } else { 5 }),
            k <= n,
            read_cards(head, k as int) == Some((cards@, counters@)),
        decreases n - k,
    {
        proof {
            lemma_read_cards_counts(head, k as int);
        }
        match label_exec(line[k]) {
            None => {
                proof {
                    lemma_read_cards_none(head, k as int + 1, n as int);
                }
                return Err(ParseError::UnknownCard);
            },
            Some((i, c)) => {
                cards.set(k, c);
                let v = counters[i];
                counters.set(i, v + 1);
            },
        }
        k = k + 1;
    }
    Ok(Hand { cards, card_counters: counters, bid: bid as u32 })
}

/// The hands of the puzzle.
pub struct Day {
    pub hands: Vec<Hand>,
}

impl Day {
    /// Every hand holds five cards and thirteen counters.
    pub open spec fn wf(&self) -> bool {
        forall|i: int| 0 <= i < self.hands@.len() ==> hand_wf(#[trigger] self.hands@[i]@)
    }

    /// Reads one hand per line: five labels, a space, the bid.
    pub fn parse(input: &str) -> (r: Result<Day, ParseError>)
        ensures
            match r {
                Ok(d) => parse_hands(lines(input.spec_bytes())) == Ok::<Seq<HandView>, ParseError>(
                    hands_view(d.hands@),
                ),
                Err(e) => parse_hands(lines(input.spec_bytes())) == Err::<Seq<HandView>, ParseError>(e),
            },
            r matches Ok(d) ==> d.wf(),
    {
        let ls = split_lines(input.as_bytes());
        let ghost lv = bytes_view(ls@);
        let mut hands: Vec<Hand> = Vec::new();
        let mut i: usize = 0;
        assert(lv.take(0) =~= Seq::<Seq<u8>>::empty());
        assert(hands_view(hands@) =~= Seq::<HandView>::empty());
        while i < ls.len()
            invariant
                lv == bytes_view(ls@),
                lv == lines(input.spec_bytes()),
                i <= ls@.len(),
                parse_hands(lv.take(i as int)) == Ok::<Seq<HandView>, ParseError>(hands_view(hands@)),
                forall|k: int| 0 <= k < hands@.len() ==> hand_wf(#[trigger] hands@[k]@),
            decreases ls@.len() - i,
        {
            assert(lv.take(i + 1).drop_last() =~= lv.take(i as int));
            assert(lv.take(i + 1).last() == ls@[i as int]@);
            match parse_hand_exec(ls[i].as_slice()) {
                Err(e) => {
                    proof {
                        lemma_parse_hands_prefix(lv, i + 1, e);
                    }
                    return Err(e);
                },
                Ok(h) => {
                    proof {
                        let l = lv[i as int];
                        let sp = find_byte_from(l, 32, 0).unwrap();
                        crate::text::lemma_find_byte(l, 32, 0);
                        lemma_read_cards_counts(l.take(sp), if sp < 5 { sp } else { 5 });
                    }
                    let ghost before = hands_view(hands@);
                    hands.push(h);
                    assert(hands_view(hands@) =~= before.push(h@));
                    assert forall|k: int| 0 <= k < hands@.len() implies hand_wf(#[trigger] hands@[k]@) by {
                        if k < hands@.len() - 1 {
                            assert(hands_view(hands@)[k] == before[k]);
                        }
                    }
                },
            }
            i = i + 1;
        }
        assert(lv.take(i as int) =~= lv);
        Ok(Day { hands })
    }

    /// Sum of bid times rank over the hands, ranked by type then card by card;
    /// with `jokers`, `J` is a joker. Equal hands rank in list order.
    pub fn winnings(&self, jokers: bool) -> (r: Option<u32>)
        requires
            self.wf(),
        ensures
            r == (if total_winnings(hands_view(self.hands@), self.hands@.len() as int, jokers) <= u32::MAX {
                Some(total_winnings(hands_view(self.hands@), self.hands@.len() as int, jokers) as u32)
            } else {
                None
            }),
    {
        let ghost hs = hands_view(self.hands@);
        let n = self.hands.len();
        let mut keys: Vec<Vec<u64>> = Vec::new();
        let mut i: usize = 0;
        while i < n
            invariant
                n == self.hands@.len(),
                hs == hands_view(self.hands@),
                self.wf(),
                i <= n,
                keys@.len() == i,
                forall|k: int| 0 <= k < i ==> (#[trigger] keys@[k])@ == key(hs[k], jokers),
            decreases n - i,
        {
            assert(hs[i as int] == self.hands@[i as int]@);
            keys.push(hand_key(&self.hands[i], jokers));
            i = i + 1;
        }
        let mut sum: u64 = 0;
        let mut i: usize = 0;
        while i < n
            invariant
                n == self.hands@.len(),
                hs == hands_view(self.hands@),
                hs.len() == n,
                keys@.len() == n,
                forall|k: int| 0 <= k < n ==> (#[trigger] keys@[k])@ == key(hs[k], jokers),
                i <= n,
                sum == total_winnings(hs, i as int, jokers),
                sum <= u32::MAX,
            decreases n - i,
        {
            let mut rank: u64 = 0;
            let mut j: usize = 0;
            while j < n
                invariant
                    n == self.hands@.len(),
                    hs.len() == n,
                    keys@.len() == n,
                    forall|k: int| 0 <= k < n ==> (#[trigger] keys@[k])@ == key(hs[k], jokers),
                    i < n,
                    j <= n,
                    rank == below_count(hs, i as int, j as int, jokers),
                    rank <= j,
                decreases n - j,
            {
                let below = key_less(&keys[j], &keys[i]) || (same_key(&keys[j], &keys[i]) && j < i);
                if below {
                    rank = rank + 1;
                }
                j = j + 1;
            }
            proof {
                lemma_total_winnings_grow(hs, i as int + 1, n as int, jokers);
                assert(hs[i as int].bid == self.hands@[i as int].bid);
            }
            let bid = self.hands[i].bid as u64;
            proof {
                assert((bid as int) * (rank as int + 1) <= 0xFFFF_FFFF * 0x1_0000_0000_0000_0000) by (nonlinear_arith)
                    requires
                        bid <= 0xFFFF_FFFFu64,
                        rank <= 0xFFFF_FFFF_FFFF_FFFFu64,
                ;
            }
            let gain = (bid as u128) * ((rank as u128) + 1);
            if gain > (4294967295u64 - sum) as u128 {
                return None;
            }
            sum = sum + (gain as u64);
            i = i + 1;
        }
        Some(sum as u32)
    }

    /// Total winnings with `J` as a jack.
    pub fn solve_problem_1(&self) -> (r: Option<u32>)
        requires
            self.wf(),
        ensures
            r == (if total_winnings(hands_view(self.hands@), self.hands@.len() as int, false) <= u32::MAX {
                Some(total_winnings(hands_view(self.hands@), self.hands@.len() as int, false) as u32)
            } else {
                None
            }),
    {
        self.winnings(false)
    }

    /// Total winnings with `J` as a joker.
    pub fn solve_problem_2(&self) -> (r: Option<u32>)
        requires
            self.wf(),
        ensures
            r == (if total_winnings(hands_view(self.hands@), self.hands@.len() as int, true) <= u32::MAX {
                Some(total_winnings(hands_view(self.hands@), self.hands@.len() as int, true) as u32)
            } else {
                None
            }),
    {
        self.winnings(true)
    }
}

/// Winnings over fewer hands are at most those over more.
proof fn lemma_total_winnings_grow(hs: Seq<HandView>, i: int, n: int, jokers: bool)
    requires
        0 <= i <= n,
    ensures
        total_winnings(hs, i, jokers) <= total_winnings(hs, n, jokers),
    decreases n - i,
{
    if i < n {
        lemma_total_winnings_grow(hs, i, n - 1, jokers);
    }
}

} // verus!
