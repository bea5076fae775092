//! Boat races: holding the button for `t` of a race's `T` milliseconds moves
//! the boat `(T - t) * t` millimetres; a move wins when it beats the record
//! distance.
use crate::text::{bytes_view, find_byte, find_byte_from, lines, parse_number, parse_u64, slice_to_vec, split_lines, split_words, words};
use vstd::prelude::*;
use vstd::string::StringSliceAdditionalSpecFns;

verus! {

/// One race: its duration and its record distance.
#[derive(PartialEq, Eq, Structural, Clone, Copy)]
pub struct Race {
    pub time: u64,
    pub distance: u64,
}

/// Whether holding the button for `t` beats the record.
pub open spec fn beats(r: Race, t: int) -> bool {
    (r.time - t) * t > r.distance
}

/// How many of the holding times `0 .. n` beat the record.
pub open spec fn count_beating(r: Race, n: int) -> nat
    decreases n,
{
    if n <= 0 {
        0
    } else {
        count_beating(r, n - 1) + if beats(r, n - 1) {
            1nat
        } else {
            0
        }
    }
}

/// How many holding times, from 0 to the whole race, beat the record.
pub open spec fn winning_moves(r: Race) -> nat {
    count_beating(r, r.time + 1)
}

/// The distance reached grows with the holding time up to half the race.
proof fn lemma_reach_grows(time: int, t: int, u: int)
    requires
        0 <= t <= u,
        2 * u <= time,
    ensures
        (time - t) * t <= (time - u) * u,
{
    assert((time - u) * u - (time - t) * t == (u - t) * (time - u - t)) by (nonlinear_arith);
    assert((u - t) * (time - u - t) >= 0) by (nonlinear_arith)
        requires
            u - t >= 0,
            time - u - t >= 0,
    ;
}

/// Between `t0` and `time - t0`, the distance is at least the one at `t0`.
proof fn lemma_reach_between(time: int, t0: int, t: int)
    requires
        0 <= t0 <= t <= time - t0,
    ensures
        (time - t) * t >= (time - t0) * t0,
{
    assert((time - t) * t - (time - t0) * t0 == (t - t0) * (time - t - t0)) by (nonlinear_arith);
    assert((t - t0) * (time - t - t0) >= 0) by (nonlinear_arith)
        requires
            t - t0 >= 0,
            time - t - t0 >= 0,
    ;
}

/// Holding for `t` and for `time - t` goes equally far.
proof fn lemma_reach_symmetric(time: int, t: int)
    ensures
        (time - (time - t)) * (time - t) == (time - t) * t,
{
    assert((time - (time - t)) * (time - t) == (time - t) * t) by (nonlinear_arith);
}

/// When exactly the holding times from `a` to `b` win, counting up to `n`
/// finds those of them below `n`.
proof fn lemma_count_window(r: Race, a: int, b: int, n: int)
    requires
        0 <= a <= b + 1,
        0 <= n,
        forall|t: int| 0 <= t < n ==> (beats(r, t) <==> a <= t <= b),
    ensures
        count_beating(r, n) == (if n <= a {
            0
        } else if n <= b + 1 {
            n - a
        } else {
            b + 1 - a
        }),
    decreases n,
{
    if n > 0 {
        lemma_count_window(r, a, b, n - 1);
    }
}

/// The distance reached holding for `t`, which fits in `u128`.
fn reach(time: u64, t: u64) -> (d: u128)
    requires
        t <= time,
    ensures
        d == (time - t) * t,
{
    proof {
        assert(((time - t) as int) * (t as int) <= 0xFFFF_FFFF_FFFF_FFFF * 0xFFFF_FFFF_FFFF_FFFF) by (nonlinear_arith)
            requires
                t <= time,
                time <= 0xFFFF_FFFF_FFFF_FFFFu64,
        ;
    }
    ((time - t) as u128) * (t as u128)
}

impl Race {
    /// How many holding times beat the record, if that fits in `u32`.
    pub fn num_possible_winning_moves(&self) -> (r: Option<u32>)
        ensures
            r == (if winning_moves(*self) <= u32::MAX {
                Some(winning_moves(*self) as u32)
            } else {
                None
            }),
    {
        let time = self.time;
        let dist = self.distance as u128;
        let half = time / 2;
        if reach(time, half) <= dist {
            // Even the best holding time, half the race, does not win.
            proof {
                assert forall|t: int| 0 <= t < time + 1 implies (beats(*self, t) <==> 1 <= t <= 0) by {
                    if t <= half {
                        lemma_reach_grows(time as int, t, half as int);
                    } else {
                        lemma_reach_symmetric(time as int, t);
                        lemma_reach_grows(time as int, time - t, half as int);
                    }
                }
                lemma_count_window(*self, 1, 0, time + 1);
            }
            return Some(0);
        }
        let mut lo: u64 = 0;
        let mut hi: u64 = half;
        while lo < hi
            invariant
                time == self.time,
                dist == self.distance,
                half == time / 2,
                lo <= hi <= half,
                beats(*self, hi as int),
                forall|t: int| 0 <= t < lo ==> !beats(*self, t),
            decreases hi - lo,
        {
            let mid = lo + (hi - lo) / 2;
            if reach(time, mid) > dist {
                hi = mid;
            } else {
                proof {
                    assert forall|t: int| 0 <= t < mid + 1 implies !beats(*self, t) by {
                        lemma_reach_grows(time as int, t, mid as int);
                    }
                }
                lo = mid + 1;
            }
        }
        let first = lo;
        proof {
            assert(first >= 1) by {
                assert(((time - 0) as int) * 0 == 0) by (nonlinear_arith);
            }
            assert forall|t: int| 0 <= t < time + 1 implies (beats(*self, t) <==> first <= t <= time - first) by {
                if first <= t <= time - first {
                    lemma_reach_between(time as int, first as int, t);
                } else if t > time - first {
                    lemma_reach_symmetric(time as int, t);
                    assert(!beats(*self, time - t));
                }
            }
            lemma_count_window(*self, first as int, time - first, time + 1);
        }
        let count: u64 = time - 2 * first + 1;
        if count > 4294967295 {
            None
        } else {
            Some(count as u32)
        }
    }
}

/// Why race sheets could not be read.
#[derive(Debug)]
pub enum ParseError {
    /// Fewer than two lines.
    MissingLine,
    /// A line has no `:`.
    MissingColon,
    /// A word is not a number that fits in `u64`.
    BadNumber,
}

/// The numbers written by the words `ws`, if each is a number.
pub open spec fn parse_numbers(ws: Seq<Seq<u8>>) -> Option<Seq<u64>>
    decreases ws.len(),
{
    if ws.len() == 0 {
        Some(seq![])
    } else {
        match (parse_numbers(ws.drop_last()), parse_number(ws.last())) {
            (Some(ns), Some(n)) => Some(ns.push(n)),
            _ => None,
        }
    }
}

/// The words `ws` written one after the other.
pub open spec fn joined(ws: Seq<Seq<u8>>) -> Seq<u8>
    decreases ws.len(),
{
    if ws.len() == 0 {
        seq![]
    } else {
        joined(ws.drop_last()) + ws.last()
    }
}

/// What follows the first `:` of a line.
pub open spec fn after_colon(line: Seq<u8>) -> Option<Seq<u8>> {
    match find_byte_from(line, 58, 0) {
        None => None,
        Some(c) => Some(line.skip(c + 1)),
    }
}

/// The races as plain values: the single races, paired by position, and the
/// one race that the digits of each line make when read together.
pub struct DayView {
    pub races: Seq<Race>,
    pub combined_race: Race,
}

/// What the race sheet `input` describes: a line of times and a line of
/// record distances, each after a label and a `:`.
pub open spec fn parse_sheet(input: Seq<u8>) -> Result<DayView, ParseError> {
    let ls = lines(input);
    if ls.len() < 2 {
        Err(ParseError::MissingLine)
    } else {
        match (after_colon(ls[0]), after_colon(ls[1])) {
            (Some(ts), Some(ds)) => match (
                parse_number(joined(words(ts))),
                parse_number(joined(words(ds))),
                parse_numbers(words(ts)),
                parse_numbers(words(ds)),
            ) {
                (Some(ct), Some(cd), Some(times), Some(dists)) => {
                    let n = if times.len() < dists.len() {
                        times.len()
                    } else {
                        dists.len()
                    };
                    Ok(
                        DayView {
                            races: Seq::new(n, |i: int| Race { time: times[i], distance: dists[i] }),
                            combined_race: Race { time: ct, distance: cd },
                        },
                    )
                },
                _ => Err(ParseError::BadNumber),
            },
            _ => Err(ParseError::MissingColon),
        }
    }
}

/// The races of the puzzle.
pub struct Day {
    pub races: Vec<Race>,
    pub combined_race: Race,
}

impl View for Day {
    type V = DayView;

    open spec fn view(&self) -> DayView {
        DayView { races: self.races@, combined_race: self.combined_race }
    }
}

fn after_colon_exec(line: &Vec<u8>) -> (r: Option<Vec<u8>>)
    ensures
        r matches Some(v) ==> after_colon(line@) == Some(v@),
        r is None ==> after_colon(line@) is None,
{
    match find_byte(line.as_slice(), 58) {
        None => None,
        Some(c) => {
            proof {
                crate::text::lemma_find_byte(line@, 58, 0);
            }
            let n: usize = line.len();
            let v = slice_to_vec(line.as_slice(), c + 1, n);
            assert(v@ =~= line@.skip(c + 1));
            Some(v)
        },
    }
}

fn join_words(ws: &Vec<Vec<u8>>) -> (r: Vec<u8>)
    ensures
        r@ == joined(bytes_view(ws@)),
{
    let ghost wv = bytes_view(ws@);
    let mut out: Vec<u8> = Vec::new();
    let mut i: usize = 0;
    assert(wv.take(0) =~= Seq::<Seq<u8>>::empty());
    while i < ws.len()
        invariant
            wv == bytes_view(ws@),
            i <= ws@.len(),
            out@ == joined(wv.take(i as int)),
        decreases ws@.len() - i,
    {
        assert(wv.take(i + 1).drop_last() =~= wv.take(i as int));
        assert(wv.take(i + 1).last() == ws@[i as int]@);
        let ghost before = out@;
        let w = ws[i].as_slice();
        let mut k: usize = 0;
        while k < w.len()
            invariant
                k <= w@.len(),
                out@ == before + w@.take(k as int),
            decreases w@.len() - k,
        {
            out.push(w[k]);
            k = k + 1;
            assert(out@ =~= before + w@.take(k as int));
        }
        assert(w@.take(k as int) =~= w@);
        i = i + 1;
    }
    assert(wv.take(i as int) =~= wv);
    out
}

fn parse_list(ws: &Vec<Vec<u8>>) -> (r: Option<Vec<u64>>)
    ensures
        r matches Some(v) ==> parse_numbers(bytes_view(ws@)) == Some(v@),
        r is None ==> parse_numbers(bytes_view(ws@)) is None,
{
    let ghost wv = bytes_view(ws@);
    let mut out: Vec<u64> = Vec::new();
    let mut i: usize = 0;
    assert(wv.take(0) =~= Seq::<Seq<u8>>::empty());
    while i < ws.len()
        invariant
            wv == bytes_view(ws@),
            i <= ws@.len(),
            parse_numbers(wv.take(i as int)) == Some(out@),
        decreases ws@.len() - i,
    {
        assert(wv.take(i + 1).drop_last() =~= wv.take(i as int));
        assert(wv.take(i + 1).last() == ws@[i as int]@);
        match parse_u64(ws[i].as_slice()) {
            None => {
                proof {
                    lemma_parse_numbers_prefix(wv, i as int + 1);
                }
                return None;
            },
            Some(n) => {
                out.push(n);
            },
        }
        i = i + 1;
    }
    assert(wv.take(i as int) =~= wv);
    Some(out)
}

/// Once a prefix of the words fails to parse, so do all the words.
proof fn lemma_parse_numbers_prefix(ws: Seq<Seq<u8>>, i: int)
    requires
        0 <= i <= ws.len(),
        parse_numbers(ws.take(i)) is None,
    ensures
        parse_numbers(ws) is None,
    decreases ws.len() - i,
{
    if i < ws.len() {
        assert(ws.take(i + 1).drop_last() =~= ws.take(i));
        lemma_parse_numbers_prefix(ws, i + 1);
    } else {
        assert(ws.take(i) =~= ws);
    }
}

/// Product of the winning-move counts of the races.
pub open spec fn product_of_moves(rs: Seq<Race>) -> nat
    decreases rs.len(),
{
    if rs.len() == 0 {
        1
    } else {
        product_of_moves(rs.drop_last()) * winning_moves(rs.last())
    }
}

impl Day {
    /// Reads the race sheet: a line of times and a line of record distances.
    pub fn parse(input: &str) -> (r: Result<Day, ParseError>)
        ensures
            match r {
                Ok(d) => parse_sheet(input.spec_bytes()) == Ok::<DayView, ParseError>(d@),
                Err(e) => parse_sheet(input.spec_bytes()) == Err::<DayView, ParseError>(e),
            },
    {
        let ls = split_lines(input.as_bytes());
        if ls.len() < 2 {
            return Err(ParseError::MissingLine);
        }
        let ts = after_colon_exec(&ls[0]);
        let ds = after_colon_exec(&ls[1]);
        let (ts, ds) = match (ts, ds) {
            (Some(ts), Some(ds)) => (ts, ds),
            _ => {
                return Err(ParseError::MissingColon);
            },
        };
        let tw = split_words(ts.as_slice());
        let dw = split_words(ds.as_slice());
        let ct = parse_u64(join_words(&tw).as_slice());
        let cd = parse_u64(join_words(&dw).as_slice());
        let times = parse_list(&tw);
        let dists = parse_list(&dw);
        match (ct, cd, times, dists) {
            (Some(ct), Some(cd), Some(times), Some(dists)) => {
                let n = if times.len() < dists.len() {
                    times.len()
                } else {
                    dists.len()
                };
                let mut races: Vec<Race> = Vec::new();
                let mut i: usize = 0;
                while i < n
                    invariant
                        n <= times@.len(),
                        n <= dists@.len(),
                        i <= n,
                        races@ == Seq::new(i as nat, |k: int| Race { time: times@[k], distance: dists@[k] }),
                    decreases n - i,
                {
                    races.push(Race { time: times[i], distance: dists[i] });
                    i = i + 1;
                    assert(races@ =~= Seq::new(i as nat, |k: int| Race { time: times@[k], distance: dists@[k] }));
                }
                let d = Day { races, combined_race: Race { time: ct, distance: cd } };
                assert(d@.races =~= Seq::new(n as nat, |k: int| Race { time: times@[k], distance: dists@[k] }));
                Ok(d)
            },
            _ => Err(ParseError::BadNumber),
        }
    }

    /// Product of the numbers of winning moves of the single races; `None`
    /// when a count or a partial product does not fit in `u32`.
    pub fn solve_problem_1(&self) -> (r: Option<u32>)
        ensures
            r == (if products_fit(self.races@) {
                Some(product_of_moves(self.races@) as u32)
            } else {
                None
            }),
    {
        let mut prod: u32 = 1;
        let mut i: usize = 0;
        assert(self.races@.take(0) =~= Seq::<Race>::empty());
        while i < self.races.len()
            invariant
                i <= self.races@.len(),
                products_fit(self.races@.take(i as int)),
                prod == product_of_moves(self.races@.take(i as int)),
            decreases self.races@.len() - i,
        {
            assert(self.races@.take(i + 1).drop_last() =~= self.races@.take(i as int));
            let m = match self.races[i].num_possible_winning_moves() {
                None => {
                    proof {
                        lemma_products_fit_prefix(self.races@, i + 1);
                    }
                    return None;
                },
                Some(m) => m,
            };
            if m != 0 && prod > u32::MAX / m {
                proof {
                    assert((prod as int) * (m as int) > u32::MAX) by (nonlinear_arith)
                        requires
                            m > 0,
                            prod > u32::MAX / m,
                    ;
                    lemma_products_fit_prefix(self.races@, i + 1);
                }
                return None;
            }
            proof {
                assert((prod as int) * (m as int) <= u32::MAX) by (nonlinear_arith)
                    requires
                        m == 0 || prod <= u32::MAX / m,
                ;
            }
            prod = prod * m;
            i = i + 1;
        }
        assert(self.races@.take(i as int) =~= self.races@);
        Some(prod)
    }

    /// Number of winning moves of the one long race, if it fits in `u32`.
    pub fn solve_problem_2(&self) -> (r: Option<u32>)
        ensures
            r == (if winning_moves(self.combined_race) <= u32::MAX {
                Some(winning_moves(self.combined_race) as u32)
            } else {
                None
            }),
    {
        self.combined_race.num_possible_winning_moves()
    }
}

/// Every count, and every partial product of the counts in order, fits in
/// `u32`.
pub open spec fn products_fit(rs: Seq<Race>) -> bool
    decreases rs.len(),
{
    if rs.len() == 0 {
        true
    } else {
        products_fit(rs.drop_last()) && winning_moves(rs.last()) <= u32::MAX && product_of_moves(rs) <= u32::MAX
    }
}

/// Whether the partial products fit is settled by the first failing prefix.
proof fn lemma_products_fit_prefix(rs: Seq<Race>, i: int)
    requires
        0 <= i <= rs.len(),
        !products_fit(rs.take(i)),
    ensures
        !products_fit(rs),
    decreases rs.len() - i,
{
    if i < rs.len() {
        assert(rs.take(i + 1).drop_last() =~= rs.take(i));
        lemma_products_fit_prefix(rs, i + 1);
    } else {
        assert(rs.take(i) =~= rs);
    }
}

} // verus!
