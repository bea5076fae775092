//! Calibration values: each line's value is its first digit followed by its
//! last digit; digits may also be spelled out (`one` to `nine`).
use crate::text::{bytes_view, lines, matches_at, occurs_at, split_lines};
use vstd::prelude::*;
use vstd::string::StringSliceAdditionalSpecFns;

verus! {

/// The spelled-out name of digit `k + 1`, for `k` from 0 to 8.
pub open spec fn digit_word(k: int) -> Seq<u8> {
    if k == 0 {
        seq![111u8, 110, 101]
    } else if k == 1 {
        seq![116u8, 119, 111]
    } else if k == 2 {
        seq![116u8, 104, 114, 101, 101]
    } else if k == 3 {
        seq![102u8, 111, 117, 114]
    } else if k == 4 {
        seq![102u8, 105, 118, 101]
    } else if k == 5 {
        seq![115u8, 105, 120]
    } else if k == 6 {
        seq![115u8, 101, 118, 101, 110]
    } else if k == 7 {
        seq![101u8, 105, 103, 104, 116]
    } else {
        seq![110u8, 105, 110, 101]
    }
}

/// The first of the names `k ..= 8` that occurs in `line` at `i`, as its
/// digit.
pub open spec fn word_starting(line: Seq<u8>, i: int, k: int) -> Option<u8>
    decreases 9 - k,
{
    if k >= 9 || k < 0 {
        None
    } else if occurs_at(line, digit_word(k), i) {
        Some((k + 1) as u8)
    } else {
        word_starting(line, i, k + 1)
    }
}

/// The first of the names `k ..= 8` that ends in `line` just before `i`, as
/// its digit.
pub open spec fn word_ending(line: Seq<u8>, i: int, k: int) -> Option<u8>
    decreases 9 - k,
{
    if k >= 9 || k < 0 {
        None
    } else if occurs_at(line, digit_word(k), i - digit_word(k).len()) {
        Some((k + 1) as u8)
    } else {
        word_ending(line, i, k + 1)
    }
}

/// The digit that `line` shows at `i`: a digit byte, or (when `spelled`) a
/// name starting there.
pub open spec fn digit_at(line: Seq<u8>, i: int, spelled: bool) -> Option<u8> {
    if 48 <= line[i] <= 57 {
        Some((line[i] - 48) as u8)
    } else if spelled {
        word_starting(line, i, 0)
    } else {
        None
    }
}

/// The digit that `line` shows just before `i`: a digit byte at `i - 1`, or
/// (when `spelled`) a name ending there.
pub open spec fn digit_before(line: Seq<u8>, i: int, spelled: bool) -> Option<u8> {
    if 48 <= line[i - 1] <= 57 {
        Some((line[i - 1] - 48) as u8)
    } else if spelled {
        word_ending(line, i, 0)
    } else {
        None
    }
}

/// The first digit of `line` from `i` on, or 0 when there is none.
pub open spec fn first_digit(line: Seq<u8>, i: int, spelled: bool) -> u8
    decreases line.len() - i,
{
    if i < 0 || i >= line.len() {
        0
    } else {
        match digit_at(line, i, spelled) {
            Some(d) => d,
            None => first_digit(line, i + 1, spelled),
        }
    }
}

/// The last digit of `line` ending at or before `i`, or 0 when there is none.
pub open spec fn last_digit(line: Seq<u8>, i: int, spelled: bool) -> u8
    decreases i,
{
    if i <= 0 || i > line.len() {
        0
    } else {
        match digit_before(line, i, spelled) {
            Some(d) => d,
            None => last_digit(line, i - 1, spelled),
        }
    }
}

/// A line's calibration value.
pub open spec fn calibration(line: Seq<u8>, spelled: bool) -> nat {
    (first_digit(line, 0, spelled) * 10 + last_digit(line, line.len() as int, spelled)) as nat
}

/// Sum of the calibration values of the lines.
pub open spec fn calibration_sum(ls: Seq<Seq<u8>>, spelled: bool) -> nat
    decreases ls.len(),
{
    if ls.len() == 0 {
        0
    } else {
        calibration_sum(ls.drop_last(), spelled) + calibration(ls.last(), spelled)
    }
}

/// The nine digit names, in order.
fn digit_words() -> (r: Vec<Vec<u8>>)
    ensures
        r@.len() == 9,
        forall|k: int| 0 <= k < 9 ==> (#[trigger] r@[k])@ == digit_word(k),
{
    let mut r: Vec<Vec<u8>> = Vec::new();
    r.push(vec![111u8, 110, 101]);
    r.push(vec![116u8, 119, 111]);
    r.push(vec![116u8, 104, 114, 101, 101]);
    r.push(vec![102u8, 111, 117, 114]);
    r.push(vec![102u8, 105, 118, 101]);
    r.push(vec![115u8, 105, 120]);
    r.push(vec![115u8, 101, 118, 101, 110]);
    r.push(vec![101u8, 105, 103, 104, 116]);
    r.push(vec![110u8, 105, 110, 101]);
    proof {
        assert forall|k: int| 0 <= k < 9 implies (#[trigger] r@[k])@ == digit_word(k) by {
            if k == 0 { assert(r@[k]@ =~= digit_word(k)); }
            else if k == 1 { assert(r@[k]@ =~= digit_word(k)); }
            else if k == 2 { assert(r@[k]@ =~= digit_word(k)); }
            else if k == 3 { assert(r@[k]@ =~= digit_word(k)); }
            else if k == 4 { assert(r@[k]@ =~= digit_word(k)); }
            else if k == 5 { assert(r@[k]@ =~= digit_word(k)); }
            else if k == 6 { assert(r@[k]@ =~= digit_word(k)); }
            else if k == 7 { assert(r@[k]@ =~= digit_word(k)); }
            else { assert(r@[k]@ =~= digit_word(k)); }
        }
    }
    r
}

/// The digit shown at `i`, or just before `i` when `backward`.
fn digit_here(line: &[u8], words: &Vec<Vec<u8>>, i: usize, spelled: bool, backward: bool) -> (r: Option<u8>)
    requires
        words@.len() == 9,
        forall|k: int| 0 <= k < 9 ==> (#[trigger] words@[k])@ == digit_word(k),
        backward ==> 0 < i <= line@.len(),
        !backward ==> i < line@.len(),
    ensures
        backward ==> r == digit_before(line@, i as int, spelled),
        !backward ==> r == digit_at(line@, i as int, spelled),
{
    let b = if backward {
        line[i - 1]
    } else {
        line[i]
    };
    if 48 <= b && b <= 57 {
        return Some(b - 48);
    }
    if !spelled {
        return None;
    }
    let n: usize = line.len();
    let mut k: usize = 0;
    while k < 9
        invariant
            words@.len() == 9,
            forall|j: int| 0 <= j < 9 ==> (#[trigger] words@[j])@ == digit_word(j),
            backward ==> 0 < i <= line@.len(),
            !backward ==> i < line@.len(),
            n == line@.len(),
            k <= 9,
            b == (if backward { line@[i - 1] } else { line@[i as int] }),
            !(48 <= b <= 57),
            spelled,
            backward ==> word_ending(line@, i as int, 0) == word_ending(line@, i as int, k as int),
            !backward ==> word_starting(line@, i as int, 0) == word_starting(line@, i as int, k as int),
        decreases 9 - k,
    {
        let w = words[k].as_slice();
        let wl: usize = w.len();
        let found = if backward {
            if wl <= i {
                matches_at(line, w, i - wl)
            } else {
                false
            }
        } else {
            if wl <= n - i {
                matches_at(line, w, i)
            } else {
                false
            }
        };
        if found {
            return Some((k + 1) as u8);
        }
        k = k + 1;
    }
    None
}

/// A line's calibration value, digits spelled out counting when `spelled`.
fn line_value(line: &[u8], words: &Vec<Vec<u8>>, spelled: bool) -> (r: u32)
    requires
        words@.len() == 9,
        forall|k: int| 0 <= k < 9 ==> (#[trigger] words@[k])@ == digit_word(k),
    ensures
        r == calibration(line@, spelled),
{
    let n: usize = line.len();
    let mut first: u8 = 0;
    let mut found = false;
    let mut i: usize = 0;
    while i < n && !found
        invariant
            words@.len() == 9,
            forall|k: int| 0 <= k < 9 ==> (#[trigger] words@[k])@ == digit_word(k),
            n == line@.len(),
            i <= n,
            found ==> first == first_digit(line@, 0, spelled),
            !found ==> first_digit(line@, 0, spelled) == first_digit(line@, i as int, spelled) && first == 0,
        decreases n - i,
    {
        match digit_here(line, words, i, spelled, false) {
            Some(d) => {
                first = d;
                found = true;
            },
            None => {},
        }
        i = i + 1;
    }
    let mut last: u8 = 0;
    let mut found_last = false;
    let mut j: usize = n;
    while j > 0 && !found_last
        invariant
            words@.len() == 9,
            forall|k: int| 0 <= k < 9 ==> (#[trigger] words@[k])@ == digit_word(k),
            n == line@.len(),
            j <= n,
            found_last ==> last == last_digit(line@, n as int, spelled),
            !found_last ==> last_digit(line@, n as int, spelled) == last_digit(line@, j as int, spelled) && last == 0,
        decreases j,
    {
        match digit_here(line, words, j, spelled, true) {
            Some(d) => {
                last = d;
                found_last = true;
            },
            None => {},
        }
        j = j - 1;
    }
    proof {
        lemma_digit_range(line@, 0, spelled);
        lemma_last_digit_range(line@, n as int, spelled);
    }
    (first as u32) * 10 + (last as u32)
}

/// Digits found are at most 9.
proof fn lemma_digit_range(line: Seq<u8>, i: int, spelled: bool)
    ensures
        first_digit(line, i, spelled) <= 9,
    decreases line.len() - i,
{
    if 0 <= i < line.len() {
        lemma_word_starting_range(line, i, 0);
        lemma_digit_range(line, i + 1, spelled);
    }
}

proof fn lemma_last_digit_range(line: Seq<u8>, i: int, spelled: bool)
    ensures
        last_digit(line, i, spelled) <= 9,
    decreases i,
{
    if 0 < i <= line.len() {
        lemma_word_ending_range(line, i, 0);
        lemma_last_digit_range(line, i - 1, spelled);
    }
}

proof fn lemma_word_starting_range(line: Seq<u8>, i: int, k: int)
    ensures
        word_starting(line, i, k) matches Some(d) ==> d <= 9,
    decreases 9 - k,
{
    if 0 <= k < 9 {
        lemma_word_starting_range(line, i, k + 1);
    }
}

proof fn lemma_word_ending_range(line: Seq<u8>, i: int, k: int)
    ensures
        word_ending(line, i, k) matches Some(d) ==> d <= 9,
    decreases 9 - k,
{
    if 0 <= k < 9 {
        lemma_word_ending_range(line, i, k + 1);
    }
}

/// The lines of the calibration document.
pub struct Day01 {
    pub lines: Vec<Vec<u8>>,
}

impl Day01 {
    /// Splits the document into lines.
    pub fn parse(input: &str) -> (r: Day01)
        ensures
            bytes_view(r.lines@) == lines(input.spec_bytes()),
    {
        Day01 { lines: split_lines(input.as_bytes()) }
    }

    fn sum_values(&self, spelled: bool) -> (r: Option<u32>)
        ensures
            r == (if calibration_sum(bytes_view(self.lines@), spelled) <= u32::MAX {
                Some(calibration_sum(bytes_view(self.lines@), spelled) as u32)
            } else {
                None
            }),
    {
        let ghost lv = bytes_view(self.lines@);
        let words = digit_words();
        let mut sum: u32 = 0;
        let mut i: usize = 0;
        assert(lv.take(0) =~= Seq::<Seq<u8>>::empty());
        while i < self.lines.len()
            invariant
                lv == bytes_view(self.lines@),
                words@.len() == 9,
                forall|k: int| 0 <= k < 9 ==> (#[trigger] words@[k])@ == digit_word(k),
                i <= lv.len(),
                sum == calibration_sum(lv.take(i as int), spelled),
            decreases lv.len() - i,
        {
            assert(lv.take(i + 1).drop_last() =~= lv.take(i as int));
            assert(lv.take(i + 1).last() == self.lines@[i as int]@);
            proof {
                lemma_sum_prefix(lv, i + 1, spelled);
            }
            let v = line_value(self.lines[i].as_slice(), &words, spelled);
            if v > u32::MAX - sum {
                return None;
            }
            sum = sum + v;
            i = i + 1;
        }
        assert(lv.take(i as int) =~= lv);
        Some(sum)
    }

    /// Sum of the calibration values, counting digit bytes only.
    pub fn solve_problem_1(&self) -> (r: Option<u32>)
        ensures
            r == (if calibration_sum(bytes_view(self.lines@), false) <= u32::MAX {
                Some(calibration_sum(bytes_view(self.lines@), false) as u32)
            } else {
                None
            }),
    {
        self.sum_values(false)
    }

    /// Sum of the calibration values, counting spelled-out digits too.
    pub fn solve_problem_2(&self) -> (r: Option<u32>)
        ensures
            r == (if calibration_sum(bytes_view(self.lines@), true) <= u32::MAX {
                Some(calibration_sum(bytes_view(self.lines@), true) as u32)
            } else {
                None
            }),
    {
        self.sum_values(true)
    }
}

/// The sum over a prefix of the lines is at most the whole sum.
proof fn lemma_sum_prefix(ls: Seq<Seq<u8>>, i: int, spelled: bool)
    requires
        0 <= i <= ls.len(),
    ensures
        calibration_sum(ls.take(i), spelled) <= calibration_sum(ls, spelled),
    decreases ls.len() - i,
{
    if i < ls.len() {
        lemma_sum_prefix(ls, i + 1, spelled);
        assert(ls.take(i + 1).drop_last() =~= ls.take(i));
    } else {
        assert(ls.take(i) =~= ls);
    }
}

} // verus!
