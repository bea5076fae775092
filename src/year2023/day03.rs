//! Engine schematic: numbers and symbols on a grid; a part number touches a
//! symbol, and a gear is a `*` touching exactly two part numbers.
use crate::text::{bytes_view, lines, split_lines};
use std::ops::Range;
use vstd::prelude::*;
use vstd::string::StringSliceAdditionalSpecFns;

verus! {

/// A number on the grid: its row, the columns its digits occupy, its value.
pub struct PartNumber {
    pub row: usize,
    pub columns: Range<usize>,
    pub value: u64,
}

/// A symbol on the grid: any character other than a digit or `.`, by its
/// first byte.
#[derive(Clone, Copy)]
pub struct Symbol {
    pub row: usize,
    pub col: usize,
    pub value: u8,
}

/// Something placed on a row of the grid.
pub trait HasRows {
    spec fn row_of(&self) -> usize;

    fn get_row(&self) -> (r: usize)
        ensures
            r == self.row_of(),
    ;
}

impl HasRows for PartNumber {
    open spec fn row_of(&self) -> usize {
        self.row
    }

    fn get_row(&self) -> (r: usize) {
        self.row
    }
}

impl HasRows for Symbol {
    open spec fn row_of(&self) -> usize {
        self.row
    }

    fn get_row(&self) -> (r: usize) {
        self.row
    }
}

/// Whether column `col` lies next to or under the number's digits (one column
/// of margin on each side).
pub open spec fn col_adjacent(p: PartNumber, col: usize) -> bool {
    (if p.columns.start > 0 {
        p.columns.start - 1
    } else {
        0
    }) <= col < p.columns.end + 1
}

/// Whether row `b` is row `a` or one next to it.
pub open spec fn near_row(a: usize, b: usize) -> bool {
    b + 1 >= a && b <= a + 1
}

/// Whether a number and a symbol touch, also diagonally.
pub open spec fn touches(p: PartNumber, s: Symbol) -> bool {
    near_row(p.row, s.row) && col_adjacent(p, s.col)
}

impl PartNumber {
    /// Whether the symbol's column lies next to or under the number's digits.
    pub fn is_adjacent_to(&self, s: &Symbol) -> (r: bool)
        ensures
            r == col_adjacent(*self, s.col),
    {
        let start = if self.columns.start > 0 {
            self.columns.start - 1
        } else {
            0
        };
        start <= s.col && s.col <= self.columns.end
    }
}

/// Rows in order, lowest first.
pub open spec fn sorted(rows: Seq<usize>) -> bool {
    forall|a: int, b: int| 0 <= a <= b < rows.len() ==> rows[a] <= rows[b]
}

/// Whether `w` is exactly the range of indices of `rows` near row `row`.
pub open spec fn is_window(rows: Seq<usize>, row: usize, w: Range<usize>) -> bool {
    &&& w.start <= w.end <= rows.len()
    &&& forall|k: int| 0 <= k < rows.len() ==> (near_row(row, #[trigger] rows[k]) <==> w.start <= k < w.end)
}

/// Finds, in sorted rows, the range of indices whose rows are near a given
/// row; the last answer is kept for the next request on the same row.
pub struct AdjacencyCandidates {
    rows: Vec<usize>,
    low: usize,
    high: usize,
    current_row: usize,
    cached: bool,
}

/// The first index whose row is at least `bound` (all before it are lower).
fn first_at_least(rows: &Vec<usize>, bound: usize) -> (r: usize)
    requires
        sorted(rows@),
    ensures
        r <= rows@.len(),
        forall|k: int| 0 <= k < r ==> rows@[k] < bound,
        forall|k: int| r <= k < rows@.len() ==> rows@[k] >= bound,
{
    let mut lo: usize = 0;
    let mut hi: usize = rows.len();
    while lo < hi
        invariant
            sorted(rows@),
            lo <= hi <= rows@.len(),
            forall|k: int| 0 <= k < lo ==> rows@[k] < bound,
            forall|k: int| hi <= k < rows@.len() ==> rows@[k] >= bound,
        decreases hi - lo,
    {
        let mid = lo + (hi - lo) / 2;
        if rows[mid] < bound {
            lo = mid + 1;
        } else {
            hi = mid;
        }
    }
    lo
}

/// The first index whose row is above `bound` (all before it are at most
/// `bound`).
fn first_above(rows: &Vec<usize>, bound: usize) -> (r: usize)
    requires
        sorted(rows@),
    ensures
        r <= rows@.len(),
        forall|k: int| 0 <= k < r ==> rows@[k] <= bound,
        forall|k: int| r <= k < rows@.len() ==> rows@[k] > bound,
{
    let mut lo: usize = 0;
    let mut hi: usize = rows.len();
    while lo < hi
        invariant
            sorted(rows@),
            lo <= hi <= rows@.len(),
            forall|k: int| 0 <= k < lo ==> rows@[k] <= bound,
            forall|k: int| hi <= k < rows@.len() ==> rows@[k] > bound,
        decreases hi - lo,
    {
        let mid = lo + (hi - lo) / 2;
        if rows[mid] <= bound {
            lo = mid + 1;
        } else {
            hi = mid;
        }
    }
    lo
}

/// The rows of the items of `s`, in order.
pub open spec fn rows_of<T: HasRows>(s: Seq<T>) -> Seq<usize> {
    s.map_values(|t: T| t.row_of())
}

impl AdjacencyCandidates {
    /// The rows searched.
    pub closed spec fn rows(&self) -> Seq<usize> {
        self.rows@
    }

    /// The rows are sorted, and a kept answer is right for its row.
    pub closed spec fn wf(&self) -> bool {
        &&& sorted(self.rows@)
        &&& self.cached ==> is_window(self.rows@, self.current_row, Range { start: self.low, end: self.high })
    }

    /// Prepares searches over the rows of the items of `slice`, which must
    /// come in row order.
    pub fn from<T: HasRows>(slice: &[T]) -> (r: Self)
        requires
            sorted(rows_of(slice@)),
        ensures
            r.wf(),
            r.rows() == rows_of(slice@),
    {
        let mut rows: Vec<usize> = Vec::new();
        let mut i: usize = 0;
        while i < slice.len()
            invariant
                i <= slice@.len(),
                rows@ == rows_of(slice@).take(i as int),
            decreases slice@.len() - i,
        {
            rows.push(slice[i].get_row());
            i = i + 1;
            assert(rows@ =~= rows_of(slice@).take(i as int));
        }
        assert(rows@ =~= rows_of(slice@));
        let n = rows.len();
        AdjacencyCandidates { rows, low: 0, high: n, current_row: 0, cached: false }
    }

    /// The range of indices whose rows are near the target's row.
    pub fn get_for<U: HasRows>(&mut self, target: &U) -> (r: Range<usize>)
        requires
            old(self).wf(),
        ensures
            final(self).wf(),
            final(self).rows() == old(self).rows(),
            is_window(old(self).rows(), target.row_of(), r),
    {
        let row = target.get_row();
        if !self.cached || self.current_row != row {
            let below = if row > 0 {
                row - 1
            } else {
                0
            };
            let above = if row < usize::MAX {
                row + 1
            } else {
                row
            };
            self.low = first_at_least(&self.rows, below);
            self.high = first_above(&self.rows, above);
            self.current_row = row;
            self.cached = true;
            proof {
                let rows = self.rows@;
                assert forall|k: int| 0 <= k < rows.len() implies (near_row(row, #[trigger] rows[k]) <==> self.low <= k < self.high) by {
                    if near_row(row, rows[k]) {
                        assert(self.low <= k) by {
                            if k < self.low {
                                assert(rows[k] < below);
                            }
                        }
                    }
                }
                if self.low > self.high {
                    assert(rows[self.high as int] > above);
                    assert(rows[self.high as int] < below);
                }
            }
        }
        Range { start: self.low, end: self.high }
    }
}

/// What scanning has found so far.
pub struct ScanState {
    pub parts: Seq<PartNumber>,
    pub symbols: Seq<Symbol>,
    pub current: Option<PartNumber>,
}

/// The state once the number being read, if any, is complete.
pub open spec fn flush(st: ScanState) -> ScanState {
    match st.current {
        Some(p) => ScanState { parts: st.parts.push(p), symbols: st.symbols, current: None },
        None => st,
    }
}

/// Reads byte `b` at column `col` of row `row`: a `.` ends a number, a digit
/// starts or extends one, a byte that continues a multi-byte character is
/// passed over, anything else ends a number and is a symbol. `None` when a
/// number grows past `u64`.
pub open spec fn step(st: ScanState, row: usize, col: usize, b: u8) -> Option<ScanState> {
    if 128 <= b < 192 {
        Some(st)
    } else if b == 46 {
        Some(flush(st))
    } else if 48 <= b <= 57 {
        let d = (b - 48) as u64;
        match st.current {
            Some(p) => if p.value * 10 + d > u64::MAX {
                None
            } else {
                Some(
                    ScanState {
                        current: Some(
                            PartNumber {
                                row: p.row,
                                columns: Range { start: p.columns.start, end: (p.columns.end + 1) as usize },
                                value: (p.value * 10 + d) as u64,
                            },
                        ),
                        ..st
                    },
                )
            },
            None => Some(
                ScanState {
                    current: Some(PartNumber { row, columns: Range { start: col, end: (col + 1) as usize }, value: d }),
                    ..st
                },
            ),
        }
    } else {
        let f = flush(st);
        Some(ScanState { symbols: f.symbols.push(Symbol { row, col, value: b }), ..f })
    }
}

/// The state after reading the first `n` bytes of `line`, row `row`.
pub open spec fn scan(st: ScanState, row: usize, line: Seq<u8>, n: int) -> Option<ScanState>
    decreases n,
{
    if n <= 0 {
        Some(st)
    } else {
        match scan(st, row, line, n - 1) {
            None => None,
            Some(s) => step(s, row, (n - 1) as usize, line[n - 1]),
        }
    }
}

/// The numbers and symbols of the rows `ls`, read row by row.
pub open spec fn scan_rows(ls: Seq<Seq<u8>>) -> Option<ScanState>
    decreases ls.len(),
{
    if ls.len() == 0 {
        Some(ScanState { parts: seq![], symbols: seq![], current: None })
    } else {
        match scan_rows(ls.drop_last()) {
            None => None,
            Some(st) => match scan(st, (ls.len() - 1) as usize, ls.last(), ls.last().len() as int) {
                None => None,
                Some(s) => Some(flush(s)),
            },
        }
    }
}

/// Why a schematic could not be read.
#[derive(Debug)]
pub enum ParseError {
    /// A number does not fit in `u64`.
    NumberTooLarge,
}

/// Sum of the values of the numbers that touch a symbol.
pub open spec fn part_sum(parts: Seq<PartNumber>, symbols: Seq<Symbol>) -> nat
    decreases parts.len(),
{
    if parts.len() == 0 {
        0
    } else {
        part_sum(parts.drop_last(), symbols) + if exists|j: int| 0 <= j < symbols.len() && touches(parts.last(), #[trigger] symbols[j]) {
            parts.last().value as nat
        } else {
            0
        }
    }
}

/// The indices of the numbers that touch symbol `s`, among the first `n`.
pub open spec fn touching(parts: Seq<PartNumber>, s: Symbol, n: int) -> Seq<int>
    decreases n,
{
    if n <= 0 {
        seq![]
    } else if touches(parts[n - 1], s) {
        touching(parts, s, n - 1).push(n - 1)
    } else {
        touching(parts, s, n - 1)
    }
}

/// The gear ratio of a symbol: for a `*` touching exactly two numbers, their
/// product; else 0.
pub open spec fn gear_ratio(parts: Seq<PartNumber>, s: Symbol) -> nat {
    let t = touching(parts, s, parts.len() as int);
    if s.value == 42 && t.len() == 2 {
        (parts[t[0]].value * parts[t[1]].value) as nat
    } else {
        0
    }
}

/// Sum of the gear ratios of the symbols.
pub open spec fn gear_sum(parts: Seq<PartNumber>, symbols: Seq<Symbol>) -> nat
    decreases symbols.len(),
{
    if symbols.len() == 0 {
        0
    } else {
        gear_sum(parts, symbols.drop_last()) + gear_ratio(parts, symbols.last())
    }
}

/// The numbers and symbols of a schematic.
pub struct Day {
    pub part_nums: Vec<PartNumber>,
    pub symbols: Vec<Symbol>,
}

impl Day {
    /// Numbers and symbols both come in row order.
    pub open spec fn wf(&self) -> bool {
        &&& sorted(rows_of(self.part_nums@))
        &&& sorted(rows_of(self.symbols@))
    }

    /// Reads a schematic: each line is a row, each byte a column.
    pub fn parse(input: &str) -> (r: Result<Day, ParseError>)
        ensures
            match r {
                Ok(d) => scan_rows(lines(input.spec_bytes())) == Some(
                    ScanState { parts: d.part_nums@, symbols: d.symbols@, current: None },
                ),
                Err(_) => scan_rows(lines(input.spec_bytes())) is None,
            },
            r matches Ok(d) ==> d.wf(),
    {
        let ls = split_lines(input.as_bytes());
        let ghost lv = bytes_view(ls@);
        let mut part_nums: Vec<PartNumber> = Vec::new();
        let mut symbols: Vec<Symbol> = Vec::new();
        let mut row: usize = 0;
        assert(lv.take(0) =~= Seq::<Seq<u8>>::empty());
        while row < ls.len()
            invariant
                lv == bytes_view(ls@),
                lv == lines(input.spec_bytes()),
                row <= ls@.len(),
                scan_rows(lv.take(row as int)) == Some(
                    ScanState { parts: part_nums@, symbols: symbols@, current: None },
                ),
                sorted(rows_of(part_nums@)),
                sorted(rows_of(symbols@)),
                forall|k: int| 0 <= k < part_nums@.len() ==> (#[trigger] part_nums@[k]).row < row,
                forall|k: int| 0 <= k < symbols@.len() ==> (#[trigger] symbols@[k]).row < row,
            decreases ls@.len() - row,
        {
            assert(lv.take(row + 1).drop_last() =~= lv.take(row as int));
            assert(lv.take(row + 1).last() == ls@[row as int]@);
            let line = ls[row].as_slice();
            let ghost st0 = ScanState { parts: part_nums@, symbols: symbols@, current: None };
            let mut cur: Option<PartNumber> = None;
            let mut i: usize = 0;
            while i < line.len()
                invariant
                    lv == bytes_view(ls@),
                    lv == lines(input.spec_bytes()),
                    lv.len() == ls@.len(),
                    row < ls@.len(),
                    line@ == lv[row as int],
                    scan_rows(lv.take(row as int)) == Some(st0),
                    lv.take(row + 1).drop_last() == lv.take(row as int),
                    lv.take(row + 1).last() == lv[row as int],
                    i <= line@.len(),
                    scan(st0, row, line@, i as int) == Some(
                        ScanState { parts: part_nums@, symbols: symbols@, current: cur },
                    ),
                    sorted(rows_of(part_nums@)),
                    sorted(rows_of(symbols@)),
                    forall|k: int| 0 <= k < part_nums@.len() ==> (#[trigger] part_nums@[k]).row <= row,
                    forall|k: int| 0 <= k < symbols@.len() ==> (#[trigger] symbols@[k]).row <= row,
                    cur matches Some(p) ==> p.row == row && p.columns.end <= i,
                decreases line@.len() - i,
            {
                let b = line[i];
                let ghost before = ScanState { parts: part_nums@, symbols: symbols@, current: cur };
                if 128 <= b && b < 192 {
                    // The rest of a multi-byte character: its first byte was the symbol.
                } else if b == 46 {
                    match cur {
                        Some(p) => {
                            part_nums.push(p);
                        },
                        None => {},
                    }
                    cur = None;
                    proof {
                        lemma_sorted_push(before.parts, row);
                    }
                    assert(rows_of(part_nums@) =~= rows_of(before.parts) || rows_of(part_nums@) =~= rows_of(before.parts).push(row));
                } else if 48 <= b && b <= 57 {
                    let d = (b - 48) as u64;
                    match cur {
                        Some(p) => {
                            if p.value > (u64::MAX - d) / 10 {
                                proof {
                                    assert(p.value * 10 + d > u64::MAX) by (nonlinear_arith)
                                        requires
                                            p.value > (u64::MAX - d) / 10,
                                            d <= 9,
                                    ;
                                    lemma_scan_none(st0, row, line@, i as int + 1);
                                    lemma_scan_rows_none(lv, row as int + 1);
                                }
                                return Err(ParseError::NumberTooLarge);
                            }
                            proof {
                                assert(p.value * 10 + d <= u64::MAX) by (nonlinear_arith)
                                    requires
                                        p.value <= (u64::MAX - d) / 10,
                                        d <= 9,
                                ;
                            }
                            cur = Some(PartNumber {
                                row: p.row,
                                columns: Range { start: p.columns.start, end: p.columns.end + 1 },
                                value: p.value * 10 + d,
                            });
                        },
                        None => {
                            cur = Some(PartNumber { row, columns: Range { start: i, end: i + 1 }, value: d });
                        },
                    }
                } else {
                    match cur {
                        Some(p) => {
                            part_nums.push(p);
                        },
                        None => {},
                    }
                    cur = None;
                    symbols.push(Symbol { row, col: i, value: b });
                    proof {
                        lemma_sorted_push(before.parts, row);
                        lemma_sorted_push(before.symbols, row);
                    }
                    assert(rows_of(part_nums@) =~= rows_of(before.parts) || rows_of(part_nums@) =~= rows_of(before.parts).push(row));
                    assert(rows_of(symbols@) =~= rows_of(before.symbols).push(row));
                }
                i = i + 1;
            }
            let ghost before = ScanState { parts: part_nums@, symbols: symbols@, current: cur };
            match cur {
                Some(p) => {
                    part_nums.push(p);
                },
                None => {},
            }
            proof {
                lemma_sorted_push(before.parts, row);
            }
            assert(rows_of(part_nums@) =~= rows_of(before.parts) || rows_of(part_nums@) =~= rows_of(before.parts).push(row));
            row = row + 1;
        }
        assert(lv.take(row as int) =~= lv);
        Ok(Day { part_nums, symbols })
    }

    /// Sum of the numbers that touch a symbol.
    pub fn solve_problem_1(&self) -> (r: Option<u64>)
        requires
            self.wf(),
        ensures
            r == (if part_sum(self.part_nums@, self.symbols@) <= u64::MAX {
                Some(part_sum(self.part_nums@, self.symbols@) as u64)
            } else {
                None
            }),
    {
        let ghost parts = self.part_nums@;
        let ghost syms = self.symbols@;
        let mut candidates = AdjacencyCandidates::from(self.symbols.as_slice());
        let mut sum: u64 = 0;
        let mut i: usize = 0;
        assert(parts.take(0) =~= Seq::<PartNumber>::empty());
        while i < self.part_nums.len()
            invariant
                parts == self.part_nums@,
                syms == self.symbols@,
                candidates.wf(),
                candidates.rows() == rows_of(syms),
                i <= parts.len(),
                sum == part_sum(parts.take(i as int), syms),
            decreases parts.len() - i,
        {
            assert(parts.take(i + 1).drop_last() =~= parts.take(i as int));
            proof {
                lemma_part_sum_prefix(parts, syms, i + 1);
            }
            let p = &self.part_nums[i];
            let w = candidates.get_for(p);
            let mut found = false;
            let mut k: usize = w.start;
            while k < w.end
                invariant
                    syms == self.symbols@,
                    is_window(rows_of(syms), p.row, w),
                    w.start <= k <= w.end,
                    found == exists|j: int| w.start <= j < k && touches(*p, #[trigger] syms[j]),
                decreases w.end - k,
            {
                assert(rows_of(syms)[k as int] == syms[k as int].row);
                if p.is_adjacent_to(&self.symbols[k]) {
                    found = true;
                }
                k = k + 1;
            }
            proof {
                if exists|j: int| 0 <= j < syms.len() && touches(*p, #[trigger] syms[j]) {
                    let j = choose|j: int| 0 <= j < syms.len() && touches(*p, #[trigger] syms[j]);
                    assert(rows_of(syms)[j] == syms[j].row);
                }
            }
            if found {
                if p.value > u64::MAX - sum {
                    return None;
                }
                sum = sum + p.value;
            }
            i = i + 1;
        }
        assert(parts.take(i as int) =~= parts);
        Some(sum)
    }

    /// Sum of the gear ratios of the symbols.
    pub fn solve_problem_2(&self) -> (r: Option<u64>)
        requires
            self.wf(),
        ensures
            r == (if gear_sum(self.part_nums@, self.symbols@) <= u64::MAX {
                Some(gear_sum(self.part_nums@, self.symbols@) as u64)
            } else {
                None
            }),
    {
        let ghost parts = self.part_nums@;
        let ghost syms = self.symbols@;
        let mut candidates = AdjacencyCandidates::from(self.part_nums.as_slice());
        let mut sum: u64 = 0;
        let mut i: usize = 0;
        assert(syms.take(0) =~= Seq::<Symbol>::empty());
        while i < self.symbols.len()
            invariant
                parts == self.part_nums@,
                syms == self.symbols@,
                candidates.wf(),
                candidates.rows() == rows_of(parts),
                i <= syms.len(),
                sum == gear_sum(parts, syms.take(i as int)),
            decreases syms.len() - i,
        {
            assert(syms.take(i + 1).drop_last() =~= syms.take(i as int));
            proof {
                lemma_gear_sum_prefix(parts, syms, i + 1);
            }
            let s = self.symbols[i];
            if s.value == 42 {
                let w = candidates.get_for(&s);
                proof {
                    lemma_touching_none(parts, s, w.start as int);
                }
                let mut count: usize = 0;
                let mut first: u64 = 0;
                let mut second: u64 = 0;
                let mut k: usize = w.start;
                while k < w.end
                    invariant
                        parts == self.part_nums@,
                        is_window(rows_of(parts), s.row, w),
                        w.start <= k <= w.end,
                        count <= k,
                        count == touching(parts, s, k as int).len(),
                        count >= 1 ==> first == parts[touching(parts, s, k as int)[0]].value,
                        count >= 2 ==> second == parts[touching(parts, s, k as int)[1]].value,
                    decreases w.end - k,
                {
                    assert(rows_of(parts)[k as int] == parts[k as int].row);
                    let p = &self.part_nums[k];
                    if p.is_adjacent_to(&s) {
                        if count == 0 {
                            first = p.value;
                        } else if count == 1 {
                            second = p.value;
                        }
                        count = count + 1;
                    }
                    k = k + 1;
                }
                proof {
                    lemma_touching_rest(parts, s, w);
                }
                if count == 2 {
                    proof {
                        assert((first as int) * (second as int) <= 0xFFFF_FFFF_FFFF_FFFF * 0xFFFF_FFFF_FFFF_FFFF) by (nonlinear_arith)
                            requires
                                first <= 0xFFFF_FFFF_FFFF_FFFFu64,
                                second <= 0xFFFF_FFFF_FFFF_FFFFu64,
                        ;
                    }
                    let ratio = (first as u128) * (second as u128);
                    if ratio > (u64::MAX - sum) as u128 {
                        return None;
                    }
                    sum = sum + (ratio as u64);
                }
            }
            i = i + 1;
        }
        assert(syms.take(i as int) =~= syms);
        Some(sum)
    }
}

/// Appending an item of row `row` to items all at or below `row` keeps them
/// in order.
proof fn lemma_sorted_push<T: HasRows>(s: Seq<T>, row: usize)
    requires
        sorted(rows_of(s)),
        forall|k: int| 0 <= k < s.len() ==> (#[trigger] s[k]).row_of() <= row,
    ensures
        sorted(rows_of(s).push(row)),
{
    assert forall|a: int, b: int| 0 <= a <= b < rows_of(s).push(row).len() implies rows_of(s).push(row)[a] <= rows_of(s).push(row)[b] by {
        if b == s.len() && a < s.len() {
            assert(rows_of(s)[a] == s[a].row_of());
        }
    }
}

/// Once a prefix of a row fails, the whole row fails.
proof fn lemma_scan_none(st: ScanState, row: usize, line: Seq<u8>, n: int)
    requires
        0 <= n <= line.len(),
        scan(st, row, line, n) is None,
    ensures
        scan(st, row, line, line.len() as int) is None,
    decreases line.len() - n,
{
    if n < line.len() {
        lemma_scan_none(st, row, line, n + 1);
    }
}

/// Once a prefix of the rows fails, all the rows fail.
proof fn lemma_scan_rows_none(ls: Seq<Seq<u8>>, n: int)
    requires
        0 <= n <= ls.len(),
        scan_rows(ls.take(n)) is None,
    ensures
        scan_rows(ls) is None,
    decreases ls.len() - n,
{
    if n < ls.len() {
        assert(ls.take(n + 1).drop_last() =~= ls.take(n));
        lemma_scan_rows_none(ls, n + 1);
    } else {
        assert(ls.take(n) =~= ls);
    }
}

/// The sum over a prefix of the numbers is at most the whole sum.
proof fn lemma_part_sum_prefix(parts: Seq<PartNumber>, syms: Seq<Symbol>, i: int)
    requires
        0 <= i <= parts.len(),
    ensures
        part_sum(parts.take(i), syms) <= part_sum(parts, syms),
    decreases parts.len() - i,
{
    if i < parts.len() {
        lemma_part_sum_prefix(parts, syms, i + 1);
        assert(parts.take(i + 1).drop_last() =~= parts.take(i));
    } else {
        assert(parts.take(i) =~= parts);
    }
}

/// The sum over a prefix of the symbols is at most the whole sum.
proof fn lemma_gear_sum_prefix(parts: Seq<PartNumber>, syms: Seq<Symbol>, i: int)
    requires
        0 <= i <= syms.len(),
    ensures
        gear_sum(parts, syms.take(i)) <= gear_sum(parts, syms),
    decreases syms.len() - i,
{
    if i < syms.len() {
        lemma_gear_sum_prefix(parts, syms, i + 1);
        assert(syms.take(i + 1).drop_last() =~= syms.take(i));
    } else {
        assert(syms.take(i) =~= syms);
    }
}

/// No number before the window touches the symbol.
proof fn lemma_touching_none(parts: Seq<PartNumber>, s: Symbol, n: int)
    requires
        0 <= n <= parts.len(),
        forall|k: int| 0 <= k < n ==> !near_row(s.row, #[trigger] rows_of(parts)[k]),
    ensures
        touching(parts, s, n) == Seq::<int>::empty(),
    decreases n,
{
    if n > 0 {
        assert(rows_of(parts)[n - 1] == parts[n - 1].row);
        lemma_touching_none(parts, s, n - 1);
    }
}

/// No number after the window touches the symbol either.
proof fn lemma_touching_rest(parts: Seq<PartNumber>, s: Symbol, w: Range<usize>)
    requires
        is_window(rows_of(parts), s.row, w),
    ensures
        touching(parts, s, parts.len() as int) == touching(parts, s, w.end as int),
{
    lemma_touching_after(parts, s, w, parts.len() as int);
}

proof fn lemma_touching_after(parts: Seq<PartNumber>, s: Symbol, w: Range<usize>, n: int)
    requires
        is_window(rows_of(parts), s.row, w),
        w.end <= n <= parts.len(),
    ensures
        touching(parts, s, n) == touching(parts, s, w.end as int),
    decreases n,
{
    if n > w.end {
        assert(rows_of(parts)[n - 1] == parts[n - 1].row);
        lemma_touching_after(parts, s, w, n - 1);
    }
}

} // verus!
