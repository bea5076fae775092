//! Seeds, soil and fertilizer: half-open ranges of numbers are pushed through a
//! chain of category tables, each a list of range-shifting rules, and the lowest
//! number reached in the terminal category is reported.
use std::ops::Range;
use vstd::prelude::*;
use crate::text::{
    bytes_view, copy_bytes, find, find_byte, find_byte_from, find_from, lemma_find_from_bounds, parse_number, parse_u64,
    paragraphs, lines, same_bytes, slice_to_vec, split_paragraphs, split_words, words,
};
use itertools::Itertools;
use vstd::string::StringSliceAdditionalSpecFns;

verus! {

/// Length of a half-open range, as an integer (negative when `end < start`).
pub open spec fn span_len(r: Range<u64>) -> int {
    r.end - r.start
}

/// Whether `x` lies in the half-open range `r`.
pub open spec fn in_span(r: Range<u64>, x: int) -> bool {
    r.start <= x < r.end
}

/// Whether `x` lies in one of the ranges of `s`.
pub open spec fn in_any(s: Seq<Range<u64>>, x: int) -> bool {
    exists|i: int| 0 <= i < s.len() && in_span(#[trigger] s[i], x)
}

/// Sum of the lengths of the ranges of `s`.
pub open spec fn total_len(s: Seq<Range<u64>>) -> int
    decreases s.len(),
{
    if s.len() == 0 {
        0
    } else {
        total_len(s.drop_last()) + span_len(s.last())
    }
}

/// The one-element sequence of a present value, the empty one otherwise.
pub open spec fn opt_seq(o: Option<Range<u64>>) -> Seq<Range<u64>> {
    match o {
        Some(r) => seq![r],
        None => seq![],
    }
}

/// A mapping rule: every value `v` of `src` maps to `v - src.start + dst`.
pub struct Mapping {
    pub src: Range<u64>,
    pub dst: u64,
}

impl Mapping {
    /// The source range is ordered.
    pub open spec fn wf(&self) -> bool {
        self.src.start <= self.src.end
    }

    /// Whether splitting `v` against this rule keeps every image inside
    /// `u64`: either `v` misses the source range, or the end of the image of
    /// the overlap fits.
    pub open spec fn fits(&self, v: Range<u64>) -> bool {
        !self.overlaps(v) || self.image(self.overlap_hi(v) as int) <= u64::MAX
    }

    /// Where the rule sends `x`, when `x` lies in its source range.
    pub open spec fn image(&self, x: int) -> int {
        x - self.src.start + self.dst
    }

    /// Lower bound of the overlap of `v` with the source range.
    pub open spec fn overlap_lo(&self, v: Range<u64>) -> u64 {
        if v.start < self.src.start {
            self.src.start
        } else {
            v.start
        }
    }

    /// Upper bound of the overlap of `v` with the source range.
    pub open spec fn overlap_hi(&self, v: Range<u64>) -> u64 {
        if v.end < self.src.end {
            v.end
        } else {
            self.src.end
        }
    }

    /// Whether `v` and the source range share at least one value.
    pub open spec fn overlaps(&self, v: Range<u64>) -> bool {
        self.overlap_lo(v) < self.overlap_hi(v)
    }

    /// What splitting `v` against this rule gives: the image of the overlap, if
    /// there is one, and the non-empty parts of `v` outside the source range
    /// (the part below it first). Without overlap, `v` itself is left over.
    pub open spec fn split(&self, v: Range<u64>) -> (Option<Range<u64>>, Seq<Range<u64>>) {
        if !self.overlaps(v) {
            (None, seq![v])
        } else {
            let mapped = Range {
                start: self.image(self.overlap_lo(v) as int) as u64,
                end: self.image(self.overlap_hi(v) as int) as u64,
            };
            let before = if v.start < self.src.start {
                seq![Range { start: v.start, end: self.src.start }]
            } else {
                seq![]
            };
            let after = if self.src.end < v.end {
                seq![Range { start: self.src.end, end: v.end }]
            } else {
                seq![]
            };
            (Some(mapped), before + after)
        }
    }

    /// Splits `value` against this rule: the image of the part inside the
    /// source range is pushed to `mapped`, the non-empty parts outside it to
    /// `unmapped`. When that image would leave `u64`, nothing is pushed and
    /// the result is `false`.
    pub fn map(&self, value: Range<u64>, mapped: &mut Vec<Range<u64>>, unmapped: &mut Vec<Range<u64>>) -> (ok: bool)
        requires
            self.wf(),
        ensures
            ok == self.fits(value),
            ok ==> final(mapped)@ == old(mapped)@ + opt_seq(self.split(value).0),
            ok ==> final(unmapped)@ == old(unmapped)@ + self.split(value).1,
            !ok ==> final(mapped)@ == old(mapped)@ && final(unmapped)@ == old(unmapped)@,
    {
        let lo = if value.start < self.src.start {
            self.src.start
        } else {
            value.start
        };
        let hi = if value.end < self.src.end {
            value.end
        } else {
            self.src.end
        };
        if hi <= lo {
            // No overlap: the whole range stays as it is.
            unmapped.push(value);
            return true;
        }
        if hi - self.src.start > u64::MAX - self.dst {
            return false;
        }
        let new_start = lo - self.src.start + self.dst;
        let new_end = hi - self.src.start + self.dst;
        mapped.push(Range { start: new_start, end: new_end });
        if value.start < self.src.start {
            unmapped.push(Range { start: value.start, end: self.src.start });
        }
        if self.src.end < value.end {
            unmapped.push(Range { start: self.src.end, end: value.end });
        }
        proof {
            let ghost before = if value.start < self.src.start {
                seq![Range { start: value.start, end: self.src.start }]
            } else {
                seq![]
            };
            let ghost after = if self.src.end < value.end {
                seq![Range { start: self.src.end, end: value.end }]
            } else {
                seq![]
            };
            assert(unmapped@ =~= old(unmapped)@ + (before + after));
        }
        true
    }
}

/// Splits each range of `ws`, in order, against `m`: all mapped images, and all
/// leftovers.
pub open spec fn split_all(m: Mapping, ws: Seq<Range<u64>>) -> (Seq<Range<u64>>, Seq<Range<u64>>)
    decreases ws.len(),
{
    if ws.len() == 0 {
        (seq![], seq![])
    } else {
        let prev = split_all(m, ws.drop_last());
        let cur = m.split(ws.last());
        (prev.0 + opt_seq(cur.0), prev.1 + cur.1)
    }
}

/// What the rules from index `i` on make of the working set `ws`: the images
/// produced by each rule in turn, then whatever no rule covered, unchanged.
pub open spec fn route(rules: Seq<Mapping>, i: int, ws: Seq<Range<u64>>) -> Seq<Range<u64>>
    decreases rules.len() - i,
{
    if i >= rules.len() || ws.len() == 0 {
        ws
    } else {
        let step = split_all(rules[i], ws);
        step.0 + route(rules, i + 1, step.1)
    }
}

/// What a table with `rules` makes of `ranges`: each range routed on its own
/// through the rules, the outputs concatenated in input order.
pub open spec fn apply_rules(rules: Seq<Mapping>, ranges: Seq<Range<u64>>) -> Seq<Range<u64>>
    decreases ranges.len(),
{
    if ranges.len() == 0 {
        seq![]
    } else {
        apply_rules(rules, ranges.drop_last()) + route(rules, 0, seq![ranges.last()])
    }
}

/// All rules of `rules` are well formed.
pub open spec fn rules_wf(rules: Seq<Mapping>) -> bool {
    forall|i: int| 0 <= i < rules.len() ==> (#[trigger] rules[i]).wf()
}

/// Every range of `ws` splits against `m` with its image inside `u64`.
pub open spec fn split_all_fits(m: Mapping, ws: Seq<Range<u64>>) -> bool {
    forall|k: int| 0 <= k < ws.len() ==> m.fits(#[trigger] ws[k])
}

/// Every split that routing `ws` through the rules from index `i` on makes
/// keeps its image inside `u64`.
pub open spec fn route_fits(rules: Seq<Mapping>, i: int, ws: Seq<Range<u64>>) -> bool
    decreases rules.len() - i,
{
    if i >= rules.len() || ws.len() == 0 {
        true
    } else {
        split_all_fits(rules[i], ws) && route_fits(rules, i + 1, split_all(rules[i], ws).1)
    }
}

/// Every split that pushing `ranges` through a table with `rules` makes
/// keeps its image inside `u64`.
pub open spec fn apply_fits(rules: Seq<Mapping>, ranges: Seq<Range<u64>>) -> bool
    decreases ranges.len(),
{
    if ranges.len() == 0 {
        true
    } else {
        apply_fits(rules, ranges.drop_last()) && route_fits(rules, 0, seq![ranges.last()])
    }
}

/// Whether a prefix fits follows from whether the whole fits.
proof fn lemma_apply_fits_prefix(rules: Seq<Mapping>, ranges: Seq<Range<u64>>, i: int)
    requires
        0 <= i <= ranges.len(),
        !apply_fits(rules, ranges.take(i)),
    ensures
        !apply_fits(rules, ranges),
    decreases ranges.len() - i,
{
    if i < ranges.len() {
        assert(ranges.take(i + 1).drop_last() =~= ranges.take(i));
        lemma_apply_fits_prefix(rules, ranges, i + 1);
    } else {
        assert(ranges.take(i) =~= ranges);
    }
}

/// A copy of a range.
fn copy_range(r: &Range<u64>) -> (c: Range<u64>)
    ensures
        c == *r,
{
    Range { start: r.start, end: r.end }
}

/// Runs `value` through `rules` in order: the images go to `out`, and what no
/// rule covered is appended after them. `false` when an image would leave
/// `u64`.
fn route_one(rules: &Vec<Mapping>, value: &Range<u64>, out: &mut Vec<Range<u64>>) -> (ok: bool)
    requires
        rules_wf(rules@),
    ensures
        ok == route_fits(rules@, 0, seq![*value]),
        ok ==> final(out)@ == old(out)@ + route(rules@, 0, seq![*value]),
{
    let ghost v = *value;
    let mut unprocessed: Vec<Range<u64>> = Vec::new();
    unprocessed.push(copy_range(value));
    let mut failed = false;
    let mut j: usize = 0;
    while j < rules.len() && unprocessed.len() > 0 && !failed
        invariant
            rules_wf(rules@),
            j <= rules.len(),
            !failed ==> out@ + route(rules@, j as int, unprocessed@) == old(out)@ + route(rules@, 0, seq![v]),
            !failed ==> route_fits(rules@, 0, seq![v]) == route_fits(rules@, j as int, unprocessed@),
            failed ==> !route_fits(rules@, 0, seq![v]),
        decreases rules.len() - j,
    {
        let ghost ws = unprocessed@;
        let ghost out0 = out@;
        let mut unmapped: Vec<Range<u64>> = Vec::new();
        let mut k: usize = 0;
        while k < unprocessed.len() && !failed
            invariant
                rules_wf(rules@),
                j < rules.len(),
                ws == unprocessed@,
                k <= ws.len(),
                !failed ==> out@ == out0 + split_all(rules@[j as int], ws.take(k as int)).0,
                !failed ==> unmapped@ == split_all(rules@[j as int], ws.take(k as int)).1,
                !failed ==> forall|x: int| 0 <= x < k ==> rules@[j as int].fits(#[trigger] ws[x]),
                failed ==> !split_all_fits(rules@[j as int], ws),
            decreases ws.len() - k,
        {
            let r = copy_range(&unprocessed[k]);
            assert(ws.take(k + 1).drop_last() =~= ws.take(k as int));
            if rules[j].map(r, out, &mut unmapped) {
                k = k + 1;
                assert(out@ =~= out0 + split_all(rules@[j as int], ws.take(k as int)).0);
                assert(unmapped@ =~= split_all(rules@[j as int], ws.take(k as int)).1);
            } else {
                failed = true;
                k = k + 1;
            }
        }
        if !failed {
            assert(ws.take(ws.len() as int) =~= ws);
            assert(route(rules@, j as int, ws) == split_all(rules@[j as int], ws).0 + route(
                rules@,
                j + 1,
                split_all(rules@[j as int], ws).1,
            ));
            assert(out0 + route(rules@, j as int, ws) =~= out@ + route(rules@, j + 1, unmapped@));
            unprocessed = unmapped;
        }
        j = j + 1;
    }
    if failed {
        return false;
    }
    assert(route(rules@, j as int, unprocessed@) == unprocessed@);
    let mut k: usize = 0;
    let ghost out1 = out@;
    while k < unprocessed.len()
        invariant
            k <= unprocessed@.len(),
            out@ == out1 + unprocessed@.take(k as int),
        decreases unprocessed@.len() - k,
    {
        let r = copy_range(&unprocessed[k]);
        out.push(r);
        k = k + 1;
        assert(out@ =~= out1 + unprocessed@.take(k as int));
    }
    assert(unprocessed@.take(k as int) =~= unprocessed@);
    true
}

/// A category table: the rules that take values of category `src` to
/// category `dst`, in the order they are tried.
pub struct CategoryTable {
    pub src: Vec<u8>,
    pub dst: Vec<u8>,
    pub rules: Vec<Mapping>,
}

impl CategoryTable {
    /// Pushes every range of `ranges` through this table; `None` when an
    /// image would leave `u64`.
    pub fn apply(&self, ranges: &Vec<Range<u64>>) -> (r: Option<Vec<Range<u64>>>)
        requires
            rules_wf(self.rules@),
        ensures
            r is None <==> !apply_fits(self.rules@, ranges@),
            r matches Some(v) ==> v@ == apply_rules(self.rules@, ranges@),
    {
        let mut out: Vec<Range<u64>> = Vec::new();
        let mut i: usize = 0;
        while i < ranges.len()
            invariant
                rules_wf(self.rules@),
                i <= ranges@.len(),
                out@ == apply_rules(self.rules@, ranges@.take(i as int)),
                apply_fits(self.rules@, ranges@.take(i as int)),
            decreases ranges@.len() - i,
        {
            assert(ranges@.take(i + 1).drop_last() =~= ranges@.take(i as int));
            if !route_one(&self.rules, &ranges[i], &mut out) {
                proof {
                    lemma_apply_fits_prefix(self.rules@, ranges@, i + 1);
                }
                return None;
            }
            i = i + 1;
        }
        assert(ranges@.take(i as int) =~= ranges@);
        Some(out)
    }
}

/// What a category table holds, as plain values.
pub struct TableView {
    pub src: Seq<u8>,
    pub dst: Seq<u8>,
    pub rules: Seq<Mapping>,
}

impl View for CategoryTable {
    type V = TableView;

    open spec fn view(&self) -> TableView {
        TableView { src: self.src@, dst: self.dst@, rules: self.rules@ }
    }
}

/// The conversion graph seen as plain values, one entry per table.
pub open spec fn graph_view(g: Seq<CategoryTable>) -> Seq<TableView> {
    g.map_values(|t: CategoryTable| t@)
}

/// Source category of each table, in order.
pub open spec fn sources(g: Seq<TableView>) -> Seq<Seq<u8>> {
    g.map_values(|t: TableView| t.src)
}

/// A well-formed graph: no two tables share a source category, and every rule
/// is well formed.
pub open spec fn graph_wf(g: Seq<TableView>) -> bool {
    &&& sources(g).no_duplicates()
    &&& forall|i: int| 0 <= i < g.len() ==> rules_wf(#[trigger] g[i].rules)
}

/// Index of the first table whose source category is `name`, searching from `i`.
pub open spec fn find_table_from(g: Seq<TableView>, name: Seq<u8>, i: int) -> Option<int>
    decreases g.len() - i,
{
    if i < 0 || i >= g.len() {
        None
    } else if g[i].src == name {
        Some(i)
    } else {
        find_table_from(g, name, i + 1)
    }
}

/// Index of the table whose source category is `name`, if there is one.
pub open spec fn find_table(g: Seq<TableView>, name: Seq<u8>) -> Option<int> {
    find_table_from(g, name, 0)
}

/// The lowest start among the ranges of `s`, or `None` when `s` is empty.
pub open spec fn min_start(s: Seq<Range<u64>>) -> Option<u64>
    decreases s.len(),
{
    if s.len() == 0 {
        None
    } else {
        match min_start(s.drop_last()) {
            None => Some(s.last().start),
            Some(m) => if s.last().start < m {
                Some(s.last().start)
            } else {
                Some(m)
            },
        }
    }
}

/// How a traversal of the conversion graph ends.
pub enum Outcome {
    /// The terminal category was reached; the lowest start found there.
    Lowest(u64),
    /// No table has this category as its source.
    Lookup(Seq<u8>),
    /// This category was reached a second time.
    Cycle(Seq<u8>),
    /// The terminal category was reached with no range left.
    Empty,
    /// A seed range is empty or does not fit in `u64`.
    BadSeeds,
    /// The table of this category sends a range reaching it past `u64`.
    Overflow(Seq<u8>),
}

/// The traversal from the last category of `visited`, holding `ranges`, with
/// the categories of `visited` already seen. Each step applies the table of
/// the current category; it stops at `terminal`, at a category without table,
/// at a table that sends a range past `u64`, or at a category seen before.
pub open spec fn resolve_from(
    g: Seq<TableView>,
    ranges: Seq<Range<u64>>,
    visited: Seq<Seq<u8>>,
    terminal: Seq<u8>,
) -> Outcome
    decreases g.len() + 1 - visited.len(),
{
    if visited.len() == 0 {
        Outcome::Empty
    } else {
        match find_table(g, visited.last()) {
            None => Outcome::Lookup(visited.last()),
            Some(i) => {
                let next = apply_rules(g[i].rules, ranges);
                let dst = g[i].dst;
                if !apply_fits(g[i].rules, ranges) {
                    Outcome::Overflow(visited.last())
                } else if dst == terminal {
                    match min_start(next) {
                        Some(m) => Outcome::Lowest(m),
                        None => Outcome::Empty,
                    }
                } else if visited.contains(dst) || visited.len() > g.len() {
                    // With more categories seen than there are tables, one of
                    // them repeats: the second case never arises on its own.
                    Outcome::Cycle(dst)
                } else {
                    resolve_from(g, next, visited.push(dst), terminal)
                }
            },
        }
    }
}

/// Why a traversal of the conversion graph failed.
#[derive(Debug)]
pub enum ResolveError {
    /// No table has this category as its source.
    Lookup(Vec<u8>),
    /// This category was reached a second time.
    Cycle(Vec<u8>),
    /// The terminal category was reached with no range left.
    EmptyResult,
    /// A seed range is empty or does not fit in `u64`.
    BadSeedRange,
    /// The table of this category sends a range reaching it past `u64`.
    Overflow(Vec<u8>),
}

/// The outcome that a result of `resolve` stands for.
pub open spec fn outcome_of(r: Result<u64, ResolveError>) -> Outcome {
    match r {
        Ok(m) => Outcome::Lowest(m),
        Err(ResolveError::Lookup(c)) => Outcome::Lookup(c@),
        Err(ResolveError::Cycle(c)) => Outcome::Cycle(c@),
        Err(ResolveError::EmptyResult) => Outcome::Empty,
        Err(ResolveError::BadSeedRange) => Outcome::BadSeeds,
        Err(ResolveError::Overflow(c)) => Outcome::Overflow(c@),
    }
}

/// Index of the table whose source category is `name`.
fn lookup(graph: &Vec<CategoryTable>, name: &Vec<u8>) -> (r: Option<usize>)
    ensures
        r matches Some(i) ==> find_table(graph_view(graph@), name@) == Some(i as int),
        r is None ==> find_table(graph_view(graph@), name@) is None,
{
    let ghost g = graph_view(graph@);
    let mut i: usize = 0;
    while i < graph.len()
        invariant
            g == graph_view(graph@),
            i <= graph@.len(),
            find_table(g, name@) == find_table_from(g, name@, i as int),
        decreases graph@.len() - i,
    {
        if same_bytes(graph[i].src.as_slice(), name.as_slice()) {
            return Some(i);
        }
        i = i + 1;
    }
    None
}

/// Whether `name` is one of `names`.
fn contains_name(names: &Vec<Vec<u8>>, name: &Vec<u8>) -> (r: bool)
    ensures
        r == bytes_view(names@).contains(name@),
{
    let mut i: usize = 0;
    while i < names.len()
        invariant
            i <= names@.len(),
            forall|k: int| 0 <= k < i ==> bytes_view(names@)[k] != name@,
        decreases names@.len() - i,
    {
        if same_bytes(names[i].as_slice(), name.as_slice()) {
            assert(bytes_view(names@)[i as int] == name@);
            return true;
        }
        i = i + 1;
    }
    false
}

/// The lowest start among `ranges`, or `None` when there is no range.
pub fn lowest_start(ranges: &Vec<Range<u64>>) -> (r: Option<u64>)
    ensures
        r == min_start(ranges@),
        r is None <==> ranges@.len() == 0,
        r matches Some(m) ==> (exists|i: int| 0 <= i < ranges@.len() && ranges@[i].start == m)
            && (forall|i: int| 0 <= i < ranges@.len() ==> m <= #[trigger] ranges@[i].start),
{
    let mut best: Option<u64> = None;
    let mut i: usize = 0;
    while i < ranges.len()
        invariant
            i <= ranges@.len(),
            best == min_start(ranges@.take(i as int)),
        decreases ranges@.len() - i,
    {
        assert(ranges@.take(i + 1).drop_last() =~= ranges@.take(i as int));
        let s = ranges[i].start;
        best = match best {
            None => Some(s),
            Some(m) => if s < m {
                Some(s)
            } else {
                Some(m)
            },
        };
        i = i + 1;
    }
    assert(ranges@.take(i as int) =~= ranges@);
    proof {
        lemma_min_start(ranges@);
    }
    best
}

/// `min_start` is present exactly on non-empty sequences, is one of the starts,
/// and is below all of them.
proof fn lemma_min_start(s: Seq<Range<u64>>)
    ensures
        min_start(s) is None <==> s.len() == 0,
        min_start(s) matches Some(m) ==> (exists|i: int| 0 <= i < s.len() && s[i].start == m)
            && (forall|i: int| 0 <= i < s.len() ==> m <= #[trigger] s[i].start),
    decreases s.len(),
{
    if s.len() > 0 {
        let p = s.drop_last();
        lemma_min_start(p);
        match min_start(p) {
            None => {
                assert(s[s.len() - 1].start == s.last().start);
            },
            Some(m) => {
                let j = choose|j: int| 0 <= j < p.len() && p[j].start == m;
                assert(s[j] == p[j]);
                assert(s[s.len() - 1].start == s.last().start);
                assert forall|i: int| 0 <= i < s.len() implies min_start(s).unwrap() <= #[trigger] s[i].start by {
                    if i < s.len() - 1 {
                        assert(s[i] == p[i]);
                    }
                }
            },
        }
    }
}

/// Categories that are all sources of tables and pairwise distinct are no more
/// numerous than the tables.
proof fn lemma_visited_bounded(g: Seq<TableView>, visited: Seq<Seq<u8>>)
    requires
        visited.no_duplicates(),
        forall|k: int| 0 <= k < visited.len() ==> find_table(g, #[trigger] visited[k]) is Some,
    ensures
        visited.len() <= g.len(),
{
    let keys = sources(g);
    assert forall|x: Seq<u8>| visited.to_set().contains(x) implies keys.to_set().contains(x) by {
        let k = choose|k: int| 0 <= k < visited.len() && visited[k] == x;
        let i = find_table(g, visited[k]).unwrap();
        lemma_find_table_from(g, visited[k], 0);
        assert(keys[i] == x);
    }
    visited.unique_seq_to_set();
    keys.lemma_cardinality_of_set();
    vstd::set_lib::lemma_len_subset(visited.to_set(), keys.to_set());
}

/// A table found from `i` is at or after `i` and has the name searched for; a
/// search that fails finds no such table from `i` on.
proof fn lemma_find_table_from(g: Seq<TableView>, name: Seq<u8>, i: int)
    requires
        0 <= i,
    ensures
        find_table_from(g, name, i) matches Some(j) ==> i <= j < g.len() && g[j].src == name,
        find_table_from(g, name, i) is None ==> forall|j: int| i <= j < g.len() ==> g[j].src != name,
    decreases g.len() - i,
{
    if i < g.len() && g[i].src != name {
        lemma_find_table_from(g, name, i + 1);
    }
}

/// Pushes `ranges` through the graph from category `start`, table after
/// table, until the category `terminal` is reached, and returns the lowest
/// start among the ranges there.
pub fn resolve(
    graph: &Vec<CategoryTable>,
    ranges: Vec<Range<u64>>,
    start: &Vec<u8>,
    terminal: &Vec<u8>,
) -> (r: Result<u64, ResolveError>)
    requires
        graph_wf(graph_view(graph@)),
    ensures
        outcome_of(r) == resolve_from(graph_view(graph@), ranges@, seq![start@], terminal@),
{
    let ghost g = graph_view(graph@);
    let mut current = ranges;
    let mut visited: Vec<Vec<u8>> = Vec::new();
    visited.push(copy_bytes(start));
    assert(bytes_view(visited@) =~= seq![start@]);
    let mut cur: usize = 0;
    loop
        invariant
            g == graph_view(graph@),
            graph_wf(g),
            visited@.len() > 0,
            cur < visited@.len(),
            cur == visited@.len() - 1,
            bytes_view(visited@).no_duplicates(),
            visited@.len() <= g.len() + 1,
            forall|k: int| 0 <= k < visited@.len() - 1 ==> find_table(g, #[trigger] bytes_view(visited@)[k]) is Some,
            resolve_from(g, current@, bytes_view(visited@), terminal@) == resolve_from(g, ranges@, seq![start@], terminal@),
        decreases g.len() + 1 - visited@.len(),
    {
        let ghost vis = bytes_view(visited@);
        assert(vis.last() == visited[cur as int]@);
        let idx = match lookup(graph, &visited[cur]) {
            Some(i) => i,
            None => {
                return Err(ResolveError::Lookup(copy_bytes(&visited[cur])));
            },
        };
        proof {
            lemma_find_table_from(g, vis.last(), 0);
            assert(g[idx as int] == graph@[idx as int]@);
        }
        let table = &graph[idx];
        let next = match table.apply(&current) {
            Some(next) => next,
            None => {
                return Err(ResolveError::Overflow(copy_bytes(&visited[cur])));
            },
        };
        if same_bytes(table.dst.as_slice(), terminal.as_slice()) {
            return match lowest_start(&next) {
                Some(m) => Ok(m),
                None => Err(ResolveError::EmptyResult),
            };
        }
        if contains_name(&visited, &table.dst) {
            return Err(ResolveError::Cycle(copy_bytes(&table.dst)));
        }
        proof {
            assert forall|k: int| 0 <= k < vis.len() implies find_table(g, #[trigger] vis[k]) is Some by {
                if k == vis.len() - 1 {
                    assert(vis[k] == vis.last());
                }
            }
            lemma_visited_bounded(g, vis);
        }
        visited.push(copy_bytes(&table.dst));
        proof {
            assert(bytes_view(visited@) =~= vis.push(g[idx as int].dst));
            assert(vis.push(g[idx as int].dst).no_duplicates()) by {
                assert forall|a: int, b: int| 0 <= a < b < vis.len() + 1 implies vis.push(g[idx as int].dst)[a] != vis.push(g[idx as int].dst)[b] by {
                    if b == vis.len() {
                        assert(vis[a] == vis.push(g[idx as int].dst)[a]);
                    }
                }
            }
            assert forall|k: int| 0 <= k < visited@.len() - 1 implies find_table(g, #[trigger] bytes_view(visited@)[k]) is Some by {
                assert(bytes_view(visited@)[k] == vis[k]);
            }
        }
        current = next;
        cur = visited.len() - 1;
    }
}

/// Splitting a range against a rule loses nothing and covers nothing twice:
/// a value lies in `v` exactly when it lies in a leftover piece or, inside the
/// rule's source, has its image in the mapped piece; leftover values lie
/// outside the source; the mapped piece holds exactly the images of the
/// overlap; the leftover pieces are disjoint; and the lengths of all pieces
/// add up to the length of `v`. (This holds whenever the image of the
/// overlap stays inside `u64`.)
pub proof fn lemma_split_conserves(m: Mapping, v: Range<u64>, x: int)
    requires
        m.wf(),
        m.fits(v),
        v.start <= v.end,
    ensures
        in_span(v, x) <==> (in_any(m.split(v).1, x) || (in_span(m.src, x) && m.split(v).0 is Some
            && in_span(m.split(v).0.unwrap(), m.image(x)))),
        in_any(m.split(v).1, x) ==> !in_span(m.src, x),
        m.split(v).0 matches Some(p) ==> (in_span(p, m.image(x)) <==> (in_span(v, x) && in_span(
            m.src,
            x,
        ))),
        m.split(v).0 is None ==> !(in_span(v, x) && in_span(m.src, x)),
        forall|i: int, j: int|
            0 <= i < j < m.split(v).1.len() ==> !(in_span(#[trigger] m.split(v).1[i], x) && in_span(
                #[trigger] m.split(v).1[j],
                x,
            )),
        total_len(opt_seq(m.split(v).0) + m.split(v).1) == span_len(v),
{
    let sp = m.split(v);
    let left = sp.1;
    if m.overlaps(v) {
        let before = if v.start < m.src.start {
            seq![Range { start: v.start, end: m.src.start }]
        } else {
            seq![]
        };
        let after = if m.src.end < v.end {
            seq![Range { start: m.src.end, end: v.end }]
        } else {
            seq![]
        };
        assert(left == before + after);
        lemma_total_len_concat(opt_seq(sp.0), left);
        lemma_total_len_concat(before, after);
        lemma_total_len_one(sp.0.unwrap());
        if before.len() == 1 {
            lemma_total_len_one(before[0]);
        }
        if after.len() == 1 {
            lemma_total_len_one(after[0]);
        }
        if before.len() == 1 && after.len() == 1 {
            assert(left[0] == before[0]);
            assert(left[1] == after[0]);
        } else if before.len() == 1 {
            assert(left[0] == before[0]);
        } else if after.len() == 1 {
            assert(left[0] == after[0]);
        }
        if in_span(v, x) && !in_span(m.src, x) {
            if x < m.src.start {
                assert(in_span(left[0], x));
            } else {
                assert(in_span(left[left.len() - 1], x));
            }
        }
    } else {
        assert(left[0] == v);
        assert(opt_seq(sp.0) + left =~= seq![v]);
        lemma_total_len_one(v);
        if in_span(v, x) {
            assert(in_span(left[0], x));
        }
    }
}

/// The total length of a concatenation is the sum of the totals.
proof fn lemma_total_len_concat(a: Seq<Range<u64>>, b: Seq<Range<u64>>)
    ensures
        total_len(a + b) == total_len(a) + total_len(b),
    decreases b.len(),
{
    if b.len() == 0 {
        assert(a + b =~= a);
    } else {
        lemma_total_len_concat(a, b.drop_last());
        assert((a + b).drop_last() =~= a + b.drop_last());
    }
}

/// The total length of a single range is its length.
proof fn lemma_total_len_one(r: Range<u64>)
    ensures
        total_len(seq![r]) == span_len(r),
{
    assert(seq![r].drop_last() =~= Seq::<Range<u64>>::empty());
    assert(total_len(Seq::<Range<u64>>::empty()) == 0);
    assert(seq![r].last() == r);
}

/// Every range of `s` has its start at or below its end.
pub open spec fn ordered(s: Seq<Range<u64>>) -> bool {
    forall|i: int| 0 <= i < s.len() ==> (#[trigger] s[i]).start <= s[i].end
}

/// Splitting a working set against one rule keeps its total length, and
/// leaves ordered pieces over.
proof fn lemma_split_all_conserves(m: Mapping, ws: Seq<Range<u64>>)
    requires
        m.wf(),
        ordered(ws),
        split_all_fits(m, ws),
    ensures
        total_len(split_all(m, ws).0) + total_len(split_all(m, ws).1) == total_len(ws),
        ordered(split_all(m, ws).1),
    decreases ws.len(),
{
    if ws.len() > 0 {
        let p = ws.drop_last();
        let v = ws.last();
        assert(ordered(p)) by {
            assert forall|i: int| 0 <= i < p.len() implies (#[trigger] p[i]).start <= p[i].end by {
                assert(p[i] == ws[i]);
            }
        }
        assert(split_all_fits(m, p)) by {
            assert forall|i: int| 0 <= i < p.len() implies m.fits(#[trigger] p[i]) by {
                assert(p[i] == ws[i]);
            }
        }
        assert(v == ws[ws.len() - 1]);
        lemma_split_all_conserves(m, p);
        lemma_split_conserves(m, v, 0);
        let prev = split_all(m, p);
        let cur = m.split(v);
        lemma_total_len_concat(prev.0, opt_seq(cur.0));
        lemma_total_len_concat(prev.1, cur.1);
        lemma_total_len_concat(opt_seq(cur.0), cur.1);
        let left = prev.1 + cur.1;
        assert forall|i: int| 0 <= i < left.len() implies (#[trigger] left[i]).start <= left[i].end by {
            if i >= prev.1.len() {
                assert(left[i] == cur.1[i - prev.1.len()]);
            }
        }
    }
}

/// Routing an ordered working set through rules keeps its total length.
proof fn lemma_route_conserves(rules: Seq<Mapping>, i: int, ws: Seq<Range<u64>>)
    requires
        rules_wf(rules),
        0 <= i,
        ordered(ws),
        route_fits(rules, i, ws),
    ensures
        total_len(route(rules, i, ws)) == total_len(ws),
    decreases rules.len() - i,
{
    if i < rules.len() && ws.len() > 0 {
        let step = split_all(rules[i], ws);
        lemma_split_all_conserves(rules[i], ws);
        lemma_route_conserves(rules, i + 1, step.1);
        lemma_total_len_concat(step.0, route(rules, i + 1, step.1));
    }
}

/// A table keeps the total length of the ranges pushed through it (when no
/// image leaves `u64`): with the splitting law above, no value is lost and
/// none is counted twice.
pub proof fn lemma_apply_conserves_length(rules: Seq<Mapping>, ranges: Seq<Range<u64>>)
    requires
        rules_wf(rules),
        ordered(ranges),
        apply_fits(rules, ranges),
    ensures
        total_len(apply_rules(rules, ranges)) == total_len(ranges),
    decreases ranges.len(),
{
    if ranges.len() > 0 {
        let p = ranges.drop_last();
        assert(ordered(p)) by {
            assert forall|i: int| 0 <= i < p.len() implies (#[trigger] p[i]).start <= p[i].end by {
                assert(p[i] == ranges[i]);
            }
        }
        assert(ranges.last() == ranges[ranges.len() - 1]);
        lemma_apply_conserves_length(rules, p);
        lemma_route_conserves(rules, 0, seq![ranges.last()]);
        lemma_total_len_one(ranges.last());
        lemma_total_len_concat(apply_rules(rules, p), route(rules, 0, seq![ranges.last()]));
    }
}

/// Index of the first rule, from index `i` on, whose source holds `x`.
pub open spec fn first_rule_from(rules: Seq<Mapping>, i: int, x: int) -> Option<int>
    decreases rules.len() - i,
{
    if i < 0 || i >= rules.len() {
        None
    } else if in_span(rules[i].src, x) {
        Some(i)
    } else {
        first_rule_from(rules, i + 1, x)
    }
}

/// Where the rules from index `i` on send `x`: the image under the first
/// rule whose source holds it, or `x` itself when there is none.
pub open spec fn destination_from(rules: Seq<Mapping>, i: int, x: int) -> int {
    match first_rule_from(rules, i, x) {
        Some(j) => rules[j].image(x),
        None => x,
    }
}

/// A value covered by either part is covered by the concatenation.
proof fn lemma_in_any_concat(a: Seq<Range<u64>>, b: Seq<Range<u64>>, y: int)
    requires
        in_any(a, y) || in_any(b, y),
    ensures
        in_any(a + b, y),
{
    if in_any(a, y) {
        let i = choose|i: int| 0 <= i < a.len() && in_span(#[trigger] a[i], y);
        assert((a + b)[i] == a[i]);
    } else {
        let i = choose|i: int| 0 <= i < b.len() && in_span(#[trigger] b[i], y);
        assert((a + b)[a.len() + i] == b[i]);
    }
}

/// Splitting a working set against a rule: a covered value outside the
/// rule's source stays covered by the leftovers, one inside it has its image
/// covered by the mapped pieces.
proof fn lemma_split_all_covers(m: Mapping, ws: Seq<Range<u64>>, x: int)
    requires
        m.wf(),
        in_any(ws, x),
        split_all_fits(m, ws),
    ensures
        !in_span(m.src, x) ==> in_any(split_all(m, ws).1, x),
        in_span(m.src, x) ==> in_any(split_all(m, ws).0, m.image(x)),
    decreases ws.len(),
{
    let p = ws.drop_last();
    let v = ws.last();
    let prev = split_all(m, p);
    let cur = m.split(v);
    let k = choose|k: int| 0 <= k < ws.len() && in_span(#[trigger] ws[k], x);
    assert(split_all_fits(m, p)) by {
        assert forall|i: int| 0 <= i < p.len() implies m.fits(#[trigger] p[i]) by {
            assert(p[i] == ws[i]);
        }
    }
    if k < ws.len() - 1 {
        assert(p[k] == ws[k]);
        lemma_split_all_covers(m, p, x);
        if in_span(m.src, x) {
            lemma_in_any_concat(prev.0, opt_seq(cur.0), m.image(x));
        } else {
            lemma_in_any_concat(prev.1, cur.1, x);
        }
    } else {
        assert(ws[k] == v);
        lemma_split_conserves(m, v, x);
        if in_span(m.src, x) {
            assert(opt_seq(cur.0)[0] == cur.0.unwrap());
            lemma_in_any_concat(prev.0, opt_seq(cur.0), m.image(x));
        } else {
            lemma_in_any_concat(prev.1, cur.1, x);
        }
    }
}

/// Routing a working set through the rules from index `i` on: every covered
/// value has its destination covered in the output.
proof fn lemma_route_covers(rules: Seq<Mapping>, i: int, ws: Seq<Range<u64>>, x: int)
    requires
        rules_wf(rules),
        0 <= i,
        in_any(ws, x),
        route_fits(rules, i, ws),
    ensures
        in_any(route(rules, i, ws), destination_from(rules, i, x)),
    decreases rules.len() - i,
{
    if i < rules.len() {
        let step = split_all(rules[i], ws);
        lemma_split_all_covers(rules[i], ws, x);
        if in_span(rules[i].src, x) {
            lemma_in_any_concat(step.0, route(rules, i + 1, step.1), rules[i].image(x));
        } else {
            lemma_route_covers(rules, i + 1, step.1, x);
            lemma_in_any_concat(step.0, route(rules, i + 1, step.1), destination_from(rules, i + 1, x));
        }
    }
}

/// Every value of every input range reaches a table's output at its
/// destination (when no image leaves `u64`): the image under the first rule
/// whose source holds it, or itself when no rule does.
pub proof fn lemma_apply_covers(rules: Seq<Mapping>, ranges: Seq<Range<u64>>, k: int, x: int)
    requires
        rules_wf(rules),
        apply_fits(rules, ranges),
        0 <= k < ranges.len(),
        in_span(ranges[k], x),
    ensures
        in_any(apply_rules(rules, ranges), destination_from(rules, 0, x)),
    decreases ranges.len(),
{
    let p = ranges.drop_last();
    let last = ranges.last();
    if k < ranges.len() - 1 {
        assert(p[k] == ranges[k]);
        lemma_apply_covers(rules, p, k, x);
        lemma_in_any_concat(apply_rules(rules, p), route(rules, 0, seq![last]), destination_from(rules, 0, x));
    } else {
        assert(ranges[k] == last);
        assert(seq![last][0] == last);
        lemma_route_covers(rules, 0, seq![last], x);
        lemma_in_any_concat(apply_rules(rules, p), route(rules, 0, seq![last]), destination_from(rules, 0, x));
    }
}

/// The category that the table of category `c` leads to.
pub open spec fn next_category(g: Seq<TableView>, c: Seq<u8>) -> Seq<u8> {
    g[find_table(g, c).unwrap()].dst
}

/// Whether `cats` is a chain of the graph that runs into a cycle before the
/// terminal category: each of its categories but the last has a table
/// leading to the next one, those categories are pairwise distinct, none
/// after the first is `terminal`, and the last repeats an earlier one.
pub open spec fn cycles_before(g: Seq<TableView>, cats: Seq<Seq<u8>>, terminal: Seq<u8>) -> bool {
    &&& cats.len() >= 2
    &&& forall|j: int| 0 <= j < cats.len() - 1 ==> (#[trigger] find_table(g, cats[j])) is Some
    &&& forall|j: int| 0 <= j < cats.len() - 1 ==> cats[j + 1] == #[trigger] next_category(g, cats[j])
    &&& forall|j: int| 1 <= j < cats.len() ==> #[trigger] cats[j] != terminal
    &&& cats.drop_last().no_duplicates()
    &&& cats.drop_last().contains(cats.last())
}

/// Cycle detection: following a chain that runs into a cycle before the
/// terminal category, the traversal from its first category stops and
/// reports the repeated category; only a table that sends a range past
/// `u64` on the way can end it earlier.
pub proof fn lemma_cycle_detected(
    g: Seq<TableView>,
    ranges: Seq<Range<u64>>,
    cats: Seq<Seq<u8>>,
    terminal: Seq<u8>,
)
    requires
        cycles_before(g, cats, terminal),
    ensures
        resolve_from(g, ranges, seq![cats[0]], terminal) == Outcome::Cycle(cats.last())
            || resolve_from(g, ranges, seq![cats[0]], terminal) is Overflow,
{
    assert(cats.take(1) =~= seq![cats[0]]);
    lemma_cycle_from(g, ranges, cats, terminal, 0);
}

/// The cycle law from the `j`-th category of the chain on, with the
/// categories before it already seen.
proof fn lemma_cycle_from(
    g: Seq<TableView>,
    ranges: Seq<Range<u64>>,
    cats: Seq<Seq<u8>>,
    terminal: Seq<u8>,
    j: int,
)
    requires
        cycles_before(g, cats, terminal),
        0 <= j <= cats.len() - 2,
    ensures
        resolve_from(g, ranges, cats.take(j + 1), terminal) == Outcome::Cycle(cats.last())
            || resolve_from(g, ranges, cats.take(j + 1), terminal) is Overflow,
    decreases cats.len() - j,
{
    let visited = cats.take(j + 1);
    let k = cats.len() - 2;
    assert(visited.last() == cats[j]);
    assert(find_table(g, cats[j]) is Some);
    let i = find_table(g, cats[j]).unwrap();
    assert(cats[j + 1] == next_category(g, cats[j]));
    assert(cats[j + 1] != terminal);
    let next = apply_rules(g[i].rules, ranges);
    if apply_fits(g[i].rules, ranges) {
        if j == k {
            assert(visited =~= cats.drop_last());
            assert(cats[j + 1] == cats.last());
        } else {
            assert(!visited.contains(cats[j + 1])) by {
                if visited.contains(cats[j + 1]) {
                    let x = choose|x: int| 0 <= x < visited.len() && visited[x] == cats[j + 1];
                    assert(cats.drop_last()[x] == cats.drop_last()[j + 1]);
                }
            }
            assert(visited.no_duplicates()) by {
                assert forall|a: int, b: int| 0 <= a < b < visited.len() implies visited[a] != visited[b] by {
                    assert(cats.drop_last()[a] == visited[a]);
                    assert(cats.drop_last()[b] == visited[b]);
                }
            }
            assert forall|x: int| 0 <= x < visited.len() implies find_table(g, #[trigger] visited[x]) is Some by {
                assert(visited[x] == cats[x]);
            }
            lemma_visited_bounded(g, visited);
            assert(visited.push(cats[j + 1]) =~= cats.take(j + 2));
            lemma_cycle_from(g, next, cats, terminal, j + 1);
        }
    }
}

/// A rule set that overlaps no part of `r` routes it through unchanged.
proof fn lemma_route_untouched(rules: Seq<Mapping>, i: int, r: Range<u64>)
    requires
        0 <= i,
        forall|k: int| 0 <= k < rules.len() ==> !(#[trigger] rules[k]).overlaps(r),
    ensures
        route(rules, i, seq![r]) == seq![r],
    decreases rules.len() - i,
{
    if i < rules.len() {
        let step = split_all(rules[i], seq![r]);
        assert(seq![r].drop_last() =~= seq![]);
        assert(split_all(rules[i], seq![r].drop_last()) == (Seq::<Range<u64>>::empty(), Seq::<Range<u64>>::empty()));
        assert(step.0 =~= seq![]);
        assert(step.1 =~= seq![r]);
        lemma_route_untouched(rules, i + 1, r);
        assert(step.0 + route(rules, i + 1, step.1) =~= seq![r]);
    }
}

/// A range that no rule of a table overlaps comes out of the table unchanged.
pub proof fn lemma_identity_pass_through(rules: Seq<Mapping>, ranges: Seq<Range<u64>>, k: int)
    requires
        0 <= k < ranges.len(),
        forall|i: int| 0 <= i < rules.len() ==> !(#[trigger] rules[i]).overlaps(ranges[k]),
    ensures
        apply_rules(rules, ranges).contains(ranges[k]),
    decreases ranges.len(),
{
    let prefix = ranges.drop_last();
    if k == ranges.len() - 1 {
        lemma_route_untouched(rules, 0, ranges[k]);
        let out = apply_rules(rules, ranges);
        assert(out[out.len() - 1] == ranges[k]);
    } else {
        assert(prefix[k] == ranges[k]);
        lemma_identity_pass_through(rules, prefix, k);
        let head = apply_rules(rules, prefix);
        let j = choose|j: int| 0 <= j < head.len() && head[j] == ranges[k];
        assert(apply_rules(rules, ranges)[j] == head[j]);
    }
}

/// The category where every traversal starts: `seed`.
pub open spec fn seed_name() -> Seq<u8> {
    seq![115u8, 101, 101, 100]
}

/// The terminal category: `location`.
pub open spec fn location_name() -> Seq<u8> {
    seq![108u8, 111, 99, 97, 116, 105, 111, 110]
}

/// The title of the seed block: `seeds`.
pub open spec fn seeds_title() -> Seq<u8> {
    seq![115u8, 101, 101, 100, 115]
}

/// The word that ends a table title: `map`.
pub open spec fn map_word() -> Seq<u8> {
    seq![109u8, 97, 112]
}

/// What separates the two categories of a table title: `-to-`.
pub open spec fn to_separator() -> Seq<u8> {
    seq![45u8, 116, 111, 45]
}

fn seed_bytes() -> (r: Vec<u8>)
    ensures
        r@ == seed_name(),
{
    let r: Vec<u8> = vec![115u8, 101, 101, 100];
    assert(r@ =~= seed_name());
    r
}

fn location_bytes() -> (r: Vec<u8>)
    ensures
        r@ == location_name(),
{
    let r: Vec<u8> = vec![108u8, 111, 99, 97, 116, 105, 111, 110];
    assert(r@ =~= location_name());
    r
}

/// Why puzzle text could not be read.
#[derive(Debug)]
pub enum ParseError {
    /// A block's first line has no `:`.
    MissingColon,
    /// A block's title is neither `seeds` nor `<source>-to-<destination> map`.
    UnknownTitle,
    /// A line holds something other than the numbers expected there.
    BadNumber,
    /// A rule line does not hold exactly three numbers, or its source range
    /// does not fit in `u64`.
    BadRule,
    /// Two tables have this source category.
    DuplicateCategory(Vec<u8>),
    /// No block lists the seeds.
    MissingSeeds,
}

/// Why puzzle text could not be read, as plain values.
pub enum ParseFailure {
    MissingColon,
    UnknownTitle,
    BadNumber,
    BadRule,
    DuplicateCategory(Seq<u8>),
    MissingSeeds,
}

/// The failure that a parse error stands for.
pub open spec fn failure_of(e: ParseError) -> ParseFailure {
    match e {
        ParseError::MissingColon => ParseFailure::MissingColon,
        ParseError::UnknownTitle => ParseFailure::UnknownTitle,
        ParseError::BadNumber => ParseFailure::BadNumber,
        ParseError::BadRule => ParseFailure::BadRule,
        ParseError::DuplicateCategory(c) => ParseFailure::DuplicateCategory(c@),
        ParseError::MissingSeeds => ParseFailure::MissingSeeds,
    }
}

/// The numbers written by the words `ws`, if each is a number.
pub open spec fn parse_numbers(ws: Seq<Seq<u8>>) -> Option<Seq<u64>>
    decreases ws.len(),
{
    if ws.len() == 0 {
        Some(seq![])
    } else {
        match (parse_numbers(ws.drop_last()), parse_number(ws.last())) {
            (Some(ns), Some(n)) => Some(ns.push(n)),
            _ => None,
        }
    }
}

/// The rule written on `line`: `destination source length`.
pub open spec fn parse_rule(line: Seq<u8>) -> Result<Mapping, ParseFailure> {
    let w = words(line);
    if w.len() != 3 {
        Err(ParseFailure::BadRule)
    } else {
        match (parse_number(w[0]), parse_number(w[1]), parse_number(w[2])) {
            (Some(d), Some(s), Some(n)) => if s + n > u64::MAX {
                Err(ParseFailure::BadRule)
            } else {
                Ok(Mapping { src: Range { start: s, end: (s + n) as u64 }, dst: d })
            },
            _ => Err(ParseFailure::BadNumber),
        }
    }
}

/// The rules written on the lines `ls`, or the first line's failure.
pub open spec fn parse_rules(ls: Seq<Seq<u8>>) -> Result<Seq<Mapping>, ParseFailure>
    decreases ls.len(),
{
    if ls.len() == 0 {
        Ok(seq![])
    } else {
        match parse_rules(ls.drop_last()) {
            Err(e) => Err(e),
            Ok(rs) => match parse_rule(ls.last()) {
                Err(e) => Err(e),
                Ok(r) => Ok(rs.push(r)),
            },
        }
    }
}

/// What one block of puzzle text declares.
pub enum Block {
    Seeds(Seq<u64>),
    Table(TableView),
}

/// The words of the lines `ls`, one line after the other.
pub open spec fn lines_words(ls: Seq<Seq<u8>>) -> Seq<Seq<u8>>
    decreases ls.len(),
{
    if ls.len() == 0 {
        seq![]
    } else {
        lines_words(ls.drop_last()) + words(ls.last())
    }
}

/// The block written on the lines `b`. Its first line is a title and a `:`;
/// the seed numbers follow the `:`, on that line and the lines after it; the
/// lines of a table block that follow its title are its rules.
pub open spec fn parse_block(b: Seq<Seq<u8>>) -> Result<Block, ParseFailure> {
    if b.len() == 0 {
        Err(ParseFailure::MissingColon)
    } else {
        let header = b[0];
        match find_byte_from(header, 58, 0) {
            None => Err(ParseFailure::MissingColon),
            Some(c) => {
                let title = header.take(c);
                let rest = header.skip(c + 1);
                if title == seeds_title() {
                    match parse_numbers(words(rest) + lines_words(b.drop_first())) {
                        None => Err(ParseFailure::BadNumber),
                        Some(ns) => Ok(Block::Seeds(ns)),
                    }
                } else {
                    match find_byte_from(title, 32, 0) {
                        None => Err(ParseFailure::UnknownTitle),
                        Some(sp) => {
                            let name = title.take(sp);
                            if title.skip(sp + 1) != map_word() || words(rest).len() != 0 {
                                Err(ParseFailure::UnknownTitle)
                            } else {
                                match find_from(name, to_separator(), 0) {
                                    None => Err(ParseFailure::UnknownTitle),
                                    Some(t) => match parse_rules(b.drop_first()) {
                                        Err(e) => Err(e),
                                        Ok(rules) => Ok(
                                            Block::Table(
                                                TableView {
                                                    src: name.take(t),
                                                    dst: name.skip(t + 4),
                                                    rules,
                                                },
                                            ),
                                        ),
                                    },
                                }
                            }
                        },
                    }
                }
            },
        }
    }
}

/// The seeds (of the last seed block, if any) and tables that the blocks `bs`
/// declare, or the first failure met reading them in order.
pub open spec fn parse_blocks(bs: Seq<Seq<Seq<u8>>>) -> Result<(Option<Seq<u64>>, Seq<TableView>), ParseFailure>
    decreases bs.len(),
{
    if bs.len() == 0 {
        Ok((None, seq![]))
    } else {
        match parse_blocks(bs.drop_last()) {
            Err(e) => Err(e),
            Ok(acc) => match parse_block(bs.last()) {
                Err(e) => Err(e),
                Ok(Block::Seeds(ns)) => Ok((Some(ns), acc.1)),
                Ok(Block::Table(t)) => if sources(acc.1).contains(t.src) {
                    Err(ParseFailure::DuplicateCategory(t.src))
                } else {
                    Ok((acc.0, acc.1.push(t)))
                },
            },
        }
    }
}

/// The puzzle as plain values.
pub struct DayView {
    pub seeds: Seq<u64>,
    pub tables: Seq<TableView>,
}

/// What the text `input` describes: its paragraphs read as blocks.
pub open spec fn parse_input(input: Seq<u8>) -> Result<DayView, ParseFailure> {
    match parse_blocks(paragraphs(lines(input))) {
        Err(e) => Err(e),
        Ok((None, _)) => Err(ParseFailure::MissingSeeds),
        Ok((Some(seeds), tables)) => Ok(DayView { seeds, tables }),
    }
}

/// The seeds and the conversion graph of the puzzle.
pub struct Day {
    pub seeds: Vec<u64>,
    pub mappings: Vec<CategoryTable>,
}

impl View for Day {
    type V = DayView;

    open spec fn view(&self) -> DayView {
        DayView { seeds: self.seeds@, tables: graph_view(self.mappings@) }
    }
}

/// The outcome of parsing, as plain values.
pub open spec fn parsed_view(r: Result<Day, ParseError>) -> Result<DayView, ParseFailure> {
    match r {
        Ok(d) => Ok(d@),
        Err(e) => Err(failure_of(e)),
    }
}

fn parse_numbers_exec(ws: &Vec<Vec<u8>>) -> (r: Option<Vec<u64>>)
    ensures
        r matches Some(v) ==> parse_numbers(bytes_view(ws@)) == Some(v@),
        r is None ==> parse_numbers(bytes_view(ws@)) is None,
{
    let ghost wv = bytes_view(ws@);
    let mut out: Vec<u64> = Vec::new();
    let mut i: usize = 0;
    while i < ws.len()
        invariant
            wv == bytes_view(ws@),
            i <= ws@.len(),
            parse_numbers(wv.take(i as int)) == Some(out@),
        decreases ws@.len() - i,
    {
        assert(wv.take(i + 1).drop_last() =~= wv.take(i as int));
        match parse_u64(ws[i].as_slice()) {
            None => {
                proof {
                    lemma_parse_numbers_prefix(wv, i as int + 1);
                }
                return None;
            },
            Some(n) => {
                out.push(n);
            },
        }
        i = i + 1;
    }
    assert(wv.take(i as int) =~= wv);
    Some(out)
}

/// Once a prefix of the words fails to parse, so do all the words.
proof fn lemma_parse_numbers_prefix(ws: Seq<Seq<u8>>, i: int)
    requires
        0 <= i <= ws.len(),
        parse_numbers(ws.take(i)) is None,
    ensures
        parse_numbers(ws) is None,
    decreases ws.len() - i,
{
    if i < ws.len() {
        assert(ws.take(i + 1).drop_last() =~= ws.take(i));
        lemma_parse_numbers_prefix(ws, i + 1);
    } else {
        assert(ws.take(i) =~= ws);
    }
}

impl Mapping {
    /// Reads a rule from its line: `destination source length`.
    pub fn from_str(line: &[u8]) -> (r: Result<Mapping, ParseError>)
        ensures
            match r {
                Ok(m) => parse_rule(line@) == Ok::<Mapping, ParseFailure>(m),
                Err(e) => parse_rule(line@) == Err::<Mapping, ParseFailure>(failure_of(e)),
            },
    {
        let w = split_words(line);
        if w.len() != 3 {
            return Err(ParseError::BadRule);
        }
        let d = parse_u64(w[0].as_slice());
        let s = parse_u64(w[1].as_slice());
        let n = parse_u64(w[2].as_slice());
        match (d, s, n) {
            (Some(d), Some(s), Some(n)) => {
                if s > u64::MAX - n {
                    Err(ParseError::BadRule)
                } else {
                    Ok(Mapping { src: Range { start: s, end: s + n }, dst: d })
                }
            },
            _ => Err(ParseError::BadNumber),
        }
    }
}

fn parse_rules_exec(ls: &Vec<Vec<u8>>, from: usize) -> (r: Result<Vec<Mapping>, ParseError>)
    requires
        from <= ls@.len(),
    ensures
        match r {
            Ok(v) => parse_rules(bytes_view(ls@).skip(from as int)) == Ok::<Seq<Mapping>, ParseFailure>(v@),
            Err(e) => parse_rules(bytes_view(ls@).skip(from as int)) == Err::<Seq<Mapping>, ParseFailure>(failure_of(e)),
        },
{
    let ghost lv = bytes_view(ls@).skip(from as int);
    let mut out: Vec<Mapping> = Vec::new();
    let mut i: usize = from;
    while i < ls.len()
        invariant
            lv == bytes_view(ls@).skip(from as int),
            from <= i <= ls@.len(),
            parse_rules(lv.take(i - from)) == Ok::<Seq<Mapping>, ParseFailure>(out@),
        decreases ls@.len() - i,
    {
        assert(lv.take(i + 1 - from).drop_last() =~= lv.take(i - from));
        assert(lv.take(i + 1 - from).last() == ls@[i as int]@);
        match Mapping::from_str(ls[i].as_slice()) {
            Err(e) => {
                proof {
                    lemma_parse_rules_prefix(lv, i + 1 - from, failure_of(e));
                }
                return Err(e);
            },
            Ok(m) => {
                out.push(m);
            },
        }
        i = i + 1;
    }
    assert(lv.take(i - from) =~= lv);
    Ok(out)
}

/// Once a prefix of the lines fails, all the lines fail the same way.
proof fn lemma_parse_rules_prefix(ls: Seq<Seq<u8>>, i: int, e: ParseFailure)
    requires
        0 <= i <= ls.len(),
        parse_rules(ls.take(i)) == Err::<Seq<Mapping>, ParseFailure>(e),
    ensures
        parse_rules(ls) == Err::<Seq<Mapping>, ParseFailure>(e),
    decreases ls.len() - i,
{
    if i < ls.len() {
        assert(ls.take(i + 1).drop_last() =~= ls.take(i));
        lemma_parse_rules_prefix(ls, i + 1, e);
    } else {
        assert(ls.take(i) =~= ls);
    }
}

/// What one block declares, in executable form.
enum ParsedBlock {
    Seeds(Vec<u64>),
    Table(CategoryTable),
}

spec fn parsed_block_view(b: ParsedBlock) -> Block {
    match b {
        ParsedBlock::Seeds(v) => Block::Seeds(v@),
        ParsedBlock::Table(t) => Block::Table(t@),
    }
}

fn parse_block_exec(b: &Vec<Vec<u8>>) -> (r: Result<ParsedBlock, ParseError>)
    ensures
        match r {
            Ok(pb) => parse_block(bytes_view(b@)) == Ok::<Block, ParseFailure>(parsed_block_view(pb)),
            Err(e) => parse_block(bytes_view(b@)) == Err::<Block, ParseFailure>(failure_of(e)),
        },
{
    let ghost bv = bytes_view(b@);
    if b.len() == 0 {
        return Err(ParseError::MissingColon);
    }
    let header = b[0].as_slice();
    assert(header@ == bv[0]);
    let c = match find_byte(header, 58) {
        None => {
            return Err(ParseError::MissingColon);
        },
        Some(c) => c,
    };
    proof {
        crate::text::lemma_find_byte(header@, 58, 0);
    }
    let hl: usize = header.len();
    assert(c < hl);
    let title = slice_to_vec(header, 0, c);
    let rest = slice_to_vec(header, c + 1, hl);
    assert(title@ =~= bv[0].take(c as int));
    assert(rest@ =~= bv[0].skip(c + 1));
    let seeds_word: Vec<u8> = vec![115u8, 101, 101, 100, 115];
    assert(seeds_word@ =~= seeds_title());
    let rest_words = split_words(rest.as_slice());
    if same_bytes(title.as_slice(), seeds_word.as_slice()) {
        let mut all = split_words(rest.as_slice());
        let mut li: usize = 1;
        assert(bv.subrange(1, 1) =~= Seq::<Seq<u8>>::empty());
        assert(bytes_view(all@) =~= words(rest@) + lines_words(bv.subrange(1, 1)));
        while li < b.len()
            invariant
                bv == bytes_view(b@),
                1 <= li <= b@.len(),
                bytes_view(all@) == words(rest@) + lines_words(bv.subrange(1, li as int)),
            decreases b@.len() - li,
        {
            let mut more = split_words(b[li].as_slice());
            let ghost before = bytes_view(all@);
            let ghost extra = bytes_view(more@);
            all.append(&mut more);
            assert(bv.subrange(1, li + 1).drop_last() =~= bv.subrange(1, li as int));
            assert(bv.subrange(1, li + 1).last() == b@[li as int]@);
            assert(bytes_view(all@) =~= before + extra);
            li = li + 1;
        }
        assert(bv.subrange(1, bv.len() as int) =~= bv.drop_first());
        return match parse_numbers_exec(&all) {
            None => Err(ParseError::BadNumber),
            Some(ns) => Ok(ParsedBlock::Seeds(ns)),
        };
    }
    let sp = match find_byte(title.as_slice(), 32) {
        None => {
            return Err(ParseError::UnknownTitle);
        },
        Some(sp) => sp,
    };
    proof {
        crate::text::lemma_find_byte(title@, 32, 0);
    }
    let name = slice_to_vec(title.as_slice(), 0, sp);
    let kind = slice_to_vec(title.as_slice(), sp + 1, title.len());
    assert(name@ =~= title@.take(sp as int));
    assert(kind@ =~= title@.skip(sp + 1));
    let map_bytes: Vec<u8> = vec![109u8, 97, 112];
    assert(map_bytes@ =~= map_word());
    if !same_bytes(kind.as_slice(), map_bytes.as_slice()) || rest_words.len() != 0 {
        return Err(ParseError::UnknownTitle);
    }
    let sep: Vec<u8> = vec![45u8, 116, 111, 45];
    assert(sep@ =~= to_separator());
    let t = match find(name.as_slice(), sep.as_slice()) {
        None => {
            return Err(ParseError::UnknownTitle);
        },
        Some(t) => t,
    };
    proof {
        lemma_find_from_bounds(name@, to_separator(), 0);
    }
    let rules = match parse_rules_exec(b, 1) {
        Err(e) => {
            assert(bytes_view(b@).skip(1) =~= bv.drop_first());
            return Err(e);
        },
        Ok(rules) => rules,
    };
    assert(bytes_view(b@).skip(1) =~= bv.drop_first());
    let src = slice_to_vec(name.as_slice(), 0, t);
    let dst = slice_to_vec(name.as_slice(), t + 4, name.len());
    assert(src@ =~= name@.take(t as int));
    assert(dst@ =~= name@.skip(t + 4));
    Ok(ParsedBlock::Table(CategoryTable { src, dst, rules }))
}

/// Once a prefix of the blocks fails, all the blocks fail the same way.
proof fn lemma_parse_blocks_prefix(bs: Seq<Seq<Seq<u8>>>, i: int, e: ParseFailure)
    requires
        0 <= i <= bs.len(),
        parse_blocks(bs.take(i)) == Err::<(Option<Seq<u64>>, Seq<TableView>), ParseFailure>(e),
    ensures
        parse_blocks(bs) == Err::<(Option<Seq<u64>>, Seq<TableView>), ParseFailure>(e),
    decreases bs.len() - i,
{
    if i < bs.len() {
        assert(bs.take(i + 1).drop_last() =~= bs.take(i));
        lemma_parse_blocks_prefix(bs, i + 1, e);
    } else {
        assert(bs.take(i) =~= bs);
    }
}

/// Tables read by `parse_blocks` have distinct sources and well-formed rules.
proof fn lemma_parse_blocks_wf(bs: Seq<Seq<Seq<u8>>>)
    ensures
        parse_blocks(bs) matches Ok(acc) ==> graph_wf(acc.1),
    decreases bs.len(),
{
    if bs.len() > 0 {
        lemma_parse_blocks_wf(bs.drop_last());
        let b = bs.last();
        if let Ok(acc) = parse_blocks(bs.drop_last()) {
            if let Ok(Block::Table(t)) = parse_block(b) {
                lemma_parse_rules_wf(b.drop_first());
                let g = acc.1.push(t);
                assert(sources(g) =~= sources(acc.1).push(t.src));
                if !sources(acc.1).contains(t.src) {
                    assert forall|x: int, y: int| 0 <= x < y < sources(g).len() implies sources(g)[x] != sources(g)[y] by {
                        if y == sources(g).len() - 1 {
                            assert(sources(g)[x] == sources(acc.1)[x]);
                        }
                    }
                    assert forall|x: int| 0 <= x < g.len() implies rules_wf(#[trigger] g[x].rules) by {
                        if x < acc.1.len() {
                            assert(g[x] == acc.1[x]);
                        }
                    }
                }
            }
        }
    }
}

/// Rules read by `parse_rules` are well formed.
proof fn lemma_parse_rules_wf(ls: Seq<Seq<u8>>)
    ensures
        parse_rules(ls) matches Ok(rs) ==> rules_wf(rs),
    decreases ls.len(),
{
    if ls.len() > 0 {
        lemma_parse_rules_wf(ls.drop_last());
    }
}

impl Day {
    /// The conversion graph has distinct source categories and well-formed
    /// rules.
    pub open spec fn wf(&self) -> bool {
        graph_wf(graph_view(self.mappings@))
    }

    /// Reads puzzle text: blocks of non-empty lines, one listing the seeds
    /// (`seeds: 79 14 55 13`) and the others each a table titled
    /// `<source>-to-<destination> map:` followed by one rule per line
    /// (`destination source length`).
    pub fn parse(input: &str) -> (r: Result<Day, ParseError>)
        ensures
            parsed_view(r) == parse_input(input.spec_bytes()),
            r matches Ok(d) ==> d.wf(),
    {
        let bs = split_paragraphs(input.as_bytes());
        let ghost bv = paragraphs(lines(input.spec_bytes()));
        let mut seeds: Option<Vec<u64>> = None;
        let mut mappings: Vec<CategoryTable> = Vec::new();
        let mut i: usize = 0;
        assert(bv.take(0) =~= Seq::<Seq<Seq<u8>>>::empty());
        assert(graph_view(mappings@) =~= Seq::<TableView>::empty());
        while i < bs.len()
            invariant
                bv == paragraphs(lines(input.spec_bytes())),
                bs@.len() == bv.len(),
                forall|k: int| 0 <= k < bs@.len() ==> bytes_view(#[trigger] bs@[k]@) == bv[k],
                i <= bs@.len(),
                parse_blocks(bv.take(i as int)) == Ok::<(Option<Seq<u64>>, Seq<TableView>), ParseFailure>(
                    (
                        match seeds {
                            Some(v) => Some(v@),
                            None => None,
                        },
                        graph_view(mappings@),
                    ),
                ),
            decreases bs@.len() - i,
        {
            assert(bv.take(i + 1).drop_last() =~= bv.take(i as int));
            assert(bv.take(i + 1).last() == bv[i as int]);
            match parse_block_exec(&bs[i]) {
                Err(e) => {
                    proof {
                        assert(bytes_view(bs@[i as int]@) == bv[i as int]);
                        assert(parse_block(bv[i as int]) == Err::<Block, ParseFailure>(failure_of(e)));
                        assert(parse_blocks(bv.take(i + 1)) == Err::<(Option<Seq<u64>>, Seq<TableView>), ParseFailure>(failure_of(e)));
                        lemma_parse_blocks_prefix(bv, i + 1, failure_of(e));
                    }
                    return Err(e);
                },
                Ok(ParsedBlock::Seeds(ns)) => {
                    seeds = Some(ns);
                },
                Ok(ParsedBlock::Table(t)) => {
                    let mut names: Vec<Vec<u8>> = Vec::new();
                    let mut k: usize = 0;
                    while k < mappings.len()
                        invariant
                            k <= mappings@.len(),
                            bytes_view(names@) == sources(graph_view(mappings@)).take(k as int),
                        decreases mappings@.len() - k,
                    {
                        let ghost nv = bytes_view(names@);
                        names.push(copy_bytes(&mappings[k].src));
                        assert(bytes_view(names@) =~= nv.push(mappings@[k as int].src@));
                        assert(sources(graph_view(mappings@))[k as int] == mappings@[k as int].src@);
                        k = k + 1;
                        assert(bytes_view(names@) =~= sources(graph_view(mappings@)).take(k as int));
                    }
                    assert(sources(graph_view(mappings@)).take(k as int) =~= sources(graph_view(mappings@)));
                    if contains_name(&names, &t.src) {
                        let dup = copy_bytes(&t.src);
                        proof {
                            lemma_parse_blocks_prefix(bv, i + 1, ParseFailure::DuplicateCategory(dup@));
                        }
                        return Err(ParseError::DuplicateCategory(dup));
                    }
                    let ghost before = graph_view(mappings@);
                    mappings.push(t);
                    assert(graph_view(mappings@) =~= before.push(t@));
                },
            }
            i = i + 1;
        }
        assert(bv.take(i as int) =~= bv);
        proof {
            lemma_parse_blocks_wf(bv);
        }
        match seeds {
            None => Err(ParseError::MissingSeeds),
            Some(seeds) => Ok(Day { seeds, mappings }),
        }
    }
}

/// The one-value ranges `[s, s + 1)` of the seeds `s`, unless a seed is the
/// largest `u64`.
pub open spec fn single_ranges(seeds: Seq<u64>) -> Option<Seq<Range<u64>>> {
    if exists|i: int| 0 <= i < seeds.len() && seeds[i] == u64::MAX {
        None
    } else {
        Some(Seq::new(seeds.len(), |i: int| Range { start: seeds[i], end: (seeds[i] + 1) as u64 }))
    }
}

/// Whether the `i`-th pair of seed numbers gives an empty range, or one that
/// does not fit in `u64`.
pub open spec fn bad_pair(seeds: Seq<u64>, i: int) -> bool {
    seeds[2 * i + 1] == 0 || seeds[2 * i] + seeds[2 * i + 1] > u64::MAX
}

/// The ranges `[start, start + length)` of the seed numbers read two at a
/// time (a last unpaired number is ignored), unless one of them is empty or
/// does not fit in `u64`.
pub open spec fn paired_ranges(seeds: Seq<u64>) -> Option<Seq<Range<u64>>> {
    let n = seeds.len() / 2;
    if exists|i: int| 0 <= i < n && #[trigger] bad_pair(seeds, i) {
        None
    } else {
        Some(Seq::new(n, |i: int| Range { start: seeds[2 * i], end: (seeds[2 * i] + seeds[2 * i + 1]) as u64 }))
    }
}

/// Relies on itertools' `Itertools::tuples` for pairs: it yields the items
/// two at a time, in order, and drops a last unpaired item.
#[verifier::external_body]
fn seed_pairs(seeds: &Vec<u64>) -> (r: Vec<(u64, u64)>)
    ensures
        r@.len() == seeds@.len() / 2,
        forall|i: int| 0 <= i < r@.len() ==> (#[trigger] r@[i]) == (seeds@[2 * i], seeds@[2 * i + 1]),
{
    seeds.iter().copied().tuples().collect()
}

/// Pushes `number_ranges` from the `seed` category to the `location` category
/// and returns the lowest location reached.
pub fn compute_closest_seed_location(number_ranges: Vec<Range<u64>>, mappings: &Vec<CategoryTable>) -> (r: Result<u64, ResolveError>)
    requires
        graph_wf(graph_view(mappings@)),
    ensures
        outcome_of(r) == resolve_from(graph_view(mappings@), number_ranges@, seq![seed_name()], location_name()),
{
    let start = seed_bytes();
    let terminal = location_bytes();
    resolve(mappings, number_ranges, &start, &terminal)
}

impl Day {
    /// The lowest location reached from the seeds, each taken as a single
    /// value.
    pub fn solve_problem_1(&self) -> (r: Result<u64, ResolveError>)
        requires
            self.wf(),
        ensures
            match single_ranges(self.seeds@) {
                None => r matches Err(ResolveError::BadSeedRange),
                Some(rs) => outcome_of(r) == resolve_from(self@.tables, rs, seq![seed_name()], location_name()),
            },
    {
        let mut ranges: Vec<Range<u64>> = Vec::new();
        let mut i: usize = 0;
        while i < self.seeds.len()
            invariant
                i <= self.seeds@.len(),
                ranges@ == Seq::new(i as nat, |k: int| Range { start: self.seeds@[k], end: (self.seeds@[k] + 1) as u64 }),
                forall|k: int| 0 <= k < i ==> self.seeds@[k] != u64::MAX,
            decreases self.seeds@.len() - i,
        {
            let s = self.seeds[i];
            if s == u64::MAX {
                return Err(ResolveError::BadSeedRange);
            }
            ranges.push(Range { start: s, end: s + 1 });
            i = i + 1;
            assert(ranges@ =~= Seq::new(i as nat, |k: int| Range { start: self.seeds@[k], end: (self.seeds@[k] + 1) as u64 }));
        }
        compute_closest_seed_location(ranges, &self.mappings)
    }

    /// The lowest location reached from the seed ranges, the seed numbers read
    /// as pairs of start and length.
    pub fn solve_problem_2(&self) -> (r: Result<u64, ResolveError>)
        requires
            self.wf(),
        ensures
            match paired_ranges(self.seeds@) {
                None => r matches Err(ResolveError::BadSeedRange),
                Some(rs) => outcome_of(r) == resolve_from(self@.tables, rs, seq![seed_name()], location_name()),
            },
    {
        let pairs = seed_pairs(&self.seeds);
        let ghost sd = self.seeds@;
        let mut ranges: Vec<Range<u64>> = Vec::new();
        let mut i: usize = 0;
        while i < pairs.len()
            invariant
                sd == self.seeds@,
                pairs@.len() == sd.len() / 2,
                forall|k: int| 0 <= k < pairs@.len() ==> (#[trigger] pairs@[k]) == (sd[2 * k], sd[2 * k + 1]),
                i <= pairs@.len(),
                ranges@ == Seq::new(i as nat, |k: int| Range { start: sd[2 * k], end: (sd[2 * k] + sd[2 * k + 1]) as u64 }),
                forall|k: int| 0 <= k < i ==> !#[trigger] bad_pair(sd, k),
            decreases pairs@.len() - i,
        {
            let (start, len) = pairs[i];
            assert(pairs@[i as int] == (sd[2 * i], sd[2 * i + 1]));
            if len == 0 || start > u64::MAX - len {
                assert(bad_pair(sd, i as int));
                return Err(ResolveError::BadSeedRange);
            }
            ranges.push(Range { start, end: start + len });
            i = i + 1;
            assert(ranges@ =~= Seq::new(i as nat, |k: int| Range { start: sd[2 * k], end: (sd[2 * k] + sd[2 * k + 1]) as u64 }));
        }
        compute_closest_seed_location(ranges, &self.mappings)
    }
}

} // verus!
