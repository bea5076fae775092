//! Calorie counting: elves carry food items; find the elf, or the three
//! elves, carrying the most calories.
use crate::text::{bytes_view, lines, parse_number, parse_u64, split_lines};
use arrayvec::ArrayVec;
use vstd::prelude::*;
use vstd::string::StringSliceAdditionalSpecFns;

verus! {

/// arrayvec's fixed-capacity vector, held opaque; `slots` names what it holds.
#[verifier::external_type_specification]
#[verifier::external_body]
#[verifier::reject_recursive_types(T)]
pub struct ExArrayVec<T, const CAP: usize>(ArrayVec<T, CAP>);

/// What a four-slot `ArrayVec` of calorie totals holds, in order.
pub uninterp spec fn slots(a: ArrayVec<u64, 4>) -> Seq<u64>;

/// Relies on `ArrayVec::new`: the new array holds nothing.
#[verifier::external_body]
fn slots_new() -> (r: ArrayVec<u64, 4>)
    ensures
        slots(r) == Seq::<u64>::empty(),
{
    ArrayVec::new()
}

/// Relies on `ArrayVec::as_slice`: the slice shows the items in order.
#[verifier::external_body]
fn slots_view(a: &ArrayVec<u64, 4>) -> (r: &[u64])
    ensures
        r@ == slots(*a),
{
    a.as_slice()
}

/// Relies on `ArrayVec::insert`: the item goes to `index`, later items move
/// up by one. It panics on a full array or an index past the end, which the
/// precondition excludes.
#[verifier::external_body]
fn slots_insert(a: &mut ArrayVec<u64, 4>, index: usize, element: u64)
    requires
        index <= slots(*old(a)).len(),
        slots(*old(a)).len() < 4,
    ensures
        slots(*final(a)) == slots(*old(a)).insert(index as int, element),
{
    a.insert(index, element)
}

/// Relies on `ArrayVec::truncate`: it keeps the first `new_len` items, or
/// all of them when there are fewer.
#[verifier::external_body]
fn slots_truncate(a: &mut ArrayVec<u64, 4>, new_len: usize)
    ensures
        slots(*final(a)) == if new_len < slots(*old(a)).len() {
            slots(*old(a)).take(new_len as int)
        } else {
            slots(*old(a))
        },
{
    a.truncate(new_len)
}

/// How many of the largest totals the second part adds up.
pub const NUM_TOP_SPOTS: usize = 3;

/// A food item.
#[derive(PartialEq, Eq, Structural, Clone, Copy)]
pub struct Food {
    pub calories: u64,
}

/// An elf and the food it carries.
pub struct Elf {
    pub inventory: Vec<Food>,
}

/// Why an inventory list could not be read.
#[derive(Debug)]
pub enum ParseError {
    /// A line is not a number that fits in `u64`.
    BadCalories,
}

impl Food {
    /// Reads a food item: its calories, in decimal.
    pub fn from_str(s: &[u8]) -> (r: Result<Food, ParseError>)
        ensures
            match parse_number(s@) {
                Some(n) => r == Ok::<Food, ParseError>(Food { calories: n }),
                None => r is Err,
            },
    {
        match parse_u64(s) {
            Some(n) => Ok(Food { calories: n }),
            None => Err(ParseError::BadCalories),
        }
    }
}

/// The inventories finished so far, and the one in progress, after reading
/// the lines `ls`: each empty line ends an inventory.
pub open spec fn group_state(ls: Seq<Seq<u8>>) -> (Seq<Seq<Seq<u8>>>, Seq<Seq<u8>>)
    decreases ls.len(),
{
    if ls.len() == 0 {
        (seq![], seq![])
    } else {
        let prev = group_state(ls.drop_last());
        if ls.last().len() == 0 {
            (prev.0.push(prev.1), seq![])
        } else {
            (prev.0, prev.1.push(ls.last()))
        }
    }
}

/// The inventories of the lines `ls`: runs of lines ended by an empty line
/// or by the end of the text (where an empty run is dropped).
pub open spec fn groups(ls: Seq<Seq<u8>>) -> Seq<Seq<Seq<u8>>> {
    let st = group_state(ls);
    if st.1.len() > 0 {
        st.0.push(st.1)
    } else {
        st.0
    }
}

/// The calories of the lines of one inventory, if each is a number.
pub open spec fn parse_inventory(ls: Seq<Seq<u8>>) -> Option<Seq<u64>>
    decreases ls.len(),
{
    if ls.len() == 0 {
        Some(seq![])
    } else {
        match (parse_inventory(ls.drop_last()), parse_number(ls.last())) {
            (Some(cs), Some(c)) => Some(cs.push(c)),
            _ => None,
        }
    }
}

/// Whether every inventory of `gs` reads as numbers.
pub open spec fn all_parse(gs: Seq<Seq<Seq<u8>>>) -> bool {
    forall|i: int| 0 <= i < gs.len() ==> (#[trigger] parse_inventory(gs[i])) is Some
}

/// The calories that an elf carries, item by item.
pub open spec fn calories_of(e: Elf) -> Seq<u64> {
    e.inventory@.map_values(|f: Food| f.calories)
}

/// Sum of a sequence of calorie counts.
pub open spec fn total(s: Seq<u64>) -> nat
    decreases s.len(),
{
    if s.len() == 0 {
        0
    } else {
        total(s.drop_last()) + s.last() as nat
    }
}

/// What each elf carries in all.
pub open spec fn elf_totals(elfs: Seq<Elf>) -> Seq<nat> {
    elfs.map_values(|e: Elf| total(calories_of(e)))
}

/// The largest of the totals, if there is any.
pub open spec fn max_total(s: Seq<nat>) -> Option<nat>
    decreases s.len(),
{
    if s.len() == 0 {
        None
    } else {
        match max_total(s.drop_last()) {
            None => Some(s.last()),
            Some(m) => if s.last() > m {
                Some(s.last())
            } else {
                Some(m)
            },
        }
    }
}

/// The first position in `top` whose total is not above `x`.
pub open spec fn insert_pos(top: Seq<u64>, x: u64, i: int) -> int
    decreases top.len() - i,
{
    if i < 0 || i >= top.len() {
        top.len() as int
    } else if top[i] > x {
        insert_pos(top, x, i + 1)
    } else {
        i
    }
}

/// The best totals kept after offering `x`: it goes in before the first
/// total not above it, and only the first three are kept.
pub open spec fn offer(top: Seq<u64>, x: u64) -> Seq<u64> {
    let t = top.insert(insert_pos(top, x, 0), x);
    if t.len() > 3 {
        t.take(3)
    } else {
        t
    }
}

/// The best totals kept after offering each of `s` in turn.
pub open spec fn best_three(s: Seq<u64>) -> Seq<u64>
    decreases s.len(),
{
    if s.len() == 0 {
        seq![]
    } else {
        offer(best_three(s.drop_last()), s.last())
    }
}

/// `insert_pos` lies within the sequence.
proof fn lemma_insert_pos(top: Seq<u64>, x: u64, i: int)
    requires
        0 <= i <= top.len(),
    ensures
        i <= insert_pos(top, x, i) <= top.len(),
    decreases top.len() - i,
{
    if i < top.len() && top[i] > x {
        lemma_insert_pos(top, x, i + 1);
    }
}

/// The best totals never number more than three.
proof fn lemma_best_three_len(s: Seq<u64>)
    ensures
        best_three(s).len() <= 3,
    decreases s.len(),
{
    if s.len() > 0 {
        lemma_best_three_len(s.drop_last());
        lemma_insert_pos(best_three(s.drop_last()), s.last(), 0);
    }
}

/// Totals in non-increasing order.
pub open spec fn descending(t: Seq<u64>) -> bool {
    forall|a: int, b: int| 0 <= a < b < t.len() ==> t[a] >= t[b]
}

/// Where `insert_pos` puts `x`: after every total above it, before every
/// total not above it.
proof fn lemma_insert_pos_splits(top: Seq<u64>, x: u64, i: int)
    requires
        0 <= i <= top.len(),
        descending(top),
        forall|k: int| 0 <= k < i ==> top[k] > x,
    ensures
        forall|k: int| 0 <= k < insert_pos(top, x, i) ==> top[k] > x,
        forall|k: int| insert_pos(top, x, i) <= k < top.len() ==> top[k] <= x,
    decreases top.len() - i,
{
    lemma_insert_pos(top, x, i);
    if i < top.len() && top[i] > x {
        lemma_insert_pos_splits(top, x, i + 1);
    }
}

/// `best_three` keeps the three largest totals, largest first: it is in
/// non-increasing order, holds three totals (all of them when there are
/// fewer), takes each from `s` no more often than `s` holds it, leaves out
/// no total above the smallest one it keeps, and keeps all of `s` when `s`
/// holds at most three totals.
pub proof fn lemma_best_three_largest(s: Seq<u64>)
    ensures
        descending(best_three(s)),
        best_three(s).len() == (if s.len() < 3 {
            s.len()
        } else {
            3
        }),
        best_three(s).to_multiset().subset_of(s.to_multiset()),
        forall|y: u64|
            s.to_multiset().count(y) > best_three(s).to_multiset().count(y) ==> y <= best_three(
                s,
            ).last(),
        s.len() <= 3 ==> best_three(s).to_multiset() == s.to_multiset(),
    decreases s.len(),
{
    broadcast use vstd::multiset::group_multiset_axioms, vstd::seq_lib::group_to_multiset_ensures;

    if s.len() == 0 {
        assert(best_three(s) =~= Seq::<u64>::empty());
    } else {
        let p = s.drop_last();
        let x = s.last();
        assert(s =~= p.push(x));
        lemma_best_three_largest(p);
        let t = best_three(p);
        lemma_insert_pos(t, x, 0);
        lemma_insert_pos_splits(t, x, 0);
        let pos = insert_pos(t, x, 0);
        let u = t.insert(pos, x);
        vstd::seq_lib::to_multiset_insert(t, pos, x);
        assert(u.to_multiset() == t.to_multiset().insert(x));
        assert(descending(u)) by {
            assert forall|a: int, b: int| 0 <= a < b < u.len() implies u[a] >= u[b] by {
                if a < pos && b < pos {
                } else if a < pos && b == pos {
                } else if a < pos {
                    assert(u[b] == t[b - 1]);
                } else if a == pos {
                    assert(u[b] == t[b - 1]);
                } else {
                    assert(u[a] == t[a - 1]);
                    assert(u[b] == t[b - 1]);
                }
            }
        }
        assert(best_three(s) == offer(t, x));
        if u.len() <= 3 {
            assert(best_three(s) == u);
            assert(p.len() <= 2);
            assert(u.to_multiset() =~= s.to_multiset());
        } else {
            let r = u.take(3);
            assert(best_three(s) == r);
            assert(r =~= u.remove(3));
            vstd::seq_lib::to_multiset_remove(u, 3);
            assert(r.to_multiset() == u.to_multiset().remove(u[3]));
            assert(r.last() == u[2]);
            assert(t.last() <= u[2]) by {
                if pos <= 2 {
                    assert(u[3] == t[2]);
                } else {
                    assert(u[2] == t[2]);
                }
            }
            assert forall|y: u64| s.to_multiset().count(y) > r.to_multiset().count(y) implies y <= r.last() by {
                if y != u[3] {
                    assert(p.to_multiset().count(y) > t.to_multiset().count(y));
                }
            }
            assert(r.to_multiset().subset_of(s.to_multiset())) by {
                assert forall|y: u64| r.to_multiset().count(y) <= s.to_multiset().count(y) by {
                    assert(t.to_multiset().count(y) <= p.to_multiset().count(y));
                }
            }
        }
    }
}

/// The inventories of the puzzle, one per elf.
pub struct Day01 {
    pub elfs: Vec<Elf>,
}

/// Adds up the calories that each elf carries; `None` when a total does
/// not fit in `u64`.
pub fn sum_of_calories_per_elf(elfs: &Vec<Elf>) -> (r: Option<Vec<u64>>)
    ensures
        r is None <==> exists|i: int| 0 <= i < elfs@.len() && total(calories_of(#[trigger] elfs@[i])) > u64::MAX,
        r matches Some(v) ==> v@.len() == elfs@.len() && forall|i: int| 0 <= i < elfs@.len() ==> v@[i] == total(calories_of(#[trigger] elfs@[i])),
{
    let mut out: Vec<u64> = Vec::new();
    let mut i: usize = 0;
    while i < elfs.len()
        invariant
            i <= elfs@.len(),
            out@.len() == i,
            forall|k: int| 0 <= k < i ==> out@[k] == total(calories_of(#[trigger] elfs@[k])),
        decreases elfs@.len() - i,
    {
        let inv = &elfs[i].inventory;
        let ghost cs = calories_of(elfs@[i as int]);
        let mut sum: u64 = 0;
        let mut k: usize = 0;
        assert(cs.take(0) =~= Seq::<u64>::empty());
        while k < inv.len()
            invariant
                cs == calories_of(elfs@[i as int]),
                *inv == elfs@[i as int].inventory,
                i < elfs@.len(),
                k <= inv@.len(),
                sum == total(cs.take(k as int)),
            decreases inv@.len() - k,
        {
            assert(cs.take(k + 1).drop_last() =~= cs.take(k as int));
            assert(cs[k as int] == inv@[k as int].calories);
            proof {
                lemma_total_prefix(cs, k + 1);
            }
            let c = inv[k].calories;
            if c > u64::MAX - sum {
                assert(total(calories_of(elfs@[i as int])) > u64::MAX);
                return None;
            }
            sum = sum + c;
            k = k + 1;
        }
        assert(cs.take(k as int) =~= cs);
        out.push(sum);
        i = i + 1;
    }
    Some(out)
}

/// The total of a prefix is at most the total of the whole.
proof fn lemma_total_prefix(s: Seq<u64>, i: int)
    requires
        0 <= i <= s.len(),
    ensures
        total(s.take(i)) <= total(s),
    decreases s.len() - i,
{
    if i < s.len() {
        lemma_total_prefix(s, i + 1);
        assert(s.take(i + 1).drop_last() =~= s.take(i));
    } else {
        assert(s.take(i) =~= s);
    }
}

impl Day01 {
    /// Every elf's total fits in `u64`.
    pub open spec fn totals_fit(&self) -> bool {
        forall|i: int| 0 <= i < self.elfs@.len() ==> total(calories_of(#[trigger] self.elfs@[i])) <= u64::MAX
    }

    fn totals_exec(&self) -> (r: Option<Vec<u64>>)
        ensures
            r is None <==> !self.totals_fit(),
            r matches Some(v) ==> v@ == self.totals() && v@.len() == self.elfs@.len()
                && forall|i: int| 0 <= i < v@.len() ==> v@[i] == elf_totals(self.elfs@)[i],
    {
        let r = sum_of_calories_per_elf(&self.elfs);
        match r {
            None => None,
            Some(v) => {
                assert(v@ =~= self.totals());
                Some(v)
            },
        }
    }

    /// The totals of the elves, as a sequence of `u64`.
    pub open spec fn totals(&self) -> Seq<u64> {
        Seq::new(self.elfs@.len(), |i: int| total(calories_of(self.elfs@[i])) as u64)
    }

    /// Reads the inventories: one number per line, an empty line between
    /// elves.
    pub fn parse(input: &str) -> (r: Result<Day01, ParseError>)
        ensures
            match r {
                Ok(d) => (forall|i: int|
                    0 <= i < lines(input.spec_bytes()).len() && (#[trigger] lines(input.spec_bytes())[i]).len() > 0
                        ==> parse_number(lines(input.spec_bytes())[i]) is Some) && all_parse(groups(lines(input.spec_bytes()))) && d.elfs@.len() == groups(
                    lines(input.spec_bytes()),
                ).len() && forall|i: int|
                    0 <= i < d.elfs@.len() ==> parse_inventory(groups(lines(input.spec_bytes()))[i])
                        == Some(calories_of(#[trigger] d.elfs@[i])),
                Err(_) => exists|i: int|
                    0 <= i < lines(input.spec_bytes()).len() && (#[trigger] lines(input.spec_bytes())[i]).len() > 0
                        && parse_number(lines(input.spec_bytes())[i]) is None,
            },
    {
        let ls = split_lines(input.as_bytes());
        let ghost lv = bytes_view(ls@);
        let ghost gs = groups(lv);
        let mut elfs: Vec<Elf> = Vec::new();
        let mut cur: Vec<Food> = Vec::new();
        let mut i: usize = 0;
        assert(lv.take(0) =~= Seq::<Seq<u8>>::empty());
        while i < ls.len()
            invariant
                lv == bytes_view(ls@),
                lv == lines(input.spec_bytes()),
                i <= ls@.len(),
                elfs@.len() == group_state(lv.take(i as int)).0.len(),
                forall|k: int| 0 <= k < elfs@.len() ==> parse_inventory(group_state(lv.take(i as int)).0[k])
                    == Some(calories_of(#[trigger] elfs@[k])),
                parse_inventory(group_state(lv.take(i as int)).1) == Some(cur@.map_values(|f: Food| f.calories)),
                cur@.len() == group_state(lv.take(i as int)).1.len(),
                forall|k: int| 0 <= k < i && (#[trigger] lv[k]).len() > 0 ==> parse_number(lv[k]) is Some,
            decreases ls@.len() - i,
        {
            assert(lv.take(i + 1).drop_last() =~= lv.take(i as int));
            assert(lv.take(i + 1).last() == ls@[i as int]@);
            if ls[i].len() == 0 {
                let inventory = cur;
                cur = Vec::new();
                assert(cur@.map_values(|f: Food| f.calories) =~= Seq::<u64>::empty());
                assert(parse_inventory(Seq::<Seq<u8>>::empty()) == Some(Seq::<u64>::empty()));
                let ghost before = elfs@;
                elfs.push(Elf { inventory });
                assert(Seq::<Food>::empty().map_values(|f: Food| f.calories) =~= Seq::<u64>::empty());
                assert forall|k: int| 0 <= k < elfs@.len() implies parse_inventory(group_state(lv.take(i + 1)).0[k])
                    == Some(calories_of(#[trigger] elfs@[k])) by {
                    if k < before.len() {
                        assert(elfs@[k] == before[k]);
                    }
                }
            } else {
                match Food::from_str(ls[i].as_slice()) {
                    Err(e) => {
                        assert(lv[i as int].len() > 0 && parse_number(lv[i as int]) is None);
                        return Err(e);
                    },
                    Ok(f) => {
                        let ghost before = cur@;
                        let ghost prev = group_state(lv.take(i as int)).1;
                        cur.push(f);
                        assert(cur@.map_values(|f: Food| f.calories) =~= before.map_values(|f: Food| f.calories).push(f.calories));
                        assert(prev.push(lv[i as int]).drop_last() =~= prev);
                        assert(group_state(lv.take(i + 1)).1 == prev.push(lv[i as int]));
                    },
                }
            }
            i = i + 1;
        }
        assert(lv.take(i as int) =~= lv);
        assert(gs.len() == elfs@.len() + if cur@.len() > 0 { 1int } else { 0 });
        if cur.len() > 0 {
            let ghost before = elfs@;
            elfs.push(Elf { inventory: cur });
            assert forall|k: int| 0 <= k < elfs@.len() implies parse_inventory(gs[k]) == Some(calories_of(#[trigger] elfs@[k])) by {
                if k < before.len() {
                    assert(elfs@[k] == before[k]);
                }
            }
        }
        assert(all_parse(gs)) by {
            assert forall|k: int| 0 <= k < gs.len() implies (#[trigger] parse_inventory(gs[k])) is Some by {
                assert(parse_inventory(gs[k]) == Some(calories_of(elfs@[k])));
            }
        }
        Ok(Day01 { elfs })
    }

    /// The largest total carried by one elf, if there is an elf; the outer
    /// `None` when a total does not fit in `u64`.
    pub fn solve_problem_1(&self) -> (r: Option<Option<u64>>)
        ensures
            r is None <==> !self.totals_fit(),
            r matches Some(Some(m)) ==> max_total(elf_totals(self.elfs@)) == Some(m as nat),
            r matches Some(None) ==> max_total(elf_totals(self.elfs@)) is None,
    {
        let sums = match self.totals_exec() {
            None => {
                return None;
            },
            Some(v) => v,
        };
        let ghost ts = elf_totals(self.elfs@);
        let mut best: Option<u64> = None;
        let mut i: usize = 0;
        assert(ts.take(0) =~= Seq::<nat>::empty());
        while i < sums.len()
            invariant
                ts == elf_totals(self.elfs@),
                sums@.len() == ts.len(),
                forall|k: int| 0 <= k < ts.len() ==> sums@[k] == ts[k],
                i <= sums@.len(),
                best matches Some(m) ==> max_total(ts.take(i as int)) == Some(m as nat),
                best is None ==> max_total(ts.take(i as int)) is None,
            decreases sums@.len() - i,
        {
            assert(ts.take(i + 1).drop_last() =~= ts.take(i as int));
            let s = sums[i];
            best = match best {
                None => Some(s),
                Some(m) => if s > m {
                    Some(s)
                } else {
                    Some(m)
                },
            };
            i = i + 1;
        }
        assert(ts.take(i as int) =~= ts);
        Some(best)
    }

    /// Sum of the three largest totals (of all of them, when there are fewer
    /// than three elves).
    pub fn solve_problem_2(&self) -> (r: Option<u64>)
        ensures
            r == (if self.totals_fit() && total(best_three(self.totals())) <= u64::MAX {
                Some(total(best_three(self.totals())) as u64)
            } else {
                None
            }),
    {
        let sums = match self.totals_exec() {
            None => {
                return None;
            },
            Some(v) => v,
        };
        let ghost ts = self.totals();
        let mut top = slots_new();
        let mut i: usize = 0;
        assert(ts.take(0) =~= Seq::<u64>::empty());
        while i < sums.len()
            invariant
                sums@ == ts,
                i <= sums@.len(),
                slots(top) == best_three(ts.take(i as int)),
            decreases sums@.len() - i,
        {
            assert(ts.take(i + 1).drop_last() =~= ts.take(i as int));
            let calories = sums[i];
            proof {
                lemma_best_three_len(ts.take(i as int));
            }
            let pos = {
                let cur = slots_view(&top);
                let mut p: usize = 0;
                while p < cur.len() && cur[p] > calories
                    invariant
                        cur@ == slots(top),
                        p <= cur@.len(),
                        insert_pos(cur@, calories, 0) == insert_pos(cur@, calories, p as int),
                    decreases cur@.len() - p,
                {
                    p = p + 1;
                }
                p
            };
            slots_insert(&mut top, pos, calories);
            slots_truncate(&mut top, NUM_TOP_SPOTS);
            i = i + 1;
        }
        assert(ts.take(i as int) =~= ts);
        let fin = slots_view(&top);
        let ghost fv = fin@;
        proof {
            lemma_best_three_len(ts);
        }
        let mut sum: u64 = 0;
        let mut k: usize = 0;
        assert(fv.take(0) =~= Seq::<u64>::empty());
        while k < fin.len()
            invariant
                fv == fin@,
                fv == best_three(ts),
                ts == self.totals(),
                self.totals_fit(),
                k <= fv.len(),
                sum == total(fv.take(k as int)),
            decreases fv.len() - k,
        {
            assert(fv.take(k + 1).drop_last() =~= fv.take(k as int));
            proof {
                lemma_total_prefix(fv, k + 1);
            }
            if fin[k] > u64::MAX - sum {
                return None;
            }
            sum = sum + fin[k];
            k = k + 1;
        }
        assert(fv.take(k as int) =~= fv);
        Some(sum)
    }
}

} // verus!
