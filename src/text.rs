//! Byte-level text handling shared by the puzzle parsers: lines, words,
//! decimal numbers and searches, each with a plain-value statement of what it
//! yields.
use vstd::prelude::*;

verus! {

/// The byte strings of `v`, as plain values.
pub open spec fn bytes_view(v: Seq<Vec<u8>>) -> Seq<Seq<u8>> {
    v.map_values(|x: Vec<u8>| x@)
}

/// ASCII whitespace: space, tab, line feed, form feed, carriage return.
pub open spec fn is_space(b: u8) -> bool {
    b == 32 || b == 9 || b == 10 || b == 12 || b == 13
}

/// The words finished so far, and the word in progress, after reading `s`.
pub open spec fn word_state(s: Seq<u8>) -> (Seq<Seq<u8>>, Seq<u8>)
    decreases s.len(),
{
    if s.len() == 0 {
        (seq![], seq![])
    } else {
        let prev = word_state(s.drop_last());
        if is_space(s.last()) {
            if prev.1.len() > 0 {
                (prev.0.push(prev.1), seq![])
            } else {
                (prev.0, seq![])
            }
        } else {
            (prev.0, prev.1.push(s.last()))
        }
    }
}

/// The maximal runs of non-whitespace bytes of `s`, in order.
pub open spec fn words(s: Seq<u8>) -> Seq<Seq<u8>> {
    let st = word_state(s);
    if st.1.len() > 0 {
        st.0.push(st.1)
    } else {
        st.0
    }
}

/// Splits `s` into its words: the maximal runs of non-whitespace bytes.
pub fn split_words(s: &[u8]) -> (r: Vec<Vec<u8>>)
    ensures
        bytes_view(r@) == words(s@),
{
    let mut done: Vec<Vec<u8>> = Vec::new();
    let mut cur: Vec<u8> = Vec::new();
    let mut i: usize = 0;
    while i < s.len()
        invariant
            i <= s@.len(),
            (bytes_view(done@), cur@) == word_state(s@.take(i as int)),
        decreases s@.len() - i,
    {
        assert(s@.take(i + 1).drop_last() =~= s@.take(i as int));
        let b = s[i];
        if b == 32 || b == 9 || b == 10 || b == 12 || b == 13 {
            if cur.len() > 0 {
                let ghost d = bytes_view(done@);
                done.push(cur);
                assert(bytes_view(done@) =~= d.push(word_state(s@.take(i as int)).1));
            }
            cur = Vec::new();
        } else {
            cur.push(b);
        }
        i = i + 1;
        assert(cur@ =~= word_state(s@.take(i as int)).1);
        assert(bytes_view(done@) =~= word_state(s@.take(i as int)).0);
    }
    assert(s@.take(i as int) =~= s@);
    if cur.len() > 0 {
        let ghost d = bytes_view(done@);
        done.push(cur);
        assert(bytes_view(done@) =~= d.push(word_state(s@).1));
    }
    done
}

/// The lines finished so far, and the line in progress, after reading `s`.
pub open spec fn line_state(s: Seq<u8>) -> (Seq<Seq<u8>>, Seq<u8>)
    decreases s.len(),
{
    if s.len() == 0 {
        (seq![], seq![])
    } else {
        let prev = line_state(s.drop_last());
        if s.last() == 10 {
            (prev.0.push(strip_cr(prev.1)), seq![])
        } else {
            (prev.0, prev.1.push(s.last()))
        }
    }
}

/// A line without the carriage return that ends it, if any.
pub open spec fn strip_cr(l: Seq<u8>) -> Seq<u8> {
    if l.len() > 0 && l.last() == 13 {
        l.drop_last()
    } else {
        l
    }
}

/// The lines of `s`: the pieces between line feeds, each without a final
/// carriage return; a line feed at the very end opens no further line.
pub open spec fn lines(s: Seq<u8>) -> Seq<Seq<u8>> {
    let st = line_state(s);
    if st.1.len() > 0 {
        st.0.push(st.1)
    } else {
        st.0
    }
}

/// Splits `s` into its lines.
pub fn split_lines(s: &[u8]) -> (r: Vec<Vec<u8>>)
    ensures
        bytes_view(r@) == lines(s@),
{
    let mut done: Vec<Vec<u8>> = Vec::new();
    let mut cur: Vec<u8> = Vec::new();
    let mut i: usize = 0;
    while i < s.len()
        invariant
            i <= s@.len(),
            (bytes_view(done@), cur@) == line_state(s@.take(i as int)),
        decreases s@.len() - i,
    {
        assert(s@.take(i + 1).drop_last() =~= s@.take(i as int));
        let b = s[i];
        if b == 10 {
            if cur.len() > 0 && cur[cur.len() - 1] == 13 {
                cur.pop();
            }
            let ghost d = bytes_view(done@);
            done.push(cur);
            assert(bytes_view(done@) =~= d.push(strip_cr(line_in_progress(s@, i as int))));
            cur = Vec::new();
        } else {
            cur.push(b);
        }
        i = i + 1;
        assert(cur@ =~= line_state(s@.take(i as int)).1);
        assert(bytes_view(done@) =~= line_state(s@.take(i as int)).0);
    }
    assert(s@.take(i as int) =~= s@);
    if cur.len() > 0 {
        let ghost d = bytes_view(done@);
        done.push(cur);
        assert(bytes_view(done@) =~= d.push(line_state(s@).1));
    }
    done
}

/// The line in progress after reading the first `i` bytes of `s`.
spec fn line_in_progress(s: Seq<u8>, i: int) -> Seq<u8> {
    line_state(s.take(i)).1
}

/// Whether `b` is an ASCII decimal digit.
pub open spec fn is_digit(b: u8) -> bool {
    48 <= b <= 57
}

/// The value of a string of decimal digits (0 for the empty string).
pub open spec fn digits_value(s: Seq<u8>) -> nat
    decreases s.len(),
{
    if s.len() == 0 {
        0
    } else {
        digits_value(s.drop_last()) * 10 + (s.last() - 48) as nat
    }
}

/// The number that `s` writes in decimal, when `s` is a non-empty string of
/// digits whose value fits in `u64`.
pub open spec fn parse_digits(s: Seq<u8>) -> Option<u64> {
    if s.len() > 0 && (forall|i: int| 0 <= i < s.len() ==> is_digit(#[trigger] s[i]))
        && digits_value(s) <= u64::MAX {
        Some(digits_value(s) as u64)
    } else {
        None
    }
}

/// A string of digits is worth at least as much as any of its prefixes.
proof fn lemma_digits_monotone(s: Seq<u8>, i: int)
    requires
        0 <= i <= s.len(),
        forall|k: int| 0 <= k < s.len() ==> is_digit(#[trigger] s[k]),
    ensures
        digits_value(s.take(i)) <= digits_value(s),
    decreases s.len() - i,
{
    if i < s.len() {
        lemma_digits_monotone(s, i + 1);
        assert(s.take(i + 1).drop_last() =~= s.take(i));
    } else {
        assert(s.take(i) =~= s);
    }
}

/// The number that `s` writes in decimal, with an optional leading `+`, when
/// its value fits in `u64`.
pub open spec fn parse_number(s: Seq<u8>) -> Option<u64> {
    if s.len() > 0 && s[0] == 43 {
        parse_digits(s.drop_first())
    } else {
        parse_digits(s)
    }
}

/// Reads a decimal number with an optional leading `+`, when its value fits.
pub fn parse_u64(s: &[u8]) -> (r: Option<u64>)
    ensures
        r == parse_number(s@),
{
    if s.len() > 0 && s[0] == 43 {
        let n: usize = s.len();
        let rest = slice_to_vec(s, 1, n);
        assert(rest@ =~= s@.drop_first());
        parse_digits_u64(rest.as_slice())
    } else {
        parse_digits_u64(s)
    }
}

/// Reads a non-empty string of digits whose value fits.
fn parse_digits_u64(s: &[u8]) -> (r: Option<u64>)
    ensures
        r == parse_digits(s@),
{
    if s.len() == 0 {
        return None;
    }
    let mut acc: u64 = 0;
    let mut i: usize = 0;
    while i < s.len()
        invariant
            0 < s@.len(),
            i <= s@.len(),
            forall|k: int| 0 <= k < i ==> is_digit(#[trigger] s@[k]),
            acc == digits_value(s@.take(i as int)),
        decreases s@.len() - i,
    {
        assert(s@.take(i + 1).drop_last() =~= s@.take(i as int));
        let b = s[i];
        if b < 48 || b > 57 {
            return None;
        }
        let d = (b - 48) as u64;
        if acc > (u64::MAX - d) / 10 {
            proof {
                assert(acc * 10 + d > u64::MAX) by (nonlinear_arith)
                    requires
                        acc > (u64::MAX - d) / 10,
                        d <= 9,
                ;
                if forall|k: int| 0 <= k < s@.len() ==> is_digit(#[trigger] s@[k]) {
                    lemma_digits_monotone(s@, i + 1);
                }
            }
            return None;
        }
        proof {
            assert(acc * 10 + d <= u64::MAX) by (nonlinear_arith)
                requires
                    acc <= (u64::MAX - d) / 10,
                    d <= 9,
            ;
        }
        acc = acc * 10 + d;
        i = i + 1;
    }
    assert(s@.take(i as int) =~= s@);
    Some(acc)
}

/// Index of the first `b` in `s` at or after `i`.
pub open spec fn find_byte_from(s: Seq<u8>, b: u8, i: int) -> Option<int>
    decreases s.len() - i,
{
    if i < 0 || i >= s.len() {
        None
    } else if s[i] == b {
        Some(i)
    } else {
        find_byte_from(s, b, i + 1)
    }
}

/// Where `find_byte_from` answers, the byte stands there, and not before it.
pub proof fn lemma_find_byte(s: Seq<u8>, b: u8, i: int)
    requires
        0 <= i,
    ensures
        find_byte_from(s, b, i) matches Some(j) ==> i <= j < s.len() && s[j] == b && forall|
            k: int,
        |
            i <= k < j ==> s[k] != b,
        find_byte_from(s, b, i) is None ==> forall|k: int| i <= k < s.len() ==> s[k] != b,
    decreases s.len() - i,
{
    if i < s.len() && s[i] != b {
        lemma_find_byte(s, b, i + 1);
    }
}

/// Index of the first `b` in `s`.
pub fn find_byte(s: &[u8], b: u8) -> (r: Option<usize>)
    ensures
        r matches Some(j) ==> find_byte_from(s@, b, 0) == Some(j as int),
        r is None ==> find_byte_from(s@, b, 0) is None,
{
    let mut i: usize = 0;
    while i < s.len()
        invariant
            i <= s@.len(),
            find_byte_from(s@, b, 0) == find_byte_from(s@, b, i as int),
        decreases s@.len() - i,
    {
        if s[i] == b {
            return Some(i);
        }
        i = i + 1;
    }
    None
}

/// Whether `pat` occurs in `s` at index `i`.
pub open spec fn occurs_at(s: Seq<u8>, pat: Seq<u8>, i: int) -> bool {
    0 <= i && i + pat.len() <= s.len() && s.subrange(i, i + pat.len()) == pat
}

/// Index of the first occurrence of `pat` in `s` at or after `i`.
pub open spec fn find_from(s: Seq<u8>, pat: Seq<u8>, i: int) -> Option<int>
    decreases s.len() + 1 - i,
{
    if i < 0 || i + pat.len() > s.len() {
        None
    } else if occurs_at(s, pat, i) {
        Some(i)
    } else {
        find_from(s, pat, i + 1)
    }
}

/// Whether `pat` occurs in `s` at index `i`.
pub fn matches_at(s: &[u8], pat: &[u8], i: usize) -> (r: bool)
    requires
        i + pat@.len() <= s@.len(),
    ensures
        r == occurs_at(s@, pat@, i as int),
{
    let mut k: usize = 0;
    while k < pat.len()
        invariant
            i + pat@.len() <= s@.len(),
            k <= pat@.len(),
            forall|m: int| 0 <= m < k ==> s@[i + m] == pat@[m],
        decreases pat@.len() - k,
    {
        let n: usize = s.len();
        assert(i + k < n);
        if s[i + k] != pat[k] {
            assert(s@.subrange(i as int, i + pat@.len())[k as int] != pat@[k as int]);
            return false;
        }
        k = k + 1;
    }
    assert(s@.subrange(i as int, i + pat@.len()) =~= pat@);
    true
}

/// Index of the first occurrence of `pat` in `s`.
pub fn find(s: &[u8], pat: &[u8]) -> (r: Option<usize>)
    ensures
        r matches Some(j) ==> find_from(s@, pat@, 0) == Some(j as int),
        r is None ==> find_from(s@, pat@, 0) is None,
{
    if pat.len() > s.len() {
        return None;
    }
    let mut i: usize = 0;
    let last: usize = s.len() - pat.len();
    while i <= last
        invariant
            pat@.len() <= s@.len(),
            last == s@.len() - pat@.len(),
            i <= last + 1,
            find_from(s@, pat@, 0) == find_from(s@, pat@, i as int),
        decreases last + 1 - i,
    {
        if matches_at(s, pat, i) {
            return Some(i);
        }
        if i == last {
            assert(find_from(s@, pat@, i + 1) is None);
            return None;
        }
        i = i + 1;
    }
    None
}

/// A copy of the bytes of `s` from `lo` up to `hi`.
pub fn slice_to_vec(s: &[u8], lo: usize, hi: usize) -> (r: Vec<u8>)
    requires
        lo <= hi <= s@.len(),
    ensures
        r@ == s@.subrange(lo as int, hi as int),
{
    let mut r: Vec<u8> = Vec::new();
    let mut i: usize = lo;
    while i < hi
        invariant
            lo <= i <= hi <= s@.len(),
            r@ == s@.subrange(lo as int, i as int),
        decreases hi - i,
    {
        r.push(s[i]);
        i = i + 1;
        assert(r@ =~= s@.subrange(lo as int, i as int));
    }
    r
}

/// Whether two byte strings are equal.
pub fn same_bytes(a: &[u8], b: &[u8]) -> (r: bool)
    ensures
        r == (a@ == b@),
{
    if a.len() != b.len() {
        return false;
    }
    let mut i: usize = 0;
    while i < a.len()
        invariant
            a@.len() == b@.len(),
            i <= a@.len(),
            forall|k: int| 0 <= k < i ==> a@[k] == b@[k],
        decreases a@.len() - i,
    {
        if a[i] != b[i] {
            return false;
        }
        i = i + 1;
    }
    assert(a@ =~= b@);
    true
}

/// A copy of a byte string.
pub fn copy_bytes(v: &Vec<u8>) -> (r: Vec<u8>)
    ensures
        r@ == v@,
{
    let r = v.clone();
    assert(r@ =~= v@);
    r
}

/// The paragraphs finished so far, and the one in progress, after reading the
/// lines `ls`.
pub open spec fn paragraph_state(ls: Seq<Seq<u8>>) -> (Seq<Seq<Seq<u8>>>, Seq<Seq<u8>>)
    decreases ls.len(),
{
    if ls.len() == 0 {
        (seq![], seq![])
    } else {
        let prev = paragraph_state(ls.drop_last());
        if ls.last().len() == 0 {
            if prev.1.len() > 0 {
                (prev.0.push(prev.1), seq![])
            } else {
                (prev.0, seq![])
            }
        } else {
            (prev.0, prev.1.push(ls.last()))
        }
    }
}

/// The maximal runs of non-empty lines of `ls`, in order.
pub open spec fn paragraphs(ls: Seq<Seq<u8>>) -> Seq<Seq<Seq<u8>>> {
    let st = paragraph_state(ls);
    if st.1.len() > 0 {
        st.0.push(st.1)
    } else {
        st.0
    }
}

/// The lines of `s` grouped into paragraphs: runs of non-empty lines between
/// empty ones.
pub fn split_paragraphs(s: &[u8]) -> (r: Vec<Vec<Vec<u8>>>)
    ensures
        r@.len() == paragraphs(lines(s@)).len(),
        forall|i: int| 0 <= i < r@.len() ==> bytes_view(#[trigger] r@[i]@) == paragraphs(lines(s@))[i],
{
    let ls = split_lines(s);
    let ghost lv = bytes_view(ls@);
    let mut done: Vec<Vec<Vec<u8>>> = Vec::new();
    let mut cur: Vec<Vec<u8>> = Vec::new();
    let mut i: usize = 0;
    while i < ls.len()
        invariant
            lv == bytes_view(ls@),
            i <= ls@.len(),
            done@.len() == paragraph_state(lv.take(i as int)).0.len(),
            forall|k: int| 0 <= k < done@.len() ==> bytes_view(#[trigger] done@[k]@) == paragraph_state(lv.take(i as int)).0[k],
            bytes_view(cur@) == paragraph_state(lv.take(i as int)).1,
        decreases ls@.len() - i,
    {
        assert(lv.take(i + 1).drop_last() =~= lv.take(i as int));
        assert(lv.take(i + 1).last() == ls@[i as int]@);
        if ls[i].len() == 0 {
            if cur.len() > 0 {
                done.push(cur);
            }
            cur = Vec::new();
            assert(bytes_view(cur@) =~= paragraph_state(lv.take(i + 1)).1);
        } else {
            let ghost c = bytes_view(cur@);
            cur.push(copy_bytes(&ls[i]));
            assert(bytes_view(cur@) =~= c.push(ls@[i as int]@));
        }
        i = i + 1;
    }
    assert(lv.take(i as int) =~= lv);
    if cur.len() > 0 {
        done.push(cur);
    }
    done
}

/// The numbers written by the words `ws`, if each is a number that fits in
/// `u32`.
pub open spec fn parse_numbers_u32(ws: Seq<Seq<u8>>) -> Option<Seq<u32>>
    decreases ws.len(),
{
    if ws.len() == 0 {
        Some(seq![])
    } else {
        match (parse_numbers_u32(ws.drop_last()), parse_number(ws.last())) {
            (Some(ns), Some(n)) => if n <= u32::MAX {
                Some(ns.push(n as u32))
            } else {
                None
            },
            _ => None,
        }
    }
}

/// Once a prefix of the words fails to parse, so do all the words.
proof fn lemma_parse_numbers_u32_prefix(ws: Seq<Seq<u8>>, i: int)
    requires
        0 <= i <= ws.len(),
        parse_numbers_u32(ws.take(i)) is None,
    ensures
        parse_numbers_u32(ws) is None,
    decreases ws.len() - i,
{
    if i < ws.len() {
        assert(ws.take(i + 1).drop_last() =~= ws.take(i));
        lemma_parse_numbers_u32_prefix(ws, i + 1);
    } else {
        assert(ws.take(i) =~= ws);
    }
}

/// Reads the whitespace-separated numbers of `s`, each fitting in `u32`.
pub fn parse_u32_list(s: &[u8]) -> (r: Option<Vec<u32>>)
    ensures
        r matches Some(v) ==> parse_numbers_u32(words(s@)) == Some(v@),
        r is None ==> parse_numbers_u32(words(s@)) is None,
{
    let ws = split_words(s);
    let ghost wv = bytes_view(ws@);
    let mut out: Vec<u32> = Vec::new();
    let mut i: usize = 0;
    while i < ws.len()
        invariant
            wv == bytes_view(ws@),
            wv == words(s@),
            i <= ws@.len(),
            parse_numbers_u32(wv.take(i as int)) == Some(out@),
        decreases ws@.len() - i,
    {
        assert(wv.take(i + 1).drop_last() =~= wv.take(i as int));
        assert(wv.take(i + 1).last() == ws@[i as int]@);
        match parse_u64(ws[i].as_slice()) {
            Some(n) => {
                if n > 4294967295 {
                    proof {
                        lemma_parse_numbers_u32_prefix(wv, i as int + 1);
                    }
                    return None;
                }
                out.push(n as u32);
            },
            None => {
                proof {
                    lemma_parse_numbers_u32_prefix(wv, i as int + 1);
                }
                return None;
            },
        }
        i = i + 1;
    }
    assert(wv.take(i as int) =~= wv);
    Some(out)
}

/// Reads the number that `s` writes in decimal, if it fits in `u32`.
pub fn parse_u32(s: &[u8]) -> (r: Option<u32>)
    ensures
        r == (match parse_number(s@) {
            Some(n) => if n <= u32::MAX {
                Some(n as u32)
            } else {
                None::<u32>
            },
            None => None,
        }),
{
    match parse_u64(s) {
        Some(n) => if n <= 4294967295 {
            Some(n as u32)
        } else {
            None
        },
        None => None,
    }
}

/// An occurrence found by `find_from` lies inside the text, at or after `i`.
pub proof fn lemma_find_from_bounds(s: Seq<u8>, pat: Seq<u8>, i: int)
    ensures
        find_from(s, pat, i) matches Some(j) ==> i <= j && j + pat.len() <= s.len(),
    decreases s.len() + 1 - i,
{
    if !(i < 0 || i + pat.len() > s.len()) && !occurs_at(s, pat, i) {
        lemma_find_from_bounds(s, pat, i + 1);
    }
}

/// The pieces of `s` between the occurrences of `pat`, found from the left;
/// without an occurrence, `s` itself.
pub open spec fn split_on(s: Seq<u8>, pat: Seq<u8>) -> Seq<Seq<u8>>
    decreases s.len(),
{
    if pat.len() == 0 {
        seq![s]
    } else {
        match find_from(s, pat, 0) {
            None => seq![s],
            Some(i) => if 0 <= i && i + pat.len() <= s.len() {
                seq![s.take(i)] + split_on(s.skip(i + pat.len()), pat)
            } else {
                seq![s]
            },
        }
    }
}

/// Splits `s` at each occurrence of the non-empty `pat`.
pub fn split_on_pattern(s: &[u8], pat: &[u8]) -> (r: Vec<Vec<u8>>)
    requires
        pat@.len() > 0,
    ensures
        bytes_view(r@) == split_on(s@, pat@),
{
    let mut out: Vec<Vec<u8>> = Vec::new();
    let n: usize = s.len();
    let mut rest = slice_to_vec(s, 0, n);
    assert(rest@ =~= s@);
    loop
        invariant
            pat@.len() > 0,
            bytes_view(out@) + split_on(rest@, pat@) == split_on(s@, pat@),
        decreases rest@.len(),
    {
        let ghost before = bytes_view(out@);
        match find(rest.as_slice(), pat) {
            None => {
                out.push(rest);
                assert(bytes_view(out@) =~= before + split_on(rest@, pat@));
                return out;
            },
            Some(i) => {
                proof {
                    lemma_find_from_bounds(rest@, pat@, 0);
                }
                let rl: usize = rest.len();
                let head = slice_to_vec(rest.as_slice(), 0, i);
                let tail = slice_to_vec(rest.as_slice(), i + pat.len(), rl);
                assert(head@ =~= rest@.take(i as int));
                assert(tail@ =~= rest@.skip(i + pat@.len()));
                out.push(head);
                assert(bytes_view(out@) + split_on(tail@, pat@) =~= before + split_on(rest@, pat@));
                rest = tail;
            },
        }
    }
}

} // verus!
