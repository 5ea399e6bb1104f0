//! Parsing of page ranges such as `1-10,15,20-30` into sorted page indices.
//!
//! The text is split at ASCII and full-width commas; each part is trimmed of
//! white space and is either empty (skipped), a page number, or two page
//! numbers joined by `-`. Numbers are 1-based; the result lists the 0-based
//! indices of the pages, without duplicates, in increasing order, keeping only
//! pages from 1 to the document's page count.
use vstd::prelude::*;
use crate::page_set::selected_pages;
use crate::text::{decimal, digit_char};

verus! {

broadcast use vstd::string::group_string_axioms;

/// The characters at which the text is split into parts: `,` and `，`.
pub open spec fn is_separator(c: char) -> bool {
    c == ',' || c == '\u{ff0c}'
}

/// The characters with the Unicode `White_Space` property, which trimming removes.
pub open spec fn is_white(c: char) -> bool {
    ||| '\u{9}' <= c && c <= '\u{d}'
    ||| c == ' '
    ||| c == '\u{85}'
    ||| c == '\u{a0}'
    ||| c == '\u{1680}'
    ||| '\u{2000}' <= c && c <= '\u{200a}'
    ||| c == '\u{2028}'
    ||| c == '\u{2029}'
    ||| c == '\u{202f}'
    ||| c == '\u{205f}'
    ||| c == '\u{3000}'
}

/// `s` without its leading white space.
pub open spec fn trim_front(s: Seq<char>) -> Seq<char>
    decreases s.len(),
{
    if s.len() > 0 && is_white(s[0]) {
        trim_front(s.drop_first())
    } else {
        s
    }
}

/// `s` without its trailing white space.
pub open spec fn trim_back(s: Seq<char>) -> Seq<char>
    decreases s.len(),
{
    if s.len() > 0 && is_white(s.last()) {
        trim_back(s.drop_last())
    } else {
        s
    }
}

/// `s` without leading and trailing white space.
pub open spec fn trim(s: Seq<char>) -> Seq<char> {
    trim_back(trim_front(s))
}

/// The first index at or after `i` that holds a separator, or `s.len()`.
pub open spec fn next_separator(s: Seq<char>, i: int) -> int
    decreases s.len() - i,
{
    if i >= s.len() {
        s.len() as int
    } else if is_separator(s[i]) {
        i
    } else {
        next_separator(s, i + 1)
    }
}

/// The first index at or after `i` that holds `-`, or `s.len()`.
pub open spec fn next_dash(s: Seq<char>, i: int) -> int
    decreases s.len() - i,
{
    if i >= s.len() {
        s.len() as int
    } else if s[i] == '-' {
        i
    } else {
        next_dash(s, i + 1)
    }
}

/// An ASCII decimal digit.
pub open spec fn is_digit(c: char) -> bool {
    '0' <= c && c <= '9'
}

/// The value of a digit character.
pub open spec fn digit_value(c: char) -> int {
    c as int - '0' as int
}

/// The value of a sequence of decimal digits, most significant first.
pub open spec fn digits_value(s: Seq<char>) -> int
    decreases s.len(),
{
    if s.len() == 0 {
        0
    } else {
        10 * digits_value(s.drop_last()) + digit_value(s.last())
    }
}

/// `s` without one leading `+`, if it has one.
pub open spec fn number_body(s: Seq<char>) -> Seq<char> {
    if s.len() > 0 && s[0] == '+' { s.drop_first() } else { s }
}

/// The number that `u32::from_str` reads from `s`: an optional `+`, then one
/// or more ASCII digits whose value fits in a `u32`; `None` for anything else.
pub open spec fn parse_u32(s: Seq<char>) -> Option<u32> {
    let body = number_body(s);
    if body.len() > 0 && (forall|i: int| 0 <= i < body.len() ==> is_digit(#[trigger] body[i]))
        && digits_value(body) <= u32::MAX {
        Some(digits_value(body) as u32)
    } else {
        None
    }
}

/// The bounds `(first, last)` named by a non-empty trimmed part: `a-b` (split at
/// the first `-`, each side trimmed) or a single number `n` standing for `n-n`.
pub open spec fn part_bounds(p: Seq<char>) -> Option<(u32, u32)> {
    let k = next_dash(p, 0);
    if k < p.len() {
        match (parse_u32(trim(p.subrange(0, k))), parse_u32(trim(p.subrange(k + 1, p.len() as int)))) {
            (Some(a), Some(b)) => Some((a, b)),
            _ => None,
        }
    } else {
        match parse_u32(p) {
            Some(n) => Some((n, n)),
            None => None,
        }
    }
}

/// Whether `start` lies in `0..=s.len()`.
pub open spec fn in_text(s: Seq<char>, start: int) -> bool {
    0 <= start <= s.len()
}

/// The bounds named by the parts of `s` that begin at `start` and after, in
/// order; or the first part (trimmed) that names none.
pub open spec fn ranges_from(s: Seq<char>, start: int) -> Result<Seq<(u32, u32)>, Seq<char>>
    decreases s.len() + 1 - start,
{
    if !in_text(s, start) {
        Ok(Seq::empty())
    } else {
        let end = next_separator(s, start);
        proof {
            lemma_next_separator_bounds(s, start);
        }
        let part = trim(s.subrange(start, end));
        let rest = if end >= s.len() {
            Ok(Seq::empty())
        } else {
            ranges_from(s, end + 1)
        };
        if part.len() == 0 {
            rest
        } else {
            match part_bounds(part) {
                None => Err(part),
                Some(r) => match rest {
                    Ok(rs) => Ok(seq![r] + rs),
                    Err(e) => Err(e),
                },
            }
        }
    }
}

/// `pre` followed by the ranges of `r`, or the failing part of `r`.
pub open spec fn prepend(pre: Seq<(u32, u32)>, r: Result<Seq<(u32, u32)>, Seq<char>>) -> Result<
    Seq<(u32, u32)>,
    Seq<char>,
> {
    match r {
        Ok(rs) => Ok(pre + rs),
        Err(e) => Err(e),
    }
}

/// Page index `q` (0-based) is one of the first `max` pages and its number lies
/// within the bounds `r`.
pub open spec fn range_covers(r: (u32, u32), max: u32, q: int) -> bool {
    0 <= q && q + 1 <= max && r.0 <= q + 1 && q + 1 <= r.1
}

/// Page index `q` is selected by one of the ranges `rs`.
pub open spec fn covers(rs: Seq<(u32, u32)>, max: u32, q: int) -> bool {
    exists|i: int| 0 <= i < rs.len() && #[trigger] range_covers(rs[i], max, q)
}

/// `v` is strictly increasing.
pub open spec fn strictly_increasing(v: Seq<u32>) -> bool {
    forall|i: int, j: int| 0 <= i < j < v.len() ==> v[i] < v[j]
}

/// `v` lists, in increasing order and once each, exactly the pages selected by `rs`.
pub open spec fn is_page_list(v: Seq<u32>, rs: Seq<(u32, u32)>, max: u32) -> bool {
    &&& strictly_increasing(v)
    &&& forall|i: int| 0 <= i < v.len() ==> covers(rs, max, #[trigger] v[i] as int)
    &&& forall|q: int| #[trigger] covers(rs, max, q) ==> v.contains(q as u32)
}

pub proof fn lemma_next_separator_bounds(s: Seq<char>, i: int)
    requires
        0 <= i <= s.len(),
    ensures
        i <= next_separator(s, i) <= s.len(),
        next_separator(s, i) < s.len() ==> is_separator(s[next_separator(s, i)]),
    decreases s.len() - i,
{
    if i < s.len() && !is_separator(s[i]) {
        lemma_next_separator_bounds(s, i + 1);
    }
}

/// The value of a digit sequence is at least that of any of its prefixes.
pub proof fn lemma_digits_value_prefix(s: Seq<char>, k: int)
    requires
        0 <= k <= s.len(),
        forall|i: int| 0 <= i < s.len() ==> is_digit(#[trigger] s[i]),
    ensures
        digits_value(s) >= digits_value(s.take(k)) >= 0,
    decreases s.len(),
{
    if k < s.len() {
        assert(s.drop_last().take(k) =~= s.take(k));
        lemma_digits_value_prefix(s.drop_last(), k);
    } else {
        assert(s.take(k) =~= s);
        if s.len() > 0 {
            lemma_digits_value_prefix(s.drop_last(), s.len() - 1);
            assert(s.drop_last().take(s.len() - 1) =~= s.drop_last());
        }
    }
}

/// Two strictly increasing sequences with the same elements are equal: a page
/// list is determined by the pages it selects.
pub proof fn lemma_page_list_unique(a: Seq<u32>, b: Seq<u32>, rs: Seq<(u32, u32)>, max: u32)
    requires
        is_page_list(a, rs, max),
        is_page_list(b, rs, max),
    ensures
        a == b,
{
    lemma_sorted_same_elements(a, b);
}

proof fn lemma_sorted_same_elements(a: Seq<u32>, b: Seq<u32>)
    requires
        strictly_increasing(a),
        strictly_increasing(b),
        forall|x: u32| a.contains(x) <==> b.contains(x),
    ensures
        a == b,
    decreases a.len(),
{
    if a.len() == 0 {
        if b.len() > 0 {
            assert(b.contains(b[0]));
        }
        assert(a =~= b);
    } else {
        assert(a.contains(a[0]));
        assert(b.len() > 0);
        assert(b.contains(b[0]));
        let ia = choose|i: int| 0 <= i < a.len() && a[i] == b[0];
        let ib = choose|i: int| 0 <= i < b.len() && b[i] == a[0];
        assert(a[0] == b[0]) by {
            if ia > 0 {
                assert(a[0] < a[ia]);
            }
            if ib > 0 {
                assert(b[0] < b[ib]);
            }
        }
        let a1 = a.drop_first();
        let b1 = b.drop_first();
        assert forall|x: u32| a1.contains(x) <==> b1.contains(x) by {
            if a1.contains(x) {
                let i = choose|i: int| 0 <= i < a1.len() && a1[i] == x;
                assert(a[i + 1] == x && a[0] < a[i + 1]);
                assert(b.contains(x));
                let j = choose|j: int| 0 <= j < b.len() && b[j] == x;
                assert(j != 0);
                assert(b1[j - 1] == x);
            }
            if b1.contains(x) {
                let i = choose|i: int| 0 <= i < b1.len() && b1[i] == x;
                assert(b[i + 1] == x && b[0] < b[i + 1]);
                assert(a.contains(x));
                let j = choose|j: int| 0 <= j < a.len() && a[j] == x;
                assert(j != 0);
                assert(a1[j - 1] == x);
            }
        }
        lemma_sorted_same_elements(a1, b1);
        assert(a.len() == b.len());
        assert forall|i: int| 0 <= i < a.len() implies a[i] == b[i] by {
            if i > 0 {
                assert(a[i] == a1[i - 1]);
                assert(b[i] == b1[i - 1]);
            }
        }
        assert(a =~= b);
    }
}

/// The characters of `text`, in order.
fn text_chars(text: &str) -> (v: Vec<char>)
    ensures
        v@ == text@,
{
    let mut v: Vec<char> = Vec::new();
    for c in it: text.chars()
        invariant
            it.seq() == text@,
            v@ == it.seq().take(it.index()),
    {
        v.push(c);
        assert(v@ =~= it.seq().take(it.index() + 1));
    }
    assert(v@ =~= text@);
    v
}

fn is_separator_char(c: char) -> (r: bool)
    ensures
        r == is_separator(c),
{
    c == ',' || c == '\u{ff0c}'
}

fn is_white_char(c: char) -> (r: bool)
    ensures
        r == is_white(c),
{
    ('\u{9}' <= c && c <= '\u{d}') || c == ' ' || c == '\u{85}' || c == '\u{a0}' || c == '\u{1680}'
        || ('\u{2000}' <= c && c <= '\u{200a}') || c == '\u{2028}' || c == '\u{2029}' || c
        == '\u{202f}' || c == '\u{205f}' || c == '\u{3000}'
}

/// The bounds of `chars[lo..hi]` without leading and trailing white space.
fn trim_bounds(chars: &Vec<char>, lo: usize, hi: usize) -> (r: (usize, usize))
    requires
        lo <= hi <= chars.len(),
    ensures
        lo <= r.0 <= r.1 <= hi,
        chars@.subrange(r.0 as int, r.1 as int) == trim(chars@.subrange(lo as int, hi as int)),
{
    let mut a = lo;
    while a < hi && is_white_char(chars[a])
        invariant
            lo <= a <= hi <= chars.len(),
            trim_front(chars@.subrange(lo as int, hi as int)) == trim_front(
                chars@.subrange(a as int, hi as int),
            ),
        decreases hi - a,
    {
        assert(chars@.subrange(a as int, hi as int).drop_first() =~= chars@.subrange(
            a + 1,
            hi as int,
        ));
        a = a + 1;
    }
    assert(trim_front(chars@.subrange(a as int, hi as int)) == chars@.subrange(a as int, hi as int));
    let mut b = hi;
    while b > a && is_white_char(chars[b - 1])
        invariant
            lo <= a <= b <= hi <= chars.len(),
            trim_back(chars@.subrange(a as int, hi as int)) == trim_back(
                chars@.subrange(a as int, b as int),
            ),
        decreases b - a,
    {
        assert(chars@.subrange(a as int, b as int).drop_last() =~= chars@.subrange(
            a as int,
            b - 1,
        ));
        b = b - 1;
    }
    assert(trim_back(chars@.subrange(a as int, b as int)) == chars@.subrange(a as int, b as int));
    (a, b)
}

/// Reads a `u32` from `chars[lo..hi]` as `u32::from_str` does.
fn parse_number(chars: &Vec<char>, lo: usize, hi: usize) -> (r: Option<u32>)
    requires
        lo <= hi <= chars.len(),
    ensures
        r == parse_u32(chars@.subrange(lo as int, hi as int)),
{
    let ghost s = chars@.subrange(lo as int, hi as int);
    let mut i = lo;
    if i < hi && chars[i] == '+' {
        i = i + 1;
    }
    let ghost body = chars@.subrange(i as int, hi as int);
    assert(body == number_body(s)) by {
        if s.len() > 0 && s[0] == '+' {
            assert(body =~= s.drop_first());
        } else {
            assert(body =~= s);
        }
    }
    if i >= hi {
        return None;
    }
    let mut value: u64 = 0;
    let mut j = i;
    while j < hi
        invariant
            i <= j <= hi <= chars.len(),
            i < hi,
            body == chars@.subrange(i as int, hi as int),
            s == chars@.subrange(lo as int, hi as int),
            body == number_body(s),
            value == digits_value(chars@.subrange(i as int, j as int)),
            value <= u32::MAX,
            forall|k: int| i <= k < j ==> is_digit(#[trigger] chars@[k]),
        decreases hi - j,
    {
        let c = chars[j];
        if !('0' <= c && c <= '9') {
            assert(body[j - i] == c);
            assert(!is_digit(body[j - i]));
            assert(!(forall|k: int| 0 <= k < body.len() ==> is_digit(#[trigger] body[k])));
            assert(parse_u32(s).is_none());
            return None;
        }
        let ghost prefix = chars@.subrange(i as int, j + 1);
        assert(prefix.drop_last() =~= chars@.subrange(i as int, j as int));
        let d = (c as u32 - '0' as u32) as u64;
        value = value * 10 + d;
        assert(value == digits_value(prefix));
        if value > 0xffff_ffff {
            proof {
                if forall|k: int| 0 <= k < body.len() ==> is_digit(#[trigger] body[k]) {
                    assert(body.take(j + 1 - i) =~= prefix);
                    lemma_digits_value_prefix(body, j + 1 - i);
                }
                assert(parse_u32(s).is_none());
            }
            return None;
        }
        j = j + 1;
    }
    assert(chars@.subrange(i as int, j as int) =~= body);
    assert forall|k: int| 0 <= k < body.len() implies is_digit(#[trigger] body[k]) by {
        assert(body[k] == chars@[i + k]);
    }
    Some(value as u32)
}

/// The bounds named by the non-empty trimmed part `chars[lo..hi]`.
fn part_range(chars: &Vec<char>, lo: usize, hi: usize) -> (r: Option<(u32, u32)>)
    requires
        lo < hi <= chars.len(),
    ensures
        r == part_bounds(chars@.subrange(lo as int, hi as int)),
{
    let ghost p = chars@.subrange(lo as int, hi as int);
    let mut k = lo;
    while k < hi && chars[k] != '-'
        invariant
            lo <= k <= hi <= chars.len(),
            p == chars@.subrange(lo as int, hi as int),
            next_dash(p, 0) == next_dash(p, k - lo),
        decreases hi - k,
    {
        assert(p[k - lo] == chars@[k as int]);
        k = k + 1;
    }
    assert(next_dash(p, 0) == k - lo);
    if k < hi {
        assert(p.subrange(0, k - lo) =~= chars@.subrange(lo as int, k as int));
        assert(p.subrange(k - lo + 1, p.len() as int) =~= chars@.subrange(k + 1, hi as int));
        let (a_lo, a_hi) = trim_bounds(chars, lo, k);
        let (b_lo, b_hi) = trim_bounds(chars, k + 1, hi);
        let a = parse_number(chars, a_lo, a_hi);
        let b = parse_number(chars, b_lo, b_hi);
        match (a, b) {
            (Some(a), Some(b)) => Some((a, b)),
            _ => None,
        }
    } else {
        match parse_number(chars, lo, hi) {
            Some(n) => Some((n, n)),
            None => None,
        }
    }
}

/// The bounds named by every part of `chars`, in order, or the bounds
/// `(lo, hi)` of the first trimmed part that names none.
fn collect_ranges(chars: &Vec<char>) -> (r: Result<Vec<(u32, u32)>, (usize, usize)>)
    ensures
        match r {
            Ok(rs) => ranges_from(chars@, 0) == Ok::<Seq<(u32, u32)>, Seq<char>>(rs@),
            Err((lo, hi)) => lo <= hi <= chars.len() && ranges_from(chars@, 0) == Err::<
                Seq<(u32, u32)>,
                Seq<char>,
            >(chars@.subrange(lo as int, hi as int)),
        },
{
    let ghost s = chars@;
    let n = chars.len();
    let mut ranges: Vec<(u32, u32)> = Vec::new();
    let mut start: usize = 0;
    assert(prepend(ranges@, ranges_from(s, 0)) == ranges_from(s, 0)) by {
        match ranges_from(s, 0) {
            Ok(rs) => {
                assert(ranges@ + rs =~= rs);
            },
            Err(e) => {},
        }
    }
    loop
        invariant
            s == chars@,
            n == chars.len(),
            start <= n,
            ranges_from(s, 0) == prepend(ranges@, ranges_from(s, start as int)),
        decreases n - start,
    {
        let mut end = start;
        while end < n && !is_separator_char(chars[end])
            invariant
                start <= end <= n,
                s == chars@,
                n == chars.len(),
                next_separator(s, start as int) == next_separator(s, end as int),
            decreases n - end,
        {
            end = end + 1;
        }
        assert(next_separator(s, start as int) == end);
        let ghost rest = if end >= n {
            Ok(Seq::empty())
        } else {
            ranges_from(s, end + 1)
        };
        let (lo, hi) = trim_bounds(chars, start, end);
        let ghost part = trim(s.subrange(start as int, end as int));
        assert(in_text(s, start as int));
        if lo < hi {
            match part_range(chars, lo, hi) {
                None => {
                    return Err((lo, hi));
                },
                Some(b) => {
                    let ghost before = ranges@;
                    ranges.push(b);
                    assert(prepend(before, ranges_from(s, start as int)) == prepend(ranges@, rest))
                        by {
                        match rest {
                            Ok(rs) => {
                                assert(before + (seq![b] + rs) =~= ranges@ + rs);
                            },
                            Err(e) => {},
                        }
                    }
                },
            }
        }
        if end >= n {
            assert(ranges@ + Seq::<(u32, u32)>::empty() =~= ranges@);
            return Ok(ranges);
        }
        start = end + 1;
    }
}

/// Parses a page selection such as `1-10,15,20-30` for a document of
/// `max_pages` pages into the sorted 0-based page indices it selects.
///
/// Numbers outside `1..=max_pages` are dropped; a part that is neither a
/// number nor two numbers joined by `-` fails with `invalid: <part>`, and a
/// selection of no page fails with `empty range`.
#[verifier::spinoff_prover]
pub fn parse_page_range(text: &str, max_pages: u32) -> (res: Result<Vec<u32>, String>)
    ensures
        match ranges_from(text@, 0) {
            Err(part) => res matches Err(msg) && msg@ == "invalid: "@ + part,
            Ok(rs) => if exists|q: int| covers(rs, max_pages, q) {
                res matches Ok(v) && is_page_list(v@, rs, max_pages)
            } else {
                res matches Err(msg) && msg@ == "empty range"@
            },
        },
        res matches Ok(v) ==> forall|i: int| 0 <= i < v.len() ==> v@[i] < max_pages,
{
    let chars = text_chars(text);
    match collect_ranges(&chars) {
        Err((lo, hi)) => {
            let mut msg = String::from_str("invalid: ");
            msg.append(text.substring_char(lo, hi));
            assert(msg@ == "invalid: "@ + chars@.subrange(lo as int, hi as int));
            assert(ranges_from(text@, 0) == Err::<Seq<(u32, u32)>, Seq<char>>(
                chars@.subrange(lo as int, hi as int),
            ));
            Err(msg)
        },
        Ok(ranges) => {
            assert(ranges_from(text@, 0) == Ok::<Seq<(u32, u32)>, Seq<char>>(ranges@));
            let pages = selected_pages(&ranges, max_pages);
            if pages.len() == 0 {
                assert forall|q: int| !covers(ranges@, max_pages, q) by {
                    if covers(ranges@, max_pages, q) {
                        assert(pages@.contains(q as u32));
                    }
                }
                assert(!exists|q: int| covers(ranges@, max_pages, q));
                let msg = String::from_str("empty range");
                assert(msg@ == "empty range"@);
                Err(msg)
            } else {
                assert(covers(ranges@, max_pages, pages@[0] as int));
                assert(exists|q: int| covers(ranges@, max_pages, q));
                assert forall|i: int| 0 <= i < pages.len() implies pages@[i] < max_pages by {
                    assert(covers(ranges@, max_pages, pages@[i] as int));
                    let j = choose|j: int|
                        0 <= j < ranges.len() && range_covers(ranges@[j], max_pages, pages@[i] as int);
                }
                Ok(pages)
            }
        },
    }
}

/// The first page number a part `a-b` selects: `max(a, 1)`.
pub open spec fn part_first(a: u32) -> int {
    if a >= 1 { a as int } else { 1 }
}

/// The last page number a part `a-b` selects in a document of `m` pages: `min(b, m)`.
pub open spec fn part_last(b: u32, m: u32) -> int {
    if b <= m { b as int } else { m as int }
}

/// Page number `n` lies from `max(a, 1)` to `min(b, m)` for the part `r = (a, b)`.
pub open spec fn in_part(r: (u32, u32), m: u32, n: int) -> bool {
    part_first(r.0) <= n <= part_last(r.1, m)
}

/// The page with 0-based index `q` lies in the bounds (see `in_part`) of one of the parts `rs`.
pub open spec fn in_some_part(rs: Seq<(u32, u32)>, m: u32, q: u32) -> bool {
    exists|i: int| 0 <= i < rs.len() && #[trigger] in_part(rs[i], m, q + 1)
}

/// The page with 1-based number `n` is in the list `v` of page indices.
pub open spec fn lists_page(v: Seq<u32>, n: int) -> bool {
    v.contains((n - 1) as u32)
}

/// Every part `a-b` of a selection selects each page number from `max(a, 1)`
/// to `min(b, m)`, however far apart `a` and `b` are; and each selected page
/// lies in those bounds of some part.
pub proof fn lemma_page_list_bounds(v: Seq<u32>, rs: Seq<(u32, u32)>, m: u32)
    requires
        is_page_list(v, rs, m),
    ensures
        forall|i: int, n: int|
            0 <= i < rs.len() && #[trigger] in_part(rs[i], m, n) ==> #[trigger] lists_page(v, n),
        forall|k: int| 0 <= k < v.len() ==> #[trigger] in_some_part(rs, m, v[k]),
{
    assert forall|i: int, n: int|
        0 <= i < rs.len() && #[trigger] in_part(rs[i], m, n) implies #[trigger] lists_page(v, n) by {
        assert(range_covers(rs[i], m, n - 1));
        assert(covers(rs, m, n - 1));
    }
    assert forall|k: int| 0 <= k < v.len() implies #[trigger] in_some_part(rs, m, v[k]) by {
        assert(covers(rs, m, v[k] as int));
        let i = choose|i: int| 0 <= i < rs.len() && range_covers(rs[i], m, v[k] as int);
        assert(in_part(rs[i], m, v[k] + 1));
    }
}

/// A selection made of one part `a-b` lists, in order, the page indices from
/// `max(a, 1) - 1` to `min(b, m) - 1`: all of them, however many, and none
/// where the part holds no page of the document.
pub proof fn lemma_single_part_pages(v: Seq<u32>, a: u32, b: u32, m: u32)
    requires
        is_page_list(v, seq![(a, b)], m),
    ensures
        v.len() == if part_first(a) <= part_last(b, m) {
            part_last(b, m) - part_first(a) + 1
        } else {
            0
        },
        forall|k: int| 0 <= k < v.len() ==> #[trigger] v[k] == part_first(a) - 1 + k,
{
    let rs = seq![(a, b)];
    let lo = part_first(a);
    let hi = part_last(b, m);
    let len: nat = if lo <= hi { (hi - lo + 1) as nat } else { 0 };
    let w = Seq::new(len, |k: int| (lo - 1 + k) as u32);
    assert forall|k: int| 0 <= k < w.len() implies covers(rs, m, #[trigger] w[k] as int) by {
        assert(range_covers(rs[0], m, w[k] as int));
    }
    assert forall|q: int| #[trigger] covers(rs, m, q) implies w.contains(q as u32) by {
        let i = choose|i: int| 0 <= i < rs.len() && range_covers(rs[i], m, q);
        assert(i == 0);
        assert(w[q - lo + 1] == q as u32);
    }
    lemma_page_list_unique(v, w, rs, m);
}

/// The pages below `m`.
pub open spec fn below(m: u32) -> spec_fn(u32) -> bool {
    |q: u32| q < m
}

proof fn lemma_filter_strictly_increasing(s: Seq<u32>, p: spec_fn(u32) -> bool)
    requires
        strictly_increasing(s),
    ensures
        strictly_increasing(s.filter(p)),
    decreases s.len(),
{
    reveal(Seq::filter);
    if s.len() > 0 {
        let r = s.drop_last();
        lemma_filter_strictly_increasing(r, p);
        let f = r.filter(p);
        if p(s.last()) {
            let g = f.push(s.last());
            assert forall|i: int, j: int| 0 <= i < j < g.len() implies g[i] < g[j] by {
                if j == f.len() {
                    assert(f.contains(f[i]));
                    r.lemma_filter_contains_rev(p, f[i]);
                    let k = choose|k: int| 0 <= k < r.len() && r[k] == f[i];
                    assert(s[k] == f[i]);
                }
            }
        }
    }
}

/// For a document of fewer pages, a selection keeps exactly the pages it had
/// that still exist: with `m1 <= m2`, the page list for `m1` is the page list
/// for `m2` without the pages from `m1` on, and selects no page exactly when
/// that is empty.
pub proof fn lemma_page_list_smaller_document(v: Seq<u32>, rs: Seq<(u32, u32)>, m1: u32, m2: u32)
    requires
        m1 <= m2,
        is_page_list(v, rs, m2),
    ensures
        is_page_list(v.filter(below(m1)), rs, m1),
        (exists|q: int| covers(rs, m1, q)) <==> v.filter(below(m1)).len() > 0,
        forall|w: Seq<u32>| #[trigger] is_page_list(w, rs, m1) ==> w == v.filter(below(m1)),
{
    let w = v.filter(below(m1));
    lemma_filter_strictly_increasing(v, below(m1));
    assert forall|i: int| 0 <= i < w.len() implies covers(rs, m1, #[trigger] w[i] as int) by {
        v.lemma_filter_pred(below(m1), i);
        assert(w.contains(w[i]));
        v.lemma_filter_contains_rev(below(m1), w[i]);
        let k = choose|k: int| 0 <= k < v.len() && v[k] == w[i];
        assert(covers(rs, m2, v[k] as int));
        let r = choose|r: int| 0 <= r < rs.len() && range_covers(rs[r], m2, v[k] as int);
        assert(range_covers(rs[r], m1, w[i] as int));
    }
    assert forall|q: int| #[trigger] covers(rs, m1, q) implies w.contains(q as u32) by {
        let r = choose|r: int| 0 <= r < rs.len() && range_covers(rs[r], m1, q);
        assert(range_covers(rs[r], m2, q));
        assert(covers(rs, m2, q));
        assert(v.contains(q as u32));
        let k = choose|k: int| 0 <= k < v.len() && v[k] == q as u32;
        v.lemma_filter_contains(below(m1), k);
    }
    if w.len() > 0 {
        assert(covers(rs, m1, w[0] as int));
    }
    if exists|q: int| covers(rs, m1, q) {
        let q = choose|q: int| covers(rs, m1, q);
        assert(w.contains(q as u32));
    }
    assert forall|u: Seq<u32>| #[trigger] is_page_list(u, rs, m1) implies u == w by {
        lemma_page_list_unique(u, w, rs, m1);
    }
}

/// The text `n1,n2,...` of the 1-based numbers of the pages `v`.
pub open spec fn page_list_text(v: Seq<u32>) -> Seq<char>
    decreases v.len(),
{
    if v.len() == 0 {
        seq![]
    } else if v.len() == 1 {
        decimal((v[0] + 1) as nat)
    } else {
        decimal((v[0] + 1) as nat) + seq![','] + page_list_text(v.drop_first())
    }
}

/// Each page of `v` as the bounds of its own part, `n-n` with `n` its number.
pub open spec fn single_ranges(v: Seq<u32>) -> Seq<(u32, u32)> {
    v.map_values(|q: u32| ((q + 1) as u32, (q + 1) as u32))
}

proof fn lemma_digit_char(d: nat)
    requires
        d < 10,
    ensures
        is_digit(digit_char(d)),
        digit_value(digit_char(d)) == d,
{
}

/// The decimal text of a number is read back as that number.
proof fn lemma_decimal_reads_back(n: nat)
    ensures
        decimal(n).len() > 0,
        forall|i: int| 0 <= i < decimal(n).len() ==> is_digit(#[trigger] decimal(n)[i]),
        digits_value(decimal(n)) == n,
    decreases n,
{
    if n < 10 {
        lemma_digit_char(n);
        assert(decimal(n).drop_last() =~= Seq::<char>::empty());
        assert(decimal(n).last() == digit_char(n));
        assert(digits_value(decimal(n)) == 10 * digits_value(Seq::<char>::empty()) + digit_value(
            digit_char(n),
        ));
    } else {
        lemma_decimal_reads_back(n / 10);
        lemma_digit_char(n % 10);
        let d = decimal(n);
        assert(d.drop_last() =~= decimal(n / 10));
        assert(d.last() == digit_char(n % 10));
        assert(digits_value(d) == 10 * digits_value(decimal(n / 10)) + digit_value(d.last()));
        assert(10 * (n / 10) + n % 10 == n);
        assert forall|i: int| 0 <= i < d.len() implies is_digit(#[trigger] d[i]) by {
            if i < d.len() - 1 {
                assert(d[i] == decimal(n / 10)[i]);
            }
        }
    }
}

proof fn lemma_digits_are_plain(s: Seq<char>)
    requires
        forall|i: int| 0 <= i < s.len() ==> is_digit(#[trigger] s[i]),
    ensures
        trim(s) == s,
        next_dash(s, 0) == s.len(),
        forall|i: int| 0 <= i <= s.len() ==> next_separator(s, i) == s.len(),
{
    if s.len() > 0 {
        assert(is_digit(s[0]) && is_digit(s.last()));
    }
    assert(trim_front(s) == s);
    lemma_no_dash_from(s, 0);
    assert forall|i: int| 0 <= i <= s.len() implies next_separator(s, i) == s.len() by {
        lemma_no_separator_from(s, i);
    }
}

proof fn lemma_no_dash_from(s: Seq<char>, i: int)
    requires
        0 <= i <= s.len(),
        forall|k: int| 0 <= k < s.len() ==> is_digit(#[trigger] s[k]),
    ensures
        next_dash(s, i) == s.len(),
    decreases s.len() - i,
{
    if i < s.len() {
        assert(is_digit(s[i]));
        lemma_no_dash_from(s, i + 1);
    }
}

proof fn lemma_no_separator_from(s: Seq<char>, i: int)
    requires
        0 <= i <= s.len(),
        forall|k: int| 0 <= k < s.len() ==> is_digit(#[trigger] s[k]),
    ensures
        next_separator(s, i) == s.len(),
    decreases s.len() - i,
{
    if i < s.len() {
        assert(is_digit(s[i]));
        lemma_no_separator_from(s, i + 1);
    }
}

proof fn lemma_next_separator_shift(p: Seq<char>, s: Seq<char>, i: int)
    requires
        0 <= i <= s.len(),
    ensures
        next_separator(p + s, p.len() + i) == p.len() + next_separator(s, i),
    decreases s.len() - i,
{
    if i < s.len() {
        assert((p + s)[p.len() + i] == s[i]);
        if !is_separator(s[i]) {
            lemma_next_separator_shift(p, s, i + 1);
        }
    }
}

/// The parts of a text after a prefix are those of the rest on its own.
proof fn lemma_ranges_from_shift(p: Seq<char>, s: Seq<char>, i: int)
    requires
        0 <= i <= s.len(),
    ensures
        ranges_from(p + s, p.len() + i) == ranges_from(s, i),
    decreases s.len() - i,
{
    let t = p + s;
    lemma_next_separator_shift(p, s, i);
    lemma_next_separator_bounds(s, i);
    let e = next_separator(s, i);
    assert(t.subrange(p.len() + i, p.len() + e) =~= s.subrange(i, e));
    if e < s.len() {
        lemma_ranges_from_shift(p, s, e + 1);
    }
}

proof fn lemma_next_separator_after_digits(d: Seq<char>, q: Seq<char>, i: int)
    requires
        0 <= i <= d.len(),
        forall|k: int| 0 <= k < d.len() ==> is_digit(#[trigger] d[k]),
        q.len() > 0,
        q[0] == ',',
    ensures
        next_separator(d + q, i) == d.len(),
    decreases d.len() - i,
{
    let t = d + q;
    if i < d.len() {
        assert(t[i] == d[i] && is_digit(d[i]));
        lemma_next_separator_after_digits(d, q, i + 1);
    } else {
        assert(t[i] == q[0]);
    }
}

/// A page number written in decimal names the single page it numbers.
proof fn lemma_number_part(n: nat)
    requires
        1 <= n <= u32::MAX,
    ensures
        trim(decimal(n)) == decimal(n),
        decimal(n).len() > 0,
        part_bounds(decimal(n)) == Some(((n as u32), (n as u32))),
        forall|k: int| 0 <= k < decimal(n).len() ==> is_digit(#[trigger] decimal(n)[k]),
{
    let d = decimal(n);
    lemma_decimal_reads_back(n);
    lemma_digits_are_plain(d);
    assert(is_digit(d[0]));
    assert(number_body(d) == d);
}

proof fn lemma_ranges_of_page_list_text(v: Seq<u32>)
    requires
        v.len() > 0,
        forall|i: int| 0 <= i < v.len() ==> #[trigger] v[i] < u32::MAX,
    ensures
        ranges_from(page_list_text(v), 0) == Ok::<Seq<(u32, u32)>, Seq<char>>(single_ranges(v)),
    decreases v.len(),
{
    assert(v[0] < u32::MAX);
    let n = (v[0] + 1) as nat;
    let d = decimal(n);
    lemma_number_part(n);
    let t = page_list_text(v);
    let one = seq![((v[0] + 1) as u32, (v[0] + 1) as u32)];
    if v.len() == 1 {
        assert(t == d);
        lemma_digits_are_plain(d);
        assert(next_separator(t, 0) == t.len());
        assert(t.subrange(0, t.len() as int) =~= d);
        assert(single_ranges(v) =~= one + Seq::<(u32, u32)>::empty());
    } else {
        let rest = v.drop_first();
        assert forall|i: int| 0 <= i < rest.len() implies #[trigger] rest[i] < u32::MAX by {
            assert(rest[i] == v[i + 1]);
        }
        lemma_ranges_of_page_list_text(rest);
        let q = seq![','] + page_list_text(rest);
        assert(t =~= d + q);
        lemma_next_separator_after_digits(d, q, 0);
        assert(t.subrange(0, d.len() as int) =~= d);
        let pre = d + seq![','];
        assert(t =~= pre + page_list_text(rest));
        lemma_ranges_from_shift(pre, page_list_text(rest), 0);
        assert(ranges_from(t, (d.len() + 1) as int) == ranges_from(page_list_text(rest), 0));
        assert(single_ranges(v) =~= one + single_ranges(rest));
    }
}

/// Writing a page list back as `n1,n2,...` (the 1-based page numbers joined
/// by commas) and parsing it for the same document gives the same list: the
/// text names each listed page once, and so selects exactly the listed pages.
pub proof fn lemma_page_list_round_trip(v: Seq<u32>, rs: Seq<(u32, u32)>, m: u32)
    requires
        is_page_list(v, rs, m),
        v.len() > 0,
    ensures
        ranges_from(page_list_text(v), 0) == Ok::<Seq<(u32, u32)>, Seq<char>>(single_ranges(v)),
        exists|q: int| covers(single_ranges(v), m, q),
        is_page_list(v, single_ranges(v), m),
        forall|w: Seq<u32>| #[trigger] is_page_list(w, single_ranges(v), m) ==> w == v,
{
    let sr = single_ranges(v);
    assert forall|i: int| 0 <= i < v.len() implies #[trigger] v[i] < m by {
        assert(covers(rs, m, v[i] as int));
        let r = choose|r: int| 0 <= r < rs.len() && range_covers(rs[r], m, v[i] as int);
    }
    lemma_ranges_of_page_list_text(v);
    assert forall|i: int| 0 <= i < v.len() implies covers(sr, m, #[trigger] v[i] as int) by {
        assert(v[i] < m);
        assert(range_covers(sr[i], m, v[i] as int));
    }
    assert forall|q: int| #[trigger] covers(sr, m, q) implies v.contains(q as u32) by {
        let i = choose|i: int| 0 <= i < sr.len() && range_covers(sr[i], m, q);
        assert(v[i] < m);
        assert(v[i] == q);
    }
    assert(covers(sr, m, v[0] as int));
    assert forall|w: Seq<u32>| #[trigger] is_page_list(w, sr, m) implies w == v by {
        lemma_page_list_unique(w, v, sr, m);
    }
}

} // verus!
