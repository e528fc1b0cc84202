//! Reading a query from text of the form
//! `FILTER <column> == <value> GROUP BY <column> COUNT <column>` (or `AVERAGE <column>`),
//! where the value is an integer or a string in double quotes.
use vstd::prelude::*;
use crate::analytics::dataset::{Value, ValueView};
use crate::analytics::query::{Aggregation, Condition, Query};

verus! {

/// A white-space character, as `char::is_whitespace` defines it (the Unicode
/// `White_Space` property).
pub open spec fn is_ws(c: char) -> bool {
    ||| ('\u{9}' <= c && c <= '\u{d}')
    ||| c == ' '
    ||| c == '\u{85}'
    ||| c == '\u{a0}'
    ||| c == '\u{1680}'
    ||| ('\u{2000}' <= c && c <= '\u{200a}')
    ||| c == '\u{2028}'
    ||| c == '\u{2029}'
    ||| c == '\u{202f}'
    ||| c == '\u{205f}'
    ||| c == '\u{3000}'
}

/// `s` without its leading white space.
pub open spec fn trim_start(s: Seq<char>) -> Seq<char>
    decreases s.len(),
{
    if s.len() > 0 && is_ws(s[0]) {
        trim_start(s.drop_first())
    } else {
        s
    }
}

/// `s` without its trailing white space.
pub open spec fn trim_end(s: Seq<char>) -> Seq<char>
    decreases s.len(),
{
    if s.len() > 0 && is_ws(s.last()) {
        trim_end(s.drop_last())
    } else {
        s
    }
}

/// `s` without leading and trailing white space (`str::trim`).
pub open spec fn trim(s: Seq<char>) -> Seq<char> {
    trim_end(trim_start(s))
}

/// `s` without its leading double quotes.
pub open spec fn trim_start_quotes(s: Seq<char>) -> Seq<char>
    decreases s.len(),
{
    if s.len() > 0 && s[0] == '"' {
        trim_start_quotes(s.drop_first())
    } else {
        s
    }
}

/// `s` without its trailing double quotes.
pub open spec fn trim_end_quotes(s: Seq<char>) -> Seq<char>
    decreases s.len(),
{
    if s.len() > 0 && s.last() == '"' {
        trim_end_quotes(s.drop_last())
    } else {
        s
    }
}

/// `s` without leading and trailing double quotes (`str::trim_matches('"')`).
pub open spec fn trim_quotes(s: Seq<char>) -> Seq<char> {
    trim_end_quotes(trim_start_quotes(s))
}

/// `p` occurs in `s` at position `i`.
pub open spec fn occurs_at(s: Seq<char>, p: Seq<char>, i: int) -> bool {
    0 <= i && i + p.len() <= s.len() && s.subrange(i, i + p.len()) == p
}

/// The first position at or after `i` where `p` occurs in `s`.
pub open spec fn find_from(s: Seq<char>, p: Seq<char>, i: int) -> Option<int>
    decreases s.len() - i,
{
    if i < 0 || i + p.len() > s.len() {
        None
    } else if occurs_at(s, p, i) {
        Some(i)
    } else if i >= s.len() {
        None
    } else {
        find_from(s, p, i + 1)
    }
}

/// A found position is a real occurrence, at or after the start of the search.
pub proof fn lemma_find_from(s: Seq<char>, p: Seq<char>, i: int)
    ensures
        find_from(s, p, i) matches Some(k) ==> i <= k && occurs_at(s, p, k),
    decreases s.len() - i,
{
    if !(i < 0 || i + p.len() > s.len()) && !occurs_at(s, p, i) && i < s.len() {
        lemma_find_from(s, p, i + 1);
    }
}

/// `s` split around the first occurrence of `p` (`str::split_once`).
pub open spec fn split_once(s: Seq<char>, p: Seq<char>) -> Option<(Seq<char>, Seq<char>)> {
    match find_from(s, p, 0) {
        Some(i) => Some((s.subrange(0, i), s.subrange(i + p.len(), s.len() as int))),
        None => None,
    }
}

/// `s` with every leading copy of the non-empty `p` removed (`str::trim_start_matches`).
pub open spec fn trim_start_matches(s: Seq<char>, p: Seq<char>) -> Seq<char>
    decreases s.len(),
{
    if p.len() > 0 && occurs_at(s, p, 0) {
        trim_start_matches(s.subrange(p.len() as int, s.len() as int), p)
    } else {
        s
    }
}

/// `c` is an ASCII digit.
pub open spec fn is_digit(c: char) -> bool {
    '0' <= c && c <= '9'
}

/// The number that a string of ASCII digits writes in decimal.
pub open spec fn digits_value(s: Seq<char>) -> int
    decreases s.len(),
{
    if s.len() == 0 {
        0
    } else {
        digits_value(s.drop_last()) * 10 + (s.last() as int - '0' as int)
    }
}

/// Every character of `s` is an ASCII digit.
pub open spec fn all_digits(s: Seq<char>) -> bool {
    forall|i: int| 0 <= i < s.len() ==> is_digit(#[trigger] s[i])
}

/// `s` without a leading sign.
pub open spec fn unsigned_part(s: Seq<char>) -> Seq<char> {
    if s.len() > 0 && (s[0] == '-' || s[0] == '+') {
        s.drop_first()
    } else {
        s
    }
}

/// The 32-bit integer that `s` writes (`i32::from_str`): an optional `+` or `-`, then
/// one or more ASCII digits, with a value in range.
pub open spec fn parse_i32(s: Seq<char>) -> Option<i32> {
    let body = unsigned_part(s);
    let v = if s.len() > 0 && s[0] == '-' {
        -digits_value(body)
    } else {
        digits_value(body)
    };
    if body.len() > 0 && all_digits(body) && i32::MIN <= v <= i32::MAX {
        Some(v as i32)
    } else {
        None
    }
}

/// The text `" GROUP BY "`.
pub open spec fn group_by_separator() -> Seq<char> {
    seq![' ', 'G', 'R', 'O', 'U', 'P', ' ', 'B', 'Y', ' ']
}

/// The text `"FILTER "`.
pub open spec fn filter_keyword() -> Seq<char> {
    seq!['F', 'I', 'L', 'T', 'E', 'R', ' ']
}

/// The text `"=="`.
pub open spec fn equality_sign() -> Seq<char> {
    seq!['=', '=']
}

/// The text `" COUNT "`.
pub open spec fn count_separator() -> Seq<char> {
    seq![' ', 'C', 'O', 'U', 'N', 'T', ' ']
}

/// The text `" AVERAGE "`.
pub open spec fn average_separator() -> Seq<char> {
    seq![' ', 'A', 'V', 'E', 'R', 'A', 'G', 'E', ' ']
}

/// What a query text says.
pub struct ParsedQuery {
    /// The column that the filter compares.
    pub column: Seq<char>,
    /// The value it compares with.
    pub value: ValueView,
    /// The column to group by.
    pub group_by: Seq<char>,
    /// `COUNT` (true) or `AVERAGE` (false).
    pub count: bool,
    /// The column of the aggregation.
    pub aggregate_column: Seq<char>,
}

/// The value written in a filter: a string when it is enclosed in double quotes (all
/// leading and trailing quotes are dropped), else a 32-bit integer.
pub open spec fn parse_value(raw: Seq<char>) -> Option<ValueView> {
    if raw.len() > 0 && raw[0] == '"' && raw.last() == '"' {
        Some(ValueView::Text(trim_quotes(raw)))
    } else {
        match parse_i32(raw) {
            Some(i) => Some(ValueView::Integer(i)),
            None => None,
        }
    }
}

/// The filter part of a query text: without leading `"FILTER "`s and surrounding white
/// space, split at the first `"=="` into the column and the value (both trimmed).
pub open spec fn spec_parse_filter(left: Seq<char>) -> Option<(Seq<char>, ValueView)> {
    match split_once(trim(trim_start_matches(left, filter_keyword())), equality_sign()) {
        None => None,
        Some((c, r)) => match parse_value(trim(r)) {
            None => None,
            Some(value) => Some((trim(c), value)),
        },
    }
}

/// The grouping part of a query text: split at the first `" COUNT "`, or else at the
/// first `" AVERAGE "`, into the grouping column and the aggregated column (trimmed);
/// the flag tells `COUNT` (true) from `AVERAGE`.
pub open spec fn spec_parse_grouping(right: Seq<char>) -> Option<(Seq<char>, bool, Seq<char>)> {
    match split_once(right, count_separator()) {
        Some((g, a)) => Some((trim(g), true, trim(a))),
        None => match split_once(right, average_separator()) {
            Some((g, a)) => Some((trim(g), false, trim(a))),
            None => None,
        },
    }
}

/// What a query text says, or `None` when it does not follow the format: the text is
/// split at the first `" GROUP BY "` into a filter part (see `spec_parse_filter`) and
/// a grouping part (see `spec_parse_grouping`).
pub open spec fn spec_parse_query(s: Seq<char>) -> Option<ParsedQuery> {
    match split_once(s, group_by_separator()) {
        None => None,
        Some((left, right)) => match (spec_parse_filter(left), spec_parse_grouping(right)) {
            (Some((column, value)), Some((group_by, count, aggregate_column))) => Some(
                ParsedQuery { column, value, group_by, count, aggregate_column },
            ),
            _ => None,
        },
    }
}

/// The query `q` says what `p` describes.
pub open spec fn query_is(q: Query, p: ParsedQuery) -> bool {
    &&& q.spec_filter() matches Condition::Equal(column, value) && column@ == p.column && value@
        == p.value
    &&& q.spec_group_by() == p.group_by
    &&& if p.count {
        q.spec_aggregate() matches Aggregation::Count(a) && a@ == p.aggregate_column
    } else {
        q.spec_aggregate() matches Aggregation::Average(a) && a@ == p.aggregate_column
    }
}

/// Whether `c` is white space (`char::is_whitespace`).
fn is_whitespace(c: char) -> (r: bool)
    ensures
        r == is_ws(c),
{
    ('\u{9}' <= c && c <= '\u{d}') || c == ' ' || c == '\u{85}' || c == '\u{a0}' || c == '\u{1680}'
        || ('\u{2000}' <= c && c <= '\u{200a}') || c == '\u{2028}' || c == '\u{2029}' || c == '\u{202f}'
        || c == '\u{205f}' || c == '\u{3000}'
}

/// The bounds of `s[lo..hi]` without its leading and trailing white space.
fn trim_range(s: &Vec<char>, lo: usize, hi: usize) -> (r: (usize, usize))
    requires
        lo <= hi <= s@.len(),
    ensures
        lo <= r.0 <= r.1 <= hi,
        s@.subrange(r.0 as int, r.1 as int) == trim(s@.subrange(lo as int, hi as int)),
{
    let mut i = lo;
    while i < hi && is_whitespace(s[i])
        invariant
            lo <= i <= hi <= s@.len(),
            trim_start(s@.subrange(lo as int, hi as int)) == trim_start(s@.subrange(i as int, hi as int)),
        decreases hi - i,
    {
        assert(s@.subrange(i as int, hi as int).drop_first() =~= s@.subrange(i + 1, hi as int));
        i = i + 1;
    }
    let mut j = hi;
    while j > i && is_whitespace(s[j - 1])
        invariant
            lo <= i <= j <= hi <= s@.len(),
            trim_end(s@.subrange(i as int, hi as int)) == trim_end(s@.subrange(i as int, j as int)),
        decreases j - i,
    {
        assert(s@.subrange(i as int, j as int).drop_last() =~= s@.subrange(i as int, j - 1));
        j = j - 1;
    }
    (i, j)
}

/// The bounds of `s[lo..hi]` without its leading and trailing double quotes.
fn trim_quotes_range(s: &Vec<char>, lo: usize, hi: usize) -> (r: (usize, usize))
    requires
        lo <= hi <= s@.len(),
    ensures
        lo <= r.0 <= r.1 <= hi,
        s@.subrange(r.0 as int, r.1 as int) == trim_quotes(s@.subrange(lo as int, hi as int)),
{
    let mut i = lo;
    while i < hi && s[i] == '"'
        invariant
            lo <= i <= hi <= s@.len(),
            trim_start_quotes(s@.subrange(lo as int, hi as int)) == trim_start_quotes(
                s@.subrange(i as int, hi as int),
            ),
        decreases hi - i,
    {
        assert(s@.subrange(i as int, hi as int).drop_first() =~= s@.subrange(i + 1, hi as int));
        i = i + 1;
    }
    let mut j = hi;
    while j > i && s[j - 1] == '"'
        invariant
            lo <= i <= j <= hi <= s@.len(),
            trim_end_quotes(s@.subrange(i as int, hi as int)) == trim_end_quotes(
                s@.subrange(i as int, j as int),
            ),
        decreases j - i,
    {
        assert(s@.subrange(i as int, j as int).drop_last() =~= s@.subrange(i as int, j - 1));
        j = j - 1;
    }
    (i, j)
}

/// Whether `p` occurs in `s[lo..hi]` at position `i` of `s`.
fn occurs_in(s: &Vec<char>, lo: usize, hi: usize, i: usize, p: &Vec<char>) -> (r: bool)
    requires
        lo <= i <= hi <= s@.len(),
    ensures
        r == occurs_at(s@.subrange(lo as int, hi as int), p@, i - lo),
{
    if p.len() > hi - i {
        return false;
    }
    let mut k: usize = 0;
    while k < p.len()
        invariant
            lo <= i <= hi <= s@.len(),
            i + p@.len() <= hi,
            k <= p@.len(),
            forall|q: int| 0 <= q < k ==> s@[i + q] == #[trigger] p@[q],
        decreases p@.len() - k,
    {
        if s[i + k] != p[k] {
            assert(s@.subrange(lo as int, hi as int).subrange(i - lo, i - lo + p@.len())[k as int] != p@[k as int]);
            return false;
        }
        k = k + 1;
    }
    assert(s@.subrange(lo as int, hi as int).subrange(i - lo, i - lo + p@.len()) =~= p@);
    true
}

/// The first position (in `s`) at which `p` occurs in `s[lo..hi]`.
fn find_in(s: &Vec<char>, lo: usize, hi: usize, p: &Vec<char>) -> (r: Option<usize>)
    requires
        lo <= hi <= s@.len(),
    ensures
        match find_from(s@.subrange(lo as int, hi as int), p@, 0) {
            Some(k) => r == Some((lo + k) as usize),
            None => r is None,
        },
{
    let ghost w = s@.subrange(lo as int, hi as int);
    let mut i = lo;
    while i <= hi
        invariant
            lo <= i <= hi + 1,
            hi <= s@.len(),
            w == s@.subrange(lo as int, hi as int),
            i <= hi ==> find_from(w, p@, 0) == find_from(w, p@, i - lo),
            i > hi ==> find_from(w, p@, 0) is None,
        decreases hi + 1 - i,
    {
        if occurs_in(s, lo, hi, i, p) {
            return Some(i);
        }
        if i == hi {
            return None;
        }
        i = i + 1;
    }
    None
}

/// The position where `s[lo..hi]` resumes after every leading copy of the non-empty `p`.
fn skip_prefixes(s: &Vec<char>, lo: usize, hi: usize, p: &Vec<char>) -> (r: usize)
    requires
        lo <= hi <= s@.len(),
        p@.len() > 0,
    ensures
        lo <= r <= hi,
        s@.subrange(r as int, hi as int) == trim_start_matches(s@.subrange(lo as int, hi as int), p@),
{
    let mut i = lo;
    while occurs_in(s, i, hi, i, p)
        invariant
            lo <= i <= hi <= s@.len(),
            p@.len() > 0,
            trim_start_matches(s@.subrange(lo as int, hi as int), p@) == trim_start_matches(
                s@.subrange(i as int, hi as int),
                p@,
            ),
        decreases hi - i,
    {
        assert(s@.subrange(i as int, hi as int).subrange(p@.len() as int, (hi - i) as int) =~= s@.subrange(
            i + p@.len(),
            hi as int,
        ));
        i = i + p.len();
    }
    i
}

/// Reading a longer prefix of a digit string never gives a smaller number.
proof fn lemma_digits_value_grows(s: Seq<char>, k: int)
    requires
        0 <= k <= s.len(),
        forall|i: int| 0 <= i < s.len() ==> is_digit(#[trigger] s[i]),
    ensures
        digits_value(s.take(k)) <= digits_value(s),
        0 <= digits_value(s),
    decreases s.len(),
{
    if s.len() > 0 {
        let init = s.drop_last();
        assert forall|i: int| 0 <= i < init.len() implies is_digit(#[trigger] init[i]) by {
            assert(init[i] == s[i]);
        }
        if k < s.len() {
            lemma_digits_value_grows(init, k);
            assert(init.take(k) =~= s.take(k));
        } else {
            assert(s.take(k) =~= s);
            lemma_digits_value_grows(init, 0);
        }
        assert(is_digit(s[s.len() - 1]));
    }
}

/// The 32-bit integer that `s[lo..hi]` writes (`i32::from_str`), if it writes one.
fn parse_int(s: &Vec<char>, lo: usize, hi: usize) -> (r: Option<i32>)
    requires
        lo <= hi <= s@.len(),
    ensures
        r == parse_i32(s@.subrange(lo as int, hi as int)),
{
    let ghost w = s@.subrange(lo as int, hi as int);
    if lo == hi {
        return None;
    }
    let negative = s[lo] == '-';
    let start = if s[lo] == '-' || s[lo] == '+' {
        lo + 1
    } else {
        lo
    };
    let ghost body = s@.subrange(start as int, hi as int);
    assert(body =~= unsigned_part(w));
    if start == hi {
        return None;
    }
    let mut value: i64 = 0;
    let mut k = start;
    while k < hi
        invariant
            lo <= start <= k <= hi <= s@.len(),
            start < hi,
            w == s@.subrange(lo as int, hi as int),
            w.len() > 0,
            negative == (w[0] == '-'),
            body == unsigned_part(w),
            body == s@.subrange(start as int, hi as int),
            forall|i: int| 0 <= i < k - start ==> is_digit(#[trigger] body[i]),
            value == digits_value(body.take(k - start)),
            0 <= value <= 2147483648,
        decreases hi - k,
    {
        let c = s[k];
        if !('0' <= c && c <= '9') {
            proof {
                assert(body[k - start] == c);
                assert(!is_digit(body[k - start]));
                assert(!all_digits(body));
                assert(parse_i32(w) is None);
            }
            return None;
        }
        let digit = (c as u32 - '0' as u32) as i64;
        assert(body.take(k - start + 1).drop_last() =~= body.take(k - start));
        assert(body.take(k - start + 1).last() == c);
        let next = value * 10 + digit;
        if next > 2147483648 {
            proof {
                assert(digits_value(body.take(k - start + 1)) == next);
                if all_digits(body) {
                    lemma_digits_value_grows(body, k - start + 1);
                    assert(digits_value(body) > 2147483648);
                }
                assert(parse_i32(w) is None);
            }
            return None;
        }
        value = next;
        k = k + 1;
    }
    assert(body.take(hi - start) =~= body);
    if negative {
        if value <= 2147483648 {
            Some((-value) as i32)
        } else {
            None
        }
    } else {
        if value <= 2147483647 {
            Some(value as i32)
        } else {
            None
        }
    }
}

/// The characters of `s`, in order.
fn chars_of(s: &str) -> (v: Vec<char>)
    ensures
        v@ == s@,
{
    let n = s.unicode_len();
    let mut v: Vec<char> = Vec::with_capacity(n);
    let mut i: usize = 0;
    while i < n
        invariant
            n == s@.len(),
            i <= n,
            v@ == s@.take(i as int),
        decreases n - i,
    {
        v.push(s.get_char(i));
        assert(s@.take(i + 1) =~= s@.take(i as int).push(s@[i as int]));
        i = i + 1;
    }
    assert(s@.take(n as int) =~= s@);
    v
}

/// The string made of the characters `lo..hi` of `s`.
fn substring(s: &str, lo: usize, hi: usize) -> (r: String)
    requires
        lo <= hi <= s@.len(),
    ensures
        r@ == s@.subrange(lo as int, hi as int),
{
    String::from_str(s.substring_char(lo, hi))
}

/// Reads the filter part `s[lo..hi]` of a query text (see `spec_parse_filter`).
fn parse_filter(text: &str, s: &Vec<char>, lo: usize, hi: usize) -> (r: Option<(String, Value)>)
    requires
        s@ == text@,
        lo <= hi <= s@.len(),
    ensures
        match spec_parse_filter(s@.subrange(lo as int, hi as int)) {
            None => r is None,
            Some((c, v)) => r matches Some((column, value)) && column@ == c && value@ == v,
        },
{
    let ghost w = s@;
    let filter_kw = vec!['F', 'I', 'L', 'T', 'E', 'R', ' '];
    let eq_sign = vec!['=', '='];
    assert(filter_kw@ =~= filter_keyword());
    assert(eq_sign@ =~= equality_sign());
    let filter_lo = skip_prefixes(s, lo, hi, &filter_kw);
    let (a, b) = trim_range(s, filter_lo, hi);
    proof {
        lemma_find_from(w.subrange(a as int, b as int), equality_sign(), 0);
    }
    let e = match find_in(s, a, b, &eq_sign) {
        Some(e) => e,
        None => {
            return None;
        },
    };
    proof {
        assert(w.subrange(a as int, b as int).subrange(0, e - a) =~= w.subrange(a as int, e as int));
        assert(w.subrange(a as int, b as int).subrange(e - a + 2, b - a) =~= w.subrange(e + 2, b as int));
    }
    let (c0, c1) = trim_range(s, a, e);
    let (r0, r1) = trim_range(s, e + 2, b);
    let ghost raw = w.subrange(r0 as int, r1 as int);
    let value = if r0 < r1 && s[r0] == '"' && s[r1 - 1] == '"' {
        let (q0, q1) = trim_quotes_range(s, r0, r1);
        assert(raw[0] == '"' && raw.last() == '"');
        Value::String(substring(text, q0, q1))
    } else {
        assert(!(raw.len() > 0 && raw[0] == '"' && raw.last() == '"'));
        match parse_int(s, r0, r1) {
            Some(i) => Value::Integer(i),
            None => {
                return None;
            },
        }
    };
    Some((substring(text, c0, c1), value))
}

/// Reads the grouping part `s[lo..hi]` of a query text (see `spec_parse_grouping`).
fn parse_grouping(text: &str, s: &Vec<char>, lo: usize, hi: usize) -> (r: Option<(String, bool, String)>)
    requires
        s@ == text@,
        lo <= hi <= s@.len(),
    ensures
        match spec_parse_grouping(s@.subrange(lo as int, hi as int)) {
            None => r is None,
            Some((g, c, a)) => r matches Some((group_by, count, column)) && group_by@ == g && count == c
                && column@ == a,
        },
{
    let ghost w = s@;
    let count_sep = vec![' ', 'C', 'O', 'U', 'N', 'T', ' '];
    let average_sep = vec![' ', 'A', 'V', 'E', 'R', 'A', 'G', 'E', ' '];
    assert(count_sep@ =~= count_separator());
    assert(average_sep@ =~= average_separator());
    proof {
        lemma_find_from(w.subrange(lo as int, hi as int), count_separator(), 0);
        lemma_find_from(w.subrange(lo as int, hi as int), average_separator(), 0);
    }
    let (group_hi, agg_lo, is_count) = match find_in(s, lo, hi, &count_sep) {
        Some(k) => (k, k + count_sep.len(), true),
        None => {
            match find_in(s, lo, hi, &average_sep) {
                Some(k) => (k, k + average_sep.len(), false),
                None => {
                    return None;
                },
            }
        },
    };
    proof {
        assert(w.subrange(lo as int, hi as int).subrange(0, group_hi - lo) =~= w.subrange(
            lo as int,
            group_hi as int,
        ));
        assert(w.subrange(lo as int, hi as int).subrange(agg_lo - lo, hi - lo) =~= w.subrange(
            agg_lo as int,
            hi as int,
        ));
    }
    let (g0, g1) = trim_range(s, lo, group_hi);
    let (h0, h1) = trim_range(s, agg_lo, hi);
    Some((substring(text, g0, g1), is_count, substring(text, h0, h1)))
}

/// Reads a query from text (see `spec_parse_query` for the format), or `None` when the
/// text does not follow it.
pub fn try_parse_query_from_string(input: &String) -> (r: Option<Query>)
    ensures
        match spec_parse_query(input@) {
            None => r is None,
            Some(p) => r matches Some(q) && query_is(q, p),
        },
{
    let text = input.as_str();
    let s = chars_of(text);
    let n = s.len();
    let ghost w = s@;
    assert(w.subrange(0, n as int) =~= w);
    let group_by_sep = vec![' ', 'G', 'R', 'O', 'U', 'P', ' ', 'B', 'Y', ' '];
    assert(group_by_sep@ =~= group_by_separator());
    proof {
        lemma_find_from(w, group_by_separator(), 0);
    }
    let split = match find_in(&s, 0, n, &group_by_sep) {
        Some(k) => k,
        None => {
            return None;
        },
    };
    let right_lo = split + group_by_sep.len();
    let filter = parse_filter(text, &s, 0, split);
    let grouping = parse_grouping(text, &s, right_lo, n);
    match (filter, grouping) {
        (Some((column, value)), Some((group_by, is_count, aggregate_column))) => {
            let aggregate = if is_count {
                Aggregation::Count(aggregate_column)
            } else {
                Aggregation::Average(aggregate_column)
            };
            Some(Query::new(Condition::Equal(column, value), group_by, aggregate))
        },
        _ => None,
    }
}

/// Reads a query from text that follows the format (see `spec_parse_query`).
pub fn parse_query_from_string(input: String) -> (q: Query)
    requires
        spec_parse_query(input@) is Some,
    ensures
        query_is(q, spec_parse_query(input@).unwrap()),
{
    match try_parse_query_from_string(&input) {
        Some(q) => q,
        None => {
            assert(false);
            Query::new(Condition::Equal(String::new(), Value::Integer(0)), String::new(), Aggregation::Count(String::new()))
        },
    }
}

} // verus!
