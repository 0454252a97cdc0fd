//! Turning a parser's verdict on a query into the editor's live diagnostic.

use vstd::prelude::*;
use crate::text::chars_of;

verus! {

/// `pat` stands in `s` at index `p`.
pub open spec fn occurs_at(s: Seq<char>, pat: Seq<char>, p: int) -> bool {
    0 <= p && p + pat.len() <= s.len() && s.subrange(p, p + pat.len()) == pat
}

/// The first index at `start` or after it where `pat` stands in `s`.
pub open spec fn find_from(s: Seq<char>, pat: Seq<char>, start: int) -> Option<int>
    decreases s.len() + 1 - start,
{
    if start < 0 || start + pat.len() > s.len() {
        None
    } else if occurs_at(s, pat, start) {
        Some(start)
    } else {
        find_from(s, pat, start + 1)
    }
}

/// An ASCII decimal digit.
pub open spec fn is_digit(c: char) -> bool {
    '0' <= c && c <= '9'
}

/// How many ASCII digits `s` starts with.
pub open spec fn leading_digit_count(s: Seq<char>) -> nat
    decreases s.len(),
{
    if s.len() > 0 && is_digit(s[0]) {
        1 + leading_digit_count(s.drop_first())
    } else {
        0
    }
}

/// The number that a string of decimal digits writes.
pub open spec fn decimal_value(digits: Seq<char>) -> int
    decreases digits.len(),
{
    if digits.len() == 0 {
        0
    } else {
        decimal_value(digits.drop_last()) * 10 + (digits.last() as int - '0' as int)
    }
}

/// The number that the digits at the start of `s` write, where there is at
/// least one digit and the number fits in a `usize`.
pub open spec fn leading_number(s: Seq<char>) -> Option<usize> {
    let digits = s.take(leading_digit_count(s) as int);
    if digits.len() == 0 || decimal_value(digits) > usize::MAX {
        None
    } else {
        Some(decimal_value(digits) as usize)
    }
}

/// The number written right after the first `marker` in `msg`, if there is
/// such a marker and a number fitting a `usize` follows it.
pub open spec fn number_following(msg: Seq<char>, marker: Seq<char>) -> Option<usize> {
    match find_from(msg, marker, 0) {
        Some(p) => leading_number(msg.skip(p + marker.len())),
        None => None,
    }
}

/// Whether `pat` stands in `s` at `p`.
fn occurs_at_exec(s: &Vec<char>, pat: &Vec<char>, p: usize) -> (b: bool)
    requires
        p + pat.len() <= s.len(),
    ensures
        b == occurs_at(s@, pat@, p as int),
{
    let mut j: usize = 0;
    while j < pat.len()
        invariant
            p + pat.len() <= s.len(),
            j <= pat.len(),
            forall|k: int| 0 <= k < j ==> s@[p + k] == pat@[k],
        decreases pat.len() - j,
    {
        if s[p + j] != pat[j] {
            assert(s@.subrange(p as int, p + pat.len())[j as int] != pat@[j as int]);
            return false;
        }
        j = j + 1;
    }
    assert(s@.subrange(p as int, p + pat.len()) =~= pat@);
    true
}

/// Where `s` starts with `n` digits and no more, `n` is its leading digit count.
proof fn lemma_leading_digit_count(s: Seq<char>, n: int)
    requires
        0 <= n <= s.len(),
        forall|k: int| 0 <= k < n ==> is_digit(#[trigger] s[k]),
        n == s.len() || !is_digit(s[n]),
    ensures
        leading_digit_count(s) == n,
    decreases n,
{
    if n > 0 {
        let rest = s.drop_first();
        assert forall|k: int| 0 <= k < n - 1 implies is_digit(#[trigger] rest[k]) by {
            assert(rest[k] == s[k + 1]);
        }
        if n < s.len() {
            assert(rest[n - 1] == s[n]);
        }
        lemma_leading_digit_count(rest, n - 1);
    }
}

/// A longer run of digits writes no smaller a number.
proof fn lemma_decimal_value_grows(digits: Seq<char>, k: int)
    requires
        0 <= k <= digits.len(),
        forall|i: int| 0 <= i < digits.len() ==> is_digit(#[trigger] digits[i]),
    ensures
        0 <= decimal_value(digits.take(k)) <= decimal_value(digits),
    decreases digits.len(),
{
    if digits.len() > 0 {
        let shorter = digits.drop_last();
        assert forall|i: int| 0 <= i < shorter.len() implies is_digit(#[trigger] shorter[i]) by {
            assert(shorter[i] == digits[i]);
        }
        assert(is_digit(digits[digits.len() - 1]));
        if k < digits.len() {
            assert(shorter.take(k) =~= digits.take(k));
            lemma_decimal_value_grows(shorter, k);
        } else {
            assert(digits.take(k) =~= digits);
            lemma_decimal_value_grows(shorter, 0);
        }
    } else {
        assert(digits.take(k) =~= digits);
    }
}

/// The number written right after the first `marker` in `msg`: the ASCII
/// digits that follow it, read as a `usize`. `None` where `msg` holds no
/// `marker`, no digit follows it, or the number does not fit a `usize`.
pub fn number_after(msg: &str, marker: &str) -> (r: Option<usize>)
    ensures
        r == number_following(msg@, marker@),
{
    let s: Vec<char> = chars_of(msg);
    let m: Vec<char> = chars_of(marker);
    if m.len() > s.len() {
        return None;
    }
    let last: usize = s.len() - m.len();
    let mut p: usize = 0;
    loop
        invariant_except_break
            s@ == msg@,
            m@ == marker@,
            p <= last,
            last + m.len() == s.len(),
            find_from(s@, m@, 0) == find_from(s@, m@, p as int),
        ensures
            p <= last,
            last + m.len() == s.len(),
            find_from(s@, m@, 0) == Some(p as int),
        decreases last - p,
    {
        if occurs_at_exec(&s, &m, p) {
            break;
        }
        if p == last {
            assert(find_from(s@, m@, p + 1) is None);
            return None;
        }
        p = p + 1;
    }
    let ghost rest = s@.skip(p + m.len());
    let start: usize = p + m.len();
    let mut i: usize = start;
    let mut value: usize = 0;
    while i < s.len() && '0' <= s[i] && s[i] <= '9'
        invariant
            s@ == msg@,
            m@ == marker@,
            find_from(s@, m@, 0) == Some(p as int),
            start == p + m.len(),
            start <= i <= s.len(),
            rest == s@.skip(start as int),
            forall|k: int| 0 <= k < i - start ==> is_digit(#[trigger] rest[k]),
            value == decimal_value(rest.take(i - start)),
        decreases s.len() - i,
    {
        let d: usize = ((s[i] as u32) - ('0' as u32)) as usize;
        assert(rest.take(i + 1 - start).drop_last() =~= rest.take(i - start));
        assert(rest[i - start] == s@[i as int]);
        proof {
            lemma_leading_digit_count(rest.take(i + 1 - start), i + 1 - start);
        }
        match value.checked_mul(10) {
            Some(tens) => match tens.checked_add(d) {
                Some(next) => {
                    value = next;
                },
                None => {
                    proof {
                        lemma_digits_overflow(s@, rest, start as int, i as int);
                    }
                    return None;
                },
            },
            None => {
                proof {
                    lemma_digits_overflow(s@, rest, start as int, i as int);
                }
                return None;
            },
        }
        i = i + 1;
    }
    proof {
        if i < s.len() {
            assert(rest[i - start] == s@[i as int]);
        }
        lemma_leading_digit_count(rest, i - start);
    }
    if i == start {
        return None;
    }
    Some(value)
}

/// Where the digits up to index `i` of `s` already write a number beyond
/// `usize`, the whole run of digits after `start` does too.
proof fn lemma_digits_overflow(s: Seq<char>, rest: Seq<char>, start: int, i: int)
    requires
        0 <= start <= i < s.len(),
        rest == s.skip(start),
        forall|k: int| 0 <= k < i - start ==> is_digit(#[trigger] rest[k]),
        is_digit(s[i]),
        decimal_value(rest.take(i + 1 - start)) > usize::MAX,
    ensures
        leading_number(rest) is None,
{
    let n = leading_digit_count(rest);
    lemma_leading_digit_count_bound(rest);
    assert(rest[i - start] == s[i]);
    lemma_leading_digits_prefix(rest, i + 1 - start);
    let digits = rest.take(n as int);
    assert forall|k: int| 0 <= k < digits.len() implies is_digit(#[trigger] digits[k]) by {
        assert(digits[k] == rest[k]);
        lemma_leading_digits_are_digits(rest, k);
    }
    assert(digits.take(i + 1 - start) =~= rest.take(i + 1 - start));
    lemma_decimal_value_grows(digits, i + 1 - start);
}

/// A string that starts with `k` digits has at least `k` leading digits.
proof fn lemma_leading_digits_prefix(s: Seq<char>, k: int)
    requires
        0 <= k <= s.len(),
        forall|j: int| 0 <= j < k ==> is_digit(#[trigger] s[j]),
    ensures
        k <= leading_digit_count(s),
    decreases k,
{
    if k > 0 {
        let rest = s.drop_first();
        assert forall|j: int| 0 <= j < k - 1 implies is_digit(#[trigger] rest[j]) by {
            assert(rest[j] == s[j + 1]);
        }
        lemma_leading_digits_prefix(rest, k - 1);
    }
}

/// A string has no more leading digits than characters.
proof fn lemma_leading_digit_count_bound(s: Seq<char>)
    ensures
        leading_digit_count(s) <= s.len(),
    decreases s.len(),
{
    if s.len() > 0 {
        lemma_leading_digit_count_bound(s.drop_first());
    }
}

/// The leading digits of a string are digits.
proof fn lemma_leading_digits_are_digits(s: Seq<char>, k: int)
    requires
        0 <= k < leading_digit_count(s),
    ensures
        is_digit(s[k]),
    decreases k,
{
    lemma_leading_digit_count_bound(s);
    if k > 0 {
        assert(s.drop_first()[k - 1] == s[k]);
        lemma_leading_digits_are_digits(s.drop_first(), k - 1);
    }
}

/// The line and column that a parser message names after `Line: ` and
/// `Column: `, each where it is given.
pub fn extract_line_col(msg: &str) -> (r: (Option<usize>, Option<usize>))
    ensures
        r.0 == number_following(msg@, "Line: "@),
        r.1 == number_following(msg@, "Column: "@),
{
    (number_after(msg, "Line: "), number_after(msg, "Column: "))
}

/// The editor's verdict on a query.
pub struct ValidateResp {
    pub valid: bool,
    pub message: Option<String>,
    pub line: Option<usize>,
    pub col: Option<usize>,
}

/// The verdict on a query, from what the parser said of it: `None` where it
/// parsed, the parser's message where it did not. The verdict always comes:
/// a failed parse is a verdict too.
pub fn validation_result(parse_error: Option<String>) -> (r: ValidateResp)
    ensures
        match parse_error {
            None => r.valid && r.message is None && r.line is None && r.col is None,
            Some(m) => {
                &&& !r.valid
                &&& r.message == Some(m)
                &&& r.line == number_following(m@, "Line: "@)
                &&& r.col == number_following(m@, "Column: "@)
            },
        },
{
    match parse_error {
        None => ValidateResp { valid: true, message: None, line: None, col: None },
        Some(message) => {
            let (line, col) = extract_line_col(message.as_str());
            ValidateResp { valid: false, message: Some(message), line, col }
        },
    }
}


/// The character of the decimal digit `d`.
pub open spec fn digit_char(d: int) -> char {
    (('0' as int) + d) as char
}

/// How `v` is written in decimal, without leading zeros.
pub open spec fn decimal_digits(v: nat) -> Seq<char>
    decreases v,
{
    if v < 10 {
        seq![digit_char(v as int)]
    } else {
        decimal_digits(v / 10).push(digit_char((v % 10) as int))
    }
}

/// A number written in decimal is made of digits and reads back as itself.
proof fn lemma_decimal_digits(v: nat)
    ensures
        decimal_digits(v).len() > 0,
        forall|i: int| 0 <= i < decimal_digits(v).len() ==> is_digit(#[trigger] decimal_digits(v)[i]),
        decimal_value(decimal_digits(v)) == v,
    decreases v,
{
    let d = decimal_digits(v);
    if v < 10 {
        assert(d.drop_last() =~= Seq::<char>::empty());
        assert(digit_char(v as int) as int == '0' as int + v);
        assert(d.last() == digit_char(v as int));
        assert(decimal_value(Seq::<char>::empty()) == 0);
    } else {
        lemma_decimal_digits(v / 10);
        let r = (v % 10) as int;
        assert(digit_char(r) as int == '0' as int + r);
        assert(d.drop_last() =~= decimal_digits(v / 10));
        assert(d.last() == digit_char(r));
        assert((v / 10) * 10 + v % 10 == v) by (nonlinear_arith);
        assert forall|i: int| 0 <= i < d.len() implies is_digit(#[trigger] d[i]) by {
            if i < d.len() - 1 {
                assert(d[i] == decimal_digits(v / 10)[i]);
            }
        }
    }
}

/// Where `pat` stands at `p` and nowhere before it from `start` on, the
/// search from `start` finds `p`.
proof fn lemma_find_from_first(s: Seq<char>, pat: Seq<char>, start: int, p: int)
    requires
        0 <= start <= p,
        occurs_at(s, pat, p),
        forall|i: int| start <= i < p ==> !occurs_at(s, pat, i),
    ensures
        find_from(s, pat, start) == Some(p),
    decreases p - start,
{
    if start < p {
        lemma_find_from_first(s, pat, start + 1, p);
    }
}

/// Reading back a number written after a marker gives the number: in
/// `prefix + marker + digits of v + rest`, where the marker does not stand
/// earlier and `rest` does not go on with a digit, the number following the
/// marker is `v`.
pub proof fn law_number_after_reads_written_number(
    prefix: Seq<char>,
    marker: Seq<char>,
    v: usize,
    rest: Seq<char>,
)
    requires
        forall|i: int|
            0 <= i < prefix.len() ==> #[trigger] (prefix + marker).subrange(i, i + marker.len())
                != marker,
        rest.len() == 0 || !is_digit(rest[0]),
    ensures
        number_following(prefix + marker + decimal_digits(v as nat) + rest, marker) == Some(v),
{
    let digits = decimal_digits(v as nat);
    let s = prefix + marker + digits + rest;
    let head = prefix + marker;
    let p = prefix.len() as int;
    lemma_decimal_digits(v as nat);
    assert(s.subrange(p, p + marker.len()) =~= marker);
    assert forall|i: int| 0 <= i < p implies !occurs_at(s, marker, i) by {
        assert(s.subrange(i, i + marker.len()) =~= head.subrange(i, i + marker.len()));
    }
    lemma_find_from_first(s, marker, 0, p);
    let after = s.skip(p + marker.len());
    assert(after =~= digits + rest);
    assert forall|k: int| 0 <= k < digits.len() implies is_digit(#[trigger] after[k]) by {
        assert(after[k] == digits[k]);
    }
    if rest.len() > 0 {
        assert(after[digits.len() as int] == rest[0]);
    }
    lemma_leading_digit_count(after, digits.len() as int);
    assert(after.take(digits.len() as int) =~= digits);
}

/// The same, with the number standing right after a marker that opens the
/// message.
pub proof fn law_number_after_marker(marker: Seq<char>, v: usize)
    ensures
        number_following(marker + decimal_digits(v as nat), marker) == Some(v),
{
    law_number_after_reads_written_number(Seq::empty(), marker, v, Seq::empty());
    assert(Seq::<char>::empty() + marker =~= marker);
    assert(marker + decimal_digits(v as nat) + Seq::<char>::empty() =~= marker + decimal_digits(
        v as nat,
    ));
}


/// Where `pat` stands nowhere from `start` on, the search from `start` finds nothing.
proof fn lemma_find_from_none(s: Seq<char>, pat: Seq<char>, start: int)
    requires
        0 <= start,
        forall|i: int| start <= i ==> !occurs_at(s, pat, i),
    ensures
        find_from(s, pat, start) is None,
    decreases s.len() + 1 - start,
{
    if start + pat.len() <= s.len() {
        lemma_find_from_none(s, pat, start + 1);
    }
}

/// A message without the marker names no number.
pub proof fn law_no_marker_no_number(msg: Seq<char>, marker: Seq<char>)
    requires
        forall|i: int|
            0 <= i && i + marker.len() <= msg.len() ==> #[trigger] msg.subrange(
                i,
                i + marker.len(),
            ) != marker,
    ensures
        number_following(msg, marker) is None,
{
    lemma_find_from_none(msg, marker, 0);
}

/// A marker followed by no digit names no number, whatever follows later.
pub proof fn law_no_digit_no_number(prefix: Seq<char>, marker: Seq<char>, rest: Seq<char>)
    requires
        forall|i: int|
            0 <= i < prefix.len() ==> #[trigger] (prefix + marker).subrange(i, i + marker.len())
                != marker,
        rest.len() == 0 || !is_digit(rest[0]),
    ensures
        number_following(prefix + marker + rest, marker) is None,
{
    let s = prefix + marker + rest;
    let head = prefix + marker;
    let p = prefix.len() as int;
    assert(s.subrange(p, p + marker.len()) =~= marker);
    assert forall|i: int| 0 <= i < p implies !occurs_at(s, marker, i) by {
        assert(s.subrange(i, i + marker.len()) =~= head.subrange(i, i + marker.len()));
    }
    lemma_find_from_first(s, marker, 0, p);
    let after = s.skip(p + marker.len());
    assert(after =~= rest);
    lemma_leading_digit_count(after, 0);
}

} // verus!
