//! Character-level helpers shared by the other modules.

use vstd::prelude::*;

verus! {

broadcast use vstd::string::group_string_axioms;

/// The characters of `s`, in order.
pub fn chars_of(s: &str) -> (v: Vec<char>)
    ensures
        v@ == s@,
{
    let mut v: Vec<char> = Vec::new();
    for c in it: s.chars()
        invariant
            v@ == it.seq().take(it.index()),
    {
        v.push(c);
    }
    v
}


/// ASCII lower-casing of one character: `A`..=`Z` become `a`..=`z`, every
/// other character is kept.
pub open spec fn ascii_lower_char(c: char) -> char {
    if 'A' <= c && c <= 'Z' {
        ((c as u32) + 32) as char
    } else {
        c
    }
}

/// ASCII lower-casing of a string, character by character.
pub open spec fn ascii_lower(s: Seq<char>) -> Seq<char> {
    s.map_values(|c: char| ascii_lower_char(c))
}

/// `s` ends with `suffix`.
pub open spec fn has_suffix(s: Seq<char>, suffix: Seq<char>) -> bool {
    suffix.len() <= s.len() && s.subrange(s.len() - suffix.len(), s.len() as int) == suffix
}

/// Whether `c` lower-cases to `target`.
pub fn lowers_to(c: char, target: char) -> (b: bool)
    ensures
        b == (ascii_lower_char(c) == target),
{
    if 'A' <= c && c <= 'Z' {
        (c as u32) + 32 == (target as u32)
    } else {
        c == target
    }
}

/// Whether the ASCII lower-casing of `v` ends with `suffix`.
pub fn ends_with_ignoring_ascii_case(v: &Vec<char>, suffix: &Vec<char>) -> (b: bool)
    ensures
        b == has_suffix(ascii_lower(v@), suffix@),
{
    let n: usize = v.len();
    let m: usize = suffix.len();
    if m > n {
        return false;
    }
    let start: usize = n - m;
    let ghost low = ascii_lower(v@);
    let mut i: usize = 0;
    while i < m
        invariant
            n == v.len(),
            m == suffix.len(),
            start == n - m,
            i <= m,
            low == ascii_lower(v@),
            low.len() == n,
            forall|j: int| 0 <= j < i ==> low[start + j] == suffix@[j],
        decreases m - i,
    {
        if !lowers_to(v[start + i], suffix[i]) {
            assert(low.subrange(start as int, n as int)[i as int] != suffix@[i as int]);
            return false;
        }
        i = i + 1;
    }
    assert(low.subrange(start as int, n as int) =~= suffix@);
    true
}

} // verus!
