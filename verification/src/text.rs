//! Character-level helpers over `Seq<char>` shared by the parsers.

use vstd::prelude::*;

verus! {

broadcast use vstd::string::group_string_axioms;

/// Unicode `White_Space`: the characters that `\s` matches in a Unicode-aware
/// regular expression and for which `char::is_whitespace` holds.
pub open spec fn is_ws(c: char) -> bool {
    ||| ('\u{9}' <= c && c <= '\u{d}')
    ||| c == ' '
    ||| c == '\u{85}'
    ||| c == '\u{a0}'
    ||| c == '\u{1680}'
    ||| ('\u{2000}' <= c && c <= '\u{200a}')
    ||| c == '\u{2028}'
    ||| c == '\u{2029}'
    ||| c == '\u{202f}'
    ||| c == '\u{205f}'
    ||| c == '\u{3000}'
}

/// Executable `is_ws`.
pub fn is_ws_char(c: char) -> (r: bool)
    ensures
        r == is_ws(c),
{
    ('\u{9}' <= c && c <= '\u{d}') || c == ' ' || c == '\u{85}' || c == '\u{a0}' || c
        == '\u{1680}' || ('\u{2000}' <= c && c <= '\u{200a}') || c == '\u{2028}' || c
        == '\u{2029}' || c == '\u{202f}' || c == '\u{205f}' || c == '\u{3000}'
}

/// `lit` occurs in `s` starting at position `p`.
pub open spec fn lit_at(s: Seq<char>, p: int, lit: Seq<char>) -> bool {
    0 <= p && p + lit.len() <= s.len() && s.subrange(p, p + lit.len()) == lit
}

/// `lit` occurs somewhere in `s` (what `str::contains` tests).
pub open spec fn contains_lit(s: Seq<char>, lit: Seq<char>) -> bool {
    exists|p: int| lit_at(s, p, lit)
}

/// Copies the characters of `s` into a vector.
pub fn to_chars(s: &str) -> (v: Vec<char>)
    ensures
        v@ == s@,
{
    let mut v: Vec<char> = Vec::new();
    for c in it: s.chars()
        invariant
            it.seq() == s@,
            v@ == s@.take(it.index()),
    {
        v.push(c);
        assert(s@.take(it.index() + 1) == s@.take(it.index()).push(c));
    }
    assert(s@.take(s@.len() as int) == s@);
    v
}

/// Executable `lit_at`.
pub fn lit_at_exec(s: &Vec<char>, p: usize, lit: &Vec<char>) -> (r: bool)
    ensures
        r == lit_at(s@, p as int, lit@),
{
    if p > s.len() || lit.len() > s.len() - p {
        return false;
    }
    let mut i: usize = 0;
    while i < lit.len()
        invariant
            p + lit@.len() <= s@.len(),
            s@.len() == s.len(),
            i <= lit@.len(),
            forall|k: int| 0 <= k < i ==> s@[p + k] == lit@[k],
        decreases lit@.len() - i,
    {
        if s[p + i] != lit[i] {
            assert(s@.subrange(p as int, p + lit@.len())[i as int] != lit@[i as int]);
            return false;
        }
        i = i + 1;
    }
    assert(s@.subrange(p as int, p + lit@.len()) =~= lit@);
    true
}

/// Leftmost occurrence of `lit` in `s` at or after `from`.
pub fn find_lit(s: &Vec<char>, from: usize, lit: &Vec<char>) -> (r: Option<usize>)
    ensures
        match r {
            Some(p) => from <= p && lit_at(s@, p as int, lit@) && forall|k: int|
                from <= k < p ==> !#[trigger] lit_at(s@, k, lit@),
            None => forall|k: int| from <= k ==> !#[trigger] lit_at(s@, k, lit@),
        },
{
    if from > s.len() {
        return None;
    }
    let mut p = from;
    while p < s.len()
        invariant
            from <= p <= s@.len(),
            forall|k: int| from <= k < p ==> !#[trigger] lit_at(s@, k, lit@),
        decreases s@.len() + 1 - p,
    {
        if lit_at_exec(s, p, lit) {
            return Some(p);
        }
        p = p + 1;
    }
    if lit_at_exec(s, p, lit) {
        return Some(p);
    }
    assert forall|k: int| from <= k implies !#[trigger] lit_at(s@, k, lit@) by {
        if k > p {
            assert(!lit_at(s@, k, lit@));
        }
    }
    None
}

/// First index at or after `from` that holds `c`.
pub fn find_char(s: &Vec<char>, from: usize, c: char) -> (r: Option<usize>)
    ensures
        match r {
            Some(k) => from <= k < s@.len() && s@[k as int] == c && forall|j: int|
                from <= j < k ==> #[trigger] s@[j] != c,
            None => forall|j: int| from <= j < s@.len() ==> #[trigger] s@[j] != c,
        },
{
    let mut k = from;
    while k < s.len()
        invariant
            from <= k,
            forall|j: int| from <= j < k ==> #[trigger] s@[j] != c,
        decreases s@.len() - k,
    {
        if s[k] == c {
            return Some(k);
        }
        k = k + 1;
    }
    None
}

/// Whether `lit` occurs in `s`.
pub fn contains_exec(s: &Vec<char>, lit: &Vec<char>) -> (r: bool)
    ensures
        r == contains_lit(s@, lit@),
{
    match find_lit(s, 0, lit) {
        Some(p) => true,
        None => {
            assert forall|k: int| !lit_at(s@, k, lit@) by {
                if 0 <= k {
                    assert(!lit_at(s@, k, lit@));
                }
            }
            false
        },
    }
}

/// Owned copy of the characters `lo..hi` of `s`.
pub fn slice_string(s: &str, lo: usize, hi: usize) -> (r: String)
    requires
        lo <= hi <= s@.len(),
    ensures
        r@ == s@.subrange(lo as int, hi as int),
{
    s.substring_char(lo, hi).to_owned()
}

} // verus!
