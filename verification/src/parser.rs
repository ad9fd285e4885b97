//! Typed parse of nix's `hash mismatch in fixed-output derivation` error.
//!
//! The relevant stderr fragment looks like:
//!
//! ```text
//! error: hash mismatch in fixed-output derivation '/nix/store/<32hash>-<name>-<7revprefix>.drv':
//!          specified: sha256-<old>=
//!             got:    sha256-<new>=
//! ```
//!
//! The grammar, written as regular expressions with leftmost-first
//! semantics, is
//!
//! * `hash mismatch in fixed-output derivation '(?P<drv>[^']+)'` for the path,
//! * `^[a-z0-9]{32}-(?P<name>.+)-(?P<rev>[a-f0-9]{7})$` for the file stem of the path,
//! * `specified:\s+(?P<sha>\S+)` and `got:\s+(?P<sha>\S+)`, each searched in
//!   the text after the path's closing quote.
//!
//! Each of them is stated below as a spec predicate over `Seq<char>` and
//! matched by verified code.

use vstd::prelude::*;

use crate::text::{contains_lit, find_char, find_lit, is_ws, is_ws_char, lit_at, lit_at_exec, slice_string, to_chars};

verus! {

broadcast use vstd::string::group_string_axioms;

/// One parsed `hash mismatch in fixed-output derivation` event.
#[derive(Debug, Clone, PartialEq, Eq)]
pub struct HashMismatch {
    /// Path of the offending .drv, e.g. `/nix/store/<32hash>-<name>-<rev7>.drv`.
    pub drv_path: String,
    /// Derivation name with the leading 32-char nix store hash and the
    /// trailing 7-char rev suffix stripped, e.g. `"shikumi"`.
    pub drv_name: String,
    /// 7-character git rev prefix as embedded in the .drv name.
    pub rev_short: String,
    /// The stale hash nix had recorded (SRI or legacy base32).
    pub specified_sha: String,
    /// The SRI hash nix actually computed at fetch-time.
    pub got_sha: String,
}

/// The fields of a [`HashMismatch`] as character sequences.
pub struct MismatchView {
    pub drv_path: Seq<char>,
    pub drv_name: Seq<char>,
    pub rev_short: Seq<char>,
    pub specified_sha: Seq<char>,
    pub got_sha: Seq<char>,
}

impl View for HashMismatch {
    type V = MismatchView;

    open spec fn view(&self) -> MismatchView {
        MismatchView {
            drv_path: self.drv_path@,
            drv_name: self.drv_name@,
            rev_short: self.rev_short@,
            specified_sha: self.specified_sha@,
            got_sha: self.got_sha@,
        }
    }
}

/// The literal that introduces the quoted derivation path.
pub open spec fn drv_marker() -> Seq<char> {
    "hash mismatch in fixed-output derivation '"@
}

/// The label of the stale hash.
pub open spec fn specified_label() -> Seq<char> {
    "specified:"@
}

/// The label of the computed hash.
pub open spec fn got_label() -> Seq<char> {
    "got:"@
}

/// `hash mismatch in fixed-output derivation '(?P<drv>[^']+)'` matches `s`
/// at `p`; the path runs from the end of the marker up to the closing quote at `q`.
pub open spec fn drv_match(s: Seq<char>, p: int, q: int) -> bool {
    let a = p + drv_marker().len();
    &&& lit_at(s, p, drv_marker())
    &&& a < q < s.len()
    &&& s[q] == '\''
    &&& forall|k: int| a <= k < q ==> s[k] != '\''
}

/// The leftmost match of the derivation-path pattern.
pub open spec fn first_drv_match(s: Seq<char>, p: int, q: int) -> bool {
    &&& drv_match(s, p, q)
    &&& forall|p2: int, q2: int| p2 < p ==> !#[trigger] drv_match(s, p2, q2)
}

/// Index of the last `/` in `p`, or `-1`.
pub open spec fn last_slash(p: Seq<char>) -> int
    decreases p.len(),
{
    if p.len() == 0 {
        -1
    } else if p.last() == '/' {
        p.len() - 1
    } else {
        last_slash(p.drop_last())
    }
}

/// Bounds and characterisation of `last_slash`.
pub proof fn lemma_last_slash(p: Seq<char>)
    ensures
        -1 <= last_slash(p) < p.len(),
        last_slash(p) >= 0 ==> p[last_slash(p)] == '/',
        forall|k: int| last_slash(p) < k < p.len() ==> p[k] != '/',
    decreases p.len(),
{
    if p.len() > 0 && p.last() != '/' {
        lemma_last_slash(p.drop_last());
        assert forall|k: int| last_slash(p) < k < p.len() implies p[k] != '/' by {
            if k < p.len() - 1 {
                assert(p[k] == p.drop_last()[k]);
            }
        }
    }
}

/// The final component of a Unix path, as `Path::file_name` returns it:
/// trailing separators and `.` components are ignored; a final `..`, a
/// lone root or a leading `.` give no name.
pub open spec fn path_file_name(p: Seq<char>) -> Option<Seq<char>>
    decreases p.len(),
{
    if p.len() == 0 {
        None
    } else if p.last() == '/' {
        path_file_name(p.drop_last())
    } else {
        let i = last_slash(p);
        let seg = p.subrange(i + 1, p.len() as int);
        if seg == seq!['.'] {
            if i < 0 {
                None
            } else {
                proof {
                    lemma_last_slash(p);
                }
                path_file_name(p.subrange(0, i))
            }
        } else if seg == seq!['.', '.'] {
            None
        } else {
            Some(seg)
        }
    }
}

/// `base` with one trailing `.drv` removed, if it has one.
pub open spec fn strip_drv(base: Seq<char>) -> Seq<char> {
    if base.len() >= 4 && base.subrange(base.len() - 4, base.len() as int) == ".drv"@ {
        base.subrange(0, base.len() - 4)
    } else {
        base
    }
}

/// `[a-z0-9]`
pub open spec fn is_store_hash_char(c: char) -> bool {
    ('a' <= c && c <= 'z') || ('0' <= c && c <= '9')
}

/// `[a-f0-9]`
pub open spec fn is_rev_char(c: char) -> bool {
    ('a' <= c && c <= 'f') || ('0' <= c && c <= '9')
}

/// `^[a-z0-9]{32}-(?P<name>.+)-(?P<rev>[a-f0-9]{7})$` matches `t`
/// (`.` matches every character but a newline).
pub open spec fn stem_matches(t: Seq<char>) -> bool {
    &&& t.len() >= 42
    &&& forall|k: int| 0 <= k < 32 ==> is_store_hash_char(#[trigger] t[k])
    &&& t[32] == '-'
    &&& forall|k: int| 33 <= k < t.len() - 8 ==> #[trigger] t[k] != '\n'
    &&& t[t.len() - 8] == '-'
    &&& forall|k: int| t.len() - 7 <= k < t.len() ==> is_rev_char(#[trigger] t[k])
}

/// The `name` group of a matching stem.
pub open spec fn stem_name(t: Seq<char>) -> Seq<char> {
    t.subrange(33, t.len() - 8)
}

/// The `rev` group of a matching stem.
pub open spec fn stem_rev(t: Seq<char>) -> Seq<char> {
    t.subrange(t.len() - 7, t.len() as int)
}

/// `label\s+(?P<sha>\S+)` matches `s` at `p`, the value occupying `v..e`.
pub open spec fn field_match(s: Seq<char>, label: Seq<char>, p: int, v: int, e: int) -> bool {
    let b = p + label.len();
    &&& lit_at(s, p, label)
    &&& b < v < e <= s.len()
    &&& forall|k: int| b <= k < v ==> is_ws(#[trigger] s[k])
    &&& forall|k: int| v <= k < e ==> !is_ws(#[trigger] s[k])
    &&& (e == s.len() || is_ws(s[e]))
}

/// The leftmost match of `label\s+(?P<sha>\S+)` in the text of `s` that
/// starts at `from`.
pub open spec fn first_field_match(
    s: Seq<char>,
    label: Seq<char>,
    from: int,
    p: int,
    v: int,
    e: int,
) -> bool {
    &&& from <= p
    &&& field_match(s, label, p, v, e)
    &&& forall|p2: int, v2: int, e2: int|
        from <= p2 < p ==> !#[trigger] field_match(s, label, p2, v2, e2)
}

/// The value of the leftmost `label\s+(\S+)` after `from` is `val`.
pub open spec fn field_value(s: Seq<char>, label: Seq<char>, from: int, val: Seq<char>) -> bool {
    exists|p: int, v: int, e: int|
        #[trigger] first_field_match(s, label, from, p, v, e) && val == s.subrange(v, e)
}

/// Given the leftmost path match `p, q`, the rest of `s` yields `m`.
pub open spec fn mismatch_at(s: Seq<char>, p: int, q: int, m: MismatchView) -> bool {
    let drv = s.subrange(p + drv_marker().len(), q);
    &&& m.drv_path == drv
    &&& path_file_name(drv) matches Some(base) && {
        let stem = strip_drv(base);
        &&& stem_matches(stem)
        &&& m.drv_name == stem_name(stem)
        &&& m.rev_short == stem_rev(stem)
    }
    &&& field_value(s, specified_label(), q + 1, m.specified_sha)
    &&& field_value(s, got_label(), q + 1, m.got_sha)
}

/// `s` holds a hash-mismatch event whose fields are `m`.
pub open spec fn parses_to(s: Seq<char>, m: MismatchView) -> bool {
    exists|p: int, q: int| #[trigger] first_drv_match(s, p, q) && mismatch_at(s, p, q, m)
}

/// Every store hash of 32 characters from `a`..`z` and `0`..`9` (nix's base32
/// uses `w`, `x`, `y` and `z` too), followed by `-`, a name without a newline,
/// `-` and 7 hex digits, is a drv stem whose name and rev are those parts.
pub proof fn lemma_store_stem_parts(h: Seq<char>, n: Seq<char>, r: Seq<char>)
    requires
        h.len() == 32,
        forall|k: int| 0 <= k < 32 ==> ('a' <= #[trigger] h[k] && h[k] <= 'z') || ('0' <= h[k]
            && h[k] <= '9'),
        n.len() > 0,
        forall|k: int| 0 <= k < n.len() ==> #[trigger] n[k] != '\n',
        r.len() == 7,
        forall|k: int| 0 <= k < 7 ==> ('a' <= #[trigger] r[k] && r[k] <= 'f') || ('0' <= r[k]
            && r[k] <= '9'),
    ensures
        ({
            let t = h + seq!['-'] + n + seq!['-'] + r;
            &&& stem_matches(t)
            &&& stem_name(t) == n
            &&& stem_rev(t) == r
        }),
{
    let t = h + seq!['-'] + n + seq!['-'] + r;
    let m = n.len() as int;
    assert(t.len() == 41 + m);
    assert forall|k: int| 0 <= k < 32 implies is_store_hash_char(#[trigger] t[k]) by {
        assert(t[k] == h[k]);
    }
    assert(t[32] == '-');
    assert forall|k: int| 33 <= k < t.len() - 8 implies #[trigger] t[k] != '\n' by {
        assert(t[k] == n[k - 33]);
    }
    assert(t[t.len() - 8] == '-');
    assert forall|k: int| t.len() - 7 <= k < t.len() implies is_rev_char(#[trigger] t[k]) by {
        assert(t[k] == r[k - (t.len() - 7)]);
    }
    assert(stem_name(t) =~= n);
    assert(stem_rev(t) =~= r);
}

/// A store path `/nix/store/<stem>.drv`, whose stem holds no `/`, has the
/// file name `<stem>.drv`, and stripping `.drv` gives back the stem.
pub proof fn lemma_store_path_file_name(stem: Seq<char>)
    requires
        forall|k: int| 0 <= k < stem.len() ==> #[trigger] stem[k] != '/',
    ensures
        path_file_name("/nix/store/"@ + stem + ".drv"@) == Some(stem + ".drv"@),
        strip_drv(stem + ".drv"@) == stem,
{
    reveal_strlit("/nix/store/");
    reveal_strlit(".drv");
    let base = stem + ".drv"@;
    let p = "/nix/store/"@ + base;
    assert(p.len() == 11 + stem.len() + 4);
    assert(p[10] == '/');
    assert(p.last() == 'v');
    lemma_last_slash(p);
    let i = last_slash(p);
    assert forall|k: int| 11 <= k < p.len() implies p[k] != '/' by {
        if k < 11 + stem.len() {
            assert(p[k] == stem[k - 11]);
        } else {
            assert(p[k] == ".drv"@[k - 11 - stem.len()]);
        }
    }
    assert(i == 10) by {
        if i < 10 {
            assert(p[10] != '/');
        }
    }
    assert(p.subrange(11, p.len() as int) =~= base);
    assert(base.len() >= 4);
    assert(base != seq!['.']);
    assert(base != seq!['.', '.']);
    assert(base.subrange(base.len() - 4, base.len() as int) =~= ".drv"@);
    assert(base.subrange(0, base.len() - 4) =~= stem);
    assert(p.last() != '/');
    assert(p.subrange(i + 1, p.len() as int) == base);
    assert(path_file_name(p) == Some(base));
    assert(p =~= "/nix/store/"@ + stem + ".drv"@);
}

/// Output that never mentions a hash mismatch parses to nothing.
pub proof fn lemma_no_marker_no_parse(s: Seq<char>, m: MismatchView)
    requires
        !contains_lit(s, drv_marker()),
    ensures
        !parses_to(s, m),
{
    if parses_to(s, m) {
        let (p, q) = choose|p: int, q: int| #[trigger]
            first_drv_match(s, p, q) && mismatch_at(s, p, q, m);
        assert(lit_at(s, p, drv_marker()));
    }
}

/// There is at most one leftmost path match.
pub proof fn lemma_first_drv_match_unique(s: Seq<char>, p1: int, q1: int, p2: int, q2: int)
    requires
        first_drv_match(s, p1, q1),
        first_drv_match(s, p2, q2),
    ensures
        p1 == p2 && q1 == q2,
{
    assert(!(p2 < p1)) by {
        if p2 < p1 {
            assert(!drv_match(s, p2, q2));
        }
    }
    assert(!(p1 < p2)) by {
        if p1 < p2 {
            assert(!drv_match(s, p1, q1));
        }
    }
    if q1 < q2 {
        assert(s[q1] != '\'');
    }
    if q2 < q1 {
        assert(s[q2] != '\'');
    }
}

/// There is at most one leftmost field match.
pub proof fn lemma_first_field_match_unique(
    s: Seq<char>,
    label: Seq<char>,
    from: int,
    p1: int,
    v1: int,
    e1: int,
    p2: int,
    v2: int,
    e2: int,
)
    requires
        first_field_match(s, label, from, p1, v1, e1),
        first_field_match(s, label, from, p2, v2, e2),
    ensures
        p1 == p2 && v1 == v2 && e1 == e2,
{
    assert(!(p2 < p1)) by {
        if p2 < p1 {
            assert(!field_match(s, label, p2, v2, e2));
        }
    }
    assert(!(p1 < p2)) by {
        if p1 < p2 {
            assert(!field_match(s, label, p1, v1, e1));
        }
    }
    if v1 < v2 {
        assert(is_ws(s[v1]));
    }
    if v2 < v1 {
        assert(is_ws(s[v2]));
    }
    if e1 < e2 {
        assert(!is_ws(s[e1]));
    }
    if e2 < e1 {
        assert(!is_ws(s[e2]));
    }
}

/// Parsing is a function of the text: one text parses to at most one event.
pub proof fn lemma_parse_deterministic(s: Seq<char>, m1: MismatchView, m2: MismatchView)
    requires
        parses_to(s, m1),
        parses_to(s, m2),
    ensures
        m1 == m2,
{
    let (p1, q1) = choose|p: int, q: int| #[trigger]
        first_drv_match(s, p, q) && mismatch_at(s, p, q, m1);
    let (p2, q2) = choose|p: int, q: int| #[trigger]
        first_drv_match(s, p, q) && mismatch_at(s, p, q, m2);
    lemma_first_drv_match_unique(s, p1, q1, p2, q2);
    let (a1, b1, c1) = choose|p: int, v: int, e: int| #[trigger]
        first_field_match(s, specified_label(), q1 + 1, p, v, e) && m1.specified_sha
            == s.subrange(v, e);
    let (a2, b2, c2) = choose|p: int, v: int, e: int| #[trigger]
        first_field_match(s, specified_label(), q1 + 1, p, v, e) && m2.specified_sha
            == s.subrange(v, e);
    lemma_first_field_match_unique(s, specified_label(), q1 + 1, a1, b1, c1, a2, b2, c2);
    let (d1, f1, g1) = choose|p: int, v: int, e: int| #[trigger]
        first_field_match(s, got_label(), q1 + 1, p, v, e) && m1.got_sha == s.subrange(v, e);
    let (d2, f2, g2) = choose|p: int, v: int, e: int| #[trigger]
        first_field_match(s, got_label(), q1 + 1, p, v, e) && m2.got_sha == s.subrange(v, e);
    lemma_first_field_match_unique(s, got_label(), q1 + 1, d1, f1, g1, d2, f2, g2);
}

/// Where the leftmost path match yields no event, the text parses to nothing.
proof fn lemma_no_event_no_parse(s: Seq<char>, p: int, q: int)
    requires
        first_drv_match(s, p, q),
        forall|m: MismatchView| !#[trigger] mismatch_at(s, p, q, m),
    ensures
        forall|m: MismatchView| !parses_to(s, m),
{
    assert forall|m: MismatchView| !parses_to(s, m) by {
        if parses_to(s, m) {
            let (p1, q1) = choose|p1: int, q1: int| #[trigger]
                first_drv_match(s, p1, q1) && mismatch_at(s, p1, q1, m);
            lemma_first_drv_match_unique(s, p1, q1, p, q);
        }
    }
}

/// Leftmost match of the derivation-path pattern: `(p, a, q)` with `a` the
/// start of the path.
fn find_drv(v: &Vec<char>) -> (r: Option<(usize, usize, usize)>)
    ensures
        match r {
            Some((p, a, q)) => first_drv_match(v@, p as int, q as int) && a == p
                + drv_marker().len(),
            None => forall|p: int, q: int| !#[trigger] drv_match(v@, p, q),
        },
{
    let marker = to_chars("hash mismatch in fixed-output derivation '");
    let mut p: usize = 0;
    loop
        invariant
            marker@ == drv_marker(),
            p <= v@.len() + 1,
            forall|p2: int, q2: int| p2 < p ==> !#[trigger] drv_match(v@, p2, q2),
        decreases v@.len() + 1 - p,
    {
        if p > v.len() {
            assert forall|p2: int, q2: int| !#[trigger] drv_match(v@, p2, q2) by {
                if p2 >= p {
                    assert(!lit_at(v@, p2, drv_marker()));
                }
            }
            return None;
        }
        match find_lit(v, p, &marker) {
            None => {
                assert forall|p2: int, q2: int| !#[trigger] drv_match(v@, p2, q2) by {
                    if p2 >= p {
                        assert(!lit_at(v@, p2, drv_marker()));
                    }
                }
                return None;
            },
            Some(pm) => {
                let a = pm + marker.len();
                match find_char(v, a, '\'') {
                    None => {
                        assert forall|p2: int, q2: int| !#[trigger] drv_match(v@, p2, q2) by {
                            if p2 >= p && p2 < pm {
                                assert(!lit_at(v@, p2, drv_marker()));
                            }
                            if p2 >= pm && drv_match(v@, p2, q2) {
                                assert(v@[q2] != '\'');
                            }
                        }
                        return None;
                    },
                    Some(q) => {
                        if q > a {
                            assert forall|p2: int, q2: int| p2 < pm implies !#[trigger] drv_match(
                                v@,
                                p2,
                                q2,
                            ) by {
                                if p2 >= p {
                                    assert(!lit_at(v@, p2, drv_marker()));
                                }
                            }
                            return Some((pm, a, q));
                        }
                        assert forall|p2: int, q2: int| p2 < pm + 1 implies !#[trigger] drv_match(
                            v@,
                            p2,
                            q2,
                        ) by {
                            if p2 >= p && p2 < pm {
                                assert(!lit_at(v@, p2, drv_marker()));
                            }
                            if p2 == pm && drv_match(v@, p2, q2) {
                                assert(v@[a as int] != '\'');
                            }
                        }
                        p = pm + 1;
                    },
                }
            },
        }
    }
}

/// `Path::file_name` of the characters `lo..hi` of `v`, as a range of `v`.
pub(crate) fn file_name_range(v: &Vec<char>, lo: usize, hi: usize) -> (r: Option<(usize, usize)>)
    requires
        lo <= hi <= v@.len(),
    ensures
        match r {
            Some((a, b)) => lo <= a <= b <= hi && path_file_name(v@.subrange(lo as int, hi as int))
                == Some(v@.subrange(a as int, b as int)),
            None => path_file_name(v@.subrange(lo as int, hi as int)) is None,
        },
{
    let mut end = hi;
    loop
        invariant
            lo <= end <= hi <= v@.len(),
            path_file_name(v@.subrange(lo as int, end as int)) == path_file_name(
                v@.subrange(lo as int, hi as int),
            ),
        decreases end,
    {
        let ghost sub = v@.subrange(lo as int, end as int);
        if end == lo {
            return None;
        }
        if v[end - 1] == '/' {
            assert(sub.drop_last() =~= v@.subrange(lo as int, end - 1));
            end = end - 1;
        } else {
            let mut j = end;
            while j > lo && v[j - 1] != '/'
                invariant
                    lo <= j <= end <= v@.len(),
                    forall|k: int| j <= k < end ==> #[trigger] v@[k] != '/',
                decreases j,
            {
                j = j - 1;
            }
            proof {
                lemma_last_slash(sub);
                let i = last_slash(sub);
                if i >= 0 {
                    assert(sub[i] == '/');
                    assert(v@[lo + i] == '/');
                    assert(lo + i < j);
                }
                if j > lo {
                    assert(sub[j - 1 - lo] == '/');
                    assert(i >= j - 1 - lo);
                }
                assert(i == j - 1 - lo);
                assert(sub.subrange(i + 1, sub.len() as int) =~= v@.subrange(j as int, end as int));
            }
            let ghost seg = v@.subrange(j as int, end as int);
            if end - j == 1 && v[j] == '.' {
                assert(seg =~= seq!['.']);
                if j == lo {
                    return None;
                }
                assert(sub.subrange(0, j - 1 - lo) =~= v@.subrange(lo as int, j - 1));
                end = j - 1;
            } else if end - j == 2 && v[j] == '.' && v[j + 1] == '.' {
                assert(seg =~= seq!['.', '.']);
                return None;
            } else {
                assert(seg != seq!['.']) by {
                    if end - j == 1 {
                        assert(seg[0] != seq!['.'][0]);
                    }
                }
                assert(seg != seq!['.', '.']) by {
                    if end - j == 2 {
                        assert(seg[0] != seq!['.', '.'][0] || seg[1] != seq!['.', '.'][1]);
                    }
                }
                return Some((j, end));
            }
        }
    }
}

/// Executable `stem_matches` on the characters `lo..hi` of `v`.
fn stem_matches_range(v: &Vec<char>, lo: usize, hi: usize) -> (r: bool)
    requires
        lo <= hi <= v@.len(),
    ensures
        r == stem_matches(v@.subrange(lo as int, hi as int)),
{
    let ghost t = v@.subrange(lo as int, hi as int);
    if hi - lo < 42 {
        return false;
    }
    let mut k: usize = 0;
    while k < 32
        invariant
            hi - lo >= 42,
            lo <= hi <= v@.len(),
            t == v@.subrange(lo as int, hi as int),
            k <= 32,
            forall|j: int| 0 <= j < k ==> is_store_hash_char(#[trigger] t[j]),
        decreases 32 - k,
    {
        let c = v[lo + k];
        if !(('a' <= c && c <= 'z') || ('0' <= c && c <= '9')) {
            assert(!is_store_hash_char(t[k as int]));
            return false;
        }
        k = k + 1;
    }
    if v[lo + 32] != '-' || v[hi - 8] != '-' {
        return false;
    }
    let mut k: usize = lo + 33;
    while k < hi - 8
        invariant
            hi - lo >= 42,
            lo <= hi <= v@.len(),
            t == v@.subrange(lo as int, hi as int),
            lo + 33 <= k <= hi - 8,
            forall|j: int| 33 <= j < k - lo ==> #[trigger] t[j] != '\n',
        decreases hi - 8 - k,
    {
        if v[k] == '\n' {
            assert(t[k - lo] == '\n');
            return false;
        }
        k = k + 1;
    }
    let mut k: usize = hi - 7;
    while k < hi
        invariant
            hi - lo >= 42,
            lo <= hi <= v@.len(),
            t == v@.subrange(lo as int, hi as int),
            hi - 7 <= k <= hi,
            forall|j: int| t.len() - 7 <= j < k - lo ==> is_rev_char(#[trigger] t[j]),
        decreases hi - k,
    {
        let c = v[k];
        if !(('a' <= c && c <= 'f') || ('0' <= c && c <= '9')) {
            assert(!is_rev_char(t[k - lo]));
            return false;
        }
        k = k + 1;
    }
    true
}

/// Leftmost match of `label\s+(\S+)` at or after `from`: `(p, value start, value end)`.
fn find_field(v: &Vec<char>, from: usize, label: &Vec<char>) -> (r: Option<(usize, usize, usize)>)
    ensures
        match r {
            Some((p, a, e)) => first_field_match(
                v@,
                label@,
                from as int,
                p as int,
                a as int,
                e as int,
            ),
            None => forall|p: int, a: int, e: int|
                from <= p ==> !#[trigger] field_match(v@, label@, p, a, e),
        },
{
    let mut p = from;
    loop
        invariant
            from <= p,
            v@.len() == v.len(),
            forall|p2: int, a2: int, e2: int|
                from <= p2 < p ==> !#[trigger] field_match(v@, label@, p2, a2, e2),
        decreases v@.len() + 1 - p,
    {
        match find_lit(v, p, label) {
            None => {
                assert forall|p2: int, a2: int, e2: int| from <= p2 implies !#[trigger] field_match(
                    v@,
                    label@,
                    p2,
                    a2,
                    e2,
                ) by {
                    if p2 >= p {
                        assert(!lit_at(v@, p2, label@));
                    }
                }
                return None;
            },
            Some(pl) => {
                let b = pl + label.len();
                let mut j = b;
                while j < v.len() && is_ws_char(v[j])
                    invariant
                        b <= j <= v@.len(),
                        forall|k: int| b <= k < j ==> is_ws(#[trigger] v@[k]),
                    decreases v@.len() - j,
                {
                    j = j + 1;
                }
                if j > b && j < v.len() {
                    let mut e = j;
                    while e < v.len() && !is_ws_char(v[e])
                        invariant
                            j <= e <= v@.len(),
                            forall|k: int| j <= k < e ==> !is_ws(#[trigger] v@[k]),
                        decreases v@.len() - e,
                    {
                        e = e + 1;
                    }
                    assert forall|p2: int, a2: int, e2: int|
                        from <= p2 < pl implies !#[trigger] field_match(v@, label@, p2, a2, e2) by {
                        if p2 >= p {
                            assert(!lit_at(v@, p2, label@));
                        }
                    }
                    return Some((pl, j, e));
                }
                assert forall|p2: int, a2: int, e2: int|
                    from <= p2 < pl + 1 implies !#[trigger] field_match(v@, label@, p2, a2, e2) by {
                    if p2 >= p && p2 < pl {
                        assert(!lit_at(v@, p2, label@));
                    }
                    if p2 == pl && field_match(v@, label@, p2, a2, e2) {
                        if j == b {
                            assert(is_ws(v@[b as int]));
                        } else {
                            assert(is_ws(v@[a2]));
                        }
                    }
                }
                if pl >= v.len() {
                    assert forall|p2: int, a2: int, e2: int| from <= p2 implies !#[trigger] field_match(
                        v@,
                        label@,
                        p2,
                        a2,
                        e2,
                    ) by {
                        if p2 > pl {
                            assert(!lit_at(v@, p2, label@));
                        }
                    }
                    return None;
                }
                p = pl + 1;
            },
        }
    }
}

impl HashMismatch {
    /// Parse the first `hash mismatch` event from a slab of nix
    /// stderr/stdout. Returns `None` if the expected shape isn't
    /// present (e.g. clean rebuild, or an unrelated error).
    pub fn parse(stderr: &str) -> (r: Option<HashMismatch>)
        ensures
            match r {
                Some(m) => parses_to(stderr@, m@),
                None => forall|m: MismatchView| !parses_to(stderr@, m),
            },
    {
        let v = to_chars(stderr);
        let ghost s = stderr@;
        let (p, a, q) = match find_drv(&v) {
            Some(x) => x,
            None => {
                assert forall|m: MismatchView| !parses_to(s, m) by {
                    if parses_to(s, m) {
                        let (p1, q1) = choose|p1: int, q1: int| #[trigger]
                            first_drv_match(s, p1, q1) && mismatch_at(s, p1, q1, m);
                        assert(drv_match(s, p1, q1));
                    }
                }
                return None;
            },
        };
        let ghost drv = s.subrange(a as int, q as int);
        let (fa, fb) = match file_name_range(&v, a, q) {
            Some(x) => x,
            None => {
                proof {
                    lemma_no_event_no_parse(s, p as int, q as int);
                }
                return None;
            },
        };
        let ghost base = s.subrange(fa as int, fb as int);
        let dotdrv = to_chars(".drv");
        proof {
            reveal_strlit(".drv");
        }
        let sb = if fb - fa >= 4 && lit_at_exec(&v, fb - 4, &dotdrv) {
            assert(base.subrange(base.len() - 4, base.len() as int) =~= s.subrange(
                fb - 4,
                fb as int,
            ));
            assert(base.subrange(0, base.len() - 4) =~= s.subrange(fa as int, fb - 4));
            fb - 4
        } else {
            assert(fb - fa >= 4 ==> base.subrange(base.len() - 4, base.len() as int)
                =~= s.subrange(fb - 4, fb as int));
            fb
        };
        let ghost stem = s.subrange(fa as int, sb as int);
        assert(strip_drv(base) == stem);
        if !stem_matches_range(&v, fa, sb) {
            proof {
                lemma_no_event_no_parse(s, p as int, q as int);
            }
            return None;
        }
        let vlen = v.len();
        assert(q < vlen);
        let spec_label = to_chars("specified:");
        let got_lab = to_chars("got:");
        let (sp, sv, se) = match find_field(&v, q + 1, &spec_label) {
            Some(x) => x,
            None => {
                proof {
                    assert forall|m: MismatchView| !#[trigger] mismatch_at(s, p as int, q as int, m) by {
                        if mismatch_at(s, p as int, q as int, m) {
                            let (x, y, z) = choose|x: int, y: int, z: int| #[trigger]
                                first_field_match(s, specified_label(), q + 1, x, y, z)
                                    && m.specified_sha == s.subrange(y, z);
                            assert(field_match(s, specified_label(), x, y, z));
                        }
                    }
                    lemma_no_event_no_parse(s, p as int, q as int);
                }
                return None;
            },
        };
        let (gp, gv, ge) = match find_field(&v, q + 1, &got_lab) {
            Some(x) => x,
            None => {
                proof {
                    assert forall|m: MismatchView| !#[trigger] mismatch_at(s, p as int, q as int, m) by {
                        if mismatch_at(s, p as int, q as int, m) {
                            let (x, y, z) = choose|x: int, y: int, z: int| #[trigger]
                                first_field_match(s, got_label(), q + 1, x, y, z) && m.got_sha
                                    == s.subrange(y, z);
                            assert(field_match(s, got_label(), x, y, z));
                        }
                    }
                    lemma_no_event_no_parse(s, p as int, q as int);
                }
                return None;
            },
        };
        let m = HashMismatch {
            drv_path: slice_string(stderr, a, q),
            drv_name: slice_string(stderr, fa + 33, sb - 8),
            rev_short: slice_string(stderr, sb - 7, sb),
            specified_sha: slice_string(stderr, sv, se),
            got_sha: slice_string(stderr, gv, ge),
        };
        proof {
            assert(stem_name(stem) =~= s.subrange(fa + 33, sb - 8));
            assert(stem_rev(stem) =~= s.subrange(sb - 7, sb as int));
            assert(field_value(s, specified_label(), q + 1, m.specified_sha@));
            assert(field_value(s, got_label(), q + 1, m.got_sha@));
            assert(mismatch_at(s, p as int, q as int, m@));
        }
        Some(m)
    }
}

} // verus!
