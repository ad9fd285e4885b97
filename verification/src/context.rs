//! What the text around a hash-mismatch report does to its parse: output
//! printed before the report that never mentions a mismatch, and output
//! printed after it, leave the parsed event as it is.

use vstd::prelude::*;

use crate::parser::{
    drv_marker, drv_match, field_match, field_value, first_drv_match, first_field_match,
    got_label, mismatch_at, parses_to, specified_label, MismatchView,
};
use crate::text::{contains_lit, is_ws, lit_at};

verus! {

/// `lit` is not empty and none of its characters is whitespace.
pub open spec fn solid(lit: Seq<char>) -> bool {
    &&& lit.len() > 0
    &&& forall|j: int| 0 <= j < lit.len() ==> !is_ws(#[trigger] lit[j])
}

/// `s` ends with a newline.
pub open spec fn ends_with_newline(s: Seq<char>) -> bool {
    s.len() > 0 && s.last() == '\n'
}

/// The two field labels are solid, and the path marker holds no newline.
proof fn lemma_literals()
    ensures
        solid(specified_label()),
        solid(got_label()),
        forall|j: int| 0 <= j < drv_marker().len() ==> drv_marker()[j] != '\n',
{
    reveal_strlit("hash mismatch in fixed-output derivation '");
    reveal_strlit("specified:");
    reveal_strlit("got:");
}

/// A literal read after a prefix.
proof fn lemma_lit_shift(p: Seq<char>, s: Seq<char>, i: int, lit: Seq<char>)
    requires
        0 <= i,
    ensures
        lit_at(p + s, i + p.len(), lit) == lit_at(s, i, lit),
{
    let x = p + s;
    let k = p.len() as int;
    if i + lit.len() <= s.len() {
        assert(x.subrange(i + k, i + k + lit.len()) =~= s.subrange(i, i + lit.len()));
    }
}

/// The path pattern read after a prefix.
proof fn lemma_drv_match_shift(p: Seq<char>, s: Seq<char>, i: int, q: int)
    requires
        0 <= i,
    ensures
        drv_match(p + s, i + p.len(), q + p.len()) == drv_match(s, i, q),
{
    let x = p + s;
    let k = p.len() as int;
    lemma_lit_shift(p, s, i, drv_marker());
    let a = i + drv_marker().len();
    if drv_match(s, i, q) {
        assert(x[q + k] == s[q]);
        assert forall|j: int| a + k <= j < q + k implies x[j] != '\'' by {
            assert(x[j] == s[j - k]);
        }
    } else if drv_match(x, i + k, q + k) {
        assert(x[q + k] == s[q]);
        assert forall|j: int| a <= j < q implies s[j] != '\'' by {
            assert(x[j + k] == s[j]);
        }
    }
}

/// A field pattern read after a prefix.
proof fn lemma_field_match_shift(
    p: Seq<char>,
    s: Seq<char>,
    label: Seq<char>,
    i: int,
    v: int,
    e: int,
)
    requires
        0 <= i,
    ensures
        field_match(p + s, label, i + p.len(), v + p.len(), e + p.len()) == field_match(
            s,
            label,
            i,
            v,
            e,
        ),
{
    let x = p + s;
    let k = p.len() as int;
    lemma_lit_shift(p, s, i, label);
    let b = i + label.len();
    if field_match(s, label, i, v, e) {
        assert forall|j: int| b + k <= j < v + k implies is_ws(#[trigger] x[j]) by {
            assert(x[j] == s[j - k]);
        }
        assert forall|j: int| v + k <= j < e + k implies !is_ws(#[trigger] x[j]) by {
            assert(x[j] == s[j - k]);
        }
        if e < s.len() {
            assert(x[e + k] == s[e]);
        }
    } else if field_match(x, label, i + k, v + k, e + k) {
        assert forall|j: int| b <= j < v implies is_ws(#[trigger] s[j]) by {
            assert(x[j + k] == s[j]);
        }
        assert forall|j: int| v <= j < e implies !is_ws(#[trigger] s[j]) by {
            assert(x[j + k] == s[j]);
        }
        if e < s.len() {
            assert(x[e + k] == s[e]);
        }
    }
}

/// The leftmost field match after `from` read after a prefix.
proof fn lemma_first_field_shift(
    p: Seq<char>,
    s: Seq<char>,
    label: Seq<char>,
    from: int,
    i: int,
    v: int,
    e: int,
)
    requires
        0 <= from,
    ensures
        first_field_match(p + s, label, from + p.len(), i + p.len(), v + p.len(), e + p.len())
            == first_field_match(s, label, from, i, v, e),
{
    let x = p + s;
    let k = p.len() as int;
    if from <= i {
        lemma_field_match_shift(p, s, label, i, v, e);
    }
    if first_field_match(s, label, from, i, v, e) {
        assert forall|i2: int, v2: int, e2: int|
            from + k <= i2 < i + k implies !#[trigger] field_match(x, label, i2, v2, e2) by {
            lemma_field_match_shift(p, s, label, i2 - k, v2 - k, e2 - k);
        }
    } else if first_field_match(x, label, from + k, i + k, v + k, e + k) {
        assert forall|i2: int, v2: int, e2: int|
            from <= i2 < i implies !#[trigger] field_match(s, label, i2, v2, e2) by {
            lemma_field_match_shift(p, s, label, i2, v2, e2);
        }
    }
}

/// The value of a field after `from` read after a prefix.
proof fn lemma_field_value_shift(
    p: Seq<char>,
    s: Seq<char>,
    label: Seq<char>,
    from: int,
    val: Seq<char>,
)
    requires
        0 <= from,
    ensures
        field_value(p + s, label, from + p.len(), val) == field_value(s, label, from, val),
{
    let x = p + s;
    let k = p.len() as int;
    if field_value(s, label, from, val) {
        let (i, v, e) = choose|i: int, v: int, e: int| #[trigger]
            first_field_match(s, label, from, i, v, e) && val == s.subrange(v, e);
        lemma_first_field_shift(p, s, label, from, i, v, e);
        assert(x.subrange(v + k, e + k) =~= s.subrange(v, e));
        assert(first_field_match(x, label, from + k, i + k, v + k, e + k));
    } else if field_value(x, label, from + k, val) {
        let (i, v, e) = choose|i: int, v: int, e: int| #[trigger]
            first_field_match(x, label, from + k, i, v, e) && val == x.subrange(v, e);
        lemma_first_field_shift(p, s, label, from, i - k, v - k, e - k);
        assert(x.subrange(v, e) =~= s.subrange(v - k, e - k));
        assert(first_field_match(s, label, from, i - k, v - k, e - k));
    }
}

/// No path marker starts inside a newline-ended prefix that holds none.
proof fn lemma_no_marker_in_prefix(p: Seq<char>, s: Seq<char>, i: int)
    requires
        !contains_lit(p, drv_marker()),
        p.len() == 0 || ends_with_newline(p),
        0 <= i < p.len(),
    ensures
        !lit_at(p + s, i, drv_marker()),
{
    lemma_literals();
    let x = p + s;
    let k = p.len() as int;
    let mk = drv_marker();
    if lit_at(x, i, mk) {
        if i + mk.len() <= k {
            assert(x.subrange(i, i + mk.len()) =~= p.subrange(i, i + mk.len()));
            assert(lit_at(p, i, mk));
        } else {
            assert(x[k - 1] == '\n');
            assert(x.subrange(i, i + mk.len())[k - 1 - i] == x[k - 1]);
        }
    }
}

/// The event found after the prefix is the event of the text alone.
proof fn lemma_mismatch_at_shift(p: Seq<char>, s: Seq<char>, i: int, q: int, m: MismatchView)
    requires
        0 <= i,
        drv_match(s, i, q),
    ensures
        mismatch_at(p + s, i + p.len(), q + p.len(), m) == mismatch_at(s, i, q, m),
{
    let x = p + s;
    let k = p.len() as int;
    let a = i + drv_marker().len();
    assert(x.subrange(a + k, q + k) =~= s.subrange(a, q));
    lemma_field_value_shift(p, s, specified_label(), q + 1, m.specified_sha);
    lemma_field_value_shift(p, s, got_label(), q + 1, m.got_sha);
}

/// Output printed before a report, ending with a newline and never
/// mentioning a hash mismatch (stray `specified:` or `got:` lines included),
/// does not change what the report parses to.
pub proof fn lemma_parse_ignores_quiet_prefix(p: Seq<char>, s: Seq<char>, m: MismatchView)
    requires
        !contains_lit(p, drv_marker()),
        p.len() == 0 || ends_with_newline(p),
    ensures
        parses_to(p + s, m) == parses_to(s, m),
{
    let x = p + s;
    let k = p.len() as int;
    if parses_to(s, m) {
        let (i, q) = choose|i: int, q: int| #[trigger] first_drv_match(s, i, q) && mismatch_at(
            s,
            i,
            q,
            m,
        );
        lemma_drv_match_shift(p, s, i, q);
        assert forall|i2: int, q2: int| i2 < i + k implies !#[trigger] drv_match(x, i2, q2) by {
            if 0 <= i2 < k {
                lemma_no_marker_in_prefix(p, s, i2);
            } else if i2 >= k {
                lemma_drv_match_shift(p, s, i2 - k, q2 - k);
            }
        }
        lemma_mismatch_at_shift(p, s, i, q, m);
        assert(first_drv_match(x, i + k, q + k));
    } else if parses_to(x, m) {
        let (i, q) = choose|i: int, q: int| #[trigger] first_drv_match(x, i, q) && mismatch_at(
            x,
            i,
            q,
            m,
        );
        assert(i >= k) by {
            if 0 <= i < k {
                lemma_no_marker_in_prefix(p, s, i);
            }
        }
        lemma_drv_match_shift(p, s, i - k, q - k);
        assert forall|i2: int, q2: int| i2 < i - k implies !#[trigger] drv_match(s, i2, q2) by {
            if 0 <= i2 {
                lemma_drv_match_shift(p, s, i2, q2);
            }
        }
        lemma_mismatch_at_shift(p, s, i - k, q - k, m);
        assert(first_drv_match(s, i - k, q - k));
    }
}

/// A field match found in newline-ended text stays the leftmost one after
/// more text is appended.
proof fn lemma_first_field_append(
    a: Seq<char>,
    b: Seq<char>,
    label: Seq<char>,
    from: int,
    i: int,
    v: int,
    e: int,
)
    requires
        ends_with_newline(a),
        solid(label),
        first_field_match(a, label, from, i, v, e),
    ensures
        first_field_match(a + b, label, from, i, v, e),
        e < a.len(),
{
    let x = a + b;
    let n = a.len() as int;
    assert(e < n) by {
        if e == n {
            assert(!is_ws(a[n - 1]));
        }
    }
    assert(x.subrange(i, i + label.len()) =~= a.subrange(i, i + label.len()));
    assert(x[e] == a[e]);
    assert forall|i2: int, v2: int, e2: int|
        from <= i2 < i implies !#[trigger] field_match(x, label, i2, v2, e2) by {
        if field_match(x, label, i2, v2, e2) {
            let b2 = i2 + label.len();
            assert(x.subrange(i2, b2) =~= a.subrange(i2, b2));
            if e2 < n {
                assert(x[e2] == a[e2]);
                assert forall|j: int| b2 <= j < v2 implies is_ws(#[trigger] a[j]) by {
                    assert(is_ws(x[j]));
                }
                assert forall|j: int| v2 <= j < e2 implies !is_ws(#[trigger] a[j]) by {
                    assert(!is_ws(x[j]));
                }
                assert(field_match(a, label, i2, v2, e2));
            } else if v2 <= n - 1 {
                assert(!is_ws(x[n - 1]));
            } else if i >= b2 {
                assert(is_ws(x[i]));
                assert(x[i] == a.subrange(i, i + label.len())[0]);
            } else {
                assert(is_ws(x[b2]));
                assert(x[b2] == a.subrange(i, i + label.len())[b2 - i]);
            }
        }
    }
}

/// The value of a field found in newline-ended text stays its value after
/// more text is appended.
proof fn lemma_field_value_append(
    a: Seq<char>,
    b: Seq<char>,
    label: Seq<char>,
    from: int,
    val: Seq<char>,
)
    requires
        ends_with_newline(a),
        solid(label),
        field_value(a, label, from, val),
    ensures
        field_value(a + b, label, from, val),
{
    let (i, v, e) = choose|i: int, v: int, e: int| #[trigger]
        first_field_match(a, label, from, i, v, e) && val == a.subrange(v, e);
    lemma_first_field_append(a, b, label, from, i, v, e);
    assert((a + b).subrange(v, e) =~= a.subrange(v, e));
}

/// Output printed after a parsed, newline-ended report, another report
/// included, does not change the event: the first one wins.
pub proof fn lemma_parse_keeps_first_event(a: Seq<char>, b: Seq<char>, m: MismatchView)
    requires
        parses_to(a, m),
        ends_with_newline(a),
    ensures
        parses_to(a + b, m),
{
    lemma_literals();
    let x = a + b;
    let n = a.len() as int;
    let (i, q) = choose|i: int, q: int| #[trigger] first_drv_match(a, i, q) && mismatch_at(
        a,
        i,
        q,
        m,
    );
    let mk = drv_marker();
    assert(x.subrange(i, i + mk.len()) =~= a.subrange(i, i + mk.len()));
    assert(x[q] == a[q]);
    assert(drv_match(x, i, q));
    assert forall|i2: int, q2: int| i2 < i implies !#[trigger] drv_match(x, i2, q2) by {
        if drv_match(x, i2, q2) {
            assert(x.subrange(i2, i2 + mk.len()) =~= a.subrange(i2, i2 + mk.len()));
            if q2 < n {
                assert(x[q2] == a[q2]);
                assert forall|j: int| i2 + mk.len() <= j < q2 implies a[j] != '\'' by {
                    assert(x[j] == a[j]);
                }
                assert(drv_match(a, i2, q2));
            } else {
                assert(x[q] != '\'');
            }
        }
    }
    assert(x.subrange(i + mk.len(), q) =~= a.subrange(i + mk.len(), q));
    lemma_field_value_append(a, b, specified_label(), q + 1, m.specified_sha);
    lemma_field_value_append(a, b, got_label(), q + 1, m.got_sha);
    assert(first_drv_match(x, i, q) && mismatch_at(x, i, q, m));
}

} // verus!
