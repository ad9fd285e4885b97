//! What the block search finds after a rewrite: the search reads back the
//! sha that `replace_sha` wrote, and a second rewrite to the same value
//! changes nothing.

use vstd::prelude::*;

use crate::cargo_nix::{
    block_at, find_block_from, hex40_at, lemma_next_quote, lemma_sha_line_bounds, lemma_skip_ws, newline_gap, next_quote,
    quote_semi, rev_key, rev_line, rewrite_all, rewrite_from, sha_key, sha_line_at, skip_ws,
    starts_with, url_line, url_prefix, BlockMatch,
};
use crate::parser::is_rev_char;
use crate::text::{is_ws, lit_at};

verus! {

/// `s` and `t` hold the same characters on `lo..hi`.
pub open spec fn agree(s: Seq<char>, t: Seq<char>, lo: int, hi: int) -> bool {
    &&& 0 <= lo
    &&& hi <= s.len()
    &&& hi <= t.len()
    &&& forall|k: int| lo <= k < hi ==> s[k] == t[k]
}

/// `x` holds no `"`.
pub open spec fn quote_free(x: Seq<char>) -> bool {
    forall|k: int| 0 <= k < x.len() ==> x[k] != '"'
}

proof fn lemma_agree_sym(s: Seq<char>, t: Seq<char>, lo: int, hi: int)
    requires
        agree(s, t, lo, hi),
    ensures
        agree(t, s, lo, hi),
{
}

proof fn lemma_lit_transfer(s: Seq<char>, t: Seq<char>, p: int, lit: Seq<char>)
    requires
        0 <= p,
        agree(s, t, p, p + lit.len()),
    ensures
        lit_at(s, p, lit) == lit_at(t, p, lit),
{
    assert(t.subrange(p, p + lit.len()) =~= s.subrange(p, p + lit.len()));
}

proof fn lemma_skip_ws_transfer(s: Seq<char>, t: Seq<char>, i: int)
    requires
        0 <= i <= s.len(),
        skip_ws(s, i) < s.len(),
        agree(s, t, i, skip_ws(s, i) + 1),
    ensures
        skip_ws(t, i) == skip_ws(s, i),
    decreases s.len() - i,
{
    lemma_skip_ws(s, i);
    if is_ws(s[i]) {
        lemma_skip_ws_transfer(s, t, i + 1);
    }
}

proof fn lemma_next_quote_transfer(s: Seq<char>, t: Seq<char>, i: int)
    requires
        0 <= i <= s.len(),
        next_quote(s, i) < s.len(),
        agree(s, t, i, next_quote(s, i) + 1),
    ensures
        next_quote(t, i) == next_quote(s, i),
    decreases s.len() - i,
{
    lemma_next_quote(s, i);
    if s[i] != '"' {
        lemma_next_quote_transfer(s, t, i + 1);
    }
}

proof fn lemma_newline_gap_transfer(s: Seq<char>, t: Seq<char>, i: int)
    requires
        0 <= i <= s.len(),
        newline_gap(s, i) matches Some(j) && j < s.len() && agree(s, t, i, j + 1),
    ensures
        newline_gap(t, i) == newline_gap(s, i),
{
    let j = skip_ws(s, i);
    lemma_skip_ws(s, i);
    lemma_skip_ws_transfer(s, t, i);
    let k = choose|k: int| i <= k < j && s[k] == '\n';
    assert(i <= k < j && t[k] == '\n');
}

/// A block match reads only its own characters.
proof fn lemma_block_local(s: Seq<char>, t: Seq<char>, u: Seq<char>, p: int)
    requires
        block_at(s, u, p) matches Some(b) && agree(s, t, p, b.end),
    ensures
        block_at(t, u, p) == block_at(s, u, p),
{
    let b = block_at(s, u, p)->0;
    reveal_strlit("rev = \"");
    reveal_strlit("sha256 = \"");
    reveal_strlit("\";");
    lemma_lit_transfer(s, t, p, u);
    let i1 = p + u.len();
    let j1 = skip_ws(s, i1);
    lemma_skip_ws(s, i1);
    lemma_newline_gap_transfer(s, t, i1);
    let r = j1 + 7;
    lemma_lit_transfer(s, t, j1, rev_key());
    assert(hex40_at(t, r)) by {
        assert forall|k: int| r <= k < r + 40 implies is_rev_char(#[trigger] t[k]) by {
            assert(is_rev_char(s[k]));
        }
    }
    lemma_lit_transfer(s, t, r + 40, quote_semi());
    let i2 = r + 42;
    let j2 = skip_ws(s, i2);
    lemma_skip_ws(s, i2);
    lemma_newline_gap_transfer(s, t, i2);
    lemma_lit_transfer(s, t, j2, sha_key());
    let a = j2 + 10;
    lemma_next_quote(s, a);
    lemma_next_quote_transfer(s, t, a);
    let e = next_quote(s, a);
    lemma_lit_transfer(s, t, e, quote_semi());
}

/// `url = "h`: how every url line of the fleet starts.
pub open spec fn url_open() -> Seq<char> {
    "url = \"h"@
}

/// The url line of a quote-free name has its quotes only where the line
/// opens and closes its string.
proof fn lemma_url_line_shape(drv_name: Seq<char>)
    requires
        quote_free(drv_name),
    ensures
        ({
            let u = url_line(drv_name);
            &&& u.len() >= 9
            &&& u.subrange(0, 8) == url_open()
            &&& u[u.len() - 2] == '"'
            &&& u[u.len() - 1] == ';'
            &&& forall|k: int| 0 <= k < u.len() && u[k] == '"' ==> k == 6 || k == u.len() - 2
        }),
{
    reveal_strlit("url = \"");
    reveal_strlit("https://github.com/pleme-io/");
    reveal_strlit("\";");
    reveal_strlit("url = \"h");
    let u = url_line(drv_name);
    assert(u.subrange(0, 8) =~= url_open());
    assert forall|k: int| 0 <= k < u.len() && u[k] == '"' implies k == 6 || k == u.len() - 2 by {
        if 7 <= k < 35 {
            assert(u[k] == url_prefix()[k - 7]);
        } else if 35 <= k < 35 + drv_name.len() {
            assert(u[k] == drv_name[k - 35]);
        }
    }
}

/// A block that starts before `c`, where `url = "h` stands, ends at or
/// before `c`: blocks of a quote-free url never straddle the next url line.
proof fn lemma_block_ends_before_url(x: Seq<char>, drv_name: Seq<char>, p: int, c: int)
    requires
        quote_free(drv_name),
        block_at(x, url_line(drv_name), p) is Some,
        p < c,
        lit_at(x, c, url_open()),
    ensures
        block_at(x, url_line(drv_name), p)->0.end <= c,
{
    let u = url_line(drv_name);
    let b = block_at(x, u, p)->0;
    lemma_url_line_shape(drv_name);
    reveal_strlit("url = \"h");
    reveal_strlit("rev = \"");
    reveal_strlit("sha256 = \"");
    reveal_strlit("\";");
    let l = u.len() as int;
    let i1 = p + l;
    let j1 = skip_ws(x, i1);
    lemma_skip_ws(x, i1);
    let r = j1 + 7;
    let i2 = r + 42;
    let j2 = skip_ws(x, i2);
    lemma_skip_ws(x, i2);
    let a = j2 + 10;
    let e = next_quote(x, a);
    lemma_next_quote(x, a);
    let w = x.subrange(c, c + 8);
    assert(w == url_open());
    assert(w[0] == x[c] && w[1] == x[c + 1] && w[2] == x[c + 2] && w[3] == x[c + 3]);
    assert(w[4] == x[c + 4] && w[5] == x[c + 5] && w[6] == x[c + 6] && w[7] == x[c + 7]);
    assert(x[c] == 'u');
    assert(x[c + 1] == 'r');
    assert(x[c + 2] == 'l');
    assert(x[c + 3] == ' ');
    assert(x[c + 4] == '=');
    assert(x[c + 5] == ' ');
    assert(x[c + 6] == '"');
    assert(x[c + 7] == 'h');
    assert(x[e] == '"');
    assert(x[e + 1] == ';');
    if b.end > c {
        let k = c + 6;
        if k >= b.end {
            // The block's final `;` would fall inside `url = `.
            assert(x[b.end - 1] == ';');
        } else if k < i1 {
            assert(x[k] == u[k - p]);
            if k - p == l - 2 {
                assert(x[k + 1] == u[l - 1]);
            }
        } else if k < j1 {
            assert(is_ws(x[k]));
        } else if k < r {
            assert(x.subrange(j1, j1 + 7)[k - j1] == x[k]);
            if k == j1 + 6 {
                assert(is_rev_char(x[r]));
            }
        } else if k < r + 40 {
            assert(is_rev_char(x[k]));
        } else if k < i2 {
            assert(x.subrange(r + 40, r + 42)[k - r - 40] == x[k]);
            if k == r + 40 {
                assert(x.subrange(r + 40, r + 42)[1] == x[k + 1]);
            }
        } else if k < j2 {
            assert(is_ws(x[k]));
        } else if k < a {
            assert(x.subrange(j2, j2 + 10)[k - j2] == x[k]);
            if k == j2 + 9 {
                assert(x.subrange(j2, j2 + 10)[3] == x[c]);
            }
        } else if k < e {
            assert(x[k] != '"');
        } else if k == e {
        } else {
            assert(k == e + 1);
        }
    }
}

/// Where the parts of a block match lie.
proof fn lemma_block_layout(s: Seq<char>, u: Seq<char>, p: int)
    requires
        block_at(s, u, p) is Some,
    ensures
        ({
            let b = block_at(s, u, p)->0;
            &&& b.start == p
            &&& 0 <= p
            &&& p + u.len() <= skip_ws(s, p + u.len()) == b.rev_start - 7
            &&& b.rev_start + 42 <= skip_ws(s, b.rev_start + 42) == b.sha_start - 10
            &&& b.sha_start < b.sha_end
            &&& b.end == b.sha_end + 2 <= s.len()
            &&& s[b.sha_end] == '"'
            &&& s[b.sha_end + 1] == ';'
            &&& b.sha_end == next_quote(s, b.sha_start)
            &&& lit_at(s, b.rev_start - 7, rev_key())
            &&& hex40_at(s, b.rev_start)
            &&& lit_at(s, b.rev_start + 40, quote_semi())
            &&& lit_at(s, b.sha_start - 10, sha_key())
            &&& newline_gap(s, p + u.len()) == Some(b.rev_start - 7)
            &&& newline_gap(s, b.rev_start + 42) == Some(b.sha_start - 10)
        }),
{
    reveal_strlit("rev = \"");
    reveal_strlit("sha256 = \"");
    reveal_strlit("\";");
    let b = block_at(s, u, p)->0;
    lemma_skip_ws(s, p + u.len());
    lemma_skip_ws(s, b.rev_start + 42);
    lemma_next_quote(s, b.sha_start);
    let w = s.subrange(b.sha_end, b.sha_end + 2);
    assert(w[0] == s[b.sha_end] && w[1] == s[b.sha_end + 1]);
}

/// What `find_block_from` returns is a qualifying block starting at or after `p`.
proof fn lemma_find_start(s: Seq<char>, u: Seq<char>, rev_short: Seq<char>, p: int)
    requires
        find_block_from(s, u, rev_short, p) is Some,
    ensures
        ({
            let b = find_block_from(s, u, rev_short, p)->0;
            &&& p <= b.start
            &&& block_at(s, u, b.start) == Some(b)
            &&& starts_with(s.subrange(b.rev_start, b.rev_start + 40), rev_short)
        }),
    decreases s.len() + 1 - p,
{
    if 0 <= p <= s.len() {
        match block_at(s, u, p) {
            Some(b) => {
                lemma_block_layout(s, u, p);
                if !starts_with(s.subrange(b.rev_start, b.rev_start + 40), rev_short) {
                    lemma_find_start(s, u, rev_short, b.end);
                }
            },
            None => {
                lemma_find_start(s, u, rev_short, p + 1);
            },
        }
    }
}

/// `next_quote` finds the first quote.
proof fn lemma_next_quote_at(t: Seq<char>, i: int, m: int)
    requires
        0 <= i <= m < t.len(),
        t[m] == '"',
        forall|k: int| i <= k < m ==> t[k] != '"',
    ensures
        next_quote(t, i) == m,
    decreases m - i,
{
    if i < m {
        lemma_next_quote_at(t, i + 1, m);
    }
}

/// The rewrite copies text in which no sha line for `rev` starts.
proof fn lemma_rewrite_copies(s: Seq<char>, rev: Seq<char>, new: Seq<char>, p: int, q: int)
    requires
        0 <= p <= q <= s.len(),
        forall|k: int| p <= k < q ==> sha_line_at(s, rev, k) is None,
    ensures
        rewrite_from(s, rev, new, p) == s.subrange(p, q) + rewrite_from(s, rev, new, q),
    decreases q - p,
{
    if p < q {
        assert(sha_line_at(s, rev, p) is None);
        lemma_rewrite_copies(s, rev, new, p + 1, q);
        assert(s.subrange(p, q) =~= seq![s[p]] + s.subrange(p + 1, q));
    } else {
        assert(s.subrange(p, q) =~= Seq::<char>::empty());
    }
}

/// No sha line for the rev of the block `b` starts before its rev line.
pub open spec fn first_sha_line(s: Seq<char>, b: BlockMatch) -> bool {
    let rev = s.subrange(b.rev_start, b.rev_start + 40);
    forall|q: int| 0 <= q < b.rev_start - 7 ==> sha_line_at(s, rev, q) is None
}

/// The shape of the rewritten text around the block `b`: unchanged up to
/// its sha, then `new`, then the `";` that closes the sha line.
proof fn lemma_rewrite_shape(s: Seq<char>, u: Seq<char>, b: BlockMatch, new: Seq<char>)
    requires
        block_at(s, u, b.start) == Some(b),
        first_sha_line(s, b),
    ensures
        ({
            let rev = s.subrange(b.rev_start, b.rev_start + 40);
            let t = rewrite_all(s, rev, new);
            let a = b.sha_start;
            let n = new.len() as int;
            &&& t.len() >= a + n + 2
            &&& agree(s, t, 0, a)
            &&& forall|i: int| 0 <= i < n ==> t[a + i] == new[i]
            &&& t[a + n] == '"'
            &&& t[a + n + 1] == ';'
        }),
{
    reveal_strlit("rev = \"");
    reveal_strlit("sha256 = \"");
    reveal_strlit("\";");
    lemma_block_layout(s, u, b.start);
    let rev = s.subrange(b.rev_start, b.rev_start + 40);
    let j1 = b.rev_start - 7;
    let a = b.sha_start;
    let e = b.sha_end;
    let n = new.len() as int;
    // The block's rev line is a sha line for `rev`.
    assert(s.subrange(j1, j1 + 49) =~= s.subrange(j1, j1 + 7) + rev + s.subrange(
        b.rev_start + 40,
        b.rev_start + 42,
    ));
    assert(lit_at(s, j1, rev_line(rev)));
    assert(sha_line_at(s, rev, j1) == Some((a, e)));
    lemma_rewrite_copies(s, rev, new, 0, j1);
    assert(rewrite_from(s, rev, new, j1) == s.subrange(j1, a) + new + seq!['"'] + rewrite_from(
        s,
        rev,
        new,
        e + 1,
    ));
    // Right after the sha line comes its `;`, which starts no sha line.
    assert(s[e + 1] == ';');
    assert(sha_line_at(s, rev, e + 1) is None) by {
        if lit_at(s, e + 1, rev_line(rev)) {
            assert(s.subrange(e + 1, e + 1 + 49)[0] == rev_line(rev)[0]);
        }
    }
    assert(rewrite_from(s, rev, new, e + 1) == seq![';'] + rewrite_from(s, rev, new, e + 2));
    let t = rewrite_all(s, rev, new);
    assert(s.subrange(0, j1) + s.subrange(j1, a) =~= s.subrange(0, a));
    assert(t =~= s.subrange(0, a) + new + seq!['"', ';'] + rewrite_from(s, rev, new, b.end));
    assert forall|i: int| 0 <= i < n implies t[a + i] == new[i] by {
    }
    assert(t[a + n] == '"');
    assert(t[a + n + 1] == ';');
    assert forall|k: int| 0 <= k < a implies s[k] == t[k] by {
    }
}

/// The search over `t`, which agrees with `s` up to `lim`, makes the same
/// moves as over `s` up to the block at `b.start`, where `t` holds `b2`.
proof fn lemma_find_transfer(
    s: Seq<char>,
    t: Seq<char>,
    drv_name: Seq<char>,
    rev_short: Seq<char>,
    b: BlockMatch,
    b2: BlockMatch,
    lim: int,
    p: int,
)
    requires
        quote_free(drv_name),
        agree(s, t, 0, lim),
        b.start + 8 <= lim,
        lit_at(s, b.start, url_open()),
        block_at(t, url_line(drv_name), b.start) == Some(b2),
        starts_with(t.subrange(b2.rev_start, b2.rev_start + 40), rev_short),
        0 <= p <= b.start,
        find_block_from(s, url_line(drv_name), rev_short, p) == Some(b),
    ensures
        find_block_from(t, url_line(drv_name), rev_short, p) == Some(b2),
    decreases b.start - p,
{
    let u = url_line(drv_name);
    reveal_strlit("url = \"h");
    lemma_find_start(s, u, rev_short, p);
    lemma_block_layout(s, u, b.start);
    lemma_block_layout(t, u, b.start);
    if p == b.start {
        return;
    }
    lemma_lit_transfer(s, t, b.start, url_open());
    match block_at(s, u, p) {
        Some(b0) => {
            lemma_block_layout(s, u, p);
            lemma_block_ends_before_url(s, drv_name, p, b.start);
            lemma_block_local(s, t, u, p);
            assert(t.subrange(b0.rev_start, b0.rev_start + 40) =~= s.subrange(
                b0.rev_start,
                b0.rev_start + 40,
            ));
            if starts_with(s.subrange(b0.rev_start, b0.rev_start + 40), rev_short) {
                assert(find_block_from(s, u, rev_short, p) == Some(b0));
            } else {
                lemma_find_transfer(s, t, drv_name, rev_short, b, b2, lim, b0.end);
            }
        },
        None => {
            if block_at(t, u, p) is Some {
                lemma_block_layout(t, u, p);
                lemma_block_ends_before_url(t, drv_name, p, b.start);
                lemma_agree_sym(s, t, 0, lim);
                lemma_block_local(t, s, u, p);
            }
            lemma_find_transfer(s, t, drv_name, rev_short, b, b2, lim, p + 1);
        },
    }
}

/// The block `b` once its sha has been given a value of length `n`.
pub open spec fn resized_block(b: BlockMatch, n: int) -> BlockMatch {
    BlockMatch {
        start: b.start,
        rev_start: b.rev_start,
        sha_start: b.sha_start,
        sha_end: b.sha_start + n,
        end: b.sha_start + n + 2,
    }
}

/// After the rewrite, the rewritten text holds the block `b` with its new sha.
proof fn lemma_rewritten_block(s: Seq<char>, drv_name: Seq<char>, b: BlockMatch, new: Seq<char>)
    requires
        block_at(s, url_line(drv_name), b.start) == Some(b),
        first_sha_line(s, b),
        quote_free(new),
        new.len() > 0,
    ensures
        ({
            let rev = s.subrange(b.rev_start, b.rev_start + 40);
            let t = rewrite_all(s, rev, new);
            let b2 = resized_block(b, new.len() as int);
            &&& block_at(t, url_line(drv_name), b.start) == Some(b2)
            &&& agree(s, t, 0, b.sha_start)
            &&& t.subrange(b2.rev_start, b2.rev_start + 40) == rev
            &&& t.subrange(b2.sha_start, b2.sha_end) == new
        }),
{
    reveal_strlit("rev = \"");
    reveal_strlit("sha256 = \"");
    reveal_strlit("\";");
    let u = url_line(drv_name);
    lemma_block_layout(s, u, b.start);
    let rev = s.subrange(b.rev_start, b.rev_start + 40);
    let t = rewrite_all(s, rev, new);
    let a = b.sha_start;
    let n = new.len() as int;
    lemma_rewrite_shape(s, u, b, new);
    let b2 = resized_block(b, n);
    let i1 = b.start + u.len();
    let j1 = b.rev_start - 7;
    let r = b.rev_start;
    let j2 = a - 10;
    lemma_lit_transfer(s, t, b.start, u);
    lemma_skip_ws(s, i1);
    lemma_newline_gap_transfer(s, t, i1);
    lemma_lit_transfer(s, t, j1, rev_key());
    assert(hex40_at(t, r)) by {
        assert forall|k: int| r <= k < r + 40 implies is_rev_char(#[trigger] t[k]) by {
            assert(is_rev_char(s[k]));
        }
    }
    lemma_lit_transfer(s, t, r + 40, quote_semi());
    lemma_skip_ws(s, r + 42);
    lemma_newline_gap_transfer(s, t, r + 42);
    lemma_lit_transfer(s, t, j2, sha_key());
    assert forall|k: int| a <= k < a + n implies t[k] != '"' by {
        assert(t[a + (k - a)] == new[k - a]);
    }
    lemma_next_quote_at(t, a, a + n);
    let w = t.subrange(a + n, a + n + 2);
    assert(w =~= quote_semi());
    assert(block_at(t, u, b.start) == Some(b2));
    assert(t.subrange(r, r + 40) =~= rev);
    assert(t.subrange(a, a + n) =~= new);
}

/// Rewrites to two different quote-free values give different texts where
/// a sha line for `rev` starts at or after `p`.
proof fn lemma_rewrites_differ(
    s: Seq<char>,
    rev: Seq<char>,
    v1: Seq<char>,
    v2: Seq<char>,
    p: int,
    q: int,
)
    requires
        quote_free(v1),
        quote_free(v2),
        v1 != v2,
        0 <= p <= q < s.len(),
        sha_line_at(s, rev, q) is Some,
    ensures
        rewrite_from(s, rev, v1, p) != rewrite_from(s, rev, v2, p),
    decreases q - p,
{
    let x1 = rewrite_from(s, rev, v1, p);
    let x2 = rewrite_from(s, rev, v2, p);
    if sha_line_at(s, rev, p) is Some {
        lemma_sha_line_bounds(s, rev, p);
        let (a, e) = sha_line_at(s, rev, p)->0;
        let d = a - p;
        let m1 = v1.len() as int;
        let m2 = v2.len() as int;
        let k = if m1 < m2 {
            m1
        } else {
            m2
        };
        assert(x1 == s.subrange(p, a) + v1 + seq!['"'] + rewrite_from(s, rev, v1, e + 1));
        assert(x2 == s.subrange(p, a) + v2 + seq!['"'] + rewrite_from(s, rev, v2, e + 1));
        if forall|i: int| 0 <= i < k ==> v1[i] == v2[i] {
            if m1 < m2 {
                assert(x1[d + m1] == '"');
                assert(x2[d + m1] == v2[m1]);
            } else if m2 < m1 {
                assert(x2[d + m2] == '"');
                assert(x1[d + m2] == v1[m2]);
            } else {
                assert(v1 =~= v2);
            }
        } else {
            let i = choose|i: int| 0 <= i < k && v1[i] != v2[i];
            assert(x1[d + i] == v1[i]);
            assert(x2[d + i] == v2[i]);
        }
    } else {
        lemma_rewrites_differ(s, rev, v1, v2, p + 1, q);
        let r1 = rewrite_from(s, rev, v1, p + 1);
        let r2 = rewrite_from(s, rev, v2, p + 1);
        assert(x1 == seq![s[p]] + r1);
        assert(x2 == seq![s[p]] + r2);
        if x1 == x2 {
            assert(r1 =~= x1.skip(1));
            assert(r2 =~= x2.skip(1));
        }
    }
}

/// The rev line of a block, with its sha line, is a sha line for its rev.
proof fn lemma_block_sha_line(s: Seq<char>, u: Seq<char>, p: int)
    requires
        block_at(s, u, p) is Some,
    ensures
        ({
            let b = block_at(s, u, p)->0;
            let rev = s.subrange(b.rev_start, b.rev_start + 40);
            sha_line_at(s, rev, b.rev_start - 7) == Some((b.sha_start, b.sha_end))
        }),
{
    reveal_strlit("rev = \"");
    reveal_strlit("sha256 = \"");
    reveal_strlit("\";");
    lemma_block_layout(s, u, p);
    let b = block_at(s, u, p)->0;
    let rev = s.subrange(b.rev_start, b.rev_start + 40);
    let j1 = b.rev_start - 7;
    assert(s.subrange(j1, j1 + 49) =~= s.subrange(j1, j1 + 7) + rev + s.subrange(
        b.rev_start + 40,
        b.rev_start + 42,
    ));
    assert(lit_at(s, j1, rev_line(rev)));
}

/// The read-back for a block before whose rev line no sha line for its rev
/// starts: the search over the rewritten text finds the same rev with the
/// sha `new`.
proof fn lemma_read_back_first(
    s: Seq<char>,
    drv_name: Seq<char>,
    rev_short: Seq<char>,
    new: Seq<char>,
)
    requires
        quote_free(drv_name),
        quote_free(new),
        new.len() > 0,
        find_block_from(s, url_line(drv_name), rev_short, 0) matches Some(b) && first_sha_line(
            s,
            b,
        ),
    ensures
        ({
            let b = find_block_from(s, url_line(drv_name), rev_short, 0)->0;
            let rev = s.subrange(b.rev_start, b.rev_start + 40);
            let t = rewrite_all(s, rev, new);
            find_block_from(t, url_line(drv_name), rev_short, 0) matches Some(b2) && {
                &&& t.subrange(b2.rev_start, b2.rev_start + 40) == rev
                &&& t.subrange(b2.sha_start, b2.sha_end) == new
            }
        }),
{
    reveal_strlit("url = \"h");
    let u = url_line(drv_name);
    let b = find_block_from(s, u, rev_short, 0)->0;
    lemma_find_start(s, u, rev_short, 0);
    lemma_block_layout(s, u, b.start);
    lemma_url_line_shape(drv_name);
    let rev = s.subrange(b.rev_start, b.rev_start + 40);
    let t = rewrite_all(s, rev, new);
    let b2 = resized_block(b, new.len() as int);
    lemma_rewritten_block(s, drv_name, b, new);
    assert(s.subrange(b.start, b.start + 8) =~= u.subrange(0, 8));
    lemma_find_transfer(s, t, drv_name, rev_short, b, b2, b.sha_start, 0);
}

/// After a rewrite of the block's rev, a second rewrite to another
/// quote-free value changes the text again.
proof fn lemma_second_rewrite_changes(
    s: Seq<char>,
    drv_name: Seq<char>,
    rev_short: Seq<char>,
    new: Seq<char>,
    other: Seq<char>,
)
    requires
        quote_free(new),
        new.len() > 0,
        quote_free(other),
        other != new,
        find_block_from(s, url_line(drv_name), rev_short, 0) is Some,
    ensures
        ({
            let b = find_block_from(s, url_line(drv_name), rev_short, 0)->0;
            let rev = s.subrange(b.rev_start, b.rev_start + 40);
            let t = rewrite_all(s, rev, new);
            rewrite_all(t, rev, other) != t
        }),
{
    let u = url_line(drv_name);
    let b = find_block_from(s, u, rev_short, 0)->0;
    lemma_find_start(s, u, rev_short, 0);
    lemma_block_layout(s, u, b.start);
    lemma_block_sha_line(s, u, b.start);
    let rev = s.subrange(b.rev_start, b.rev_start + 40);
    lemma_rewrite_compose(s, rev, new, other);
    lemma_rewrites_differ(s, rev, other, new, 0, b.rev_start - 7);
}

/// `skip_ws` read on a suffix of the text.
proof fn lemma_skip_ws_skip(x: Seq<char>, k: int, i: int)
    requires
        0 <= k <= i <= x.len(),
    ensures
        skip_ws(x, i) == skip_ws(x.skip(k), i - k) + k,
    decreases x.len() - i,
{
    if i < x.len() {
        assert(x.skip(k)[i - k] == x[i]);
        if is_ws(x[i]) {
            lemma_skip_ws_skip(x, k, i + 1);
        }
    }
}

/// `next_quote` read on a suffix of the text.
proof fn lemma_next_quote_skip(x: Seq<char>, k: int, i: int)
    requires
        0 <= k <= i <= x.len(),
    ensures
        next_quote(x, i) == next_quote(x.skip(k), i - k) + k,
    decreases x.len() - i,
{
    if i < x.len() {
        assert(x.skip(k)[i - k] == x[i]);
        if x[i] != '"' {
            lemma_next_quote_skip(x, k, i + 1);
        }
    }
}

/// A literal read on a suffix of the text.
proof fn lemma_lit_skip(x: Seq<char>, k: int, i: int, lit: Seq<char>)
    requires
        0 <= k <= i,
        k <= x.len(),
    ensures
        lit_at(x, i, lit) == lit_at(x.skip(k), i - k, lit),
{
    if i + lit.len() <= x.len() {
        assert(x.skip(k).subrange(i - k, i - k + lit.len()) =~= x.subrange(i, i + lit.len()));
    }
}

/// `newline_gap` read on a suffix of the text.
proof fn lemma_newline_gap_skip(x: Seq<char>, k: int, i: int)
    requires
        0 <= k <= i <= x.len(),
    ensures
        newline_gap(x, i) matches Some(j) ==> newline_gap(x.skip(k), i - k) == Some(j - k),
        newline_gap(x, i) is None ==> newline_gap(x.skip(k), i - k) is None,
{
    let y = x.skip(k);
    lemma_skip_ws_skip(x, k, i);
    lemma_skip_ws(x, i);
    let j = skip_ws(x, i);
    if exists|q: int| i <= q < j && x[q] == '\n' {
        let q = choose|q: int| i <= q < j && x[q] == '\n';
        assert(i - k <= q - k < j - k && y[q - k] == '\n');
    } else {
        assert forall|q: int| i - k <= q < j - k implies y[q] != '\n' by {
            assert(y[q] == x[q + k]);
        }
    }
}

/// A sha line match read on a suffix of the text.
proof fn lemma_sha_line_skip(x: Seq<char>, rev: Seq<char>, k: int, i: int)
    requires
        0 <= k <= i <= x.len(),
    ensures
        sha_line_at(x, rev, i) matches Some((a, e)) ==> sha_line_at(x.skip(k), rev, i - k) == Some(
            (a - k, e - k),
        ),
        sha_line_at(x, rev, i) is None ==> sha_line_at(x.skip(k), rev, i - k) is None,
{
    let head = rev_line(rev);
    lemma_lit_skip(x, k, i, head);
    if lit_at(x, i, head) {
        lemma_newline_gap_skip(x, k, i + head.len());
        if newline_gap(x, i + head.len()) is Some {
            let j = newline_gap(x, i + head.len())->0;
            lemma_skip_ws(x, i + head.len());
            lemma_lit_skip(x, k, j, sha_key());
            if lit_at(x, j, sha_key()) {
                lemma_next_quote_skip(x, k, j + sha_key().len());
            }
        }
    }
}

/// The rewrite reads the text from its position on only.
proof fn lemma_rewrite_skip(x: Seq<char>, rev: Seq<char>, new: Seq<char>, k: int, i: int)
    requires
        0 <= k <= i <= x.len(),
    ensures
        rewrite_from(x, rev, new, i) == rewrite_from(x.skip(k), rev, new, i - k),
    decreases x.len() - i,
{
    let y = x.skip(k);
    if i < x.len() {
        lemma_sha_line_skip(x, rev, k, i);
        match sha_line_at(x, rev, i) {
            Some((a, e)) => {
                lemma_sha_line_bounds(x, rev, i);
                lemma_rewrite_skip(x, rev, new, k, e + 1);
                assert(y.subrange(i - k, a - k) =~= x.subrange(i, a));
            },
            None => {
                lemma_rewrite_skip(x, rev, new, k, i + 1);
                assert(y[i - k] == x[i]);
            },
        }
    }
}

/// The first position at or after `p` where a sha line under `rev` starts,
/// or the end of `s`.
pub open spec fn next_sha_line(s: Seq<char>, rev: Seq<char>, p: int) -> int
    decreases s.len() - p,
{
    if p < 0 || p >= s.len() {
        s.len() as int
    } else if sha_line_at(s, rev, p) is Some {
        p
    } else {
        next_sha_line(s, rev, p + 1)
    }
}

/// Up to the next sha line, the rewrite copies the text.
proof fn lemma_next_sha_line(s: Seq<char>, rev: Seq<char>, new: Seq<char>, p: int)
    requires
        0 <= p <= s.len(),
    ensures
        p <= next_sha_line(s, rev, p) <= s.len(),
        next_sha_line(s, rev, p) < s.len() ==> sha_line_at(s, rev, next_sha_line(s, rev, p)) is Some,
        p < s.len() && sha_line_at(s, rev, p) is None ==> next_sha_line(s, rev, p) != p,
        rewrite_from(s, rev, new, p) == s.subrange(p, next_sha_line(s, rev, p)) + rewrite_from(
            s,
            rev,
            new,
            next_sha_line(s, rev, p),
        ),
    decreases s.len() - p,
{
    let m = next_sha_line(s, rev, p);
    if p < s.len() && sha_line_at(s, rev, p) is None {
        lemma_next_sha_line(s, rev, new, p + 1);
        assert(s.subrange(p, m) =~= seq![s[p]] + s.subrange(p + 1, m));
    } else {
        assert(s.subrange(p, p) =~= Seq::<char>::empty());
    }
}

/// What a sha line match at the start of `y` consists of.
proof fn lemma_sha_line_parts(y: Seq<char>, rev: Seq<char>)
    requires
        sha_line_at(y, rev, 0) is Some,
    ensures
        ({
            let (a, e) = sha_line_at(y, rev, 0)->0;
            let h = rev_line(rev).len() as int;
            &&& lit_at(y, 0, rev_line(rev))
            &&& newline_gap(y, h) == Some(a - 10)
            &&& h <= a - 10
            &&& lit_at(y, a - 10, sha_key())
            &&& y[a - 1] == '"'
            &&& next_quote(y, a) == e
            &&& a < e < y.len()
        }),
{
    reveal_strlit("sha256 = \"");
    let h = rev_line(rev).len() as int;
    lemma_skip_ws(y, h);
    let (a, e) = sha_line_at(y, rev, 0)->0;
    assert(y[a - 1] == y.subrange(a - 10, a)[9]);
}

/// Where `t` agrees with `y` up to a quote at `A - 1`, a sha line at the start
/// of `t` is one of `y`, provided `y`'s value at `A` runs to a quote.
proof fn lemma_no_new_line(t: Seq<char>, y: Seq<char>, rev: Seq<char>, big_a: int)
    requires
        agree(t, y, 0, big_a),
        0 < big_a,
        rev_line(rev).len() + 10 <= big_a,
        t[big_a - 1] == '"',
        big_a < next_quote(y, big_a) < y.len(),
        sha_line_at(t, rev, 0) is Some,
    ensures
        sha_line_at(y, rev, 0) is Some,
{
    reveal_strlit("sha256 = \"");
    let head = rev_line(rev);
    let h = head.len() as int;
    lemma_sha_line_parts(t, rev);
    let (a1, e1) = sha_line_at(t, rev, 0)->0;
    let j = a1 - 10;
    lemma_lit_transfer(t, y, 0, head);
    lemma_skip_ws(t, h);
    assert(j <= big_a - 1) by {
        if j > big_a - 1 {
            assert(is_ws(t[big_a - 1]));
        }
    }
    lemma_newline_gap_transfer(t, y, h);
    assert(j + 10 <= big_a) by {
        if j + 10 > big_a {
            let q = big_a - 1 - j;
            assert(t.subrange(j, j + 10)[q] == t[big_a - 1]);
            assert(sha_key()[q] != '"');
        }
    }
    lemma_lit_transfer(t, y, j, sha_key());
    if a1 < big_a {
        lemma_next_quote(t, a1);
        assert(e1 <= big_a - 1) by {
            if e1 > big_a - 1 {
                assert(t[big_a - 1] != '"');
            }
        }
        lemma_next_quote_transfer(t, y, a1);
    }
}

/// Where a sha line starts at `p`, the rewrite from `p` starts with the
/// same line holding `new`, which a second rewrite gives the value `other`.
proof fn lemma_compose_at_line(
    s: Seq<char>,
    rev: Seq<char>,
    new: Seq<char>,
    other: Seq<char>,
    p: int,
)
    requires
        quote_free(new),
        new.len() > 0,
        0 <= p < s.len(),
        sha_line_at(s, rev, p) matches Some((a, e)) && rewrite_from(
            rewrite_from(s, rev, new, e + 1),
            rev,
            other,
            0,
        ) == rewrite_from(s, rev, other, e + 1),
    ensures
        rewrite_from(rewrite_from(s, rev, new, p), rev, other, 0) == rewrite_from(
            s,
            rev,
            other,
            p,
        ),
{
    let t = rewrite_from(s, rev, new, p);
    let y = s.skip(p);
    let n = new.len() as int;
    lemma_sha_line_skip(s, rev, p, p);
    let (a, e) = sha_line_at(s, rev, p)->0;
    lemma_sha_line_bounds(s, rev, p);
    let rest = rewrite_from(s, rev, new, e + 1);
    let big_a = a - p;
    assert(t == s.subrange(p, a) + new + seq!['"'] + rest);
    lemma_sha_line_parts(y, rev);
    let h = rev_line(rev).len() as int;
    let j = big_a - 10;
    assert(agree(y, t, 0, big_a));
    lemma_lit_transfer(y, t, 0, rev_line(rev));
    lemma_skip_ws(y, h);
    lemma_newline_gap_transfer(y, t, h);
    lemma_lit_transfer(y, t, j, sha_key());
    assert forall|k: int| big_a <= k < big_a + n implies t[k] != '"' by {
        assert(t[k] == new[k - big_a]);
    }
    lemma_next_quote_at(t, big_a, big_a + n);
    assert(sha_line_at(t, rev, 0) == Some((big_a, big_a + n)));
    lemma_rewrite_skip(t, rev, other, big_a + n + 1, big_a + n + 1);
    assert(t.skip(big_a + n + 1) =~= rest);
    assert(t.subrange(0, big_a) =~= s.subrange(p, a));
}

/// Where no sha line starts at `p`, none starts at the start of the rewrite
/// from `p` either.
proof fn lemma_no_line_after_rewrite(s: Seq<char>, rev: Seq<char>, new: Seq<char>, p: int)
    requires
        0 <= p < s.len(),
        sha_line_at(s, rev, p) is None,
    ensures
        sha_line_at(rewrite_from(s, rev, new, p), rev, 0) is None,
{
    let t = rewrite_from(s, rev, new, p);
    let y = s.skip(p);
    lemma_sha_line_skip(s, rev, p, p);
    lemma_next_sha_line(s, rev, new, p);
    let m = next_sha_line(s, rev, p);
    if m == s.len() {
        assert(t =~= y);
    } else {
        lemma_sha_line_bounds(s, rev, m);
        let (a, e) = sha_line_at(s, rev, m)->0;
        lemma_sha_line_skip(s, rev, m, m);
        lemma_sha_line_parts(s.skip(m), rev);
        assert(s[a - 1] == s.skip(m)[a - m - 1]);
        lemma_next_quote_skip(s, m, a);
        lemma_next_quote_skip(s, p, a);
        let big_a = a - p;
        assert(t == s.subrange(p, m) + (s.subrange(m, a) + new + seq!['"'] + rewrite_from(
            s,
            rev,
            new,
            e + 1,
        )));
        assert(agree(t, y, 0, big_a));
        if sha_line_at(t, rev, 0) is Some {
            lemma_no_new_line(t, y, rev, big_a);
        }
    }
}

/// From position `p` on, a rewrite to a quote-free, non-empty value `new`
/// followed by a rewrite to `other` is a rewrite to `other`.
proof fn lemma_rewrite_compose_from(
    s: Seq<char>,
    rev: Seq<char>,
    new: Seq<char>,
    other: Seq<char>,
    p: int,
)
    requires
        quote_free(new),
        new.len() > 0,
        0 <= p <= s.len(),
    ensures
        rewrite_from(rewrite_from(s, rev, new, p), rev, other, 0) == rewrite_from(
            s,
            rev,
            other,
            p,
        ),
    decreases s.len() - p,
{
    let t = rewrite_from(s, rev, new, p);
    if p < s.len() {
        if sha_line_at(s, rev, p) is Some {
            lemma_sha_line_bounds(s, rev, p);
            let (a, e) = sha_line_at(s, rev, p)->0;
            lemma_rewrite_compose_from(s, rev, new, other, e + 1);
            lemma_compose_at_line(s, rev, new, other, p);
        } else {
            lemma_rewrite_compose_from(s, rev, new, other, p + 1);
            let rest = rewrite_from(s, rev, new, p + 1);
            assert(t == seq![s[p]] + rest);
            lemma_no_line_after_rewrite(s, rev, new, p);
            lemma_rewrite_skip(t, rev, other, 1, 1);
            assert(t.skip(1) =~= rest);
        }
    } else {
        assert(t == Seq::<char>::empty());
    }
}

/// Rewriting to a quote-free, non-empty value and then to `other` is
/// rewriting to `other`: the later rewrite decides every value.
pub proof fn lemma_rewrite_compose(s: Seq<char>, rev: Seq<char>, new: Seq<char>, other: Seq<char>)
    requires
        quote_free(new),
        new.len() > 0,
    ensures
        rewrite_all(rewrite_all(s, rev, new), rev, other) == rewrite_all(s, rev, other),
{
    lemma_rewrite_compose_from(s, rev, new, other, 0);
}

/// Rewriting twice to the same quote-free, non-empty value is rewriting once:
/// after `replace_sha` has written `new`, writing `new` again changes nothing,
/// so `replace_sha` refuses it.
pub proof fn lemma_rewrite_is_idempotent(s: Seq<char>, rev: Seq<char>, new: Seq<char>)
    requires
        quote_free(new),
        new.len() > 0,
    ensures
        rewrite_all(rewrite_all(s, rev, new), rev, new) == rewrite_all(s, rev, new),
{
    lemma_rewrite_compose(s, rev, new, new);
}

/// `b` moved by `d` positions.
pub open spec fn shifted(b: BlockMatch, d: int) -> BlockMatch {
    BlockMatch {
        start: b.start + d,
        rev_start: b.rev_start + d,
        sha_start: b.sha_start + d,
        sha_end: b.sha_end + d,
        end: b.end + d,
    }
}

/// `hex40_at` read on a suffix of the text.
proof fn lemma_hex40_skip(x: Seq<char>, k: int, i: int)
    requires
        0 <= k <= i,
        k <= x.len(),
    ensures
        hex40_at(x, i) == hex40_at(x.skip(k), i - k),
{
    let y = x.skip(k);
    if hex40_at(x, i) {
        assert forall|j: int| i - k <= j < i - k + 40 implies is_rev_char(#[trigger] y[j]) by {
            assert(y[j] == x[j + k]);
        }
    } else if hex40_at(y, i - k) {
        assert forall|j: int| i <= j < i + 40 implies is_rev_char(#[trigger] x[j]) by {
            assert(y[j - k] == x[j]);
        }
    }
}

/// A block match read on a suffix of the text.
proof fn lemma_block_at_skip(x: Seq<char>, u: Seq<char>, k: int, p: int)
    requires
        0 <= k <= p <= x.len(),
    ensures
        block_at(x, u, p) matches Some(b) ==> block_at(x.skip(k), u, p - k) == Some(shifted(b, -k)),
        block_at(x, u, p) is None ==> block_at(x.skip(k), u, p - k) is None,
{
    lemma_lit_skip(x, k, p, u);
    if lit_at(x, p, u) {
        let i1 = p + u.len();
        lemma_newline_gap_skip(x, k, i1);
        if newline_gap(x, i1) is Some {
            let j1 = newline_gap(x, i1)->0;
            lemma_skip_ws(x, i1);
            lemma_lit_skip(x, k, j1, rev_key());
            let r = j1 + rev_key().len();
            lemma_hex40_skip(x, k, r);
            lemma_lit_skip(x, k, r + 40, quote_semi());
            if lit_at(x, j1, rev_key()) && hex40_at(x, r) && lit_at(x, r + 40, quote_semi()) {
                let i2 = r + 40 + quote_semi().len();
                lemma_newline_gap_skip(x, k, i2);
                if newline_gap(x, i2) is Some {
                    let j2 = newline_gap(x, i2)->0;
                    lemma_skip_ws(x, i2);
                    lemma_lit_skip(x, k, j2, sha_key());
                    if lit_at(x, j2, sha_key()) {
                        let a = j2 + sha_key().len();
                        lemma_next_quote_skip(x, k, a);
                        lemma_next_quote(x, a);
                        let e = next_quote(x, a);
                        lemma_lit_skip(x, k, e, quote_semi());
                    }
                }
            }
        }
    }
}

/// The block search read on a suffix of the text.
proof fn lemma_find_skip(x: Seq<char>, u: Seq<char>, rev_short: Seq<char>, k: int, p: int)
    requires
        0 <= k <= p,
        k <= x.len(),
    ensures
        find_block_from(x, u, rev_short, p) matches Some(b) ==> find_block_from(
            x.skip(k),
            u,
            rev_short,
            p - k,
        ) == Some(shifted(b, -k)),
        find_block_from(x, u, rev_short, p) is None ==> find_block_from(
            x.skip(k),
            u,
            rev_short,
            p - k,
        ) is None,
    decreases x.len() + 1 - p,
{
    let y = x.skip(k);
    if p <= x.len() {
        lemma_block_at_skip(x, u, k, p);
        match block_at(x, u, p) {
            Some(b) => {
                lemma_block_layout(x, u, p);
                assert(y.subrange(b.rev_start - k, b.rev_start - k + 40) =~= x.subrange(
                    b.rev_start,
                    b.rev_start + 40,
                ));
                if !starts_with(x.subrange(b.rev_start, b.rev_start + 40), rev_short) {
                    lemma_find_skip(x, u, rev_short, k, b.end);
                }
            },
            None => {
                lemma_find_skip(x, u, rev_short, k, p + 1);
            },
        }
    }
}

/// The block at `c` carries a rev that starts with `rev_short`.
pub open spec fn qualifies(x: Seq<char>, u: Seq<char>, rev_short: Seq<char>, c: int) -> bool {
    block_at(x, u, c) matches Some(b) && starts_with(
        x.subrange(b.rev_start, b.rev_start + 40),
        rev_short,
    )
}

/// Before the block the search finds, no block qualifies: those it passes
/// do not, and no url line starts inside a block it skips.
proof fn lemma_none_qualify_before(
    s: Seq<char>,
    drv_name: Seq<char>,
    rev_short: Seq<char>,
    p: int,
)
    requires
        quote_free(drv_name),
        0 <= p,
        find_block_from(s, url_line(drv_name), rev_short, p) is Some,
    ensures
        forall|c: int|
            p <= c < find_block_from(s, url_line(drv_name), rev_short, p)->0.start ==> !qualifies(
                s,
                url_line(drv_name),
                rev_short,
                c,
            ),
    decreases s.len() + 1 - p,
{
    let u = url_line(drv_name);
    let b = find_block_from(s, u, rev_short, p)->0;
    lemma_find_start(s, u, rev_short, p);
    lemma_url_line_shape(drv_name);
    match block_at(s, u, p) {
        Some(b0) => {
            lemma_block_layout(s, u, p);
            if b0 != b {
                lemma_none_qualify_before(s, drv_name, rev_short, b0.end);
                assert forall|c: int| p <= c < b.start implies !qualifies(s, u, rev_short, c) by {
                    if p < c < b0.end && block_at(s, u, c) is Some {
                        assert(s.subrange(c, c + 8) =~= u.subrange(0, 8));
                        lemma_block_ends_before_url(s, drv_name, p, c);
                    }
                }
            }
        },
        None => {
            if p < b.start {
                lemma_none_qualify_before(s, drv_name, rev_short, p + 1);
            }
        },
    }
}

/// The search from `p` makes its way to `k` where every block in between
/// fails to qualify and ends by `k`.
proof fn lemma_find_walk(x: Seq<char>, u: Seq<char>, rev_short: Seq<char>, p: int, k: int)
    requires
        0 <= p <= k <= x.len(),
        forall|c: int|
            p <= c < k ==> (#[trigger] block_at(x, u, c) matches Some(bb) && !starts_with(
                x.subrange(bb.rev_start, bb.rev_start + 40),
                rev_short,
            ) && bb.end <= k) || block_at(x, u, c) is None,
    ensures
        find_block_from(x, u, rev_short, p) == find_block_from(x, u, rev_short, k),
    decreases k - p,
{
    if p < k {
        match block_at(x, u, p) {
            Some(bb) => {
                lemma_block_layout(x, u, p);
                lemma_find_walk(x, u, rev_short, bb.end, k);
            },
            None => {
                lemma_find_walk(x, u, rev_short, p + 1, k);
            },
        }
    }
}

/// Two whitespace runs that end at the same place and start after a
/// non-blank character start at the same place.
proof fn lemma_ws_run_start(x: Seq<char>, i1: int, i2: int)
    requires
        0 < i1 <= x.len(),
        0 < i2 <= x.len(),
        !is_ws(x[i1 - 1]),
        !is_ws(x[i2 - 1]),
        skip_ws(x, i1) == skip_ws(x, i2),
    ensures
        i1 == i2,
{
    lemma_skip_ws(x, i1);
    lemma_skip_ws(x, i2);
    if i1 < i2 {
        assert(is_ws(x[i2 - 1]));
    }
    if i2 < i1 {
        assert(is_ws(x[i1 - 1]));
    }
}

/// What a sha line match at `p` consists of.
proof fn lemma_sha_line_parts_at(x: Seq<char>, rev: Seq<char>, p: int)
    requires
        sha_line_at(x, rev, p) is Some,
    ensures
        ({
            let (a, e) = sha_line_at(x, rev, p)->0;
            let h = rev_line(rev).len() as int;
            &&& 0 <= p
            &&& lit_at(x, p, rev_line(rev))
            &&& skip_ws(x, p + h) == a - 10
            &&& newline_gap(x, p + h) == Some(a - 10)
            &&& p + h <= a - 10
            &&& lit_at(x, a - 10, sha_key())
            &&& next_quote(x, a) == e
            &&& a < e < x.len()
            &&& x[e] == '"'
            &&& forall|k: int| a <= k < e ==> x[k] != '"'
        }),
{
    reveal_strlit("sha256 = \"");
    let h = rev_line(rev).len() as int;
    lemma_skip_ws(x, p + h);
    let (a, e) = sha_line_at(x, rev, p)->0;
    lemma_next_quote(x, a);
}

/// The characters of `sha256 = "` that a sha line places before its value.
proof fn lemma_sha_key_chars(x: Seq<char>, j: int)
    requires
        lit_at(x, j, sha_key()),
    ensures
        x[j] == 's',
        x[j + 5] == '6',
        x[j + 6] == ' ',
        x[j + 7] == '=',
        x[j + 8] == ' ',
        x[j + 9] == '"',
        forall|i: int| j <= i < j + 9 ==> x[i] != '"' && x[i] != 'u' && x[i] != ';',
{
    reveal_strlit("sha256 = \"");
    let w = x.subrange(j, j + 10);
    assert(w[0] == x[j] && w[5] == x[j + 5] && w[6] == x[j + 6]);
    assert(w[7] == x[j + 7] && w[8] == x[j + 8] && w[9] == x[j + 9]);
    assert forall|i: int| j <= i < j + 9 implies x[i] != '"' && x[i] != 'u' && x[i] != ';' by {
        assert(w[i - j] == x[i]);
    }
}

/// The characters of `rev = "` and of the `";` after the rev.
proof fn lemma_rev_key_chars(x: Seq<char>, j: int)
    requires
        lit_at(x, j, rev_key()),
    ensures
        x[j] == 'r',
        x[j + 2] == 'v',
        x[j + 5] == ' ',
        x[j + 6] == '"',
        forall|i: int| j <= i < j + 6 ==> x[i] != '"',
{
    reveal_strlit("rev = \"");
    let w = x.subrange(j, j + 7);
    assert(w[0] == x[j] && w[2] == x[j + 2] && w[5] == x[j + 5] && w[6] == x[j + 6]);
    assert forall|i: int| j <= i < j + 6 implies x[i] != '"' by {
        assert(w[i - j] == x[i]);
    }
}

/// The characters of `";`.
proof fn lemma_quote_semi_chars(x: Seq<char>, j: int)
    requires
        lit_at(x, j, quote_semi()),
    ensures
        x[j] == '"',
        x[j + 1] == ';',
{
    reveal_strlit("\";");
    let w = x.subrange(j, j + 2);
    assert(w[0] == x[j] && w[1] == x[j + 1]);
}

/// The characters of a rev line of 40 characters.
proof fn lemma_rev_line_chars(x: Seq<char>, rev: Seq<char>, p: int)
    requires
        rev.len() == 40,
        lit_at(x, p, rev_line(rev)),
    ensures
        rev_line(rev).len() == 49,
        lit_at(x, p, rev_key()),
        x.subrange(p + 7, p + 47) == rev,
        lit_at(x, p + 47, quote_semi()),
{
    reveal_strlit("rev = \"");
    reveal_strlit("\";");
    let w = x.subrange(p, p + 49);
    assert(x.subrange(p, p + 7) =~= w.subrange(0, 7));
    assert(w.subrange(0, 7) =~= rev_key());
    assert(x.subrange(p + 7, p + 47) =~= w.subrange(7, 47));
    assert(w.subrange(7, 47) =~= rev);
    assert(x.subrange(p + 47, p + 49) =~= w.subrange(47, 49));
    assert(w.subrange(47, 49) =~= quote_semi());
}

/// A block cannot run across the end of a sha line for `rev` that is closed
/// by `";`, unless that sha line is its own, and then its rev is `rev`.
proof fn lemma_no_block_across_line(
    s: Seq<char>,
    drv_name: Seq<char>,
    rev: Seq<char>,
    p1: int,
    c: int,
)
    requires
        quote_free(drv_name),
        rev.len() == 40,
        sha_line_at(s, rev, p1) matches Some((a1, e1)) && {
            &&& e1 + 1 < s.len()
            &&& s[e1 + 1] == ';'
            &&& block_at(s, url_line(drv_name), c) matches Some(bb) && c <= e1 && e1 + 1 < bb.end
        },
    ensures
        ({
            let bb = block_at(s, url_line(drv_name), c)->0;
            s.subrange(bb.rev_start, bb.rev_start + 40) == rev
        }),
{
    let u = url_line(drv_name);
    let l = u.len() as int;
    let bb = block_at(s, u, c)->0;
    let (a1, e1) = sha_line_at(s, rev, p1)->0;
    lemma_block_layout(s, u, c);
    lemma_url_line_shape(drv_name);
    lemma_sha_line_parts_at(s, rev, p1);
    lemma_rev_line_chars(s, rev, p1);
    lemma_sha_key_chars(s, a1 - 10);
    lemma_quote_semi_chars(s, p1 + 47);
    let r = bb.rev_start;
    let a = bb.sha_start;
    let e = bb.sha_end;
    lemma_rev_key_chars(s, r - 7);
    lemma_quote_semi_chars(s, r + 40);
    lemma_sha_key_chars(s, a - 10);
    lemma_skip_ws(s, c + l);
    lemma_skip_ws(s, r + 42);
    lemma_next_quote(s, a);
    reveal_strlit("url = \"h");
    assert(s.subrange(c, c + l) == u);
    assert forall|k: int| c <= k < c + l implies s[k] == u[k - c] by {
        assert(s.subrange(c, c + l)[k - c] == s[k]);
    }
    assert(u.subrange(0, 8)[2] == 'l' && u.subrange(0, 8)[7] == 'h' && u.subrange(0, 8)[6] == '"');
    // `a1 - 1` is the last quote before `e1`.
    assert forall|k: int| a1 <= k < e1 implies s[k] != '"' by {}
    if e1 < c + l {
        assert(s[e1] == u[e1 - c]);
        if e1 - c == 6 {
            assert(s[e1 + 1] == u[7]);
            assert(false);
        } else {
            assert(e1 - c == l - 2);
            if a1 - 1 > c + 6 {
                assert(s[a1 - 1] == u[a1 - 1 - c]);
                assert(false);
            } else if a1 - 1 < c + 6 {
                assert(u.subrange(0, 8)[6] == '"');
                assert(s[c + 6] == u[6]);
                assert(a1 <= c + 6 < e1);
                assert(false);
            } else {
                assert(s[a1 - 5] == u[2]);
                assert(false);
            }
        }
    } else if e1 < r - 7 {
        assert(is_ws(s[e1]));
        assert(false);
    } else if e1 < r {
        assert(e1 == r - 1);
        assert(is_rev_char(s[r]));
        assert(false);
    } else if e1 < r + 40 {
        assert(is_rev_char(s[e1]));
        assert(false);
    } else if e1 == r + 40 {
        if a1 - 1 > r - 1 {
            assert(is_rev_char(s[a1 - 1]));
            assert(false);
        } else if a1 - 1 < r - 1 {
            assert(s[r - 1] == '"');
            assert(false);
        } else {
            assert(s[a1 - 5] == s[r - 5]);
            assert(false);
        }
    } else if e1 == r + 41 {
        assert(false);
    } else if e1 < a - 10 {
        assert(is_ws(s[e1]));
        assert(false);
    } else if e1 < a - 1 {
        assert(false);
    } else if e1 == a - 1 {
        if a1 - 1 > r + 40 {
            if a1 - 1 == r + 41 {
                assert(false);
            } else if a1 - 1 < a - 10 {
                assert(is_ws(s[a1 - 1]));
                assert(false);
            } else {
                assert(false);
            }
        } else if a1 - 1 < r + 40 {
            assert(s[r + 40] == '"');
            assert(false);
        } else {
            assert(is_rev_char(s[r + 39]));
            assert(false);
        }
    } else if e1 < e {
        assert(false);
    } else {
        assert(e1 == e);
        if a1 - 1 > a - 1 {
            assert(false);
        } else if a1 - 1 < a - 1 {
            assert(s[a - 1] == '"');
            assert(false);
        } else {
            assert(a1 == a);
            lemma_ws_run_start(s, p1 + 49, r + 42);
            assert(p1 == r - 7);
            assert(s.subrange(r, r + 40) == rev);
        }
    }
}

/// In `t`, which holds `s` up to the value of a sha line for `rev` at `p1`,
/// then a quote-free `new`, a quote and a `;`: a block that starts before
/// that `;` is one of `s` that ends before the value, or `s` holds, where
/// it starts, a block whose rev is `rev`.
#[verifier::spinoff_prover]
#[verifier::rlimit(100)]
proof fn lemma_blocks_before_rewritten_line(
    s: Seq<char>,
    t: Seq<char>,
    drv_name: Seq<char>,
    rev: Seq<char>,
    new: Seq<char>,
    p1: int,
    c: int,
)
    requires
        quote_free(drv_name),
        quote_free(new),
        rev.len() == 40,
        forall|k: int| 0 <= k < 40 ==> is_rev_char(#[trigger] rev[k]),
        sha_line_at(s, rev, p1) matches Some((a1, e1)) && {
            &&& e1 + 1 < s.len()
            &&& s[e1 + 1] == ';'
            &&& agree(s, t, 0, a1)
            &&& t.len() > a1 + new.len() + 1
            &&& forall|k: int| 0 <= k < new.len() ==> t[a1 + k] == new[k]
            &&& t[a1 + new.len()] == '"'
            &&& t[a1 + new.len() + 1] == ';'
            &&& 0 <= c <= a1 + new.len()
        },
        block_at(t, url_line(drv_name), c) is Some,
    ensures
        ({
            let bt = block_at(t, url_line(drv_name), c)->0;
            let (a1, e1) = sha_line_at(s, rev, p1)->0;
            ||| bt.end <= a1 && block_at(s, url_line(drv_name), c) == Some(bt)
            ||| c < a1 && (block_at(s, url_line(drv_name), c) matches Some(bs) && s.subrange(
                bs.rev_start,
                bs.rev_start + 40,
            ) == rev)
        }),
{
    let u = url_line(drv_name);
    let l = u.len() as int;
    let n = new.len() as int;
    let bt = block_at(t, u, c)->0;
    let (a1, e1) = sha_line_at(s, rev, p1)->0;
    lemma_block_layout(t, u, c);
    lemma_url_line_shape(drv_name);
    lemma_sha_line_parts_at(s, rev, p1);
    lemma_rev_line_chars(s, rev, p1);
    let h = 49int;
    if bt.end <= a1 {
        lemma_agree_sym(s, t, 0, a1);
        assert(agree(t, s, c, bt.end));
        lemma_block_local(t, s, u, c);
        return;
    }
    let r = bt.rev_start;
    let a = bt.sha_start;
    let e = bt.sha_end;
    lemma_rev_key_chars(t, r - 7);
    lemma_quote_semi_chars(t, r + 40);
    lemma_sha_key_chars(t, a - 10);
    lemma_skip_ws(t, c + l);
    lemma_skip_ws(t, r + 42);
    lemma_next_quote(t, a);
    reveal_strlit("url = \"h");
    assert(t.subrange(c, c + l) == u);
    assert forall|k: int| c <= k < c + l implies t[k] == u[k - c] by {
        assert(t.subrange(c, c + l)[k - c] == t[k]);
    }
    assert(u.subrange(0, 8)[0] == 'u' && u.subrange(0, 8)[2] == 'l' && u.subrange(0, 8)[6]
        == '"' && u.subrange(0, 8)[7] == 'h');
    assert forall|k: int| 0 <= k < 6 implies u[k] != '"' by {
        assert(u.subrange(0, 8)[k] == u[k]);
    }
    if c >= a1 {
        if c + 6 < a1 + n {
            assert(t[c + 6] == new[c + 6 - a1]);
            assert(false);
        } else if c + 6 == a1 + n {
            assert(false);
        } else {
            assert(t[a1 + n] == u[a1 + n - c]);
            assert(false);
        }
    }
    // From here on the block starts inside the part `t` shares with `s`.
    lemma_lit_transfer(s, t, a1 - 10, sha_key());
    lemma_sha_key_chars(t, a1 - 10);
    lemma_lit_transfer(s, t, p1 + 47, quote_semi());
    lemma_quote_semi_chars(t, p1 + 47);
    lemma_skip_ws(s, p1 + h);
    lemma_skip_ws_transfer(s, t, p1 + h);
    assert(t.subrange(p1 + 7, p1 + 47) =~= s.subrange(p1 + 7, p1 + 47));
    assert(t[p1 + 46] == rev[39]);
    assert(t[a1 - 1] == '"');
    if a1 - 1 < c + l {
        assert(t[a1 - 1] == u[a1 - 1 - c]);
        if a1 - 1 - c == 6 {
            assert(t[a1 - 5] == u[2]);
            assert(false);
        } else {
            assert(a1 - 1 - c == l - 2);
            if p1 + 47 >= c {
                assert(t[p1 + 47] == u[p1 + 47 - c]);
                assert(t[p1 + 48] == u[7]);
                assert(false);
            } else {
                assert(t[c] == u[0]);
                if c == p1 + 48 {
                    assert(false);
                } else if c < a1 - 10 {
                    assert(is_ws(t[c]));
                    assert(false);
                } else {
                    assert(false);
                }
            }
        }
    } else if a1 - 1 < r - 7 {
        assert(is_ws(t[a1 - 1]));
        assert(false);
    } else if a1 - 1 < r - 1 {
        assert(false);
    } else if a1 - 1 == r - 1 {
        assert(t[a1 - 5] == t[r - 5]);
        assert(false);
    } else if a1 - 1 < r + 40 {
        assert(is_rev_char(t[a1 - 1]));
        assert(false);
    } else if a1 - 1 == r + 40 {
        assert(is_rev_char(t[r + 39]));
        assert(false);
    } else if a1 - 1 == r + 41 {
        assert(false);
    } else if a1 - 1 < a - 10 {
        assert(is_ws(t[a1 - 1]));
        assert(false);
    } else if a1 - 1 < a - 1 {
        assert(false);
    } else if a1 - 1 == a - 1 {
        // The block's sha is the rewritten value: its rev line is the one at `p1`.
        lemma_ws_run_start(t, p1 + h, r + 42);
        assert(p1 == r - 7);
        assert(t.subrange(r, r + 40) =~= rev);
        lemma_agree_sym(s, t, 0, a1);
        lemma_lit_transfer(t, s, c, u);
        lemma_newline_gap_transfer(t, s, c + l);
        lemma_lit_transfer(t, s, r - 7, rev_key());
        assert(hex40_at(s, r)) by {
            assert forall|k: int| r <= k < r + 40 implies is_rev_char(#[trigger] s[k]) by {
                assert(t[k] == s[k]);
                assert(is_rev_char(t[k]));
            }
        }
        lemma_lit_transfer(t, s, r + 40, quote_semi());
        lemma_newline_gap_transfer(t, s, r + 42);
        lemma_lit_transfer(t, s, a - 10, sha_key());
        assert(s.subrange(e1, e1 + 2) =~= quote_semi()) by {
            reveal_strlit("\";");
        }
        assert(block_at(s, u, c) == Some(
            BlockMatch { start: c, rev_start: r, sha_start: a1, sha_end: e1, end: e1 + 2 },
        ));
        assert(s.subrange(r, r + 40) =~= rev);
    } else if a1 - 1 < e {
        assert(false);
    } else if a1 - 1 == e {
        if p1 + 47 >= a {
            assert(false);
        } else if a - 1 > p1 + 47 {
            if a - 1 == p1 + 48 {
                assert(false);
            } else if a - 1 < a1 - 10 {
                assert(is_ws(t[a - 1]));
                assert(false);
            } else {
                assert(false);
            }
        } else if a - 1 < p1 + 47 {
            assert(false);
        } else {
            assert(t[p1 + 46] == t[a - 2]);
            assert(false);
        }
    } else {
        assert(false);
    }
}

/// No sha line starts before the next one.
proof fn lemma_before_next_sha_line(s: Seq<char>, rev: Seq<char>, p: int)
    requires
        0 <= p <= s.len(),
    ensures
        forall|q: int| p <= q < next_sha_line(s, rev, p) ==> sha_line_at(s, rev, q) is None,
    decreases s.len() - p,
{
    if p < s.len() && sha_line_at(s, rev, p) is None {
        lemma_before_next_sha_line(s, rev, p + 1);
    }
}

/// Every sha line for the rev of the block `b` that starts before its rev
/// line is closed by `";` before the block starts.
pub open spec fn earlier_lines_closed(s: Seq<char>, b: BlockMatch) -> bool {
    let rev = s.subrange(b.rev_start, b.rev_start + 40);
    forall|q: int|
        #![trigger sha_line_at(s, rev, q)]
        0 <= q < b.rev_start - 7 ==> (sha_line_at(s, rev, q) matches Some((a, e)) ==> e + 1
            < b.start && s[e + 1] == ';')
}

/// The rewrite of `s` is `s` up to the value of its first sha line for
/// `rev`, then `new`, its quote, and the rewrite of what follows the line,
/// which starts with the `;` that closes it.
proof fn lemma_rewrite_first_line(s: Seq<char>, rev: Seq<char>, new: Seq<char>, p1: int)
    requires
        p1 == next_sha_line(s, rev, 0),
        p1 < s.len(),
        sha_line_at(s, rev, p1) matches Some((a1, e1)) && e1 + 1 < s.len() && s[e1 + 1] == ';',
    ensures
        ({
            let (a1, e1) = sha_line_at(s, rev, p1)->0;
            let t2 = rewrite_all(s.skip(e1 + 1), rev, new);
            &&& rewrite_all(s, rev, new) == s.subrange(0, a1) + new + seq!['"'] + t2
            &&& t2.len() >= 1
            &&& t2[0] == ';'
        }),
{
    let (a1, e1) = sha_line_at(s, rev, p1)->0;
    let k = e1 + 1;
    let s2 = s.skip(k);
    lemma_next_sha_line(s, rev, new, 0);
    lemma_sha_line_bounds(s, rev, p1);
    lemma_rewrite_skip(s, rev, new, k, k);
    assert(s.subrange(0, p1) + s.subrange(p1, a1) =~= s.subrange(0, a1));
    assert(s2[0] == ';');
    assert(sha_line_at(s2, rev, 0) is None) by {
        reveal_strlit("rev = \"");
        if lit_at(s2, 0, rev_line(rev)) {
            assert(s2.subrange(0, rev_line(rev).len() as int)[0] == rev_line(rev)[0]);
        }
    }
}

/// The search over `s` goes past the first sha line for the block's rev.
#[verifier::spinoff_prover]
#[verifier::rlimit(100)]
proof fn lemma_search_passes_line(
    s: Seq<char>,
    drv_name: Seq<char>,
    rev_short: Seq<char>,
    p1: int,
)
    requires
        quote_free(drv_name),
        find_block_from(s, url_line(drv_name), rev_short, 0) matches Some(b) && {
            let rev = s.subrange(b.rev_start, b.rev_start + 40);
            sha_line_at(s, rev, p1) matches Some((a1, e1)) && e1 + 1 < b.start && s[e1 + 1]
                == ';'
        },
    ensures
        ({
            let b = find_block_from(s, url_line(drv_name), rev_short, 0)->0;
            let rev = s.subrange(b.rev_start, b.rev_start + 40);
            let (a1, e1) = sha_line_at(s, rev, p1)->0;
            find_block_from(s, url_line(drv_name), rev_short, 0) == find_block_from(
                s,
                url_line(drv_name),
                rev_short,
                e1 + 1,
            )
        }),
{
    let u = url_line(drv_name);
    let b = find_block_from(s, u, rev_short, 0)->0;
    lemma_find_start(s, u, rev_short, 0);
    lemma_block_layout(s, u, b.start);
    let rev = s.subrange(b.rev_start, b.rev_start + 40);
    let (a1, e1) = sha_line_at(s, rev, p1)->0;
    let k = e1 + 1;
    lemma_none_qualify_before(s, drv_name, rev_short, 0);
    assert forall|c: int| 0 <= c < k implies (#[trigger] block_at(s, u, c) matches Some(bb)
        && !starts_with(s.subrange(bb.rev_start, bb.rev_start + 40), rev_short) && bb.end <= k)
        || block_at(s, u, c) is None by {
        if block_at(s, u, c) is Some {
            assert(!qualifies(s, u, rev_short, c));
            let bb = block_at(s, u, c)->0;
            if bb.end > k {
                lemma_no_block_across_line(s, drv_name, rev, p1, c);
            }
        }
    }
    lemma_find_walk(s, u, rev_short, 0, k);
}

/// The search over the rewritten text goes past the first rewritten line.
#[verifier::spinoff_prover]
#[verifier::rlimit(100)]
proof fn lemma_search_passes_rewritten_line(
    s: Seq<char>,
    t: Seq<char>,
    drv_name: Seq<char>,
    rev_short: Seq<char>,
    new: Seq<char>,
    p1: int,
)
    requires
        quote_free(drv_name),
        quote_free(new),
        find_block_from(s, url_line(drv_name), rev_short, 0) matches Some(b) && {
            let rev = s.subrange(b.rev_start, b.rev_start + 40);
            sha_line_at(s, rev, p1) matches Some((a1, e1)) && {
                &&& e1 + 1 < b.start
                &&& s[e1 + 1] == ';'
                &&& agree(s, t, 0, a1)
                &&& t.len() > a1 + new.len() + 1
                &&& forall|k: int| 0 <= k < new.len() ==> t[a1 + k] == new[k]
                &&& t[a1 + new.len()] == '"'
                &&& t[a1 + new.len() + 1] == ';'
            }
        },
    ensures
        ({
            let b = find_block_from(s, url_line(drv_name), rev_short, 0)->0;
            let rev = s.subrange(b.rev_start, b.rev_start + 40);
            let (a1, e1) = sha_line_at(s, rev, p1)->0;
            find_block_from(t, url_line(drv_name), rev_short, 0) == find_block_from(
                t,
                url_line(drv_name),
                rev_short,
                a1 + new.len() + 1,
            )
        }),
{
    let u = url_line(drv_name);
    let b = find_block_from(s, u, rev_short, 0)->0;
    lemma_find_start(s, u, rev_short, 0);
    lemma_block_layout(s, u, b.start);
    let rev = s.subrange(b.rev_start, b.rev_start + 40);
    let (a1, e1) = sha_line_at(s, rev, p1)->0;
    lemma_sha_line_parts_at(s, rev, p1);
    let qn = a1 + new.len() + 1;
    lemma_none_qualify_before(s, drv_name, rev_short, 0);
    assert(hex40_at(s, b.rev_start));
    assert forall|j: int| 0 <= j < 40 implies is_rev_char(#[trigger] rev[j]) by {
        assert(rev[j] == s[b.rev_start + j]);
    }
    assert forall|c: int| 0 <= c < qn implies (#[trigger] block_at(t, u, c) matches Some(bt)
        && !starts_with(t.subrange(bt.rev_start, bt.rev_start + 40), rev_short) && bt.end <= qn)
        || block_at(t, u, c) is None by {
        if block_at(t, u, c) is Some {
            lemma_blocks_before_rewritten_line(s, t, drv_name, rev, new, p1, c);
            let bt = block_at(t, u, c)->0;
            if bt.end <= a1 && block_at(s, u, c) == Some(bt) {
                lemma_block_layout(s, u, c);
                assert(!qualifies(s, u, rev_short, c));
                assert(t.subrange(bt.rev_start, bt.rev_start + 40) =~= s.subrange(
                    bt.rev_start,
                    bt.rev_start + 40,
                ));
            } else {
                assert(qualifies(s, u, rev_short, c));
            }
        }
    }
    lemma_find_walk(t, u, rev_short, 0, qn);
}

/// The rest of the text after the first sha line meets the condition too.
#[verifier::spinoff_prover]
#[verifier::rlimit(100)]
proof fn lemma_rest_lines_closed(s: Seq<char>, rev: Seq<char>, b: BlockMatch, k: int)
    requires
        0 < k < b.start,
        b.start < b.rev_start,
        k <= s.len(),
        b.rev_start + 40 <= s.len(),
        earlier_lines_closed(s, b),
        rev == s.subrange(b.rev_start, b.rev_start + 40),
    ensures
        s.skip(k).subrange(b.rev_start - k, b.rev_start - k + 40) == rev,
        earlier_lines_closed(s.skip(k), shifted(b, -k)),
{
    let s2 = s.skip(k);
    let bs2 = shifted(b, -k);
    assert forall|i: int| 0 <= i < 40 implies s2.subrange(bs2.rev_start, bs2.rev_start + 40)[i]
        == rev[i] by {
        assert(s2[b.rev_start - k + i] == s[b.rev_start + i]);
    }
    assert(s2.subrange(bs2.rev_start, bs2.rev_start + 40) =~= rev);
    assert forall|q: int|
        #![trigger sha_line_at(s2, rev, q)]
        0 <= q < bs2.rev_start - 7 implies (sha_line_at(s2, rev, q) matches Some((a, e)) ==> e + 1
            < bs2.start && s2[e + 1] == ';') by {
        if q + k <= s.len() {
            lemma_sha_line_skip(s, rev, k, q + k);
        }
        if sha_line_at(s2, rev, q) is Some {
            let (a, e) = sha_line_at(s2, rev, q)->0;
            if q + k > s.len() {
                lemma_sha_line_bounds(s2, rev, q);
            }
            assert(sha_line_at(s, rev, q + k) == Some((a + k, e + k)));
            assert(q + k < b.rev_start - 7);
            assert(e + k + 1 < b.start && s[e + k + 1] == ';');
            assert(s2[e + 1] == s[e + k + 1]);
        }
    }
}

/// The read-back, by induction on the sha lines for the block's rev that
/// stand before it.
#[verifier::spinoff_prover]
#[verifier::rlimit(100)]
proof fn lemma_read_back(s: Seq<char>, drv_name: Seq<char>, rev_short: Seq<char>, new: Seq<char>)
    requires
        quote_free(drv_name),
        quote_free(new),
        new.len() > 0,
        find_block_from(s, url_line(drv_name), rev_short, 0) matches Some(b)
            && earlier_lines_closed(s, b),
    ensures
        ({
            let b = find_block_from(s, url_line(drv_name), rev_short, 0)->0;
            let rev = s.subrange(b.rev_start, b.rev_start + 40);
            let t = rewrite_all(s, rev, new);
            find_block_from(t, url_line(drv_name), rev_short, 0) matches Some(b2) && {
                &&& t.subrange(b2.rev_start, b2.rev_start + 40) == rev
                &&& t.subrange(b2.sha_start, b2.sha_end) == new
            }
        }),
    decreases s.len(),
{
    let u = url_line(drv_name);
    let b = find_block_from(s, u, rev_short, 0)->0;
    lemma_find_start(s, u, rev_short, 0);
    lemma_block_layout(s, u, b.start);
    let rev = s.subrange(b.rev_start, b.rev_start + 40);
    lemma_next_sha_line(s, rev, new, 0);
    lemma_before_next_sha_line(s, rev, 0);
    let p1 = next_sha_line(s, rev, 0);
    if p1 >= b.rev_start - 7 {
        lemma_read_back_first(s, drv_name, rev_short, new);
        return;
    }
    let (a1, e1) = sha_line_at(s, rev, p1)->0;
    assert(e1 + 1 < b.start && s[e1 + 1] == ';');
    let k = e1 + 1;
    let s2 = s.skip(k);
    let n = new.len() as int;
    let t = rewrite_all(s, rev, new);
    let t2 = rewrite_all(s2, rev, new);
    lemma_rewrite_first_line(s, rev, new, p1);
    let qn = a1 + n + 1;
    assert(t.skip(qn) =~= t2);
    lemma_search_passes_line(s, drv_name, rev_short, p1);
    lemma_find_skip(s, u, rev_short, k, k);
    lemma_rest_lines_closed(s, rev, b, k);
    lemma_read_back(s2, drv_name, rev_short, new);
    let c2 = find_block_from(t2, u, rev_short, 0)->0;
    assert(agree(s, t, 0, a1));
    lemma_search_passes_rewritten_line(s, t, drv_name, rev_short, new, p1);
    lemma_find_skip(t, u, rev_short, qn, qn);
    assert(find_block_from(t, u, rev_short, qn) is Some);
    let bt = find_block_from(t, u, rev_short, qn)->0;
    lemma_find_start(t, u, rev_short, qn);
    lemma_block_layout(t, u, bt.start);
    assert(c2 == shifted(bt, -qn));
    assert forall|i: int| 0 <= i < 40 implies #[trigger] t.subrange(bt.rev_start, bt.rev_start + 40)[i]
        == t2.subrange(c2.rev_start, c2.rev_start + 40)[i] by {
        assert(t2[bt.rev_start - qn + i] == t[bt.rev_start + i]);
    }
    assert(t.subrange(bt.rev_start, bt.rev_start + 40) =~= t2.subrange(
        c2.rev_start,
        c2.rev_start + 40,
    ));
    assert forall|i: int| 0 <= i < bt.sha_end - bt.sha_start implies #[trigger] t.subrange(
        bt.sha_start,
        bt.sha_end,
    )[i] == t2.subrange(c2.sha_start, c2.sha_end)[i] by {
        assert(t2[bt.sha_start - qn + i] == t[bt.sha_start + i]);
    }
    assert(t.subrange(bt.sha_start, bt.sha_end) =~= t2.subrange(c2.sha_start, c2.sha_end));
}

/// Reading back a write. Let the block search of `find_entries_for` find,
/// in the text `s`, the block `b` for `drv_name` and `rev_short`. After every
/// sha line under its rev is rewritten to `new` (what `replace_sha`
/// returns), the same search finds a block with the same rev whose sha is
/// `new`; and a second rewrite of the result to any other quote-free value
/// changes the text again.
///
/// Left out are names and values with a `"` and an empty `new`, which the
/// block grammar cannot read back, and texts where a sha line for the same
/// rev before the block is not closed by `";` before the block starts: such
/// a line can hold the block's own url line inside its value, which the
/// rewrite then overwrites.
pub proof fn lemma_find_reads_back_rewrite(
    s: Seq<char>,
    drv_name: Seq<char>,
    rev_short: Seq<char>,
    new: Seq<char>,
    other: Seq<char>,
)
    requires
        quote_free(drv_name),
        quote_free(new),
        new.len() > 0,
        quote_free(other),
        find_block_from(s, url_line(drv_name), rev_short, 0) matches Some(b)
            && earlier_lines_closed(s, b),
    ensures
        ({
            let b = find_block_from(s, url_line(drv_name), rev_short, 0)->0;
            let rev = s.subrange(b.rev_start, b.rev_start + 40);
            let t = rewrite_all(s, rev, new);
            &&& find_block_from(t, url_line(drv_name), rev_short, 0) matches Some(b2) && {
                &&& t.subrange(b2.rev_start, b2.rev_start + 40) == rev
                &&& t.subrange(b2.sha_start, b2.sha_end) == new
            }
            &&& other != new ==> rewrite_all(t, rev, other) != t
        }),
{
    lemma_read_back(s, drv_name, rev_short, new);
    if other != new {
        lemma_second_rewrite_changes(s, drv_name, rev_short, new, other);
    }
}

} // verus!
