//! Find and mutate `pkgs.fetchgit { url = ...; rev = ...; sha256 = ...; }`
//! blocks in the fleet's `Cargo.nix` files.
//!
//! The data shape we target:
//!
//! ```text
//!         src = pkgs.fetchgit {
//!           url = "https://github.com/pleme-io/<name>";
//!           rev = "<full-40-char-sha>";
//!           sha256 = "<base32-or-sri>";
//!         };
//! ```
//!
//! Reading the fleet root and the files, and writing a rewritten file back,
//! happen at the edge; this module decides, for the text of each
//! `Cargo.nix`, which block is meant and what the rewritten text is.
//!
//! The block grammar is
//! `url = "<url>";\s*\n\s*rev = "(?P<rev>[a-f0-9]{40})";\s*\n\s*sha256 = "(?P<sha>[^"]+)";`
//! searched with leftmost-first, non-overlapping semantics; the line that is
//! rewritten is `(?P<head>rev = "<rev>";\s*\n\s*sha256 = ")(?P<sha>[^"]+)(?P<tail>")`.

use vstd::prelude::*;

use crate::error::{debug_quoted, debug_str, FixError};
use crate::parser::{is_rev_char, parses_to, path_file_name, MismatchView};
use crate::text::{is_ws, is_ws_char, lit_at, lit_at_exec, slice_string, to_chars};

verus! {

broadcast use vstd::string::group_string_axioms;

/// One Cargo.nix file's `pkgs.fetchgit` block for a given upstream repo
/// + 7-char rev prefix, already extracted into typed parts.
#[derive(Debug, Clone, PartialEq, Eq)]
pub struct CargoNixEntry {
    /// Repo directory under the fleet root.
    pub repo_root: String,
    /// Repo name (last path component of `repo_root`).
    pub repo_name: String,
    /// Path to the Cargo.nix file inside `repo_root`.
    pub cargo_nix_path: String,
    /// Full 40-char git SHA recorded in the block.
    pub rev_full: String,
    /// Current `sha256` value (the one we'll overwrite).
    pub current_sha: String,
}

/// One repo directory of the fleet root that holds a readable `Cargo.nix`.
#[derive(Debug, Clone)]
pub struct RepoCargoNix {
    /// The repo directory.
    pub repo_root: String,
    /// Path to its Cargo.nix.
    pub cargo_nix_path: String,
    /// The text of that Cargo.nix.
    pub body: String,
}

/// The fields of a [`CargoNixEntry`] as character sequences.
pub struct EntryView {
    pub repo_root: Seq<char>,
    pub repo_name: Seq<char>,
    pub cargo_nix_path: Seq<char>,
    pub rev_full: Seq<char>,
    pub current_sha: Seq<char>,
}

impl View for CargoNixEntry {
    type V = EntryView;

    open spec fn view(&self) -> EntryView {
        EntryView {
            repo_root: self.repo_root@,
            repo_name: self.repo_name@,
            cargo_nix_path: self.cargo_nix_path@,
            rev_full: self.rev_full@,
            current_sha: self.current_sha@,
        }
    }
}

/// Where one matched block sits in a text.
pub struct BlockMatch {
    /// Where the match starts, at `url = "`.
    pub start: int,
    /// Start of the 40 hex digits of `rev`.
    pub rev_start: int,
    /// Start of the `sha256` value.
    pub sha_start: int,
    /// End (exclusive) of the `sha256` value, where its closing quote stands.
    pub sha_end: int,
    /// End (exclusive) of the whole match, after `";`.
    pub end: int,
}

/// The upstream every block must point at.
pub open spec fn url_prefix() -> Seq<char> {
    "https://github.com/pleme-io/"@
}

/// `url = "https://github.com/pleme-io/<drv_name>";`
pub open spec fn url_line(drv_name: Seq<char>) -> Seq<char> {
    "url = \""@ + url_prefix() + drv_name + "\";"@
}

/// `rev = "`
pub open spec fn rev_key() -> Seq<char> {
    "rev = \""@
}

/// `sha256 = "`
pub open spec fn sha_key() -> Seq<char> {
    "sha256 = \""@
}

/// `";`
pub open spec fn quote_semi() -> Seq<char> {
    "\";"@
}

/// End of the run of whitespace that starts at `i`.
pub open spec fn skip_ws(s: Seq<char>, i: int) -> int
    decreases s.len() - i,
{
    if 0 <= i < s.len() && is_ws(s[i]) {
        skip_ws(s, i + 1)
    } else {
        i
    }
}

/// `\s*\n\s*` matches at `i` (followed by a non-blank character): the run of
/// whitespace at `i` holds a newline; `Some` of where that run ends.
pub open spec fn newline_gap(s: Seq<char>, i: int) -> Option<int> {
    let j = skip_ws(s, i);
    if exists|k: int| i <= k < j && s[k] == '\n' {
        Some(j)
    } else {
        None
    }
}

/// First `"` at or after `i`, or the end of `s`.
pub open spec fn next_quote(s: Seq<char>, i: int) -> int
    decreases s.len() - i,
{
    if i < 0 || i >= s.len() {
        s.len() as int
    } else if s[i] == '"' {
        i
    } else {
        next_quote(s, i + 1)
    }
}

/// `[a-f0-9]{40}` at `i`.
pub open spec fn hex40_at(s: Seq<char>, i: int) -> bool {
    0 <= i && i + 40 <= s.len() && forall|k: int| i <= k < i + 40 ==> is_rev_char(#[trigger] s[k])
}

/// The block pattern for the url line `url` matches `s` at `p`.
pub open spec fn block_at(s: Seq<char>, url: Seq<char>, p: int) -> Option<BlockMatch> {
    if !lit_at(s, p, url) {
        None
    } else {
        match newline_gap(s, p + url.len()) {
            None => None,
            Some(j1) => {
                let r = j1 + rev_key().len();
                if !(lit_at(s, j1, rev_key()) && hex40_at(s, r) && lit_at(s, r + 40, quote_semi())) {
                    None
                } else {
                    match newline_gap(s, r + 40 + quote_semi().len()) {
                        None => None,
                        Some(j2) => {
                            let a = j2 + sha_key().len();
                            let e = next_quote(s, a);
                            if lit_at(s, j2, sha_key()) && a < e && lit_at(s, e, quote_semi()) {
                                Some(
                                    BlockMatch {
                                        start: p,
                                        rev_start: r,
                                        sha_start: a,
                                        sha_end: e,
                                        end: e + quote_semi().len(),
                                    },
                                )
                            } else {
                                None
                            }
                        },
                    }
                }
            },
        }
    }
}

/// `rev.starts_with(prefix)`
pub open spec fn starts_with(rev: Seq<char>, prefix: Seq<char>) -> bool {
    prefix.len() <= rev.len() && rev.subrange(0, prefix.len() as int) == prefix
}

/// The first block, in the order of a non-overlapping leftmost search that
/// starts at `p`, whose `rev` starts with `rev_short`.
pub open spec fn find_block_from(s: Seq<char>, url: Seq<char>, rev_short: Seq<char>, p: int) -> Option<
    BlockMatch,
>
    decreases s.len() + 1 - p,
{
    if p < 0 || p > s.len() {
        None
    } else {
        match block_at(s, url, p) {
            Some(b) => {
                if starts_with(s.subrange(b.rev_start, b.rev_start + 40), rev_short) {
                    Some(b)
                } else if p < b.end <= s.len() {
                    find_block_from(s, url, rev_short, b.end)
                } else {
                    None
                }
            },
            None => find_block_from(s, url, rev_short, p + 1),
        }
    }
}

/// `repo_root.file_name()`, or the empty string where there is none.
pub open spec fn repo_name_of(repo_root: Seq<char>) -> Seq<char> {
    match path_file_name(repo_root) {
        Some(n) => n,
        None => Seq::empty(),
    }
}

/// The entry that `find_entries_for` reports for one repo, if any.
pub open spec fn entry_for(repo: RepoCargoNix, drv_name: Seq<char>, rev_short: Seq<char>) -> Option<
    EntryView,
> {
    let s = repo.body@;
    match find_block_from(s, url_line(drv_name), rev_short, 0) {
        Some(b) => Some(
            EntryView {
                repo_root: repo.repo_root@,
                repo_name: repo_name_of(repo.repo_root@),
                cargo_nix_path: repo.cargo_nix_path@,
                rev_full: s.subrange(b.rev_start, b.rev_start + 40),
                current_sha: s.subrange(b.sha_start, b.sha_end),
            },
        ),
        None => None,
    }
}

/// The entries of all repos, in the order of the listing.
pub open spec fn entries_for(repos: Seq<RepoCargoNix>, drv_name: Seq<char>, rev_short: Seq<char>) -> Seq<
    EntryView,
>
    decreases repos.len(),
{
    if repos.len() == 0 {
        Seq::empty()
    } else {
        let rest = entries_for(repos.drop_last(), drv_name, rev_short);
        match entry_for(repos.last(), drv_name, rev_short) {
            Some(e) => rest.push(e),
            None => rest,
        }
    }
}

/// `rev = "<rev>";`
pub open spec fn rev_line(rev: Seq<char>) -> Seq<char> {
    rev_key() + rev + quote_semi()
}

/// `(?P<head>rev = "<rev>";\s*\n\s*sha256 = ")(?P<sha>[^"]+)(?P<tail>")`
/// matches `s` at `p`; `Some` of where the sha value starts and where its
/// closing quote stands.
pub open spec fn sha_line_at(s: Seq<char>, rev: Seq<char>, p: int) -> Option<(int, int)> {
    let head = rev_line(rev);
    if !lit_at(s, p, head) {
        None
    } else {
        match newline_gap(s, p + head.len()) {
            None => None,
            Some(j) => {
                let a = j + sha_key().len();
                let e = next_quote(s, a);
                if lit_at(s, j, sha_key()) && a < e < s.len() {
                    Some((a, e))
                } else {
                    None
                }
            },
        }
    }
}

/// The text from `p` on with every sha line under `rev` (found by a
/// non-overlapping leftmost search) given the value `new`.
pub open spec fn rewrite_from(s: Seq<char>, rev: Seq<char>, new: Seq<char>, p: int) -> Seq<char>
    decreases s.len() - p,
{
    if p < 0 || p >= s.len() {
        Seq::empty()
    } else {
        match sha_line_at(s, rev, p) {
            Some((a, e)) => {
                if p < a && e < s.len() {
                    s.subrange(p, a) + new + seq!['"'] + rewrite_from(s, rev, new, e + 1)
                } else {
                    Seq::empty()
                }
            },
            None => seq![s[p]] + rewrite_from(s, rev, new, p + 1),
        }
    }
}

/// `s` with every sha line under `rev` given the value `new`.
pub open spec fn rewrite_all(s: Seq<char>, rev: Seq<char>, new: Seq<char>) -> Seq<char> {
    rewrite_from(s, rev, new, 0)
}

/// The message of the error for a rewrite that changed nothing.
pub open spec fn unchanged_message(rev: Seq<char>, path: Seq<char>) -> Seq<char> {
    "no sha256 line under rev = "@ + debug_str(rev) + " was rewritten in "@ + path
}

/// The message of the error for a too short `rev_short`.
pub open spec fn short_rev_message(rev_short: Seq<char>) -> Seq<char> {
    "rev_short must be at least 7 chars, got "@ + debug_str(rev_short)
}

/// What `find_block_from` finds carries the wanted rev: 40 hex digits that
/// start with `rev_short`, and a non-empty sha.
pub proof fn lemma_found_block_matches(s: Seq<char>, url: Seq<char>, rev_short: Seq<char>, p: int)
    requires
        find_block_from(s, url, rev_short, p) is Some,
    ensures
        ({
            let b = find_block_from(s, url, rev_short, p)->0;
            &&& hex40_at(s, b.rev_start)
            &&& starts_with(s.subrange(b.rev_start, b.rev_start + 40), rev_short)
            &&& 0 <= b.sha_start < b.sha_end <= s.len()
        }),
    decreases s.len() + 1 - p,
{
    if 0 <= p <= s.len() {
        match block_at(s, url, p) {
            Some(b) => {
                if !starts_with(s.subrange(b.rev_start, b.rev_start + 40), rev_short) {
                    lemma_found_block_matches(s, url, rev_short, b.end);
                }
            },
            None => {
                lemma_found_block_matches(s, url, rev_short, p + 1);
            },
        }
    }
}

/// Every entry `find_entries_for` reports carries a full 40-hex-digit rev
/// that starts with `rev_short`, and a non-empty current sha.
pub proof fn lemma_entries_carry_rev(
    repos: Seq<RepoCargoNix>,
    drv_name: Seq<char>,
    rev_short: Seq<char>,
)
    ensures
        forall|i: int|
            0 <= i < entries_for(repos, drv_name, rev_short).len() ==> {
                let e = #[trigger] entries_for(repos, drv_name, rev_short)[i];
                &&& e.rev_full.len() == 40
                &&& forall|k: int| 0 <= k < 40 ==> is_rev_char(#[trigger] e.rev_full[k])
                &&& starts_with(e.rev_full, rev_short)
                &&& e.current_sha.len() > 0
            },
    decreases repos.len(),
{
    if repos.len() > 0 {
        lemma_entries_carry_rev(repos.drop_last(), drv_name, rev_short);
        let repo = repos.last();
        let s = repo.body@;
        let url = url_line(drv_name);
        let rest = entries_for(repos.drop_last(), drv_name, rev_short);
        let all = entries_for(repos, drv_name, rev_short);
        if find_block_from(s, url, rev_short, 0) is Some {
            lemma_found_block_matches(s, url, rev_short, 0);
            let b = find_block_from(s, url, rev_short, 0)->0;
            let rev = s.subrange(b.rev_start, b.rev_start + 40);
            assert forall|k: int| 0 <= k < 40 implies is_rev_char(#[trigger] rev[k]) by {
                assert(is_rev_char(s[b.rev_start + k]));
            }
            assert(all == rest.push(entry_for(repo, drv_name, rev_short)->0));
            assert forall|i: int| 0 <= i < all.len() implies ({
                let e = #[trigger] all[i];
                &&& e.rev_full.len() == 40
                &&& forall|k: int| 0 <= k < 40 ==> is_rev_char(#[trigger] e.rev_full[k])
                &&& starts_with(e.rev_full, rev_short)
                &&& e.current_sha.len() > 0
            }) by {
                let e = all[i];
                if i < rest.len() {
                    assert(all[i] == rest[i]);
                    assert(e.rev_full.len() == 40);
                    assert(forall|k: int| 0 <= k < 40 ==> is_rev_char(#[trigger] e.rev_full[k]));
                    assert(starts_with(e.rev_full, rev_short));
                    assert(e.current_sha.len() > 0);
                } else {
                    assert(e.rev_full == rev);
                    assert(e.current_sha == s.subrange(b.sha_start, b.sha_end));
                    assert(e.rev_full.len() == 40);
                    assert(forall|k: int| 0 <= k < 40 ==> is_rev_char(#[trigger] e.rev_full[k]));
                    assert(starts_with(e.rev_full, rev_short));
                    assert(e.current_sha.len() > 0);
                }
            }
        } else {
            assert(all == rest);
        }
    }
}

/// `idx[i]` is the position in `repos` of the repo that the `i`-th entry
/// comes from, and the positions increase.
pub open spec fn sourced_from(
    repos: Seq<RepoCargoNix>,
    drv_name: Seq<char>,
    rev_short: Seq<char>,
    idx: Seq<int>,
) -> bool {
    &&& idx.len() == entries_for(repos, drv_name, rev_short).len()
    &&& forall|i: int, j: int| 0 <= i < j < idx.len() ==> idx[i] < idx[j]
    &&& forall|i: int|
        #![trigger idx[i]]
        0 <= i < idx.len() ==> {
            &&& 0 <= idx[i] < repos.len()
            &&& entry_for(repos[idx[i]], drv_name, rev_short) == Some(
                entries_for(repos, drv_name, rev_short)[i],
            )
        }
}

/// `find_entries_for` reports at most one entry per listed repo, in the
/// order of the listing.
pub proof fn lemma_one_entry_per_repo(
    repos: Seq<RepoCargoNix>,
    drv_name: Seq<char>,
    rev_short: Seq<char>,
)
    ensures
        entries_for(repos, drv_name, rev_short).len() <= repos.len(),
        exists|idx: Seq<int>| #[trigger] sourced_from(repos, drv_name, rev_short, idx),
    decreases repos.len(),
{
    let all = entries_for(repos, drv_name, rev_short);
    if repos.len() == 0 {
        let idx = Seq::<int>::empty();
        assert(sourced_from(repos, drv_name, rev_short, idx));
    } else {
        let front = repos.drop_last();
        lemma_one_entry_per_repo(front, drv_name, rev_short);
        let rest = entries_for(front, drv_name, rev_short);
        let idx0 = choose|idx: Seq<int>| #[trigger] sourced_from(front, drv_name, rev_short, idx);
        match entry_for(repos.last(), drv_name, rev_short) {
            Some(e) => {
                let idx = idx0.push(repos.len() - 1);
                assert(all == rest.push(e));
                assert forall|i: int| #![trigger idx[i]] 0 <= i < idx.len() implies {
                    &&& 0 <= idx[i] < repos.len()
                    &&& entry_for(repos[idx[i]], drv_name, rev_short) == Some(all[i])
                } by {
                    if i < rest.len() {
                        assert(idx[i] == idx0[i]);
                        assert(all[i] == rest[i]);
                        assert(repos[idx0[i]] == front[idx0[i]]);
                    }
                }
                assert forall|i: int, j: int| 0 <= i < j < idx.len() implies idx[i] < idx[j] by {
                    assert(idx[i] == idx0[i]);
                    if j < rest.len() {
                        assert(idx[j] == idx0[j]);
                    }
                }
                assert(sourced_from(repos, drv_name, rev_short, idx));
            },
            None => {
                assert(all == rest);
                assert forall|i: int| #![trigger idx0[i]] 0 <= i < idx0.len() implies {
                    &&& 0 <= idx0[i] < repos.len()
                    &&& entry_for(repos[idx0[i]], drv_name, rev_short) == Some(all[i])
                } by {
                    assert(repos[idx0[i]] == front[idx0[i]]);
                }
                assert(sourced_from(repos, drv_name, rev_short, idx0));
            },
        }
    }
}

/// The rev prefix that a parse yields is seven hex digits, seven bytes long,
/// so `find_entries_for` never refuses it as too short.
pub proof fn lemma_parsed_rev_is_accepted(s: Seq<char>, m: MismatchView)
    requires
        parses_to(s, m),
    ensures
        m.rev_short.len() == 7,
        forall|k: int| 0 <= k < 7 ==> is_rev_char(#[trigger] m.rev_short[k]),
        vstd::utf8::encode_utf8(m.rev_short).len() >= 7,
{
    let r = m.rev_short;
    assert forall|k: int| 0 <= k < r.len() implies '\0' <= #[trigger] r[k] <= '\u{7f}' by {
        assert(is_rev_char(r[k]));
    }
    vstd::utf8::is_ascii_chars_encode_utf8(r);
}

/// Rewriting every sha line under `rev` to the value it already holds
/// gives back the text unchanged (so `replace_sha` refuses it).
pub proof fn lemma_rewrite_to_same_is_identity(s: Seq<char>, rev: Seq<char>, new: Seq<char>)
    requires
        forall|p: int|
            #[trigger] sha_line_at(s, rev, p) matches Some((a, e)) ==> s.subrange(a, e) == new,
    ensures
        rewrite_all(s, rev, new) == s,
{
    lemma_rewrite_from_same(s, rev, new, 0);
    assert(s.subrange(0, s.len() as int) =~= s);
}

proof fn lemma_rewrite_from_same(s: Seq<char>, rev: Seq<char>, new: Seq<char>, p: int)
    requires
        0 <= p <= s.len(),
        forall|q: int|
            #[trigger] sha_line_at(s, rev, q) matches Some((a, e)) ==> s.subrange(a, e) == new,
    ensures
        rewrite_from(s, rev, new, p) == s.subrange(p, s.len() as int),
    decreases s.len() - p,
{
    if p < s.len() {
        match sha_line_at(s, rev, p) {
            Some((a, e)) => {
                if p < a && e < s.len() {
                    lemma_rewrite_from_same(s, rev, new, e + 1);
                    assert(s[e] == '"') by {
                        lemma_next_quote(s, a);
                    }
                    assert(s.subrange(p, s.len() as int) =~= s.subrange(p, a) + s.subrange(a, e)
                        + seq!['"'] + s.subrange(e + 1, s.len() as int));
                } else {
                    lemma_sha_line_bounds(s, rev, p);
                }
            },
            None => {
                lemma_rewrite_from_same(s, rev, new, p + 1);
                assert(s.subrange(p, s.len() as int) =~= seq![s[p]] + s.subrange(
                    p + 1,
                    s.len() as int,
                ));
            },
        }
    } else {
        assert(s.subrange(p, s.len() as int) =~= Seq::<char>::empty());
    }
}

/// `next_quote` lies at or after `i`, and points at a quote unless it is the end.
pub proof fn lemma_next_quote(s: Seq<char>, i: int)
    requires
        0 <= i <= s.len(),
    ensures
        i <= next_quote(s, i) <= s.len(),
        next_quote(s, i) < s.len() ==> s[next_quote(s, i)] == '"',
        forall|k: int| i <= k < next_quote(s, i) ==> s[k] != '"',
    decreases s.len() - i,
{
    if i < s.len() && s[i] != '"' {
        lemma_next_quote(s, i + 1);
    }
}

/// `skip_ws` lies at or after `i`, and everything it skips is whitespace.
pub proof fn lemma_skip_ws(s: Seq<char>, i: int)
    requires
        0 <= i <= s.len(),
    ensures
        i <= skip_ws(s, i) <= s.len(),
        skip_ws(s, i) < s.len() ==> !is_ws(s[skip_ws(s, i)]),
        forall|k: int| i <= k < skip_ws(s, i) ==> is_ws(s[k]),
    decreases s.len() - i,
{
    if i < s.len() && is_ws(s[i]) {
        lemma_skip_ws(s, i + 1);
    }
}

/// A sha line match sits inside the text, after its start.
pub proof fn lemma_sha_line_bounds(s: Seq<char>, rev: Seq<char>, p: int)
    requires
        sha_line_at(s, rev, p) is Some,
    ensures
        ({
            let (a, e) = sha_line_at(s, rev, p)->0;
            p < a < e < s.len()
        }),
{
    let head = rev_line(rev);
    lemma_skip_ws(s, p + head.len());
    reveal_strlit("sha256 = \"");
}

/// Executable `skip_ws`; also reports whether the run holds a newline.
fn skip_ws_exec(v: &Vec<char>, i: usize) -> (r: (usize, bool))
    requires
        i <= v@.len(),
    ensures
        r.0 == skip_ws(v@, i as int),
        i <= r.0 <= v@.len(),
        r.1 == exists|k: int| i <= k < r.0 && v@[k] == '\n',
{
    let mut j = i;
    let mut nl = false;
    while j < v.len() && is_ws_char(v[j])
        invariant
            i <= j <= v@.len(),
            skip_ws(v@, j as int) == skip_ws(v@, i as int),
            nl == exists|k: int| i <= k < j && v@[k] == '\n',
        decreases v@.len() - j,
    {
        if v[j] == '\n' {
            nl = true;
        }
        proof {
            if !nl {
                assert forall|k: int| i <= k < j + 1 implies v@[k] != '\n' by {
                    if k < j {
                        assert(!(i <= k < j && v@[k] == '\n'));
                    }
                }
            } else {
                if v@[j as int] != '\n' {
                    let k = choose|k: int| i <= k < j && v@[k] == '\n';
                    assert(i <= k < j + 1 && v@[k] == '\n');
                } else {
                    assert(i <= j < j + 1 && v@[j as int] == '\n');
                }
            }
        }
        j = j + 1;
    }
    (j, nl)
}

/// Executable `newline_gap`.
fn newline_gap_exec(v: &Vec<char>, i: usize) -> (r: Option<usize>)
    requires
        i <= v@.len(),
    ensures
        match r {
            Some(j) => newline_gap(v@, i as int) == Some(j as int) && i <= j <= v@.len(),
            None => newline_gap(v@, i as int) is None,
        },
{
    let (j, nl) = skip_ws_exec(v, i);
    if nl {
        Some(j)
    } else {
        None
    }
}

/// Executable `next_quote`.
fn next_quote_exec(v: &Vec<char>, i: usize) -> (r: usize)
    requires
        i <= v@.len(),
    ensures
        r == next_quote(v@, i as int),
        i <= r <= v@.len(),
{
    let mut k = i;
    while k < v.len() && v[k] != '"'
        invariant
            i <= k <= v@.len(),
            next_quote(v@, k as int) == next_quote(v@, i as int),
        decreases v@.len() - k,
    {
        k = k + 1;
    }
    k
}

/// Executable `hex40_at`.
fn hex40_at_exec(v: &Vec<char>, i: usize) -> (r: bool)
    requires
        i <= v@.len(),
    ensures
        r == hex40_at(v@, i as int),
{
    if v.len() - i < 40 {
        return false;
    }
    let end = i + 40;
    let mut k = i;
    while k < end
        invariant
            end == i + 40,
            i <= k <= i + 40 <= v@.len(),
            forall|j: int| i <= j < k ==> is_rev_char(#[trigger] v@[j]),
        decreases i + 40 - k,
    {
        let c = v[k];
        if !(('a' <= c && c <= 'f') || ('0' <= c && c <= '9')) {
            assert(!is_rev_char(v@[k as int]));
            return false;
        }
        k = k + 1;
    }
    true
}

/// The literals of the block grammar, as vectors.
struct BlockLits {
    rev_key: Vec<char>,
    sha_key: Vec<char>,
    quote_semi: Vec<char>,
}

impl BlockLits {
    spec fn wf(&self) -> bool {
        &&& self.rev_key@ == rev_key()
        &&& self.sha_key@ == sha_key()
        &&& self.quote_semi@ == quote_semi()
    }

    fn new() -> (r: BlockLits)
        ensures
            r.wf(),
    {
        BlockLits {
            rev_key: to_chars("rev = \""),
            sha_key: to_chars("sha256 = \""),
            quote_semi: to_chars("\";"),
        }
    }
}

/// Executable `block_at`: `(rev_start, sha_start, sha_end, end)`.
fn block_at_exec(v: &Vec<char>, url: &Vec<char>, lits: &BlockLits, p: usize) -> (r: Option<
    (usize, usize, usize, usize),
>)
    requires
        lits.wf(),
    ensures
        match r {
            Some((rs, a, e, end)) => block_at(v@, url@, p as int) == Some(
                BlockMatch {
                    start: p as int,
                    rev_start: rs as int,
                    sha_start: a as int,
                    sha_end: e as int,
                    end: end as int,
                },
            ) && p < end <= v@.len(),
            None => block_at(v@, url@, p as int) is None,
        },
{
    let n = v.len();
    if !lit_at_exec(v, p, url) {
        return None;
    }
    let j1 = match newline_gap_exec(v, p + url.len()) {
        Some(j) => j,
        None => return None,
    };
    if !lit_at_exec(v, j1, &lits.rev_key) {
        return None;
    }
    let r = j1 + lits.rev_key.len();
    if !hex40_at_exec(v, r) {
        return None;
    }
    if !lit_at_exec(v, r + 40, &lits.quote_semi) {
        return None;
    }
    let j2 = match newline_gap_exec(v, r + 40 + lits.quote_semi.len()) {
        Some(j) => j,
        None => return None,
    };
    if !lit_at_exec(v, j2, &lits.sha_key) {
        return None;
    }
    let a = j2 + lits.sha_key.len();
    let e = next_quote_exec(v, a);
    if a < e && lit_at_exec(v, e, &lits.quote_semi) {
        Some((r, a, e, e + lits.quote_semi.len()))
    } else {
        None
    }
}

/// Whether the 40 hex digits at `rs` start with `prefix`.
fn rev_starts_with(v: &Vec<char>, rs: usize, prefix: &Vec<char>) -> (r: bool)
    requires
        hex40_at(v@, rs as int),
    ensures
        r == starts_with(v@.subrange(rs as int, rs + 40), prefix@),
{
    let ghost rev = v@.subrange(rs as int, rs + 40);
    let n = v.len();
    if prefix.len() > 40 {
        return false;
    }
    let mut k: usize = 0;
    while k < prefix.len()
        invariant
            hex40_at(v@, rs as int),
            n == v@.len(),
            rev == v@.subrange(rs as int, rs + 40),
            prefix@.len() <= 40,
            k <= prefix@.len(),
            forall|j: int| 0 <= j < k ==> v@[rs + j] == prefix@[j],
        decreases prefix@.len() - k,
    {
        if v[rs + k] != prefix[k] {
            assert(rev.subrange(0, prefix@.len() as int)[k as int] != prefix@[k as int]);
            return false;
        }
        k = k + 1;
    }
    assert(rev.subrange(0, prefix@.len() as int) =~= prefix@);
    true
}

/// The first block after `0` for `url` whose `rev` starts with `rev_short`.
fn find_block(v: &Vec<char>, url: &Vec<char>, rev_short: &Vec<char>) -> (r: Option<
    (usize, usize, usize),
>)
    ensures
        match r {
            Some((rs, a, e)) => find_block_from(v@, url@, rev_short@, 0) matches Some(b) && b.rev_start
                == rs && b.sha_start == a && b.sha_end == e && rs + 40 <= v@.len() && a <= e
                <= v@.len(),
            None => find_block_from(v@, url@, rev_short@, 0) is None,
        },
{
    let lits = BlockLits::new();
    let mut p: usize = 0;
    while p <= v.len()
        invariant
            lits.wf(),
            p <= v@.len() + 1,
            v@.len() == v.len(),
            find_block_from(v@, url@, rev_short@, p as int) == find_block_from(
                v@,
                url@,
                rev_short@,
                0,
            ),
        decreases v@.len() + 1 - p,
    {
        match block_at_exec(v, url, &lits, p) {
            Some((rs, a, e, end)) => {
                if rev_starts_with(v, rs, rev_short) {
                    return Some((rs, a, e));
                }
                p = end;
            },
            None => {
                if p == v.len() {
                    assert(find_block_from(v@, url@, rev_short@, p + 1) is None);
                    return None;
                }
                p = p + 1;
            },
        }
    }
    None
}

/// Search the listed Cargo.nix files for every block whose
/// `url = "https://github.com/pleme-io/<drv_name>"` carries a `rev`
/// starting with `rev_short`: at most one entry per repo (the first such
/// block of its file), in the order of `repos`.
///
/// A `rev_short` shorter than 7 bytes is refused with `FixError::Parse`.
pub fn find_entries_for(drv_name: &str, rev_short: &str, repos: &Vec<RepoCargoNix>) -> (r: Result<
    Vec<CargoNixEntry>,
    FixError,
>)
    ensures
        r is Err <==> rev_short.len() < 7,
        r matches Err(e) ==> e matches FixError::Parse(msg) && msg@ == short_rev_message(
            rev_short@,
        ),
        r matches Ok(es) ==> es@.map_values(|e: CargoNixEntry| e@) == entries_for(
            repos@,
            drv_name@,
            rev_short@,
        ),
{
    if rev_short.len() < 7 {
        let shown = debug_quoted(rev_short);
        let msg = String::from_str("rev_short must be at least 7 chars, got ").concat(
            shown.as_str(),
        );
        return Err(FixError::Parse(msg));
    }
    let mut url = to_chars("url = \"");
    let mut tail = to_chars("https://github.com/pleme-io/");
    url.append(&mut tail);
    let mut name = to_chars(drv_name);
    url.append(&mut name);
    let mut close = to_chars("\";");
    url.append(&mut close);
    assert(url@ =~= url_line(drv_name@));
    let rev_chars = to_chars(rev_short);
    let mut out: Vec<CargoNixEntry> = Vec::new();
    let mut i: usize = 0;
    while i < repos.len()
        invariant
            i <= repos@.len(),
            url@ == url_line(drv_name@),
            rev_chars@ == rev_short@,
            out@.map_values(|e: CargoNixEntry| e@) == entries_for(
                repos@.take(i as int),
                drv_name@,
                rev_short@,
            ),
        decreases repos@.len() - i,
    {
        let repo = &repos[i];
        let body = to_chars(repo.body.as_str());
        assert(repos@.take(i + 1).drop_last() =~= repos@.take(i as int));
        match find_block(&body, &url, &rev_chars) {
            Some((rs, a, e)) => {
                assert(rs + 40 <= body.len());
                let root = to_chars(repo.repo_root.as_str());
                let repo_name = match file_name_of_str(&root, repo.repo_root.as_str()) {
                    Some(n) => n,
                    None => String::new(),
                };
                let entry = CargoNixEntry {
                    repo_root: repo.repo_root.clone(),
                    repo_name,
                    cargo_nix_path: repo.cargo_nix_path.clone(),
                    rev_full: slice_string(repo.body.as_str(), rs, rs + 40),
                    current_sha: slice_string(repo.body.as_str(), a, e),
                };
                out.push(entry);
                assert(out@.map_values(|e: CargoNixEntry| e@) =~= entries_for(
                    repos@.take(i as int),
                    drv_name@,
                    rev_short@,
                ).push(entry@));
            },
            None => {},
        }
        i = i + 1;
    }
    assert(repos@.take(repos@.len() as int) =~= repos@);
    Ok(out)
}

/// Executable `sha_line_at`, for `head == rev_line(rev)`.
fn sha_line_at_exec(v: &Vec<char>, head: &Vec<char>, sha_key_v: &Vec<char>, p: usize) -> (r: Option<
    (usize, usize),
>)
    requires
        sha_key_v@ == sha_key(),
    ensures
        forall|rev: Seq<char>|
            head@ == rev_line(rev) ==> match r {
                Some((a, e)) => sha_line_at(v@, rev, p as int) == Some((a as int, e as int)),
                None => sha_line_at(v@, rev, p as int) is None,
            },
        r matches Some((a, e)) ==> p < a < e < v@.len(),
{
    let n = v.len();
    if !lit_at_exec(v, p, head) {
        return None;
    }
    let j = match newline_gap_exec(v, p + head.len()) {
        Some(j) => j,
        None => return None,
    };
    if !lit_at_exec(v, j, sha_key_v) {
        return None;
    }
    let a = j + sha_key_v.len();
    let e = next_quote_exec(v, a);
    proof {
        reveal_strlit("sha256 = \"");
    }
    if a < e && e < v.len() {
        Some((a, e))
    } else {
        None
    }
}

/// Rewrite every `sha256 = "..."` line that follows a
/// `rev = "<entry.rev_full>";` in `body`, the text of
/// `entry.cargo_nix_path`, to `new_sha`, and return the new text.
///
/// A rewrite that leaves the text unchanged (no such line, or every such
/// line already holds `new_sha`) is refused with `FixError::Parse`.
pub fn replace_sha(entry: &CargoNixEntry, new_sha: &str, body: &str) -> (r: Result<String, FixError>)
    ensures
        r is Ok <==> rewrite_all(body@, entry.rev_full@, new_sha@) != body@,
        r matches Ok(b) ==> b@ == rewrite_all(body@, entry.rev_full@, new_sha@),
        r matches Err(e) ==> e matches FixError::Parse(msg) && msg@ == unchanged_message(
            entry.rev_full@,
            entry.cargo_nix_path@,
        ),
{
    let v = to_chars(body);
    let ghost s = body@;
    let ghost rev = entry.rev_full@;
    let ghost new = new_sha@;
    let mut head = to_chars("rev = \"");
    let mut rev_v = to_chars(entry.rev_full.as_str());
    head.append(&mut rev_v);
    let mut qs = to_chars("\";");
    head.append(&mut qs);
    assert(head@ =~= rev_line(rev));
    let sha_key_v = to_chars("sha256 = \"");
    let mut out = String::new();
    let mut last: usize = 0;
    let mut p: usize = 0;
    proof {
        reveal_strlit("\"");
    }
    while p < v.len()
        invariant
            v@ == s,
            s == body@,
            head@ == rev_line(rev),
            rev == entry.rev_full@,
            new == new_sha@,
            sha_key_v@ == sha_key(),
            "\""@ == seq!['"'],
            last <= p <= v@.len(),
            out@ + s.subrange(last as int, p as int) + rewrite_from(s, rev, new, p as int)
                == rewrite_all(s, rev, new),
        decreases v@.len() - p,
    {
        match sha_line_at_exec(&v, &head, &sha_key_v, p) {
            Some((a, e)) => {
                let ghost old_out = out@;
                out.append(body.substring_char(last, a));
                assert(out@ == old_out + s.subrange(last as int, a as int));
                out.append(new_sha);
                assert(out@ == old_out + s.subrange(last as int, a as int) + new_sha@);
                out.append("\"");
                assert(out@ == old_out + s.subrange(last as int, a as int) + new + seq!['"']);
                assert(s.subrange(last as int, p as int) + s.subrange(p as int, a as int)
                    =~= s.subrange(last as int, a as int));
                assert(s.subrange(e + 1, e + 1) =~= Seq::<char>::empty());
                assert(out@ =~= old_out + s.subrange(last as int, p as int) + (s.subrange(
                    p as int,
                    a as int,
                ) + new + seq!['"']));
                last = e + 1;
                p = e + 1;
            },
            None => {
                assert(s.subrange(last as int, p as int) + seq![s[p as int]] =~= s.subrange(
                    last as int,
                    p + 1,
                ));
                p = p + 1;
            },
        }
    }
    out.append(body.substring_char(last, v.len()));
    assert(out@ =~= rewrite_all(s, rev, new));
    let old_body = String::from_str(body);
    if out == old_body {
        let shown = debug_quoted(entry.rev_full.as_str());
        let msg = String::from_str("no sha256 line under rev = ").concat(shown.as_str()).concat(
            " was rewritten in ",
        ).concat(entry.cargo_nix_path.as_str());
        return Err(FixError::Parse(msg));
    }
    Ok(out)
}

/// A field-by-field copy of `e`.
pub fn clone_entry(e: &CargoNixEntry) -> (r: CargoNixEntry)
    ensures
        r@ == e@,
{
    CargoNixEntry {
        repo_root: e.repo_root.clone(),
        repo_name: e.repo_name.clone(),
        cargo_nix_path: e.cargo_nix_path.clone(),
        rev_full: e.rev_full.clone(),
        current_sha: e.current_sha.clone(),
    }
}

/// `Path::file_name` of the whole of `s`, whose characters are `v`.
fn file_name_of_str(v: &Vec<char>, s: &str) -> (r: Option<String>)
    requires
        v@ == s@,
    ensures
        match r {
            Some(n) => path_file_name(s@) == Some(n@),
            None => path_file_name(s@) is None,
        },
{
    match crate::parser::file_name_range(v, 0, v.len()) {
        Some((a, b)) => {
            assert(v@.subrange(0, v@.len() as int) =~= v@);
            Some(slice_string(s, a, b))
        },
        None => {
            assert(v@.subrange(0, v@.len() as int) =~= v@);
            None
        },
    }
}

} // verus!
