//! The fix-loop: rebuild, parse the first hash mismatch, rewrite the stale
//! Cargo.nix entries, commit and push them, bump the flake inputs, and loop.
//!
//! The rebuild, the file system, git and nix are driven by the caller; the
//! decisions are made here, one event at a time. [`FixLoop::run_one_iter`]
//! takes the state of an iteration and what the last action produced, and
//! returns the next state and the next action. [`FixLoop::run_until_clean`]
//! does the same for the sequence of iterations.

use vstd::prelude::*;

use crate::cargo_nix::{clone_entry, CargoNixEntry, EntryView};
use crate::config::HashfixConfig;
use crate::error::FixError;
use crate::parser::{parses_to, HashMismatch, MismatchView};
use crate::text::{contains_exec, contains_lit, to_chars};

verus! {

broadcast use vstd::string::group_string_axioms;

/// Result of a single loop iteration.
#[derive(Debug, Clone)]
pub enum FixIterOutcome {
    /// The rebuild succeeded: the loop has converged.
    RebuildClean,
    /// One mismatch was found and fixed across `repos`.
    Fixed { drv_name: String, repos: Vec<String> },
    /// We parsed a mismatch but found no Cargo.nix carrying the
    /// `(drv_name, rev_short)` pair with a stale sha: manual intervention needed.
    NoMatch { drv_name: String, rev_short: String },
    /// The rebuild failed but the error isn't a hash mismatch (typed
    /// compile error, missing input, etc.). The loop must stop.
    NonHashError { details: String },
}

/// Drives the rebuild → parse → fix → push → flake-update loop.
pub struct FixLoop {
    pub config: HashfixConfig,
    /// If true, never run git or `nix flake update`; only rewrite
    /// Cargo.nix files and report.
    pub dry_run: bool,
}

/// The marker of a successful rebuild.
pub open spec fn clean_marker() -> Seq<char> {
    "rebuilt successfully"@
}

/// What every hash-mismatch report of nix says.
pub open spec fn mismatch_marker() -> Seq<char> {
    "hash mismatch"@
}

/// The message for output that reports a hash mismatch that cannot be parsed,
/// `details` being the tail of that output.
pub open spec fn unparsed_mismatch_message(details: Seq<char>) -> Seq<char> {
    "could not parse the hash mismatch in the rebuild output: "@ + details
}

/// Index of the first `\n` at or after `i`, or the end of `s`.
pub open spec fn next_newline(s: Seq<char>, i: int) -> int
    decreases s.len() - i,
{
    if i < 0 || i >= s.len() {
        s.len() as int
    } else if s[i] == '\n' {
        i
    } else {
        next_newline(s, i + 1)
    }
}

/// `next_newline` lies between `i` and the end.
pub proof fn lemma_next_newline(s: Seq<char>, i: int)
    requires
        0 <= i <= s.len(),
    ensures
        i <= next_newline(s, i) <= s.len(),
        next_newline(s, i) < s.len() ==> s[next_newline(s, i)] == '\n',
        forall|k: int| i <= k < next_newline(s, i) ==> s[k] != '\n',
    decreases s.len() - i,
{
    if i < s.len() && s[i] != '\n' {
        lemma_next_newline(s, i + 1);
    }
}

/// A line with its `\r` of a `\r\n` ending removed.
pub open spec fn strip_cr(line: Seq<char>) -> Seq<char> {
    if line.len() > 0 && line.last() == '\r' {
        line.drop_last()
    } else {
        line
    }
}

/// The lines of `s` from `i` on, as `str::lines` yields them: split at `\n`
/// or `\r\n`, without the terminators, the final terminator optional.
pub open spec fn lines_from(s: Seq<char>, i: int) -> Seq<Seq<char>>
    decreases s.len() - i,
{
    if i < 0 || i >= s.len() {
        Seq::empty()
    } else {
        let k = next_newline(s, i);
        if k >= s.len() {
            seq![s.subrange(i, s.len() as int)]
        } else if k >= i {
            seq![strip_cr(s.subrange(i, k))] + lines_from(s, k + 1)
        } else {
            Seq::empty()
        }
    }
}

/// `lines.join("\n")`
pub open spec fn join_lines(lines: Seq<Seq<char>>) -> Seq<char>
    decreases lines.len(),
{
    if lines.len() == 0 {
        Seq::empty()
    } else if lines.len() == 1 {
        lines[0]
    } else {
        join_lines(lines.drop_last()) + seq!['\n'] + lines.last()
    }
}

/// How many trailing lines of a failed rebuild the operator is shown.
pub open spec fn tail_lines() -> int {
    30
}

/// The last (up to) 30 lines of `s`, joined by `\n`.
pub open spec fn error_tail_of(s: Seq<char>) -> Seq<char> {
    let lines = lines_from(s, 0);
    let start = if lines.len() > tail_lines() {
        lines.len() - tail_lines()
    } else {
        0
    };
    join_lines(lines.subrange(start, lines.len() as int))
}

/// `y` without its final newline, if it ends in one.
pub open spec fn without_final_newline(y: Seq<char>) -> Seq<char> {
    if y.len() > 0 && y.last() == '\n' {
        y.drop_last()
    } else {
        y
    }
}

/// Joining `x` in front of other lines.
proof fn lemma_join_front(x: Seq<char>, rest: Seq<Seq<char>>)
    ensures
        join_lines(seq![x] + rest) == if rest.len() == 0 {
            x
        } else {
            x + seq!['\n'] + join_lines(rest)
        },
    decreases rest.len(),
{
    let l = seq![x] + rest;
    if rest.len() == 0 {
        assert(l =~= seq![x]);
        assert(join_lines(l) == l[0]);
    } else if rest.len() == 1 {
        assert(l.drop_last() =~= seq![x]);
        assert(join_lines(seq![x]) == x);
        assert(join_lines(rest) == rest[0]);
        assert(l.last() == rest[0]);
        assert(join_lines(l) == join_lines(l.drop_last()) + seq!['\n'] + l.last());
    } else {
        lemma_join_front(x, rest.drop_last());
        assert(l.drop_last() =~= seq![x] + rest.drop_last());
        assert(l.last() == rest.last());
        assert(join_lines(l) =~= x + seq!['\n'] + join_lines(rest));
    }
}

/// The lines of a text without `\r`, joined by `\n`, give back the text
/// from `i` on, without its final newline.
proof fn lemma_lines_rejoin(s: Seq<char>, i: int)
    requires
        0 <= i <= s.len(),
        forall|k: int| 0 <= k < s.len() ==> s[k] != '\r',
    ensures
        join_lines(lines_from(s, i)) == without_final_newline(s.subrange(i, s.len() as int)),
    decreases s.len() - i,
{
    if i == s.len() {
        assert(lines_from(s, i) =~= Seq::<Seq<char>>::empty());
        assert(s.subrange(i, i) =~= Seq::<char>::empty());
    } else {
        lemma_next_newline(s, i);
        let k = next_newline(s, i);
        let y = s.subrange(i, s.len() as int);
        if k >= s.len() {
            assert(lines_from(s, i) == seq![y]);
            assert(y.last() == s[s.len() - 1]);
        } else {
            lemma_next_newline(s, i);
            lemma_lines_rejoin(s, k + 1);
            let first = s.subrange(i, k);
            assert(strip_cr(first) == first) by {
                if first.len() > 0 {
                    assert(first.last() == s[k - 1]);
                }
            }
            let rest = lines_from(s, k + 1);
            assert(lines_from(s, i) == seq![first] + rest);
            lemma_join_front(first, rest);
            let z = s.subrange(k + 1, s.len() as int);
            assert(y =~= first + seq!['\n'] + z);
            if k + 1 == s.len() {
                assert(rest =~= Seq::<Seq<char>>::empty());
                assert(y.drop_last() =~= first);
            } else {
                assert(rest.len() > 0);
                assert(y.last() == z.last());
                if z.last() == '\n' {
                    assert(y.drop_last() =~= first + seq!['\n'] + z.drop_last());
                }
            }
        }
    }
}

/// The tail shown of a failed rebuild with at most 30 lines (and no `\r`)
/// is the whole output, headline included, without its final newline.
pub proof fn lemma_short_output_shown_whole(s: Seq<char>)
    requires
        lines_from(s, 0).len() <= 30,
        forall|k: int| 0 <= k < s.len() ==> s[k] != '\r',
    ensures
        error_tail_of(s) == without_final_newline(s),
{
    lemma_lines_rejoin(s, 0);
    let lines = lines_from(s, 0);
    assert(lines.subrange(0, lines.len() as int) =~= lines);
    assert(s.subrange(0, s.len() as int) =~= s);
}

/// `next_newline` read after a prefix.
proof fn lemma_next_newline_shift(x: Seq<char>, y: Seq<char>, j: int)
    requires
        0 <= j <= y.len(),
    ensures
        next_newline(x + y, x.len() + j) == next_newline(y, j) + x.len(),
    decreases y.len() - j,
{
    if j < y.len() {
        assert((x + y)[x.len() + j] == y[j]);
        if y[j] != '\n' {
            lemma_next_newline_shift(x, y, j + 1);
        }
    }
}

/// The lines after a prefix are the lines of the rest.
proof fn lemma_lines_shift(x: Seq<char>, y: Seq<char>, j: int)
    requires
        0 <= j <= y.len(),
    ensures
        lines_from(x + y, x.len() + j) == lines_from(y, j),
    decreases y.len() - j,
{
    let xy = x + y;
    let d = x.len() as int;
    if j < y.len() {
        lemma_next_newline_shift(x, y, j);
        lemma_next_newline(y, j);
        let k = next_newline(y, j);
        if k >= y.len() {
            assert(xy.subrange(d + j, xy.len() as int) =~= y.subrange(j, y.len() as int));
        } else {
            lemma_lines_shift(x, y, k + 1);
            assert(xy.subrange(d + j, d + k) =~= y.subrange(j, k));
        }
    }
}

/// The lines of a text that ends with a newline, followed by more text, are
/// its lines followed by the lines of the rest.
proof fn lemma_lines_concat(x: Seq<char>, y: Seq<char>, i: int)
    requires
        x.len() > 0,
        x.last() == '\n',
        0 <= i <= x.len(),
    ensures
        lines_from(x + y, i) == lines_from(x, i) + lines_from(y, 0),
    decreases x.len() - i,
{
    let xy = x + y;
    if i == x.len() {
        lemma_lines_shift(x, y, 0);
        assert(lines_from(x, i) =~= Seq::<Seq<char>>::empty());
        assert(lines_from(x, i) + lines_from(y, 0) =~= lines_from(y, 0));
    } else {
        lemma_next_newline(x, i);
        let k = next_newline(x, i);
        assert(k < x.len()) by {
            if k >= x.len() {
                assert(x[x.len() - 1] != '\n');
            }
        }
        assert(next_newline(xy, i) == k) by {
            lemma_next_newline_prefix(x, y, i);
        }
        lemma_lines_concat(x, y, k + 1);
        assert(xy.subrange(i, k) =~= x.subrange(i, k));
        assert(lines_from(xy, i) =~= seq![strip_cr(x.subrange(i, k))] + (lines_from(x, k + 1)
            + lines_from(y, 0)));
        assert(lines_from(x, i) + lines_from(y, 0) =~= seq![strip_cr(x.subrange(i, k))] + (
        lines_from(x, k + 1) + lines_from(y, 0)));
    }
}

/// `next_newline` inside a prefix that holds the newline.
proof fn lemma_next_newline_prefix(x: Seq<char>, y: Seq<char>, i: int)
    requires
        0 <= i <= x.len(),
        next_newline(x, i) < x.len(),
    ensures
        next_newline(x + y, i) == next_newline(x, i),
    decreases x.len() - i,
{
    assert((x + y)[i] == x[i]);
    if x[i] != '\n' {
        lemma_next_newline_prefix(x, y, i + 1);
    }
}

/// Of a failed rebuild whose output ends with 30 lines `y` (without `\r`)
/// after whatever came before (ending with a newline), exactly those 30
/// lines are shown.
pub proof fn lemma_tail_is_last_thirty_lines(x: Seq<char>, y: Seq<char>)
    requires
        x.len() == 0 || x.last() == '\n',
        lines_from(y, 0).len() == 30,
        forall|k: int| 0 <= k < y.len() ==> y[k] != '\r',
    ensures
        error_tail_of(x + y) == without_final_newline(y),
{
    let ly = lines_from(y, 0);
    if x.len() == 0 {
        assert(x + y =~= y);
    } else {
        lemma_lines_concat(x, y, 0);
    }
    let lxy = lines_from(x + y, 0);
    let lx = lines_from(x, 0);
    assert(lxy =~= lx + ly) by {
        if x.len() == 0 {
            assert(lx =~= Seq::<Seq<char>>::empty());
        }
    }
    assert(lxy.subrange(lxy.len() - 30, lxy.len() as int) =~= ly);
    lemma_lines_rejoin(y, 0);
    assert(y.subrange(0, y.len() as int) =~= y);
}

impl FixLoop {
    /// Construct a new loop, dry-run off.
    pub fn new(config: HashfixConfig) -> (r: Self)
        ensures
            r.config == config,
            !r.dry_run,
    {
        FixLoop { config, dry_run: false }
    }

    /// Construct a new loop with the given dry-run setting.
    pub fn with_dry_run(config: HashfixConfig, dry_run: bool) -> (r: Self)
        ensures
            r.config == config,
            r.dry_run == dry_run,
    {
        FixLoop { config, dry_run }
    }

    /// Whether the rebuild output reports success.
    pub fn is_clean(stderr: &str) -> (r: bool)
        ensures
            r == contains_lit(stderr@, clean_marker()),
    {
        let v = to_chars(stderr);
        let marker = to_chars("rebuilt successfully");
        contains_exec(&v, &marker)
    }

    /// The last 30 lines of the rebuild output, which is what an operator
    /// actually wants to see.
    pub fn error_tail(stderr: &str) -> (r: String)
        ensures
            r@ == error_tail_of(stderr@),
    {
        let v = to_chars(stderr);
        let ghost s = stderr@;
        let n = v.len();
        // Collect the character ranges of the lines.
        let mut ranges: Vec<(usize, usize)> = Vec::new();
        let mut i: usize = 0;
        while i < n
            invariant
                v@ == s,
                n == s.len(),
                i <= n,
                forall|j: int|
                    0 <= j < ranges@.len() ==> #[trigger] ranges@[j].0 <= ranges@[j].1 <= n,
                ranges@.map_values(|r: (usize, usize)| s.subrange(r.0 as int, r.1 as int))
                    + lines_from(s, i as int) == lines_from(s, 0),
            decreases n - i,
        {
            let mut k = i;
            while k < n && v[k] != '\n'
                invariant
                    i <= k <= n,
                    n == v@.len(),
                    next_newline(v@, k as int) == next_newline(v@, i as int),
                decreases n - k,
            {
                k = k + 1;
            }
            let ghost before = ranges@;
            let ghost before_lines = before.map_values(
                |r: (usize, usize)| s.subrange(r.0 as int, r.1 as int),
            );
            let (lo, hi, next_i) = if k == n {
                (i, n, n)
            } else {
                let end = if k > i && v[k - 1] == '\r' {
                    k - 1
                } else {
                    k
                };
                (i, end, k + 1)
            };
            proof {
                lemma_next_newline(s, i as int);
                if k == n {
                    assert(lines_from(s, n as int) == Seq::<Seq<char>>::empty());
                } else if k > i && s[k - 1] == '\r' {
                    assert(s.subrange(i as int, k as int).drop_last() =~= s.subrange(
                        i as int,
                        k - 1,
                    ));
                }
                assert(lines_from(s, i as int) == seq![s.subrange(lo as int, hi as int)]
                    + lines_from(s, next_i as int));
            }
            ranges.push((lo, hi));
            proof {
                assert(ranges@ == before.push((lo, hi)));
                assert forall|j: int| 0 <= j < ranges@.len() implies #[trigger] ranges@[j].0
                    <= ranges@[j].1 <= n by {
                    if j < before.len() {
                        assert(ranges@[j] == before[j]);
                    }
                }
                assert(ranges@.map_values(|r: (usize, usize)| s.subrange(r.0 as int, r.1 as int))
                    =~= before_lines.push(s.subrange(lo as int, hi as int)));
                assert(before_lines.push(s.subrange(lo as int, hi as int)) + lines_from(
                    s,
                    next_i as int,
                ) =~= before_lines + lines_from(s, i as int));
            }
            i = next_i;
        }
        let ghost lines = lines_from(s, 0);
        assert(lines_from(s, i as int) == Seq::<Seq<char>>::empty());
        assert(ranges@.map_values(|r: (usize, usize)| s.subrange(r.0 as int, r.1 as int)) =~= lines);
        let count = ranges.len();
        let start = if count > 30 {
            count - 30
        } else {
            0
        };
        let mut out = String::new();
        let mut j = start;
        proof {
            reveal_strlit("\n");
        }
        while j < count
            invariant
                start <= j <= count,
                count == ranges@.len(),
                count == lines.len(),
                s == stderr@,
                "\n"@ == seq!['\n'],
                forall|x: int| 0 <= x < count ==> #[trigger] ranges@[x].0 <= ranges@[x].1 <= s.len(),
                forall|x: int|
                    0 <= x < count ==> #[trigger] lines[x] == s.subrange(
                        ranges@[x].0 as int,
                        ranges@[x].1 as int,
                    ),
                out@ == join_lines(lines.subrange(start as int, j as int)),
            decreases count - j,
        {
            let (lo, hi) = ranges[j];
            if j > start {
                out.append("\n");
            }
            out.append(stderr.substring_char(lo, hi));
            assert(lines.subrange(start as int, j + 1).drop_last() =~= lines.subrange(
                start as int,
                j as int,
            ));
            j = j + 1;
        }
        out
    }
}

/// Where an iteration of the fix-loop stands.
pub enum IterState {
    /// Nothing has run yet.
    Start,
    /// The rebuild is running.
    Rebuilding,
    /// The fleet's Cargo.nix files are being searched for `mismatch`.
    Scanning { mismatch: HashMismatch },
    /// `entries[next]` is being rewritten to `mismatch.got_sha`; `fixed`
    /// names the repos rewritten before it.
    Rewriting {
        mismatch: HashMismatch,
        entries: Vec<CargoNixEntry>,
        next: usize,
        fixed: Vec<String>,
    },
    /// The rewrite of `entries[next]` is being committed and pushed;
    /// `fixed` names the repos rewritten so far, that one included.
    Pushing {
        mismatch: HashMismatch,
        entries: Vec<CargoNixEntry>,
        next: usize,
        fixed: Vec<String>,
    },
    /// The flake input `repos[next]` is being updated; `repos` names the
    /// repos of `entries`, all rewritten and pushed.
    UpdatingFlake {
        mismatch: HashMismatch,
        entries: Vec<CargoNixEntry>,
        repos: Vec<String>,
        next: usize,
    },
    /// The iteration has finished.
    Done,
}

/// What the last action produced.
pub enum IterEvent {
    /// The iteration is to begin.
    Begin,
    /// The rebuild's stdout followed by its stderr, or why it could not run.
    Rebuilt(Result<String, FixError>),
    /// The entries found for the mismatch.
    Scanned(Result<Vec<CargoNixEntry>, FixError>),
    /// The rewrite of a Cargo.nix file.
    Rewritten(Result<(), FixError>),
    /// The commit and push of a rewritten Cargo.nix.
    Pushed(Result<(), FixError>),
    /// The update of one flake input.
    FlakeUpdated(Result<(), FixError>),
}

/// What the caller is to do next.
pub enum IterAction {
    /// Run `program` with `args` in `cwd` and report its combined output.
    RunRebuild { program: String, args: Vec<String>, cwd: String },
    /// Search `<fleet_root>/*/Cargo.nix` for `(drv_name, rev_short)`.
    FindEntries { fleet_root: String, drv_name: String, rev_short: String },
    /// Rewrite the sha lines under `entry.rev_full` in `entry.cargo_nix_path` to `new_sha`.
    ReplaceSha { entry: CargoNixEntry, new_sha: String },
    /// Commit `Cargo.nix` in `repo_root` with `message` and push it.
    CommitAndPush { repo_root: String, message: String },
    /// Run `nix flake update <input>` in `flake_root` if the flake declares the input.
    FlakeUpdate { flake_root: String, input: String },
    /// The iteration is over, with this outcome.
    Finish(Result<FixIterOutcome, FixError>),
}

/// The views of a sequence of strings.
pub open spec fn string_views(v: Seq<String>) -> Seq<Seq<char>> {
    v.map_values(|s: String| s@)
}

/// The views of a sequence of entries.
pub open spec fn entry_views(v: Seq<CargoNixEntry>) -> Seq<EntryView> {
    v.map_values(|e: CargoNixEntry| e@)
}

/// The repo names of a sequence of entries.
pub open spec fn repo_names(v: Seq<EntryView>) -> Seq<Seq<char>> {
    v.map_values(|e: EntryView| e.repo_name)
}

/// The entries whose current sha differs from `got`, in order.
pub open spec fn stale_of(es: Seq<EntryView>, got: Seq<char>) -> Seq<EntryView>
    decreases es.len(),
{
    if es.len() == 0 {
        Seq::empty()
    } else {
        let rest = stale_of(es.drop_last(), got);
        if es.last().current_sha != got {
            rest.push(es.last())
        } else {
            rest
        }
    }
}

/// Every entry's current sha differs from `got`.
pub open spec fn all_stale(es: Seq<EntryView>, got: Seq<char>) -> bool {
    forall|i: int| 0 <= i < es.len() ==> #[trigger] es[i].current_sha != got
}

/// What `stale_of` keeps is stale.
pub proof fn lemma_stale_of_is_stale(es: Seq<EntryView>, got: Seq<char>)
    ensures
        all_stale(stale_of(es, got), got),
        stale_of(es, got).len() <= es.len(),
    decreases es.len(),
{
    if es.len() > 0 {
        lemma_stale_of_is_stale(es.drop_last(), got);
        let rest = stale_of(es.drop_last(), got);
        if es.last().current_sha != got {
            assert forall|i: int| 0 <= i < rest.push(es.last()).len() implies #[trigger] rest.push(
                es.last(),
            )[i].current_sha != got by {
                if i < rest.len() {
                    assert(rest.push(es.last())[i] == rest[i]);
                }
            }
        }
    }
}

/// The test for an entry whose recorded sha differs from `got`.
pub open spec fn sha_differs(got: Seq<char>) -> spec_fn(EntryView) -> bool {
    |e: EntryView| e.current_sha != got
}

/// The stale entries are exactly the entries, in their order, whose
/// recorded sha differs from the one nix computed, whatever their lengths or
/// encodings (a recorded base32 sha and a computed SRI sha always differ).
pub proof fn lemma_stale_is_filter(es: Seq<EntryView>, got: Seq<char>)
    ensures
        stale_of(es, got) == es.filter(sha_differs(got)),
    decreases es.len(),
{
    reveal(Seq::filter);
    if es.len() > 0 {
        lemma_stale_is_filter(es.drop_last(), got);
    } else {
        assert(es =~= Seq::<EntryView>::empty());
    }
}

/// Every entry whose recorded sha differs from nix's is rewritten: it is
/// among the stale entries; and every stale entry is one of the entries,
/// with a sha that differs.
pub proof fn lemma_stale_membership(es: Seq<EntryView>, got: Seq<char>)
    ensures
        forall|i: int|
            0 <= i < es.len() && es[i].current_sha != got ==> #[trigger] stale_of(
                es,
                got,
            ).contains(es[i]),
        forall|e: EntryView|
            #[trigger] stale_of(es, got).contains(e) ==> es.contains(e) && e.current_sha != got,
{
    lemma_stale_is_filter(es, got);
    let f = sha_differs(got);
    assert forall|i: int| 0 <= i < es.len() && es[i].current_sha != got implies #[trigger] stale_of(
        es,
        got,
    ).contains(es[i]) by {
        es.lemma_filter_contains(f, i);
    }
    assert forall|e: EntryView| #[trigger] stale_of(es, got).contains(e) implies es.contains(e)
        && e.current_sha != got by {
        es.lemma_filter_contains_rev(f, e);
    }
}

/// The commit message for a fix of `drv_name` at `rev_short`.
pub open spec fn commit_message(drv_name: Seq<char>, rev_short: Seq<char>) -> Seq<char> {
    "fix(Cargo.nix): SRI hash for "@ + drv_name + "@"@ + rev_short + " (crate2nix drift)"@
}

impl IterState {
    /// The invariant of the states that carry entries.
    pub open spec fn wf(self) -> bool {
        match self {
            IterState::Rewriting { mismatch, entries, next, fixed } => {
                &&& next < entries@.len()
                &&& string_views(fixed@) == repo_names(entry_views(entries@)).take(next as int)
                &&& all_stale(entry_views(entries@), mismatch.got_sha@)
            },
            IterState::Pushing { mismatch, entries, next, fixed } => {
                &&& next < entries@.len()
                &&& string_views(fixed@) == repo_names(entry_views(entries@)).take(next + 1)
                &&& all_stale(entry_views(entries@), mismatch.got_sha@)
            },
            IterState::UpdatingFlake { entries, repos, next, .. } => {
                &&& next < repos@.len()
                &&& string_views(repos@) == repo_names(entry_views(entries@))
            },
            _ => true,
        }
    }

    /// `event` is what the action that led to this state produces.
    pub open spec fn accepts(self, event: IterEvent) -> bool {
        match self {
            IterState::Start => event is Begin,
            IterState::Rebuilding => event is Rebuilt,
            IterState::Scanning { .. } => event is Scanned,
            IterState::Rewriting { .. } => event is Rewritten,
            IterState::Pushing { .. } => event is Pushed,
            IterState::UpdatingFlake { .. } => event is FlakeUpdated,
            IterState::Done => false,
        }
    }

    /// Executable `accepts`.
    pub fn accepts_event(&self, event: &IterEvent) -> (r: bool)
        ensures
            r == self.accepts(*event),
    {
        match self {
            IterState::Start => matches!(event, IterEvent::Begin),
            IterState::Rebuilding => matches!(event, IterEvent::Rebuilt(_)),
            IterState::Scanning { .. } => matches!(event, IterEvent::Scanned(_)),
            IterState::Rewriting { .. } => matches!(event, IterEvent::Rewritten(_)),
            IterState::Pushing { .. } => matches!(event, IterEvent::Pushed(_)),
            IterState::UpdatingFlake { .. } => matches!(event, IterEvent::FlakeUpdated(_)),
            IterState::Done => false,
        }
    }
}

impl FixLoop {
    /// Whether the loop commits, pushes and bumps flake inputs.
    pub open spec fn pushes(&self) -> bool {
        !self.dry_run && self.config.auto_push
    }

    /// Only a loop that pushes reaches the push and flake-update states.
    pub open spec fn drives(&self, state: IterState) -> bool {
        (state is Pushing || state is UpdatingFlake) ==> self.pushes()
    }

    /// After the rewrite (and push) of `entries[k]`, with `fixed` naming the
    /// repos done so far: go on with the next entry, then the flake inputs,
    /// then finish.
    pub open spec fn advance_ok(
        &self,
        mismatch: HashMismatch,
        entries: Vec<CargoNixEntry>,
        k: int,
        fixed: Seq<Seq<char>>,
        after: IterState,
        action: IterAction,
    ) -> bool {
        if k + 1 < entries@.len() {
            &&& after matches IterState::Rewriting { mismatch: m2, entries: e2, next: k2, fixed: f2 }
                && m2 == mismatch && e2 == entries && k2 == k + 1 && string_views(f2@) == fixed
            &&& action matches IterAction::ReplaceSha { entry, new_sha } && entry@ == entries@[k
                + 1]@ && new_sha == mismatch.got_sha
        } else if self.pushes() {
            &&& after matches IterState::UpdatingFlake { mismatch: m2, entries: e2, repos, next: k2 }
                && m2 == mismatch && e2 == entries && k2 == 0 && string_views(repos@) == fixed
            &&& action matches IterAction::FlakeUpdate { flake_root, input } && flake_root
                == self.config.flake_root && input@ == fixed[0]
        } else {
            &&& after is Done
            &&& action matches IterAction::Finish(Ok(FixIterOutcome::Fixed { drv_name, repos }))
                && drv_name == mismatch.drv_name && string_views(repos@) == fixed
        }
    }

    /// One step of an iteration: from `state`, on `event`, to `after`, doing `action`.
    pub open spec fn step_ok(
        &self,
        state: IterState,
        event: IterEvent,
        after: IterState,
        action: IterAction,
    ) -> bool {
        match state {
            IterState::Start => {
                if self.config.rebuild_cmd@.len() == 0 {
                    &&& after is Done
                    &&& action matches IterAction::Finish(Err(FixError::Nix(msg))) && msg@
                        == "rebuild_cmd is empty"@
                } else {
                    &&& after is Rebuilding
                    &&& action matches IterAction::RunRebuild { program, args, cwd } && program
                        == self.config.rebuild_cmd@[0] && args@ == self.config.rebuild_cmd@.skip(1)
                        && cwd == self.config.flake_root
                }
            },
            IterState::Rebuilding => match event {
                IterEvent::Rebuilt(Err(e)) => after is Done && action == IterAction::Finish(Err(e)),
                IterEvent::Rebuilt(Ok(out)) => {
                    if contains_lit(out@, clean_marker()) {
                        after is Done && action == IterAction::Finish(
                            Ok(FixIterOutcome::RebuildClean),
                        )
                    } else if (forall|m: MismatchView| !parses_to(out@, m)) && contains_lit(
                        out@,
                        mismatch_marker(),
                    ) {
                        &&& after is Done
                        &&& action matches IterAction::Finish(Err(FixError::Parse(msg))) && msg@
                            == unparsed_mismatch_message(error_tail_of(out@))
                    } else if forall|m: MismatchView| !parses_to(out@, m) {
                        &&& after is Done
                        &&& action matches IterAction::Finish(
                            Ok(FixIterOutcome::NonHashError { details }),
                        ) && details@ == error_tail_of(out@)
                    } else {
                        after matches IterState::Scanning { mismatch } && {
                            &&& parses_to(out@, mismatch@)
                            &&& action matches IterAction::FindEntries {
                                fleet_root,
                                drv_name,
                                rev_short,
                            }
                            &&& fleet_root == self.config.fleet_root
                            &&& drv_name == mismatch.drv_name
                            &&& rev_short == mismatch.rev_short
                        }
                    }
                },
                _ => false,
            },
            IterState::Scanning { mismatch } => match event {
                IterEvent::Scanned(Err(e)) => after is Done && action == IterAction::Finish(Err(e)),
                IterEvent::Scanned(Ok(es)) => {
                    let stale = stale_of(entry_views(es@), mismatch.got_sha@);
                    if stale.len() == 0 {
                        &&& after is Done
                        &&& action matches IterAction::Finish(
                            Ok(FixIterOutcome::NoMatch { drv_name, rev_short }),
                        ) && drv_name == mismatch.drv_name && rev_short == mismatch.rev_short
                    } else {
                        &&& after matches IterState::Rewriting {
                            mismatch: m2,
                            entries,
                            next: k,
                            fixed,
                        } && m2 == mismatch && entry_views(entries@) == stale && k == 0
                            && fixed@.len() == 0
                        &&& action matches IterAction::ReplaceSha { entry, new_sha } && entry@
                            == stale[0] && new_sha == mismatch.got_sha
                    }
                },
                _ => false,
            },
            IterState::Rewriting { mismatch, entries, next, fixed } => match event {
                IterEvent::Rewritten(Err(e)) => after is Done && action == IterAction::Finish(
                    Err(e),
                ),
                IterEvent::Rewritten(Ok(())) => {
                    let done = string_views(fixed@).push(entries@[next as int].repo_name@);
                    if self.pushes() {
                        &&& after matches IterState::Pushing {
                            mismatch: m2,
                            entries: e2,
                            next: k2,
                            fixed: f2,
                        } && m2 == mismatch && e2 == entries && k2 == next && string_views(f2@)
                            == done
                        &&& action matches IterAction::CommitAndPush { repo_root, message }
                            && repo_root == entries@[next as int].repo_root && message@
                            == commit_message(mismatch.drv_name@, mismatch.rev_short@)
                    } else {
                        self.advance_ok(mismatch, entries, next as int, done, after, action)
                    }
                },
                _ => false,
            },
            IterState::Pushing { mismatch, entries, next, fixed } => match event {
                IterEvent::Pushed(Err(e)) => after is Done && action == IterAction::Finish(Err(e)),
                IterEvent::Pushed(Ok(())) => self.advance_ok(
                    mismatch,
                    entries,
                    next as int,
                    string_views(fixed@),
                    after,
                    action,
                ),
                _ => false,
            },
            IterState::UpdatingFlake { mismatch, entries, repos, next } => match event {
                IterEvent::FlakeUpdated(Err(e)) => after is Done && action == IterAction::Finish(
                    Err(e),
                ),
                IterEvent::FlakeUpdated(Ok(())) => {
                    if next + 1 < repos@.len() {
                        &&& after matches IterState::UpdatingFlake {
                            mismatch: m2,
                            entries: e2,
                            repos: r2,
                            next: k2,
                        } && m2 == mismatch && e2 == entries && r2 == repos && k2 == next + 1
                        &&& action matches IterAction::FlakeUpdate { flake_root, input }
                            && flake_root == self.config.flake_root && input == repos@[next + 1]
                    } else {
                        &&& after is Done
                        &&& action matches IterAction::Finish(
                            Ok(FixIterOutcome::Fixed { drv_name, repos: r2 }),
                        ) && drv_name == mismatch.drv_name && r2 == repos
                    }
                },
                _ => false,
            },
            IterState::Done => false,
        }
    }
}

/// The entries of `es` whose current sha differs from `got`, copied.
fn stale_entries(es: &Vec<CargoNixEntry>, got: &String) -> (r: Vec<CargoNixEntry>)
    ensures
        entry_views(r@) == stale_of(entry_views(es@), got@),
{
    let mut out: Vec<CargoNixEntry> = Vec::new();
    let mut i: usize = 0;
    while i < es.len()
        invariant
            i <= es@.len(),
            entry_views(out@) == stale_of(entry_views(es@.take(i as int)), got@),
        decreases es@.len() - i,
    {
        let ghost before = out@;
        assert(entry_views(es@.take(i + 1)).drop_last() =~= entry_views(es@.take(i as int)));
        assert(entry_views(es@.take(i + 1)).last() == es@[i as int]@);
        if es[i].current_sha != *got {
            out.push(clone_entry(&es[i]));
            assert(entry_views(out@) =~= entry_views(before).push(es@[i as int]@));
        }
        i = i + 1;
    }
    assert(es@.take(es@.len() as int) =~= es@);
    out
}

/// A copy of `v`.
fn clone_strings(v: &Vec<String>, from: usize) -> (r: Vec<String>)
    requires
        from <= v@.len(),
    ensures
        r@ == v@.skip(from as int),
{
    let mut out: Vec<String> = Vec::new();
    let mut i = from;
    while i < v.len()
        invariant
            from <= i <= v@.len(),
            out@ == v@.subrange(from as int, i as int),
        decreases v@.len() - i,
    {
        out.push(v[i].clone());
        assert(out@ =~= v@.subrange(from as int, i + 1));
        i = i + 1;
    }
    assert(out@ =~= v@.skip(from as int));
    out
}

/// `string_views` of a pushed sequence.
proof fn lemma_string_views_push(v: Seq<String>, s: String)
    ensures
        string_views(v.push(s)) == string_views(v).push(s@),
{
    assert(string_views(v.push(s)) =~= string_views(v).push(s@));
}

impl FixLoop {
    /// The commit message for a fix of `m`.
    fn commit_message_for(m: &HashMismatch) -> (r: String)
        ensures
            r@ == commit_message(m.drv_name@, m.rev_short@),
    {
        String::from_str("fix(Cargo.nix): SRI hash for ").concat(m.drv_name.as_str()).concat(
            "@",
        ).concat(m.rev_short.as_str()).concat(" (crate2nix drift)")
    }

    /// The step after the rewrite (and push) of `entries[k]`, `fixed` naming
    /// the repos done so far.
    fn advance(
        &self,
        mismatch: HashMismatch,
        entries: Vec<CargoNixEntry>,
        k: usize,
        fixed: Vec<String>,
    ) -> (r: (IterState, IterAction))
        requires
            k < entries@.len(),
            string_views(fixed@) == repo_names(entry_views(entries@)).take(k + 1),
            all_stale(entry_views(entries@), mismatch.got_sha@),
        ensures
            r.1 matches IterAction::ReplaceSha { entry, new_sha } ==> entry.current_sha@ != new_sha@,
            self.advance_ok(mismatch, entries, k as int, string_views(fixed@), r.0, r.1),
            r.0.wf(),
            self.drives(r.0),
    {
        if k < entries.len() - 1 {
            assert(entry_views(entries@)[k + 1].current_sha != mismatch.got_sha@);
            let entry = clone_entry(&entries[k + 1]);
            let new_sha = mismatch.got_sha.clone();
            (
                IterState::Rewriting { mismatch, entries, next: k + 1, fixed },
                IterAction::ReplaceSha { entry, new_sha },
            )
        } else if !self.dry_run && self.config.auto_push {
            assert(repo_names(entry_views(entries@)).take(k + 1) =~= repo_names(
                entry_views(entries@),
            ));
            let input = fixed[0].clone();
            assert(string_views(fixed@)[0] == fixed@[0]@);
            (
                IterState::UpdatingFlake { mismatch, entries, repos: fixed, next: 0 },
                IterAction::FlakeUpdate { flake_root: self.config.flake_root.clone(), input },
            )
        } else {
            let drv_name = mismatch.drv_name;
            (IterState::Done, IterAction::Finish(Ok(FixIterOutcome::Fixed { drv_name, repos: fixed })))
        }
    }

    /// Advances one iteration of the fix-loop by one event: rebuild, parse
    /// the first hash mismatch, find the Cargo.nix entries with a stale sha,
    /// rewrite each (committing and pushing it unless in dry-run or
    /// stage-only mode), then update the flake input of every fixed repo.
    ///
    /// A rebuild whose output reports a hash mismatch that cannot be parsed
    /// ends the iteration with `FixError::Parse`; any other failed rebuild
    /// that reports no parsable mismatch ends it with `NonHashError`.
    ///
    /// Start from `IterState::Start` with `IterEvent::Begin`; perform each
    /// returned action and feed back what it produced, until the action is
    /// `IterAction::Finish`.
    pub fn run_one_iter(&self, state: IterState, event: IterEvent) -> (r: (IterState, IterAction))
        requires
            state.wf(),
            self.drives(state),
            state.accepts(event),
        ensures
            r.0.wf(),
            self.drives(r.0),
            r.1 is Finish <==> r.0 is Done,
            r.1 matches IterAction::ReplaceSha { entry, new_sha } ==> entry.current_sha@ != new_sha@,
            !self.pushes() ==> !(r.1 is CommitAndPush) && !(r.1 is FlakeUpdate),
            self.step_ok(state, event, r.0, r.1),
    {
        match state {
            IterState::Start => {
                if self.config.rebuild_cmd.len() == 0 {
                    return (
                        IterState::Done,
                        IterAction::Finish(Err(FixError::Nix(String::from_str("rebuild_cmd is empty")))),
                    );
                }
                let program = self.config.rebuild_cmd[0].clone();
                let args = clone_strings(&self.config.rebuild_cmd, 1);
                (
                    IterState::Rebuilding,
                    IterAction::RunRebuild { program, args, cwd: self.config.flake_root.clone() },
                )
            },
            IterState::Rebuilding => match event {
                IterEvent::Rebuilt(Err(e)) => (IterState::Done, IterAction::Finish(Err(e))),
                IterEvent::Rebuilt(Ok(out)) => {
                    if Self::is_clean(out.as_str()) {
                        return (IterState::Done, IterAction::Finish(Ok(FixIterOutcome::RebuildClean)));
                    }
                    match HashMismatch::parse(out.as_str()) {
                        None => {
                            let details = Self::error_tail(out.as_str());
                            let text = to_chars(out.as_str());
                            let marker = to_chars("hash mismatch");
                            if contains_exec(&text, &marker) {
                                let msg = String::from_str(
                                    "could not parse the hash mismatch in the rebuild output: ",
                                ).concat(details.as_str());
                                return (
                                    IterState::Done,
                                    IterAction::Finish(Err(FixError::Parse(msg))),
                                );
                            }
                            (
                                IterState::Done,
                                IterAction::Finish(Ok(FixIterOutcome::NonHashError { details })),
                            )
                        },
                        Some(mismatch) => {
                            let action = IterAction::FindEntries {
                                fleet_root: self.config.fleet_root.clone(),
                                drv_name: mismatch.drv_name.clone(),
                                rev_short: mismatch.rev_short.clone(),
                            };
                            (IterState::Scanning { mismatch }, action)
                        },
                    }
                },
                _ => {
                    proof {
                        assert(false);
                    }
                    (IterState::Done, IterAction::Finish(Ok(FixIterOutcome::RebuildClean)))
                },
            },
            IterState::Scanning { mismatch } => match event {
                IterEvent::Scanned(Err(e)) => (IterState::Done, IterAction::Finish(Err(e))),
                IterEvent::Scanned(Ok(es)) => {
                    let entries = stale_entries(&es, &mismatch.got_sha);
                    proof {
                        lemma_stale_of_is_stale(entry_views(es@), mismatch.got_sha@);
                    }
                    if entries.len() == 0 {
                        let drv_name = mismatch.drv_name;
                        let rev_short = mismatch.rev_short;
                        return (
                            IterState::Done,
                            IterAction::Finish(Ok(FixIterOutcome::NoMatch { drv_name, rev_short })),
                        );
                    }
                    assert(entry_views(entries@)[0].current_sha != mismatch.got_sha@);
                    let entry = clone_entry(&entries[0]);
                    let new_sha = mismatch.got_sha.clone();
                    let fixed: Vec<String> = Vec::new();
                    assert(string_views(fixed@) =~= repo_names(entry_views(entries@)).take(0));
                    (
                        IterState::Rewriting { mismatch, entries, next: 0, fixed },
                        IterAction::ReplaceSha { entry, new_sha },
                    )
                },
                _ => {
                    proof {
                        assert(false);
                    }
                    (IterState::Done, IterAction::Finish(Ok(FixIterOutcome::RebuildClean)))
                },
            },
            IterState::Rewriting { mismatch, entries, next, fixed } => match event {
                IterEvent::Rewritten(Err(e)) => (IterState::Done, IterAction::Finish(Err(e))),
                IterEvent::Rewritten(Ok(())) => {
                    let mut fixed = fixed;
                    let ghost old_fixed = fixed@;
                    fixed.push(entries[next].repo_name.clone());
                    proof {
                        lemma_string_views_push(old_fixed, entries@[next as int].repo_name);
                        assert(repo_names(entry_views(entries@)).take(next + 1) =~= repo_names(
                            entry_views(entries@),
                        ).take(next as int).push(entries@[next as int].repo_name@));
                    }
                    if !self.dry_run && self.config.auto_push {
                        let repo_root = entries[next].repo_root.clone();
                        let message = Self::commit_message_for(&mismatch);
                        (
                            IterState::Pushing { mismatch, entries, next, fixed },
                            IterAction::CommitAndPush { repo_root, message },
                        )
                    } else {
                        self.advance(mismatch, entries, next, fixed)
                    }
                },
                _ => {
                    proof {
                        assert(false);
                    }
                    (IterState::Done, IterAction::Finish(Ok(FixIterOutcome::RebuildClean)))
                },
            },
            IterState::Pushing { mismatch, entries, next, fixed } => match event {
                IterEvent::Pushed(Err(e)) => (IterState::Done, IterAction::Finish(Err(e))),
                IterEvent::Pushed(Ok(())) => self.advance(mismatch, entries, next, fixed),
                _ => {
                    proof {
                        assert(false);
                    }
                    (IterState::Done, IterAction::Finish(Ok(FixIterOutcome::RebuildClean)))
                },
            },
            IterState::UpdatingFlake { mismatch, entries, repos, next } => match event {
                IterEvent::FlakeUpdated(Err(e)) => (IterState::Done, IterAction::Finish(Err(e))),
                IterEvent::FlakeUpdated(Ok(())) => {
                    if next < repos.len() - 1 {
                        let input = repos[next + 1].clone();
                        (
                            IterState::UpdatingFlake { mismatch, entries, repos, next: next + 1 },
                            IterAction::FlakeUpdate { flake_root: self.config.flake_root.clone(), input },
                        )
                    } else {
                        let drv_name = mismatch.drv_name;
                        (
                            IterState::Done,
                            IterAction::Finish(Ok(FixIterOutcome::Fixed { drv_name, repos })),
                        )
                    }
                },
                _ => {
                    proof {
                        assert(false);
                    }
                    (IterState::Done, IterAction::Finish(Ok(FixIterOutcome::RebuildClean)))
                },
            },
            IterState::Done => {
                proof {
                    assert(false);
                }
                (IterState::Done, IterAction::Finish(Ok(FixIterOutcome::RebuildClean)))
            },
        }
    }
}

/// The entries a scan event reports.
pub open spec fn scanned(event: IterEvent) -> Option<Seq<EntryView>> {
    match event {
        IterEvent::Scanned(Ok(es)) => Some(entry_views(es@)),
        _ => None,
    }
}

/// The entries a state carries, with the mismatch they are for.
pub open spec fn carried(state: IterState) -> Option<(HashMismatch, Vec<CargoNixEntry>)> {
    match state {
        IterState::Rewriting { mismatch, entries, .. } => Some((mismatch, entries)),
        IterState::Pushing { mismatch, entries, .. } => Some((mismatch, entries)),
        IterState::UpdatingFlake { mismatch, entries, .. } => Some((mismatch, entries)),
        _ => None,
    }
}

impl FixLoop {
    /// `states`, `events` and `actions` record a run of one iteration from
    /// its start: each step goes from `states[i]`, on `events[i]`, to
    /// `states[i + 1]`, doing `actions[i]`, as `run_one_iter` does.
    pub open spec fn is_run(
        &self,
        states: Seq<IterState>,
        events: Seq<IterEvent>,
        actions: Seq<IterAction>,
    ) -> bool {
        &&& states.len() == events.len() + 1
        &&& actions.len() == events.len()
        &&& states[0] is Start
        &&& forall|i: int| 0 <= i < states.len() ==> (#[trigger] states[i]).wf()
        &&& forall|i: int|
            0 <= i < events.len() ==> #[trigger] self.step_ok(
                states[i],
                events[i],
                states[i + 1],
                actions[i],
            )
    }

    /// Along a run, the entries a state carries are the stale ones among
    /// those an earlier scan found.
    proof fn lemma_run_carries_stale(
        &self,
        states: Seq<IterState>,
        events: Seq<IterEvent>,
        actions: Seq<IterAction>,
        i: int,
    )
        requires
            self.is_run(states, events, actions),
            0 <= i < states.len(),
        ensures
            carried(states[i]) matches Some((m, entries)) ==> exists|j: int|
                0 <= j < i && #[trigger] scanned(events[j]) is Some && entry_views(entries@)
                    == stale_of(scanned(events[j])->0, m.got_sha@),
        decreases i,
    {
        if i > 0 {
            self.lemma_run_carries_stale(states, events, actions, i - 1);
            let k = i - 1;
            assert(self.step_ok(states[k], events[k], states[k + 1], actions[k]));
            assert(states[k + 1] == states[i]);
            if carried(states[i]) is Some {
                let (m, entries) = carried(states[i])->0;
                if carried(states[i - 1]) is Some {
                    let (m0, e0) = carried(states[i - 1])->0;
                    let j = choose|j: int|
                        0 <= j < i - 1 && #[trigger] scanned(events[j]) is Some && entry_views(e0@)
                            == stale_of(scanned(events[j])->0, m0.got_sha@);
                    assert(m == m0 && entries == e0);
                    assert(0 <= j < i && scanned(events[j]) is Some);
                } else {
                    assert(scanned(events[i - 1]) is Some && entry_views(entries@) == stale_of(
                        scanned(events[i - 1])->0,
                        m.got_sha@,
                    ));
                }
            }
        }
    }

    /// An iteration that ends `Fixed` names exactly the repos of the
    /// entries, among those its scan found, whose sha differed from the one
    /// nix computed, in the order of the scan.
    pub proof fn lemma_fixed_names_stale_repos(
        &self,
        states: Seq<IterState>,
        events: Seq<IterEvent>,
        actions: Seq<IterAction>,
    )
        requires
            self.is_run(states, events, actions),
            actions.len() > 0,
            actions.last() matches IterAction::Finish(Ok(FixIterOutcome::Fixed { .. })),
        ensures
            actions.last() matches IterAction::Finish(Ok(FixIterOutcome::Fixed { drv_name, repos }))
                && exists|j: int, m: HashMismatch|
                0 <= j < events.len() && scanned(events[j]) is Some && drv_name == m.drv_name
                    && string_views(repos@) == repo_names(
                    #[trigger] stale_of(scanned(events[j])->0, m.got_sha@),
                ),
    {
        let n = events.len() - 1;
        assert(self.step_ok(states[n], events[n], states[n + 1], actions[n]));
        assert(states[n].wf());
        self.lemma_run_carries_stale(states, events, actions, n);
        let (m, entries) = carried(states[n])->0;
        let names = repo_names(entry_views(entries@));
        match states[n] {
            IterState::Rewriting { next, fixed, .. } => {
                assert(names.take(next + 1) =~= names);
            },
            IterState::Pushing { next, fixed, .. } => {
                assert(names.take(next + 1) =~= names);
            },
            _ => {},
        }
        let j = choose|j: int|
            0 <= j < n && #[trigger] scanned(events[j]) is Some && entry_views(entries@)
                == stale_of(scanned(events[j])->0, m.got_sha@);
        assert(0 <= j < events.len() && scanned(events[j]) is Some);
    }
}

/// What the driver of the whole loop is to do next.
pub enum LoopControl {
    /// Run iteration number `n` (counting from 1).
    RunIteration(u32),
    /// Stop: converged after this many iterations, or failed.
    Stop(Result<usize, FixError>),
}

/// The message for a mismatch no Cargo.nix carries.
pub open spec fn no_match_message(drv_name: Seq<char>, rev_short: Seq<char>) -> Seq<char> {
    "no Cargo.nix matched "@ + drv_name + "@"@ + rev_short + " — manual fix required"@
}

/// The message for a rebuild that failed for another reason.
pub open spec fn non_hash_message(details: Seq<char>) -> Seq<char> {
    "non-hash error: "@ + details
}

impl FixLoop {
    /// Decides the sequence of iterations: run iterations until the rebuild
    /// is clean or `config.max_iters` iterations have run.
    ///
    /// Call with `None` to start; after iteration `i` has finished with
    /// `outcome`, call with `Some((i, outcome))`. A clean rebuild stops with
    /// the number of iterations run; a fixed mismatch goes on to the next
    /// iteration unless the cap is reached (`FixError::MaxIters`); a
    /// mismatch with no matching Cargo.nix stops with `FixError::Parse`; any
    /// other rebuild failure stops with `FixError::Nix`; an iteration's error
    /// stops the loop as it is.
    pub fn run_until_clean(&self, finished: Option<(u32, Result<FixIterOutcome, FixError>)>) -> (r:
        LoopControl)
        requires
            finished matches Some((i, _)) ==> 1 <= i <= self.config.max_iters,
        ensures
            r matches LoopControl::RunIteration(n) ==> 1 <= n <= self.config.max_iters,
            r matches LoopControl::Stop(Ok(n)) ==> 1 <= n <= self.config.max_iters,
            match finished {
                None => if self.config.max_iters == 0 {
                    r == LoopControl::Stop(Err(FixError::MaxIters(0)))
                } else {
                    r == LoopControl::RunIteration(1)
                },
                Some((i, Err(e))) => r == LoopControl::Stop(Err(e)),
                Some((i, Ok(FixIterOutcome::RebuildClean))) => r == LoopControl::Stop(Ok(i as usize)),
                Some((i, Ok(FixIterOutcome::Fixed { .. }))) => if i < self.config.max_iters {
                    r == LoopControl::RunIteration((i + 1) as u32)
                } else {
                    r == LoopControl::Stop(Err(FixError::MaxIters(self.config.max_iters)))
                },
                Some((i, Ok(FixIterOutcome::NoMatch { drv_name, rev_short }))) => r matches LoopControl::Stop(
                    Err(FixError::Parse(msg)),
                ) && msg@ == no_match_message(drv_name@, rev_short@),
                Some((i, Ok(FixIterOutcome::NonHashError { details }))) => r matches LoopControl::Stop(
                    Err(FixError::Nix(msg)),
                ) && msg@ == non_hash_message(details@),
            },
    {
        let cap = self.config.max_iters;
        match finished {
            None => {
                if cap == 0 {
                    LoopControl::Stop(Err(FixError::MaxIters(0)))
                } else {
                    LoopControl::RunIteration(1)
                }
            },
            Some((i, Err(e))) => LoopControl::Stop(Err(e)),
            Some((i, Ok(FixIterOutcome::RebuildClean))) => LoopControl::Stop(Ok(i as usize)),
            Some((i, Ok(FixIterOutcome::Fixed { .. }))) => {
                if i < cap {
                    LoopControl::RunIteration(i + 1)
                } else {
                    LoopControl::Stop(Err(FixError::MaxIters(cap)))
                }
            },
            Some((i, Ok(FixIterOutcome::NoMatch { drv_name, rev_short }))) => {
                let msg = String::from_str("no Cargo.nix matched ").concat(drv_name.as_str()).concat(
                    "@",
                ).concat(rev_short.as_str()).concat(" — manual fix required");
                LoopControl::Stop(Err(FixError::Parse(msg)))
            },
            Some((i, Ok(FixIterOutcome::NonHashError { details }))) => {
                let msg = String::from_str("non-hash error: ").concat(details.as_str());
                LoopControl::Stop(Err(FixError::Nix(msg)))
            },
        }
    }
}

} // verus!
