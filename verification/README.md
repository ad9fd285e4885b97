# hashfix

Automated `crate2nix` vs `nix fetchgit` hash-drift fix-loop, with its
decisions verified in Verus.

When `nix run .#rebuild` fails with `hash mismatch in fixed-output
derivation`, hashfix parses the mismatch, finds every fleet `Cargo.nix`
whose `pkgs.fetchgit` block for that repo and rev carries a stale
`sha256`, rewrites it, commits and pushes the fix (one rebase retry on a
rejected push), bumps the flake input, and loops until the rebuild is clean.

Layout:

* `src/` — the verified library.
  * `parser.rs` — the nix error grammar and `HashMismatch::parse`.
  * `context.rs` — what output before and after a report does to its parse.
  * `cargo_nix.rs` — the `pkgs.fetchgit` block grammar, `find_entries_for`
    and `replace_sha` on file contents.
  * `roundtrip.rs` — what the block search reads back after a rewrite, and
    that a second rewrite to the same value changes nothing.
  * `fixloop.rs` — one iteration of the loop and the sequence of iterations,
    as functions from state and event to next state and action.
  * `git.rs`, `flake.rs`, `config.rs`, `error.rs`, `text.rs`.
* `app/` — the command line: runs the rebuild, git and nix, reads and writes
  files, and performs the actions the library returns.
* `tests/` — tests of the library.
