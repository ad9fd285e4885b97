//! hashfix: typed automation for crate2nix-vs-nix fetchgit hash drift.
//!
//! When `crate2nix generate` emits a `pkgs.fetchgit { ... sha256 = ...; }`
//! block whose recorded hash disagrees with what nix actually computes at
//! fetch-time, the operator hits a cascade of `hash mismatch in
//! fixed-output derivation` errors during `nix run .#rebuild`. The fix-loop
//! is mechanical:
//!
//! 1. Run rebuild.
//! 2. Parse the first `hash mismatch` from its output ([`parser`]).
//! 3. Find every Cargo.nix file under `fleet_root` whose
//!    `url = "https://github.com/pleme-io/<drv_name>"` block carries the
//!    `rev_short` prefix and a stale `sha256` ([`cargo_nix`]).
//! 4. Rewrite the `sha256 = "..."` line to nix's `got` value.
//! 5. Commit, push, rebase-on-reject ([`git`]), then bump the flake inputs in
//!    the calling flake ([`flake`]).
//! 6. Loop ([`fixloop`]).
//!
//! This crate holds the decisions of every step; running processes and
//! touching files is left to the caller, which performs the actions that
//! [`fixloop::FixLoop::run_one_iter`] returns.

pub mod text;
pub mod error;
pub mod parser;
pub mod context;
pub mod cargo_nix;
pub mod config;
pub mod fixloop;
pub mod git;
pub mod flake;
pub mod roundtrip;

pub use cargo_nix::{find_entries_for, replace_sha, CargoNixEntry};
pub use config::HashfixConfig;
pub use error::FixError;
pub use fixloop::{FixIterOutcome, FixLoop};
pub use parser::HashMismatch;
