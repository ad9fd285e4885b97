//! Typed error surface for the hashfix crate.
//!
//! `FixError` enumerates every failure class the fix-loop can surface
//! to the operator.

use vstd::prelude::*;

verus! {

/// `std::io::Error`, carried through unchanged from the I/O layer.
#[verifier::external_type_specification]
#[verifier::external_body]
pub struct ExIoError(std::io::Error);

/// All failure modes for the hashfix fix-loop.
#[derive(Debug)]
pub enum FixError {
    /// A git subprocess (add/commit/push/pull --rebase) failed.
    Git(String),
    /// A nix subprocess (rebuild driver / `nix flake update`) failed.
    Nix(String),
    /// Filesystem I/O (reading or writing Cargo.nix, walking the fleet
    /// root, etc.).
    Io(std::io::Error),
    /// The parser couldn't extract a `HashMismatch` from nix's stderr, or
    /// a Cargo.nix file didn't match the expected `pkgs.fetchgit { ... }`
    /// shape closely enough to mutate safely.
    Parse(String),
    /// The fix-loop exceeded the configured iteration cap without
    /// converging.
    MaxIters(u32),
}

/// `<str as Debug>::fmt`: the quoted, escaped form of a string.
pub uninterp spec fn debug_str(s: Seq<char>) -> Seq<char>;

/// Renders `s` as `format!("{s:?}")` does.
#[verifier::external_body]
pub(crate) fn debug_quoted(s: &str) -> (r: String)
    ensures
        r@ == debug_str(s@),
{
    format!("{s:?}")
}

} // verus!
