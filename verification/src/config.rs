//! Typed config for hashfix: the tiers that the operator surface shows.
//!
//! ```text
//! hashfix config-show bare         # zero-opinion floor
//! hashfix config-show default      # prescribed defaults
//! hashfix config-show env          # resolved from HASHFIX_TIER
//! ```
//!
//! The prescribed fleet root hangs off the operator's home directory, which
//! the caller reads from the environment and hands in.

use vstd::prelude::*;

use crate::text::to_chars;

verus! {

broadcast use vstd::string::group_string_axioms;

/// All knobs the hashfix fix-loop reads.
#[derive(Debug, Clone, PartialEq, Eq)]
pub struct HashfixConfig {
    /// Directory containing one subdir per pleme-io repo (each holding
    /// its own Cargo.nix).
    pub fleet_root: String,
    /// Directory hosting the driving `flake.nix` whose inputs we bump.
    pub flake_root: String,
    /// argv for the rebuild command we invoke each iteration.
    pub rebuild_cmd: Vec<String>,
    /// Iteration cap: the loop gives up with `MaxIters` after this many
    /// iterations.
    pub max_iters: u32,
    /// `false` = stage-only (no commit/push). `true` = full loop.
    pub auto_push: bool,
}

/// `PathBuf::join` of `base` with a relative, separator-free `seg`: a `/`
/// is put between them unless `base` is empty or already ends in one.
pub open spec fn path_join(base: Seq<char>, seg: Seq<char>) -> Seq<char> {
    if base.len() == 0 {
        seg
    } else if base.last() == '/' {
        base + seg
    } else {
        base + seq!['/'] + seg
    }
}

/// The fleet root prescribed for an operator whose home directory is `home`.
pub open spec fn fleet_root_for(home: Option<Seq<char>>) -> Seq<char> {
    match home {
        Some(h) => path_join(path_join(path_join(h, "code"@), "github"@), "pleme-io"@),
        None => "/root/code/github/pleme-io"@,
    }
}

/// The prescribed rebuild command, `nix run .#rebuild`.
pub open spec fn is_default_rebuild_cmd(cmd: Seq<String>) -> bool {
    &&& cmd.len() == 3
    &&& cmd[0]@ == "nix"@
    &&& cmd[1]@ == "run"@
    &&& cmd[2]@ == ".#rebuild"@
}

/// `c` is the zero-opinion floor.
pub open spec fn is_bare(c: HashfixConfig) -> bool {
    &&& c.fleet_root@.len() == 0
    &&& c.flake_root@.len() == 0
    &&& c.rebuild_cmd@.len() == 0
    &&& c.max_iters == 0
    &&& !c.auto_push
}

/// `c` is the prescribed default for an operator whose home is `home`.
pub open spec fn is_prescribed_default(c: HashfixConfig, home: Option<Seq<char>>) -> bool {
    &&& c.fleet_root@ == fleet_root_for(home)
    &&& c.flake_root@ == "."@
    &&& is_default_rebuild_cmd(c.rebuild_cmd@)
    &&& c.max_iters == 30
    &&& c.auto_push
}

/// The view of an optional string.
pub open spec fn opt_view(s: Option<&str>) -> Option<Seq<char>> {
    match s {
        Some(h) => Some(h@),
        None => None,
    }
}

/// Executable `path_join`.
fn join_path(base: String, seg: &str) -> (r: String)
    ensures
        r@ == path_join(base@, seg@),
{
    let chars = to_chars(base.as_str());
    if chars.len() == 0 {
        String::from_str(seg)
    } else if chars[chars.len() - 1] == '/' {
        base.concat(seg)
    } else {
        proof {
            reveal_strlit("/");
        }
        base.concat("/").concat(seg)
    }
}

/// The canonical fleet root on an operator workstation:
/// `<home>/code/github/pleme-io`, or `/root/code/github/pleme-io` when no
/// home directory is known.
pub fn default_fleet_root(home: Option<&str>) -> (r: String)
    ensures
        r@ == fleet_root_for(opt_view(home)),
{
    match home {
        Some(h) => join_path(join_path(join_path(String::from_str(h), "code"), "github"), "pleme-io"),
        None => String::from_str("/root/code/github/pleme-io"),
    }
}

impl HashfixConfig {
    /// Tier 0: the documented floor, every field at zero-opinion.
    pub fn bare() -> (r: Self)
        ensures
            is_bare(r),
    {
        HashfixConfig {
            fleet_root: String::new(),
            flake_root: String::new(),
            rebuild_cmd: Vec::new(),
            max_iters: 0,
            auto_push: false,
        }
    }

    /// Tier 2: the prescribed first-launch experience, for an operator whose
    /// home directory is `home`.
    pub fn prescribed_default(home: Option<&str>) -> (r: Self)
        ensures
            is_prescribed_default(r, opt_view(home)),
    {
        let mut cmd: Vec<String> = Vec::new();
        cmd.push(String::from_str("nix"));
        cmd.push(String::from_str("run"));
        cmd.push(String::from_str(".#rebuild"));
        HashfixConfig {
            fleet_root: default_fleet_root(home),
            flake_root: String::from_str("."),
            rebuild_cmd: cmd,
            max_iters: 30,
            auto_push: true,
        }
    }
}

/// The prescribed defaults are populated: the fleet root (which ends in
/// `pleme-io`) and the flake root are never empty.
pub proof fn lemma_default_is_populated(c: HashfixConfig, home: Option<Seq<char>>)
    requires
        is_prescribed_default(c, home),
    ensures
        c.fleet_root@.len() > 0,
        c.flake_root@.len() > 0,
        c.rebuild_cmd@.len() > 0,
{
    reveal_strlit("pleme-io");
    reveal_strlit("/root/code/github/pleme-io");
    reveal_strlit(".");
}

/// The floor and the prescribed defaults differ, whatever the home directory.
pub proof fn lemma_bare_differs_from_default(
    bare: HashfixConfig,
    default: HashfixConfig,
    home: Option<Seq<char>>,
)
    requires
        is_bare(bare),
        is_prescribed_default(default, home),
    ensures
        bare != default,
{
}

} // verus!
