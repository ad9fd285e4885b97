use hashfix::cargo_nix::CargoNixEntry;
use hashfix::config::HashfixConfig;
use hashfix::error::FixError;
use hashfix::fixloop::{FixIterOutcome, FixLoop, IterAction, IterEvent, IterState, LoopControl};

const MISMATCH: &str = "\
error: hash mismatch in fixed-output derivation '/nix/store/abcdef0123456789abcdef0123456789-shikumi-a94bfe7.drv':
         specified: sha256-OLD=
            got:    sha256-NEW=
";

fn config(auto_push: bool) -> HashfixConfig {
    let mut c = HashfixConfig::prescribed_default(Some("/home/op"));
    c.auto_push = auto_push;
    c
}

fn entry(repo: &str, sha: &str) -> CargoNixEntry {
    CargoNixEntry {
        repo_root: format!("/fleet/{repo}"),
        repo_name: repo.to_string(),
        cargo_nix_path: format!("/fleet/{repo}/Cargo.nix"),
        rev_full: "a94bfe7000000000000000000000000000000000".to_string(),
        current_sha: sha.to_string(),
    }
}

#[test]
fn outcome_clean_when_stderr_says_so() {
    assert!(FixLoop::is_clean("rebuilt successfully\n"));
    assert!(!FixLoop::is_clean("error: hash mismatch ...\n"));
}

#[test]
fn error_tail_returns_last_lines() {
    let big = (0..100)
        .map(|i| format!("line {i}"))
        .collect::<Vec<_>>()
        .join("\n");
    let tail = FixLoop::error_tail(&big);
    assert!(tail.contains("line 99"));
    assert!(!tail.contains("line 0"));
}

#[test]
fn error_tail_keeps_exactly_thirty_lines() {
    let big = (0..100).map(|i| format!("line {i}\r\n")).collect::<String>();
    let tail = FixLoop::error_tail(&big);
    let expected = (70..100).map(|i| format!("line {i}")).collect::<Vec<_>>().join("\n");
    assert_eq!(tail, expected);
    assert_eq!(FixLoop::error_tail("a\nb\n"), "a\nb");
    assert_eq!(FixLoop::error_tail(""), "");
}

#[test]
fn new_defaults_dry_run_off() {
    let l = FixLoop::new(HashfixConfig::prescribed_default(None));
    assert!(!l.dry_run);
    let d = FixLoop::with_dry_run(HashfixConfig::prescribed_default(None), true);
    assert!(d.dry_run);
}

#[test]
fn iteration_starts_with_the_rebuild_command() {
    let lp = FixLoop::new(config(true));
    let (s, a) = lp.run_one_iter(IterState::Start, IterEvent::Begin);
    assert!(matches!(s, IterState::Rebuilding));
    match a {
        IterAction::RunRebuild { program, args, cwd } => {
            assert_eq!(program, "nix");
            assert_eq!(args, vec!["run", ".#rebuild"]);
            assert_eq!(cwd, ".");
        }
        _ => panic!("expected the rebuild"),
    }
}

#[test]
fn empty_rebuild_command_is_a_nix_error() {
    let mut c = config(true);
    c.rebuild_cmd.clear();
    let lp = FixLoop::new(c);
    let (s, a) = lp.run_one_iter(IterState::Start, IterEvent::Begin);
    assert!(matches!(s, IterState::Done));
    match a {
        IterAction::Finish(Err(FixError::Nix(m))) => assert_eq!(m, "rebuild_cmd is empty"),
        _ => panic!("expected a nix error"),
    }
}

#[test]
fn clean_and_unrelated_rebuilds_finish_the_iteration() {
    let lp = FixLoop::new(config(true));
    let (_, a) = lp.run_one_iter(
        IterState::Rebuilding,
        IterEvent::Rebuilt(Ok("rebuilt successfully".to_string())),
    );
    assert!(matches!(a, IterAction::Finish(Ok(FixIterOutcome::RebuildClean))));
    let (_, a) = lp.run_one_iter(
        IterState::Rebuilding,
        IterEvent::Rebuilt(Ok("error: attribute missing\nat line 3".to_string())),
    );
    match a {
        IterAction::Finish(Ok(FixIterOutcome::NonHashError { details })) => {
            assert_eq!(details, "error: attribute missing\nat line 3")
        }
        _ => panic!("expected a non-hash error"),
    }
}

#[test]
fn unparsable_hash_mismatch_is_a_parse_error() {
    let lp = FixLoop::new(config(true));
    let out = "error: hash mismatch in fixed-output derivation '/nix/store/abcdef0123456789abcdef0123456789-shikumi.drv':\n         specified: sha256-OLD=\n            got:    sha256-NEW=\n";
    let (s, a) = lp.run_one_iter(IterState::Rebuilding, IterEvent::Rebuilt(Ok(out.to_string())));
    assert!(matches!(s, IterState::Done));
    match a {
        IterAction::Finish(Err(FixError::Parse(msg))) => {
            assert!(msg.starts_with("could not parse the hash mismatch in the rebuild output: "));
            assert!(msg.contains("shikumi.drv"));
        }
        _ => panic!("expected a parse error"),
    }
}

/// Runs one iteration with scripted answers, returning the actions taken.
fn drive(lp: &FixLoop, scanned: Vec<CargoNixEntry>) -> Vec<String> {
    let mut log = Vec::new();
    let (mut state, mut action) = lp.run_one_iter(IterState::Start, IterEvent::Begin);
    let mut scanned = Some(scanned);
    loop {
        let event = match action {
            IterAction::RunRebuild { .. } => {
                log.push("rebuild".to_string());
                IterEvent::Rebuilt(Ok(MISMATCH.to_string()))
            }
            IterAction::FindEntries { drv_name, rev_short, .. } => {
                log.push(format!("find {drv_name}@{rev_short}"));
                IterEvent::Scanned(Ok(scanned.take().unwrap()))
            }
            IterAction::ReplaceSha { entry, new_sha } => {
                log.push(format!("replace {} {new_sha}", entry.repo_name));
                IterEvent::Rewritten(Ok(()))
            }
            IterAction::CommitAndPush { repo_root, message } => {
                log.push(format!("push {repo_root}: {message}"));
                IterEvent::Pushed(Ok(()))
            }
            IterAction::FlakeUpdate { input, .. } => {
                log.push(format!("flake {input}"));
                IterEvent::FlakeUpdated(Ok(()))
            }
            IterAction::Finish(r) => {
                match r {
                    Ok(FixIterOutcome::Fixed { drv_name, repos }) => {
                        log.push(format!("fixed {drv_name} {repos:?}"))
                    }
                    Ok(FixIterOutcome::NoMatch { drv_name, rev_short }) => {
                        log.push(format!("nomatch {drv_name}@{rev_short}"))
                    }
                    other => log.push(format!("{other:?}")),
                }
                return log;
            }
        };
        assert!(state.accepts_event(&event));
        let (s, a) = lp.run_one_iter(state, event);
        state = s;
        action = a;
    }
}

#[test]
fn iteration_fixes_stale_entries_and_bumps_the_flake() {
    let lp = FixLoop::new(config(true));
    let log = drive(
        &lp,
        vec![entry("kindling", "sha256-OLD="), entry("tatara", "sha256-NEW="), entry("tend", "x")],
    );
    assert_eq!(
        log,
        vec![
            "rebuild",
            "find shikumi@a94bfe7",
            "replace kindling sha256-NEW=",
            "push /fleet/kindling: fix(Cargo.nix): SRI hash for shikumi@a94bfe7 (crate2nix drift)",
            "replace tend sha256-NEW=",
            "push /fleet/tend: fix(Cargo.nix): SRI hash for shikumi@a94bfe7 (crate2nix drift)",
            "flake kindling",
            "flake tend",
            "fixed shikumi [\"kindling\", \"tend\"]",
        ]
    );
}

#[test]
fn dry_run_only_rewrites() {
    let lp = FixLoop::with_dry_run(config(true), true);
    let log = drive(&lp, vec![entry("kindling", "sha256-OLD=")]);
    assert_eq!(
        log,
        vec!["rebuild", "find shikumi@a94bfe7", "replace kindling sha256-NEW=", "fixed shikumi [\"kindling\"]"]
    );
    let stage_only = FixLoop::new(config(false));
    assert_eq!(drive(&stage_only, vec![entry("kindling", "sha256-OLD=")]), log);
}

#[test]
fn no_stale_entry_is_no_match() {
    let lp = FixLoop::new(config(true));
    let log = drive(&lp, vec![entry("kindling", "sha256-NEW=")]);
    assert_eq!(log, vec!["rebuild", "find shikumi@a94bfe7", "nomatch shikumi@a94bfe7"]);
}

#[test]
fn errors_end_the_iteration() {
    let lp = FixLoop::new(config(true));
    let (_, a) = lp.run_one_iter(
        IterState::Rebuilding,
        IterEvent::Rebuilt(Err(FixError::Nix("spawn failed".to_string()))),
    );
    assert!(matches!(a, IterAction::Finish(Err(FixError::Nix(_)))));
}

fn clean() -> Result<FixIterOutcome, FixError> {
    Ok(FixIterOutcome::RebuildClean)
}

fn fixed() -> Result<FixIterOutcome, FixError> {
    Ok(FixIterOutcome::Fixed { drv_name: "x".to_string(), repos: vec![] })
}

#[test]
fn run_until_clean_counts_iterations() {
    let mut c = config(true);
    c.max_iters = 3;
    let lp = FixLoop::new(c);
    assert!(matches!(lp.run_until_clean(None), LoopControl::RunIteration(1)));
    assert!(matches!(lp.run_until_clean(Some((1, fixed()))), LoopControl::RunIteration(2)));
    assert!(matches!(lp.run_until_clean(Some((2, clean()))), LoopControl::Stop(Ok(2))));
    assert!(matches!(
        lp.run_until_clean(Some((3, fixed()))),
        LoopControl::Stop(Err(FixError::MaxIters(3)))
    ));
}

#[test]
fn run_until_clean_with_zero_cap_gives_up_at_once() {
    let mut c = config(true);
    c.max_iters = 0;
    let lp = FixLoop::new(c);
    assert!(matches!(lp.run_until_clean(None), LoopControl::Stop(Err(FixError::MaxIters(0)))));
}

#[test]
fn run_until_clean_reports_no_match_and_non_hash_errors() {
    let lp = FixLoop::new(config(true));
    let nm = Ok(FixIterOutcome::NoMatch { drv_name: "shikumi".to_string(), rev_short: "a94bfe7".to_string() });
    match lp.run_until_clean(Some((1, nm))) {
        LoopControl::Stop(Err(FixError::Parse(m))) => {
            assert_eq!(m, "no Cargo.nix matched shikumi@a94bfe7 — manual fix required")
        }
        _ => panic!("expected a parse error"),
    }
    let nh = Ok(FixIterOutcome::NonHashError { details: "boom".to_string() });
    match lp.run_until_clean(Some((1, nh))) {
        LoopControl::Stop(Err(FixError::Nix(m))) => assert_eq!(m, "non-hash error: boom"),
        _ => panic!("expected a nix error"),
    }
}
