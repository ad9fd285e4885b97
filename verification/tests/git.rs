use hashfix::error::FixError;
use hashfix::git::{commit_and_push, GitAction, PushState};

fn args(a: &GitAction) -> Vec<String> {
    match a {
        GitAction::Run(v) => v.clone(),
        GitAction::Finish(_) => panic!("expected a git command"),
    }
}

#[test]
fn commit_and_push_runs_add_commit_push() {
    let (s, a) = commit_and_push("fix: msg");
    assert_eq!(args(&a), vec!["add", "Cargo.nix"]);
    let (s, a) = s.advance(Ok(()));
    assert_eq!(args(&a), vec!["commit", "-m", "fix: msg"]);
    let (s, a) = s.advance(Ok(()));
    assert_eq!(args(&a), vec!["push", "origin", "main"]);
    let (s, a) = s.advance(Ok(()));
    assert!(matches!(s, PushState::Done));
    assert!(matches!(a, GitAction::Finish(Ok(()))));
}

#[test]
fn rejected_push_is_retried_once_after_rebase() {
    let (s, _) = commit_and_push("m");
    let (s, _) = s.advance(Ok(()));
    let (s, _) = s.advance(Ok(()));
    let rejected = FixError::Git("git [\"push\"] failed: ! [rejected] main -> main".to_string());
    let (s, a) = s.advance(Err(rejected));
    assert_eq!(args(&a), vec!["pull", "--rebase", "origin", "main"]);
    let (s, a) = s.advance(Ok(()));
    assert_eq!(args(&a), vec!["push", "origin", "main"]);
    let (s, a) = s.advance(Err(FixError::Git("non-fast-forward again".to_string())));
    assert!(matches!(s, PushState::Done));
    assert!(matches!(a, GitAction::Finish(Err(FixError::Git(_)))));
}

#[test]
fn other_push_failures_are_not_retried() {
    let (s, _) = commit_and_push("m");
    let (s, _) = s.advance(Ok(()));
    let (s, _) = s.advance(Ok(()));
    let (s, a) = s.advance(Err(FixError::Git("permission denied".to_string())));
    assert!(matches!(s, PushState::Done));
    match a {
        GitAction::Finish(Err(FixError::Git(m))) => assert_eq!(m, "permission denied"),
        _ => panic!("expected the push error"),
    }
}

#[test]
fn failed_commit_stops_before_push() {
    let (s, _) = commit_and_push("m");
    let (s, _) = s.advance(Ok(()));
    let (s, a) = s.advance(Err(FixError::Git("nothing to commit".to_string())));
    assert!(matches!(s, PushState::Done));
    assert!(matches!(a, GitAction::Finish(Err(FixError::Git(_)))));
}
