//! The git side of the fix-loop: `git add Cargo.nix`, `git commit -m
//! <message>`, `git push origin main`, and, if the push is rejected
//! (typically because someone else pushed first), one
//! `git pull --rebase origin main` followed by a second push.
//!
//! The commands run at the edge; [`commit_and_push`] and
//! [`PushState::advance`] decide which one comes next.

use vstd::prelude::*;

use crate::error::FixError;
use crate::text::{contains_exec, contains_lit, lit_at, to_chars};

verus! {

broadcast use vstd::string::group_string_axioms;

/// Where a commit-and-push stands.
pub enum PushState {
    /// `git add Cargo.nix` is running; `message` is for the commit.
    Adding { message: String },
    /// `git commit -m <message>` is running.
    Committing,
    /// `git push origin main` is running.
    Pushing,
    /// `git pull --rebase origin main` is running after a rejected push.
    Rebasing,
    /// The second `git push origin main` is running.
    Repushing,
    /// Finished.
    Done,
}

/// What the caller is to do next.
pub enum GitAction {
    /// Run git with these arguments in the repo and report whether it succeeded.
    Run(Vec<String>),
    /// The commit-and-push is over, with this result.
    Finish(Result<(), FixError>),
}

/// `args` are the words `words`.
pub open spec fn args_are(args: Seq<String>, words: Seq<Seq<char>>) -> bool {
    &&& args.len() == words.len()
    &&& forall|i: int| 0 <= i < args.len() ==> #[trigger] args[i]@ == words[i]
}

/// `action` runs git with `words`.
pub open spec fn runs(action: GitAction, words: Seq<Seq<char>>) -> bool {
    action matches GitAction::Run(args) && args_are(args@, words)
}

/// `git add Cargo.nix`
pub open spec fn add_words() -> Seq<Seq<char>> {
    seq!["add"@, "Cargo.nix"@]
}

/// `git commit -m <message>`
pub open spec fn commit_words(message: Seq<char>) -> Seq<Seq<char>> {
    seq!["commit"@, "-m"@, message]
}

/// `git push origin main`
pub open spec fn push_words() -> Seq<Seq<char>> {
    seq!["push"@, "origin"@, "main"@]
}

/// `git pull --rebase origin main`
pub open spec fn pull_rebase_words() -> Seq<Seq<char>> {
    seq!["pull"@, "--rebase"@, "origin"@, "main"@]
}

/// The failure of a push that a rebase can fix.
pub open spec fn is_rejection(message: Seq<char>) -> bool {
    contains_lit(message, "rejected"@) || contains_lit(message, "non-fast-forward"@)
}

/// Only a push refused as `rejected` or `non-fast-forward` is retried after
/// a rebase; any other failure (a denied permission, an unreachable remote)
/// is not a rejection, though git's message says that the command failed.
pub proof fn lemma_rejection_words(m: Seq<char>)
    ensures
        is_rejection(m) ==> (exists|p: int| lit_at(m, p, "rejected"@)) || (exists|p: int|
            lit_at(m, p, "non-fast-forward"@)),
        (exists|p: int| lit_at(m, p, "rejected"@)) ==> is_rejection(m),
        (exists|p: int| lit_at(m, p, "non-fast-forward"@)) ==> is_rejection(m),
{
}

/// A vector of owned strings for `words`.
fn words(w: &[&str]) -> (r: Vec<String>)
    ensures
        r@.len() == w@.len(),
        forall|i: int| 0 <= i < w@.len() ==> #[trigger] r@[i]@ == w@[i]@,
{
    let mut out: Vec<String> = Vec::new();
    let mut i: usize = 0;
    while i < w.len()
        invariant
            i <= w@.len(),
            out@.len() == i,
            forall|j: int| 0 <= j < i ==> #[trigger] out@[j]@ == w@[j]@,
        decreases w@.len() - i,
    {
        out.push(String::from_str(w[i]));
        i = i + 1;
    }
    out
}

/// Start a commit-and-push of `Cargo.nix` with `message`: stage the file first.
pub fn commit_and_push(message: &str) -> (r: (PushState, GitAction))
    ensures
        r.0 matches PushState::Adding { message: m } && m@ == message@,
        runs(r.1, add_words()),
{
    let action = GitAction::Run(words(&["add", "Cargo.nix"]));
    (PushState::Adding { message: String::from_str(message) }, action)
}

impl PushState {
    /// The next step after the running git command finished with `result`.
    pub fn advance(self, result: Result<(), FixError>) -> (r: (PushState, GitAction))
        requires
            !(self is Done),
        ensures
            r.1 is Finish <==> r.0 is Done,
            match self {
                PushState::Adding { message } => match result {
                    Ok(()) => r.0 is Committing && runs(r.1, commit_words(message@)),
                    Err(e) => r.1 == GitAction::Finish(Err(e)),
                },
                PushState::Committing => match result {
                    Ok(()) => r.0 is Pushing && runs(r.1, push_words()),
                    Err(e) => r.1 == GitAction::Finish(Err(e)),
                },
                PushState::Pushing => match result {
                    Ok(()) => r.1 == GitAction::Finish(Ok(())),
                    Err(e) => if e matches FixError::Git(msg) && is_rejection(msg@) {
                        r.0 is Rebasing && runs(r.1, pull_rebase_words())
                    } else {
                        r.1 == GitAction::Finish(Err(e))
                    },
                },
                PushState::Rebasing => match result {
                    Ok(()) => r.0 is Repushing && runs(r.1, push_words()),
                    Err(e) => r.1 == GitAction::Finish(Err(e)),
                },
                PushState::Repushing => r.1 == GitAction::Finish(result),
                PushState::Done => false,
            },
    {
        match self {
            PushState::Adding { message } => match result {
                Ok(()) => {
                    let mut args = words(&["commit", "-m"]);
                    args.push(message);
                    (PushState::Committing, GitAction::Run(args))
                },
                Err(e) => (PushState::Done, GitAction::Finish(Err(e))),
            },
            PushState::Committing => match result {
                Ok(()) => (PushState::Pushing, GitAction::Run(words(&["push", "origin", "main"]))),
                Err(e) => (PushState::Done, GitAction::Finish(Err(e))),
            },
            PushState::Pushing => match result {
                Ok(()) => (PushState::Done, GitAction::Finish(Ok(()))),
                Err(FixError::Git(msg)) => {
                    let text = to_chars(msg.as_str());
                    let rejected = to_chars("rejected");
                    let non_ff = to_chars("non-fast-forward");
                    if contains_exec(&text, &rejected) || contains_exec(&text, &non_ff) {
                        (
                            PushState::Rebasing,
                            GitAction::Run(words(&["pull", "--rebase", "origin", "main"])),
                        )
                    } else {
                        (PushState::Done, GitAction::Finish(Err(FixError::Git(msg))))
                    }
                },
                Err(e) => (PushState::Done, GitAction::Finish(Err(e))),
            },
            PushState::Rebasing => match result {
                Ok(()) => (PushState::Repushing, GitAction::Run(words(&["push", "origin", "main"]))),
                Err(e) => (PushState::Done, GitAction::Finish(Err(e))),
            },
            PushState::Repushing => (PushState::Done, GitAction::Finish(result)),
            PushState::Done => {
                proof {
                    assert(false);
                }
                (PushState::Done, GitAction::Finish(result))
            },
        }
    }
}

} // verus!
