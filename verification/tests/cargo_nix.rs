use hashfix::cargo_nix::{find_entries_for, replace_sha, CargoNixEntry, RepoCargoNix};
use hashfix::error::FixError;

const SAMPLE_CARGO_NIX: &str = r#"# generated
{ ... }: {
  shikumi = rustPackages.unknown.shikumi."0.1.0" = overridableMkRustCrate (profileName: rec {
    name = "shikumi";
    workspace_member = null;
    src = pkgs.fetchgit {
      url = "https://github.com/pleme-io/shikumi";
      rev = "a94bfe7000000000000000000000000000000000";
      sha256 = "0oldoldoldoldoldoldoldoldoldoldoldoldoldold";
    };
    libName = "shikumi";
  });
}
"#;

/// The fleet root `/fleet` holding one repo, as the I/O layer lists it.
fn fixture_repo(repo: &str, body: &str) -> Vec<RepoCargoNix> {
    vec![RepoCargoNix {
        repo_root: format!("/fleet/{repo}"),
        cargo_nix_path: format!("/fleet/{repo}/Cargo.nix"),
        body: body.to_string(),
    }]
}

#[test]
fn find_entries_for_locates_a_match() {
    let repos = fixture_repo("kindling", SAMPLE_CARGO_NIX);
    let entries = find_entries_for("shikumi", "a94bfe7", &repos).unwrap();
    assert_eq!(entries.len(), 1);
    let e = &entries[0];
    assert_eq!(e.repo_name, "kindling");
    assert_eq!(e.rev_full, "a94bfe7000000000000000000000000000000000");
    assert_eq!(e.current_sha, "0oldoldoldoldoldoldoldoldoldoldoldoldoldold");
    assert_eq!(e.repo_root, "/fleet/kindling");
    assert_eq!(e.cargo_nix_path, "/fleet/kindling/Cargo.nix");
}

#[test]
fn find_entries_for_skips_non_matching_revs() {
    let repos = fixture_repo("kindling", SAMPLE_CARGO_NIX);
    let entries = find_entries_for("shikumi", "9999999", &repos).unwrap();
    assert!(entries.is_empty());
}

#[test]
fn find_entries_for_skips_other_repo_names() {
    let repos = fixture_repo("kindling", SAMPLE_CARGO_NIX);
    let entries = find_entries_for("tatara", "a94bfe7", &repos).unwrap();
    assert!(entries.is_empty());
}

fn first_entry(repos: &Vec<RepoCargoNix>) -> CargoNixEntry {
    find_entries_for("shikumi", "a94bfe7", repos)
        .unwrap()
        .into_iter()
        .next()
        .unwrap()
}

#[test]
fn replace_sha_rewrites_the_line_in_place() {
    let repos = fixture_repo("kindling", SAMPLE_CARGO_NIX);
    let e = first_entry(&repos);
    let new_sha = "sha256-NEW=";
    let body = replace_sha(&e, new_sha, &repos[0].body).unwrap();
    assert!(body.contains(r#"sha256 = "sha256-NEW=""#));
    assert!(!body.contains("oldoldoldoldoldold"));
    // rev must be untouched.
    assert!(body.contains(r#"rev = "a94bfe7000000000000000000000000000000000""#));
}

#[test]
fn replace_sha_then_relocate_then_replace_again() {
    // After one successful rewrite, find_entries_for sees the new sha;
    // a second rewrite to a DIFFERENT value still succeeds.
    let repos = fixture_repo("kindling", SAMPLE_CARGO_NIX);
    let e = first_entry(&repos);
    let body1 = replace_sha(&e, "sha256-FIRST=", &repos[0].body).unwrap();
    let repos2 = fixture_repo("kindling", &body1);
    let e2 = first_entry(&repos2);
    assert_eq!(e2.current_sha, "sha256-FIRST=");
    let body2 = replace_sha(&e2, "sha256-SECOND=", &body1).unwrap();
    assert!(body2.contains(r#"sha256 = "sha256-SECOND=""#));
}

#[test]
fn replace_sha_errors_when_new_equals_existing() {
    // A true no-op (new_sha == current sha) is reported as a Parse error.
    let repos = fixture_repo("kindling", SAMPLE_CARGO_NIX);
    let e = first_entry(&repos);
    let same = e.current_sha.clone();
    let err = replace_sha(&e, &same, &repos[0].body).unwrap_err();
    assert!(matches!(err, FixError::Parse(_)));
}

#[test]
fn find_entries_for_rejects_short_rev() {
    let repos: Vec<RepoCargoNix> = Vec::new();
    let err = find_entries_for("shikumi", "abc", &repos).unwrap_err();
    match err {
        FixError::Parse(msg) => assert!(msg.contains("at least 7 chars")),
        other => panic!("expected Parse error, got {other:?}"),
    }
}

#[test]
fn short_rev_message_quotes_the_rev() {
    let repos: Vec<RepoCargoNix> = Vec::new();
    match find_entries_for("shikumi", "ab\"c", &repos).unwrap_err() {
        FixError::Parse(msg) => {
            assert_eq!(msg, "rev_short must be at least 7 chars, got \"ab\\\"c\"")
        }
        other => panic!("expected Parse error, got {other:?}"),
    }
}

#[test]
fn replace_sha_error_names_rev_and_file() {
    let repos = fixture_repo("kindling", SAMPLE_CARGO_NIX);
    let mut e = first_entry(&repos);
    e.rev_full = "b".repeat(40);
    match replace_sha(&e, "sha256-X=", &repos[0].body).unwrap_err() {
        FixError::Parse(msg) => assert_eq!(
            msg,
            format!(
                "no sha256 line under rev = \"{}\" was rewritten in /fleet/kindling/Cargo.nix",
                "b".repeat(40)
            )
        ),
        other => panic!("expected Parse error, got {other:?}"),
    }
}

#[test]
fn find_entries_for_takes_one_entry_per_repo_in_listing_order() {
    let second = SAMPLE_CARGO_NIX.replace("0oldold", "0second");
    let twice = format!("{SAMPLE_CARGO_NIX}{second}");
    let mut repos = fixture_repo("b-repo", &twice);
    repos.extend(fixture_repo("a-repo/", SAMPLE_CARGO_NIX));
    repos.extend(fixture_repo("c-repo", "no blocks here"));
    let entries = find_entries_for("shikumi", "a94bfe7000", &repos).unwrap();
    assert_eq!(entries.len(), 2);
    assert_eq!(entries[0].repo_name, "b-repo");
    assert_eq!(entries[0].current_sha, "0oldoldoldoldoldoldoldoldoldoldoldoldoldold");
    assert_eq!(entries[1].repo_name, "a-repo");
}

#[test]
fn find_entries_for_needs_a_newline_between_lines() {
    let flat = SAMPLE_CARGO_NIX.replace(";\n      rev", "; rev");
    let repos = fixture_repo("kindling", &flat);
    assert!(find_entries_for("shikumi", "a94bfe7", &repos).unwrap().is_empty());
}

#[test]
fn replace_sha_rewrites_every_line_under_the_rev() {
    let twice = format!("{SAMPLE_CARGO_NIX}{SAMPLE_CARGO_NIX}");
    let repos = fixture_repo("kindling", &twice);
    let e = first_entry(&repos);
    let body = replace_sha(&e, "sha256-NEW=", &twice).unwrap();
    assert_eq!(body.matches("sha256-NEW=").count(), 2);
    assert_eq!(body, twice.replace("0oldoldoldoldoldoldoldoldoldoldoldoldoldold", "sha256-NEW="));
}

#[test]
fn replace_sha_twice_with_the_same_value_is_refused() {
    let body = "x\nrev = \"a94bfe7000000000000000000000000000000000\";\n  sha256 = \"OLD1\";\nrev = \"a94bfe7000000000000000000000000000000000\";\n sha256 = \"OLD2\"\n";
    let repos = fixture_repo("kindling", SAMPLE_CARGO_NIX);
    let e = first_entry(&repos);
    let once = replace_sha(&e, "sha256-NEW=", body).unwrap();
    assert_eq!(once.matches("sha256-NEW=").count(), 2);
    let err = replace_sha(&e, "sha256-NEW=", &once).unwrap_err();
    assert!(matches!(err, FixError::Parse(_)));
}

#[test]
fn replace_sha_reads_back_after_an_earlier_block_with_the_same_rev() {
    let body = "\
      url = \"https://github.com/pleme-io/shikumi-macros\";
      rev = \"a94bfe7000000000000000000000000000000000\";
      sha256 = \"0macrosmacros\";
    };
      url = \"https://github.com/pleme-io/shikumi\";
      rev = \"a94bfe7000000000000000000000000000000000\";
      sha256 = \"0oldold\";
    };
";
    let repos = fixture_repo("kindling", body);
    let e = first_entry(&repos);
    assert_eq!(e.current_sha, "0oldold");
    let once = replace_sha(&e, "sha256-NEW=", body).unwrap();
    let e2 = first_entry(&fixture_repo("kindling", &once));
    assert_eq!(e2.rev_full, "a94bfe7000000000000000000000000000000000");
    assert_eq!(e2.current_sha, "sha256-NEW=");
    assert!(replace_sha(&e2, "sha256-OTHER=", &once).is_ok());
}

#[test]
fn read_back_needs_earlier_lines_closed_before_the_block() {
    // An earlier sha line for the same rev whose value runs into the block's
    // url line: the rewrite overwrites that url line, and nothing is found.
    let body = "\
rev = \"a94bfe7000000000000000000000000000000000\";
 sha256 = \"xurl = \"https://github.com/pleme-io/shikumi\";
 rev = \"a94bfe7000000000000000000000000000000000\";
 sha256 = \"0oldold\";
";
    let repos = fixture_repo("kindling", body);
    let e = first_entry(&repos);
    let once = replace_sha(&e, "sha256-NEW=", body).unwrap();
    let after = find_entries_for("shikumi", "a94bfe7", &fixture_repo("kindling", &once)).unwrap();
    assert!(after.is_empty());
}
