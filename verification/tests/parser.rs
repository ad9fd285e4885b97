use hashfix::cargo_nix::{find_entries_for, RepoCargoNix};
use hashfix::parser::HashMismatch;

const SAMPLE: &str = "\
warning: some other warning
error: hash mismatch in fixed-output derivation '/nix/store/abcdef0123456789abcdef0123456789-shikumi-a94bfe7.drv':
         specified: sha256-OLDOLDOLDOLDOLDOLDOLDOLDOLDOLD=
            got:    sha256-NEWNEWNEWNEWNEWNEWNEWNEWNEWNEW=
... For full logs, run:
";

#[test]
fn parses_canonical_mismatch_block() {
    let m = HashMismatch::parse(SAMPLE).expect("should parse");
    assert_eq!(m.drv_name, "shikumi");
    assert_eq!(m.rev_short, "a94bfe7");
    assert_eq!(m.specified_sha, "sha256-OLDOLDOLDOLDOLDOLDOLDOLDOLDOLD=");
    assert_eq!(m.got_sha, "sha256-NEWNEWNEWNEWNEWNEWNEWNEWNEWNEW=");
    assert_eq!(
        m.drv_path.as_str(),
        "/nix/store/abcdef0123456789abcdef0123456789-shikumi-a94bfe7.drv"
    );
}

#[test]
fn parse_returns_none_for_clean_output() {
    assert!(HashMismatch::parse("everything is fine\nrebuilt successfully\n").is_none());
}

#[test]
fn parse_handles_hyphenated_names() {
    let sample = "\
error: hash mismatch in fixed-output derivation '/nix/store/aaaaaaaaaaaaaaaaaaaaaaaaaaaaaaaa-pleme-tend-operator-1234567.drv':
         specified: sha256-AAAA=
            got:    sha256-BBBB=
";
    let m = HashMismatch::parse(sample).expect("should parse hyphenated name");
    assert_eq!(m.drv_name, "pleme-tend-operator");
    assert_eq!(m.rev_short, "1234567");
}

#[test]
fn parse_skips_an_empty_quoted_path() {
    let sample = "hash mismatch in fixed-output derivation ''\n\
hash mismatch in fixed-output derivation '/nix/store/0123456789abcdefghijklmnopqrstuv-x-abcdef0.drv'\n\
specified: A\ngot: B\n";
    let m = HashMismatch::parse(sample).expect("second marker parses");
    assert_eq!(m.drv_name, "x");
    assert_eq!(m.rev_short, "abcdef0");
    assert_eq!(m.specified_sha, "A");
    assert_eq!(m.got_sha, "B");
}

#[test]
fn parse_reads_fields_only_after_the_path() {
    let sample = "specified: EARLY\ngot: EARLY\n\
hash mismatch in fixed-output derivation '/nix/store/0123456789abcdefghijklmnopqrstuv-x-abcdef0.drv'\n\
specified: LATE1\ngot: LATE2\n";
    let m = HashMismatch::parse(sample).unwrap();
    assert_eq!(m.specified_sha, "LATE1");
    assert_eq!(m.got_sha, "LATE2");
}

#[test]
fn parse_rejects_bad_store_hash_and_rev() {
    // Upper-case letters are outside `[a-z0-9]`.
    let bad_hash = "hash mismatch in fixed-output derivation '/nix/store/ABCDEF0123456789abcdef0123456789-x-abcdef0.drv'\nspecified: A\ngot: B\n";
    assert!(HashMismatch::parse(bad_hash).is_none());
    // `g` is outside `[a-f0-9]`.
    let bad_rev = "hash mismatch in fixed-output derivation '/nix/store/abcdef0123456789abcdef0123456789-x-abcdefg.drv'\nspecified: A\ngot: B\n";
    assert!(HashMismatch::parse(bad_rev).is_none());
    // A label with no value after it.
    let no_got = "hash mismatch in fixed-output derivation '/nix/store/abcdef0123456789abcdef0123456789-x-abcdef0.drv'\nspecified: A\ngot:";
    assert!(HashMismatch::parse(no_got).is_none());
}

#[test]
fn parse_uses_the_last_path_component() {
    // A trailing `/.` is ignored by `Path::file_name`; `.drv` is optional.
    let sample = "hash mismatch in fixed-output derivation 'x/0123456789abcdefghijklmnopqrstuv-name-0000000/.'\nspecified: A\ngot: B\n";
    let m = HashMismatch::parse(sample).unwrap();
    assert_eq!(m.drv_name, "name");
    assert_eq!(m.drv_path, "x/0123456789abcdefghijklmnopqrstuv-name-0000000/.");
    let dotdot = "hash mismatch in fixed-output derivation 'x/..'\nspecified: A\ngot: B\n";
    assert!(HashMismatch::parse(dotdot).is_none());
}

#[test]
fn parsed_rev_is_accepted_by_the_search() {
    let m = HashMismatch::parse(SAMPLE).unwrap();
    assert_eq!(m.rev_short.len(), 7);
    let none: Vec<RepoCargoNix> = Vec::new();
    assert!(find_entries_for(&m.drv_name, &m.rev_short, &none).unwrap().is_empty());
}

#[test]
fn parse_is_a_function_of_the_text() {
    assert_eq!(HashMismatch::parse(SAMPLE), HashMismatch::parse(SAMPLE));
}

#[test]
fn parse_ignores_a_quiet_prefix() {
    let prefix = "building '/nix/store/x.drv'...\n  specified: sha256-STRAY=\n  got: sha256-STRAY2=\n";
    let with_prefix = format!("{prefix}{SAMPLE}");
    assert_eq!(HashMismatch::parse(&with_prefix), HashMismatch::parse(SAMPLE));
    assert!(HashMismatch::parse(&with_prefix).is_some());
}

#[test]
fn parse_keeps_the_first_event() {
    let later = "\
error: hash mismatch in fixed-output derivation '/nix/store/aaaaaaaaaaaaaaaaaaaaaaaaaaaaaaaa-tatara-1234567.drv':
         specified: sha256-AAAA=
            got:    sha256-BBBB=
";
    let both = format!("{SAMPLE}{later}");
    let m = HashMismatch::parse(&both).expect("should parse");
    assert_eq!(Some(m), HashMismatch::parse(SAMPLE));
}
