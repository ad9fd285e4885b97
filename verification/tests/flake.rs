use hashfix::flake::input_present_in_flake;

const FLAKE: &str = r#"{
  inputs = {
    nixpkgs.url = "github:NixOS/nixpkgs";
    shikumi = { url = "github:pleme-io/shikumi"; flake = false; };
    kindling.url = "github:pleme-io/kindling";
  };
}
"#;

#[test]
fn input_present_in_flake_finds_both_forms() {
    assert!(input_present_in_flake(FLAKE, "shikumi"));
    assert!(input_present_in_flake(FLAKE, "kindling"));
    assert!(input_present_in_flake(FLAKE, "nixpkgs"));
}

#[test]
fn input_present_in_flake_skips_undeclared_inputs() {
    assert!(!input_present_in_flake(FLAKE, "tatara"));
    assert!(!input_present_in_flake("", "shikumi"));
}

#[test]
fn input_present_in_flake_needs_the_whole_name() {
    let body = "{ inputs = { pleme-kindling = { url = \"github:pleme-io/pleme-kindling\"; }; }; }";
    assert!(!input_present_in_flake(body, "kindling"));
    assert!(input_present_in_flake(body, "pleme-kindling"));
    assert!(input_present_in_flake("{ inputs.kindling.url = \"github:pleme-io/kindling\"; }", "kindling"));
    assert!(input_present_in_flake("kindling = {", "kindling"));
    assert!(!input_present_in_flake("{ inputs.xkindling.url = \"x\"; }", "kindling"));
}
