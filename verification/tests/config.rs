use hashfix::config::{default_fleet_root, HashfixConfig};

#[test]
fn bare_is_zero_opinion() {
    let b = HashfixConfig::bare();
    assert_eq!(b.fleet_root, String::new());
    assert_eq!(b.flake_root, String::new());
    assert!(b.rebuild_cmd.is_empty());
    assert_eq!(b.max_iters, 0);
    assert!(!b.auto_push);
}

#[test]
fn prescribed_default_is_populated() {
    let d = HashfixConfig::prescribed_default(Some("/home/operator"));
    assert!(!d.fleet_root.is_empty());
    assert!(!d.flake_root.is_empty());
    assert_eq!(d.rebuild_cmd, vec!["nix", "run", ".#rebuild"]);
    assert_eq!(d.max_iters, 30);
    assert!(d.auto_push);
}

#[test]
fn bare_and_default_differ() {
    assert_ne!(HashfixConfig::bare(), HashfixConfig::prescribed_default(Some("/home/operator")));
    assert_ne!(HashfixConfig::bare(), HashfixConfig::prescribed_default(None));
}

#[test]
fn default_fleet_root_hangs_off_home() {
    assert_eq!(default_fleet_root(Some("/home/op")), "/home/op/code/github/pleme-io");
    assert_eq!(default_fleet_root(Some("/home/op/")), "/home/op/code/github/pleme-io");
    assert_eq!(default_fleet_root(Some("")), "code/github/pleme-io");
    assert_eq!(default_fleet_root(None), "/root/code/github/pleme-io");
    let d = HashfixConfig::prescribed_default(Some("/Users/drzzln"));
    assert_eq!(d.fleet_root, "/Users/drzzln/code/github/pleme-io");
    assert_eq!(d.flake_root, ".");
}
