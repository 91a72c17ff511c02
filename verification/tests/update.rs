use ush::update::{
    check_due, check_interval, checksum_matches, detect_target, download_url_allowed, find_asset, is_packaged_build,
    metadata_url_allowed, packaged_build_notice, parse_semver, pinned_version, plan_upgrade, semver_newer,
    sha256_hex, strip_leading_v, update_banner, upgrade_temp_pid, Asset, UpgradePlan, CHECK_INTERVAL_SECS,
};

#[test]
fn test_semver_newer() {
    assert!(semver_newer("2.1.0", "2.0.0"));
    assert!(semver_newer("2.0.1", "2.0.0"));
    assert!(!semver_newer("2.0.0", "2.0.0"));
    assert!(!semver_newer("1.9.9", "2.0.0"));
    assert!(semver_newer("v2.1.0", "v2.0.0"));
}

#[test]
fn test_detect_target_supported() {
    assert_eq!(detect_target("linux", "x86_64").unwrap(), "x86_64-unknown-linux-musl");
    assert_eq!(detect_target("linux", "aarch64").unwrap(), "aarch64-unknown-linux-musl");
    assert_eq!(detect_target("macos", "aarch64").unwrap(), "aarch64-apple-darwin");
}

#[test]
fn detect_target_rejects_other_hosts() {
    match detect_target("windows", "x86_64") {
        Err(e) => assert_eq!(e.message(), "unsupported platform: windows/x86_64"),
        Ok(_) => panic!("expected an error"),
    }
}

#[test]
fn parse_semver_forms() {
    assert_eq!(parse_semver(" v2.1.3 "), Some((2, 1, 3)));
    assert_eq!(parse_semver("2.1"), Some((2, 1, 0)));
    assert_eq!(parse_semver("2.1.3-rc1"), Some((2, 1, 3)));
    assert_eq!(parse_semver("2.1.3.4"), Some((2, 1, 3)));
    assert_eq!(parse_semver("vv1.2.3"), Some((1, 2, 3)));
    assert_eq!(parse_semver("+1.2.3"), Some((1, 2, 3)));
    assert_eq!(parse_semver("2"), None);
    assert_eq!(parse_semver("2.x.1"), None);
    assert_eq!(parse_semver("2.1.rc"), None);
    assert_eq!(parse_semver("4294967296.0.0"), None);
    assert!(!semver_newer("junk", "1.0.0"));
}

#[test]
fn packaged_builds() {
    assert!(!is_packaged_build("source"));
    assert!(is_packaged_build("deb"));
    assert!(packaged_build_notice("source").is_none());
    let n = packaged_build_notice("rpm").unwrap();
    assert!(n.contains("\n    sudo dnf upgrade ush\n"));
    assert!(n.starts_with("ush was installed from a distribution package"));
    assert!(packaged_build_notice("other").unwrap().contains("your package manager"));
}

#[test]
fn versions_are_normalised() {
    assert_eq!(pinned_version("  v1.2.3\n"), Some("1.2.3".to_string()));
    assert_eq!(pinned_version(" v "), None);
    assert_eq!(strip_leading_v("vv2.0"), "2.0");
    assert_eq!(strip_leading_v(" v2.0"), " v2.0");
}

#[test]
fn upgrade_temp_names() {
    assert_eq!(upgrade_temp_pid(".ush.upgrade.123", 7), Some(123));
    assert_eq!(upgrade_temp_pid(".ush.upgrade.123", 123), None);
    assert_eq!(upgrade_temp_pid(".ush.upgrade.", 7), None);
    assert_eq!(upgrade_temp_pid(".ush.upgrade.+5", 7), None);
    assert_eq!(upgrade_temp_pid(".ush.upgrade.99999999999", 7), None);
    assert_eq!(upgrade_temp_pid(".ush.binary.5", 7), None);
}

#[test]
fn url_schemes() {
    assert!(metadata_url_allowed("https://ush.sucks/dl/cli/latest.json", None));
    assert!(metadata_url_allowed("file:///tmp/latest.json", None));
    assert!(!metadata_url_allowed("http://x", None));
    assert!(metadata_url_allowed("http://x", Some("1")));
    assert!(!metadata_url_allowed("http://x", Some("yes")));
    assert!(download_url_allowed("https://x/a.tar.gz", None));
    assert!(!download_url_allowed("file:///a.tar.gz", None));
    assert!(download_url_allowed("file:///a.tar.gz", Some("1")));
}

#[test]
fn check_schedule() {
    assert_eq!(check_interval(None), CHECK_INTERVAL_SECS);
    assert_eq!(check_interval(Some("60")), 60);
    assert_eq!(check_interval(Some("soon")), CHECK_INTERVAL_SECS);
    assert!(check_due(100, None, 50));
    assert!(!check_due(100, Some(60), 50));
    assert!(check_due(110, Some(60), 50));
    assert!(!check_due(10, Some(60), 50));
}

#[test]
fn assets_and_checksums() {
    let assets = vec![
        Asset { target: "a".to_string(), url: "https://x/a".to_string(), sha256: "00".to_string() },
        Asset { target: "b".to_string(), url: "https://x/b".to_string(), sha256: "11".to_string() },
        Asset { target: "b".to_string(), url: "https://x/b2".to_string(), sha256: "22".to_string() },
    ];
    assert_eq!(find_asset(&assets, "b"), Some(1));
    assert_eq!(find_asset(&assets, "c"), None);
    let empty = sha256_hex(b"");
    assert_eq!(empty, "e3b0c44298fc1c149afbf4c8996fb92427ae41e4649b934ca495991b7852b855");
    assert_eq!(sha256_hex(b"abc"), "ba7816bf8f01cfea414140de5dae2223b00361a396177a9cb410ff61f20015ad");
    assert!(checksum_matches(&empty, "E3B0C44298FC1C149AFBF4C8996FB92427AE41E4649B934CA495991B7852B855"));
    assert!(!checksum_matches(&empty, "e3b0"));
}

#[test]
fn banner_and_plan() {
    assert_eq!(
        update_banner("2.1.0", "2.0.0").unwrap(),
        "\nush: update available: 2.1.0 (you have 2.0.0). Run 'ush upgrade' to update."
    );
    assert!(update_banner("2.0.0", "2.0.0").is_none());
    assert!(matches!(plan_upgrade("2.0.0", "2.0.0", false), UpgradePlan::AlreadyCurrent(ref s) if s == "ush is already at version 2.0.0"));
    assert!(matches!(plan_upgrade("2.1.0", "2.0.0", true), UpgradePlan::Report(ref s) if s == "update available: 2.1.0 (current: 2.0.0)"));
    assert!(matches!(plan_upgrade("1.0.0", "2.0.0", true), UpgradePlan::Report(ref s) if s == "target version 1.0.0 is not newer than current 2.0.0"));
    assert!(matches!(plan_upgrade("2.1.0", "2.0.0", false), UpgradePlan::Install));
}

#[test]
fn upgrade_prompt_answers() {
    assert!(ush::update::confirms_upgrade("\n"));
    assert!(ush::update::confirms_upgrade("y\n"));
    assert!(ush::update::confirms_upgrade("  YES \n"));
    assert!(ush::update::confirms_upgrade("Yes"));
    assert!(!ush::update::confirms_upgrade("no\n"));
    assert!(!ush::update::confirms_upgrade("yess"));
    assert!(!ush::update::confirms_upgrade("y y"));
}
