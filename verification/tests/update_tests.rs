use insearch::update::{
    announcement, auto_check_enabled, maybe_run, set_auto_check, check_outcome, is_newer, parse_version, tag_from_location, CheckOutcome,
};

#[test]
fn detects_newer_releases() {
    assert!(is_newer("v0.6.0", "0.5.0"));
    assert!(is_newer("0.5.1", "0.5.0"));
    assert!(is_newer("1.0.0", "0.5.0"));
}

#[test]
fn ignores_same_or_older() {
    assert!(!is_newer("0.5.0", "0.5.0"));
    assert!(!is_newer("0.4.0", "0.5.0"));
}

#[test]
fn prerelease_ranks_below_finished() {
    assert!(is_newer("1.0.0", "1.0.0-rc.1"));
    assert!(!is_newer("1.0.0-rc.2", "1.0.0"));
}

#[test]
fn garbage_never_nags() {
    assert!(!is_newer("", "0.5.0"));
    assert!(!is_newer("banana", "0.5.0"));
}

#[test]
fn extracts_tag_from_github_redirect() {
    assert_eq!(
        tag_from_location("https://github.com/StruisICT/InSearch/releases/tag/v0.6.0"),
        Some("v0.6.0".to_string())
    );
    assert_eq!(
        tag_from_location("https://github.com/StruisICT/InSearch/releases/tag/v1.0.0/"),
        Some("v1.0.0".to_string())
    );
}

#[test]
fn rejects_unexpected_locations() {
    assert_eq!(tag_from_location("https://github.com/login"), None);
    assert_eq!(tag_from_location(""), None);
    assert_eq!(
        tag_from_location("https://github.com/StruisICT/InSearch/releases"),
        None
    );
}

#[test]
fn versions_parse_with_defaults_and_build_metadata() {
    let v = parse_version(" v2.3+build.7 ").unwrap();
    assert_eq!((v.major, v.minor, v.patch, v.is_prerelease), (2, 3, 0, false));
    let v = parse_version("1.2.3-beta").unwrap();
    assert_eq!((v.major, v.minor, v.patch, v.is_prerelease), (1, 2, 3, true));
    assert!(parse_version("1.2.3.4").is_none());
    assert!(parse_version("1.x").is_none());
}

#[test]
fn newer_is_irreflexive_asymmetric_and_transitive_on_examples() {
    for t in ["0.1.0", "1.0.0-rc.1", "v2"] {
        assert!(!is_newer(t, t));
    }
    assert!(is_newer("0.7.0", "0.6.1") && !is_newer("0.6.1", "0.7.0"));
    assert!(is_newer("0.7.0", "0.6.1") && is_newer("0.6.1", "0.6.0") && is_newer("0.7.0", "0.6.0"));
}

#[test]
fn announcement_only_once_per_version() {
    assert_eq!(announcement("v0.7.0", "0.6.0", None), Some("0.7.0".to_string()));
    assert_eq!(announcement("v0.7.0", "0.6.0", Some("0.7.0")), None);
    assert_eq!(announcement("v0.7.0", "0.6.0", Some("0.6.5")), Some("0.7.0".to_string()));
    assert_eq!(announcement("v0.5.0", "0.6.0", None), None);
}

#[test]
fn check_outcome_reports_each_case() {
    assert_eq!(check_outcome(None, "0.6.0"), CheckOutcome::Unavailable);
    assert_eq!(check_outcome(Some("v0.6.0"), "0.6.0"), CheckOutcome::UpToDate);
    assert_eq!(check_outcome(Some("vv0.9.1"), "0.6.0"), CheckOutcome::Newer("0.9.1".to_string()));
    assert!(!auto_check_enabled());
}

#[test]
fn automatic_checks_stay_off() {
    set_auto_check(true);
    maybe_run();
    assert!(!auto_check_enabled());
}
