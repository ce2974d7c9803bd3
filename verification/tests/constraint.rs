use patchquilt::constraint::VersionSpec;
use patchquilt::version::Version;

fn matches(spec: &str, version: &str) -> bool {
    VersionSpec::parse(spec)
        .expect("valid spec")
        .matches(&Version::parse(version))
}

#[test]
fn any_matches_everything() {
    assert!(matches("*", "1.2.3"));
    assert!(matches("", "0.0.1"));
    assert!(VersionSpec::any().matches(&Version::parse("anything")));
}

#[test]
fn exact_requires_equality_with_zero_padding() {
    assert!(matches("26.2", "26.2"));
    assert!(matches("26.2", "26.2.0"));
    assert!(!matches("26.2", "26.2.1"));
    assert!(!matches("26.2", "26.3"));
}

#[test]
fn comparison_operators() {
    assert!(matches(">=0.30.0", "0.30.0"));
    assert!(matches(">=0.30.0", "0.31.5"));
    assert!(!matches(">=0.30.0", "0.29.9"));
    assert!(matches(">1.0.0", "1.0.1"));
    assert!(!matches(">1.0.0", "1.0.0"));
    assert!(matches("<=2.0.0", "2.0.0"));
    assert!(matches("<2.0.0", "1.9.9"));
}

#[test]
fn caret_pins_left_most_non_zero_component() {
    assert!(matches("^1.2.3", "1.9.0"));
    assert!(!matches("^1.2.3", "2.0.0"));
    assert!(!matches("^1.2.3", "1.2.2"));
    assert!(matches("^0.2.3", "0.2.9"));
    assert!(!matches("^0.2.3", "0.3.0"));
    assert!(matches("^0.0.3", "0.0.3"));
    assert!(!matches("^0.0.3", "0.0.4"));
}

#[test]
fn tilde_allows_patch_changes() {
    assert!(matches("~1.2.3", "1.2.9"));
    assert!(!matches("~1.2.3", "1.3.0"));
    assert!(matches("~1.2", "1.2.5"));
    assert!(!matches("~1.2", "1.3.0"));
    assert!(matches("~1", "1.9.9"));
    assert!(!matches("~1", "2.0.0"));
}

#[test]
fn wildcards() {
    assert!(matches("1.x", "1.9.9"));
    assert!(!matches("1.x", "2.0.0"));
    assert!(matches("1.2.*", "1.2.7"));
    assert!(!matches("1.2.*", "1.3.0"));
    assert!(matches("x", "5.5.5"));
}

#[test]
fn union_matches_any_member() {
    let spec = VersionSpec::parse_union(&["1.x", ">=3.0.0"]).expect("valid union");
    assert!(spec.matches(&Version::parse("1.4.0")));
    assert!(spec.matches(&Version::parse("3.1.0")));
    assert!(!spec.matches(&Version::parse("2.0.0")));
}

#[test]
fn operator_on_plain_version_is_rejected() {
    assert!(VersionSpec::parse(">=nightly").is_err());
    // Bare non-semantic strings still match exactly.
    assert!(matches("nightly-build", "nightly-build"));
    assert!(!matches("nightly-build", "release"));
}

#[test]
fn rejected_operator_reports_the_input() {
    let error = VersionSpec::parse(">=nightly").unwrap_err();
    assert_eq!(error, "operator '>=' cannot be applied to non-semantic version 'nightly'");
    assert!(VersionSpec::parse("1.x.2").is_err());
    assert!(VersionSpec::parse("1.y.x").is_err());
}

#[test]
fn empty_union_and_wildcard_union_match_everything() {
    let empty = VersionSpec::parse_union(&[]).expect("valid union");
    assert!(empty.matches(&Version::parse("1.0.0")));
    assert!(empty.matches(&Version::parse("nightly")));
    let all = VersionSpec::parse_union(&["*"]).expect("valid union");
    assert!(all.matches(&Version::parse("whatever")));
    assert!(VersionSpec::parse_union(&["1.x", "<=oops"]).is_err());
}

#[test]
fn caret_and_tilde_near_the_top_of_u64() {
    assert!(matches("^18446744073709551614.0.0", "18446744073709551614.5.0"));
    assert!(matches("=1.0.0", "1.0.0"));
    assert!(!matches("=1.0.0", "1.0.1"));
    assert!(!matches(">=1.0.0", "nightly"));
}

#[test]
fn upper_bounds_beyond_u64_are_rejected() {
    assert_eq!(
        VersionSpec::parse("^18446744073709551615").unwrap_err(),
        "upper bound out of range in '^18446744073709551615'"
    );
    assert!(VersionSpec::parse("^0.18446744073709551615").is_err());
    assert!(VersionSpec::parse("~1.18446744073709551615.0").is_err());
    assert!(VersionSpec::parse("~18446744073709551615").is_err());
    assert_eq!(
        VersionSpec::parse("1.18446744073709551615.x").unwrap_err(),
        "upper bound out of range in '1.18446744073709551615.x'"
    );
    assert!(matches(">=18446744073709551615", "18446744073709551615.0.1"));
}

#[test]
fn refusals_follow_the_predicate_rule() {
    // An operator other than `=` before a non-semantic version.
    assert!(VersionSpec::parse("<nightly").is_err());
    assert!(VersionSpec::parse("=nightly").is_ok());
    // A number after a wildcard, or a part that is not a number.
    assert_eq!(
        VersionSpec::parse("*.1").unwrap_err(),
        "fixed component after wildcard in '*.1'"
    );
    assert_eq!(
        VersionSpec::parse("1.a.x").unwrap_err(),
        "invalid version component 'a' in '1.a.x'"
    );
    // A range whose upper bound would pass u64::MAX.
    assert!(VersionSpec::parse("18446744073709551615.x").is_err());
    assert!(VersionSpec::parse("~1.18446744073709551615").is_err());
    // Everything else parses.
    assert!(VersionSpec::parse("  ").is_ok());
    assert!(VersionSpec::parse("x.x").is_ok());
    assert!(VersionSpec::parse("18446744073709551615.x.x").is_err());
    assert!(VersionSpec::parse("1.18446744073709551615").is_ok());
    assert!(VersionSpec::parse("release candidate").is_ok());
}
