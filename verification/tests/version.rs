use patchquilt::version::{SemanticVersion, Version};
use std::cmp::Ordering;

fn semantic(input: &str) -> SemanticVersion {
    SemanticVersion::parse(input).expect("valid semantic version")
}

#[test]
fn parses_two_and_four_component_versions() {
    assert_eq!(semantic("26.2").component_count(), 2);
    assert_eq!(semantic("1.2.3.4").component(3), 4);
}

#[test]
fn missing_trailing_components_are_zero() {
    assert_eq!(semantic("1.2"), semantic("1.2.0"));
    assert_eq!(semantic("1"), semantic("1.0.0"));
}

#[test]
fn rejects_leading_zero_and_garbage() {
    assert!(SemanticVersion::parse("1.02.3").is_none());
    assert!(SemanticVersion::parse("1.x.0").is_none());
    assert!(SemanticVersion::parse("").is_none());
    assert_eq!(Version::parse("nightly-2026"), Version::Plain("nightly-2026".into()));
}

#[test]
fn orders_release_components() {
    assert!(semantic("0.30.0") < semantic("0.30.1"));
    assert!(semantic("1.0.0") > semantic("0.99.99"));
    assert!(semantic("2.0") > semantic("1.9.9"));
}

#[test]
fn pre_release_ranks_below_release() {
    assert!(semantic("1.0.0-alpha") < semantic("1.0.0"));
    assert!(semantic("1.0.0-alpha") < semantic("1.0.0-alpha.1"));
    assert!(semantic("1.0.0-alpha.1") < semantic("1.0.0-alpha.beta"));
    assert!(semantic("1.0.0-1") < semantic("1.0.0-alpha"));
}

#[test]
fn build_metadata_is_ignored_for_precedence() {
    assert_eq!(semantic("1.0.0+a"), semantic("1.0.0+b"));
    assert_eq!(semantic("1.0.0+build.5").cmp(&semantic("1.0.0")), Ordering::Equal);
    assert!(SemanticVersion::parse("1.0.0+").is_none());
}

#[test]
fn renders_versions_as_written() {
    assert_eq!(Version::parse("1.2.3-alpha.1+build.7").to_string(), "1.2.3-alpha.1+build.7");
    assert_eq!(Version::parse("26.2").to_string(), "26.2");
    assert_eq!(Version::parse("not a version").to_string(), "not a version");
    assert_eq!(semantic("0.30.0").to_string(), "0.30.0");
}

#[test]
fn precedence_is_a_total_preorder_on_examples() {
    let a = semantic("1.0.0-alpha");
    let b = semantic("1.0.0-beta");
    let c = semantic("1.0.0");
    assert!(a < b && b < c && a < c);
    assert_eq!(a.cmp(&a), Ordering::Equal);
    assert_eq!(a.cmp(&b), Ordering::Less);
    assert_eq!(b.cmp(&a), Ordering::Greater);
}

#[test]
fn zero_padding_and_build_never_change_precedence() {
    assert_eq!(semantic("1.2+x").cmp(&semantic("1.2.0.0+y")), Ordering::Equal);
    assert!(semantic("1.2.0.1") > semantic("1.2"));
}

#[test]
fn version_parse_prefers_semantic() {
    assert!(Version::parse("1.0.0").as_semantic().is_some());
    assert!(Version::parse("1.0.0-").as_semantic().is_none());
    assert!(Version::parse("01.0").as_semantic().is_none());
    assert_eq!(semantic("18446744073709551615").component(0), u64::MAX);
    assert!(SemanticVersion::parse("18446744073709551616").is_none());
    assert!(semantic("1.0.0-rc.1").is_pre_release());
    assert!(!semantic("1.0.0").is_pre_release());
    assert_eq!(semantic("1.2").component(7), 0);
}

#[test]
fn grammar_splits_at_the_first_plus_then_the_first_dash() {
    // The tag may hold `-`; the build may hold `-` but the tag may not hold `+`.
    assert!(SemanticVersion::parse("1.0.0-rc-1").is_some());
    assert!(SemanticVersion::parse("1.0.0+build-7").is_some());
    assert!(SemanticVersion::parse("1.0.0-rc+1+2").is_none());
    // Numeric tag identifiers are canonical numbers; alphanumeric ones may start with 0.
    assert!(SemanticVersion::parse("1.0.0-01").is_none());
    assert!(SemanticVersion::parse("1.0.0-0a").is_some());
    assert!(SemanticVersion::parse("1.0.0-0").is_some());
    // Empty parts are refused everywhere.
    assert!(SemanticVersion::parse("1..0").is_none());
    assert!(SemanticVersion::parse("1.0.0-a..b").is_none());
    assert!(SemanticVersion::parse("1.0.0+a..b").is_none());
    assert!(SemanticVersion::parse("0").is_some());
}
