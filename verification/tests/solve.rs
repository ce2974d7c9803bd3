use patchquilt::metadata::ModCandidate;
use patchquilt::resolve::{default_builtins, ResolutionError};
use patchquilt::solve::solve;

fn candidate(json: &[u8]) -> ModCandidate {
    ModCandidate::parse(json).expect("valid metadata")
}

fn library(version: &str) -> ModCandidate {
    candidate(
        format!(
            r#"{{"schema_version":1,"quilt_loader":{{"id":"shared_lib","version":"{version}"}}}}"#
        )
        .as_bytes(),
    )
}

fn consumer(spec: &str) -> ModCandidate {
    candidate(
        format!(
            r#"{{"schema_version":1,"quilt_loader":{{"id":"consumer","version":"1.0.0",
               "depends":[{{"id":"shared_lib","versions":"{spec}"}}]}}}}"#
        )
        .as_bytes(),
    )
}

#[test]
fn picks_the_newest_version_that_satisfies_dependents() {
    let solution = solve(
        vec![library("1.0.0"), library("2.0.0"), consumer("^1.0.0")],
        &default_builtins(),
    );
    assert!(solution.is_ok(), "errors: {:?}", solution.errors);
    // shared_lib 2.0.0 fails ^1.0.0, so the solver must keep 1.0.0.
    let chosen: Vec<String> = solution
        .loaded
        .iter()
        .filter(|c| c.id == "shared_lib")
        .map(|c| c.version.to_string())
        .collect();
    assert_eq!(chosen, vec!["1.0.0".to_owned()]);
    assert_eq!(solution.loaded.len(), 2);
}

#[test]
fn prefers_the_highest_version_when_unconstrained() {
    let solution = solve(
        vec![library("1.0.0"), library("2.0.0"), consumer(">=1.0.0")],
        &default_builtins(),
    );
    assert!(solution.is_ok());
    let chosen: Vec<String> = solution
        .loaded
        .iter()
        .filter(|c| c.id == "shared_lib")
        .map(|c| c.version.to_string())
        .collect();
    assert_eq!(chosen, vec!["2.0.0".to_owned()]);
}

#[test]
fn reports_when_no_version_can_satisfy() {
    let solution = solve(
        vec![library("1.0.0"), library("2.0.0"), consumer(">=3.0.0")],
        &default_builtins(),
    );
    assert!(!solution.is_ok());
    assert!(solution.loaded.is_empty());
}

#[test]
fn identical_id_and_version_is_a_duplicate() {
    let solution = solve(vec![library("1.0.0"), library("1.0.0")], &default_builtins());
    assert!(matches!(
        solution.errors.as_slice(),
        [ResolutionError::DuplicateId { .. }]
    ));
}

#[test]
fn honours_breaks_across_versions() {
    let breaker = candidate(
        br#"{"schema_version":1,"quilt_loader":{"id":"breaker","version":"1.0.0",
            "breaks":[{"id":"shared_lib","versions":"2.x"}]}}"#,
    );
    // Only shared_lib 2.0.0 is available, which the breaker forbids: no solution.
    let blocked = solve(vec![library("2.0.0"), breaker.clone()], &default_builtins());
    assert!(!blocked.is_ok());
    // With a 1.x also available, the solver picks it and both mods load.
    let solved = solve(
        vec![library("1.0.0"), library("2.0.0"), breaker],
        &default_builtins(),
    );
    assert!(solved.is_ok(), "errors: {:?}", solved.errors);
}

#[test]
fn loaded_mods_keep_input_order_and_one_version_per_id() {
    let solution = solve(
        vec![consumer(">=1.0.0"), library("2.0.0"), library("3.0.0")],
        &default_builtins(),
    );
    assert!(solution.is_ok(), "errors: {:?}", solution.errors);
    let loaded: Vec<(String, String)> = solution
        .loaded
        .iter()
        .map(|c| (c.id.clone(), c.version.to_string()))
        .collect();
    assert_eq!(
        loaded,
        vec![
            ("consumer".to_owned(), "1.0.0".to_owned()),
            ("shared_lib".to_owned(), "3.0.0".to_owned()),
        ]
    );
}

#[test]
fn conflicting_versions_without_a_missing_clause_are_reported() {
    // Both consumers are satisfiable on their own, but not together.
    let old_user = candidate(
        br#"{"schema_version":1,"quilt_loader":{"id":"old_user","version":"1.0.0",
            "depends":[{"id":"shared_lib","versions":"1.x"}]}}"#,
    );
    let new_user = candidate(
        br#"{"schema_version":1,"quilt_loader":{"id":"new_user","version":"1.0.0",
            "depends":[{"id":"shared_lib","versions":"2.x"}]}}"#,
    );
    let solution = solve(
        vec![library("1.0.0"), library("2.0.0"), old_user, new_user],
        &default_builtins(),
    );
    assert!(!solution.is_ok());
    assert!(solution.loaded.is_empty());
    // The single-version diagnostics see the two jars of one id.
    assert_eq!(
        solution.errors,
        vec![ResolutionError::DuplicateId { id: "shared_lib".into() }]
    );
}
