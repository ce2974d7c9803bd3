use patchquilt::metadata::ModCandidate;
use patchquilt::resolve::{default_builtins, resolve, BuiltinMod, ResolutionError};
use patchquilt::version::Version;

fn candidate(json: &[u8]) -> ModCandidate {
    ModCandidate::parse(json).expect("valid metadata")
}

fn lifecycle_mod() -> ModCandidate {
    candidate(
        br#"{
            "schema_version": 1,
            "quilt_loader": {
                "id": "lifecycle_test",
                "version": "1.0.0",
                "depends": [
                    { "id": "quilt_loader", "versions": ">=0.30.0" },
                    { "id": "minecraft", "versions": "26.2" }
                ]
            }
        }"#,
    )
}

#[test]
fn reference_mod_resolves_against_builtins() {
    let resolution = resolve(vec![lifecycle_mod()], &default_builtins());
    assert!(resolution.is_ok(), "errors: {:?}", resolution.errors);
    assert_eq!(resolution.loaded.len(), 1);
}

#[test]
fn missing_dependency_is_reported() {
    let mod_json = candidate(
        br#"{
            "schema_version": 1,
            "quilt_loader": {
                "id": "needs_owo",
                "version": "1.0.0",
                "depends": [{ "id": "owo_lib", "reason": "menus" }]
            }
        }"#,
    );
    let resolution = resolve(vec![mod_json], &default_builtins());
    assert_eq!(
        resolution.errors,
        vec![ResolutionError::MissingDependency {
            mod_id: "needs_owo".into(),
            dependency: "owo_lib".into(),
            reason: Some("menus".into()),
        }]
    );
}

#[test]
fn wrong_game_version_is_unsatisfied() {
    let mod_json = candidate(
        br#"{
            "schema_version": 1,
            "quilt_loader": {
                "id": "old_mod",
                "version": "1.0.0",
                "depends": [{ "id": "minecraft", "versions": "1.21" }]
            }
        }"#,
    );
    let resolution = resolve(vec![mod_json], &default_builtins());
    assert!(matches!(
        resolution.errors.as_slice(),
        [ResolutionError::UnsatisfiedVersion { .. }]
    ));
}

#[test]
fn provides_satisfies_a_dependency() {
    let library = candidate(
        br#"{
            "schema_version": 1,
            "quilt_loader": {
                "id": "real_lib",
                "version": "3.1.0",
                "provides": [{ "id": "owo_lib", "version": "3.1.0" }]
            }
        }"#,
    );
    let consumer = candidate(
        br#"{
            "schema_version": 1,
            "quilt_loader": {
                "id": "consumer",
                "version": "1.0.0",
                "depends": [{ "id": "owo_lib", "versions": "^3.0.0" }]
            }
        }"#,
    );
    let resolution = resolve(vec![library, consumer], &default_builtins());
    assert!(resolution.is_ok(), "errors: {:?}", resolution.errors);
}

#[test]
fn breakage_and_duplicates_are_reported() {
    let breaker = candidate(
        br#"{
            "schema_version": 1,
            "quilt_loader": {
                "id": "breaker",
                "version": "1.0.0",
                "breaks": [{ "id": "minecraft", "versions": "26.2" }]
            }
        }"#,
    );
    let resolution = resolve(vec![breaker], &default_builtins());
    assert!(matches!(
        resolution.errors.as_slice(),
        [ResolutionError::Breakage { .. }]
    ));

    let duplicate_a = lifecycle_mod();
    let duplicate_b = lifecycle_mod();
    let dupes = resolve(vec![duplicate_a, duplicate_b], &default_builtins());
    assert!(
        dupes
            .errors
            .iter()
            .any(|error| matches!(error, ResolutionError::DuplicateId { .. }))
    );
}

#[test]
fn error_messages_read_as_sentences() {
    let missing = ResolutionError::MissingDependency {
        mod_id: "needs_owo".into(),
        dependency: "owo_lib".into(),
        reason: Some("menus".into()),
    };
    assert_eq!(missing.message(), "'needs_owo' requires 'owo_lib', which is not installed (menus)");
    let unsatisfied = ResolutionError::UnsatisfiedVersion {
        mod_id: "old_mod".into(),
        dependency: "minecraft".into(),
        available: "26.2".into(),
    };
    assert_eq!(
        unsatisfied.message(),
        "'old_mod' requires a different version of 'minecraft' (installed: 26.2)"
    );
    let breakage = ResolutionError::Breakage {
        mod_id: "breaker".into(),
        broken: "minecraft".into(),
        version: "26.2".into(),
    };
    assert_eq!(breakage.message(), "'breaker' is incompatible with 'minecraft' 26.2");
    let duplicate = ResolutionError::DuplicateId { id: "x".into() };
    assert_eq!(duplicate.message(), "mod id 'x' is defined more than once");
}

#[test]
fn unsatisfied_lists_every_available_version() {
    let mod_json = candidate(
        br#"{"schema_version":1,"quilt_loader":{"id":"picky","version":"1.0.0",
            "depends":[{"id":"minecraft","versions":">=30.0"}]}}"#,
    );
    let builtins = vec![BuiltinMod::new("minecraft", "26.2"), BuiltinMod::new("minecraft", "27.1")];
    let resolution = resolve(vec![mod_json], &builtins);
    assert_eq!(
        resolution.errors,
        vec![ResolutionError::UnsatisfiedVersion {
            mod_id: "picky".into(),
            dependency: "minecraft".into(),
            available: "26.2, 27.1".into(),
        }]
    );
    assert!(resolution.loaded.is_empty());
}

#[test]
fn default_builtins_are_the_host_environment() {
    let builtins = default_builtins();
    assert_eq!(builtins.len(), 3);
    assert_eq!(builtins[0].id, "minecraft");
    assert_eq!(builtins[0].version, Version::parse("26.2"));
    assert_eq!(builtins[1].id, "quilt_loader");
    assert_eq!(builtins[2].id, "java");
    assert_eq!(builtins[2].version, Version::parse("25"));
}

#[test]
fn optional_dependencies_are_not_required() {
    let mod_json = candidate(
        br#"{"schema_version":1,"quilt_loader":{"id":"relaxed","version":"1.0.0",
            "depends":[{"id":"nowhere","optional":true}]}}"#,
    );
    let resolution = resolve(vec![mod_json], &default_builtins());
    assert!(resolution.is_ok(), "errors: {:?}", resolution.errors);
}

#[test]
fn a_mod_claiming_a_builtin_id_is_a_duplicate() {
    let game = candidate(br#"{"schema_version":1,"quilt_loader":{"id":"minecraft","version":"1.0.0"}}"#);
    let resolution = resolve(vec![game], &default_builtins());
    assert_eq!(
        resolution.errors,
        vec![ResolutionError::DuplicateId { id: "minecraft".into() }]
    );
    assert!(resolution.loaded.is_empty());
}

#[test]
fn each_repeated_id_is_reported_once() {
    let resolution = resolve(
        vec![lifecycle_mod(), lifecycle_mod(), lifecycle_mod()],
        &default_builtins(),
    );
    assert_eq!(
        resolution.errors,
        vec![ResolutionError::DuplicateId { id: "lifecycle_test".into() }]
    );
}
