use patchquilt::metadata::{ModCandidate, ModFormat};
use patchquilt::version::Version;

const LIFECYCLE_MOD: &[u8] = br#"{
    "schema_version": 1,
    "quilt_loader": {
        "group": "org.patchquilt",
        "id": "patchquilt_lifecycle_test",
        "version": "1.0.0",
        "metadata": { "name": "PatchQuilt Lifecycle Test" },
        "intermediate_mappings": "net.fabricmc:intermediary",
        "entrypoints": { "init": "org.patchquilt.testmod.LifecycleTestMod" },
        "depends": [
            { "id": "quilt_loader", "versions": ">=0.30.0" },
            { "id": "minecraft", "versions": "26.2" }
        ]
    },
    "mixin": ["patchquilt.mixins.json"]
}"#;

#[test]
fn parses_the_reference_quilt_mod() {
    let candidate = ModCandidate::parse(LIFECYCLE_MOD).expect("valid metadata");
    assert_eq!(candidate.format, ModFormat::Quilt);
    assert_eq!(candidate.id, "patchquilt_lifecycle_test");
    assert_eq!(candidate.group.as_deref(), Some("org.patchquilt"));
    assert_eq!(candidate.name.as_deref(), Some("PatchQuilt Lifecycle Test"));
    assert_eq!(candidate.depends.len(), 2);
    assert_eq!(candidate.entrypoints, vec!["org.patchquilt.testmod.LifecycleTestMod"]);
    assert_eq!(candidate.version, Version::parse("1.0.0"));
}

#[test]
fn accepts_string_and_array_dependencies() {
    let json = br#"{
        "schema_version": 1,
        "quilt_loader": {
            "id": "example_mod",
            "version": "2.0.0",
            "depends": ["quilt_base", { "id": "owo", "versions": ["1.x", ">=3.0.0"] }]
        }
    }"#;
    let candidate = ModCandidate::parse(json).expect("valid metadata");
    assert_eq!(candidate.depends[0].id, "quilt_base");
    assert!(candidate.depends[0].versions.matches(&Version::parse("9.9.9")));
    assert!(candidate.depends[1].versions.matches(&Version::parse("3.4.0")));
    assert!(!candidate.depends[1].versions.matches(&Version::parse("2.0.0")));
}

#[test]
fn parses_fabric_metadata() {
    let json = br#"{
        "schemaVersion": 1,
        "id": "fabric_example",
        "version": "1.4.2",
        "depends": { "fabricloader": ">=0.15.0", "minecraft": ["26.2"] }
    }"#;
    let candidate = ModCandidate::parse(json).expect("valid metadata");
    assert_eq!(candidate.format, ModFormat::Fabric);
    assert_eq!(candidate.depends.len(), 2);
    assert!(
        candidate
            .depends
            .iter()
            .any(|dependency| dependency.id == "fabricloader")
    );
}

#[test]
fn rejects_bad_schema_and_ids() {
    assert!(ModCandidate::parse(br#"{"schema_version": 2, "quilt_loader": {}}"#).is_err());
    let bad_id = br#"{"schema_version":1,"quilt_loader":{"id":"Bad-ID","version":"1.0.0"}}"#;
    assert!(ModCandidate::parse(bad_id).is_err());
}

#[test]
fn invalid_json_is_reported_as_such() {
    let error = ModCandidate::parse(b"{not json").unwrap_err();
    assert!(error.starts_with("invalid JSON: "), "{error}");
    assert!(error.len() > "invalid JSON: ".len());
}

#[test]
fn provides_and_breaks_are_read() {
    let json = br#"{
        "schema_version": 1,
        "quilt_loader": {
            "id": "real_lib",
            "version": "3.1.0",
            "provides": ["alias_one", { "id": "owo_lib", "version": "3.1.0" }],
            "breaks": [{ "id": "old_lib", "versions": "<2.0.0" }]
        }
    }"#;
    let candidate = ModCandidate::parse(json).expect("valid metadata");
    assert_eq!(candidate.provides.len(), 2);
    assert_eq!(candidate.provides[0].id, "alias_one");
    assert!(candidate.provides[0].version.is_none());
    assert_eq!(candidate.provides[1].version, Some(Version::parse("3.1.0")));
    assert_eq!(candidate.breaks.len(), 1);
    assert!(candidate.breaks[0].versions.matches(&Version::parse("1.9.0")));
    assert!(!candidate.breaks[0].versions.matches(&Version::parse("2.0.0")));
}

fn quilt_mod_with_id(id: &str) -> Vec<u8> {
    format!(r#"{{"schema_version":1,"quilt_loader":{{"id":"{id}","version":"1.0.0"}}}}"#).into_bytes()
}

#[test]
fn mod_id_length_is_counted_in_bytes() {
    let fits = format!("a{}", "é".repeat(31));
    let error = ModCandidate::parse(&quilt_mod_with_id(&fits)).unwrap_err();
    assert!(error.ends_with("may only contain lowercase letters, digits, '-', and '_'"), "{error}");
    let too_long = format!("a{}", "é".repeat(32));
    let error = ModCandidate::parse(&quilt_mod_with_id(&too_long)).unwrap_err();
    assert!(error.ends_with("must be between 2 and 64 characters"), "{error}");
    assert!(ModCandidate::parse(&quilt_mod_with_id(&"a".repeat(64))).is_ok());
    assert!(ModCandidate::parse(&quilt_mod_with_id(&"a".repeat(65))).is_err());
}
