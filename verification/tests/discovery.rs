use std::io::{Cursor, Write};

use patchquilt::discovery::{jar_names, read_jar_metadata, DiscoveredMod};
use patchquilt::plan::plan_mods;
use patchquilt::resolve::default_builtins;

fn jar(entry_name: &str, contents: &[u8]) -> Vec<u8> {
    let mut writer = zip::ZipWriter::new(Cursor::new(Vec::new()));
    writer
        .start_file(entry_name, zip::write::SimpleFileOptions::default())
        .expect("start entry");
    writer.write_all(contents).expect("write entry");
    writer.finish().expect("finish jar").into_inner()
}

#[test]
fn discovers_quilt_and_fabric_jars_and_reports_bad_ones() {
    let quilt = jar(
        "quilt.mod.json",
        br#"{"schema_version":1,"quilt_loader":{"id":"quilt_mod","version":"1.0.0"}}"#,
    );
    let fabric = jar(
        "fabric.mod.json",
        br#"{"schemaVersion":1,"id":"fabric_mod","version":"2.0.0"}"#,
    );
    let empty = jar("README.txt", b"nothing here");
    let names = jar_names(vec![
        "c-empty.jar".to_string(),
        "notes.txt".to_string(),
        "a-quilt.jar".to_string(),
        "b-fabric.jar".to_string(),
    ]);
    assert_eq!(names, vec!["a-quilt.jar", "b-fabric.jar", "c-empty.jar"]);
    let discovered: Vec<DiscoveredMod> = names
        .iter()
        .zip([quilt, fabric, empty])
        .map(|(name, bytes)| DiscoveredMod {
            path: format!("mixed/{name}"),
            result: read_jar_metadata(&format!("mixed/{name}"), &bytes),
        })
        .collect();
    assert_eq!(discovered.len(), 3);
    assert_eq!(
        discovered[0].result.as_ref().map(|candidate| candidate.id.clone()),
        Ok("quilt_mod".to_owned())
    );
    assert_eq!(
        discovered[1].result.as_ref().map(|candidate| candidate.id.clone()),
        Ok("fabric_mod".to_owned())
    );
    assert!(discovered[2].result.is_err());
}

#[test]
fn jar_without_metadata_names_both_files() {
    let error = read_jar_metadata("mods/c-empty.jar", &jar("README.txt", b"nothing here")).unwrap_err();
    assert_eq!(error, "mods/c-empty.jar contains no quilt.mod.json or fabric.mod.json");
}

#[test]
fn bytes_that_are_not_a_zip_are_not_a_valid_jar() {
    let error = read_jar_metadata("mods/broken.jar", b"definitely not a zip").unwrap_err();
    assert!(error.starts_with("mods/broken.jar is not a valid jar: "), "{error}");
}

#[test]
fn bad_metadata_is_prefixed_with_the_path() {
    let error = read_jar_metadata("mods/bad.jar", &jar("quilt.mod.json", b"{oops")).unwrap_err();
    assert!(error.starts_with("mods/bad.jar: invalid JSON: "), "{error}");
}

#[test]
fn quilt_metadata_wins_over_fabric() {
    let mut writer = zip::ZipWriter::new(Cursor::new(Vec::new()));
    writer
        .start_file("fabric.mod.json", zip::write::SimpleFileOptions::default())
        .expect("start entry");
    writer
        .write_all(br#"{"schemaVersion":1,"id":"from_fabric","version":"1.0.0"}"#)
        .expect("write entry");
    writer
        .start_file("quilt.mod.json", zip::write::SimpleFileOptions::default())
        .expect("start entry");
    writer
        .write_all(br#"{"schema_version":1,"quilt_loader":{"id":"from_quilt","version":"1.0.0"}}"#)
        .expect("write entry");
    let bytes = writer.finish().expect("finish jar").into_inner();
    let candidate = read_jar_metadata("both.jar", &bytes).expect("valid metadata");
    assert_eq!(candidate.id, "from_quilt");
}

#[test]
fn jar_extension_follows_path_rules() {
    let names = jar_names(vec![
        ".jar".to_string(),
        "x.JAR".to_string(),
        "z.jar".to_string(),
        "a.b.jar".to_string(),
        "jar".to_string(),
        "y.jar.bak".to_string(),
        "..".to_string(),
    ]);
    assert_eq!(names, vec!["a.b.jar", "z.jar"]);
}

#[test]
fn plans_a_directory_end_to_end() {
    let lifecycle = jar(
        "quilt.mod.json",
        br#"{
            "schema_version": 1,
            "quilt_loader": {
                "id": "lifecycle_test",
                "version": "1.0.0",
                "depends": [
                    { "id": "quilt_loader", "versions": ">=0.30.0" },
                    { "id": "minecraft", "versions": "26.2" }
                ]
            }
        }"#,
    );
    let broken = jar("note.txt", b"not a mod");
    let dir = "patchquilt-plan-end-to-end";
    let discovered: Vec<DiscoveredMod> = jar_names(vec!["lifecycle.jar".into(), "broken.jar".into()])
        .into_iter()
        .map(|name| {
            let bytes = if name == "lifecycle.jar" { &lifecycle } else { &broken };
            let path = format!("{dir}/{name}");
            let result = read_jar_metadata(&path, bytes);
            DiscoveredMod { path, result }
        })
        .collect();

    let plan = plan_mods(Ok(discovered), &default_builtins()).expect("planning succeeds");
    assert_eq!(plan.resolution.loaded.len(), 1);
    assert_eq!(plan.malformed.len(), 1);
    assert!(!plan.is_ok());
    assert!(plan.problems().iter().any(|line| line.contains("broken.jar")));
}

#[test]
fn plan_passes_on_a_directory_error() {
    let result = plan_mods(Err("failed to read mods directory x".to_string()), &default_builtins());
    assert_eq!(result.err(), Some("failed to read mods directory x".to_string()));
}

#[test]
fn problems_list_malformed_jars_before_resolution_errors() {
    let needs = jar(
        "quilt.mod.json",
        br#"{"schema_version":1,"quilt_loader":{"id":"needs_owo","version":"1.0.0",
            "depends":[{"id":"owo_lib"}]}}"#,
    );
    let discovered = vec![
        DiscoveredMod { path: "m/a.jar".into(), result: read_jar_metadata("m/a.jar", &needs) },
        DiscoveredMod { path: "m/b.jar".into(), result: Err("boom".into()) },
    ];
    let plan = plan_mods(Ok(discovered), &default_builtins()).expect("planning succeeds");
    assert_eq!(
        plan.problems(),
        vec![
            "m/b.jar: boom".to_string(),
            "'needs_owo' requires 'owo_lib', which is not installed".to_string(),
        ]
    );
    assert!(plan.resolution.loaded.is_empty());
}

#[test]
fn a_clean_plan_is_ok() {
    let plan = plan_mods(Ok(Vec::new()), &default_builtins()).expect("planning succeeds");
    assert!(plan.is_ok());
    assert!(plan.problems().is_empty());
}

fn stored_jar(entry_name: &str, contents: &[u8]) -> Vec<u8> {
    let mut writer = zip::ZipWriter::new(Cursor::new(Vec::new()));
    let options = zip::write::SimpleFileOptions::default()
        .compression_method(zip::CompressionMethod::Stored);
    writer.start_file(entry_name, options).expect("start entry");
    writer.write_all(contents).expect("write entry");
    writer.finish().expect("finish jar").into_inner()
}

fn position_of(haystack: &[u8], needle: &[u8]) -> usize {
    haystack
        .windows(needle.len())
        .position(|window| window == needle)
        .expect("present")
}

#[test]
fn corrupted_entry_cannot_be_read() {
    let contents = br#"{"schema_version":1,"quilt_loader":{"id":"quilt_mod","version":"1.0.0"}}"#;
    let mut bytes = stored_jar("quilt.mod.json", contents);
    let at = position_of(&bytes, b"quilt_mod\"");
    bytes[at] = b'Q';
    let error = read_jar_metadata("mods/crc.jar", &bytes).unwrap_err();
    assert!(error.starts_with("failed to read quilt.mod.json: "), "{error}");
}

#[test]
fn encrypted_entry_cannot_be_opened() {
    let mut bytes = stored_jar("quilt.mod.json", b"{}");
    // Mark the entry as encrypted in the central directory.
    let central = position_of(&bytes, &[0x50, 0x4b, 0x01, 0x02]);
    bytes[central + 8] |= 1;
    let error = read_jar_metadata("mods/locked.jar", &bytes).unwrap_err();
    assert!(error.starts_with("failed to open quilt.mod.json: "), "{error}");
}
