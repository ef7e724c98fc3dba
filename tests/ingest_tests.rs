use std::io::{Cursor, Write};

use ext_server::ingest::{
    locate_parts, open_bundle, prepare_bundle, register_bundle, split_on_dots, storage_path,
    stored_file_name, validate_bundle, RawBundle,
};
use ext_server::metadata::MetadataHandler;
use ext_server::search::SearchHandler;
use ext_server::token::WordTokenizer;
use ext_server::types::{
    ExtensionBundle, ExtensionIdentifier, ExtensionMetadata, ExtensionRuntimeModel, BAD_REQUEST,
    INTERNAL_SERVER_ERROR,
};
use tokenizers::models::wordpiece::WordPiece;
use tokenizers::pre_tokenizers::bert::BertPreTokenizer;
use tokenizers::Tokenizer;
use zip::write::SimpleFileOptions;
use zip::ZipWriter;

const DESCRIPTOR: &str = r#"{"apiVersion":0,"groupId":"com.example","name":"fishmonger","version":"1.0","repositories":[],"parents":[],"partitions":[]}"#;
const METADATA: &str = r#"{"name":"Fish Monger","developers":["Durgan McBroom"],"icon":null,"description":"mongers fish","tags":[],"app":"test"}"#;

fn archive(entries: &[(&str, &[u8])]) -> Vec<u8> {
    let mut zip = ZipWriter::new(Cursor::new(Vec::new()));
    for (name, content) in entries {
        zip.start_file(name.to_string(), SimpleFileOptions::default()).unwrap();
        zip.write_all(content).unwrap();
    }
    zip.finish().unwrap().into_inner()
}

fn model() -> Tokenizer {
    let vocab: [(String, u32); 6] = [
        ("[UNK]".to_string(), 0),
        ("fish".to_string(), 1),
        ("monger".to_string(), 2),
        ("##s".to_string(), 3),
        ("##monger".to_string(), 4),
        ("dog".to_string(), 5),
    ];
    let wp = WordPiece::builder().vocab(vocab).unk_token("[UNK]".to_string()).build().unwrap();
    let mut t = Tokenizer::new(wp);
    t.with_pre_tokenizer(Some(BertPreTokenizer));
    t
}

fn text(v: &serde_json::Value, key: &str) -> String {
    v.get(key).and_then(|x| x.as_str()).unwrap_or("").to_string()
}

fn bundle_from(raw: RawBundle) -> ExtensionBundle {
    let d: serde_json::Value = serde_json::from_slice(&raw.descriptor).unwrap();
    let m: serde_json::Value = serde_json::from_slice(&raw.metadata).unwrap();
    ExtensionBundle {
        runtime_model: ExtensionRuntimeModel {
            api_version: 0,
            group_id: text(&d, "groupId"),
            name: text(&d, "name"),
            version: text(&d, "version"),
            repositories: vec![],
            parents: vec![],
            partitions: vec![],
        },
        metadata: ExtensionMetadata {
            name: text(&m, "name"),
            developers: vec![],
            icon: None,
            description: text(&m, "description"),
            tags: vec![],
            app: text(&m, "app"),
        },
        files: raw.files,
    }
}

#[test]
fn upload_end_to_end() {
    let bytes = archive(&[
        ("erm.json", DESCRIPTOR.as_bytes()),
        ("metadata.json", METADATA.as_bytes()),
        ("test1.jar", b"Hey this isnt a jar, but its close enough"),
        (".hidden", b"x"),
    ]);
    let raw = open_bundle(bytes).ok().unwrap();
    assert_eq!(raw.descriptor, DESCRIPTOR.as_bytes());
    assert_eq!(raw.files.len(), 4);
    let bundle = bundle_from(raw);
    let plan = prepare_bundle(&bundle).ok().unwrap();
    assert_eq!(plan.directory, vec!["static", "com", "example", "fishmonger", "1.0"]);
    assert_eq!(
        plan.file_names,
        vec![
            "fishmonger-1.0-erm.json",
            "fishmonger-1.0-metadata.json",
            "fishmonger-1.0-test1.jar",
            "fishmonger-1.0.hidden"
        ]
    );
    let mut registry = MetadataHandler::new();
    let mut search: SearchHandler<ExtensionIdentifier> = SearchHandler::new(WordTokenizer::new(model()).ok().unwrap());
    register_bundle(&mut registry, &mut search, &bundle).ok().unwrap();
    let id = ExtensionIdentifier { group: "com.example".to_string(), name: "fishmonger".to_string() };
    let (_, latest, versions) = registry.get_managed_metadata(&id);
    assert!(versions.contains(&"1.0".to_string()));
    assert_eq!(latest.release.as_deref(), Some("1.0"));
    assert!(latest.beta.is_none() && latest.rc.is_none());
    let found = search.search("fish").ok().unwrap();
    assert!(found == vec![id]);
}

#[test]
fn name_outranks_description() {
    let mut registry = MetadataHandler::new();
    let mut search: SearchHandler<ExtensionIdentifier> = SearchHandler::new(WordTokenizer::new(model()).ok().unwrap());
    let mut a = bundle_from(open_bundle(archive(&[
        ("erm.json", DESCRIPTOR.as_bytes()),
        ("metadata.json", METADATA.as_bytes()),
    ])).ok().unwrap());
    a.metadata.name = "dog".to_string();
    a.metadata.description = "fish".to_string();
    let mut b = bundle_from(open_bundle(archive(&[
        ("erm.json", DESCRIPTOR.as_bytes()),
        ("metadata.json", METADATA.as_bytes()),
    ])).ok().unwrap());
    b.runtime_model.name = "other".to_string();
    b.metadata.name = "fish".to_string();
    b.metadata.description = "dog".to_string();
    register_bundle(&mut registry, &mut search, &a).ok().unwrap();
    register_bundle(&mut registry, &mut search, &b).ok().unwrap();
    let found = search.search("fish").ok().unwrap();
    assert_eq!(found.len(), 2);
    assert_eq!(found[0].name, "other");
    assert_eq!(found[1].name, "fishmonger");
    assert_eq!(registry.extension_count(), 2);
}

#[test]
fn missing_descriptor_is_refused() {
    let bytes = archive(&[("metadata.json", METADATA.as_bytes()), ("a.jar", b"x")]);
    let err = open_bundle(bytes).err().unwrap();
    assert_eq!(err.status, BAD_REQUEST);
    assert_eq!(err.error_message, "Invalid extension bundle");
    assert_eq!(err.details.as_deref(), Some("No erm.json present in the bundle."));
}

#[test]
fn missing_metadata_is_refused() {
    let bytes = archive(&[("erm.json", DESCRIPTOR.as_bytes())]);
    let err = open_bundle(bytes).err().unwrap();
    assert_eq!(err.status, BAD_REQUEST);
    assert_eq!(err.error_message, "Invalid extension bundle");
    assert_eq!(err.details.as_deref(), Some("No metadata.json present in the bundle."));
}

#[test]
fn bytes_that_are_no_archive_fail_inside() {
    let err = open_bundle(b"not a zip".to_vec()).err().unwrap();
    assert_eq!(err.status, INTERNAL_SERVER_ERROR);
}

#[test]
fn invalid_version_is_refused_before_writing() {
    let mut bundle = bundle_from(open_bundle(archive(&[
        ("erm.json", DESCRIPTOR.as_bytes()),
        ("metadata.json", METADATA.as_bytes()),
    ])).ok().unwrap());
    bundle.runtime_model.version = "1.0-nightly".to_string();
    let err = prepare_bundle(&bundle).err().unwrap();
    assert_eq!(err.status, BAD_REQUEST);
    assert_eq!(err.error_message, "Invalid extension version");
    let mut registry = MetadataHandler::new();
    let mut search: SearchHandler<ExtensionIdentifier> = SearchHandler::new(WordTokenizer::new(model()).ok().unwrap());
    assert!(register_bundle(&mut registry, &mut search, &bundle).is_err());
    assert_eq!(registry.extension_count(), 0);
    assert!(search.search("fish").ok().unwrap().is_empty());
}

#[test]
fn group_splits_on_dots() {
    assert_eq!(split_on_dots("com.example.tools"), vec!["com", "example", "tools"]);
    assert_eq!(split_on_dots("single"), vec!["single"]);
    assert_eq!(split_on_dots("a..b."), vec!["a", "", "b", ""]);
    assert_eq!(split_on_dots(""), vec![""]);
}

#[test]
fn storage_path_segments() {
    let model = ExtensionRuntimeModel {
        api_version: 1,
        group_id: "org.x".to_string(),
        name: "tool".to_string(),
        version: "2.0-rc".to_string(),
        repositories: vec![],
        parents: vec![],
        partitions: vec![],
    };
    assert_eq!(storage_path(&model), vec!["static", "org", "x", "tool", "2.0-rc"]);
}

#[test]
fn stored_names_prefix_entries() {
    assert_eq!(stored_file_name("fish", "1.0", "erm.json"), "fish-1.0-erm.json");
    assert_eq!(stored_file_name("fish", "1.0", ".sig"), "fish-1.0.sig");
    assert_eq!(stored_file_name("fish", "1.0", ""), "fish-1.0-");
}

#[test]
fn validate_bundle_checks_the_version() {
    let mut bundle = bundle_from(open_bundle(archive(&[
        ("erm.json", DESCRIPTOR.as_bytes()),
        ("metadata.json", METADATA.as_bytes()),
    ])).ok().unwrap());
    assert!(validate_bundle(&bundle).is_ok());
    bundle.runtime_model.version = "1.0-Beta".to_string();
    assert!(validate_bundle(&bundle).is_ok());
    bundle.runtime_model.version = "1.0-gamma".to_string();
    assert_eq!(validate_bundle(&bundle).err().unwrap().status, BAD_REQUEST);
}

#[test]
fn locate_parts_takes_the_first_of_repeated_names() {
    let entries = vec![
        ("metadata.json".to_string(), b"m1".to_vec()),
        ("erm.json".to_string(), b"d1".to_vec()),
        ("erm.json".to_string(), b"d2".to_vec()),
    ];
    let raw = locate_parts(entries).ok().unwrap();
    assert_eq!(raw.descriptor, b"d1".to_vec());
    assert_eq!(raw.metadata, b"m1".to_vec());
    assert_eq!(raw.files[2], (b"d2".to_vec(), "erm.json".to_string()));
}
