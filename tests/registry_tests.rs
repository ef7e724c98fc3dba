use ext_server::metadata::MetadataHandler;
use ext_server::types::{ExtensionIdentifier, BAD_REQUEST};

fn id(group: &str, name: &str) -> ExtensionIdentifier {
    ExtensionIdentifier { group: group.to_string(), name: name.to_string() }
}

#[test]
fn downloads_count_from_zero() {
    let mut m = MetadataHandler::new();
    let fish = id("com.example", "fishmonger");
    assert_eq!(m.get_managed_metadata(&fish).0, 0);
    for _ in 0..7 {
        m.increment_download(&fish);
    }
    assert_eq!(m.get_managed_metadata(&fish).0, 7);
    assert_eq!(m.get_managed_metadata(&id("com.example", "other")).0, 0);
}

#[test]
fn downloads_alone_do_not_count_as_extensions() {
    let mut m = MetadataHandler::new();
    m.increment_download(&id("g", "n"));
    assert_eq!(m.extension_count(), 0);
}

#[test]
fn versions_append_and_latest_per_channel() {
    let mut m = MetadataHandler::new();
    let e = id("com.example", "fishmonger");
    m.new_version(&e, "1.0".to_string()).ok().unwrap();
    m.new_version(&e, "2.0-beta".to_string()).ok().unwrap();
    m.new_version(&e, "0.9".to_string()).ok().unwrap();
    m.new_version(&e, "3.0-RC".to_string()).ok().unwrap();
    m.new_version(&e, "0.9".to_string()).ok().unwrap();
    let (downloads, latest, versions) = m.get_managed_metadata(&e);
    assert_eq!(downloads, 0);
    assert_eq!(versions, vec!["1.0", "2.0-beta", "0.9", "3.0-RC", "0.9"]);
    assert_eq!(latest.release.as_deref(), Some("0.9"));
    assert_eq!(latest.beta.as_deref(), Some("2.0-beta"));
    assert_eq!(latest.rc.as_deref(), Some("3.0-RC"));
    assert_eq!(m.extension_count(), 1);
}

#[test]
fn invalid_version_changes_nothing() {
    let mut m = MetadataHandler::new();
    let e = id("g", "n");
    let err = m.new_version(&e, "1.0-alpha".to_string()).err().unwrap();
    assert_eq!(err.status, BAD_REQUEST);
    let (_, latest, versions) = m.get_managed_metadata(&e);
    assert!(versions.is_empty());
    assert!(latest.release.is_none() && latest.beta.is_none() && latest.rc.is_none());
    assert_eq!(m.extension_count(), 0);
}

#[test]
fn missing_extension_has_empty_summary() {
    let m = MetadataHandler::new();
    let (downloads, latest, versions) = m.get_managed_metadata(&id("no", "such"));
    assert_eq!(downloads, 0);
    assert!(latest.release.is_none() && latest.beta.is_none() && latest.rc.is_none());
    assert!(versions.is_empty());
}

#[test]
fn extension_count_counts_distinct_identifiers() {
    let mut m = MetadataHandler::new();
    m.new_version(&id("a", "x"), "1".to_string()).ok().unwrap();
    m.new_version(&id("a", "x"), "2".to_string()).ok().unwrap();
    m.new_version(&id("a", "y"), "1".to_string()).ok().unwrap();
    m.new_version(&id("b", "x"), "1-beta".to_string()).ok().unwrap();
    assert_eq!(m.extension_count(), 3);
}

#[test]
fn parts_round_trip() {
    let mut m = MetadataHandler::new();
    let e = id("com.example", "fishmonger");
    m.new_version(&e, "1.0".to_string()).ok().unwrap();
    m.increment_download(&e);
    m.increment_download(&id("x", "y"));
    let (d, l, v) = m.to_parts();
    assert_eq!(d.len(), 2);
    assert_eq!(v, vec![("com.example:fishmonger".to_string(), vec!["1.0".to_string()])]);
    let back = MetadataHandler::from_parts(&d, &l, &v);
    let (downloads, latest, versions) = back.get_managed_metadata(&e);
    assert_eq!(downloads, 1);
    assert_eq!(latest.release.as_deref(), Some("1.0"));
    assert_eq!(versions, vec!["1.0"]);
    assert_eq!(back.extension_count(), 1);
}

#[test]
fn from_parts_later_pair_wins() {
    let d = vec![("g:n".to_string(), 3u32), ("g:n".to_string(), 5u32)];
    let m = MetadataHandler::from_parts(&d, &Vec::new(), &Vec::new());
    assert_eq!(m.get_managed_metadata(&id("g", "n")).0, 5);
}

fn segments(path: &str) -> Vec<String> {
    path.split('/').map(|s| s.to_string()).collect()
}

#[test]
fn managed_metadata_for_a_path() {
    let mut m = MetadataHandler::new();
    let e = id("com.example", "testing");
    m.new_version(&e, "1.0".to_string()).ok().unwrap();
    m.new_version(&e, "1.1-beta".to_string()).ok().unwrap();
    m.increment_download(&e);
    let summary = m.managed_metadata(&segments("com/example/testing")).ok().unwrap();
    assert_eq!(summary.downloads, 1);
    assert_eq!(summary.latest.release.as_deref(), Some("1.0"));
    assert_eq!(summary.versions.len(), 2);
    assert_eq!(summary.versions[0].version, "1.0");
    assert_eq!(summary.versions[0].release_type, ext_server::types::VersionType::Release);
    assert_eq!(summary.versions[0].metadata_path, "/registry/com/example/testing/testing-1.0-metadata.json");
    assert_eq!(summary.versions[1].release_type, ext_server::types::VersionType::Beta);
    assert_eq!(
        summary.versions[1].metadata_path,
        "/registry/com/example/testing/testing-1.1-beta-metadata.json"
    );
}

#[test]
fn managed_metadata_of_unknown_path_is_empty() {
    let m = MetadataHandler::new();
    let summary = m.managed_metadata(&segments("com/example/testing")).ok().unwrap();
    assert_eq!(summary.downloads, 0);
    assert!(summary.versions.is_empty());
}

#[test]
fn managed_metadata_refuses_empty_path() {
    let m = MetadataHandler::new();
    assert_eq!(m.managed_metadata(&Vec::new()).err().unwrap().status, BAD_REQUEST);
}

#[test]
fn managed_metadata_refuses_unclassifiable_history() {
    let v = vec![("g:n".to_string(), vec!["1.0".to_string(), "2.0-alpha".to_string()])];
    let m = MetadataHandler::from_parts(&Vec::new(), &Vec::new(), &v);
    assert_eq!(m.managed_metadata(&segments("g/n")).err().unwrap().status, BAD_REQUEST);
}

#[test]
fn join_strings_with_separator() {
    let parts = segments("a/b/c");
    assert_eq!(ext_server::metadata::join_strings(&parts, 3, '.'), "a.b.c");
    assert_eq!(ext_server::metadata::join_strings(&parts, 1, '.'), "a");
    assert_eq!(ext_server::metadata::join_strings(&parts, 0, '.'), "");
}
