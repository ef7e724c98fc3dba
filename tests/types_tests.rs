use ext_server::types::{
    ExtensionDescriptor, ExtensionIdentifier, ExtensionParent, HandlerError, LatestVersion,
    VersionType, BAD_REQUEST, INTERNAL_SERVER_ERROR,
};

#[test]
fn classify_without_suffix_is_release() {
    assert_eq!(VersionType::classify("1.0").ok(), Some(VersionType::Release));
    assert_eq!(VersionType::classify("").ok(), Some(VersionType::Release));
    assert_eq!(VersionType::classify("2.3.4").ok(), Some(VersionType::Release));
}

#[test]
fn classify_beta_any_case() {
    assert_eq!(VersionType::classify("1.0-beta").ok(), Some(VersionType::Beta));
    assert_eq!(VersionType::classify("1.0-BETA").ok(), Some(VersionType::Beta));
    assert_eq!(VersionType::classify("1.0-BeTa").ok(), Some(VersionType::Beta));
}

#[test]
fn classify_rc_any_case() {
    assert_eq!(VersionType::classify("1.0-rc").ok(), Some(VersionType::ReleaseCandidate));
    assert_eq!(VersionType::classify("1.0-RC").ok(), Some(VersionType::ReleaseCandidate));
}

#[test]
fn classify_uses_the_last_dash() {
    assert_eq!(VersionType::classify("1.0-x-beta").ok(), Some(VersionType::Beta));
    assert!(VersionType::classify("1.0-beta-x").is_err());
}

#[test]
fn classify_refuses_other_suffixes() {
    for v in ["1.0-alpha", "1.0-", "1.0-betas", "1.0-r", "-"] {
        match VersionType::classify(v) {
            Err(e) => {
                assert_eq!(e.status, BAD_REQUEST);
                assert_eq!(e.error_message, "Invalid extension version");
            }
            Ok(_) => panic!("{} was accepted", v),
        }
    }
}

#[test]
fn suffix_names_the_channel() {
    assert_eq!(VersionType::Release.suffix(), "");
    assert_eq!(VersionType::Beta.suffix(), "beta");
    assert_eq!(VersionType::ReleaseCandidate.suffix(), "rc");
}

#[test]
fn identifier_key_joins_group_and_name() {
    let id = ExtensionIdentifier { group: "com.example".to_string(), name: "fishmonger".to_string() };
    assert_eq!(id.as_key(), "com.example:fishmonger");
}

#[test]
fn identifiers_compare_by_fields() {
    let a = ExtensionIdentifier { group: "g".to_string(), name: "n".to_string() };
    let b = ExtensionIdentifier { group: "g".to_string(), name: "n".to_string() };
    let c = ExtensionIdentifier { group: "g".to_string(), name: "m".to_string() };
    assert!(a == b);
    assert!(a != c);
}

#[test]
fn parse_descriptor_reads_three_parts() {
    let d = ExtensionDescriptor::parse_descriptor("com.example:fishmonger:1.0");
    assert_eq!(d.group, "com.example");
    assert_eq!(d.extension, "fishmonger");
    assert_eq!(d.version, "1.0");
    let e = ExtensionDescriptor::parse_descriptor("a::c:d");
    assert_eq!(e.group, "a");
    assert_eq!(e.extension, "");
    assert_eq!(e.version, "c");
}

#[test]
fn parent_to_descriptor_copies_fields() {
    let p = ExtensionParent {
        group: "g".to_string(),
        extension: "e".to_string(),
        version: "1.2".to_string(),
    };
    let d = p.to_descriptor();
    assert_eq!((d.group.as_str(), d.extension.as_str(), d.version.as_str()), ("g", "e", "1.2"));
}

#[test]
fn latest_version_default_is_empty() {
    let l = LatestVersion::default();
    assert!(l.release.is_none() && l.beta.is_none() && l.rc.is_none());
}

#[test]
fn handler_errors_carry_status() {
    let e = HandlerError::new("m".to_string(), None, 404);
    assert_eq!(e.status, 404);
    let s = HandlerError::server_error("boom".to_string(), Some("d".to_string()));
    assert_eq!(s.status, INTERNAL_SERVER_ERROR);
    assert_eq!(s.details.as_deref(), Some("d"));
}
