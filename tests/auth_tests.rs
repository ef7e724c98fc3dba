use ext_server::auth::{authorize, bearer_token, counts_as_download, Authorizer, BasicAuth, CORS};

#[test]
fn bearer_token_strips_the_scheme() {
    assert_eq!(bearer_token("Bearer nothing").as_deref(), Some("nothing"));
    assert_eq!(bearer_token("Bearer ").as_deref(), Some(""));
    assert_eq!(bearer_token("bearer nothing"), None);
    assert_eq!(bearer_token("Basic abc"), None);
    assert_eq!(bearer_token("Bear"), None);
}

#[test]
fn basic_auth_accepts_only_its_token() {
    let auth = BasicAuth::new("secret".to_string());
    assert!(auth.is_authorized("secret"));
    assert!(!auth.is_authorized("secre"));
    assert!(!auth.is_authorized("secret2"));
    assert!(!auth.is_authorized(""));
}

#[test]
fn authorize_needs_header_scheme_and_token() {
    let auth = BasicAuth::new("secret".to_string());
    assert!(authorize(Some("Bearer secret"), &auth));
    assert!(!authorize(Some("Bearer wrong"), &auth));
    assert!(!authorize(Some("secret"), &auth));
    assert!(!authorize(None, &auth));
}

#[test]
fn descriptor_files_count_as_downloads() {
    assert!(counts_as_download("static/com/example/fishmonger/1.0/fishmonger-1.0-erm.json"));
    assert!(counts_as_download("erm.json"));
    assert!(!counts_as_download("static/x/fishmonger-1.0-metadata.json"));
    assert!(!counts_as_download("rm.json"));
}

#[test]
fn cors_headers() {
    let h = CORS::headers();
    assert_eq!(h.len(), 3);
    assert_eq!(h[0], ("Access-Control-Allow-Origin".to_string(), "*".to_string()));
    assert_eq!(h[1].1, "GET, POST, PUT, DELETE, OPTIONS");
    assert_eq!(h[2].1, "Content-Type, Authorization");
}
