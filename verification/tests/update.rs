use archive_engine::update::{check_document, is_newer, parse, release_from_document, release_update};

#[test]
fn parses_with_and_without_prefix() {
    assert_eq!(parse("v1.2.3"), (1, 2, 3));
    assert_eq!(parse("0.3.0"), (0, 3, 0));
    assert_eq!(parse("v2.0.0-beta.1"), (2, 0, 0));
    assert_eq!(parse("garbage"), (0, 0, 0));
}

#[test]
fn compares_versions() {
    assert!(is_newer("0.3.1", "0.3.0"));
    assert!(is_newer("v1.0.0", "0.9.9"));
    assert!(is_newer("0.4.0", "0.3.9"));
    assert!(!is_newer("0.3.0", "0.3.0"));
    assert!(!is_newer("0.2.9", "0.3.0"));
}

#[test]
fn parse_edge_cases() {
    assert_eq!(parse("  V1.2  "), (1, 2, 0));
    assert_eq!(parse("vv3.4.5"), (3, 4, 5));
    assert_eq!(parse("1.2rc3.9"), (1, 2, 9));
    assert_eq!(parse("99999999999999999999.1.1"), (0, 1, 1));
    assert_eq!(parse("18446744073709551615.0.1"), (u64::MAX, 0, 1));
    assert_eq!(parse(""), (0, 0, 0));
    assert_eq!(parse("1+2-3"), (1, 2, 3));
}

#[test]
fn release_update_offers_only_newer_tags() {
    let info = release_update("v0.4.0", "https://example.org/r", "0.3.9").unwrap();
    assert_eq!(info.version, "0.4.0");
    assert_eq!(info.url, "https://example.org/r");
    assert!(release_update("v0.3.9", "u", "0.3.9").is_none());
    assert!(release_update("", "u", "0.0.0").is_none());
}

#[test]
fn a_release_document_offers_a_newer_tag() {
    let doc = Ok((Some("v0.4.0".to_string()), Some("https://example.invalid/r".to_string())));
    match release_from_document(doc, "0.3.0") {
        Ok(Some(info)) => {
            assert_eq!(info.version, "0.4.0");
            assert_eq!(info.url, "https://example.invalid/r");
        }
        _ => panic!("expected an update"),
    }
    assert!(matches!(release_from_document(Ok((None, Some("u".to_string()))), "0.3.0"), Ok(None)));
    assert!(matches!(release_from_document(Ok((Some("0.2.0".to_string()), None)), "0.3.0"), Ok(None)));
    assert_eq!(release_from_document(Err("offline".to_string()), "0.3.0").err().as_deref(), Some("offline"));
}

#[test]
fn release_documents_are_read_as_json() {
    let body = r#"{"tag_name": "v1.2.0", "html_url": "https://example.invalid/v1.2.0", "draft": false}"#;
    match check_document(body, "0.3.0") {
        Ok(Some(info)) => {
            assert_eq!(info.version, "1.2.0");
            assert_eq!(info.url, "https://example.invalid/v1.2.0");
        }
        _ => panic!("expected an update"),
    }
    match check_document(r#"{"tag_name": "v9.0.0"}"#, "0.3.0") {
        Ok(Some(info)) => assert_eq!(info.url, ""),
        _ => panic!("expected an update without a page"),
    }
    assert!(matches!(check_document(r#"{"tag_name": "v0.3.0"}"#, "0.3.0"), Ok(None)));
    assert!(matches!(check_document(r#"{"tag_name": 7}"#, "0.3.0"), Ok(None)));
    assert!(matches!(check_document("[]", "0.3.0"), Ok(None)));
    assert!(check_document("not json", "0.3.0").is_err());
}
