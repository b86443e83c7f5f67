use fcos_cincinnati::graph::GraphScope;
use fcos_cincinnati::web::{validate_scope, ScopeError};

#[test]
fn test_validate_scope() {
    {
        let r = validate_scope(None, None, None, &None);
        assert!(r.is_err());
    }
    {
        let basearch = Some("test_empty".to_string());
        let stream = Some("".to_string());
        let oci = None;
        let r = validate_scope(basearch, stream, oci, &None);
        assert!(r.is_err());
    }
    {
        let basearch = Some("x86_64".to_string());
        let stream = Some("stable".to_string());
        let oci = Some(false);
        let r = validate_scope(basearch, stream, oci, &None);
        assert!(r.is_ok());
    }
    {
        let basearch = Some("x86_64".to_string());
        let stream = Some("stable".to_string());
        let filter_none_allowed = Some(Vec::new());
        let r = validate_scope(basearch, stream, None, &filter_none_allowed);
        assert!(r.is_err());
    }
    {
        let basearch = Some("x86_64".to_string());
        let stream = Some("stable".to_string());
        let allowed_scope = GraphScope {
            basearch: "x86_64".to_string(),
            stream: "stable".to_string(),
            oci: false,
        };
        let filter = Some(vec![allowed_scope]);
        let r = validate_scope(basearch, stream, None, &filter);
        assert!(r.is_ok());
    }
}

#[test]
fn validate_scope_reports_each_error() {
    let s = |v: &str| Some(v.to_string());
    assert_eq!(validate_scope(None, s("stable"), None, &None).unwrap_err(), ScopeError::MissingBasearch);
    assert_eq!(validate_scope(s(""), s("stable"), None, &None).unwrap_err(), ScopeError::EmptyBasearch);
    assert_eq!(validate_scope(s("x86_64"), None, None, &None).unwrap_err(), ScopeError::MissingStream);
    assert_eq!(validate_scope(s("x86_64"), s(""), None, &None).unwrap_err(), ScopeError::EmptyStream);
    let list = Some(vec![GraphScope {
        basearch: "x86_64".to_string(),
        stream: "stable".to_string(),
        oci: false,
    }]);
    assert_eq!(
        validate_scope(s("x86_64"), s("stable"), Some(true), &list).unwrap_err(),
        ScopeError::NotAllowed
    );
}

#[test]
fn validate_scope_keeps_fields_and_defaults_oci() {
    let r = validate_scope(Some("aarch64".to_string()), Some("next".to_string()), None, &None).unwrap();
    assert_eq!(r.basearch, "aarch64");
    assert_eq!(r.stream, "next");
    assert!(!r.oci);
    let r = validate_scope(Some("aarch64".to_string()), Some("next".to_string()), Some(true), &None).unwrap();
    assert!(r.oci);
}
