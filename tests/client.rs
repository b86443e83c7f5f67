use fcos_cincinnati::client::{
    client_digest, compute_wariness, counts_as_new, new_population, note_client, wariness_from_digest,
    GraphQuery,
};

fn query(wariness: Option<&str>, uuid: Option<&str>) -> GraphQuery {
    GraphQuery {
        basearch: Some("x86_64".to_string()),
        stream: Some("stable".to_string()),
        rollout_wariness: wariness.map(String::from),
        node_uuid: uuid.map(String::from),
        oci: None,
    }
}

#[test]
fn explicit_wariness_is_clamped() {
    assert_eq!(compute_wariness(&query(Some("0.4"), None)), 400_000);
    assert_eq!(compute_wariness(&query(Some("2"), None)), 1_000_000);
    assert_eq!(compute_wariness(&query(Some("-1"), None)), 0);
    assert_eq!(compute_wariness(&query(Some("0.1234567"), Some("abc"))), 123_456);
    assert_eq!(compute_wariness(&query(Some(".5"), None)), 500_000);
    assert_eq!(compute_wariness(&query(Some("4e-1"), Some("abc"))), 400_000);
    assert_eq!(compute_wariness(&query(Some("inf"), None)), 1_000_000);
    assert_eq!(compute_wariness(&query(Some("NaN"), Some("abc"))), 0);
}

#[test]
fn client_digest_and_novelty() {
    assert_eq!(client_digest(&query(None, None)), None);
    let a = client_digest(&query(None, Some("node-a"))).unwrap();
    assert_eq!(client_digest(&query(Some("0.3"), Some("node-a"))), Some(a));
    assert_ne!(client_digest(&query(None, Some("node-b"))), Some(a));
    assert!(counts_as_new(Some(a), false));
    assert!(!counts_as_new(Some(a), true));
    assert!(!counts_as_new(None, false));
}

#[test]
fn absent_uuid_gives_least_wariness() {
    assert_eq!(compute_wariness(&query(None, None)), 1);
    assert_eq!(compute_wariness(&query(Some("nope"), None)), 1);
}

#[test]
fn derived_wariness_is_stable_and_in_range() {
    let a = compute_wariness(&query(None, Some("7b3f0a1c-uuid")));
    let b = compute_wariness(&query(Some("not-a-number"), Some("7b3f0a1c-uuid")));
    assert_eq!(a, b);
    assert!((1..=1_000_000).contains(&a));
}

#[test]
fn digest_scaling() {
    assert_eq!(wariness_from_digest(0), 1);
    assert_eq!(wariness_from_digest(u64::MAX), 1_000_000);
    assert_eq!(wariness_from_digest(u64::MAX / 2), 499_999);
    assert_eq!(wariness_from_digest(u64::MAX / 4), 249_999);
}

#[test]
fn population_counts_each_uuid_once() {
    assert!(new_population(0, 10).is_none());
    assert!(new_population(1024, 0).is_none());
    let filter = new_population(1024 * 1024, 1000).unwrap();
    assert!(!note_client(&filter, &query(None, None)));
    assert!(note_client(&filter, &query(None, Some("node-a"))));
    assert!(!note_client(&filter, &query(None, Some("node-a"))));
}
