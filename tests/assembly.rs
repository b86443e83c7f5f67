use fcos_cincinnati::graph::{CincinnatiPayload, Graph, GraphScope, Metadata};
use fcos_cincinnati::metadata::{
    Release, ReleaseCommit, ReleaseOciImage, ReleaseUpdate, UpdateBarrier, UpdateDeadend,
    UpdateMetadata, UpdateRollout, UpdatesJSON, AGE_INDEX, BARRIER, BARRIER_REASON, DEADEND,
    DEADEND_REASON, DURATION, ROLLOUT, START_EPOCH, START_VALUE,
};

fn release(version: &str, commits: &[(&str, &str)]) -> Release {
    Release {
        commits: commits
            .iter()
            .map(|(a, c)| ReleaseCommit { architecture: a.to_string(), checksum: c.to_string() })
            .collect(),
        oci_images: None,
        version: version.to_string(),
        metadata: String::new(),
    }
}

fn update(version: &str, barrier: bool, deadend: bool, rollout: Option<UpdateRollout>) -> ReleaseUpdate {
    ReleaseUpdate {
        version: version.to_string(),
        metadata: UpdateMetadata {
            barrier: if barrier { Some(UpdateBarrier { reason: String::new() }) } else { None },
            deadend: if deadend { Some(UpdateDeadend { reason: "broken".to_string() }) } else { None },
            rollout,
        },
    }
}

fn scope(oci: bool) -> GraphScope {
    GraphScope { basearch: "x86_64".to_string(), stream: "stable".to_string(), oci }
}

fn sorted(mut edges: Vec<(u64, u64)>) -> Vec<(u64, u64)> {
    edges.sort();
    edges
}

fn plain_rollout() -> Option<UpdateRollout> {
    Some(UpdateRollout { start_epoch: None, start_percentage: None, duration_minutes: None })
}

#[test]
fn empty_input_gives_empty_graph() {
    let updates = UpdatesJSON { stream: "s".to_string(), releases: vec![] };
    let g = Graph::from_metadata(&vec![], &updates, &scope(false));
    assert!(g.nodes.is_empty());
    assert!(g.edges.is_empty());
}

#[test]
fn barrier_before_rollout() {
    let releases: Vec<Release> = (0..5).map(|i| release(&format!("v{i}"), &[])).collect();
    let updates = UpdatesJSON {
        stream: "s".to_string(),
        releases: vec![update("v2", true, false, None), update("v4", false, false, plain_rollout())],
    };
    let g = Graph::from_metadata(&releases, &updates, &scope(false));
    assert_eq!(sorted(g.edges.clone()), vec![(0, 2), (1, 2), (2, 4), (3, 4)]);
    // Rollout edges come first, then barrier edges.
    assert_eq!(g.edges, vec![(2, 4), (3, 4), (0, 2), (1, 2)]);
}

#[test]
fn rollout_without_barrier_reaches_back_to_zero() {
    let releases: Vec<Release> = (0..4).map(|i| release(&format!("v{i}"), &[])).collect();
    let updates = UpdatesJSON {
        stream: "s".to_string(),
        releases: vec![update("v3", false, false, plain_rollout())],
    };
    let g = Graph::from_metadata(&releases, &updates, &scope(false));
    assert_eq!(g.edges, vec![(0, 3), (1, 3), (2, 3)]);
}

#[test]
fn barrier_that_is_a_rollout_is_not_doubled() {
    let releases: Vec<Release> = (0..4).map(|i| release(&format!("v{i}"), &[])).collect();
    let updates = UpdatesJSON {
        stream: "s".to_string(),
        releases: vec![update("v1", true, false, None), update("v3", true, false, plain_rollout())],
    };
    let g = Graph::from_metadata(&releases, &updates, &scope(false));
    assert_eq!(sorted(g.edges), vec![(0, 1), (1, 3), (2, 3)]);
}

#[test]
fn nodes_without_barrier_or_rollout_are_not_targets() {
    let releases: Vec<Release> = (0..3).map(|i| release(&format!("v{i}"), &[])).collect();
    let updates = UpdatesJSON { stream: "s".to_string(), releases: vec![] };
    let g = Graph::from_metadata(&releases, &updates, &scope(false));
    assert_eq!(g.nodes.len(), 3);
    assert!(g.edges.is_empty());
}

#[test]
fn age_index_is_position() {
    let releases: Vec<Release> = (0..12).map(|i| release(&format!("v{i}"), &[])).collect();
    let updates = UpdatesJSON { stream: "s".to_string(), releases: vec![] };
    let g = Graph::from_metadata(&releases, &updates, &scope(false));
    for (i, node) in g.nodes.iter().enumerate() {
        assert_eq!(node.metadata.get(AGE_INDEX).unwrap(), &i.to_string());
        assert_eq!(node.version, format!("v{i}"));
        assert_eq!(node.payload, "");
    }
}

#[test]
fn assembled_edges_go_forward() {
    let releases: Vec<Release> = (0..8).map(|i| release(&format!("v{i}"), &[])).collect();
    let updates = UpdatesJSON {
        stream: "s".to_string(),
        releases: vec![
            update("v2", true, false, None),
            update("v5", false, false, plain_rollout()),
            update("v6", true, false, None),
            update("v7", false, false, plain_rollout()),
        ],
    };
    let g = Graph::from_metadata(&releases, &updates, &scope(false));
    assert!(!g.edges.is_empty());
    for (f, t) in &g.edges {
        assert!(f < t && (*t as usize) < g.nodes.len());
    }
}

#[test]
fn architectures_come_from_commits_or_images() {
    let mut r = release("v0", &[("x86_64", "abc"), ("", "zzz"), ("aarch64", ""), ("s390x", "def")]);
    r.oci_images = Some(vec![ReleaseOciImage {
        architecture: "x86_64".to_string(),
        digest_ref: "quay.io/fcos@sha256:01".to_string(),
    }]);
    let updates = UpdatesJSON { stream: "s".to_string(), releases: vec![] };
    let g = Graph::from_metadata(&vec![r], &updates, &scope(false));
    let m = &g.nodes[0].metadata;
    let key = |a: &str| format!("org.fedoraproject.coreos.releases.arch.{a}");
    assert_eq!(m.get(&key("x86_64")).unwrap(), "abc");
    assert_eq!(m.get(&key("s390x")).unwrap(), "def");
    assert!(m.get(&key("aarch64")).is_none());
    assert!(!m.contains_key(&key("")));

    let mut r = release("v0", &[("x86_64", "abc")]);
    r.oci_images = Some(vec![ReleaseOciImage {
        architecture: "x86_64".to_string(),
        digest_ref: "quay.io/fcos@sha256:01".to_string(),
    }]);
    let g = Graph::from_metadata(&vec![r], &updates, &scope(true));
    assert_eq!(g.nodes[0].metadata.get(&key("x86_64")).unwrap(), "quay.io/fcos@sha256:01");
}

#[test]
fn update_metadata_is_recorded() {
    let releases = vec![release("v0", &[]), release("v1", &[])];
    let rollout = UpdateRollout {
        start_epoch: Some(-5),
        start_percentage: Some(250_000),
        duration_minutes: Some(2),
    };
    let updates = UpdatesJSON {
        stream: "s".to_string(),
        releases: vec![update("v0", true, true, None), update("v1", false, false, Some(rollout))],
    };
    let g = Graph::from_metadata(&releases, &updates, &scope(false));
    let m0 = &g.nodes[0].metadata;
    assert_eq!(m0.get(BARRIER).unwrap(), "true");
    assert_eq!(m0.get(BARRIER_REASON).unwrap(), "generic");
    assert_eq!(m0.get(DEADEND).unwrap(), "true");
    assert_eq!(m0.get(DEADEND_REASON).unwrap(), "broken");
    assert!(!m0.contains_key(ROLLOUT));
    let m1 = &g.nodes[1].metadata;
    assert_eq!(m1.get(ROLLOUT).unwrap(), "true");
    assert_eq!(m1.get(START_EPOCH).unwrap(), "-5");
    assert_eq!(m1.get(START_VALUE).unwrap(), "0.250000");
    assert_eq!(m1.get(DURATION).unwrap(), "2");
    assert!(!m1.contains_key(BARRIER));
}

#[test]
fn metadata_insert_replaces_and_prefix_removal() {
    let mut m = Metadata::new();
    m.insert("a.x".to_string(), "1".to_string());
    m.insert("b".to_string(), "2".to_string());
    m.insert("a.x".to_string(), "3".to_string());
    assert_eq!(m.get("a.x").unwrap(), "3");
    m.remove_prefixed("a.");
    assert!(m.get("a.x").is_none());
    assert_eq!(m.get("b").unwrap(), "2");
    let node = CincinnatiPayload { version: "v".to_string(), metadata: m, payload: String::new() };
    assert_eq!(node.metadata.entries().len(), 1);
}

#[test]
fn default_graph_is_empty() {
    let g = Graph::default();
    assert!(g.nodes.is_empty() && g.edges.is_empty());
}
