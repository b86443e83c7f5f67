use fcos_cincinnati::graph::{CincinnatiPayload, Graph, Metadata};
use fcos_cincinnati::metadata::{DEADEND, DURATION, ROLLOUT, SCHEME, START_EPOCH, START_VALUE};
use fcos_cincinnati::policy::{
    apply_policy, filter_deadends, pick_basearch, throttle_rollouts, throttle_rollouts_at,
};

fn node(pairs: &[(&str, &str)]) -> CincinnatiPayload {
    let mut metadata = Metadata::new();
    for (k, v) in pairs {
        metadata.insert(k.to_string(), v.to_string());
    }
    CincinnatiPayload { version: "v".to_string(), metadata, payload: String::new() }
}

fn graph(nodes: Vec<CincinnatiPayload>, edges: Vec<(u64, u64)>) -> Graph {
    Graph { nodes, edges }
}

fn now_secs() -> i64 {
    std::time::SystemTime::now()
        .duration_since(std::time::UNIX_EPOCH)
        .unwrap()
        .as_secs() as i64
}

fn ramp_graph(start: i64) -> Graph {
    let start = start.to_string();
    let target = node(&[
        (ROLLOUT, "true"),
        (START_EPOCH, &start),
        (DURATION, "2"),
        (START_VALUE, "0.0"),
    ]);
    graph(vec![node(&[]), target], vec![(0, 1)])
}

#[test]
fn dead_end_pruning() {
    let nodes = vec![node(&[]), node(&[(DEADEND, "true")]), node(&[]), node(&[])];
    let g = filter_deadends(graph(nodes, vec![(0, 1), (1, 2), (2, 3)]));
    assert_eq!(g.edges, vec![(0, 1), (2, 3)]);
    assert_eq!(g.nodes.len(), 4);
}

#[test]
fn dead_end_needs_true_value() {
    let nodes = vec![node(&[(DEADEND, "false")]), node(&[])];
    let g = filter_deadends(graph(nodes, vec![(0, 1), (5, 1)]));
    assert_eq!(g.edges, vec![(0, 1), (5, 1)]);
}

#[test]
fn filter_deadends_twice_is_once() {
    let nodes = vec![node(&[]), node(&[(DEADEND, "true")]), node(&[])];
    let once = filter_deadends(graph(nodes, vec![(0, 1), (1, 2), (0, 2)]));
    let first = once.edges.clone();
    let twice = filter_deadends(once);
    assert_eq!(twice.edges, first);
    assert_eq!(first, vec![(0, 1), (0, 2)]);
}

#[test]
fn rollout_throttling_mid_ramp() {
    let now = 1_700_000_000;
    let kept = throttle_rollouts_at(ramp_graph(now - 60), 400_000, now);
    assert_eq!(kept.edges, vec![(0, 1)]);
    let pruned = throttle_rollouts_at(ramp_graph(now - 60), 600_000, now);
    assert!(pruned.edges.is_empty());
    assert_eq!(pruned.nodes.len(), 2);
}

#[test]
fn rollout_throttling_mid_ramp_now() {
    let now = now_secs();
    let kept = throttle_rollouts(ramp_graph(now - 60), 400_000);
    assert_eq!(kept.edges, vec![(0, 1)]);
    let pruned = throttle_rollouts(ramp_graph(now - 60), 600_000);
    assert!(pruned.edges.is_empty());
}

#[test]
fn rollout_before_start_and_after_end() {
    let now = 1_700_000_000;
    // Not started: throttling 0, every positive wariness is kept away.
    let g = throttle_rollouts_at(ramp_graph(now + 10), 1, now);
    assert!(g.edges.is_empty());
    // Ended: throttling 1, everyone sees it.
    let g = throttle_rollouts_at(ramp_graph(now - 1000), 1_000_000, now);
    assert_eq!(g.edges, vec![(0, 1)]);
}

#[test]
fn rollout_without_duration_stays_at_start_value() {
    let now = 1_700_000_000;
    let start = (now - 100_000).to_string();
    let make = || {
        let target = node(&[(ROLLOUT, "true"), (START_EPOCH, &start), (START_VALUE, "0.3")]);
        graph(vec![node(&[]), target], vec![(0, 1)])
    };
    assert_eq!(throttle_rollouts_at(make(), 300_000, now).edges, vec![(0, 1)]);
    assert!(throttle_rollouts_at(make(), 300_001, now).edges.is_empty());
}

#[test]
fn start_value_in_float_syntax() {
    let now = 1_700_000_000;
    let start = (now - 100).to_string();
    let make = |value: &str| {
        let target = node(&[(ROLLOUT, "true"), (START_EPOCH, &start), (START_VALUE, value)]);
        graph(vec![node(&[]), target], vec![(0, 1)])
    };
    assert_eq!(throttle_rollouts_at(make(".5"), 400_000, now).edges, vec![(0, 1)]);
    assert_eq!(throttle_rollouts_at(make("5e-1"), 400_000, now).edges, vec![(0, 1)]);
    assert!(throttle_rollouts_at(make(".5"), 600_000, now).edges.is_empty());
}

#[test]
fn zero_wariness_keeps_every_edge() {
    let now = 1_700_000_000;
    let g = throttle_rollouts_at(ramp_graph(now + 10), 0, now);
    assert_eq!(g.edges, vec![(0, 1)]);
    let again = throttle_rollouts_at(g, 0, now);
    assert_eq!(again.edges, vec![(0, 1)]);
}

#[test]
fn full_wariness_hides_ramping_rollouts() {
    let now = 1_700_000_000;
    let g = throttle_rollouts_at(ramp_graph(now - 119), 1_000_000, now);
    assert!(g.edges.is_empty());
}

#[test]
fn arch_selection() {
    let n = node(&[
        ("org.fedoraproject.coreos.releases.arch.x86_64", "abc"),
        ("org.fedoraproject.coreos.releases.arch.aarch64", "def"),
        ("org.fedoraproject.coreos.releases.age_index", "0"),
    ]);
    let g = pick_basearch(graph(vec![n, node(&[])], vec![(0, 1)]), &"x86_64".to_string(), false);
    let m = &g.nodes[0].metadata;
    assert_eq!(g.nodes[0].payload, "abc");
    assert_eq!(m.get(SCHEME).unwrap(), "checksum");
    assert!(m.entries().iter().all(|(k, _)| !k.starts_with("org.fedoraproject.coreos.releases.arch.")));
    assert_eq!(m.get("org.fedoraproject.coreos.releases.age_index").unwrap(), "0");
    assert_eq!(g.nodes[1].payload, "");
    assert!(!g.nodes[1].metadata.contains_key(SCHEME));
    assert_eq!(g.edges, vec![(0, 1)]);
}

#[test]
fn arch_selection_oci_and_idempotent() {
    let n = node(&[("org.fedoraproject.coreos.releases.arch.aarch64", "img@sha256:1")]);
    let once = pick_basearch(graph(vec![n], vec![]), &"aarch64".to_string(), true);
    assert_eq!(once.nodes[0].payload, "img@sha256:1");
    assert_eq!(once.nodes[0].metadata.get(SCHEME).unwrap(), "oci");
    let twice = pick_basearch(once, &"aarch64".to_string(), true);
    assert_eq!(twice.nodes[0].payload, "img@sha256:1");
    assert_eq!(twice.nodes[0].metadata.get(SCHEME).unwrap(), "oci");
    assert_eq!(twice.nodes[0].metadata.entries().len(), 1);
}

#[test]
fn policy_pipeline_throttles_then_prunes() {
    let now = now_secs();
    let start = (now + 1000).to_string();
    let nodes = vec![
        node(&[]),
        node(&[(DEADEND, "true")]),
        node(&[(ROLLOUT, "true"), (START_EPOCH, &start)]),
        node(&[]),
    ];
    let g = apply_policy(graph(nodes, vec![(0, 1), (1, 3), (0, 2), (0, 3)]), 500_000);
    assert_eq!(g.edges, vec![(0, 1), (0, 3)]);
}
