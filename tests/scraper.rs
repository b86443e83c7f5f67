use fcos_cincinnati::graph::GraphScope;
use fcos_cincinnati::metadata::{Release, ReleaseCommit, UpdatesJSON};
use fcos_cincinnati::metadata::SCHEME;
use fcos_cincinnati::scraper::{Scraper, ScraperError, EMPTY_GRAPH_JSON};

fn scope(arch: &str, stream: &str, oci: bool) -> GraphScope {
    GraphScope { basearch: arch.to_string(), stream: stream.to_string(), oci }
}

fn new_scraper() -> Scraper {
    Scraper::new("testing".to_string(), vec!["x86_64".to_string(), "aarch64".to_string()]).unwrap()
}

#[test]
fn scope_mismatch_at_scraper() {
    let s = new_scraper();
    let r = s.get_cached_graph(&scope("x86_64", "stable", false));
    assert_eq!(r.unwrap_err(), ScraperError::UnexpectedStream);
}

#[test]
fn unknown_arch_at_scraper() {
    let s = new_scraper();
    let r = s.get_cached_graph(&scope("s390x", "testing", false));
    assert_eq!(r.unwrap_err(), ScraperError::UnexpectedBasearch);
}

#[test]
fn scraper_starts_with_empty_graphs_and_urls() {
    let s = new_scraper();
    assert_eq!(s.stream(), "testing");
    assert_eq!(s.pause_secs(), 30);
    assert_eq!(
        s.release_index_url(),
        "https://builds.coreos.fedoraproject.org/prod/streams/testing/releases.json"
    );
    assert_eq!(s.updates_url(), "https://builds.coreos.fedoraproject.org/updates/testing.json");
    for oci in [false, true] {
        let data = s.get_cached_graph(&scope("aarch64", "testing", oci)).unwrap();
        assert_eq!(data.as_slice(), EMPTY_GRAPH_JSON.as_bytes());
    }
    assert_eq!(EMPTY_GRAPH_JSON, r#"{"nodes":[],"edges":[]}"#);
}

#[test]
fn scraper_refuses_templating_characters() {
    let r = Scraper::new("st${x}".to_string(), vec![]);
    assert_eq!(r.err(), Some(ScraperError::InvalidStream));
}

#[test]
fn publishing_replaces_one_graph() {
    let mut s = new_scraper();
    s.update_cached_graph("x86_64".to_string(), true, b"new".to_vec());
    assert_eq!(s.get_cached_graph(&scope("x86_64", "testing", true)).unwrap().as_slice(), b"new");
    assert_eq!(
        s.get_cached_graph(&scope("x86_64", "testing", false)).unwrap().as_slice(),
        EMPTY_GRAPH_JSON.as_bytes()
    );
    s.update_cached_graph("ppc64le".to_string(), false, b"p".to_vec());
    assert_eq!(s.get_cached_graph(&scope("ppc64le", "testing", false)).unwrap().as_slice(), b"p");
}

#[test]
fn assembled_graphs_are_arch_selected() {
    let s = new_scraper();
    let releases = vec![Release {
        commits: vec![ReleaseCommit { architecture: "aarch64".to_string(), checksum: "c1".to_string() }],
        oci_images: None,
        version: "v0".to_string(),
        metadata: String::new(),
    }];
    let updates = UpdatesJSON { stream: "testing".to_string(), releases: vec![] };
    let graphs = s.assemble_graphs(&releases, &updates);
    assert_eq!(graphs.len(), 4);
    let names: Vec<(String, bool)> = graphs.iter().map(|(a, o, _)| (a.clone(), *o)).collect();
    assert_eq!(
        names,
        vec![
            ("x86_64".to_string(), false),
            ("aarch64".to_string(), false),
            ("x86_64".to_string(), true),
            ("aarch64".to_string(), true)
        ]
    );
    assert_eq!(graphs[0].2.nodes[0].payload, "");
    assert_eq!(graphs[1].2.nodes[0].payload, "c1");
    assert_eq!(graphs[1].2.nodes[0].metadata.get(SCHEME).unwrap(), "checksum");
    assert_eq!(graphs[3].2.nodes[0].payload, "");
}
