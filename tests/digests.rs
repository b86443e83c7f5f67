use fcos_cincinnati::digests::{patch_at_minute, DigestEntry, DigestsMapper, GoodBadDigests};
use fcos_cincinnati::metadata::{Release, ReleaseOciImage};

fn release(version: &str, images: &[(&str, &str)]) -> Release {
    Release {
        commits: vec![],
        oci_images: Some(
            images
                .iter()
                .map(|(a, d)| ReleaseOciImage { architecture: a.to_string(), digest_ref: d.to_string() })
                .collect(),
        ),
        version: version.to_string(),
        metadata: String::new(),
    }
}

fn mapper() -> DigestsMapper {
    DigestsMapper {
        entries: vec![DigestEntry {
            version: "43.1".to_string(),
            arch: "x86_64".to_string(),
            digests: GoodBadDigests { good: "sha256:good".to_string(), bad: "sha256:bad".to_string() },
        }],
    }
}

#[test]
fn bad_digest_lookup() {
    let m = mapper();
    assert_eq!(
        m.get_bad_hash_for_version_and_arch(&"43.1".to_string(), &"x86_64".to_string()),
        Some("sha256:bad".to_string())
    );
    assert_eq!(m.get_bad_hash_for_version_and_arch(&"43.1".to_string(), &"aarch64".to_string()), None);
}

#[test]
fn fix_releases_patches_all_but_newest() {
    let m = mapper();
    let mut releases = vec![
        release("43.1", &[("x86_64", "quay.io/fcos@sha256:good"), ("aarch64", "quay.io/fcos@sha256:a")]),
        release("43.1", &[("x86_64", "quay.io/fcos@sha256:good")]),
    ];
    m.fix_releases(&mut releases);
    let first = releases[0].oci_images.as_ref().unwrap();
    assert_eq!(first[0].digest_ref, "quay.io/fcos@sha256:bad");
    assert_eq!(first[1].digest_ref, "quay.io/fcos@sha256:a");
    let last = releases[1].oci_images.as_ref().unwrap();
    assert_eq!(last[0].digest_ref, "quay.io/fcos@sha256:good");
}

#[test]
fn fix_releases_on_empty_index() {
    let mut releases: Vec<Release> = vec![];
    mapper().fix_releases(&mut releases);
    assert!(releases.is_empty());
}

#[test]
fn patching_on_even_minutes() {
    assert!(patch_at_minute(0));
    assert!(!patch_at_minute(1));
    assert!(patch_at_minute(58));
    assert!(!patch_at_minute(59));
}
