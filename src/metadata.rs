//! Upstream metadata documents, and the node metadata keys of the served graph.
use vstd::prelude::*;

verus! {

/// Templated URL for the release index.
pub const RELEASES_JSON: &'static str =
    "https://builds.coreos.fedoraproject.org/prod/streams/${stream}/releases.json";

/// Templated URL for the updates metadata.
pub const UPDATES_JSON: &'static str = "https://builds.coreos.fedoraproject.org/updates/${stream}.json";

pub const SCHEME: &'static str = "org.fedoraproject.coreos.scheme";

pub const AGE_INDEX: &'static str = "org.fedoraproject.coreos.releases.age_index";

pub const ARCH_PREFIX: &'static str = "org.fedoraproject.coreos.releases.arch";

pub const BARRIER: &'static str = "org.fedoraproject.coreos.updates.barrier";

pub const BARRIER_REASON: &'static str = "org.fedoraproject.coreos.updates.barrier_reason";

pub const DEADEND: &'static str = "org.fedoraproject.coreos.updates.deadend";

pub const DEADEND_REASON: &'static str = "org.fedoraproject.coreos.updates.deadend_reason";

pub const ROLLOUT: &'static str = "org.fedoraproject.coreos.updates.rollout";

pub const DURATION: &'static str = "org.fedoraproject.coreos.updates.duration_minutes";

pub const START_EPOCH: &'static str = "org.fedoraproject.coreos.updates.start_epoch";

pub const START_VALUE: &'static str = "org.fedoraproject.coreos.updates.start_value";

/// Release index.
pub struct ReleasesJSON {
    pub releases: Vec<Release>,
}

/// One release of the index; its position in the index is its age.
pub struct Release {
    pub commits: Vec<ReleaseCommit>,
    pub oci_images: Option<Vec<ReleaseOciImage>>,
    pub version: String,
    pub metadata: String,
}

pub struct ReleaseCommit {
    pub architecture: String,
    pub checksum: String,
}

pub struct ReleaseOciImage {
    pub architecture: String,
    pub digest_ref: String,
}

/// Updates metadata of one stream.
pub struct UpdatesJSON {
    pub stream: String,
    pub releases: Vec<ReleaseUpdate>,
}

pub struct ReleaseUpdate {
    pub version: String,
    pub metadata: UpdateMetadata,
}

pub struct UpdateMetadata {
    pub barrier: Option<UpdateBarrier>,
    pub deadend: Option<UpdateDeadend>,
    pub rollout: Option<UpdateRollout>,
}

pub struct UpdateBarrier {
    pub reason: String,
}

pub struct UpdateDeadend {
    pub reason: String,
}

/// Staged rollout parameters. `start_percentage` is a fraction of one, in
/// millionths (`crate::text::UNIT` is the whole).
pub struct UpdateRollout {
    pub start_epoch: Option<i64>,
    pub start_percentage: Option<u64>,
    pub duration_minutes: Option<u64>,
}

} // verus!
