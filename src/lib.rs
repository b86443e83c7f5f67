//! Update-graph assembly and request-time policy for a Cincinnati update
//! service.
//!
//! - `metadata`: upstream documents (release index, updates metadata) and the
//!   node metadata keys of the served graph.
//! - `graph`: the served graph, its node metadata map, and its assembly from
//!   upstream documents, with barrier and rollout edges.
//! - `policy`: architecture selection, dead-end pruning and rollout
//!   throttling.
//! - `client`: request parameters and the client's rollout wariness.
//! - `scraper`: per-stream cache of serialized graphs and upstream URLs.
//! - `web`: validation of a requested scope.
//! - `digests`: patching of OCI image digests in a release index.
//! - `settings`: log verbosity.
//! - `text`: decimal rendering and parsing of metadata values.
//!
//! Fractions of one (throttling, wariness, a rollout's start value) are
//! fixed-point integers in millionths: `text::UNIT` is one.
use vstd::prelude::*;

pub mod client;
pub mod digests;
pub mod graph;
pub mod metadata;
pub mod policy;
pub mod scraper;
pub mod settings;
pub mod text;
pub mod web;

verus! {

} // verus!
