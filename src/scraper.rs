//! State of the per-stream scraper: upstream URLs, and the latest serialized
//! graph of each architecture, legacy and OCI. The refresh loop that fetches
//! upstream documents and publishes graphs drives it from outside.
use vstd::prelude::*;
use vstd::string::{StrSliceExecFns, StringSliceAdditionalSpecFns};

use crate::graph::{Graph, GraphScope, assemble};
use crate::metadata::{RELEASES_JSON, Release, UPDATES_JSON, UpdatesJSON};
use crate::policy::{arch_selected, pick_basearch};
use crate::text::same_text;

verus! {

/// Serialization of a graph with no nodes and no edges.
pub const EMPTY_GRAPH_JSON: &'static str = "{\"nodes\":[],\"edges\":[]}";

/// Seconds between two refreshes.
pub const DEFAULT_PAUSE_SECS: u64 = 30;

/// Whether `s` holds a character that a template variable cannot hold.
pub open spec fn has_forbidden(s: Seq<char>) -> bool {
    exists|i: int| 0 <= i < s.len() && (s[i] == '$' || s[i] == '{' || s[i] == '}')
}

/// `s` with every occurrence of `pat` replaced by `rep`, scanning from the
/// left without overlaps.
pub open spec fn replace_all(s: Seq<char>, pat: Seq<char>, rep: Seq<char>) -> Seq<char>
    decreases s.len(),
{
    if s.len() == 0 || pat.len() == 0 {
        s
    } else if pat.is_prefix_of(s) {
        rep + replace_all(s.skip(pat.len() as int), pat, rep)
    } else {
        seq![s[0]] + replace_all(s.skip(1), pat, rep)
    }
}

/// A URL template with the stream put in.
pub open spec fn stream_url(template: Seq<char>, stream: Seq<char>) -> Seq<char> {
    replace_all(template, "${stream}"@, stream)
}

/// Relies on `envsubst::substitute` with the one variable `stream`: it fails
/// when the value holds `$`, `{` or `}`, and otherwise replaces every
/// `${stream}` in the template (`str::replace`).
#[verifier::external_body]
fn substitute_stream(template: &str, stream: &String) -> (r: Option<String>)
    ensures
        r is Some <==> !has_forbidden(stream@),
        r is Some ==> r->0@ == stream_url(template@, stream@),
{
    let mut vars = std::collections::HashMap::new();
    vars.insert("stream".to_string(), stream.clone());
    envsubst::substitute(template, &vars).ok()
}

/// The latest serialized graph of one architecture.
pub struct CachedGraph {
    pub basearch: String,
    pub oci: bool,
    pub data: Vec<u8>,
}

#[derive(Debug, PartialEq, Eq, Structural)]
pub enum ScraperError {
    /// The stream cannot be put in the upstream URLs.
    InvalidStream,
    /// The request is for another stream.
    UnexpectedStream,
    /// No graph is kept for the requested architecture.
    UnexpectedBasearch,
}

/// Release scraper of one stream.
pub struct Scraper {
    stream: String,
    arches: Vec<String>,
    graphs: Vec<CachedGraph>,
    pause_secs: u64,
    release_index_url: String,
    updates_url: String,
}

/// A scraper as a value; `graphs` holds (architecture, OCI or not, data).
pub struct ScraperView {
    pub stream: Seq<char>,
    pub arches: Seq<Seq<char>>,
    pub graphs: Seq<(Seq<char>, bool, Seq<u8>)>,
    pub pause_secs: u64,
    pub release_index_url: Seq<char>,
    pub updates_url: Seq<char>,
}

pub open spec fn cached_view(c: CachedGraph) -> (Seq<char>, bool, Seq<u8>) {
    (c.basearch@, c.oci, c.data@)
}

impl View for Scraper {
    type V = ScraperView;

    closed spec fn view(&self) -> ScraperView {
        ScraperView {
            stream: self.stream@,
            arches: self.arches@.map_values(|a: String| a@),
            graphs: self.graphs@.map_values(|c: CachedGraph| cached_view(c)),
            pause_secs: self.pause_secs,
            release_index_url: self.release_index_url@,
            updates_url: self.updates_url@,
        }
    }
}

/// The cache before the first refresh: an empty graph for each architecture,
/// legacy ones first, then OCI ones.
pub open spec fn initial_graphs(arches: Seq<Seq<char>>, empty: Seq<u8>) -> Seq<
    (Seq<char>, bool, Seq<u8>),
> {
    arches.map_values(|a: Seq<char>| (a, false, empty)) + arches.map_values(
        |a: Seq<char>| (a, true, empty),
    )
}

/// Whether position `i` holds the first graph kept for `arch` and `oci`.
pub open spec fn is_first_cached(
    graphs: Seq<(Seq<char>, bool, Seq<u8>)>,
    arch: Seq<char>,
    oci: bool,
    i: int,
) -> bool {
    &&& 0 <= i < graphs.len()
    &&& graphs[i].0 == arch && graphs[i].1 == oci
    &&& forall|j: int| 0 <= j < i ==> !((#[trigger] graphs[j]).0 == arch && graphs[j].1 == oci)
}

pub open spec fn is_cached(graphs: Seq<(Seq<char>, bool, Seq<u8>)>, arch: Seq<char>, oci: bool) -> bool {
    exists|i: int| 0 <= i < graphs.len() && (#[trigger] graphs[i]).0 == arch && graphs[i].1 == oci
}

/// The graph of `arch` that a refresh publishes: assembled, then
/// arch-selected.
pub open spec fn refreshed_graph(
    releases: Seq<Release>,
    updates: UpdatesJSON,
    arch: Seq<char>,
    oci: bool,
) -> crate::graph::GraphView {
    arch_selected(assemble(releases, updates, oci), arch, oci)
}

/// Adds an empty graph for each of `arches`.
fn push_empty_graphs(arches: &Vec<String>, oci: bool, graphs: &mut Vec<CachedGraph>)
    ensures
        final(graphs)@.len() == old(graphs)@.len() + arches@.len(),
        forall|j: int| 0 <= j < old(graphs)@.len() ==> #[trigger] final(graphs)@[j] == old(graphs)@[j],
        forall|i: int|
            0 <= i < arches@.len() ==> cached_view(#[trigger] final(graphs)@[old(graphs)@.len() + i])
                == (arches@[i]@, oci, EMPTY_GRAPH_JSON.spec_bytes()),
{
    let ghost start = graphs@;
    let mut i: usize = 0;
    while i < arches.len()
        invariant
            i <= arches@.len(),
            graphs@.len() == start.len() + i,
            forall|j: int| 0 <= j < start.len() ==> #[trigger] graphs@[j] == start[j],
            forall|m: int|
                0 <= m < i ==> cached_view(#[trigger] graphs@[start.len() + m]) == (
                    arches@[m]@,
                    oci,
                    EMPTY_GRAPH_JSON.spec_bytes(),
                ),
        decreases arches@.len() - i,
    {
        let data = EMPTY_GRAPH_JSON.as_bytes_vec();
        graphs.push(CachedGraph { basearch: arches[i].clone(), oci, data });
        i = i + 1;
    }
}

impl Scraper {
    /// A scraper for `stream`, keeping a graph for each of `arches`; fails
    /// when the stream cannot be put in the upstream URLs.
    pub fn new(stream: String, arches: Vec<String>) -> (r: Result<Scraper, ScraperError>)
        ensures
            r is Ok <==> !has_forbidden(stream@),
            r is Err ==> r == Err::<Scraper, ScraperError>(ScraperError::InvalidStream),
            r is Ok ==> {
                let s = r->Ok_0@;
                &&& s.stream == stream@
                &&& s.arches == arches@.map_values(|a: String| a@)
                &&& s.pause_secs == DEFAULT_PAUSE_SECS
                &&& s.release_index_url == stream_url(RELEASES_JSON@, stream@)
                &&& s.updates_url == stream_url(UPDATES_JSON@, stream@)
                &&& s.graphs == initial_graphs(s.arches, EMPTY_GRAPH_JSON.spec_bytes())
            },
    {
        let release_index_url = match substitute_stream(RELEASES_JSON, &stream) {
            Some(u) => u,
            None => return Err(ScraperError::InvalidStream),
        };
        let updates_url = match substitute_stream(UPDATES_JSON, &stream) {
            Some(u) => u,
            None => return Err(ScraperError::InvalidStream),
        };
        let ghost av = arches@.map_values(|a: String| a@);
        let ghost empty = EMPTY_GRAPH_JSON.spec_bytes();
        let mut graphs: Vec<CachedGraph> = Vec::new();
        push_empty_graphs(&arches, false, &mut graphs);
        let ghost g1 = graphs@;
        push_empty_graphs(&arches, true, &mut graphs);
        let ghost target = initial_graphs(av, empty);
        let s = Scraper {
            stream,
            arches,
            graphs,
            pause_secs: DEFAULT_PAUSE_SECS,
            release_index_url,
            updates_url,
        };
        assert forall|j: int| 0 <= j < target.len() implies #[trigger] s@.graphs[j] == target[j] by {
            let n = av.len();
            assert(s@.graphs[j] == cached_view(graphs@[j]));
            if j < n {
                assert(graphs@[j] == g1[j]);
                assert(cached_view(g1[0 + j]) == (arches@[j]@, false, empty));
                assert(target[j] == (av[j], false, empty));
            } else {
                assert(cached_view(graphs@[n + (j - n)]) == (arches@[j - n]@, true, empty));
                assert(target[j] == (av[j - n], true, empty));
            }
        }
        assert(s@.graphs =~= target);
        Ok(s)
    }

    pub fn stream(&self) -> (r: &String)
        ensures
            r@ == self@.stream,
    {
        &self.stream
    }

    pub fn pause_secs(&self) -> (r: u64)
        ensures
            r == self@.pause_secs,
    {
        self.pause_secs
    }

    pub fn release_index_url(&self) -> (r: &String)
        ensures
            r@ == self@.release_index_url,
    {
        &self.release_index_url
    }

    pub fn updates_url(&self) -> (r: &String)
        ensures
            r@ == self@.updates_url,
    {
        &self.updates_url
    }

    /// The position of the first graph kept for `arch` and `oci`, if any.
    fn find_graph(&self, arch: &String, oci: bool) -> (r: Option<usize>)
        ensures
            r is Some <==> is_cached(self@.graphs, arch@, oci),
            r is Some ==> is_first_cached(self@.graphs, arch@, oci, r->0 as int),
    {
        let ghost gv = self@.graphs;
        let mut i: usize = 0;
        while i < self.graphs.len()
            invariant
                gv == self@.graphs,
                gv.len() == self.graphs@.len(),
                i <= gv.len(),
                forall|j: int| 0 <= j < i ==> !((#[trigger] gv[j]).0 == arch@ && gv[j].1 == oci),
            decreases gv.len() - i,
        {
            assert(gv[i as int] == cached_view(self.graphs@[i as int]));
            if self.graphs[i].oci == oci && same_text(self.graphs[i].basearch.as_str(), arch.as_str()) {
                return Some(i);
            }
            i = i + 1;
        }
        None
    }

    /// The latest serialized graph for `scope`: an error when the scope is
    /// of another stream, or of an architecture that no graph is kept for.
    pub fn get_cached_graph(&self, scope: &GraphScope) -> (r: Result<&Vec<u8>, ScraperError>)
        ensures
            scope.stream@ != self@.stream ==> r == Err::<&Vec<u8>, ScraperError>(
                ScraperError::UnexpectedStream,
            ),
            scope.stream@ == self@.stream ==> (r is Ok <==> is_cached(
                self@.graphs,
                scope.basearch@,
                scope.oci,
            )),
            scope.stream@ == self@.stream && r is Err ==> r == Err::<&Vec<u8>, ScraperError>(
                ScraperError::UnexpectedBasearch,
            ),
            r is Ok ==> exists|i: int|
                is_first_cached(self@.graphs, scope.basearch@, scope.oci, i) && r->Ok_0@
                    == self@.graphs[i].2,
    {
        if scope.stream != self.stream {
            return Err(ScraperError::UnexpectedStream);
        }
        match self.find_graph(&scope.basearch, scope.oci) {
            Some(i) => {
                assert(self@.graphs[i as int] == cached_view(self.graphs@[i as int]));
                Ok(&self.graphs[i].data)
            },
            None => Err(ScraperError::UnexpectedBasearch),
        }
    }

    /// Publishes `data` as the latest graph of `arch` and `oci`: it replaces
    /// the first graph kept for them, or is added when there is none.
    pub fn update_cached_graph(&mut self, arch: String, oci: bool, data: Vec<u8>)
        ensures
            final(self)@.stream == old(self)@.stream,
            final(self)@.arches == old(self)@.arches,
            final(self)@.pause_secs == old(self)@.pause_secs,
            final(self)@.release_index_url == old(self)@.release_index_url,
            final(self)@.updates_url == old(self)@.updates_url,
            is_cached(old(self)@.graphs, arch@, oci) ==> exists|i: int|
                is_first_cached(old(self)@.graphs, arch@, oci, i) && final(self)@.graphs == old(
                    self,
                )@.graphs.update(i, (arch@, oci, data@)),
            !is_cached(old(self)@.graphs, arch@, oci) ==> final(self)@.graphs == old(
                self,
            )@.graphs.push((arch@, oci, data@)),
    {
        let ghost before = self@.graphs;
        match self.find_graph(&arch, oci) {
            Some(i) => {
                self.graphs.set(i, CachedGraph { basearch: arch, oci, data });
                assert(self@.graphs =~= before.update(i as int, (arch@, oci, data@)));
            },
            None => {
                self.graphs.push(CachedGraph { basearch: arch, oci, data });
                assert(self@.graphs =~= before.push((arch@, oci, data@)));
            },
        }
    }

    /// Adds the graph of each kept architecture, for `oci`.
    fn push_assembled(
        &self,
        releases: &Vec<Release>,
        updates: &UpdatesJSON,
        oci: bool,
        out: &mut Vec<(String, bool, Graph)>,
    )
        ensures
            final(out)@.len() == old(out)@.len() + self@.arches.len(),
            forall|j: int| 0 <= j < old(out)@.len() ==> #[trigger] final(out)@[j] == old(out)@[j],
            forall|i: int|
                0 <= i < self@.arches.len() ==> {
                    let e = #[trigger] final(out)@[old(out)@.len() + i];
                    &&& e.0@ == self@.arches[i]
                    &&& e.1 == oci
                    &&& e.2@ == refreshed_graph(releases@, *updates, self@.arches[i], oci)
                },
    {
        let ghost start = out@;
        let ghost av = self@.arches;
        let mut i: usize = 0;
        while i < self.arches.len()
            invariant
                av == self@.arches,
                av.len() == self.arches@.len(),
                i <= av.len(),
                out@.len() == start.len() + i,
                forall|j: int| 0 <= j < start.len() ==> #[trigger] out@[j] == start[j],
                forall|m: int|
                    0 <= m < i ==> {
                        let e = #[trigger] out@[start.len() + m];
                        &&& e.0@ == av[m]
                        &&& e.1 == oci
                        &&& e.2@ == refreshed_graph(releases@, *updates, av[m], oci)
                    },
            decreases av.len() - i,
        {
            assert(av[i as int] == self.arches@[i as int]@);
            let scope = GraphScope {
                basearch: self.arches[i].clone(),
                stream: self.stream.clone(),
                oci,
            };
            let assembled = Graph::from_metadata(releases, updates, &scope);
            let selected = pick_basearch(assembled, &self.arches[i], oci);
            out.push((self.arches[i].clone(), oci, selected));
            i = i + 1;
        }
    }

    /// Assembles the graph of every kept architecture from fetched upstream
    /// documents, legacy graphs first, then OCI graphs, each arch-selected.
    pub fn assemble_graphs(&self, releases: &Vec<Release>, updates: &UpdatesJSON) -> (r: Vec<
        (String, bool, Graph),
    >)
        ensures
            r@.len() == 2 * self@.arches.len(),
            forall|k: int|
                0 <= k < r@.len() ==> {
                    let n = self@.arches.len();
                    let oci = k >= n;
                    let arch = if oci {
                        self@.arches[k - n]
                    } else {
                        self@.arches[k]
                    };
                    &&& (#[trigger] r@[k]).0@ == arch
                    &&& r@[k].1 == oci
                    &&& r@[k].2@ == refreshed_graph(releases@, *updates, arch, oci)
                },
    {
        let mut out: Vec<(String, bool, Graph)> = Vec::new();
        self.push_assembled(releases, updates, false, &mut out);
        let ghost o1 = out@;
        self.push_assembled(releases, updates, true, &mut out);
        proof {
            let n = self@.arches.len();
            assert forall|k: int| 0 <= k < out@.len() implies {
                let oci = k >= n;
                let arch = if oci {
                    self@.arches[k - n]
                } else {
                    self@.arches[k]
                };
                &&& (#[trigger] out@[k]).0@ == arch
                &&& out@[k].1 == oci
                &&& out@[k].2@ == refreshed_graph(releases@, *updates, arch, oci)
            } by {
                if k < n {
                    assert(out@[k] == o1[k]);
                    assert(o1[0 + k] == o1[k]);
                } else {
                    assert(out@[n + (k - n)] == out@[k]);
                }
            }
        }
        out
    }
}

} // verus!
