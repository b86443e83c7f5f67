//! The served update graph, and its assembly from upstream metadata.
use vstd::prelude::*;

use crate::metadata::{
    AGE_INDEX, ARCH_PREFIX, BARRIER, BARRIER_REASON, DEADEND, DEADEND_REASON, DURATION, ROLLOUT,
    START_EPOCH, START_VALUE, Release, ReleaseCommit, ReleaseOciImage, ReleaseUpdate, UpdatesJSON,
};
use crate::text::{
    decimal_string, format_fraction, format_i64, format_u64, same_text, signed_string,
    starts_with, unit_string,
};

verus! {

/// String metadata of a node, as a list of entries where the last entry for
/// a key gives its value.
pub struct Metadata {
    entries: Vec<(String, String)>,
}

/// The map that a list of entries stands for: later entries win.
pub open spec fn entries_map(e: Seq<(String, String)>) -> Map<Seq<char>, Seq<char>>
    decreases e.len(),
{
    if e.len() == 0 {
        Map::empty()
    } else {
        entries_map(e.drop_last()).insert(e.last().0@, e.last().1@)
    }
}

/// The keys that do not begin with `prefix`.
pub open spec fn keys_without(prefix: Seq<char>) -> Set<Seq<char>> {
    Set::new(|k: Seq<char>| !prefix.is_prefix_of(k))
}

impl View for Metadata {
    type V = Map<Seq<char>, Seq<char>>;

    closed spec fn view(&self) -> Map<Seq<char>, Seq<char>> {
        entries_map(self.entries@)
    }
}

proof fn lemma_entries_tail(e: Seq<(String, String)>, m: int, k: Seq<char>)
    requires
        0 <= m <= e.len(),
        forall|j: int| m <= j < e.len() ==> (#[trigger] e[j]).0@ != k,
    ensures
        entries_map(e).contains_key(k) == entries_map(e.take(m)).contains_key(k),
        entries_map(e)[k] == entries_map(e.take(m))[k],
    decreases e.len(),
{
    if m == e.len() {
        assert(e.take(m) =~= e);
    } else {
        let d = e.drop_last();
        assert(e[e.len() - 1].0@ != k);
        assert(d.take(m) =~= e.take(m));
        assert forall|j: int| m <= j < d.len() implies (#[trigger] d[j]).0@ != k by {
            assert(d[j] == e[j]);
        }
        lemma_entries_tail(d, m, k);
    }
}

proof fn lemma_entries_update(e: Seq<(String, String)>, i: int, p: (String, String))
    requires
        0 <= i < e.len(),
        e[i].0@ == p.0@,
        forall|j: int| i < j < e.len() ==> (#[trigger] e[j]).0@ != p.0@,
    ensures
        entries_map(e.update(i, p)) == entries_map(e).insert(p.0@, p.1@),
    decreases e.len(),
{
    let u = e.update(i, p);
    let d = e.drop_last();
    if i == e.len() - 1 {
        assert(u.drop_last() =~= d);
        assert(entries_map(u) =~= entries_map(e).insert(p.0@, p.1@));
    } else {
        assert(u.drop_last() =~= d.update(i, p));
        assert forall|j: int| i < j < d.len() implies (#[trigger] d[j]).0@ != p.0@ by {
            assert(d[j] == e[j]);
        }
        lemma_entries_update(d, i, p);
        assert(e[e.len() - 1].0@ != p.0@);
        assert(entries_map(u) =~= entries_map(e).insert(p.0@, p.1@));
    }
}

impl Metadata {
    /// An empty map.
    pub fn new() -> (r: Metadata)
        ensures
            r@ == Map::<Seq<char>, Seq<char>>::empty(),
    {
        Metadata { entries: Vec::new() }
    }

    /// The position of the last entry for `key`, if any.
    fn find(&self, key: &str) -> (r: Option<usize>)
        ensures
            r is Some <==> self@.contains_key(key@),
            r is Some ==> r->0 < self.entries@.len() && self.entries@[r->0 as int].0@ == key@
                && self@[key@] == self.entries@[r->0 as int].1@ && forall|j: int|
                r->0 < j < self.entries@.len() ==> (#[trigger] self.entries@[j]).0@ != key@,
    {
        let mut i: usize = self.entries.len();
        while i > 0
            invariant
                i <= self.entries@.len(),
                forall|j: int| i <= j < self.entries@.len() ==> (#[trigger] self.entries@[j]).0@
                    != key@,
            decreases i,
        {
            if same_text(self.entries[i - 1].0.as_str(), key) {
                proof {
                    let e = self.entries@;
                    lemma_entries_tail(e, i as int, key@);
                    assert(e.take(i as int).drop_last() =~= e.take(i - 1));
                }
                return Some(i - 1);
            }
            i = i - 1;
        }
        proof {
            lemma_entries_tail(self.entries@, 0, key@);
        }
        None
    }

    /// The entries, in the order they were first set; the last entry for a
    /// key gives its value.
    pub fn entries(&self) -> (r: &Vec<(String, String)>)
        ensures
            entries_map(r@) == self@,
    {
        &self.entries
    }

    /// The value of `key`, if set.
    pub fn get(&self, key: &str) -> (r: Option<&String>)
        ensures
            r is Some <==> self@.contains_key(key@),
            r is Some ==> r->0@ == self@[key@],
    {
        match self.find(key) {
            Some(i) => Some(&self.entries[i].1),
            None => None,
        }
    }

    /// Whether `key` is set.
    pub fn contains_key(&self, key: &str) -> (r: bool)
        ensures
            r == self@.contains_key(key@),
    {
        self.find(key).is_some()
    }

    /// Sets `key` to `value`.
    pub fn insert(&mut self, key: String, value: String)
        ensures
            final(self)@ == old(self)@.insert(key@, value@),
    {
        match self.find(key.as_str()) {
            Some(i) => {
                proof {
                    lemma_entries_update(self.entries@, i as int, (key, value));
                }
                self.entries.set(i, (key, value));
            },
            None => {
                self.entries.push((key, value));
                proof {
                    assert(self.entries@.drop_last() =~= old(self).entries@);
                }
            },
        }
    }

    /// Removes every key that begins with `prefix`.
    pub fn remove_prefixed(&mut self, prefix: &str)
        ensures
            final(self)@ == old(self)@.restrict(keys_without(prefix@)),
    {
        let ghost e = self.entries@;
        let mut kept: Vec<(String, String)> = Vec::new();
        let mut i: usize = 0;
        while i < self.entries.len()
            invariant
                self.entries@ == e,
                i <= e.len(),
                entries_map(kept@) == entries_map(e.take(i as int)).restrict(
                    keys_without(prefix@),
                ),
            decreases e.len() - i,
        {
            let ghost before = kept@;
            let key = &self.entries[i].0;
            assert(e.take(i + 1).drop_last() =~= e.take(i as int));
            if !starts_with(key.as_str(), prefix) {
                let value = &self.entries[i].1;
                kept.push((key.clone(), value.clone()));
                assert(kept@.drop_last() =~= before);
            }
            i = i + 1;
            assert(entries_map(kept@) =~= entries_map(e.take(i as int)).restrict(
                keys_without(prefix@),
            ));
        }
        assert(e.take(e.len() as int) =~= e);
        self.entries = kept;
    }
}

/// Single release entry in the update graph.
pub struct CincinnatiPayload {
    pub version: String,
    pub metadata: Metadata,
    pub payload: String,
}

/// Update graph: releases (nodes) and update paths (edges, by node position).
pub struct Graph {
    pub nodes: Vec<CincinnatiPayload>,
    pub edges: Vec<(u64, u64)>,
}

/// The scope of one independent graph.
#[derive(Clone, Debug, Hash)]
pub struct GraphScope {
    pub basearch: String,
    pub stream: String,
    pub oci: bool,
}

impl PartialEq for GraphScope {
    fn eq(&self, other: &GraphScope) -> (r: bool)
        ensures
            r == (self.basearch@ == other.basearch@ && self.stream@ == other.stream@ && self.oci
                == other.oci),
    {
        self.basearch == other.basearch && self.stream == other.stream && self.oci == other.oci
    }
}

impl vstd::std_specs::cmp::PartialEqSpecImpl for GraphScope {
    open spec fn obeys_eq_spec() -> bool {
        true
    }

    open spec fn eq_spec(&self, other: &GraphScope) -> bool {
        self.basearch@ == other.basearch@ && self.stream@ == other.stream@ && self.oci == other.oci
    }
}

impl Eq for GraphScope {

}

/// A node as a value: its version, payload and metadata map.
pub struct NodeView {
    pub version: Seq<char>,
    pub payload: Seq<char>,
    pub metadata: Map<Seq<char>, Seq<char>>,
}

/// A graph as a value: its nodes in order, and its edges.
pub struct GraphView {
    pub nodes: Seq<NodeView>,
    pub edges: Seq<(u64, u64)>,
}

impl View for CincinnatiPayload {
    type V = NodeView;

    open spec fn view(&self) -> NodeView {
        NodeView { version: self.version@, payload: self.payload@, metadata: self.metadata@ }
    }
}

/// The values of a sequence of nodes.
pub open spec fn nodes_view(nodes: Seq<CincinnatiPayload>) -> Seq<NodeView> {
    nodes.map_values(|n: CincinnatiPayload| n@)
}

impl View for Graph {
    type V = GraphView;

    open spec fn view(&self) -> GraphView {
        GraphView { nodes: nodes_view(self.nodes@), edges: self.edges@ }
    }
}

/// The metadata key under which the artifact for `arch` is recorded.
pub open spec fn arch_key(arch: Seq<char>) -> Seq<char> {
    ARCH_PREFIX@ + "."@ + arch
}

pub open spec fn with_commits(m: Map<Seq<char>, Seq<char>>, cs: Seq<ReleaseCommit>) -> Map<
    Seq<char>,
    Seq<char>,
>
    decreases cs.len(),
{
    if cs.len() == 0 {
        m
    } else {
        let c = cs.last();
        let m1 = with_commits(m, cs.drop_last());
        if c.architecture@.len() > 0 && c.checksum@.len() > 0 {
            m1.insert(arch_key(c.architecture@), c.checksum@)
        } else {
            m1
        }
    }
}

pub open spec fn with_images(m: Map<Seq<char>, Seq<char>>, is: Seq<ReleaseOciImage>) -> Map<
    Seq<char>,
    Seq<char>,
>
    decreases is.len(),
{
    if is.len() == 0 {
        m
    } else {
        let c = is.last();
        let m1 = with_images(m, is.drop_last());
        if c.architecture@.len() > 0 && c.digest_ref@.len() > 0 {
            m1.insert(arch_key(c.architecture@), c.digest_ref@)
        } else {
            m1
        }
    }
}

/// Per-architecture artifacts of a release: OCI images for an OCI graph,
/// commit checksums otherwise.
pub open spec fn with_artifacts(m: Map<Seq<char>, Seq<char>>, r: Release, oci: bool) -> Map<
    Seq<char>,
    Seq<char>,
> {
    if oci {
        match r.oci_images {
            Some(images) => with_images(m, images@),
            None => m,
        }
    } else {
        with_commits(m, r.commits@)
    }
}

pub open spec fn reason_or_generic(reason: Seq<char>) -> Seq<char> {
    if reason.len() == 0 {
        "generic"@
    } else {
        reason
    }
}

pub open spec fn with_deadends(
    m: Map<Seq<char>, Seq<char>>,
    version: Seq<char>,
    us: Seq<ReleaseUpdate>,
) -> Map<Seq<char>, Seq<char>>
    decreases us.len(),
{
    if us.len() == 0 {
        m
    } else {
        let u = us.last();
        let m1 = with_deadends(m, version, us.drop_last());
        if u.version@ == version && u.metadata.deadend is Some {
            m1.insert(DEADEND@, "true"@).insert(
                DEADEND_REASON@,
                reason_or_generic(u.metadata.deadend->0.reason@),
            )
        } else {
            m1
        }
    }
}

pub open spec fn with_barriers(
    m: Map<Seq<char>, Seq<char>>,
    version: Seq<char>,
    us: Seq<ReleaseUpdate>,
) -> Map<Seq<char>, Seq<char>>
    decreases us.len(),
{
    if us.len() == 0 {
        m
    } else {
        let u = us.last();
        let m1 = with_barriers(m, version, us.drop_last());
        if u.version@ == version && u.metadata.barrier is Some {
            m1.insert(BARRIER@, "true"@).insert(
                BARRIER_REASON@,
                reason_or_generic(u.metadata.barrier->0.reason@),
            )
        } else {
            m1
        }
    }
}

pub open spec fn with_rollouts(
    m: Map<Seq<char>, Seq<char>>,
    version: Seq<char>,
    us: Seq<ReleaseUpdate>,
) -> Map<Seq<char>, Seq<char>>
    decreases us.len(),
{
    if us.len() == 0 {
        m
    } else {
        let u = us.last();
        let m1 = with_rollouts(m, version, us.drop_last());
        if u.version@ == version && u.metadata.rollout is Some {
            let ro = u.metadata.rollout->0;
            let m2 = m1.insert(ROLLOUT@, "true"@);
            let m3 = match ro.start_epoch {
                Some(v) => m2.insert(START_EPOCH@, signed_string(v as int)),
                None => m2,
            };
            let m4 = match ro.start_percentage {
                Some(v) => m3.insert(START_VALUE@, unit_string(v as nat)),
                None => m3,
            };
            match ro.duration_minutes {
                Some(v) => m4.insert(DURATION@, decimal_string(v as nat)),
                None => m4,
            }
        } else {
            m1
        }
    }
}

/// The metadata of the node for release `r` at position `i`.
pub open spec fn node_metadata(r: Release, i: int, us: Seq<ReleaseUpdate>, oci: bool) -> Map<
    Seq<char>,
    Seq<char>,
> {
    let base = with_artifacts(map![AGE_INDEX@ => decimal_string(i as nat)], r, oci);
    with_rollouts(with_barriers(with_deadends(base, r.version@, us), r.version@, us), r.version@, us)
}

pub open spec fn assembled_nodes(releases: Seq<Release>, us: Seq<ReleaseUpdate>, oci: bool) -> Seq<
    NodeView,
> {
    Seq::new(
        releases.len(),
        |i: int|
            NodeView {
                version: releases[i].version@,
                payload: Seq::empty(),
                metadata: node_metadata(releases[i], i, us, oci),
            },
    )
}

pub open spec fn flags_of(nodes: Seq<NodeView>, key: Seq<char>) -> Seq<bool> {
    nodes.map_values(|n: NodeView| n.metadata.contains_key(key))
}

/// The last barrier before position `r`, or 0 when there is none.
pub open spec fn prev_barrier(bar: Seq<bool>, r: int) -> int
    decreases r,
{
    if r <= 0 {
        0
    } else if bar[r - 1] {
        r - 1
    } else {
        prev_barrier(bar, r - 1)
    }
}

/// The edges `(i, t)` for `lo <= i < t`, in that order.
pub open spec fn edges_to(lo: int, t: int) -> Seq<(u64, u64)> {
    Seq::new((t - lo) as nat, |k: int| ((lo + k) as u64, t as u64))
}

/// Edges towards the rollouts at positions `j` and later, the highest first.
pub open spec fn rollout_edges(roll: Seq<bool>, bar: Seq<bool>, j: int) -> Seq<(u64, u64)>
    decreases roll.len() - j,
{
    if j < 0 || j >= roll.len() {
        Seq::empty()
    } else {
        rollout_edges(roll, bar, j + 1) + if roll[j] {
            edges_to(prev_barrier(bar, j), j)
        } else {
            Seq::empty()
        }
    }
}

/// Edges towards the barriers before position `k` that are not rollouts.
pub open spec fn barrier_edges(roll: Seq<bool>, bar: Seq<bool>, k: int) -> Seq<(u64, u64)>
    decreases k,
{
    if k <= 0 {
        Seq::empty()
    } else {
        barrier_edges(roll, bar, k - 1) + if bar[k - 1] && !roll[k - 1] {
            edges_to(prev_barrier(bar, k - 1), k - 1)
        } else {
            Seq::empty()
        }
    }
}

pub open spec fn edge_list(roll: Seq<bool>, bar: Seq<bool>) -> Seq<(u64, u64)> {
    rollout_edges(roll, bar, 0) + barrier_edges(roll, bar, roll.len() as int)
}

/// The edges that the rollout and barrier metadata of `nodes` call for.
pub open spec fn node_edges(nodes: Seq<NodeView>) -> Seq<(u64, u64)> {
    edge_list(flags_of(nodes, ROLLOUT@), flags_of(nodes, BARRIER@))
}

/// The graph assembled from a release index and updates metadata.
pub open spec fn assemble(releases: Seq<Release>, updates: UpdatesJSON, oci: bool) -> GraphView {
    let nodes = assembled_nodes(releases, updates.releases@, oci);
    GraphView { nodes, edges: node_edges(nodes) }
}

pub proof fn lemma_prev_barrier_below(bar: Seq<bool>, r: int)
    ensures
        0 <= prev_barrier(bar, r),
        r > 0 ==> prev_barrier(bar, r) < r,
    decreases r,
{
    if r > 0 && !bar[r - 1] {
        lemma_prev_barrier_below(bar, r - 1);
    }
}


fn arch_key_of(arch: &String) -> (r: String)
    ensures
        r@ == arch_key(arch@),
{
    let key = String::from_str(ARCH_PREFIX);
    let key = key.concat(".");
    key.concat(arch.as_str())
}

fn insert_commits(m: &mut Metadata, commits: &Vec<ReleaseCommit>)
    ensures
        final(m)@ == with_commits(old(m)@, commits@),
{
    let ghost m0 = m@;
    let mut i: usize = 0;
    while i < commits.len()
        invariant
            i <= commits@.len(),
            m@ == with_commits(m0, commits@.take(i as int)),
        decreases commits@.len() - i,
    {
        let c = &commits[i];
        assert(commits@.take(i + 1).drop_last() =~= commits@.take(i as int));
        if !c.architecture.as_str().is_empty() && !c.checksum.as_str().is_empty() {
            m.insert(arch_key_of(&c.architecture), c.checksum.clone());
        }
        i = i + 1;
    }
    assert(commits@.take(commits@.len() as int) =~= commits@);
}

fn insert_images(m: &mut Metadata, images: &Vec<ReleaseOciImage>)
    ensures
        final(m)@ == with_images(old(m)@, images@),
{
    let ghost m0 = m@;
    let mut i: usize = 0;
    while i < images.len()
        invariant
            i <= images@.len(),
            m@ == with_images(m0, images@.take(i as int)),
        decreases images@.len() - i,
    {
        let c = &images[i];
        assert(images@.take(i + 1).drop_last() =~= images@.take(i as int));
        if !c.architecture.as_str().is_empty() && !c.digest_ref.as_str().is_empty() {
            m.insert(arch_key_of(&c.architecture), c.digest_ref.clone());
        }
        i = i + 1;
    }
    assert(images@.take(images@.len() as int) =~= images@);
}

/// Every edge of `edges` goes from a lower position to a higher one, below `n`.
pub open spec fn edges_ordered(edges: Seq<(u64, u64)>, n: int) -> bool {
    forall|k: int|
        0 <= k < edges.len() ==> (#[trigger] edges[k]).0 < edges[k].1 && (edges[k].1 as int) < n
}

proof fn lemma_edges_to_ordered(lo: int, t: int, n: int)
    requires
        0 <= lo <= t < n <= u64::MAX + 1,
    ensures
        edges_ordered(edges_to(lo, t), n),
{
}

proof fn lemma_rollout_edges_ordered(roll: Seq<bool>, bar: Seq<bool>, j: int)
    requires
        0 <= j,
        roll.len() <= u64::MAX,
    ensures
        edges_ordered(rollout_edges(roll, bar, j), roll.len() as int),
    decreases roll.len() - j,
{
    if j < roll.len() {
        lemma_rollout_edges_ordered(roll, bar, j + 1);
        lemma_prev_barrier_below(bar, j);
        lemma_edges_to_ordered(prev_barrier(bar, j), j, roll.len() as int);
        let a = rollout_edges(roll, bar, j + 1);
        let b = if roll[j] {
            edges_to(prev_barrier(bar, j), j)
        } else {
            Seq::empty()
        };
        assert forall|k: int| 0 <= k < (a + b).len() implies (#[trigger] (a + b)[k]).0 < (a
            + b)[k].1 && ((a + b)[k].1 as int) < roll.len() by {
            if k < a.len() {
                assert((a + b)[k] == a[k]);
            } else {
                assert((a + b)[k] == b[k - a.len()]);
            }
        }
    }
}

proof fn lemma_barrier_edges_ordered(roll: Seq<bool>, bar: Seq<bool>, k: int)
    requires
        k <= roll.len() <= u64::MAX,
    ensures
        edges_ordered(barrier_edges(roll, bar, k), roll.len() as int),
    decreases k,
{
    if k > 0 {
        lemma_barrier_edges_ordered(roll, bar, k - 1);
        lemma_prev_barrier_below(bar, k - 1);
        lemma_edges_to_ordered(prev_barrier(bar, k - 1), k - 1, roll.len() as int);
        let a = barrier_edges(roll, bar, k - 1);
        let b = if bar[k - 1] && !roll[k - 1] {
            edges_to(prev_barrier(bar, k - 1), k - 1)
        } else {
            Seq::empty()
        };
        assert forall|m: int| 0 <= m < (a + b).len() implies (#[trigger] (a + b)[m]).0 < (a
            + b)[m].1 && ((a + b)[m].1 as int) < roll.len() by {
            if m < a.len() {
                assert((a + b)[m] == a[m]);
            } else {
                assert((a + b)[m] == b[m - a.len()]);
            }
        }
    }
}

/// Every edge of an assembled graph goes from an older release to a newer
/// one: `0 <= from < to < |nodes|`.
pub proof fn lemma_assembled_edges_ordered(releases: Seq<Release>, updates: UpdatesJSON, oci: bool)
    requires
        releases.len() <= u64::MAX,
    ensures
        edges_ordered(
            assemble(releases, updates, oci).edges,
            assemble(releases, updates, oci).nodes.len() as int,
        ),
{
    let nodes = assembled_nodes(releases, updates.releases@, oci);
    let roll = flags_of(nodes, ROLLOUT@);
    let bar = flags_of(nodes, BARRIER@);
    lemma_rollout_edges_ordered(roll, bar, 0);
    lemma_barrier_edges_ordered(roll, bar, roll.len() as int);
    let a = rollout_edges(roll, bar, 0);
    let b = barrier_edges(roll, bar, roll.len() as int);
    assert forall|m: int| 0 <= m < (a + b).len() implies (#[trigger] (a + b)[m]).0 < (a + b)[m].1
        && ((a + b)[m].1 as int) < roll.len() by {
        if m < a.len() {
            assert((a + b)[m] == a[m]);
        } else {
            assert((a + b)[m] == b[m - a.len()]);
        }
    }
}

/// No edge of `edges` jumps over a barrier: none goes from before a position
/// whose flag is set in `bar` to after it.
pub open spec fn barriers_kept(edges: Seq<(u64, u64)>, bar: Seq<bool>) -> bool {
    forall|k: int, b: int|
        #![trigger edges[k], bar[b]]
        0 <= k < edges.len() && 0 <= b < bar.len() && bar[b] ==> !(edges[k].0 < b && b
            < edges[k].1)
}

proof fn lemma_prev_barrier_above(bar: Seq<bool>, r: int, b: int)
    requires
        0 <= b < r <= bar.len(),
        bar[b],
    ensures
        b <= prev_barrier(bar, r),
    decreases r,
{
    if !bar[r - 1] {
        lemma_prev_barrier_above(bar, r - 1, b);
    }
}

proof fn lemma_block_keeps_barriers(bar: Seq<bool>, t: int)
    requires
        0 <= t < bar.len() <= u64::MAX,
    ensures
        barriers_kept(edges_to(prev_barrier(bar, t), t), bar),
{
    lemma_prev_barrier_below(bar, t);
    let e = edges_to(prev_barrier(bar, t), t);
    assert forall|k: int, b: int|
        #![trigger e[k], bar[b]]
        0 <= k < e.len() && 0 <= b < bar.len() && bar[b] implies !(e[k].0 < b && b < e[k].1) by {
        if b < t {
            lemma_prev_barrier_above(bar, t, b);
        }
    }
}

proof fn lemma_concat_keeps_barriers(a: Seq<(u64, u64)>, c: Seq<(u64, u64)>, bar: Seq<bool>)
    requires
        barriers_kept(a, bar),
        barriers_kept(c, bar),
    ensures
        barriers_kept(a + c, bar),
{
    assert forall|k: int, b: int|
        #![trigger (a + c)[k], bar[b]]
        0 <= k < (a + c).len() && 0 <= b < bar.len() && bar[b] implies !((a + c)[k].0 < b && b < (a
        + c)[k].1) by {
        if k < a.len() {
            assert((a + c)[k] == a[k]);
        } else {
            assert((a + c)[k] == c[k - a.len()]);
        }
    }
}

proof fn lemma_rollout_edges_keep_barriers(roll: Seq<bool>, bar: Seq<bool>, j: int)
    requires
        0 <= j,
        roll.len() == bar.len() <= u64::MAX,
    ensures
        barriers_kept(rollout_edges(roll, bar, j), bar),
    decreases roll.len() - j,
{
    if j < roll.len() {
        lemma_rollout_edges_keep_barriers(roll, bar, j + 1);
        lemma_block_keeps_barriers(bar, j);
        let b = if roll[j] {
            edges_to(prev_barrier(bar, j), j)
        } else {
            Seq::empty()
        };
        lemma_concat_keeps_barriers(rollout_edges(roll, bar, j + 1), b, bar);
    }
}

proof fn lemma_barrier_edges_keep_barriers(roll: Seq<bool>, bar: Seq<bool>, k: int)
    requires
        k <= roll.len() == bar.len() <= u64::MAX,
    ensures
        barriers_kept(barrier_edges(roll, bar, k), bar),
    decreases k,
{
    if k > 0 {
        lemma_barrier_edges_keep_barriers(roll, bar, k - 1);
        lemma_block_keeps_barriers(bar, k - 1);
        let b = if bar[k - 1] && !roll[k - 1] {
            edges_to(prev_barrier(bar, k - 1), k - 1)
        } else {
            Seq::empty()
        };
        lemma_concat_keeps_barriers(barrier_edges(roll, bar, k - 1), b, bar);
    }
}

/// Barriers cannot be skipped: no edge of an assembled graph goes from
/// before a barrier node to after it.
pub proof fn lemma_assembled_barriers_kept(releases: Seq<Release>, updates: UpdatesJSON, oci: bool)
    requires
        releases.len() <= u64::MAX,
    ensures
        barriers_kept(
            assemble(releases, updates, oci).edges,
            flags_of(assemble(releases, updates, oci).nodes, BARRIER@),
        ),
{
    let nodes = assembled_nodes(releases, updates.releases@, oci);
    let roll = flags_of(nodes, ROLLOUT@);
    let bar = flags_of(nodes, BARRIER@);
    lemma_rollout_edges_keep_barriers(roll, bar, 0);
    lemma_barrier_edges_keep_barriers(roll, bar, roll.len() as int);
    lemma_concat_keeps_barriers(
        rollout_edges(roll, bar, 0),
        barrier_edges(roll, bar, roll.len() as int),
        bar,
    );
}

/// No edge occurs twice in `edges`.
pub open spec fn edges_distinct(edges: Seq<(u64, u64)>) -> bool {
    forall|i: int, j: int| 0 <= i < j < edges.len() ==> edges[i] != edges[j]
}

proof fn lemma_concat_distinct(a: Seq<(u64, u64)>, c: Seq<(u64, u64)>)
    requires
        edges_distinct(a),
        edges_distinct(c),
        forall|i: int, j: int| 0 <= i < a.len() && 0 <= j < c.len() ==> a[i] != c[j],
    ensures
        edges_distinct(a + c),
{
    assert forall|i: int, j: int| 0 <= i < j < (a + c).len() implies (a + c)[i] != (a + c)[j] by {
        if j < a.len() {
            assert((a + c)[i] == a[i] && (a + c)[j] == a[j]);
        } else if i < a.len() {
            assert((a + c)[i] == a[i] && (a + c)[j] == c[j - a.len()]);
        } else {
            assert((a + c)[i] == c[i - a.len()] && (a + c)[j] == c[j - a.len()]);
        }
    }
}

proof fn lemma_rollout_edges_distinct(roll: Seq<bool>, bar: Seq<bool>, j: int)
    requires
        0 <= j,
        roll.len() == bar.len() <= u64::MAX,
    ensures
        edges_distinct(rollout_edges(roll, bar, j)),
        forall|k: int|
            0 <= k < rollout_edges(roll, bar, j).len() ==> j <= (#[trigger] rollout_edges(
                roll,
                bar,
                j,
            )[k]).1 < roll.len() && roll[rollout_edges(roll, bar, j)[k].1 as int],
    decreases roll.len() - j,
{
    if j < roll.len() {
        lemma_rollout_edges_distinct(roll, bar, j + 1);
        lemma_prev_barrier_below(bar, j);
        let a = rollout_edges(roll, bar, j + 1);
        let c = if roll[j] {
            edges_to(prev_barrier(bar, j), j)
        } else {
            Seq::empty()
        };
        assert(forall|i: int, m: int| 0 <= i < a.len() && 0 <= m < c.len() ==> a[i].1 != c[m].1);
        lemma_concat_distinct(a, c);
        assert forall|k: int| 0 <= k < (a + c).len() implies j <= (#[trigger] (a + c)[k]).1
            < roll.len() && roll[(a + c)[k].1 as int] by {
            if k < a.len() {
                assert((a + c)[k] == a[k]);
            } else {
                assert((a + c)[k] == c[k - a.len()]);
            }
        }
    }
}

proof fn lemma_barrier_edges_distinct(roll: Seq<bool>, bar: Seq<bool>, k: int)
    requires
        k <= roll.len() == bar.len() <= u64::MAX,
    ensures
        edges_distinct(barrier_edges(roll, bar, k)),
        forall|m: int|
            0 <= m < barrier_edges(roll, bar, k).len() ==> (#[trigger] barrier_edges(
                roll,
                bar,
                k,
            )[m]).1 < k && !roll[barrier_edges(roll, bar, k)[m].1 as int],
    decreases k,
{
    if k > 0 {
        lemma_barrier_edges_distinct(roll, bar, k - 1);
        lemma_prev_barrier_below(bar, k - 1);
        let a = barrier_edges(roll, bar, k - 1);
        let c = if bar[k - 1] && !roll[k - 1] {
            edges_to(prev_barrier(bar, k - 1), k - 1)
        } else {
            Seq::empty()
        };
        assert(forall|i: int, m: int| 0 <= i < a.len() && 0 <= m < c.len() ==> a[i].1 != c[m].1);
        lemma_concat_distinct(a, c);
        assert forall|m: int| 0 <= m < (a + c).len() implies (#[trigger] (a + c)[m]).1 < k
            && !roll[(a + c)[m].1 as int] by {
            if m < a.len() {
                assert((a + c)[m] == a[m]);
            } else {
                assert((a + c)[m] == c[m - a.len()]);
            }
        }
    }
}

/// Multi-edges are not produced: no edge occurs twice in an assembled graph.
pub proof fn lemma_assembled_edges_distinct(releases: Seq<Release>, updates: UpdatesJSON, oci: bool)
    requires
        releases.len() <= u64::MAX,
    ensures
        edges_distinct(assemble(releases, updates, oci).edges),
{
    let nodes = assembled_nodes(releases, updates.releases@, oci);
    let roll = flags_of(nodes, ROLLOUT@);
    let bar = flags_of(nodes, BARRIER@);
    lemma_rollout_edges_distinct(roll, bar, 0);
    lemma_barrier_edges_distinct(roll, bar, roll.len() as int);
    let a = rollout_edges(roll, bar, 0);
    let c = barrier_edges(roll, bar, roll.len() as int);
    assert forall|i: int, m: int| 0 <= i < a.len() && 0 <= m < c.len() implies a[i] != c[m] by {
        assert(roll[a[i].1 as int]);
        assert(!roll[c[m].1 as int]);
    }
    lemma_concat_distinct(a, c);
}

proof fn lemma_not_arch_key(k: Seq<char>, a: Seq<char>)
    requires
        !ARCH_PREFIX@.is_prefix_of(k),
    ensures
        k != arch_key(a),
{
    if k == arch_key(a) {
        assert(k.subrange(0, ARCH_PREFIX@.len() as int) =~= ARCH_PREFIX@);
    }
}

proof fn lemma_commits_keep(m: Map<Seq<char>, Seq<char>>, cs: Seq<ReleaseCommit>, k: Seq<char>)
    requires
        !ARCH_PREFIX@.is_prefix_of(k),
    ensures
        with_commits(m, cs).contains_key(k) == m.contains_key(k),
        with_commits(m, cs)[k] == m[k],
    decreases cs.len(),
{
    if cs.len() > 0 {
        lemma_commits_keep(m, cs.drop_last(), k);
        lemma_not_arch_key(k, cs.last().architecture@);
    }
}

proof fn lemma_images_keep(m: Map<Seq<char>, Seq<char>>, is: Seq<ReleaseOciImage>, k: Seq<char>)
    requires
        !ARCH_PREFIX@.is_prefix_of(k),
    ensures
        with_images(m, is).contains_key(k) == m.contains_key(k),
        with_images(m, is)[k] == m[k],
    decreases is.len(),
{
    if is.len() > 0 {
        lemma_images_keep(m, is.drop_last(), k);
        lemma_not_arch_key(k, is.last().architecture@);
    }
}

proof fn lemma_deadends_keep(
    m: Map<Seq<char>, Seq<char>>,
    v: Seq<char>,
    us: Seq<ReleaseUpdate>,
    k: Seq<char>,
)
    requires
        k != DEADEND@ && k != DEADEND_REASON@,
    ensures
        with_deadends(m, v, us).contains_key(k) == m.contains_key(k),
        with_deadends(m, v, us)[k] == m[k],
    decreases us.len(),
{
    if us.len() > 0 {
        lemma_deadends_keep(m, v, us.drop_last(), k);
    }
}

proof fn lemma_barriers_keep(
    m: Map<Seq<char>, Seq<char>>,
    v: Seq<char>,
    us: Seq<ReleaseUpdate>,
    k: Seq<char>,
)
    requires
        k != BARRIER@ && k != BARRIER_REASON@,
    ensures
        with_barriers(m, v, us).contains_key(k) == m.contains_key(k),
        with_barriers(m, v, us)[k] == m[k],
    decreases us.len(),
{
    if us.len() > 0 {
        lemma_barriers_keep(m, v, us.drop_last(), k);
    }
}

proof fn lemma_rollouts_keep(
    m: Map<Seq<char>, Seq<char>>,
    v: Seq<char>,
    us: Seq<ReleaseUpdate>,
    k: Seq<char>,
)
    requires
        k != ROLLOUT@ && k != START_EPOCH@ && k != START_VALUE@ && k != DURATION@,
    ensures
        with_rollouts(m, v, us).contains_key(k) == m.contains_key(k),
        with_rollouts(m, v, us)[k] == m[k],
    decreases us.len(),
{
    if us.len() > 0 {
        lemma_rollouts_keep(m, v, us.drop_last(), k);
    }
}

/// The age index of every assembled node is its position, in decimal.
pub proof fn lemma_age_index(releases: Seq<Release>, updates: UpdatesJSON, oci: bool, i: int)
    requires
        0 <= i < releases.len(),
    ensures
        assemble(releases, updates, oci).nodes[i].metadata.contains_key(AGE_INDEX@),
        assemble(releases, updates, oci).nodes[i].metadata[AGE_INDEX@] == decimal_string(i as nat),
{
    reveal_strlit("org.fedoraproject.coreos.releases.age_index");
    reveal_strlit("org.fedoraproject.coreos.releases.arch");
    reveal_strlit("org.fedoraproject.coreos.updates.barrier");
    reveal_strlit("org.fedoraproject.coreos.updates.barrier_reason");
    reveal_strlit("org.fedoraproject.coreos.updates.deadend");
    reveal_strlit("org.fedoraproject.coreos.updates.deadend_reason");
    reveal_strlit("org.fedoraproject.coreos.updates.rollout");
    reveal_strlit("org.fedoraproject.coreos.updates.duration_minutes");
    reveal_strlit("org.fedoraproject.coreos.updates.start_epoch");
    reveal_strlit("org.fedoraproject.coreos.updates.start_value");
    let k = AGE_INDEX@;
    assert(k[35] != ARCH_PREFIX@[35]);
    assert(!ARCH_PREFIX@.is_prefix_of(k)) by {
        if ARCH_PREFIX@.is_prefix_of(k) {
            assert(k.subrange(0, ARCH_PREFIX@.len() as int)[35] == k[35]);
        }
    }
    let r = releases[i];
    let us = updates.releases@;
    let base = map![AGE_INDEX@ => decimal_string(i as nat)];
    if oci {
        match r.oci_images {
            Some(images) => lemma_images_keep(base, images@, k),
            None => {},
        }
    } else {
        lemma_commits_keep(base, r.commits@, k);
    }
    let m1 = with_artifacts(base, r, oci);
    lemma_deadends_keep(m1, r.version@, us, k);
    let m2 = with_deadends(m1, r.version@, us);
    lemma_barriers_keep(m2, r.version@, us, k);
    let m3 = with_barriers(m2, r.version@, us);
    lemma_rollouts_keep(m3, r.version@, us, k);
}

impl Default for Graph {
    /// A graph with no nodes and no edges.
    fn default() -> (r: Graph)
        ensures
            r@.nodes.len() == 0,
            r@.edges.len() == 0,
    {
        Graph { nodes: Vec::new(), edges: Vec::new() }
    }
}

impl Graph {
    /// Computes the edges that the rollout and barrier metadata of `nodes`
    /// call for.
    pub fn compute_edges(nodes: &Vec<CincinnatiPayload>) -> (r: Vec<(u64, u64)>)
        ensures
            r@ == node_edges(nodes_view(nodes@)),
    {
        let ghost nv = nodes_view(nodes@);
        let ghost rf = flags_of(nv, ROLLOUT@);
        let ghost bf = flags_of(nv, BARRIER@);
        let n = nodes.len();
        let mut roll: Vec<bool> = Vec::new();
        let mut bar: Vec<bool> = Vec::new();
        let mut prev: Vec<usize> = Vec::new();
        let mut last: usize = 0;
        let mut i: usize = 0;
        while i < n
            invariant
                n == nodes@.len(),
                nv == nodes_view(nodes@),
                rf == flags_of(nv, ROLLOUT@),
                bf == flags_of(nv, BARRIER@),
                i <= n,
                roll@ == rf.take(i as int),
                bar@ == bf.take(i as int),
                prev@.len() == i,
                forall|j: int| 0 <= j < i ==> #[trigger] prev@[j] == prev_barrier(bf, j),
                last == prev_barrier(bf, i as int),
            decreases n - i,
        {
            let is_rollout = nodes[i].metadata.contains_key(ROLLOUT);
            let is_barrier = nodes[i].metadata.contains_key(BARRIER);
            roll.push(is_rollout);
            bar.push(is_barrier);
            prev.push(last);
            if is_barrier {
                last = i;
            }
            i = i + 1;
            assert(roll@ =~= rf.take(i as int));
            assert(bar@ =~= bf.take(i as int));
        }
        assert(roll@ =~= rf);
        assert(bar@ =~= bf);
        let mut edges: Vec<(u64, u64)> = Vec::new();
        let mut idx: usize = n;
        while idx > 0
            invariant
                n == rf.len() && n == bf.len(),
                roll@ == rf,
                bar@ == bf,
                prev@.len() == n,
                forall|j: int| 0 <= j < n ==> #[trigger] prev@[j] == prev_barrier(bf, j),
                idx <= n,
                edges@ == rollout_edges(rf, bf, idx as int),
            decreases idx,
        {
            idx = idx - 1;
            let ghost base = edges@;
            if roll[idx] {
                let lo = prev[idx];
                proof {
                    lemma_prev_barrier_below(bf, idx as int);
                }
                let mut k: usize = lo;
                while k < idx
                    invariant
                        lo <= k <= idx,
                        edges@ == base + edges_to(lo as int, idx as int).take(k - lo),
                    decreases idx - k,
                {
                    edges.push((k as u64, idx as u64));
                    k = k + 1;
                    assert(edges@ =~= base + edges_to(lo as int, idx as int).take(k - lo));
                }
                assert(edges_to(lo as int, idx as int).take(idx - lo) =~= edges_to(
                    lo as int,
                    idx as int,
                ));
            } else {
                assert(edges@ =~= base + Seq::<(u64, u64)>::empty());
            }
        }
        let ghost head = edges@;
        let mut t: usize = 0;
        while t < n
            invariant
                n == rf.len() && n == bf.len(),
                roll@ == rf,
                bar@ == bf,
                prev@.len() == n,
                forall|j: int| 0 <= j < n ==> #[trigger] prev@[j] == prev_barrier(bf, j),
                t <= n,
                head == rollout_edges(rf, bf, 0),
                edges@ == head + barrier_edges(rf, bf, t as int),
            decreases n - t,
        {
            let ghost base = edges@;
            if bar[t] && !roll[t] {
                let lo = prev[t];
                proof {
                    lemma_prev_barrier_below(bf, t as int);
                }
                let mut k: usize = lo;
                while k < t
                    invariant
                        lo <= k <= t,
                        edges@ == base + edges_to(lo as int, t as int).take(k - lo),
                    decreases t - k,
                {
                    edges.push((k as u64, t as u64));
                    k = k + 1;
                    assert(edges@ =~= base + edges_to(lo as int, t as int).take(k - lo));
                }
                assert(edges_to(lo as int, t as int).take(t - lo) =~= edges_to(
                    lo as int,
                    t as int,
                ));
            }
            t = t + 1;
            assert(edges@ =~= head + barrier_edges(rf, bf, t as int));
        }
        edges
    }

    /// Assembles the graph of `scope` from a release index and updates
    /// metadata: one node per release, in index order, and the edges that
    /// barriers and rollouts call for. Of the scope, only `oci` is read: it
    /// picks OCI images over commit checksums as per-architecture artifacts.
    /// No architecture is selected here (see `policy::pick_basearch`).
    pub fn from_metadata(releases: &Vec<Release>, updates: &UpdatesJSON, scope: &GraphScope) -> (r:
        Graph)
        ensures
            r@ == assemble(releases@, *updates, scope.oci),
    {
        let ghost target = assembled_nodes(releases@, updates.releases@, scope.oci);
        let mut nodes: Vec<CincinnatiPayload> = Vec::new();
        let mut i: usize = 0;
        while i < releases.len()
            invariant
                i <= releases@.len(),
                target == assembled_nodes(releases@, updates.releases@, scope.oci),
                nodes_view(nodes@) == target.take(i as int),
                nodes@.len() == i,
                target.len() == releases@.len(),
            decreases releases@.len() - i,
        {
            let entry = &releases[i];
            let mut metadata = Metadata::new();
            metadata.insert(String::from_str(AGE_INDEX), format_u64(i as u64));
            if scope.oci {
                match &entry.oci_images {
                    Some(images) => insert_images(&mut metadata, images),
                    None => {},
                }
            } else {
                insert_commits(&mut metadata, &entry.commits);
            }
            let mut current = CincinnatiPayload {
                version: entry.version.clone(),
                metadata,
                payload: String::new(),
            };
            Self::inject_deadend_reason(updates, &mut current);
            Self::inject_barrier_reason(updates, &mut current);
            Self::inject_throttling_params(updates, &mut current);
            let ghost before = nodes@;
            nodes.push(current);
            proof {
                assert(Map::<Seq<char>, Seq<char>>::empty().insert(
                    AGE_INDEX@,
                    decimal_string(i as nat),
                ) =~= map![AGE_INDEX@ => decimal_string(i as nat)]);
                assert(current@ == target[i as int]);
                assert(nodes@.drop_last() == before);
                assert forall|j: int| 0 <= j <= i implies #[trigger] nodes_view(nodes@)[j]
                    == target[j] by {
                    if j < i {
                        assert(nodes@[j] == before[j]);
                        assert(nodes_view(before)[j] == target.take(i as int)[j]);
                    }
                }
                assert(nodes_view(nodes@) =~= target.take(i + 1));
            }
            i = i + 1;
        }
        assert(target.take(releases@.len() as int) =~= target);
        let edges = Self::compute_edges(&nodes);
        Graph { nodes, edges }
    }

    /// Records the dead-end flag and reason of the updates entries for the
    /// node's release.
    pub fn inject_deadend_reason(updates: &UpdatesJSON, release: &mut CincinnatiPayload)
        ensures
            final(release).version == old(release).version,
            final(release).payload == old(release).payload,
            final(release).metadata@ == with_deadends(
                old(release).metadata@,
                old(release).version@,
                updates.releases@,
            ),
    {
        let ghost m0 = release.metadata@;
        let ghost us = updates.releases@;
        let mut i: usize = 0;
        while i < updates.releases.len()
            invariant
                us == updates.releases@,
                i <= us.len(),
                release.version == old(release).version,
                release.payload == old(release).payload,
                release.metadata@ == with_deadends(m0, release.version@, us.take(i as int)),
            decreases us.len() - i,
        {
            let entry = &updates.releases[i];
            assert(us.take(i + 1).drop_last() =~= us.take(i as int));
            if entry.version == release.version {
                match &entry.metadata.deadend {
                    Some(deadend) => {
                        let reason = if deadend.reason.as_str().is_empty() {
                            String::from_str("generic")
                        } else {
                            deadend.reason.clone()
                        };
                        release.metadata.insert(String::from_str(DEADEND), String::from_str("true"));
                        release.metadata.insert(String::from_str(DEADEND_REASON), reason);
                    },
                    None => {},
                }
            }
            i = i + 1;
        }
        assert(us.take(us.len() as int) =~= us);
    }

    /// Records the barrier flag and reason of the updates entries for the
    /// node's release.
    pub fn inject_barrier_reason(updates: &UpdatesJSON, release: &mut CincinnatiPayload)
        ensures
            final(release).version == old(release).version,
            final(release).payload == old(release).payload,
            final(release).metadata@ == with_barriers(
                old(release).metadata@,
                old(release).version@,
                updates.releases@,
            ),
    {
        let ghost m0 = release.metadata@;
        let ghost us = updates.releases@;
        let mut i: usize = 0;
        while i < updates.releases.len()
            invariant
                us == updates.releases@,
                i <= us.len(),
                release.version == old(release).version,
                release.payload == old(release).payload,
                release.metadata@ == with_barriers(m0, release.version@, us.take(i as int)),
            decreases us.len() - i,
        {
            let entry = &updates.releases[i];
            assert(us.take(i + 1).drop_last() =~= us.take(i as int));
            if entry.version == release.version {
                match &entry.metadata.barrier {
                    Some(barrier) => {
                        let reason = if barrier.reason.as_str().is_empty() {
                            String::from_str("generic")
                        } else {
                            barrier.reason.clone()
                        };
                        release.metadata.insert(String::from_str(BARRIER), String::from_str("true"));
                        release.metadata.insert(String::from_str(BARRIER_REASON), reason);
                    },
                    None => {},
                }
            }
            i = i + 1;
        }
        assert(us.take(us.len() as int) =~= us);
    }

    /// Records the rollout flag and parameters of the updates entries for the
    /// node's release.
    pub fn inject_throttling_params(updates: &UpdatesJSON, release: &mut CincinnatiPayload)
        ensures
            final(release).version == old(release).version,
            final(release).payload == old(release).payload,
            final(release).metadata@ == with_rollouts(
                old(release).metadata@,
                old(release).version@,
                updates.releases@,
            ),
    {
        let ghost m0 = release.metadata@;
        let ghost us = updates.releases@;
        let mut i: usize = 0;
        while i < updates.releases.len()
            invariant
                us == updates.releases@,
                i <= us.len(),
                release.version == old(release).version,
                release.payload == old(release).payload,
                release.metadata@ == with_rollouts(m0, release.version@, us.take(i as int)),
            decreases us.len() - i,
        {
            let entry = &updates.releases[i];
            assert(us.take(i + 1).drop_last() =~= us.take(i as int));
            if entry.version == release.version {
                match &entry.metadata.rollout {
                    Some(rollout) => {
                        release.metadata.insert(String::from_str(ROLLOUT), String::from_str("true"));
                        match rollout.start_epoch {
                            Some(v) => {
                                release.metadata.insert(String::from_str(START_EPOCH), format_i64(v));
                            },
                            None => {},
                        }
                        match rollout.start_percentage {
                            Some(v) => {
                                release.metadata.insert(
                                    String::from_str(START_VALUE),
                                    format_fraction(v),
                                );
                            },
                            None => {},
                        }
                        match rollout.duration_minutes {
                            Some(v) => {
                                release.metadata.insert(String::from_str(DURATION), format_u64(v));
                            },
                            None => {},
                        }
                    },
                    None => {},
                }
            }
            i = i + 1;
        }
        assert(us.take(us.len() as int) =~= us);
    }
}

} // verus!
