//! Request-time transformations of a served graph: architecture selection,
//! dead-end pruning and rollout throttling.
use vstd::prelude::*;

use crate::graph::{
    CincinnatiPayload, Graph, GraphView, Metadata, NodeView, arch_key, edges_ordered, keys_without,
};
use crate::metadata::{ARCH_PREFIX, DEADEND, DURATION, ROLLOUT, SCHEME, START_EPOCH, START_VALUE};
use crate::text::{
    UNIT, parse_fraction, parse_i64, parse_signed, parse_u64, parse_unit, parse_unsigned,
    same_text,
};

verus! {

/// The edges of `edges` that `keep` accepts, in their order.
pub open spec fn retain_edges(edges: Seq<(u64, u64)>, keep: spec_fn((u64, u64)) -> bool) -> Seq<
    (u64, u64),
>
    decreases edges.len(),
{
    if edges.len() == 0 {
        edges
    } else {
        let rest = retain_edges(edges.drop_last(), keep);
        if keep(edges.last()) {
            rest.push(edges.last())
        } else {
            rest
        }
    }
}

/// Whether the node at position `f` is a dead-end.
pub open spec fn is_deadend(nodes: Seq<NodeView>, f: u64) -> bool {
    &&& (f as int) < nodes.len()
    &&& nodes[f as int].metadata.contains_key(DEADEND@)
    &&& nodes[f as int].metadata[DEADEND@] == "true"@
}

/// `g` without the edges that leave a dead-end.
pub open spec fn deadends_filtered(g: GraphView) -> GraphView {
    GraphView {
        nodes: g.nodes,
        edges: retain_edges(g.edges, |e: (u64, u64)| !is_deadend(g.nodes, e.0)),
    }
}

/// The prefix of the per-architecture metadata keys.
pub open spec fn arch_prefix() -> Seq<char> {
    ARCH_PREFIX@ + "."@
}

pub open spec fn scheme_name(oci: bool) -> Seq<char> {
    if oci {
        "oci"@
    } else {
        "checksum"@
    }
}

/// A node after architecture selection: the payload for `arch`, if any, and
/// no per-architecture keys left.
pub open spec fn arch_selected_node(n: NodeView, arch: Seq<char>, oci: bool) -> NodeView {
    let m = n.metadata;
    if m.contains_key(arch_key(arch)) {
        NodeView {
            version: n.version,
            payload: m[arch_key(arch)],
            metadata: m.insert(SCHEME@, scheme_name(oci)).restrict(keys_without(arch_prefix())),
        }
    } else {
        NodeView {
            version: n.version,
            payload: n.payload,
            metadata: m.restrict(keys_without(arch_prefix())),
        }
    }
}

pub open spec fn arch_selected(g: GraphView, arch: Seq<char>, oci: bool) -> GraphView {
    GraphView {
        nodes: g.nodes.map_values(|n: NodeView| arch_selected_node(n, arch, oci)),
        edges: g.edges,
    }
}

/// The rollout start of a node (0 unless its metadata holds one).
pub open spec fn start_epoch_of(m: Map<Seq<char>, Seq<char>>) -> int {
    if m.contains_key(START_EPOCH@) && parse_signed(m[START_EPOCH@]) is Some && i64::MIN
        <= parse_signed(m[START_EPOCH@])->0 <= i64::MAX {
        parse_signed(m[START_EPOCH@])->0
    } else {
        0
    }
}

/// The initial throttling of a node, in millionths (0 unless its metadata
/// holds one).
pub open spec fn start_value_of(m: Map<Seq<char>, Seq<char>>) -> int {
    if m.contains_key(START_VALUE@) && parse_unit(m[START_VALUE@]) is Some {
        parse_unit(m[START_VALUE@])->0
    } else {
        0
    }
}

/// The rollout ramp of a node in minutes, at least one, if its metadata holds
/// one.
pub open spec fn duration_of(m: Map<Seq<char>, Seq<char>>) -> Option<int> {
    if m.contains_key(DURATION@) && parse_unsigned(m[DURATION@]) is Some
        && parse_unsigned(m[DURATION@])->0 <= u64::MAX {
        let v = parse_unsigned(m[DURATION@])->0;
        Some(
            if v < 1 {
                1
            } else {
                v
            },
        )
    } else {
        None
    }
}

/// The throttling of a rollout at time `now`, as the fraction
/// `num / (den * UNIT)`, with `den > 0`.
pub open spec fn throttling(m: Map<Seq<char>, Seq<char>>, now: int) -> (int, int) {
    let start = start_epoch_of(m);
    let sv = start_value_of(m);
    match duration_of(m) {
        Some(minutes) => {
            let d = minutes * 60;
            if now < start {
                (0, 1)
            } else if now > start + d {
                (UNIT as int, 1)
            } else {
                (sv * d + (UNIT - sv) * (now - start), d)
            }
        },
        None => {
            if now < start {
                (0, 1)
            } else {
                (sv, 1)
            }
        },
    }
}

pub open spec fn is_rollout(m: Map<Seq<char>, Seq<char>>) -> bool {
    m.contains_key(ROLLOUT@) && m[ROLLOUT@] == "true"@
}

/// Whether a client of wariness `w` (in millionths) is kept from a rollout:
/// its wariness exceeds the rollout's throttling.
pub open spec fn rollout_hidden(m: Map<Seq<char>, Seq<char>>, w: int, now: int) -> bool {
    is_rollout(m) && w * throttling(m, now).1 > throttling(m, now).0
}

pub open spec fn target_hidden(nodes: Seq<NodeView>, t: u64, w: int, now: int) -> bool {
    (t as int) < nodes.len() && rollout_hidden(nodes[t as int].metadata, w, now)
}

/// `g` without the edges towards rollouts that a client of wariness `w`
/// does not see at time `now`.
pub open spec fn throttled(g: GraphView, w: int, now: int) -> GraphView {
    GraphView {
        nodes: g.nodes,
        edges: retain_edges(g.edges, |e: (u64, u64)| !target_hidden(g.nodes, e.1, w, now)),
    }
}

/// Prunes the edges that leave a dead-end node.
pub fn filter_deadends(input: Graph) -> (r: Graph)
    ensures
        r@ == deadends_filtered(input@),
        r@.nodes == input@.nodes,
        edges_ordered(input@.edges, input@.nodes.len() as int) ==> edges_ordered(
            r@.edges,
            r@.nodes.len() as int,
        ),
{
    proof {
        if edges_ordered(input@.edges, input@.nodes.len() as int) {
            lemma_served_edges_ordered(input@, Seq::empty(), false, 0, 0);
        }
    }
    let ghost g = input@;
    let n = input.nodes.len();
    let mut deadends: Vec<bool> = Vec::new();
    let mut i: usize = 0;
    while i < n
        invariant
            n == input.nodes@.len(),
            g == input@,
            i <= n,
            deadends@.len() == i,
            forall|j: int| 0 <= j < i ==> #[trigger] deadends@[j] == is_deadend(g.nodes, j as u64),
        decreases n - i,
    {
        let dead = match input.nodes[i].metadata.get(DEADEND) {
            Some(v) => same_text(v.as_str(), "true"),
            None => false,
        };
        proof {
            assert(g.nodes[i as int] == input.nodes@[i as int]@);
        }
        deadends.push(dead);
        i = i + 1;
    }
    let ghost keep = |e: (u64, u64)| !is_deadend(g.nodes, e.0);
    let mut edges: Vec<(u64, u64)> = Vec::new();
    let mut k: usize = 0;
    while k < input.edges.len()
        invariant
            n == g.nodes.len(),
            g == input@,
            deadends@.len() == n,
            forall|j: int| 0 <= j < n ==> #[trigger] deadends@[j] == is_deadend(g.nodes, j as u64),
            keep == (|e: (u64, u64)| !is_deadend(g.nodes, e.0)),
            k <= g.edges.len(),
            edges@ == retain_edges(g.edges.take(k as int), keep),
        decreases g.edges.len() - k,
    {
        let e = input.edges[k];
        assert(g.edges.take(k + 1).drop_last() =~= g.edges.take(k as int));
        let dead = e.0 < n as u64 && deadends[e.0 as usize];
        if !dead {
            edges.push(e);
        }
        k = k + 1;
    }
    assert(g.edges.take(g.edges.len() as int) =~= g.edges);
    Graph { nodes: input.nodes, edges }
}

/// Architecture selection on one node.
fn select_arch(
    node: &mut CincinnatiPayload,
    basearch: &String,
    key: &String,
    prefix: &String,
    oci: bool,
)
    requires
        key@ == arch_key(basearch@),
        prefix@ == arch_prefix(),
    ensures
        final(node)@ == arch_selected_node(old(node)@, basearch@, oci),
{
    let found = match node.metadata.get(key.as_str()) {
        Some(v) => Some(v.clone()),
        None => None,
    };
    match found {
        Some(v) => {
            node.payload = v;
            let scheme = if oci {
                String::from_str("oci")
            } else {
                String::from_str("checksum")
            };
            node.metadata.insert(String::from_str(SCHEME), scheme);
        },
        None => {},
    }
    node.metadata.remove_prefixed(prefix.as_str());
}

/// Selects the payload of `basearch` in every node: where the node has an
/// artifact for it, that becomes the payload and the scheme is recorded
/// (`oci` or `checksum`). Every per-architecture key is then dropped.
pub fn pick_basearch(input: Graph, basearch: &String, oci: bool) -> (r: Graph)
    ensures
        r@ == arch_selected(input@, basearch@, oci),
{
    let ghost g = input@;
    let key = String::from_str(ARCH_PREFIX).concat(".").concat(basearch.as_str());
    let prefix = String::from_str(ARCH_PREFIX).concat(".");
    let ghost target = arch_selected(g, basearch@, oci).nodes;
    let mut nodes = input.nodes;
    let n = nodes.len();
    let mut i: usize = 0;
    while i < n
        invariant
            g == input@,
            target == arch_selected(g, basearch@, oci).nodes,
            n == nodes@.len(),
            n == g.nodes.len(),
            key@ == arch_key(basearch@),
            prefix@ == arch_prefix(),
            i <= n,
            forall|j: int| 0 <= j < i ==> #[trigger] nodes@[j]@ == target[j],
            forall|j: int| i <= j < n ==> #[trigger] nodes@[j]@ == g.nodes[j],
        decreases n - i,
    {
        select_arch(&mut nodes[i], basearch, &key, &prefix, oci);
        i = i + 1;
    }
    let r = Graph { nodes, edges: input.edges };
    assert(r@.nodes =~= target);
    r
}

/// Whether a client of wariness `w` is kept from the node with metadata `m`
/// at time `now`.
fn hidden_rollout(m: &Metadata, w: u64, now: i64) -> (r: bool)
    requires
        w <= UNIT,
    ensures
        r == rollout_hidden(m@, w as int, now as int),
{
    let rollout = match m.get(ROLLOUT) {
        Some(v) => same_text(v.as_str(), "true"),
        None => false,
    };
    if !rollout {
        return false;
    }
    let start: i64 = match m.get(START_EPOCH) {
        Some(v) => match parse_i64(v.as_str()) {
            Some(x) => x,
            None => 0,
        },
        None => 0,
    };
    let sv: u64 = match m.get(START_VALUE) {
        Some(v) => match parse_fraction(v.as_str()) {
            Some(x) => x,
            None => 0,
        },
        None => 0,
    };
    let minutes: Option<u64> = match m.get(DURATION) {
        Some(v) => match parse_u64(v.as_str()) {
            Some(x) => Some(
                if x < 1 {
                    1
                } else {
                    x
                },
            ),
            None => None,
        },
        None => None,
    };
    assert(start as int == start_epoch_of(m@));
    assert(sv as int == start_value_of(m@));
    let ghost wi = w as int;
    let ghost nowi = now as int;
    let w = w as i128;
    let now = now as i128;
    let start = start as i128;
    let sv = sv as i128;
    let unit = UNIT as i128;
    match minutes {
        Some(mins) => {
            assert(duration_of(m@) == Some(mins as int));
            let d = mins as i128 * 60;
            let ghost th = throttling(m@, now as int);
            if now < start {
                assert(th == (0int, 1int));
                assert(wi * th.1 == wi) by (nonlinear_arith)
                    requires
                        th.1 == 1,
                ;
                w > 0
            } else if now > start + d {
                assert(th == (UNIT as int, 1int));
                assert(wi * th.1 == wi) by (nonlinear_arith)
                    requires
                        th.1 == 1,
                ;
                w > unit
            } else {
                assert(th == (sv * d + (unit - sv) * (now - start), d as int));
                proof {
                    assert(0 <= w * d <= unit * d) by (nonlinear_arith)
                        requires
                            0 <= w <= unit,
                            0 <= d,
                    ;
                    assert(0 <= sv * d <= unit * d) by (nonlinear_arith)
                        requires
                            0 <= sv <= unit,
                            0 <= d,
                    ;
                    assert(0 <= (unit - sv) * (now - start) <= unit * d) by (nonlinear_arith)
                        requires
                            0 <= sv <= unit,
                            0 <= now - start <= d,
                    ;
                    assert(unit * d <= 1_000_000 * 60 * 18446744073709551615int) by (
                    nonlinear_arith)
                        requires
                            unit == 1_000_000,
                            0 <= d <= 60 * 18446744073709551615int,
                    ;
                }
                w * d > sv * d + (unit - sv) * (now - start)
            }
        },
        None => {
            if now < start {
                w > 0
            } else {
                w > sv
            }
        },
    }
}

/// Prunes the edges towards rollouts that a client of wariness
/// `client_wariness` (in millionths) does not see at Unix time `now`.
pub fn throttle_rollouts_at(input: Graph, client_wariness: u64, now: i64) -> (r: Graph)
    requires
        client_wariness <= UNIT,
    ensures
        r@ == throttled(input@, client_wariness as int, now as int),
        r@.nodes == input@.nodes,
        edges_ordered(input@.edges, input@.nodes.len() as int) ==> edges_ordered(
            r@.edges,
            r@.nodes.len() as int,
        ),
{
    proof {
        if edges_ordered(input@.edges, input@.nodes.len() as int) {
            lemma_served_edges_ordered(
                input@,
                Seq::empty(),
                false,
                client_wariness as int,
                now as int,
            );
        }
    }
    let ghost g = input@;
    let ghost w = client_wariness as int;
    let n = input.nodes.len();
    let mut hidden: Vec<bool> = Vec::new();
    let mut i: usize = 0;
    while i < n
        invariant
            n == input.nodes@.len(),
            g == input@,
            w == client_wariness,
            client_wariness <= UNIT,
            i <= n,
            hidden@.len() == i,
            forall|j: int| 0 <= j < i ==> #[trigger] hidden@[j] == target_hidden(g.nodes, j as u64, w, now as int),
        decreases n - i,
    {
        let h = hidden_rollout(&input.nodes[i].metadata, client_wariness, now);
        proof {
            assert(g.nodes[i as int] == input.nodes@[i as int]@);
        }
        hidden.push(h);
        i = i + 1;
    }
    let ghost keep = |e: (u64, u64)| !target_hidden(g.nodes, e.1, w, now as int);
    let mut edges: Vec<(u64, u64)> = Vec::new();
    let mut k: usize = 0;
    while k < input.edges.len()
        invariant
            n == g.nodes.len(),
            g == input@,
            hidden@.len() == n,
            forall|j: int| 0 <= j < n ==> #[trigger] hidden@[j] == target_hidden(g.nodes, j as u64, w, now as int),
            keep == (|e: (u64, u64)| !target_hidden(g.nodes, e.1, w, now as int)),
            k <= g.edges.len(),
            edges@ == retain_edges(g.edges.take(k as int), keep),
        decreases g.edges.len() - k,
    {
        let e = input.edges[k];
        assert(g.edges.take(k + 1).drop_last() =~= g.edges.take(k as int));
        let gone = e.1 < n as u64 && hidden[e.1 as usize];
        if !gone {
            edges.push(e);
        }
        k = k + 1;
    }
    assert(g.edges.take(g.edges.len() as int) =~= g.edges);
    Graph { nodes: input.nodes, edges }
}

/// The policy-engine pipeline on a graph fetched from the graph-builder:
/// rollout throttling for a client of wariness `client_wariness` (in
/// millionths) at the current time, then dead-end pruning.
pub fn apply_policy(input: Graph, client_wariness: u64) -> (r: Graph)
    requires
        client_wariness <= UNIT,
    ensures
        exists|now: i64|
            r@ == deadends_filtered(throttled(input@, client_wariness as int, now as int)),
        r@.nodes == input@.nodes,
        edges_ordered(input@.edges, input@.nodes.len() as int) ==> edges_ordered(
            r@.edges,
            r@.nodes.len() as int,
        ),
{
    let throttled_graph = throttle_rollouts(input, client_wariness);
    filter_deadends(throttled_graph)
}

/// Relies on chrono's `Utc::now` and `DateTime::timestamp`: the current Unix
/// time, in seconds.
#[verifier::external_body]
fn unix_now() -> (r: i64) {
    chrono::Utc::now().timestamp()
}

/// Prunes the edges towards rollouts that a client of wariness
/// `client_wariness` (in millionths) does not see now.
pub fn throttle_rollouts(input: Graph, client_wariness: u64) -> (r: Graph)
    requires
        client_wariness <= UNIT,
    ensures
        exists|now: i64| r@ == throttled(input@, client_wariness as int, now as int),
        r@.nodes == input@.nodes,
        edges_ordered(input@.edges, input@.nodes.len() as int) ==> edges_ordered(
            r@.edges,
            r@.nodes.len() as int,
        ),
{
    let now = unix_now();
    throttle_rollouts_at(input, client_wariness, now)
}

proof fn lemma_retain_keeps(edges: Seq<(u64, u64)>, keep: spec_fn((u64, u64)) -> bool)
    ensures
        forall|k: int|
            0 <= k < retain_edges(edges, keep).len() ==> keep(
                #[trigger] retain_edges(edges, keep)[k],
            ),
    decreases edges.len(),
{
    if edges.len() > 0 {
        let rest = retain_edges(edges.drop_last(), keep);
        lemma_retain_keeps(edges.drop_last(), keep);
        if keep(edges.last()) {
            let r = rest.push(edges.last());
            assert forall|k: int| 0 <= k < r.len() implies keep(#[trigger] r[k]) by {
                if k < rest.len() {
                    assert(r[k] == rest[k]);
                }
            }
        }
    }
}

proof fn lemma_retain_twice(edges: Seq<(u64, u64)>, keep: spec_fn((u64, u64)) -> bool)
    ensures
        retain_edges(retain_edges(edges, keep), keep) == retain_edges(edges, keep),
    decreases edges.len(),
{
    if edges.len() > 0 {
        let rest = retain_edges(edges.drop_last(), keep);
        lemma_retain_twice(edges.drop_last(), keep);
        if keep(edges.last()) {
            assert(rest.push(edges.last()).drop_last() =~= rest);
        }
    }
}

proof fn lemma_retain_all(edges: Seq<(u64, u64)>, keep: spec_fn((u64, u64)) -> bool)
    requires
        forall|e: (u64, u64)| #[trigger] keep(e),
    ensures
        retain_edges(edges, keep) == edges,
    decreases edges.len(),
{
    if edges.len() > 0 {
        lemma_retain_all(edges.drop_last(), keep);
        assert(edges.drop_last().push(edges.last()) =~= edges);
    }
}

/// No edge of a pruned graph leaves a dead-end.
pub proof fn lemma_no_edge_from_deadend(g: GraphView)
    ensures
        forall|k: int|
            0 <= k < deadends_filtered(g).edges.len() ==> !is_deadend(
                g.nodes,
                (#[trigger] deadends_filtered(g).edges[k]).0,
            ),
{
    lemma_retain_keeps(g.edges, |e: (u64, u64)| !is_deadend(g.nodes, e.0));
}

proof fn lemma_retain_ordered(edges: Seq<(u64, u64)>, keep: spec_fn((u64, u64)) -> bool, n: int)
    requires
        edges_ordered(edges, n),
    ensures
        edges_ordered(retain_edges(edges, keep), n),
    decreases edges.len(),
{
    if edges.len() > 0 {
        let d = edges.drop_last();
        assert forall|k: int| 0 <= k < d.len() implies (#[trigger] d[k]).0 < d[k].1 && (d[k].1 as int)
            < n by {
            assert(d[k] == edges[k]);
        }
        lemma_retain_ordered(d, keep, n);
        let rest = retain_edges(d, keep);
        if keep(edges.last()) {
            let r = rest.push(edges.last());
            assert forall|k: int| 0 <= k < r.len() implies (#[trigger] r[k]).0 < r[k].1 && (r[k].1 as int)
                < n by {
                if k < rest.len() {
                    assert(r[k] == rest[k]);
                } else {
                    assert(r[k] == edges[edges.len() - 1]);
                }
            }
        }
    }
}

/// The served graphs keep edges going forward: when every edge of `g` goes
/// from a lower position to a higher one among its nodes, so does every edge
/// after architecture selection, throttling and dead-end pruning.
pub proof fn lemma_served_edges_ordered(g: GraphView, arch: Seq<char>, oci: bool, w: int, now: int)
    requires
        edges_ordered(g.edges, g.nodes.len() as int),
    ensures
        edges_ordered(
            arch_selected(g, arch, oci).edges,
            arch_selected(g, arch, oci).nodes.len() as int,
        ),
        edges_ordered(throttled(g, w, now).edges, g.nodes.len() as int),
        edges_ordered(deadends_filtered(g).edges, g.nodes.len() as int),
        edges_ordered(
            deadends_filtered(throttled(g, w, now)).edges,
            g.nodes.len() as int,
        ),
{
    lemma_retain_ordered(g.edges, |e: (u64, u64)| !target_hidden(g.nodes, e.1, w, now), g.nodes.len() as int);
    lemma_retain_ordered(g.edges, |e: (u64, u64)| !is_deadend(g.nodes, e.0), g.nodes.len() as int);
    let t = throttled(g, w, now);
    lemma_retain_ordered(t.edges, |e: (u64, u64)| !is_deadend(t.nodes, e.0), g.nodes.len() as int);
}

/// Pruning dead-ends twice is pruning them once.
pub proof fn lemma_filter_deadends_idempotent(g: GraphView)
    ensures
        deadends_filtered(deadends_filtered(g)) == deadends_filtered(g),
{
    lemma_retain_twice(g.edges, |e: (u64, u64)| !is_deadend(g.nodes, e.0));
}

/// No edge of a throttled graph leads to a rollout whose throttling is below
/// the client's wariness.
pub proof fn lemma_no_edge_to_hidden_rollout(g: GraphView, w: int, now: int)
    ensures
        forall|k: int|
            0 <= k < throttled(g, w, now).edges.len() ==> !target_hidden(
                g.nodes,
                (#[trigger] throttled(g, w, now).edges[k]).1,
                w,
                now,
            ),
{
    lemma_retain_keeps(g.edges, |e: (u64, u64)| !target_hidden(g.nodes, e.1, w, now));
}

/// The initial throttling of a node is a fraction in `[0, 1]`.
proof fn lemma_start_value_bounds(m: Map<Seq<char>, Seq<char>>)
    ensures
        0 <= start_value_of(m) <= UNIT,
{
    if m.contains_key(START_VALUE@) {
        crate::text::lemma_parse_unit_bounds(m[START_VALUE@]);
    }
}

/// The rollout parameters that throttling reads are in range: the start value
/// is a fraction in `[0, 1]` and a ramp lasts at least one minute.
pub proof fn lemma_rollout_params_in_range(m: Map<Seq<char>, Seq<char>>)
    ensures
        0 <= start_value_of(m) <= UNIT,
        duration_of(m) is Some ==> duration_of(m)->0 >= 1,
{
    lemma_start_value_bounds(m);
}

/// Throttling never falls below zero.
pub proof fn lemma_throttling_nonnegative(m: Map<Seq<char>, Seq<char>>, now: int)
    ensures
        throttling(m, now).0 >= 0,
        throttling(m, now).1 > 0,
{
    lemma_start_value_bounds(m);
    let sv = start_value_of(m);
    let start = start_epoch_of(m);
    match duration_of(m) {
        Some(minutes) => {
            let d = minutes * 60;
            if start <= now <= start + d {
                assert(sv * d + (UNIT - sv) * (now - start) >= 0) by (nonlinear_arith)
                    requires
                        0 <= sv <= UNIT,
                        0 <= d,
                        0 <= now - start,
                ;
            }
        },
        None => {},
    }
}

/// A client of wariness zero sees every rollout: throttling keeps the graph.
pub proof fn lemma_zero_wariness_keeps_graph(g: GraphView, now: int)
    ensures
        throttled(g, 0, now) == g,
{
    let keep = |e: (u64, u64)| !target_hidden(g.nodes, e.1, 0, now);
    assert forall|e: (u64, u64)| #[trigger] keep(e) by {
        if (e.1 as int) < g.nodes.len() {
            let m = g.nodes[e.1 as int].metadata;
            lemma_throttling_nonnegative(m, now);
            assert(0 * throttling(m, now).1 == 0);
        }
    }
    lemma_retain_all(g.edges, keep);
}

/// Throttling with wariness zero twice is throttling it once.
pub proof fn lemma_zero_wariness_idempotent(g: GraphView, now: int)
    ensures
        throttled(throttled(g, 0, now), 0, now) == throttled(g, 0, now),
{
    lemma_zero_wariness_keeps_graph(g, now);
}

/// A client of full wariness (one) sees no edge towards a rollout whose
/// throttling is strictly below one.
pub proof fn lemma_full_wariness_hides_ramping(g: GraphView, now: int)
    ensures
        forall|k: int|
            0 <= k < throttled(g, UNIT as int, now).edges.len() ==> {
                let t = (#[trigger] throttled(g, UNIT as int, now).edges[k]).1 as int;
                t < g.nodes.len() && is_rollout(g.nodes[t].metadata) ==> throttling(
                    g.nodes[t].metadata,
                    now,
                ).0 >= UNIT * throttling(g.nodes[t].metadata, now).1
            },
{
    lemma_no_edge_to_hidden_rollout(g, UNIT as int, now);
}

/// After architecture selection no per-architecture key is left, and every
/// node that had a non-empty artifact for the architecture carries it as
/// payload, with its scheme.
pub proof fn lemma_arch_selected(g: GraphView, arch: Seq<char>, oci: bool)
    ensures
        forall|i: int, k: Seq<char>|
            0 <= i < g.nodes.len() && #[trigger] arch_selected(g, arch, oci).nodes[i].metadata.contains_key(k)
                ==> !arch_prefix().is_prefix_of(k),
        forall|i: int|
            0 <= i < g.nodes.len() && g.nodes[i].metadata.contains_key(arch_key(arch))
                && g.nodes[i].metadata[arch_key(arch)].len() > 0 ==> {
                let n = #[trigger] arch_selected(g, arch, oci).nodes[i];
                &&& n.payload == g.nodes[i].metadata[arch_key(arch)]
                &&& n.payload.len() > 0
                &&& n.metadata.contains_key(SCHEME@)
                &&& (n.metadata[SCHEME@] == "checksum"@ || n.metadata[SCHEME@] == "oci"@)
            },
{
    reveal_strlit("org.fedoraproject.coreos.scheme");
    reveal_strlit("org.fedoraproject.coreos.releases.arch");
    reveal_strlit(".");
    assert(!arch_prefix().is_prefix_of(SCHEME@)) by {
        if arch_prefix().is_prefix_of(SCHEME@) {
            assert(SCHEME@.subrange(0, arch_prefix().len() as int)[25] == SCHEME@[25]);
            assert(arch_prefix()[25] == 'r');
        }
    }
}

proof fn lemma_arch_key_prefixed(arch: Seq<char>)
    ensures
        arch_prefix().is_prefix_of(arch_key(arch)),
{
    assert(arch_key(arch).subrange(0, arch_prefix().len() as int) =~= arch_prefix());
}

/// Selecting the same architecture twice is selecting it once.
pub proof fn lemma_arch_select_idempotent(g: GraphView, arch: Seq<char>, oci: bool)
    ensures
        arch_selected(arch_selected(g, arch, oci), arch, oci) == arch_selected(g, arch, oci),
{
    lemma_arch_key_prefixed(arch);
    let once = arch_selected(g, arch, oci);
    let twice = arch_selected(once, arch, oci);
    assert forall|i: int| 0 <= i < g.nodes.len() implies #[trigger] twice.nodes[i] == once.nodes[i] by {
        let n = once.nodes[i];
        assert(!n.metadata.contains_key(arch_key(arch)));
        assert(n.metadata.restrict(keys_without(arch_prefix())) =~= n.metadata);
    }
    assert(twice.nodes =~= once.nodes);
}

} // verus!
