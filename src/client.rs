//! Per-request client parameters: the query of a graph request, the client's
//! rollout wariness, and the count of distinct clients.
use vstd::prelude::*;

use crate::text::{UNIT, parse_fraction, parse_unit};

verus! {

/// Parameters of a graph request.
pub struct GraphQuery {
    pub basearch: Option<String>,
    pub stream: Option<String>,
    pub rollout_wariness: Option<String>,
    pub node_uuid: Option<String>,
    pub oci: Option<bool>,
}

/// The 64-bit hash of a node UUID.
pub uninterp spec fn uuid_hash(uuid: Seq<char>) -> u64;

/// Relies on std's `DefaultHasher`, built through `BuildHasherDefault` (fixed
/// keys, no per-process seed): the hash of a string depends on the string alone.
#[verifier::external_body]
fn hash_uuid(uuid: &String) -> (r: u64)
    ensures
        r == uuid_hash(uuid@),
{
    std::hash::BuildHasher::hash_one(
        &std::hash::BuildHasherDefault::<std::collections::hash_map::DefaultHasher>::default(),
        uuid,
    )
}

/// A hash scaled into `(0, 1]`, in millionths, at least one millionth.
pub open spec fn digest_wariness(digest: u64) -> int {
    let scaled = (digest as int * UNIT as int) / (u64::MAX as int);
    if scaled < 1 {
        1
    } else {
        scaled
    }
}

/// The wariness of a client, in millionths: the one it asks for, clamped to
/// `[0, 1]`, if it parses; else one derived from its node UUID; else the
/// least one.
pub open spec fn query_wariness(q: GraphQuery) -> int {
    if q.rollout_wariness is Some && parse_unit(q.rollout_wariness->0@) is Some {
        parse_unit(q.rollout_wariness->0@)->0
    } else {
        match q.node_uuid {
            Some(uuid) => digest_wariness(uuid_hash(uuid@)),
            None => 1,
        }
    }
}

/// Scales a 64-bit hash into a wariness in `(0, 1]`, in millionths.
pub fn wariness_from_digest(digest: u64) -> (r: u64)
    ensures
        r == digest_wariness(digest),
        1 <= r <= UNIT,
{
    let scaled = (digest as u128 * UNIT as u128) / (u64::MAX as u128);
    proof {
        assert(digest as int * UNIT as int <= u64::MAX as int * UNIT as int) by (nonlinear_arith)
            requires
                digest <= u64::MAX,
        ;
        assert((digest as int * UNIT as int) / (u64::MAX as int) <= UNIT as int) by (
        nonlinear_arith)
            requires
                digest as int * UNIT as int <= u64::MAX as int * UNIT as int,
        ;
    }
    if scaled < 1 {
        1
    } else {
        scaled as u64
    }
}

/// The rollout wariness of the client that sent `params`, in millionths.
pub fn compute_wariness(params: &GraphQuery) -> (r: u64)
    ensures
        r == query_wariness(*params),
        r <= UNIT,
{
    match &params.rollout_wariness {
        Some(text) => match parse_fraction(text.as_str()) {
            Some(w) => {
                return w;
            },
            None => {},
        },
        None => {},
    }
    match &params.node_uuid {
        Some(uuid) => wariness_from_digest(hash_uuid(uuid)),
        None => 1,
    }
}

/// Two requests with the same wariness and node UUID get the same wariness:
/// it is a function of those strings alone.
pub proof fn lemma_wariness_stable(a: GraphQuery, b: GraphQuery)
    requires
        a.rollout_wariness is Some <==> b.rollout_wariness is Some,
        a.rollout_wariness is Some ==> a.rollout_wariness->0@ == b.rollout_wariness->0@,
        a.node_uuid is Some <==> b.node_uuid is Some,
        a.node_uuid is Some ==> a.node_uuid->0@ == b.node_uuid->0@,
    ensures
        query_wariness(a) == query_wariness(b),
{
}

#[verifier::external_type_specification]
#[verifier::external_body]
pub struct ExFilter(cbloom::Filter);

/// The number of 64-bit words of a Bloom filter's bit array.
pub uninterp spec fn filter_words(f: cbloom::Filter) -> nat;

/// Relies on cbloom's `Filter::new`: the bit array has `bytes` rounded up to
/// whole words (`with_size_and_hashers`); it divides by `expected_elements`.
#[verifier::external_body]
fn new_filter(bytes: usize, expected_elements: usize) -> (r: cbloom::Filter)
    requires
        expected_elements > 0,
    ensures
        bytes > 0 ==> filter_words(r) > 0,
{
    cbloom::Filter::new(bytes, expected_elements)
}

/// A Bloom filter of `bytes` bytes for about `expected_elements` members, or
/// `None` when either is zero.
pub fn new_population(bytes: usize, expected_elements: usize) -> (r: Option<cbloom::Filter>)
    ensures
        r is Some <==> bytes > 0 && expected_elements > 0,
        r is Some ==> filter_words(r->0) > 0,
{
    if bytes == 0 || expected_elements == 0 {
        None
    } else {
        Some(new_filter(bytes, expected_elements))
    }
}

/// Relies on cbloom's `Filter::maybe_contains`, which indexes the bit array
/// modulo its length.
#[verifier::external_body]
fn filter_maybe_contains(f: &cbloom::Filter, x: u64) -> (r: bool)
    requires
        filter_words(*f) > 0,
{
    f.maybe_contains(x)
}

/// Relies on cbloom's `Filter::insert`, which indexes the bit array modulo
/// its length.
#[verifier::external_body]
fn filter_insert(f: &cbloom::Filter, x: u64)
    requires
        filter_words(*f) > 0,
{
    f.insert(x)
}

/// The hash of the request's node UUID, if it has one: what the population
/// filter is asked about and given.
pub fn client_digest(params: &GraphQuery) -> (r: Option<u64>)
    ensures
        r == match params.node_uuid {
            Some(u) => Some(uuid_hash(u@)),
            None => None::<u64>,
        },
{
    match &params.node_uuid {
        Some(uuid) => Some(hash_uuid(uuid)),
        None => None,
    }
}

/// Whether a request counts as a new client: it has a node UUID whose hash
/// the filter did not report as present.
pub fn counts_as_new(digest: Option<u64>, reported: bool) -> (r: bool)
    ensures
        r == (digest is Some && !reported),
{
    digest.is_some() && !reported
}

/// Counts the client of a request in the population of distinct node UUIDs:
/// the hash of its node UUID, if any, is looked up in the filter and, when
/// the filter does not report it, added; the result says whether it was new.
pub fn note_client(population: &cbloom::Filter, params: &GraphQuery) -> (r: bool)
    requires
        filter_words(*population) > 0,
    ensures
        r ==> params.node_uuid is Some,
{
    let digest = client_digest(params);
    let reported = match digest {
        Some(d) => {
            let present = filter_maybe_contains(population, d);
            if !present {
                filter_insert(population, d);
            }
            present
        },
        None => false,
    };
    counts_as_new(digest, reported)
}
} // verus!
