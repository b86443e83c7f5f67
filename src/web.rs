//! Validation of the scope that a graph request names.
use vstd::prelude::*;

use crate::graph::GraphScope;

verus! {

/// Why a request does not name a valid scope.
#[derive(Debug, PartialEq, Eq, Structural)]
pub enum ScopeError {
    MissingBasearch,
    EmptyBasearch,
    MissingStream,
    EmptyStream,
    NotAllowed,
}

/// Whether `list` holds a scope equal to `scope`.
pub open spec fn scope_listed(
    list: Seq<GraphScope>,
    basearch: Seq<char>,
    stream: Seq<char>,
    oci: bool,
) -> bool {
    exists|i: int|
        0 <= i < list.len() && (#[trigger] list[i]).basearch@ == basearch && list[i].stream@
            == stream && list[i].oci == oci
}

/// The outcome of validating the given query parameters.
pub open spec fn scope_outcome(
    basearch: Option<String>,
    stream: Option<String>,
    oci: Option<bool>,
    allowlist: Option<Vec<GraphScope>>,
) -> Result<(Seq<char>, Seq<char>, bool), ScopeError> {
    if basearch is None {
        Err(ScopeError::MissingBasearch)
    } else if basearch->0@.len() == 0 {
        Err(ScopeError::EmptyBasearch)
    } else if stream is None {
        Err(ScopeError::MissingStream)
    } else if stream->0@.len() == 0 {
        Err(ScopeError::EmptyStream)
    } else {
        let b = basearch->0@;
        let s = stream->0@;
        let o = match oci {
            Some(b) => b,
            None => false,
        };
        match allowlist {
            Some(list) => if scope_listed(list@, b, s, o) {
                Ok((b, s, o))
            } else {
                Err(ScopeError::NotAllowed)
            },
            None => Ok((b, s, o)),
        }
    }
}

/// Validates query parameters into a graph scope: both `basearch` and
/// `stream` must be given and non-empty, `oci` defaults to false, and the
/// scope must be in `scope_allowlist` when there is one.
pub fn validate_scope(
    basearch: Option<String>,
    stream: Option<String>,
    oci: Option<bool>,
    scope_allowlist: &Option<Vec<GraphScope>>,
) -> (r: Result<GraphScope, ScopeError>)
    ensures
        match scope_outcome(basearch, stream, oci, *scope_allowlist) {
            Ok(s) => r is Ok && r->Ok_0.basearch@ == s.0 && r->Ok_0.stream@ == s.1 && r->Ok_0.oci
                == s.2,
            Err(e) => r == Err::<GraphScope, ScopeError>(e),
        },
{
    let arch = match &basearch {
        Some(b) => b.clone(),
        None => return Err(ScopeError::MissingBasearch),
    };
    if arch.as_str().is_empty() {
        return Err(ScopeError::EmptyBasearch);
    }
    let name = match &stream {
        Some(s) => s.clone(),
        None => return Err(ScopeError::MissingStream),
    };
    if name.as_str().is_empty() {
        return Err(ScopeError::EmptyStream);
    }
    let flag = match oci {
        Some(b) => b,
        None => false,
    };
    let scope = GraphScope { basearch: arch, stream: name, oci: flag };
    match scope_allowlist {
        Some(list) => {
            let mut i: usize = 0;
            while i < list.len()
                invariant
                    i <= list@.len(),
                    *scope_allowlist == Some(*list),
                    basearch is Some && scope.basearch@ == basearch->0@,
                    stream is Some && scope.stream@ == stream->0@,
                    scope.basearch@.len() > 0 && scope.stream@.len() > 0,
                    scope.oci == match oci {
                        Some(b) => b,
                        None => false,
                    },
                    forall|j: int|
                        0 <= j < i ==> !((#[trigger] list@[j]).basearch@ == scope.basearch@
                            && list@[j].stream@ == scope.stream@ && list@[j].oci == scope.oci),
                decreases list@.len() - i,
            {
                if list[i] == scope {
                    assert(list@[i as int].basearch@ == scope.basearch@);
                    assert(list@[i as int].stream@ == scope.stream@);
                    assert(scope_listed(list@, scope.basearch@, scope.stream@, scope.oci));
                    return Ok(scope);
                }
                i = i + 1;
            }
            Err(ScopeError::NotAllowed)
        },
        None => Ok(scope),
    }
}

} // verus!
