//! Routing: which handler serves a path.

use vstd::prelude::*;
use vstd::utf8::*;

use crate::text::lemma_ascii_prefix;

verus! {

/// Why a path cannot be routed.
#[derive(Debug, Clone, Copy, PartialEq, Eq, Structural)]
pub enum RouteError {
    InvalidPath,
}

/// The handler that serves a path.
#[derive(Debug, Clone, Copy, PartialEq, Eq, Structural)]
pub enum RouteTarget {
    Static,
    Proxy,
}

/// Paths under `/api` go upstream, other paths that start with `/` are
/// static files, and any other path cannot be routed.
pub open spec fn route_of(path: Seq<char>) -> Result<RouteTarget, RouteError> {
    if path.len() >= 4 && path.subrange(0, 4) == seq!['/', 'a', 'p', 'i'] {
        Ok(RouteTarget::Proxy)
    } else if path.len() >= 1 && path[0] == '/' {
        Ok(RouteTarget::Static)
    } else {
        Err(RouteError::InvalidPath)
    }
}

pub fn route_resolver(path: &str) -> (r: Result<RouteTarget, RouteError>)
    ensures
        r == route_of(path@),
{
    let b = path.as_bytes();
    let ghost api = seq!['/', 'a', 'p', 'i'];
    let ghost slash = seq!['/'];
    proof {
        lemma_ascii_prefix(path@, api);
        lemma_ascii_prefix(path@, slash);
        is_ascii_chars_encode_utf8(api);
        is_ascii_chars_encode_utf8(slash);
        assert(slash.subrange(0, 1) =~= slash);
    }
    if b.len() >= 4 && b[0] == 47 && b[1] == 97 && b[2] == 112 && b[3] == 105 {
        assert(b@.subrange(0, 4) =~= encode_utf8(api));
        Ok(RouteTarget::Proxy)
    } else if b.len() >= 1 && b[0] == 47 {
        assert(b@.subrange(0, 1) =~= encode_utf8(slash));
        proof {
            if path@.len() >= 4 && path@.subrange(0, 4) == api {
                assert(b@.subrange(0, 4) == encode_utf8(api));
                assert(b@[1] == b@.subrange(0, 4)[1]);
                assert(b@[2] == b@.subrange(0, 4)[2]);
                assert(b@[3] == b@.subrange(0, 4)[3]);
            }
            assert(path@.subrange(0, 1) == slash);
            assert(path@[0] == path@.subrange(0, 1)[0]);
        }
        Ok(RouteTarget::Static)
    } else {
        proof {
            if path@.len() >= 4 && path@.subrange(0, 4) == api {
                assert(b@.subrange(0, 4) == encode_utf8(api));
                assert(b@[0] == b@.subrange(0, 4)[0]);
                assert(b@[1] == b@.subrange(0, 4)[1]);
                assert(b@[2] == b@.subrange(0, 4)[2]);
                assert(b@[3] == b@.subrange(0, 4)[3]);
            }
            if path@.len() >= 1 && path@[0] == '/' {
                assert(path@.subrange(0, 1) =~= slash);
                assert(b@[0] == b@.subrange(0, 1)[0]);
            }
        }
        Err(RouteError::InvalidPath)
    }
}

/// Whether `path` starts with `/api`, character by character.
pub open spec fn starts_with_api(path: Seq<char>) -> bool {
    &&& path.len() >= 4
    &&& path[0] == '/'
    &&& path[1] == 'a'
    &&& path[2] == 'p'
    &&& path[3] == 'i'
}

/// A path goes upstream exactly when it starts with `/api`; every other path
/// that starts with `/` is a static file (`/app.js` and `/ap` among them);
/// and a path that does not start with `/` cannot be routed.
pub proof fn lemma_routing(path: Seq<char>)
    ensures
        (route_of(path) == Ok::<RouteTarget, RouteError>(RouteTarget::Proxy)) <==> starts_with_api(path),
        (route_of(path) == Ok::<RouteTarget, RouteError>(RouteTarget::Static)) <==> (path.len() >= 1
            && path[0] == '/' && !starts_with_api(path)),
        (route_of(path) == Err::<RouteTarget, RouteError>(RouteError::InvalidPath)) <==> (path.len()
            == 0 || path[0] != '/'),
{
    let api = seq!['/', 'a', 'p', 'i'];
    if starts_with_api(path) {
        assert(path.subrange(0, 4) =~= api);
    }
    if path.len() >= 4 && path.subrange(0, 4) == api {
        assert(path[0] == path.subrange(0, 4)[0]);
        assert(path[1] == path.subrange(0, 4)[1]);
        assert(path[2] == path.subrange(0, 4)[2]);
        assert(path[3] == path.subrange(0, 4)[3]);
    }
}

} // verus!
