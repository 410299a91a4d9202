//! Which endpoint a request goes to.
use vstd::prelude::*;

use crate::text::{chars_of, compare_char_seqs, TextOrder};

verus! {

/// Request bodies longer than this many bytes are refused.
pub const MAX_BODY: u64 = 1048576;

/// The request methods the server tells apart.
#[derive(Clone, Copy, PartialEq, Eq, Debug, Structural)]
pub enum Method {
    Get,
    Post,
    Other,
}

/// Where a request goes.
#[derive(Clone, Copy, PartialEq, Eq, Debug, Structural)]
pub enum Endpoint {
    /// `GET /health`: liveness.
    Health,
    /// `POST /sync`: push and pull in one round trip.
    Sync,
    /// `GET /habits`: the current habits.
    Habits,
    /// `GET /analytics`: streaks and completion per habit.
    Analytics,
    /// Anything else: 404.
    NotFound,
    /// A body over `MAX_BODY` bytes: 413.
    TooLarge,
}

/// `path` is the part of `url` before the first `?`, or all of it.
pub open spec fn is_path_of(url: Seq<char>, path: Seq<char>) -> bool {
    &&& path.len() <= url.len()
    &&& path == url.take(path.len() as int)
    &&& forall|i: int| 0 <= i < path.len() ==> path[i] != '?'
    &&& (path.len() == url.len() || url[path.len() as int] == '?')
}

/// The endpoint of a request with this method, path and body length.
pub open spec fn endpoint_of(method: Method, path: Seq<char>, body_len: int) -> Endpoint {
    if body_len > MAX_BODY {
        Endpoint::TooLarge
    } else if method == Method::Get && path == "/health"@ {
        Endpoint::Health
    } else if method == Method::Post && path == "/sync"@ {
        Endpoint::Sync
    } else if method == Method::Get && path == "/habits"@ {
        Endpoint::Habits
    } else if method == Method::Get && path == "/analytics"@ {
        Endpoint::Analytics
    } else {
        Endpoint::NotFound
    }
}

/// The characters of `url` before its first `?`.
pub fn path_of(url: &str) -> (path: Vec<char>)
    ensures
        is_path_of(url@, path@),
{
    let cs = chars_of(url);
    let mut path: Vec<char> = Vec::new();
    let mut i: usize = 0;
    while i < cs.len() && cs[i] != '?'
        invariant
            cs@ == url@,
            i <= cs@.len(),
            path@ == cs@.take(i as int),
            forall|j: int| 0 <= j < i ==> cs@[j] != '?',
        decreases cs@.len() - i,
    {
        path.push(cs[i]);
        i = i + 1;
        assert(path@ =~= cs@.take(i as int));
    }
    path
}

fn is_text(path: &[char], literal: &str) -> (r: bool)
    ensures
        r == (path@ == literal@),
{
    let lit = chars_of(literal);
    match compare_char_seqs(path, lit.as_slice()) {
        TextOrder::Equal => true,
        _ => false,
    }
}

/// Routes a request: an oversized body is refused first, then the method
/// and the path before any query string pick the endpoint.
pub fn route(method: Method, url: &str, body_len: usize) -> (e: Endpoint)
    ensures
        exists|p: Seq<char>| is_path_of(url@, p) && e == endpoint_of(method, p, body_len as int),
        forall|p: Seq<char>| is_path_of(url@, p) ==> e == endpoint_of(method, p, body_len as int),
{
    let path = path_of(url);
    proof {
        assert forall|p: Seq<char>| is_path_of(url@, p) implies p == path@ by {
            if p.len() < path@.len() {
                assert(url@[p.len() as int] == path@[p.len() as int]);
            } else if p.len() > path@.len() {
                assert(url@[path@.len() as int] == p[path@.len() as int]);
            }
            assert(p =~= path@);
        }
    }
    assert(is_path_of(url@, path@));
    if body_len as u64 > MAX_BODY {
        return Endpoint::TooLarge;
    }
    let p = path.as_slice();
    if method == Method::Get && is_text(p, "/health") {
        Endpoint::Health
    } else if method == Method::Post && is_text(p, "/sync") {
        Endpoint::Sync
    } else if method == Method::Get && is_text(p, "/habits") {
        Endpoint::Habits
    } else if method == Method::Get && is_text(p, "/analytics") {
        Endpoint::Analytics
    } else {
        Endpoint::NotFound
    }
}

} // verus!
