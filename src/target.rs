//! Request targets for forwarding and proxying, and the retry policy for
//! outgoing calls.

use vstd::prelude::*;

verus! {

/// Per-request data carried along with a request through the server.
#[derive(Clone, Copy, Debug)]
pub struct RequestMetadata {
    /// The scheme ("http" or "https") the request came in on; used to
    /// rebuild an absolute target when the request has none.
    pub scheme: &'static str,
}

impl RequestMetadata {
    pub fn new(scheme: &'static str) -> (r: Self)
        ensures
            r.scheme == scheme,
    {
        RequestMetadata { scheme }
    }
}

/// The scheme an origin-form request is sent with: the request's own, else
/// the one it came in on, else `http`.
pub open spec fn chosen_scheme(
    uri_scheme: Option<Seq<char>>,
    meta_scheme: Option<Seq<char>>,
) -> Seq<char> {
    match uri_scheme {
        Some(s) => s,
        None => match meta_scheme {
            Some(s) => s,
            None => "http"@,
        },
    }
}

pub open spec fn opt_view(o: Option<&str>) -> Option<Seq<char>> {
    match o {
        Some(s) => Some(s@),
        None => None,
    }
}

/// The absolute target of a request whose target lacks a scheme or an
/// authority, built from the `Host` header: `scheme://host` followed by the
/// path and query (`/` when there is none). `None` when the target is
/// already absolute or there is no `Host` header.
pub fn absolute_target(
    uri_scheme: Option<&str>,
    has_authority: bool,
    host: Option<&str>,
    meta_scheme: Option<&str>,
    path_and_query: Option<&str>,
) -> (r: Option<String>)
    ensures
        r is Some <==> ((uri_scheme is None || !has_authority) && host is Some),
        r is Some ==> r->Some_0@ == chosen_scheme(opt_view(uri_scheme), opt_view(meta_scheme))
            + "://"@ + host->Some_0@ + match path_and_query {
            Some(pq) => pq@,
            None => "/"@,
        },
{
    if uri_scheme.is_some() && has_authority {
        return None;
    }
    match host {
        None => None,
        Some(h) => {
            let scheme = match uri_scheme {
                Some(s) => s,
                None => match meta_scheme {
                    Some(s) => s,
                    None => "http",
                },
            };
            let mut t = String::from_str(scheme);
            t.append("://");
            t.append(h);
            match path_and_query {
                Some(pq) => t.append(pq),
                None => t.append("/"),
            }
            Some(t)
        },
    }
}

/// The target a forwarded request goes to: the rule's origin (without a
/// trailing `/`), then the request's path, then `?` and the query when there
/// is one.
pub fn forward_target(origin: &str, path: &str, query: &str) -> (r: String)
    ensures
        r@ == (if origin@.len() > 0 && origin@.last() == '/' {
            origin@.drop_last()
        } else {
            origin@
        }) + path@ + (if query@.len() > 0 {
            "?"@ + query@
        } else {
            Seq::<char>::empty()
        }),
{
    let n = origin.unicode_len();
    let base = if n > 0 && origin.get_char(n - 1) == '/' {
        origin.substring_char(0, n - 1)
    } else {
        origin
    };
    proof {
        if n > 0 && origin@.last() == '/' {
            assert(origin@.subrange(0, n - 1) =~= origin@.drop_last());
        }
    }
    let mut t = String::from_str(base);
    t.append(path);
    if query.unicode_len() > 0 {
        t.append("?");
        t.append(query);
    } else {
        assert(t@ + Seq::<char>::empty() =~= t@);
    }
    proof {
        if query@.len() > 0 {
            assert(t@ =~= base@ + path@ + ("?"@ + query@));
        }
    }
    t
}

/// What to do after an attempt of an operation that is retried.
#[derive(PartialEq, Eq, Structural, Clone, Copy, Debug)]
pub enum RetryStep {
    /// Keep the last result.
    Stop,
    /// Wait that many seconds, then try again.
    WaitSeconds(u64),
}

/// After attempt `attempt` (the first is 0) with the given outcome, with at
/// most `retries` retries: stop on success or when the retries are used up,
/// otherwise wait `attempt + 1` seconds and try again.
pub fn next_retry_step(attempt: usize, retries: usize, succeeded: bool) -> (r: RetryStep)
    ensures
        r == if succeeded || attempt >= retries {
            RetryStep::Stop
        } else {
            RetryStep::WaitSeconds((attempt + 1) as u64)
        },
{
    if succeeded || attempt >= retries {
        RetryStep::Stop
    } else {
        RetryStep::WaitSeconds((attempt + 1) as u64)
    }
}

} // verus!
