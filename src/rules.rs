//! Mocks, forwarding and proxy rules, recordings, and what makes a mock
//! definition valid.

use vstd::prelude::*;

use crate::matcher::Matcher;
use crate::request::{pairs_view, PairView};

verus! {

/// The response template of a mock.
pub struct MockResponse {
    /// The status code; a definition without one is refused.
    pub status: Option<u16>,
    /// Headers, in the order in which they are sent.
    pub headers: Vec<(String, String)>,
    pub body: Vec<u8>,
    /// Delay in milliseconds before the body is sent.
    pub delay_ms: u64,
}

/// What a user asks for when creating a mock: when all matchers accept a
/// request, the response is served, at most `limit` times when one is given.
pub struct MockDefinition {
    pub matchers: Vec<Matcher>,
    pub response: MockResponse,
    pub limit: Option<u64>,
}

/// A mock held by the server.
pub struct ActiveMock {
    pub id: usize,
    pub definition: MockDefinition,
    /// How many requests the mock has answered.
    pub hits: u64,
}

/// A rule that sends matching requests on to a fixed upstream origin.
pub struct ForwardingRuleConfig {
    pub target_base_url: String,
    pub request_requirements: Vec<Matcher>,
    /// Headers added to each forwarded request.
    pub request_header: Vec<(String, String)>,
}

pub struct ActiveForwardingRule {
    pub id: usize,
    pub config: ForwardingRuleConfig,
}

/// A rule that lets the server act as a forward proxy for matching requests.
pub struct ProxyRuleConfig {
    pub request_requirements: Vec<Matcher>,
    pub request_header: Vec<(String, String)>,
}

pub struct ActiveProxyRule {
    pub id: usize,
    pub config: ProxyRuleConfig,
}

/// A filter and what to keep of each matching exchange.
pub struct RecordingRuleConfig {
    pub request_requirements: Vec<Matcher>,
    /// Names of the request headers that are kept (compared ignoring ASCII case).
    pub record_headers: Vec<String>,
    pub record_response_delays: bool,
}

/// The request side of a captured exchange.
pub struct RecordedRequest {
    pub method: String,
    pub path: String,
    pub query: Vec<(String, String)>,
    pub headers: Vec<(String, String)>,
    pub body: Vec<u8>,
}

/// The response side of a captured exchange.
pub struct RecordedResponse {
    pub status: u16,
    pub headers: Vec<(String, String)>,
    pub body: Vec<u8>,
    pub delay_ms: u64,
}

/// One captured exchange; `sequence` gives the order of capture.
pub struct RecordedEntry {
    pub sequence: u64,
    pub request: RecordedRequest,
    pub response: RecordedResponse,
}

pub struct ActiveRecording {
    pub id: usize,
    pub config: RecordingRuleConfig,
    pub entries: Vec<RecordedEntry>,
}

/// The text holds a carriage return or a line feed.
pub open spec fn has_line_break(s: Seq<char>) -> bool {
    exists|i: int| 0 <= i < s.len() && (s[i] == '\r' || s[i] == '\n')
}

/// The key that a matcher looks up, if it looks one up.
pub open spec fn matcher_key(m: Matcher) -> Option<Seq<char>> {
    match m {
        Matcher::HeaderPresent(n) => Some(n@),
        Matcher::HeaderEquals(n, _) => Some(n@),
        Matcher::HeaderMissing(n) => Some(n@),
        Matcher::HeaderCount(n, _) => Some(n@),
        Matcher::CookiePresent(n) => Some(n@),
        Matcher::CookieEquals(n, _) => Some(n@),
        Matcher::QueryPresent(k) => Some(k@),
        Matcher::QueryEquals(k, _) => Some(k@),
        Matcher::QueryMissing(k) => Some(k@),
        _ => None,
    }
}

/// No key of the matchers holds a line break.
pub open spec fn keys_clean(ms: Seq<Matcher>) -> bool {
    forall|k: int|
        0 <= k < ms.len() ==> match #[trigger] matcher_key(ms[k]) {
            Some(key) => !has_line_break(key),
            None => true,
        }
}

/// No name of the pairs holds a line break.
pub open spec fn names_clean(hs: Seq<PairView>) -> bool {
    forall|k: int| 0 <= k < hs.len() ==> !has_line_break(#[trigger] hs[k].0)
}

/// A definition the server accepts: its header, cookie and query keys are
/// free of line breaks, its response header names too, it has
/// a status, and a limit, when given, is positive.
pub open spec fn valid_definition(d: MockDefinition) -> bool {
    &&& keys_clean(d.matchers@)
    &&& names_clean(pairs_view(d.response.headers@))
    &&& d.response.status is Some
    &&& d.limit != Some(0u64)
}

/// Whether the text holds a carriage return or a line feed.
pub fn contains_line_break(s: &String) -> (r: bool)
    ensures
        r == has_line_break(s@),
{
    let t = s.as_str();
    let n = t.unicode_len();
    let mut i: usize = 0;
    while i < n
        invariant
            t@ == s@,
            n == s@.len(),
            0 <= i <= n,
            forall|j: int| 0 <= j < i ==> !(s@[j] == '\r' || s@[j] == '\n'),
        decreases n - i,
    {
        let c = t.get_char(i);
        if c == '\r' || c == '\n' {
            return true;
        }
        i = i + 1;
    }
    false
}

fn key_of(m: &Matcher) -> (r: Option<&String>)
    ensures
        match r {
            Some(k) => matcher_key(*m) == Some(k@),
            None => matcher_key(*m) is None,
        },
{
    match m {
        Matcher::HeaderPresent(n) => Some(n),
        Matcher::HeaderEquals(n, _) => Some(n),
        Matcher::HeaderMissing(n) => Some(n),
        Matcher::HeaderCount(n, _) => Some(n),
        Matcher::CookiePresent(n) => Some(n),
        Matcher::CookieEquals(n, _) => Some(n),
        Matcher::QueryPresent(k) => Some(k),
        Matcher::QueryEquals(k, _) => Some(k),
        Matcher::QueryMissing(k) => Some(k),
        _ => None,
    }
}

/// Whether no key of the matchers holds a line break.
pub fn matcher_keys_clean(ms: &Vec<Matcher>) -> (r: bool)
    ensures
        r == keys_clean(ms@),
{
    let mut i: usize = 0;
    while i < ms.len()
        invariant
            0 <= i <= ms@.len(),
            keys_clean(ms@.subrange(0, i as int)),
        decreases ms@.len() - i,
    {
        match key_of(&ms[i]) {
            Some(k) => {
                if contains_line_break(k) {
                    assert(!keys_clean(ms@)) by {
                        assert(match matcher_key(ms@[i as int]) {
                            Some(key) => has_line_break(key),
                            None => false,
                        });
                    }
                    return false;
                }
            },
            None => {},
        }
        assert forall|k: int| 0 <= k < i + 1 implies match #[trigger] matcher_key(
            ms@.subrange(0, i + 1)[k],
        ) {
            Some(key) => !has_line_break(key),
            None => true,
        } by {
            if k < i {
                assert(ms@.subrange(0, i + 1)[k] == ms@.subrange(0, i as int)[k]);
            }
        }
        i = i + 1;
    }
    assert(ms@.subrange(0, ms@.len() as int) =~= ms@);
    true
}

/// Whether no name of the pairs holds a line break.
pub fn pair_names_clean(hs: &Vec<(String, String)>) -> (r: bool)
    ensures
        r == names_clean(pairs_view(hs@)),
{
    let ghost v = pairs_view(hs@);
    let mut i: usize = 0;
    while i < hs.len()
        invariant
            v == pairs_view(hs@),
            0 <= i <= hs@.len(),
            forall|k: int| 0 <= k < i ==> !has_line_break(#[trigger] v[k].0),
        decreases hs@.len() - i,
    {
        if contains_line_break(&hs[i].0) {
            assert(has_line_break(v[i as int].0));
            return false;
        }
        i = i + 1;
    }
    true
}

/// Whether the server accepts the definition.
pub fn is_valid_definition(d: &MockDefinition) -> (r: bool)
    ensures
        r == valid_definition(*d),
{
    let limit_ok = match d.limit {
        Some(n) => n != 0,
        None => true,
    };
    matcher_keys_clean(&d.matchers) && pair_names_clean(&d.response.headers)
        && d.response.status.is_some() && limit_ok
}

} // verus!
