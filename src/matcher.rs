//! The matcher algebra: predicates over a normalized request, each with a
//! distance used for closest-match diagnostics.

use vstd::prelude::*;

use crate::cookies::{cookies_of_request, request_cookies};
use crate::normalize::{parse_form, query_view};
use crate::request::{pairs_view, HttpRequest, PairView, RequestView};

verus! {

/// One predicate over a normalized request. A mock (or the filter of a rule)
/// holds a list of them, all of which must accept.
pub enum Matcher {
    /// Accepts every request.
    Any,
    MethodEquals(String),
    SchemeEquals(String),
    HostEquals(String),
    PortEquals(u16),
    PathEquals(String),
    PathPrefix(String),
    PathSuffix(String),
    PathContains(String),
    /// A header of that name (compared ignoring ASCII case) is present.
    HeaderPresent(String),
    /// A header of that name has exactly that value.
    HeaderEquals(String, String),
    /// No header of that name is present.
    HeaderMissing(String),
    /// Exactly that many headers of that name are present.
    HeaderCount(String, usize),
    /// A cookie of that name is sent.
    CookiePresent(String),
    /// A cookie of that name is sent with exactly that value.
    CookieEquals(String, String),
    QueryPresent(String),
    QueryEquals(String, String),
    QueryMissing(String),
    BodyEquals(Vec<u8>),
    BodyContains(Vec<u8>),
    /// The body, read as `application/x-www-form-urlencoded`, holds that pair.
    BodyFormEquals(String, String),
}

// ----- characters and sequences -------------------------------------------------------------

pub open spec fn is_ascii_upper(c: char) -> bool {
    'A' <= c && c <= 'Z'
}

/// Two characters are equal when ASCII case is ignored.
pub open spec fn char_eq_ci(a: char, b: char) -> bool {
    a == b || (is_ascii_upper(a) && (a as u32) + 32 == (b as u32)) || (is_ascii_upper(b) && (b
        as u32) + 32 == (a as u32))
}

/// Two texts are equal when ASCII case is ignored.
pub open spec fn eq_ci(a: Seq<char>, b: Seq<char>) -> bool {
    a.len() == b.len() && forall|i: int| 0 <= i < a.len() ==> char_eq_ci(a[i], b[i])
}

/// `needle` occurs in `hay` at position `i`.
pub open spec fn occurs_at<A>(hay: Seq<A>, needle: Seq<A>, i: int) -> bool {
    0 <= i && i + needle.len() <= hay.len() && hay.subrange(i, i + needle.len()) == needle
}

/// `needle` occurs somewhere in `hay` (the empty sequence occurs everywhere).
pub open spec fn seq_contains<A>(hay: Seq<A>, needle: Seq<A>) -> bool {
    exists|i: int| occurs_at(hay, needle, i)
}

pub open spec fn has_prefix<A>(s: Seq<A>, p: Seq<A>) -> bool {
    occurs_at(s, p, 0)
}

pub open spec fn has_suffix<A>(s: Seq<A>, p: Seq<A>) -> bool {
    occurs_at(s, p, s.len() - p.len())
}

/// How many of the first `n` positions hold different characters.
pub open spec fn mismatches(a: Seq<char>, b: Seq<char>, n: nat) -> nat
    decreases n,
{
    if n == 0 {
        0
    } else {
        mismatches(a, b, (n - 1) as nat) + if a[n - 1] != b[n - 1] {
            1nat
        } else {
            0nat
        }
    }
}

pub open spec fn min_nat(a: nat, b: nat) -> nat {
    if a <= b {
        a
    } else {
        b
    }
}

pub open spec fn abs_diff(a: int, b: int) -> nat {
    if a >= b {
        (a - b) as nat
    } else {
        (b - a) as nat
    }
}

/// Distance between two texts: differing positions of the common length,
/// plus the difference of the lengths.
pub open spec fn text_distance(a: Seq<char>, b: Seq<char>) -> nat {
    mismatches(a, b, min_nat(a.len(), b.len())) + abs_diff(a.len() as int, b.len() as int)
}

// ----- headers and query ---------------------------------------------------------------------

/// How many of the first `n` headers carry that name.
pub open spec fn count_named(hs: Seq<PairView>, name: Seq<char>, n: nat) -> nat
    decreases n,
{
    if n == 0 {
        0
    } else {
        count_named(hs, name, (n - 1) as nat) + if eq_ci(hs[n - 1].0, name) {
            1nat
        } else {
            0nat
        }
    }
}

pub open spec fn header_present(hs: Seq<PairView>, name: Seq<char>) -> bool {
    exists|i: int| 0 <= i < hs.len() && eq_ci(#[trigger] hs[i].0, name)
}

pub open spec fn header_has_value(hs: Seq<PairView>, name: Seq<char>, value: Seq<char>) -> bool {
    exists|i: int| 0 <= i < hs.len() && eq_ci(#[trigger] hs[i].0, name) && hs[i].1 == value
}

pub open spec fn query_present(qs: Seq<PairView>, key: Seq<char>) -> bool {
    exists|i: int| 0 <= i < qs.len() && #[trigger] qs[i].0 == key
}

pub open spec fn query_has_value(qs: Seq<PairView>, key: Seq<char>, value: Seq<char>) -> bool {
    exists|i: int| 0 <= i < qs.len() && #[trigger] qs[i] == (key, value)
}

impl Matcher {
    /// Whether the matcher accepts the request.
    pub open spec fn accepts(&self, r: RequestView) -> bool {
        match self {
            Matcher::Any => true,
            Matcher::MethodEquals(m) => r.method == m@,
            Matcher::SchemeEquals(s) => r.scheme == s@,
            Matcher::HostEquals(h) => r.host == h@,
            Matcher::PortEquals(p) => r.port == *p,
            Matcher::PathEquals(p) => r.path == p@,
            Matcher::PathPrefix(p) => has_prefix(r.path, p@),
            Matcher::PathSuffix(p) => has_suffix(r.path, p@),
            Matcher::PathContains(p) => seq_contains(r.path, p@),
            Matcher::HeaderPresent(n) => header_present(r.headers, n@),
            Matcher::HeaderEquals(n, v) => header_has_value(r.headers, n@, v@),
            Matcher::HeaderMissing(n) => !header_present(r.headers, n@),
            Matcher::HeaderCount(n, c) => count_named(r.headers, n@, r.headers.len()) == *c,
            Matcher::CookiePresent(n) => query_present(
                request_cookies(r.headers, r.headers.len()),
                n@,
            ),
            Matcher::CookieEquals(n, v) => query_has_value(
                request_cookies(r.headers, r.headers.len()),
                n@,
                v@,
            ),
            Matcher::QueryPresent(k) => query_present(r.query, k@),
            Matcher::QueryEquals(k, v) => query_has_value(r.query, k@, v@),
            Matcher::QueryMissing(k) => !query_present(r.query, k@),
            Matcher::BodyEquals(b) => r.body == b@,
            Matcher::BodyContains(b) => seq_contains(r.body, b@),
            Matcher::BodyFormEquals(k, v) => query_has_value(query_view(r.body), k@, v@),
        }
    }

    /// How far the request is from being accepted: 0 when it is accepted;
    /// text distance for equality on text, the difference for numbers, 1 otherwise.
    pub open spec fn distance(&self, r: RequestView) -> nat {
        if self.accepts(r) {
            0
        } else {
            match self {
                Matcher::MethodEquals(m) => text_distance(r.method, m@),
                Matcher::SchemeEquals(s) => text_distance(r.scheme, s@),
                Matcher::HostEquals(h) => text_distance(r.host, h@),
                Matcher::PortEquals(p) => abs_diff(r.port as int, *p as int),
                Matcher::PathEquals(p) => text_distance(r.path, p@),
                Matcher::HeaderCount(n, c) => abs_diff(
                    count_named(r.headers, n@, r.headers.len()) as int,
                    *c as int,
                ),
                _ => 1,
            }
        }
    }
}

/// All matchers of the list accept the request.
pub open spec fn all_accept(ms: Seq<Matcher>, r: RequestView) -> bool {
    forall|k: int| 0 <= k < ms.len() ==> #[trigger] ms[k].accepts(r)
}

/// The sum of the distances of the first `n` matchers.
pub open spec fn distance_sum(ms: Seq<Matcher>, r: RequestView, n: nat) -> nat
    decreases n,
{
    if n == 0 {
        0
    } else {
        distance_sum(ms, r, (n - 1) as nat) + ms[n - 1].distance(r)
    }
}

/// How many of the first `n` matchers reject the request.
pub open spec fn unmatched_count(ms: Seq<Matcher>, r: RequestView, n: nat) -> nat
    decreases n,
{
    if n == 0 {
        0
    } else {
        unmatched_count(ms, r, (n - 1) as nat) + if ms[n - 1].accepts(r) {
            0nat
        } else {
            1nat
        }
    }
}

// ----- executable ----------------------------------------------------------------------------

fn char_eq_ignore_case(a: char, b: char) -> (r: bool)
    ensures
        r == char_eq_ci(a, b),
{
    if a == b {
        true
    } else if 'A' <= a && a <= 'Z' && (a as u32) + 32 == (b as u32) {
        true
    } else {
        'A' <= b && b <= 'Z' && (b as u32) + 32 == (a as u32)
    }
}

/// Compares two texts ignoring ASCII case.
pub fn text_eq_ignore_case(a: &str, b: &str) -> (r: bool)
    ensures
        r == eq_ci(a@, b@),
{
    let n = a.unicode_len();
    let m = b.unicode_len();
    if n != m {
        return false;
    }
    let mut i: usize = 0;
    while i < n
        invariant
            n == a@.len(),
            m == b@.len(),
            n == m,
            0 <= i <= n,
            forall|j: int| 0 <= j < i ==> char_eq_ci(a@[j], b@[j]),
        decreases n - i,
    {
        if !char_eq_ignore_case(a.get_char(i), b.get_char(i)) {
            return false;
        }
        i = i + 1;
    }
    true
}

/// Whether `needle` occurs in `hay` at position `i`.
fn bytes_occur_at(hay: &[u8], needle: &[u8], i: usize) -> (r: bool)
    requires
        i + needle@.len() <= hay@.len(),
    ensures
        r == occurs_at(hay@, needle@, i as int),
{
    let n = hay.len();
    let mut j: usize = 0;
    while j < needle.len()
        invariant
            n == hay@.len(),
            i + needle@.len() <= hay@.len(),
            0 <= j <= needle@.len(),
            forall|k: int| 0 <= k < j ==> hay@[i + k] == needle@[k],
        decreases needle@.len() - j,
    {
        if hay[i + j] != needle[j] {
            assert(hay@.subrange(i as int, i + needle@.len())[j as int] != needle@[j as int]);
            return false;
        }
        j = j + 1;
    }
    assert(hay@.subrange(i as int, i + needle@.len()) =~= needle@);
    true
}

/// Whether `needle` occurs somewhere in `hay`.
pub fn bytes_contain(hay: &[u8], needle: &[u8]) -> (r: bool)
    ensures
        r == seq_contains(hay@, needle@),
{
    if needle.len() > hay.len() {
        return false;
    }
    let last = hay.len() - needle.len();
    let mut i: usize = 0;
    while i <= last
        invariant
            last + needle@.len() == hay@.len(),
            0 <= i <= last,
            forall|k: int| 0 <= k < i ==> !occurs_at(hay@, needle@, k),
        decreases last - i,
    {
        if bytes_occur_at(hay, needle, i) {
            return true;
        }
        if i == last {
            return false;
        }
        i = i + 1;
    }
    false
}

/// Whether the text `needle` occurs in the text `hay` at position `i`.
fn text_occurs_at(hay: &str, needle: &str, i: usize, m: usize, n: usize) -> (r: bool)
    requires
        m == needle@.len(),
        n == hay@.len(),
        i + m <= hay@.len(),
    ensures
        r == occurs_at(hay@, needle@, i as int),
{
    let mut j: usize = 0;
    while j < m
        invariant
            m == needle@.len(),
            n == hay@.len(),
            i + m <= hay@.len(),
            0 <= j <= m,
            forall|k: int| 0 <= k < j ==> hay@[i + k] == needle@[k],
        decreases m - j,
    {
        if hay.get_char(i + j) != needle.get_char(j) {
            assert(hay@.subrange(i as int, i + m)[j as int] != needle@[j as int]);
            return false;
        }
        j = j + 1;
    }
    assert(hay@.subrange(i as int, i + m) =~= needle@);
    true
}

/// Whether the text `needle` occurs somewhere in the text `hay`.
pub fn text_contains(hay: &str, needle: &str) -> (r: bool)
    ensures
        r == seq_contains(hay@, needle@),
{
    let n = hay.unicode_len();
    let m = needle.unicode_len();
    if m > n {
        return false;
    }
    let last = n - m;
    let mut i: usize = 0;
    while i <= last
        invariant
            n == hay@.len(),
            m == needle@.len(),
            last + m == n,
            0 <= i <= last,
            forall|k: int| 0 <= k < i ==> !occurs_at(hay@, needle@, k),
        decreases last - i,
    {
        if text_occurs_at(hay, needle, i, m, n) {
            return true;
        }
        if i == last {
            return false;
        }
        i = i + 1;
    }
    false
}

/// Whether the text starts with `p`.
pub fn text_starts_with(s: &str, p: &str) -> (r: bool)
    ensures
        r == has_prefix(s@, p@),
{
    let n = s.unicode_len();
    let m = p.unicode_len();
    if m > n {
        return false;
    }
    text_occurs_at(s, p, 0, m, n)
}

/// Whether the text ends with `p`.
pub fn text_ends_with(s: &str, p: &str) -> (r: bool)
    ensures
        r == has_suffix(s@, p@),
{
    let n = s.unicode_len();
    let m = p.unicode_len();
    if m > n {
        return false;
    }
    text_occurs_at(s, p, n - m, m, n)
}

proof fn count_named_prefix_bound(hs: Seq<PairView>, name: Seq<char>, n: nat)
    ensures
        count_named(hs, name, n) <= n,
    decreases n,
{
    if n > 0 {
        count_named_prefix_bound(hs, name, (n - 1) as nat);
    }
}

/// How many headers carry that name, ignoring ASCII case.
pub fn count_headers(headers: &Vec<(String, String)>, name: &String) -> (r: usize)
    ensures
        r == count_named(pairs_view(headers@), name@, headers@.len()),
{
    let ghost hs = pairs_view(headers@);
    let mut c: usize = 0;
    let mut i: usize = 0;
    while i < headers.len()
        invariant
            hs == pairs_view(headers@),
            0 <= i <= headers@.len(),
            c == count_named(hs, name@, i as nat),
        decreases headers@.len() - i,
    {
        proof {
            count_named_prefix_bound(hs, name@, i as nat);
        }
        if text_eq_ignore_case(headers[i].0.as_str(), name.as_str()) {
            c = c + 1;
        }
        i = i + 1;
    }
    c
}

/// Whether a header of that name (and, when given, that value) is present.
pub fn find_header(headers: &Vec<(String, String)>, name: &String, value: Option<&String>) -> (r:
    bool)
    ensures
        r == match value {
            None => header_present(pairs_view(headers@), name@),
            Some(v) => header_has_value(pairs_view(headers@), name@, v@),
        },
{
    let ghost hs = pairs_view(headers@);
    let mut i: usize = 0;
    while i < headers.len()
        invariant
            hs == pairs_view(headers@),
            0 <= i <= headers@.len(),
            forall|j: int|
                0 <= j < i ==> !(eq_ci(#[trigger] hs[j].0, name@) && match value {
                    None => true,
                    Some(v) => hs[j].1 == v@,
                }),
        decreases headers@.len() - i,
    {
        if text_eq_ignore_case(headers[i].0.as_str(), name.as_str()) {
            match value {
                None => {
                    assert(eq_ci(hs[i as int].0, name@));
                    return true;
                },
                Some(v) => {
                    if headers[i].1 == *v {
                        assert(eq_ci(hs[i as int].0, name@) && hs[i as int].1 == v@);
                        return true;
                    }
                },
            }
        }
        i = i + 1;
    }
    false
}

/// Whether a query pair with that key (and, when given, that value) is present.
pub fn find_query(query: &Vec<(String, String)>, key: &String, value: Option<&String>) -> (r: bool)
    ensures
        r == match value {
            None => query_present(pairs_view(query@), key@),
            Some(v) => query_has_value(pairs_view(query@), key@, v@),
        },
{
    let ghost qs = pairs_view(query@);
    let mut i: usize = 0;
    while i < query.len()
        invariant
            qs == pairs_view(query@),
            0 <= i <= query@.len(),
            forall|j: int|
                0 <= j < i ==> !(#[trigger] qs[j].0 == key@ && match value {
                    None => true,
                    Some(v) => qs[j].1 == v@,
                }),
        decreases query@.len() - i,
    {
        if query[i].0 == *key {
            match value {
                None => {
                    assert(qs[i as int].0 == key@);
                    return true;
                },
                Some(v) => {
                    if query[i].1 == *v {
                        assert(qs[i as int] == (key@, v@));
                        return true;
                    }
                },
            }
        }
        i = i + 1;
    }
    proof {
        match value {
            None => {},
            Some(v) => {
                assert forall|j: int| 0 <= j < qs.len() implies !(#[trigger] qs[j] == (key@, v@)) by {
                    if qs[j] == (key@, v@) {
                        assert(qs[j].0 == key@ && qs[j].1 == v@);
                    }
                }
            },
        }
    }
    false
}

proof fn mismatches_bound(a: Seq<char>, b: Seq<char>, n: nat)
    ensures
        mismatches(a, b, n) <= n,
    decreases n,
{
    if n > 0 {
        mismatches_bound(a, b, (n - 1) as nat);
    }
}

/// `text_distance` is zero exactly on equal texts.
pub proof fn lemma_text_distance_zero(a: Seq<char>, b: Seq<char>)
    ensures
        (text_distance(a, b) == 0) == (a == b),
{
    let n = min_nat(a.len(), b.len());
    if a == b {
        lemma_mismatches_zero(a, b, n);
    } else if a.len() == b.len() {
        lemma_mismatches_zero(a, b, n);
        assert(!(forall|i: int| 0 <= i < n ==> a[i] == b[i])) by {
            if forall|i: int| 0 <= i < n ==> a[i] == b[i] {
                assert(a =~= b);
            }
        }
    }
}

proof fn lemma_mismatches_zero(a: Seq<char>, b: Seq<char>, n: nat)
    ensures
        (mismatches(a, b, n) == 0) == (forall|i: int| 0 <= i < n ==> a[i] == b[i]),
    decreases n,
{
    if n > 0 {
        lemma_mismatches_zero(a, b, (n - 1) as nat);
        if mismatches(a, b, n) == 0 {
            assert forall|i: int| 0 <= i < n implies a[i] == b[i] by {
                if i < n - 1 {
                } else {
                }
            }
        }
    }
}

/// Text distance between two texts.
pub fn text_distance_exec(a: &str, b: &str) -> (r: u64)
    ensures
        r == text_distance(a@, b@),
{
    let n = a.unicode_len();
    let m = b.unicode_len();
    let common = if n <= m { n } else { m };
    let mut c: usize = 0;
    let mut i: usize = 0;
    while i < common
        invariant
            n == a@.len(),
            m == b@.len(),
            common == min_nat(n as nat, m as nat),
            0 <= i <= common,
            c == mismatches(a@, b@, i as nat),
        decreases common - i,
    {
        proof {
            mismatches_bound(a@, b@, i as nat);
        }
        if a.get_char(i) != b.get_char(i) {
            c = c + 1;
        }
        i = i + 1;
    }
    proof {
        mismatches_bound(a@, b@, common as nat);
    }
    let d = if n >= m { c + (n - m) } else { c + (m - n) };
    d as u64
}

impl Matcher {
    /// Whether the matcher accepts the request.
    pub fn matches(&self, req: &HttpRequest) -> (r: bool)
        ensures
            r == self.accepts(req@),
    {
        match self {
            Matcher::Any => true,
            Matcher::MethodEquals(m) => req.method == *m,
            Matcher::SchemeEquals(s) => req.scheme == *s,
            Matcher::HostEquals(h) => req.host == *h,
            Matcher::PortEquals(p) => req.port == *p,
            Matcher::PathEquals(p) => req.path == *p,
            Matcher::PathPrefix(p) => text_starts_with(req.path.as_str(), p.as_str()),
            Matcher::PathSuffix(p) => text_ends_with(req.path.as_str(), p.as_str()),
            Matcher::PathContains(p) => text_contains(req.path.as_str(), p.as_str()),
            Matcher::HeaderPresent(n) => find_header(&req.headers, n, None),
            Matcher::HeaderEquals(n, v) => find_header(&req.headers, n, Some(v)),
            Matcher::HeaderMissing(n) => !find_header(&req.headers, n, None),
            Matcher::HeaderCount(n, c) => count_headers(&req.headers, n) == *c,
            Matcher::CookiePresent(n) => {
                let cookies = cookies_of_request(&req.headers);
                find_query(&cookies, n, None)
            },
            Matcher::CookieEquals(n, v) => {
                let cookies = cookies_of_request(&req.headers);
                find_query(&cookies, n, Some(v))
            },
            Matcher::QueryPresent(k) => find_query(&req.query, k, None),
            Matcher::QueryEquals(k, v) => find_query(&req.query, k, Some(v)),
            Matcher::QueryMissing(k) => !find_query(&req.query, k, None),
            Matcher::BodyEquals(b) => slices_equal(req.body.as_slice(), b.as_slice()),
            Matcher::BodyContains(b) => bytes_contain(req.body.as_slice(), b.as_slice()),
            Matcher::BodyFormEquals(k, v) => {
                let form = parse_form(req.body.as_slice());
                find_query(&form, k, Some(v))
            },
        }
    }

    /// How far the request is from being accepted (0 when it is accepted).
    pub fn distance_to(&self, req: &HttpRequest) -> (r: u64)
        ensures
            r == self.distance(req@),
    {
        if self.matches(req) {
            return 0;
        }
        match self {
            Matcher::MethodEquals(m) => text_distance_exec(req.method.as_str(), m.as_str()),
            Matcher::SchemeEquals(s) => text_distance_exec(req.scheme.as_str(), s.as_str()),
            Matcher::HostEquals(h) => text_distance_exec(req.host.as_str(), h.as_str()),
            Matcher::PortEquals(p) => {
                if req.port >= *p {
                    (req.port - *p) as u64
                } else {
                    (*p - req.port) as u64
                }
            },
            Matcher::PathEquals(p) => text_distance_exec(req.path.as_str(), p.as_str()),
            Matcher::HeaderCount(n, c) => {
                let k = count_headers(&req.headers, n);
                if k >= *c {
                    (k - *c) as u64
                } else {
                    (*c - k) as u64
                }
            },
            _ => 1,
        }
    }
}

/// Whether two byte slices hold the same bytes.
pub fn slices_equal(a: &[u8], b: &[u8]) -> (r: bool)
    ensures
        r == (a@ == b@),
{
    if a.len() != b.len() {
        return false;
    }
    let r = bytes_occur_at(a, b, 0);
    proof {
        if r {
            assert(a@.subrange(0, a@.len() as int) =~= a@);
        } else {
            assert(a@.subrange(0, b@.len() as int) =~= a@);
        }
    }
    r
}

/// Whether every matcher of the list accepts the request.
pub fn all_match(ms: &Vec<Matcher>, req: &HttpRequest) -> (r: bool)
    ensures
        r == all_accept(ms@, req@),
{
    let mut i: usize = 0;
    while i < ms.len()
        invariant
            0 <= i <= ms@.len(),
            forall|k: int| 0 <= k < i ==> #[trigger] ms@[k].accepts(req@),
        decreases ms@.len() - i,
    {
        if !ms[i].matches(req) {
            return false;
        }
        i = i + 1;
    }
    true
}

/// A distance clipped to what a `u64` holds.
pub open spec fn clip(n: nat) -> u64 {
    if n > u64::MAX {
        u64::MAX
    } else {
        n as u64
    }
}

/// The sum of a list of distances.
pub open spec fn seq_sum(s: Seq<u64>) -> nat
    decreases s.len(),
{
    if s.len() == 0 {
        0
    } else {
        seq_sum(s.drop_last()) + s.last() as nat
    }
}

proof fn lemma_unmatched_bound(ms: Seq<Matcher>, r: RequestView, n: nat)
    ensures
        unmatched_count(ms, r, n) <= n,
    decreases n,
{
    if n > 0 {
        lemma_unmatched_bound(ms, r, (n - 1) as nat);
    }
}

/// How a request fares against a list of matchers.
pub struct Score {
    /// The sum of the distances, clipped to `u64::MAX`.
    pub distance: u64,
    /// How many matchers reject the request.
    pub unmatched: usize,
    /// The distance of each matcher, in the order of the list.
    pub breakdown: Vec<u64>,
}

/// The score of a request against a list of matchers: the sum of the
/// distances, how many matchers reject it, and each matcher's distance.
pub fn score(ms: &Vec<Matcher>, req: &HttpRequest) -> (r: Score)
    ensures
        r.distance == clip(distance_sum(ms@, req@, ms@.len())),
        r.unmatched == unmatched_count(ms@, req@, ms@.len()),
        r.breakdown@.len() == ms@.len(),
        forall|k: int| 0 <= k < ms@.len() ==> r.breakdown@[k] == (#[trigger] ms@[k]).distance(req@),
        seq_sum(r.breakdown@) == distance_sum(ms@, req@, ms@.len()),
{
    let mut total: u64 = 0;
    let mut unmatched: usize = 0;
    let mut breakdown: Vec<u64> = Vec::new();
    let mut i: usize = 0;
    while i < ms.len()
        invariant
            0 <= i <= ms@.len(),
            total == clip(distance_sum(ms@, req@, i as nat)),
            unmatched == unmatched_count(ms@, req@, i as nat),
            breakdown@.len() == i,
            forall|k: int| 0 <= k < i ==> breakdown@[k] == (#[trigger] ms@[k]).distance(req@),
            seq_sum(breakdown@) == distance_sum(ms@, req@, i as nat),
        decreases ms@.len() - i,
    {
        proof {
            lemma_unmatched_bound(ms@, req@, i as nat);
        }
        let d = ms[i].distance_to(req);
        let ghost before = breakdown@;
        breakdown.push(d);
        assert(breakdown@.drop_last() =~= before);
        if total > u64::MAX - d {
            total = u64::MAX;
        } else {
            total = total + d;
        }
        if d != 0 {
            unmatched = unmatched + 1;
        }
        proof {
            if ms@[i as int].accepts(req@) {
                assert(d == 0);
            } else {
                assert(d != 0) by {
                    lemma_distance_positive(ms@[i as int], req@);
                }
            }
        }
        i = i + 1;
    }
    Score { distance: total, unmatched, breakdown }
}

/// A matcher that rejects a request is at a positive distance from it.
pub proof fn lemma_distance_positive(m: Matcher, r: RequestView)
    ensures
        (m.distance(r) == 0) == m.accepts(r),
{
    if !m.accepts(r) {
        match m {
            Matcher::MethodEquals(x) => lemma_text_distance_zero(r.method, x@),
            Matcher::SchemeEquals(x) => lemma_text_distance_zero(r.scheme, x@),
            Matcher::HostEquals(x) => lemma_text_distance_zero(r.host, x@),
            Matcher::PathEquals(x) => lemma_text_distance_zero(r.path, x@),
            _ => {},
        }
    }
}

} // verus!
