//! What a recording keeps of an exchange, and how a recorded entry is
//! played back as a mock.

use vstd::prelude::*;

use crate::matcher::{
    all_accept, eq_ci, header_has_value, query_has_value, text_eq_ignore_case, Matcher,
};
use crate::request::{copy_pairs, pairs_view, HttpRequest, PairView, RequestView};
use crate::rules::{
    has_line_break, keys_clean, matcher_key, names_clean, valid_definition, MockDefinition,
    MockResponse, RecordedEntry, RecordedRequest, RecordedResponse,
};

verus! {

/// The name is on the list of kept header names (ignoring ASCII case).
pub open spec fn name_listed(names: Seq<String>, name: Seq<char>) -> bool {
    exists|i: int| 0 <= i < names.len() && eq_ci(#[trigger] names[i]@, name)
}

/// The first `n` headers whose names are listed, in their order.
pub open spec fn kept_headers(hs: Seq<PairView>, names: Seq<String>, n: nat) -> Seq<PairView>
    decreases n,
{
    if n == 0 {
        Seq::empty()
    } else if name_listed(names, hs[n - 1].0) {
        kept_headers(hs, names, (n - 1) as nat).push(hs[n - 1])
    } else {
        kept_headers(hs, names, (n - 1) as nat)
    }
}

/// The recorded request holds what is kept of the request: method, path,
/// query and body in full, and the headers whose names are listed.
pub open spec fn captures(rec: RecordedRequest, r: RequestView, names: Seq<String>) -> bool {
    &&& rec.method@ == r.method
    &&& rec.path@ == r.path
    &&& pairs_view(rec.query@) == r.query
    &&& pairs_view(rec.headers@) == kept_headers(r.headers, names, r.headers.len())
    &&& rec.body@ == r.body
}

/// A request that an entry, played back, answers: same method, path and
/// body, and every recorded query pair and header present.
pub open spec fn entry_accepts(e: RecordedEntry, r: RequestView) -> bool {
    let q = pairs_view(e.request.query@);
    let hs = pairs_view(e.request.headers@);
    &&& r.method == e.request.method@
    &&& r.path == e.request.path@
    &&& forall|k: int| 0 <= k < q.len() ==> query_has_value(r.query, #[trigger] q[k].0, q[k].1)
    &&& forall|k: int| 0 <= k < hs.len() ==> header_has_value(r.headers, #[trigger] hs[k].0, hs[k].1)
    &&& r.body == e.request.body@
}

/// The matchers that playing an entry back installs: method, path, each
/// query pair, each recorded header, and the body.
pub open spec fn playback_matchers(ms: Seq<Matcher>, e: RecordedEntry) -> bool {
    let q = e.request.query@;
    let hs = e.request.headers@;
    &&& ms.len() == 3 + q.len() + hs.len()
    &&& ms[0] == Matcher::MethodEquals(e.request.method)
    &&& ms[1] == Matcher::PathEquals(e.request.path)
    &&& forall|k: int|
        0 <= k < q.len() ==> #[trigger] ms[2 + k] == Matcher::QueryEquals(q[k].0, q[k].1)
    &&& forall|k: int|
        0 <= k < hs.len() ==> #[trigger] ms[2 + q.len() + k] == Matcher::HeaderEquals(
            hs[k].0,
            hs[k].1,
        )
    &&& ms[2 + q.len() + hs.len() as int] is BodyEquals
    &&& ms[2 + q.len() + hs.len() as int]->BodyEquals_0@ == e.request.body@
}

/// The definition that playing an entry back installs: its matchers, the
/// recorded response, and no limit.
pub open spec fn playback_definition(d: MockDefinition, e: RecordedEntry) -> bool {
    &&& playback_matchers(d.matchers@, e)
    &&& d.response.status == Some(e.response.status)
    &&& pairs_view(d.response.headers@) == pairs_view(e.response.headers@)
    &&& d.response.body@ == e.response.body@
    &&& d.response.delay_ms == e.response.delay_ms
    &&& d.limit is None
}

/// The matchers of a played-back entry accept exactly the requests that the
/// entry answers.
pub proof fn lemma_playback_matchers_accept(ms: Seq<Matcher>, e: RecordedEntry, r: RequestView)
    requires
        playback_matchers(ms, e),
    ensures
        all_accept(ms, r) == entry_accepts(e, r),
{
    let q = e.request.query@;
    let hs = e.request.headers@;
    let qv = pairs_view(q);
    let hv = pairs_view(hs);
    if all_accept(ms, r) {
        assert(ms[0].accepts(r));
        assert(ms[1].accepts(r));
        assert(ms[2 + q.len() + hs.len() as int].accepts(r));
        assert forall|k: int| 0 <= k < qv.len() implies query_has_value(
            r.query,
            #[trigger] qv[k].0,
            qv[k].1,
        ) by {
            assert(ms[2 + k].accepts(r));
        }
        assert forall|k: int| 0 <= k < hv.len() implies header_has_value(
            r.headers,
            #[trigger] hv[k].0,
            hv[k].1,
        ) by {
            assert(ms[2 + q.len() + k].accepts(r));
        }
    }
    if entry_accepts(e, r) {
        assert forall|k: int| 0 <= k < ms.len() implies #[trigger] ms[k].accepts(r) by {
            if 2 <= k < 2 + q.len() {
                assert(ms[2 + (k - 2)] == ms[k]);
                assert(query_has_value(r.query, qv[k - 2].0, qv[k - 2].1));
            } else if 2 + q.len() <= k < 2 + q.len() + hs.len() {
                let j = k - 2 - q.len();
                assert(ms[2 + q.len() + j] == ms[k]);
                assert(header_has_value(r.headers, hv[j].0, hv[j].1));
            }
        }
    }
}

proof fn lemma_kept_are_present(hs: Seq<PairView>, names: Seq<String>, n: nat, k: int)
    requires
        n <= hs.len(),
        0 <= k < kept_headers(hs, names, n).len(),
    ensures
        exists|i: int| 0 <= i < n && hs[i] == kept_headers(hs, names, n)[k],
    decreases n,
{
    let prev = kept_headers(hs, names, (n - 1) as nat);
    if name_listed(names, hs[n - 1].0) && k == prev.len() {
        assert(hs[n - 1] == kept_headers(hs, names, n)[k]);
    } else {
        lemma_kept_are_present(hs, names, (n - 1) as nat, k);
    }
}

/// A request is answered by the entry that captured it.
pub proof fn lemma_captured_request_accepted(e: RecordedEntry, r: RequestView, names: Seq<String>)
    requires
        captures(e.request, r, names),
    ensures
        entry_accepts(e, r),
{
    let qv = pairs_view(e.request.query@);
    let hv = pairs_view(e.request.headers@);
    assert forall|k: int| 0 <= k < qv.len() implies query_has_value(
        r.query,
        #[trigger] qv[k].0,
        qv[k].1,
    ) by {
        assert(r.query[k] == (qv[k].0, qv[k].1));
    }
    assert forall|k: int| 0 <= k < hv.len() implies header_has_value(
        r.headers,
        #[trigger] hv[k].0,
        hv[k].1,
    ) by {
        lemma_kept_are_present(r.headers, names, r.headers.len(), k);
        let i = choose|i: int| 0 <= i < r.headers.len() && r.headers[i] == hv[k];
        assert(eq_ci(r.headers[i].0, hv[k].0)) by {
            assert forall|c: int| 0 <= c < hv[k].0.len() implies crate::matcher::char_eq_ci(
                r.headers[i].0[c],
                hv[k].0[c],
            ) by {}
        }
    }
}

/// Whether a header name is on the list of kept names.
pub fn is_listed(names: &Vec<String>, name: &String) -> (r: bool)
    ensures
        r == name_listed(names@, name@),
{
    let mut i: usize = 0;
    while i < names.len()
        invariant
            0 <= i <= names@.len(),
            forall|j: int| 0 <= j < i ==> !eq_ci(#[trigger] names@[j]@, name@),
        decreases names@.len() - i,
    {
        if text_eq_ignore_case(names[i].as_str(), name.as_str()) {
            return true;
        }
        i = i + 1;
    }
    false
}

/// What a recording keeps of a request.
pub fn capture_request(req: &HttpRequest, names: &Vec<String>) -> (r: RecordedRequest)
    ensures
        captures(r, req@, names@),
{
    let ghost hs = req@.headers;
    let mut headers: Vec<(String, String)> = Vec::new();
    let mut i: usize = 0;
    while i < req.headers.len()
        invariant
            hs == req@.headers,
            hs == pairs_view(req.headers@),
            0 <= i <= req.headers@.len(),
            pairs_view(headers@) == kept_headers(hs, names@, i as nat),
        decreases req.headers@.len() - i,
    {
        let ghost before = headers@;
        if is_listed(names, &req.headers[i].0) {
            let k = req.headers[i].0.clone();
            let v = req.headers[i].1.clone();
            headers.push((k, v));
            assert(pairs_view(headers@) =~= pairs_view(before).push(hs[i as int]));
        }
        i = i + 1;
    }
    RecordedRequest {
        method: req.method.clone(),
        path: req.path.clone(),
        query: copy_pairs(&req.query),
        headers,
        body: req.body.clone(),
    }
}

/// A copy of a recorded response, without its delay when delays are not kept.
pub fn copy_response(resp: &RecordedResponse, keep_delay: bool) -> (r: RecordedResponse)
    ensures
        r.status == resp.status,
        pairs_view(r.headers@) == pairs_view(resp.headers@),
        r.body@ == resp.body@,
        r.delay_ms == if keep_delay {
            resp.delay_ms
        } else {
            0
        },
{
    RecordedResponse {
        status: resp.status,
        headers: copy_pairs(&resp.headers),
        body: resp.body.clone(),
        delay_ms: if keep_delay {
            resp.delay_ms
        } else {
            0
        },
    }
}

/// The definition that plays an entry back.
pub fn definition_for_entry(e: &RecordedEntry) -> (d: MockDefinition)
    ensures
        playback_definition(d, *e),
{
    let q = &e.request.query;
    let hs = &e.request.headers;
    let mut ms: Vec<Matcher> = Vec::new();
    ms.push(Matcher::MethodEquals(e.request.method.clone()));
    ms.push(Matcher::PathEquals(e.request.path.clone()));
    let mut i: usize = 0;
    while i < q.len()
        invariant
            q == e.request.query,
            0 <= i <= q@.len(),
            ms@.len() == 2 + i,
            ms@[0] == Matcher::MethodEquals(e.request.method),
            ms@[1] == Matcher::PathEquals(e.request.path),
            forall|k: int| 0 <= k < i ==> #[trigger] ms@[2 + k] == Matcher::QueryEquals(q@[k].0, q@[k].1),
        decreases q@.len() - i,
    {
        ms.push(Matcher::QueryEquals(q[i].0.clone(), q[i].1.clone()));
        i = i + 1;
    }
    let mut j: usize = 0;
    while j < hs.len()
        invariant
            q == e.request.query,
            hs == e.request.headers,
            ms@.len() == 2 + q@.len() + j,
            0 <= j <= hs@.len(),
            ms@[0] == Matcher::MethodEquals(e.request.method),
            ms@[1] == Matcher::PathEquals(e.request.path),
            forall|k: int| 0 <= k < q@.len() ==> #[trigger] ms@[2 + k] == Matcher::QueryEquals(q@[k].0, q@[k].1),
            forall|k: int|
                0 <= k < j ==> #[trigger] ms@[2 + q@.len() + k] == Matcher::HeaderEquals(
                    hs@[k].0,
                    hs@[k].1,
                ),
        decreases hs@.len() - j,
    {
        ms.push(Matcher::HeaderEquals(hs[j].0.clone(), hs[j].1.clone()));
        j = j + 1;
    }
    ms.push(Matcher::BodyEquals(e.request.body.clone()));
    MockDefinition {
        matchers: ms,
        response: MockResponse {
            status: Some(e.response.status),
            headers: copy_pairs(&e.response.headers),
            body: e.response.body.clone(),
            delay_ms: e.response.delay_ms,
        },
        limit: None,
    }
}

/// No query key, request header name or response header name of the entry
/// holds a line break.
pub open spec fn entry_playable(e: RecordedEntry) -> bool {
    &&& names_clean(pairs_view(e.request.query@))
    &&& names_clean(pairs_view(e.request.headers@))
    &&& names_clean(pairs_view(e.response.headers@))
}

/// The definition that plays an entry back is valid exactly when the entry's
/// keys are free of line breaks.
pub proof fn lemma_playback_valid(d: MockDefinition, e: RecordedEntry)
    requires
        playback_definition(d, e),
    ensures
        valid_definition(d) == entry_playable(e),
{
    let ms = d.matchers@;
    let q = e.request.query@;
    let hs = e.request.headers@;
    if keys_clean(ms) {
        assert forall|k: int| 0 <= k < pairs_view(q).len() implies !has_line_break(
            #[trigger] pairs_view(q)[k].0,
        ) by {
            assert(ms[2 + k] == Matcher::QueryEquals(q[k].0, q[k].1));
            assert(matcher_key(ms[2 + k]) == Some(q[k].0@));
        }
        assert forall|k: int| 0 <= k < pairs_view(hs).len() implies !has_line_break(
            #[trigger] pairs_view(hs)[k].0,
        ) by {
            assert(ms[2 + q.len() + k] == Matcher::HeaderEquals(hs[k].0, hs[k].1));
            assert(matcher_key(ms[2 + q.len() + k]) == Some(hs[k].0@));
        }
    }
    if entry_playable(e) {
        assert forall|k: int| 0 <= k < ms.len() implies match #[trigger] matcher_key(ms[k]) {
            Some(key) => !has_line_break(key),
            None => true,
        } by {
            if 2 <= k < 2 + q.len() {
                assert(ms[2 + (k - 2)] == ms[k]);
                assert(!has_line_break(pairs_view(q)[k - 2].0));
            } else if 2 + q.len() <= k < 2 + q.len() + hs.len() {
                let j = k - 2 - q.len();
                assert(ms[2 + q.len() + j] == ms[k]);
                assert(!has_line_break(pairs_view(hs)[j].0));
            }
        }
    }
}

} // verus!
