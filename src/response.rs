//! Post-processing of responses and how recorded bodies are written down.

use vstd::prelude::*;
use vstd::utf8::{decode_utf8, valid_utf8};

use crate::error::ServerAdapterError;
use crate::http_bytes::{base64_encode, base64_text, utf8_text};
use crate::matcher::{eq_ci, text_eq_ignore_case};
use crate::request::{pairs_view, PairView};

verus! {

/// Header names that only concern one connection and are not passed on.
pub open spec fn hop_by_hop(name: Seq<char>) -> bool {
    ||| eq_ci(name, "connection"@)
    ||| eq_ci(name, "keep-alive"@)
    ||| eq_ci(name, "proxy-authenticate"@)
    ||| eq_ci(name, "proxy-authorization"@)
    ||| eq_ci(name, "te"@)
    ||| eq_ci(name, "trailer"@)
    ||| eq_ci(name, "transfer-encoding"@)
    ||| eq_ci(name, "upgrade"@)
}

/// A header that the server replaces when it sends a fully buffered body:
/// `Content-Length`, and `Transfer-Encoding: chunked`.
pub open spec fn replaced_when_buffered(h: PairView) -> bool {
    eq_ci(h.0, "content-length"@) || (eq_ci(h.0, "transfer-encoding"@) && eq_ci(h.1, "chunked"@))
}

/// The first `n` headers without those that `drop` selects, in order.
pub open spec fn headers_without(
    hs: Seq<PairView>,
    drop: spec_fn(PairView) -> bool,
    n: nat,
) -> Seq<PairView>
    decreases n,
{
    if n == 0 {
        Seq::empty()
    } else if drop(hs[n - 1]) {
        headers_without(hs, drop, (n - 1) as nat)
    } else {
        headers_without(hs, drop, (n - 1) as nat).push(hs[n - 1])
    }
}

/// The decimal digits of a number.
pub open spec fn decimal_text(n: nat) -> Seq<char>
    decreases n,
{
    if n < 10 {
        seq![digit_char(n)]
    } else {
        decimal_text(n / 10).push(digit_char(n % 10))
    }
}

pub open spec fn digit_char(d: nat) -> char {
    if d == 0 { '0' } else if d == 1 { '1' } else if d == 2 { '2' } else if d == 3 { '3' } else if d
        == 4 { '4' } else if d == 5 { '5' } else if d == 6 { '6' } else if d == 7 { '7' } else if d
        == 8 { '8' } else { '9' }
}

fn is_hop_by_hop(name: &String) -> (r: bool)
    ensures
        r == hop_by_hop(name@),
{
    let t = name.as_str();
    text_eq_ignore_case(t, "connection") || text_eq_ignore_case(t, "keep-alive")
        || text_eq_ignore_case(t, "proxy-authenticate") || text_eq_ignore_case(
        t,
        "proxy-authorization",
    ) || text_eq_ignore_case(t, "te") || text_eq_ignore_case(t, "trailer") || text_eq_ignore_case(
        t,
        "transfer-encoding",
    ) || text_eq_ignore_case(t, "upgrade")
}

fn is_replaced_when_buffered(h: &(String, String)) -> (r: bool)
    ensures
        r == replaced_when_buffered((h.0@, h.1@)),
{
    text_eq_ignore_case(h.0.as_str(), "content-length") || (text_eq_ignore_case(
        h.0.as_str(),
        "transfer-encoding",
    ) && text_eq_ignore_case(h.1.as_str(), "chunked"))
}

/// The headers of a forwarded response without hop-by-hop headers, in order.
pub fn strip_hop_by_hop(headers: &Vec<(String, String)>) -> (r: Vec<(String, String)>)
    ensures
        pairs_view(r@) == headers_without(
            pairs_view(headers@),
            |h: PairView| hop_by_hop(h.0),
            headers@.len() as nat,
        ),
{
    let ghost hs = pairs_view(headers@);
    let ghost drop = |h: PairView| hop_by_hop(h.0);
    let mut out: Vec<(String, String)> = Vec::new();
    let mut i: usize = 0;
    while i < headers.len()
        invariant
            hs == pairs_view(headers@),
            drop == (|h: PairView| hop_by_hop(h.0)),
            0 <= i <= headers@.len(),
            pairs_view(out@) == headers_without(hs, drop, i as nat),
        decreases headers@.len() - i,
    {
        if !is_hop_by_hop(&headers[i].0) {
            let ghost before = out@;
            out.push((headers[i].0.clone(), headers[i].1.clone()));
            assert(pairs_view(out@) =~= pairs_view(before).push(hs[i as int]));
        }
        i = i + 1;
    }
    out
}

/// The decimal text of a number.
pub fn decimal_string(n: u64) -> (r: String)
    ensures
        r@ == decimal_text(n as nat),
    decreases n,
{
    let d = n % 10;
    let c = if d == 0 { '0' } else if d == 1 { '1' } else if d == 2 { '2' } else if d == 3 { '3' } else if d
        == 4 { '4' } else if d == 5 { '5' } else if d == 6 { '6' } else if d == 7 { '7' } else if d
        == 8 { '8' } else { '9' };
    if n < 10 {
        let mut s = String::new();
        crate::text::push_char(&mut s, c);
        assert(s@ =~= seq![digit_char(n as nat)]);
        s
    } else {
        let mut s = decimal_string(n / 10);
        crate::text::push_char(&mut s, c);
        s
    }
}

/// The headers sent with a fully buffered body: every `Content-Length` and
/// every `Transfer-Encoding: chunked` removed, then `content-length` set to
/// the body's length.
pub fn buffered_headers(headers: &Vec<(String, String)>, body_len: u64) -> (r: Vec<(String, String)>)
    ensures
        pairs_view(r@) == headers_without(
            pairs_view(headers@),
            |h: PairView| replaced_when_buffered(h),
            headers@.len() as nat,
        ).push(("content-length"@, decimal_text(body_len as nat))),
{
    let ghost hs = pairs_view(headers@);
    let ghost drop = |h: PairView| replaced_when_buffered(h);
    let mut out: Vec<(String, String)> = Vec::new();
    let mut i: usize = 0;
    while i < headers.len()
        invariant
            hs == pairs_view(headers@),
            drop == (|h: PairView| replaced_when_buffered(h)),
            0 <= i <= headers@.len(),
            pairs_view(out@) == headers_without(hs, drop, i as nat),
        decreases headers@.len() - i,
    {
        if !is_replaced_when_buffered(&headers[i]) {
            let ghost before = out@;
            out.push((headers[i].0.clone(), headers[i].1.clone()));
            assert(pairs_view(out@) =~= pairs_view(before).push(hs[i as int]));
        }
        i = i + 1;
    }
    let ghost before = out@;
    out.push((String::from_str("content-length"), decimal_string(body_len)));
    assert(pairs_view(out@) =~= pairs_view(before).push(("content-length"@, decimal_text(body_len as nat))));
    out
}

/// The HTTP status with which the management interface answers an error:
/// 404 for an unknown identifier, 400 for an invalid definition or input
/// that does not parse, 502 for an upstream failure, 500 otherwise.
pub fn error_status(e: &ServerAdapterError) -> (r: u16)
    ensures
        r == match e {
            ServerAdapterError::MockNotFound(_) => 404u16,
            ServerAdapterError::InvalidMockDefinitionError(_) => 400u16,
            ServerAdapterError::JsonDeserializationError(_) => 400u16,
            ServerAdapterError::UpstreamError(_) => 502u16,
            _ => 500u16,
        },
{
    match e {
        ServerAdapterError::MockNotFound(_) => 404,
        ServerAdapterError::InvalidMockDefinitionError(_) => 400,
        ServerAdapterError::JsonDeserializationError(_) => 400,
        ServerAdapterError::UpstreamError(_) => 502,
        _ => 500,
    }
}

/// How a recorded body is written down.
#[derive(PartialEq, Eq, Structural, Clone, Copy, Debug)]
pub enum BodyEncoding {
    /// The body is valid UTF-8 and written as that text.
    Plain,
    /// The body is written as standard base64.
    Base64,
}

/// A body as it is written into a recording: its UTF-8 text when it has one,
/// otherwise its base64 text, with the tag that says which.
pub fn encode_body(body: &[u8]) -> (r: (BodyEncoding, String))
    ensures
        valid_utf8(body@) ==> r.0 == BodyEncoding::Plain && r.1@ == decode_utf8(body@),
        !valid_utf8(body@) ==> r.0 == BodyEncoding::Base64 && r.1@ == base64_text(body@),
{
    match utf8_text(body) {
        Some(t) => (BodyEncoding::Plain, t),
        None => (BodyEncoding::Base64, base64_encode(body)),
    }
}

} // verus!
