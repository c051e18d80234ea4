use httpmock_core::cookies::{cookies_of_request, parse_cookie_header};
use httpmock_core::normalize::{
    decode_path, normalize_method, parse_form, parse_query, percent_decode,
};
use httpmock_core::response::{
    buffered_headers, decimal_string, encode_body, error_status, strip_hop_by_hop, BodyEncoding,
};
use httpmock_core::ServerAdapterError;

fn pairs(v: &[(&str, &str)]) -> Vec<(String, String)> {
    v.iter().map(|(k, x)| (k.to_string(), x.to_string())).collect()
}

#[test]
fn percent_decoding() {
    assert_eq!(percent_decode(b"a%20b%2Fc", false), b"a b/c".to_vec());
    assert_eq!(percent_decode(b"a+b", true), b"a b".to_vec());
    assert_eq!(percent_decode(b"a+b", false), b"a+b".to_vec());
    assert_eq!(percent_decode(b"%zz%4", false), b"%zz%4".to_vec());
    assert_eq!(percent_decode(b"%e2%82%AC", false), "\u{20AC}".as_bytes().to_vec());
}

#[test]
fn path_decoding() {
    assert_eq!(decode_path("/a%20b"), "/a b");
    assert_eq!(decode_path("/plain"), "/plain");
    assert_eq!(decode_path("/%ff"), "/\u{FFFD}");
}

#[test]
fn query_parsing() {
    assert_eq!(parse_query("a=1&b=two&c"), pairs(&[("a", "1"), ("b", "two"), ("c", "")]));
    assert_eq!(parse_query(""), pairs(&[]));
    assert_eq!(parse_query("&&x=1&"), pairs(&[("x", "1")]));
    assert_eq!(parse_query("k=a=b&sp=a+b%21"), pairs(&[("k", "a=b"), ("sp", "a b!")]));
}

#[test]
fn hop_by_hop_headers_removed() {
    let hs = pairs(&[
        ("Content-Type", "text/plain"),
        ("Connection", "keep-alive"),
        ("Keep-Alive", "timeout=5"),
        ("transfer-encoding", "chunked"),
        ("X-Custom", "1"),
    ]);
    assert_eq!(strip_hop_by_hop(&hs), pairs(&[("Content-Type", "text/plain"), ("X-Custom", "1")]));
}

#[test]
fn buffered_headers_set_length() {
    let hs = pairs(&[
        ("Content-Length", "999"),
        ("Transfer-Encoding", "Chunked"),
        ("Transfer-Encoding", "gzip"),
        ("X-A", "b"),
    ]);
    assert_eq!(
        buffered_headers(&hs, 42),
        pairs(&[("Transfer-Encoding", "gzip"), ("X-A", "b"), ("content-length", "42")])
    );
    assert_eq!(buffered_headers(&vec![], 0), pairs(&[("content-length", "0")]));
}

#[test]
fn decimal_text() {
    assert_eq!(decimal_string(0), "0");
    assert_eq!(decimal_string(1234567890), "1234567890");
    assert_eq!(decimal_string(u64::MAX), u64::MAX.to_string());
}

#[test]
fn error_statuses() {
    assert_eq!(error_status(&ServerAdapterError::MockNotFound(1)), 404);
    assert_eq!(error_status(&ServerAdapterError::InvalidMockDefinitionError("x".into())), 400);
    assert_eq!(error_status(&ServerAdapterError::JsonDeserializationError("x".into())), 400);
    assert_eq!(error_status(&ServerAdapterError::JsonSerializationError("x".into())), 500);
    assert_eq!(error_status(&ServerAdapterError::UpstreamError("x".into())), 502);
    assert_eq!(error_status(&ServerAdapterError::Unknown), 500);
}

#[test]
fn body_encodings() {
    assert_eq!(encode_body(b"{\"k\":1}"), (BodyEncoding::Plain, "{\"k\":1}".to_string()));
    assert_eq!(encode_body(&[0xff, 0xfe]), (BodyEncoding::Base64, "//4=".to_string()));
    assert_eq!(encode_body(b""), (BodyEncoding::Plain, String::new()));
}

#[test]
fn method_normalization() {
    assert_eq!(normalize_method("get"), "GET");
    assert_eq!(normalize_method("Patch"), "PATCH");
    assert_eq!(normalize_method("m-search"), "M-SEARCH");
}

#[test]
fn form_body_parsing() {
    assert_eq!(parse_form(b"name=J%C3%BCrgen&age=30"), pairs(&[("name", "J\u{fc}rgen"), ("age", "30")]));
}

#[test]
fn cookie_header_parsing() {
    assert_eq!(
        parse_cookie_header("session=abc; theme=dark;flag; ;x=a=b"),
        pairs(&[("session", "abc"), ("theme", "dark"), ("flag", ""), ("x", "a=b")])
    );
    assert_eq!(parse_cookie_header(""), pairs(&[]));
    assert_eq!(
        cookies_of_request(&pairs(&[("Cookie", "a=1"), ("X", "y"), ("cookie", "b=2")])),
        pairs(&[("a", "1"), ("b", "2")])
    );
}
