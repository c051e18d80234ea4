use httpmock_core::http_bytes::HttpMockBytes;
use httpmock_core::{
    absolute_target, forward_target, is_none_or_empty, next_retry_step, title_case,
    RequestMetadata, RetryStep,
};

#[test]
fn title_case_words() {
    assert_eq!(title_case("hello world"), "Hello World");
    assert_eq!(title_case("cONTENT-type"), "Content-type");
    assert_eq!(title_case("  two  spaces"), "  Two  Spaces");
    assert_eq!(title_case(""), "");
}

#[test]
fn none_or_empty() {
    assert!(is_none_or_empty::<u8>(&None));
    assert!(is_none_or_empty::<u8>(&Some(vec![])));
    assert!(!is_none_or_empty(&Some(vec![1u8])));
}

#[test]
fn bytes_searches() {
    let b = HttpMockBytes::from_text("hello world");
    assert!(b.contains_str("lo wo"));
    assert!(b.contains_str(""));
    assert!(!b.contains_str("worlds"));
    assert!(b.contains_slice(b"world"));
    assert!(!b.contains_slice(b"xyz"));
    assert!(b.contains_vec(&b"hello".to_vec()));
    assert!(!b.is_empty());
    assert!(!b.is_blank());
    assert_eq!(b.to_vec(), b"hello world".to_vec());
    assert_eq!(b.to_bytes().as_ref(), b"hello world");
    assert!(b.eq_slice(b"hello world"));
}

#[test]
fn bytes_from_buffer() {
    let b = HttpMockBytes::from_bytes(bytes::Bytes::from_static(b"abc"));
    assert_eq!(b.to_vec(), b"abc".to_vec());
    assert!(b.contains_slice(b"bc"));
}

#[test]
fn bytes_blank_and_empty() {
    assert!(HttpMockBytes::from_vec(vec![]).is_empty());
    assert!(HttpMockBytes::from_vec(vec![]).is_blank());
    assert!(HttpMockBytes::from_text(" \t\r\n").is_blank());
    assert!(!HttpMockBytes::from_text(" a ").is_blank());
}

#[test]
fn bytes_text_forms() {
    let text = HttpMockBytes::from_text("plain");
    assert_eq!(text.to_display_string(), "plain");
    assert_eq!(text.to_maybe_lossy_str(), "plain");
    let binary = HttpMockBytes::from_vec(vec![0xff, 0x00, 0x10]);
    assert_eq!(binary.to_display_string(), "/wAQ");
    assert_eq!(binary.to_maybe_lossy_str(), "\u{FFFD}\u{0}\u{10}");
}

#[test]
fn request_metadata_scheme() {
    assert_eq!(RequestMetadata::new("https").scheme, "https");
}

#[test]
fn absolute_target_from_host() {
    assert_eq!(
        absolute_target(None, false, Some("example.com:8080"), Some("https"), Some("/a?b=1")),
        Some("https://example.com:8080/a?b=1".to_string())
    );
    assert_eq!(
        absolute_target(None, false, Some("example.com"), None, None),
        Some("http://example.com/".to_string())
    );
    assert_eq!(absolute_target(Some("http"), true, Some("example.com"), None, None), None);
    assert_eq!(absolute_target(None, false, None, None, Some("/x")), None);
}

#[test]
fn forward_target_keeps_path_and_query() {
    assert_eq!(forward_target("http://upstream", "/proxy/x", ""), "http://upstream/proxy/x");
    assert_eq!(forward_target("http://upstream/", "/p", "a=1"), "http://upstream/p?a=1");
}

#[test]
fn retry_steps() {
    assert_eq!(next_retry_step(0, 1, false), RetryStep::WaitSeconds(1));
    assert_eq!(next_retry_step(1, 1, false), RetryStep::Stop);
    assert_eq!(next_retry_step(0, 3, true), RetryStep::Stop);
    assert_eq!(next_retry_step(2, 3, false), RetryStep::WaitSeconds(3));
}
