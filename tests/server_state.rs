use httpmock_core::{
    ActiveMock, Dispatch, ForwardingRuleConfig, HttpRequest, Matcher, MockDefinition,
    MockResponse, ProxyRuleConfig, RecordedResponse, RecordingRuleConfig, ServerAdapterError,
    StateManager,
};

fn request(method: &str, path: &str, body: &[u8]) -> HttpRequest {
    HttpRequest {
        method: method.to_string(),
        scheme: "http".to_string(),
        host: "localhost".to_string(),
        port: 5050,
        path: path.to_string(),
        query: vec![],
        headers: vec![("Accept".to_string(), "text/plain".to_string())],
        body: body.to_vec(),
    }
}

fn mock(matchers: Vec<Matcher>, status: u16, body: &str, limit: Option<u64>) -> MockDefinition {
    MockDefinition {
        matchers,
        response: MockResponse {
            status: Some(status),
            headers: vec![],
            body: body.as_bytes().to_vec(),
            delay_ms: 0,
        },
        limit,
    }
}

fn status_of(s: &StateManager, d: Dispatch) -> Option<u16> {
    match d {
        Dispatch::Respond(id) => s.fetch_mock(id).unwrap().definition.response.status,
        _ => None,
    }
}

fn response(status: u16, body: &str) -> RecordedResponse {
    RecordedResponse {
        status,
        headers: vec![("Content-Type".to_string(), "text/plain".to_string())],
        body: body.as_bytes().to_vec(),
        delay_ms: 12,
    }
}

#[test]
fn create_respond_delete() {
    let mut s = StateManager::new(100);
    let def = mock(
        vec![Matcher::MethodEquals("GET".to_string()), Matcher::PathEquals("/hello".to_string())],
        201,
        "world",
        None,
    );
    let id = s.create_mock(def).unwrap();
    let d = s.handle_request(&request("GET", "/hello", b""));
    assert_eq!(d, Dispatch::Respond(id));
    let m: &ActiveMock = s.fetch_mock(id).unwrap();
    assert_eq!(m.definition.response.status, Some(201));
    assert_eq!(m.definition.response.body, b"world".to_vec());
    assert_eq!(s.handle_request(&request("GET", "/hello", b"")), Dispatch::Respond(id));
    assert_eq!(s.fetch_mock(id).unwrap().hits, 2);
    s.delete_mock(id).unwrap();
    assert_eq!(s.handle_request(&request("GET", "/hello", b"")), Dispatch::NotFound);
}

#[test]
fn latest_mock_wins() {
    let mut s = StateManager::new(100);
    let _m1 = s.create_mock(mock(vec![Matcher::PathEquals("/a".to_string())], 200, "", None)).unwrap();
    let m2 = s.create_mock(mock(vec![Matcher::PathEquals("/a".to_string())], 204, "", None)).unwrap();
    let d = s.handle_request(&request("GET", "/a", b""));
    assert_eq!(d, Dispatch::Respond(m2));
    assert_eq!(status_of(&s, d), Some(204));
}

#[test]
fn forwarding_rule_takes_precedence() {
    let mut s = StateManager::new(100);
    let m = s.create_mock(mock(vec![Matcher::Any], 200, "", None)).unwrap();
    let f = s
        .create_forwarding_rule(ForwardingRuleConfig {
            target_base_url: "http://upstream".to_string(),
            request_requirements: vec![Matcher::PathPrefix("/proxy/".to_string())],
            request_header: vec![],
        })
        .unwrap();
    assert_eq!(s.handle_request(&request("GET", "/proxy/x", b"")), Dispatch::Forward(f));
    assert_eq!(s.fetch_mock(m).unwrap().hits, 0);
    assert_eq!(s.handle_request(&request("GET", "/other", b"")), Dispatch::Respond(m));
}

#[test]
fn proxy_rule_for_any_request() {
    let mut s = StateManager::new(100);
    let p = s
        .create_proxy_rule(ProxyRuleConfig { request_requirements: vec![Matcher::Any], request_header: vec![] })
        .unwrap();
    let mut connect = request("CONNECT", "/", b"");
    connect.host = "example.com".to_string();
    connect.port = 443;
    assert_eq!(s.handle_request(&connect), Dispatch::Proxy(p));
}

#[test]
fn limit_enforced() {
    let mut s = StateManager::new(100);
    let id = s.create_mock(mock(vec![Matcher::PathEquals("/x".to_string())], 200, "", Some(2))).unwrap();
    assert_eq!(s.handle_request(&request("GET", "/x", b"")), Dispatch::Respond(id));
    assert_eq!(s.handle_request(&request("GET", "/x", b"")), Dispatch::Respond(id));
    assert_eq!(s.handle_request(&request("GET", "/x", b"")), Dispatch::NotFound);
    assert_eq!(s.fetch_mock(id).unwrap().hits, 2);
}

#[test]
fn history_keeps_last() {
    let mut s = StateManager::new(3);
    for p in ["/1", "/2", "/3", "/4", "/5"] {
        s.handle_request(&request("GET", p, b""));
    }
    let paths: Vec<String> = s.history_requests().iter().map(|r| r.path.clone()).collect();
    assert_eq!(paths, vec!["/3", "/4", "/5"]);
    s.delete_history();
    assert!(s.history_requests().is_empty());
}

#[test]
fn history_limit_zero_keeps_nothing() {
    let mut s = StateManager::new(0);
    s.handle_request(&request("GET", "/1", b""));
    assert!(s.history_requests().is_empty());
}

#[test]
fn listing_in_creation_order() {
    let mut s = StateManager::new(10);
    let a = s.create_mock(mock(vec![], 200, "", None)).unwrap();
    let b = s.create_mock(mock(vec![], 201, "", None)).unwrap();
    let c = s.create_mock(mock(vec![], 202, "", None)).unwrap();
    s.delete_mock(b).unwrap();
    let d = s.create_mock(mock(vec![], 203, "", None)).unwrap();
    let ids: Vec<usize> = s.all_mocks().iter().map(|m| m.id).collect();
    assert_eq!(ids, vec![a, c, d]);
    assert!(a < c && c < d);
}

#[test]
fn reset_clears_everything() {
    let mut s = StateManager::new(10);
    let first = s.create_mock(mock(vec![], 200, "", None)).unwrap();
    s.create_forwarding_rule(ForwardingRuleConfig {
        target_base_url: "http://u".to_string(),
        request_requirements: vec![],
        request_header: vec![],
    })
    .unwrap();
    s.create_proxy_rule(ProxyRuleConfig { request_requirements: vec![], request_header: vec![] }).unwrap();
    s.create_recording(RecordingRuleConfig {
        request_requirements: vec![],
        record_headers: vec![],
        record_response_delays: false,
    })
    .unwrap();
    s.handle_request(&request("GET", "/", b""));
    s.reset();
    assert!(s.all_mocks().is_empty());
    assert!(s.all_forwarding_rules().is_empty());
    assert!(s.all_proxy_rules().is_empty());
    assert!(s.all_recordings().is_empty());
    assert!(s.history_requests().is_empty());
    let next = s.create_mock(mock(vec![], 200, "", None)).unwrap();
    assert!(next > first);
}

#[test]
fn invalid_definitions_refused() {
    let mut s = StateManager::new(10);
    let zero = s.create_mock(mock(vec![], 200, "", Some(0)));
    assert!(matches!(zero, Err(ServerAdapterError::InvalidMockDefinitionError(_))));
    let mut no_status = mock(vec![], 200, "", None);
    no_status.response.status = None;
    assert!(matches!(s.create_mock(no_status), Err(ServerAdapterError::InvalidMockDefinitionError(_))));
    let crlf = mock(vec![Matcher::HeaderPresent("X-A\r\n".to_string())], 200, "", None);
    assert!(matches!(s.create_mock(crlf), Err(ServerAdapterError::InvalidMockDefinitionError(_))));
    let bad_rule = s.create_forwarding_rule(ForwardingRuleConfig {
        target_base_url: "http://u".to_string(),
        request_requirements: vec![Matcher::QueryPresent("a\nb".to_string())],
        request_header: vec![],
    });
    assert!(matches!(bad_rule, Err(ServerAdapterError::InvalidMockDefinitionError(_))));
    assert!(s.all_mocks().is_empty());
}

#[test]
fn missing_ids_not_found() {
    let mut s = StateManager::new(10);
    assert!(matches!(s.fetch_mock(7), Err(ServerAdapterError::MockNotFound(7))));
    assert!(matches!(s.delete_mock(7), Err(ServerAdapterError::MockNotFound(7))));
    assert!(matches!(s.delete_forwarding_rule(3), Err(ServerAdapterError::MockNotFound(3))));
    assert!(matches!(s.delete_proxy_rule(4), Err(ServerAdapterError::MockNotFound(4))));
    assert!(matches!(s.delete_recording(5), Err(ServerAdapterError::MockNotFound(5))));
    assert!(matches!(s.export_recording(5), Err(ServerAdapterError::MockNotFound(5))));
}

#[test]
fn matchers_on_headers_query_and_body() {
    let mut r = request("POST", "/items/42", b"{\"k\":1}");
    r.query = vec![("page".to_string(), "2".to_string())];
    r.headers.push(("accept".to_string(), "application/json".to_string()));
    assert!(Matcher::HeaderPresent("ACCEPT".to_string()).matches(&r));
    assert!(Matcher::HeaderCount("Accept".to_string(), 2).matches(&r));
    assert!(Matcher::HeaderEquals("accept".to_string(), "application/json".to_string()).matches(&r));
    assert!(Matcher::HeaderMissing("Cookie".to_string()).matches(&r));
    assert!(Matcher::QueryEquals("page".to_string(), "2".to_string()).matches(&r));
    assert!(!Matcher::QueryEquals("page".to_string(), "3".to_string()).matches(&r));
    assert!(Matcher::QueryMissing("size".to_string()).matches(&r));
    assert!(Matcher::PathSuffix("/42".to_string()).matches(&r));
    assert!(Matcher::PathContains("ems/".to_string()).matches(&r));
    assert!(Matcher::BodyContains(b"\"k\"".to_vec()).matches(&r));
    assert!(!Matcher::BodyEquals(b"{}".to_vec()).matches(&r));
    assert!(Matcher::PortEquals(5050).matches(&r));
    r.headers.push(("Cookie".to_string(), "sid=42; lang=en".to_string()));
    assert!(Matcher::CookiePresent("lang".to_string()).matches(&r));
    assert!(Matcher::CookieEquals("sid".to_string(), "42".to_string()).matches(&r));
    assert!(!Matcher::CookieEquals("sid".to_string(), "43".to_string()).matches(&r));
    let mut form = request("POST", "/form", b"a=1&b=hello+world");
    form.headers.clear();
    assert!(Matcher::BodyFormEquals("b".to_string(), "hello world".to_string()).matches(&form));
    assert!(!Matcher::BodyFormEquals("a".to_string(), "2".to_string()).matches(&form));
}

#[test]
fn distances() {
    let r = request("GET", "/hello", b"");
    assert_eq!(Matcher::PathEquals("/hello".to_string()).distance_to(&r), 0);
    assert_eq!(Matcher::PathEquals("/hallo".to_string()).distance_to(&r), 1);
    assert_eq!(Matcher::PathEquals("/hello/x".to_string()).distance_to(&r), 2);
    assert_eq!(Matcher::PortEquals(5000).distance_to(&r), 50);
    assert_eq!(Matcher::HeaderCount("Accept".to_string(), 3).distance_to(&r), 2);
    assert_eq!(Matcher::HeaderPresent("X".to_string()).distance_to(&r), 1);
}

#[test]
fn closest_mock_breakdown() {
    let mut s = StateManager::new(10);
    let far = s
        .create_mock(mock(
            vec![Matcher::MethodEquals("POST".to_string()), Matcher::PathEquals("/xyz".to_string())],
            200,
            "",
            None,
        ))
        .unwrap();
    let near = s
        .create_mock(mock(
            vec![Matcher::MethodEquals("GET".to_string()), Matcher::PathEquals("/hellp".to_string())],
            200,
            "",
            None,
        ))
        .unwrap();
    let r = request("GET", "/hello", b"");
    assert_eq!(s.handle_request(&r), Dispatch::NotFound);
    let c = s.closest_mock(&r).unwrap();
    assert_eq!(c.id, near);
    assert_eq!(c.score.breakdown, vec![0, 1]);
    assert_eq!(c.score.distance, 1);
    assert_eq!(c.score.unmatched, 1);
    assert_ne!(c.id, far);
    assert!(StateManager::new(1).closest_mock(&r).is_none());
}

#[test]
fn closest_mock_ties_go_to_lower_id() {
    let mut s = StateManager::new(10);
    let first = s.create_mock(mock(vec![Matcher::PathEquals("/b".to_string())], 200, "", None)).unwrap();
    let _second = s.create_mock(mock(vec![Matcher::PathEquals("/c".to_string())], 200, "", None)).unwrap();
    let c = s.closest_mock(&request("GET", "/a", b"")).unwrap();
    assert_eq!(c.id, first);
}

#[test]
fn verify_against_history() {
    let mut s = StateManager::new(10);
    let reqs = vec![Matcher::PathEquals("/hello".to_string())];
    assert!(s.verify(&reqs).is_none());
    s.handle_request(&request("GET", "/hellx", b""));
    s.handle_request(&request("GET", "/zzzzzzzz", b""));
    let c = s.verify(&reqs).unwrap();
    assert_eq!(c.id, 0);
    assert_eq!(c.score.breakdown, vec![1]);
    s.handle_request(&request("GET", "/hello", b""));
    assert!(s.verify(&reqs).is_none());
}

#[test]
fn record_and_playback_round_trip() {
    let mut s = StateManager::new(10);
    let rec = s
        .create_recording(RecordingRuleConfig {
            request_requirements: vec![Matcher::Any],
            record_headers: vec!["accept".to_string()],
            record_response_delays: true,
        })
        .unwrap();
    let a = request("GET", "/a", b"");
    let b = request("POST", "/b", b"{\"k\":1}");
    s.handle_request(&a);
    s.record_exchange(&a, &response(200, "first"), true);
    s.handle_request(&b);
    s.record_exchange(&b, &response(201, "second"), true);
    let entries = s.export_recording(rec).unwrap();
    assert_eq!(entries.len(), 2);
    assert!(entries[0].sequence < entries[1].sequence);
    assert_eq!(entries[0].request.headers, vec![("Accept".to_string(), "text/plain".to_string())]);
    assert_eq!(entries[1].response.delay_ms, 12);

    let mut fresh = StateManager::new(10);
    let ids = fresh.create_mocks_from_entries(entries).unwrap();
    assert_eq!(ids.len(), 2);
    for (req, status, body) in [(&a, 200u16, "first"), (&b, 201u16, "second")] {
        match fresh.handle_request(req) {
            Dispatch::Respond(id) => {
                let m = fresh.fetch_mock(id).unwrap();
                assert_eq!(m.definition.response.status, Some(status));
                assert_eq!(m.definition.response.body, body.as_bytes().to_vec());
                assert_eq!(
                    m.definition.response.headers,
                    vec![("Content-Type".to_string(), "text/plain".to_string())]
                );
            }
            other => panic!("unexpected dispatch {:?}", other),
        }
    }
}

#[test]
fn delays_dropped_when_not_recorded() {
    let mut s = StateManager::new(10);
    let rec = s
        .create_recording(RecordingRuleConfig {
            request_requirements: vec![],
            record_headers: vec![],
            record_response_delays: false,
        })
        .unwrap();
    let a = request("GET", "/a", b"");
    s.record_exchange(&a, &response(200, "x"), true);
    let entries = s.export_recording(rec).unwrap();
    assert_eq!(entries[0].response.delay_ms, 0);
    assert!(entries[0].request.headers.is_empty());
}

#[test]
fn cancelled_exchange_not_recorded() {
    let mut s = StateManager::new(10);
    let rec = s
        .create_recording(RecordingRuleConfig {
            request_requirements: vec![Matcher::Any],
            record_headers: vec![],
            record_response_delays: false,
        })
        .unwrap();
    let a = request("GET", "/a", b"");
    s.record_exchange(&a, &response(200, "x"), false);
    assert!(s.export_recording(rec).unwrap().is_empty());
}

#[test]
fn recording_filter_applies() {
    let mut s = StateManager::new(10);
    let rec = s
        .create_recording(RecordingRuleConfig {
            request_requirements: vec![Matcher::PathEquals("/keep".to_string())],
            record_headers: vec![],
            record_response_delays: false,
        })
        .unwrap();
    s.record_exchange(&request("GET", "/drop", b""), &response(200, "x"), true);
    s.record_exchange(&request("GET", "/keep", b""), &response(200, "y"), true);
    let entries = s.export_recording(rec).unwrap();
    assert_eq!(entries.len(), 1);
    assert_eq!(entries[0].request.path, "/keep");
}

#[test]
fn playback_refuses_line_breaks() {
    let mut s = StateManager::new(10);
    let rec = s
        .create_recording(RecordingRuleConfig {
            request_requirements: vec![],
            record_headers: vec![],
            record_response_delays: false,
        })
        .unwrap();
    let mut bad = response(200, "x");
    bad.headers.push(("X-Bad\n".to_string(), "v".to_string()));
    s.record_exchange(&request("GET", "/a", b""), &bad, true);
    let entries = s.export_recording(rec).unwrap();
    let mut fresh = StateManager::new(10);
    assert!(matches!(
        fresh.create_mocks_from_entries(entries),
        Err(ServerAdapterError::InvalidMockDefinitionError(_))
    ));
    assert!(fresh.all_mocks().is_empty());
}

#[test]
fn playback_through_document() {
    let mut s = StateManager::new(10);
    let rec = s
        .create_recording(RecordingRuleConfig {
            request_requirements: vec![Matcher::Any],
            record_headers: vec!["Accept".to_string()],
            record_response_delays: true,
        })
        .unwrap();
    let a = request("GET", "/a", b"");
    let b = request("POST", "/b", b"{\"k\":1}");
    s.record_exchange(&a, &response(200, "first"), true);
    let mut binary = response(201, "");
    binary.body = vec![0xff, 0x00, 0x7f];
    s.record_exchange(&b, &binary, true);
    let text = s.export_recording_document(rec).unwrap();

    let mut fresh = StateManager::new(10);
    let ids = fresh.create_mocks_from_recording(&text).unwrap();
    assert_eq!(ids.len(), 2);
    let d = fresh.handle_request(&a);
    let m = fresh.fetch_mock(match d {
        Dispatch::Respond(id) => id,
        other => panic!("unexpected dispatch {:?}", other),
    });
    assert_eq!(m.unwrap().definition.response.body, b"first".to_vec());
    let d = fresh.handle_request(&b);
    let m = fresh.fetch_mock(match d {
        Dispatch::Respond(id) => id,
        other => panic!("unexpected dispatch {:?}", other),
    });
    let m = m.unwrap();
    assert_eq!(m.definition.response.status, Some(201));
    assert_eq!(m.definition.response.body, vec![0xff, 0x00, 0x7f]);
    assert_eq!(m.definition.response.delay_ms, 12);
}

#[test]
fn malformed_document_refused() {
    let mut s = StateManager::new(10);
    assert!(matches!(
        s.create_mocks_from_recording("---\nsequence: x\n"),
        Err(ServerAdapterError::InvalidMockDefinitionError(_))
    ));
    assert!(s.all_mocks().is_empty());
    assert_eq!(s.create_mocks_from_recording("").unwrap(), Vec::<usize>::new());
}
