use httpmock_core::document::{export_document, import_document};
use httpmock_core::{RecordedEntry, RecordedRequest, RecordedResponse};

fn entry() -> RecordedEntry {
    RecordedEntry {
        sequence: 7,
        request: RecordedRequest {
            method: "POST".to_string(),
            path: "/b c".to_string(),
            query: vec![("q".to_string(), "1 2".to_string())],
            headers: vec![("Accept".to_string(), "line\nbreak\\".to_string())],
            body: b"{\"k\":1}".to_vec(),
        },
        response: RecordedResponse {
            status: 204,
            headers: vec![],
            body: vec![0xff, 0xfe],
            delay_ms: 15,
        },
    }
}

#[test]
fn document_text_of_entry() {
    let text = export_document(&vec![entry()]);
    let expected = "---\nsequence: 7\nwhen:\n  method: POST\n  path: /b c\n  query:\n    - name: q\n      value: 1 2\n  headers:\n    - name: Accept\n      value: line\\nbreak\\\\\n  body_encoding: plain\n  body: {\"k\":1}\nthen:\n  status: 204\n  headers:\n  body_encoding: base64\n  body: //4=\n  delay_ms: 15\n";
    assert_eq!(text, expected);
}

#[test]
fn document_round_trip() {
    let mut second = entry();
    second.sequence = 8;
    second.request.body = vec![];
    let text = export_document(&vec![entry(), second]);
    let back = import_document(&text).unwrap();
    assert_eq!(back.len(), 2);
    assert_eq!(back[0].sequence, 7);
    assert_eq!(back[0].request.path, "/b c");
    assert_eq!(back[0].request.query, vec![("q".to_string(), "1 2".to_string())]);
    assert_eq!(back[0].request.headers[0].1, "line\nbreak\\");
    assert_eq!(back[0].request.body, b"{\"k\":1}".to_vec());
    assert_eq!(back[0].response.status, 204);
    assert_eq!(back[0].response.body, vec![0xff, 0xfe]);
    assert_eq!(back[0].response.delay_ms, 15);
    assert_eq!(back[1].sequence, 8);
    assert!(back[1].request.body.is_empty());
}

#[test]
fn malformed_documents() {
    assert!(import_document("").unwrap().is_empty());
    assert!(import_document("\n\n").unwrap().is_empty());
    assert!(import_document("nonsense\n").is_none());
    assert!(import_document("---\nsequence: 1\n").is_none());
    let text = export_document(&vec![entry()]);
    assert!(import_document(&text.replace("body: //4=", "body: //4")).is_none());
    assert!(import_document(&text.replace("status: 204", "status: 70000")).is_none());
    assert!(import_document(&text.replace("value: 1 2", "value: bad\\x")).is_none());
}
