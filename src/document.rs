//! The recording document: captured exchanges written as text, one entry
//! after a `---` line each, with a `when` part for the request and a `then`
//! part for the response.

use vstd::prelude::*;
use vstd::utf8::{decode_utf8, valid_utf8};

use crate::cookies::split_chars;
use crate::http_bytes::{base64_decode, base64_decoded, base64_encode, base64_text, utf8_text};
use crate::params::{decimal, decimal_within, is_digit, lemma_decimal_grows};
use crate::request::{pairs_view, PairView};
use crate::response::{decimal_string, decimal_text, digit_char};
use crate::rules::{RecordedEntry, RecordedRequest, RecordedResponse};
use crate::text::push_char;

verus! {

/// How one character is written in a value: backslash, line feed and
/// carriage return are escaped with a backslash.
pub open spec fn esc_char(c: char) -> Seq<char> {
    if c == '\\' {
        seq!['\\', '\\']
    } else if c == '\n' {
        seq!['\\', 'n']
    } else if c == '\r' {
        seq!['\\', 'r']
    } else {
        seq![c]
    }
}

/// How a text is written in a value.
pub open spec fn escaped(s: Seq<char>) -> Seq<char>
    decreases s.len(),
{
    if s.len() == 0 {
        Seq::empty()
    } else {
        escaped(s.drop_last()) + esc_char(s.last())
    }
}

/// Lines joined into a text, each followed by a line feed.
pub open spec fn join(ls: Seq<Seq<char>>) -> Seq<char>
    decreases ls.len(),
{
    if ls.len() == 0 {
        Seq::empty()
    } else {
        join(ls.drop_last()) + ls.last() + "\n"@
    }
}

/// The lines of a list of name-value pairs: a `- name` and a `value` line each.
pub open spec fn pair_lines(ps: Seq<PairView>) -> Seq<Seq<char>>
    decreases ps.len(),
{
    if ps.len() == 0 {
        Seq::empty()
    } else {
        pair_lines(ps.drop_last()) + seq![
            "    - name: "@ + escaped(ps.last().0),
            "      value: "@ + escaped(ps.last().1),
        ]
    }
}

/// The lines of a body: its text when it is valid UTF-8, otherwise its
/// base64 text, after a line that says which.
pub open spec fn body_lines(b: Seq<u8>) -> Seq<Seq<char>> {
    if valid_utf8(b) {
        seq!["  body_encoding: plain"@, "  body: "@ + escaped(decode_utf8(b))]
    } else {
        seq!["  body_encoding: base64"@, "  body: "@ + base64_text(b)]
    }
}

/// The first lines of an entry: `---`, the sequence number, and the
/// request's method and path under `when:`.
pub open spec fn head_lines(e: RecordedEntry) -> Seq<Seq<char>> {
    seq![
        "---"@,
        "sequence: "@ + decimal_text(e.sequence as nat),
        "when:"@,
        "  method: "@ + escaped(e.request.method@),
        "  path: "@ + escaped(e.request.path@),
        "  query:"@,
    ]
}

/// The rest of the request: query pairs, headers and body.
pub open spec fn request_lines(e: RecordedEntry) -> Seq<Seq<char>> {
    pair_lines(pairs_view(e.request.query@)) + seq!["  headers:"@] + pair_lines(
        pairs_view(e.request.headers@),
    ) + body_lines(e.request.body@)
}

/// The response under `then:`: status, headers, body and delay.
pub open spec fn response_lines(e: RecordedEntry) -> Seq<Seq<char>> {
    seq!["then:"@, "  status: "@ + decimal_text(e.response.status as nat), "  headers:"@]
        + pair_lines(pairs_view(e.response.headers@)) + body_lines(e.response.body@) + seq![
        "  delay_ms: "@ + decimal_text(e.response.delay_ms as nat),
    ]
}

/// The lines of one entry.
pub open spec fn entry_lines(e: RecordedEntry) -> Seq<Seq<char>> {
    head_lines(e) + request_lines(e) + response_lines(e)
}

/// The lines of a list of entries, in order.
pub open spec fn doc_lines(es: Seq<RecordedEntry>) -> Seq<Seq<char>>
    decreases es.len(),
{
    if es.len() == 0 {
        Seq::empty()
    } else {
        doc_lines(es.drop_last()) + entry_lines(es.last())
    }
}

/// The text of a list of entries.
pub open spec fn document_text(es: Seq<RecordedEntry>) -> Seq<char> {
    join(doc_lines(es))
}

/// Joining two lists of lines joins their texts.
pub proof fn lemma_join_concat(a: Seq<Seq<char>>, b: Seq<Seq<char>>)
    ensures
        join(a + b) == join(a) + join(b),
    decreases b.len(),
{
    if b.len() == 0 {
        assert(a + b =~= a);
        assert(join(a) + join(b) =~= join(a));
    } else {
        lemma_join_concat(a, b.drop_last());
        assert((a + b).drop_last() =~= a + b.drop_last());
        assert((a + b).last() == b.last());
        assert(join(a + b) =~= join(a) + join(b));
    }
}

fn write_escaped(out: &mut String, s: &str)
    ensures
        final(out)@ == old(out)@ + escaped(s@),
{
    let n = s.unicode_len();
    let ghost start = out@;
    let mut i: usize = 0;
    assert(s@.subrange(0, 0) =~= Seq::<char>::empty());
    assert(start + escaped(Seq::<char>::empty()) =~= start);
    while i < n
        invariant
            n == s@.len(),
            0 <= i <= n,
            out@ == start + escaped(s@.subrange(0, i as int)),
        decreases n - i,
    {
        let c = s.get_char(i);
        let ghost before = out@;
        if c == '\\' {
            push_char(out, '\\');
            push_char(out, '\\');
        } else if c == '\n' {
            push_char(out, '\\');
            push_char(out, 'n');
        } else if c == '\r' {
            push_char(out, '\\');
            push_char(out, 'r');
        } else {
            push_char(out, c);
        }
        proof {
            let p = s@.subrange(0, i + 1);
            assert(p.drop_last() =~= s@.subrange(0, i as int));
            assert(p.last() == c);
            assert(out@ =~= before + esc_char(c));
        }
        i = i + 1;
    }
    assert(s@.subrange(0, n as int) =~= s@);
}

/// Writes one line: `key`, then `value` escaped when `escape`, then a line feed.
fn write_line(out: &mut String, key: &str, value: &str, escape: bool)
    ensures
        final(out)@ == old(out)@ + (key@ + if escape {
            escaped(value@)
        } else {
            value@
        }) + "\n"@,
{
    let ghost start = out@;
    out.append(key);
    if escape {
        write_escaped(out, value);
    } else {
        out.append(value);
    }
    out.append("\n");
    assert(out@ =~= start + (key@ + if escape {
        escaped(value@)
    } else {
        value@
    }) + "\n"@);
}

/// One more line joins its text and a line feed on.
pub proof fn lemma_join_push(ls: Seq<Seq<char>>, l: Seq<char>)
    ensures
        join(ls.push(l)) == join(ls) + l + "\n"@,
{
    assert(ls.push(l).drop_last() =~= ls);
}

fn write_pairs(out: &mut String, ps: &Vec<(String, String)>)
    ensures
        final(out)@ == old(out)@ + join(pair_lines(pairs_view(ps@))),
{
    let ghost start = out@;
    let ghost v = pairs_view(ps@);
    let mut i: usize = 0;
    assert(v.subrange(0, 0) =~= Seq::<PairView>::empty());
    assert(start + join(pair_lines(Seq::<PairView>::empty())) =~= start);
    while i < ps.len()
        invariant
            v == pairs_view(ps@),
            0 <= i <= ps@.len(),
            out@ == start + join(pair_lines(v.subrange(0, i as int))),
        decreases ps@.len() - i,
    {
        let ghost before = out@;
        write_line(out, "    - name: ", ps[i].0.as_str(), true);
        write_line(out, "      value: ", ps[i].1.as_str(), true);
        proof {
            let p = v.subrange(0, i + 1);
            assert(p.drop_last() =~= v.subrange(0, i as int));
            assert(p.last() == v[i as int]);
            let prev = pair_lines(v.subrange(0, i as int));
            let a = "    - name: "@ + escaped(v[i as int].0);
            let b = "      value: "@ + escaped(v[i as int].1);
            lemma_join_push(prev, a);
            lemma_join_push(prev.push(a), b);
            assert(prev + seq![a, b] =~= prev.push(a).push(b));
            assert(out@ =~= start + join(pair_lines(p)));
        }
        i = i + 1;
    }
    assert(v.subrange(0, ps@.len() as int) =~= v);
}

fn write_body(out: &mut String, b: &[u8])
    ensures
        final(out)@ == old(out)@ + join(body_lines(b@)),
{
    let ghost start = out@;
    let ghost ls = body_lines(b@);
    match utf8_text(b) {
        Some(t) => {
            write_line(out, "  body_encoding: plain", "", false);
            write_line(out, "  body: ", t.as_str(), true);
        },
        None => {
            write_line(out, "  body_encoding: base64", "", false);
            let e = base64_encode(b);
            write_line(out, "  body: ", e.as_str(), false);
        },
    }
    proof {
        assert(""@ =~= Seq::<char>::empty()) by {
            reveal_strlit("");
        }
        lemma_join_push(Seq::<Seq<char>>::empty(), ls[0]);
        lemma_join_push(seq![ls[0]], ls[1]);
        assert(Seq::<Seq<char>>::empty().push(ls[0]) =~= seq![ls[0]]);
        assert(seq![ls[0]].push(ls[1]) =~= ls);
        assert(out@ =~= start + join(ls));
    }
}

fn write_head(out: &mut String, e: &RecordedEntry)
    ensures
        final(out)@ == old(out)@ + join(head_lines(*e)),
{
    let ghost start = out@;
    let seq_text = decimal_string(e.sequence);
    write_line(out, "---", "", false);
    write_line(out, "sequence: ", seq_text.as_str(), false);
    write_line(out, "when:", "", false);
    write_line(out, "  method: ", e.request.method.as_str(), true);
    write_line(out, "  path: ", e.request.path.as_str(), true);
    write_line(out, "  query:", "", false);
    proof {
        assert(""@ =~= Seq::<char>::empty()) by {
            reveal_strlit("");
        }
        let h = head_lines(*e);
        assert(join(h) =~= h[0] + "\n"@ + h[1] + "\n"@ + h[2] + "\n"@ + h[3] + "\n"@ + h[4] + "\n"@
            + h[5] + "\n"@) by {
            lemma_join_push(h.subrange(0, 5), h[5]);
            lemma_join_push(h.subrange(0, 4), h[4]);
            lemma_join_push(h.subrange(0, 3), h[3]);
            lemma_join_push(h.subrange(0, 2), h[2]);
            lemma_join_push(h.subrange(0, 1), h[1]);
            lemma_join_push(h.subrange(0, 0), h[0]);
            assert(h.subrange(0, 5).push(h[5]) =~= h);
            assert(h.subrange(0, 4).push(h[4]) =~= h.subrange(0, 5));
            assert(h.subrange(0, 3).push(h[3]) =~= h.subrange(0, 4));
            assert(h.subrange(0, 2).push(h[2]) =~= h.subrange(0, 3));
            assert(h.subrange(0, 1).push(h[1]) =~= h.subrange(0, 2));
            assert(h.subrange(0, 0).push(h[0]) =~= h.subrange(0, 1));
            assert(join(h.subrange(0, 0)) == Seq::<char>::empty());
        }
        assert(out@ =~= start + join(h));
    }
}

fn write_request(out: &mut String, e: &RecordedEntry)
    ensures
        final(out)@ == old(out)@ + join(request_lines(*e)),
{
    let ghost start = out@;
    write_pairs(out, &e.request.query);
    write_line(out, "  headers:", "", false);
    let ghost mid = out@;
    write_pairs(out, &e.request.headers);
    write_body(out, e.request.body.as_slice());
    proof {
        assert(""@ =~= Seq::<char>::empty()) by {
            reveal_strlit("");
        }
        let q = pair_lines(pairs_view(e.request.query@));
        let h = pair_lines(pairs_view(e.request.headers@));
        let b = body_lines(e.request.body@);
        lemma_join_push(q, "  headers:"@);
        lemma_join_concat(q.push("  headers:"@), h);
        lemma_join_concat(q.push("  headers:"@) + h, b);
        assert(q + seq!["  headers:"@] =~= q.push("  headers:"@));
        assert(out@ =~= start + join(request_lines(*e)));
    }
}

fn write_response(out: &mut String, e: &RecordedEntry)
    ensures
        final(out)@ == old(out)@ + join(response_lines(*e)),
{
    let ghost start = out@;
    let status_text = decimal_string(e.response.status as u64);
    let delay_text = decimal_string(e.response.delay_ms);
    write_line(out, "then:", "", false);
    write_line(out, "  status: ", status_text.as_str(), false);
    write_line(out, "  headers:", "", false);
    write_pairs(out, &e.response.headers);
    write_body(out, e.response.body.as_slice());
    write_line(out, "  delay_ms: ", delay_text.as_str(), false);
    proof {
        assert(""@ =~= Seq::<char>::empty()) by {
            reveal_strlit("");
        }
        let t = seq!["then:"@, "  status: "@ + status_text@, "  headers:"@];
        let h = pair_lines(pairs_view(e.response.headers@));
        let b = body_lines(e.response.body@);
        let d = "  delay_ms: "@ + delay_text@;
        lemma_join_push(Seq::<Seq<char>>::empty(), t[0]);
        lemma_join_push(seq![t[0]], t[1]);
        lemma_join_push(seq![t[0], t[1]], t[2]);
        assert(Seq::<Seq<char>>::empty().push(t[0]) =~= seq![t[0]]);
        assert(seq![t[0]].push(t[1]) =~= seq![t[0], t[1]]);
        assert(seq![t[0], t[1]].push(t[2]) =~= t);
        lemma_join_concat(t, h);
        lemma_join_concat(t + h, b);
        lemma_join_push(t + h + b, d);
        assert(t + h + b + seq![d] =~= (t + h + b).push(d));
        assert(out@ =~= start + join(response_lines(*e)));
    }
}

fn write_entry(out: &mut String, e: &RecordedEntry)
    ensures
        final(out)@ == old(out)@ + join(entry_lines(*e)),
{
    let ghost start = out@;
    write_head(out, e);
    write_request(out, e);
    write_response(out, e);
    proof {
        lemma_join_concat(head_lines(*e), request_lines(*e));
        lemma_join_concat(head_lines(*e) + request_lines(*e), response_lines(*e));
        assert(out@ =~= start + join(entry_lines(*e)));
    }
}

/// The document of a list of recorded entries, in order.
pub fn export_document(entries: &Vec<RecordedEntry>) -> (r: String)
    ensures
        r@ == document_text(entries@),
{
    let mut out = String::new();
    let mut i: usize = 0;
    assert(entries@.subrange(0, 0) =~= Seq::<RecordedEntry>::empty());
    assert(out@ =~= join(doc_lines(Seq::<RecordedEntry>::empty())));
    while i < entries.len()
        invariant
            0 <= i <= entries@.len(),
            out@ == join(doc_lines(entries@.subrange(0, i as int))),
        decreases entries@.len() - i,
    {
        let ghost before = entries@.subrange(0, i as int);
        write_entry(&mut out, &entries[i]);
        proof {
            let p = entries@.subrange(0, i + 1);
            assert(p.drop_last() =~= before);
            assert(p.last() == entries@[i as int]);
            lemma_join_concat(doc_lines(before), entry_lines(entries@[i as int]));
        }
        i = i + 1;
    }
    assert(entries@.subrange(0, entries@.len() as int) =~= entries@);
    out
}

/// Where the reader of a document stands: which line it expects next.
#[derive(PartialEq, Eq, Structural, Clone, Copy, Debug)]
pub enum Stage {
    /// Between entries: a `---` line or a blank line.
    Start,
    Sequence,
    When,
    Method,
    Path,
    QueryStart,
    /// A `- name` line of the query, or the request `headers:` line.
    Query,
    QueryValue,
    /// A `- name` line of the request headers, or the body encoding.
    Headers,
    HeaderValue,
    Body,
    Then,
    Status,
    ResponseHeadersStart,
    ResponseHeaders,
    ResponseHeaderValue,
    ResponseBody,
    Delay,
}

/// The mathematical value of a recorded entry.
pub ghost struct EntryView {
    pub sequence: u64,
    pub method: Seq<char>,
    pub path: Seq<char>,
    pub query: Seq<PairView>,
    pub headers: Seq<PairView>,
    pub body: Seq<u8>,
    pub status: u16,
    pub response_headers: Seq<PairView>,
    pub response_body: Seq<u8>,
    pub delay_ms: u64,
}

pub open spec fn entry_view(e: RecordedEntry) -> EntryView {
    EntryView {
        sequence: e.sequence,
        method: e.request.method@,
        path: e.request.path@,
        query: pairs_view(e.request.query@),
        headers: pairs_view(e.request.headers@),
        body: e.request.body@,
        status: e.response.status,
        response_headers: pairs_view(e.response.headers@),
        response_body: e.response.body@,
        delay_ms: e.response.delay_ms,
    }
}

pub open spec fn empty_entry() -> EntryView {
    EntryView {
        sequence: 0,
        method: Seq::empty(),
        path: Seq::empty(),
        query: Seq::empty(),
        headers: Seq::empty(),
        body: Seq::empty(),
        status: 0,
        response_headers: Seq::empty(),
        response_body: Seq::empty(),
        delay_ms: 0,
    }
}

/// The reader's state: the entries read, the entry being read, the name of a
/// pair whose value comes next, and whether the body being read is plain text.
pub ghost struct ReadState {
    pub stage: Stage,
    pub entries: Seq<EntryView>,
    pub cur: EntryView,
    pub name: Seq<char>,
    pub plain: bool,
}

/// The text a value stands for, if it is well escaped.
pub open spec fn unescaped(t: Seq<char>) -> Option<Seq<char>>
    decreases t.len(),
{
    if t.len() == 0 {
        Some(Seq::empty())
    } else if t[0] == '\\' {
        if t.len() >= 2 && (t[1] == '\\' || t[1] == 'n' || t[1] == 'r') {
            match unescaped(t.subrange(2, t.len() as int)) {
                Some(u) => Some(seq![if t[1] == '\\' {
                    '\\'
                } else if t[1] == 'n' {
                    '\n'
                } else {
                    '\r'
                }] + u),
                None => None,
            }
        } else {
            None
        }
    } else {
        match unescaped(t.subrange(1, t.len() as int)) {
            Some(u) => Some(seq![t[0]] + u),
            None => None,
        }
    }
}

/// The line starts with `p`.
pub open spec fn starts(line: Seq<char>, p: Seq<char>) -> bool {
    line.len() >= p.len() && line.subrange(0, p.len() as int) == p
}

/// What follows `p` on the line.
pub open spec fn after(line: Seq<char>, p: Seq<char>) -> Seq<char> {
    line.subrange(p.len() as int, line.len() as int)
}

/// The bytes of a body line, plain or base64.
pub open spec fn body_value(plain: bool, v: Seq<char>) -> Option<Seq<u8>> {
    if plain {
        match unescaped(v) {
            Some(t) => Some(vstd::utf8::encode_utf8(t)),
            None => None,
        }
    } else {
        base64_decoded(v)
    }
}

/// A decimal number that fits a `u64`.
pub open spec fn number(v: Seq<char>) -> Option<u64> {
    if decimal_within(v, u64::MAX as nat) {
        Some(decimal(v) as u64)
    } else {
        None
    }
}

/// The encoding a `body_encoding` line names: plain text or base64.
pub open spec fn encoding_is_plain(v: Seq<char>) -> Option<bool> {
    if v == "plain"@ {
        Some(true)
    } else if v == "base64"@ {
        Some(false)
    } else {
        None
    }
}

/// Reading one line.
pub open spec fn step(st: ReadState, line: Seq<char>) -> Option<ReadState> {
    let c = st.cur;
    match st.stage {
        Stage::Start => if line == "---"@ {
            Some(ReadState { stage: Stage::Sequence, cur: empty_entry(), ..st })
        } else if line.len() == 0 {
            Some(st)
        } else {
            None
        },
        Stage::Sequence => if starts(line, "sequence: "@) {
            match number(after(line, "sequence: "@)) {
                Some(n) => Some(
                    ReadState { stage: Stage::When, cur: EntryView { sequence: n, ..c }, ..st },
                ),
                None => None,
            }
        } else {
            None
        },
        Stage::When => if line == "when:"@ {
            Some(ReadState { stage: Stage::Method, ..st })
        } else {
            None
        },
        Stage::Method => if starts(line, "  method: "@) {
            match unescaped(after(line, "  method: "@)) {
                Some(m) => Some(
                    ReadState { stage: Stage::Path, cur: EntryView { method: m, ..c }, ..st },
                ),
                None => None,
            }
        } else {
            None
        },
        Stage::Path => if starts(line, "  path: "@) {
            match unescaped(after(line, "  path: "@)) {
                Some(p) => Some(
                    ReadState { stage: Stage::QueryStart, cur: EntryView { path: p, ..c }, ..st },
                ),
                None => None,
            }
        } else {
            None
        },
        Stage::QueryStart => if line == "  query:"@ {
            Some(ReadState { stage: Stage::Query, ..st })
        } else {
            None
        },
        Stage::Query => if starts(line, "    - name: "@) {
            match unescaped(after(line, "    - name: "@)) {
                Some(n) => Some(ReadState { stage: Stage::QueryValue, name: n, ..st }),
                None => None,
            }
        } else if line == "  headers:"@ {
            Some(ReadState { stage: Stage::Headers, ..st })
        } else {
            None
        },
        Stage::QueryValue => if starts(line, "      value: "@) {
            match unescaped(after(line, "      value: "@)) {
                Some(v) => Some(
                    ReadState {
                        stage: Stage::Query,
                        cur: EntryView { query: c.query.push((st.name, v)), ..c },
                        ..st
                    },
                ),
                None => None,
            }
        } else {
            None
        },
        Stage::Headers => if starts(line, "    - name: "@) {
            match unescaped(after(line, "    - name: "@)) {
                Some(n) => Some(ReadState { stage: Stage::HeaderValue, name: n, ..st }),
                None => None,
            }
        } else if starts(line, "  body_encoding: "@) {
            match encoding_is_plain(after(line, "  body_encoding: "@)) {
                Some(p) => Some(ReadState { stage: Stage::Body, plain: p, ..st }),
                None => None,
            }
        } else {
            None
        },
        Stage::HeaderValue => if starts(line, "      value: "@) {
            match unescaped(after(line, "      value: "@)) {
                Some(v) => Some(
                    ReadState {
                        stage: Stage::Headers,
                        cur: EntryView { headers: c.headers.push((st.name, v)), ..c },
                        ..st
                    },
                ),
                None => None,
            }
        } else {
            None
        },
        Stage::Body => if starts(line, "  body: "@) {
            match body_value(st.plain, after(line, "  body: "@)) {
                Some(b) => Some(
                    ReadState { stage: Stage::Then, cur: EntryView { body: b, ..c }, ..st },
                ),
                None => None,
            }
        } else {
            None
        },
        Stage::Then => if line == "then:"@ {
            Some(ReadState { stage: Stage::Status, ..st })
        } else {
            None
        },
        Stage::Status => if starts(line, "  status: "@) {
            match number(after(line, "  status: "@)) {
                Some(n) => if n <= u16::MAX {
                    Some(
                        ReadState {
                            stage: Stage::ResponseHeadersStart,
                            cur: EntryView { status: n as u16, ..c },
                            ..st
                        },
                    )
                } else {
                    None
                },
                None => None,
            }
        } else {
            None
        },
        Stage::ResponseHeadersStart => if line == "  headers:"@ {
            Some(ReadState { stage: Stage::ResponseHeaders, ..st })
        } else {
            None
        },
        Stage::ResponseHeaders => if starts(line, "    - name: "@) {
            match unescaped(after(line, "    - name: "@)) {
                Some(n) => Some(ReadState { stage: Stage::ResponseHeaderValue, name: n, ..st }),
                None => None,
            }
        } else if starts(line, "  body_encoding: "@) {
            match encoding_is_plain(after(line, "  body_encoding: "@)) {
                Some(p) => Some(ReadState { stage: Stage::ResponseBody, plain: p, ..st }),
                None => None,
            }
        } else {
            None
        },
        Stage::ResponseHeaderValue => if starts(line, "      value: "@) {
            match unescaped(after(line, "      value: "@)) {
                Some(v) => Some(
                    ReadState {
                        stage: Stage::ResponseHeaders,
                        cur: EntryView { response_headers: c.response_headers.push((st.name, v)), ..c },
                        ..st
                    },
                ),
                None => None,
            }
        } else {
            None
        },
        Stage::ResponseBody => if starts(line, "  body: "@) {
            match body_value(st.plain, after(line, "  body: "@)) {
                Some(b) => Some(
                    ReadState {
                        stage: Stage::Delay,
                        cur: EntryView { response_body: b, ..c },
                        ..st
                    },
                ),
                None => None,
            }
        } else {
            None
        },
        Stage::Delay => if starts(line, "  delay_ms: "@) {
            match number(after(line, "  delay_ms: "@)) {
                Some(n) => Some(
                    ReadState {
                        stage: Stage::Start,
                        entries: st.entries.push(EntryView { delay_ms: n, ..c }),
                        cur: empty_entry(),
                        ..st
                    },
                ),
                None => None,
            }
        } else {
            None
        },
    }
}

pub open spec fn initial_state() -> ReadState {
    ReadState {
        stage: Stage::Start,
        entries: Seq::empty(),
        cur: empty_entry(),
        name: Seq::empty(),
        plain: true,
    }
}

/// The state after reading the first `n` lines.
pub open spec fn read_lines(ls: Seq<Seq<char>>, n: nat) -> Option<ReadState>
    decreases n,
{
    if n == 0 {
        Some(initial_state())
    } else {
        match read_lines(ls, (n - 1) as nat) {
            Some(st) => step(st, ls[n - 1]),
            None => None,
        }
    }
}

/// The entries of a document: every line read, and no entry left unfinished.
pub open spec fn parse_document(text: Seq<char>) -> Option<Seq<EntryView>> {
    let ls = split_chars(text, '\n');
    match read_lines(ls, ls.len()) {
        Some(st) => if st.stage == Stage::Start {
            Some(st.entries)
        } else {
            None
        },
        None => None,
    }
}

/// The text of each line.
pub open spec fn lines_view(ls: Seq<Vec<char>>) -> Seq<Seq<char>> {
    Seq::new(ls.len(), |i: int| ls[i]@)
}

/// The lines of a text: the pieces between line feeds.
pub fn split_lines(s: &str) -> (r: Vec<Vec<char>>)
    ensures
        lines_view(r@) == split_chars(s@, '\n'),
{
    let n = s.unicode_len();
    let mut lines: Vec<Vec<char>> = Vec::new();
    let mut cur: Vec<char> = Vec::new();
    let mut i: usize = 0;
    assert(split_chars(s@.subrange(0, 0), '\n') =~= lines_view(lines@).push(cur@));
    while i < n
        invariant
            n == s@.len(),
            0 <= i <= n,
            split_chars(s@.subrange(0, i as int), '\n') == lines_view(lines@).push(cur@),
        decreases n - i,
    {
        let c = s.get_char(i);
        assert(s@.subrange(0, i + 1).drop_last() =~= s@.subrange(0, i as int));
        assert(s@.subrange(0, i + 1).last() == c);
        if c == '\n' {
            let ghost before = lines_view(lines@);
            let mut done: Vec<char> = Vec::new();
            core::mem::swap(&mut done, &mut cur);
            lines.push(done);
            assert(lines_view(lines@) =~= before.push(done@));
            assert(cur@ =~= Seq::<char>::empty());
        } else {
            let ghost lv = lines_view(lines@);
            let ghost before = cur@;
            cur.push(c);
            assert(lv.push(before).update(lv.len() as int, before.push(c)) =~= lv.push(cur@));
        }
        i = i + 1;
    }
    let ghost before = lines_view(lines@);
    lines.push(cur);
    assert(s@.subrange(0, n as int) =~= s@);
    assert(lines_view(lines@) =~= before.push(lines@.last()@));
    lines
}

/// The line starts with `p`.
fn starts_with_text(line: &Vec<char>, p: &str) -> (r: bool)
    ensures
        r == starts(line@, p@),
{
    let m = p.unicode_len();
    if line.len() < m {
        return false;
    }
    let mut k: usize = 0;
    while k < m
        invariant
            m == p@.len(),
            m <= line@.len(),
            0 <= k <= m,
            forall|q: int| 0 <= q < k ==> line@[q] == p@[q],
        decreases m - k,
    {
        if line[k] != p.get_char(k) {
            assert(line@.subrange(0, m as int)[k as int] != p@[k as int]);
            return false;
        }
        k = k + 1;
    }
    assert(line@.subrange(0, m as int) =~= p@);
    true
}

/// The line is exactly `p`.
fn line_is(line: &Vec<char>, p: &str) -> (r: bool)
    ensures
        r == (line@ == p@),
{
    if line.len() != p.unicode_len() {
        return false;
    }
    let r = starts_with_text(line, p);
    assert(line@.subrange(0, line@.len() as int) =~= line@);
    r
}

/// The text a value stands for, read from position `k` of the line.
fn unescape_from(line: &Vec<char>, k: usize) -> (r: Option<String>)
    requires
        k <= line@.len(),
    ensures
        match unescaped(line@.subrange(k as int, line@.len() as int)) {
            Some(u) => r is Some && r->Some_0@ == u,
            None => r is None,
        },
{
    let n = line.len();
    let ghost t = line@.subrange(k as int, n as int);
    let mut out = String::new();
    let mut i: usize = k;
    assert(line@.subrange(k as int, n as int) =~= t);
    assert(Seq::<char>::empty() + t =~= t);
    while i < n
        invariant
            n == line@.len(),
            t == line@.subrange(k as int, n as int),
            k <= i <= n,
            match unescaped(line@.subrange(i as int, n as int)) {
                Some(u) => unescaped(t) == Some(out@ + u),
                None => unescaped(t) is None,
            },
        decreases n - i,
    {
        let ghost rest = line@.subrange(i as int, n as int);
        let ghost before = out@;
        let c = line[i];
        assert(rest[0] == c);
        if c == '\\' {
            if i + 1 < n {
                let d = line[i + 1];
                assert(rest[1] == d);
                if d == '\\' || d == 'n' || d == 'r' {
                    let e = if d == '\\' {
                        '\\'
                    } else if d == 'n' {
                        '\n'
                    } else {
                        '\r'
                    };
                    push_char(&mut out, e);
                    assert(rest.subrange(2, rest.len() as int) =~= line@.subrange(i + 2, n as int));
                    proof {
                        match unescaped(line@.subrange(i + 2, n as int)) {
                            Some(u) => {
                                assert(before + (seq![e] + u) =~= out@ + u);
                            },
                            None => {},
                        }
                    }
                    i = i + 2;
                } else {
                    return None;
                }
            } else {
                return None;
            }
        } else {
            push_char(&mut out, c);
            assert(rest.subrange(1, rest.len() as int) =~= line@.subrange(i + 1, n as int));
            proof {
                match unescaped(line@.subrange(i + 1, n as int)) {
                    Some(u) => {
                        assert(before + (seq![c] + u) =~= out@ + u);
                    },
                    None => {},
                }
            }
            i = i + 1;
        }
    }
    assert(line@.subrange(n as int, n as int) =~= Seq::<char>::empty());
    assert(out@ + Seq::<char>::empty() =~= out@);
    Some(out)
}

/// A decimal number that fits a `u64`, read from position `k` of the line.
fn number_from(line: &Vec<char>, k: usize) -> (r: Option<u64>)
    requires
        k <= line@.len(),
    ensures
        r == number(line@.subrange(k as int, line@.len() as int)),
{
    let n = line.len();
    let ghost t = line@.subrange(k as int, n as int);
    if k == n {
        return None;
    }
    let mut acc: u64 = 0;
    let mut i: usize = k;
    while i < n
        invariant
            n == line@.len(),
            t == line@.subrange(k as int, n as int),
            k <= i <= n,
            forall|q: int| 0 <= q < i - k ==> is_digit(#[trigger] t[q]),
            acc == decimal(t.subrange(0, i - k)),
        decreases n - i,
    {
        let c = line[i];
        assert(t[i - k] == c);
        if !('0' <= c && c <= '9') {
            return None;
        }
        let d = ((c as u32) - ('0' as u32)) as u64;
        assert(t.subrange(0, i - k + 1).drop_last() =~= t.subrange(0, i - k));
        match acc.checked_mul(10) {
            None => {
                proof {
                    if forall|q: int| 0 <= q < t.len() ==> is_digit(#[trigger] t[q]) {
                        lemma_decimal_grows(t, i - k + 1);
                    }
                }
                return None;
            },
            Some(m) => match m.checked_add(d) {
                None => {
                    proof {
                        if forall|q: int| 0 <= q < t.len() ==> is_digit(#[trigger] t[q]) {
                            lemma_decimal_grows(t, i - k + 1);
                        }
                    }
                    return None;
                },
                Some(v) => {
                    acc = v;
                },
            },
        }
        i = i + 1;
    }
    assert(t.subrange(0, n - k) =~= t);
    Some(acc)
}

/// The encoding named from position `k` of the line.
fn encoding_from(line: &Vec<char>, k: usize) -> (r: Option<bool>)
    requires
        k <= line@.len(),
    ensures
        r == encoding_is_plain(line@.subrange(k as int, line@.len() as int)),
{
    let rest = crate::cookies::copy_range(line, k, line.len());
    let r = rest.as_str();
    if text_is(r, "plain") {
        Some(true)
    } else if text_is(r, "base64") {
        Some(false)
    } else {
        None
    }
}

fn text_is(a: &str, b: &str) -> (r: bool)
    ensures
        r == (a@ == b@),
{
    let n = a.unicode_len();
    if n != b.unicode_len() {
        return false;
    }
    let mut i: usize = 0;
    while i < n
        invariant
            n == a@.len(),
            n == b@.len(),
            0 <= i <= n,
            forall|q: int| 0 <= q < i ==> a@[q] == b@[q],
        decreases n - i,
    {
        if a.get_char(i) != b.get_char(i) {
            return false;
        }
        i = i + 1;
    }
    assert(a@ =~= b@);
    true
}

/// The bytes of a body value read from position `k` of the line.
fn body_from(plain: bool, line: &Vec<char>, k: usize) -> (r: Option<Vec<u8>>)
    requires
        k <= line@.len(),
    ensures
        match body_value(plain, line@.subrange(k as int, line@.len() as int)) {
            Some(b) => r is Some && r->Some_0@ == b,
            None => r is None,
        },
{
    if plain {
        match unescape_from(line, k) {
            Some(t) => Some(vstd::slice::slice_to_vec(t.as_str().as_bytes())),
            None => None,
        }
    } else {
        let rest = crate::cookies::copy_range(line, k, line.len());
        base64_decode(rest.as_str())
    }
}

fn new_entry() -> (r: RecordedEntry)
    ensures
        entry_view(r) == empty_entry(),
{
    let r = RecordedEntry {
        sequence: 0,
        request: RecordedRequest {
            method: String::new(),
            path: String::new(),
            query: Vec::new(),
            headers: Vec::new(),
            body: Vec::new(),
        },
        response: RecordedResponse { status: 0, headers: Vec::new(), body: Vec::new(), delay_ms: 0 },
    };
    assert(pairs_view(r.request.query@) =~= Seq::<PairView>::empty());
    assert(pairs_view(r.request.headers@) =~= Seq::<PairView>::empty());
    assert(pairs_view(r.response.headers@) =~= Seq::<PairView>::empty());
    r
}

pub open spec fn entries_view(es: Seq<RecordedEntry>) -> Seq<EntryView> {
    Seq::new(es.len(), |i: int| entry_view(es[i]))
}

/// A document reader part way through a document.
struct Reader {
    stage: Stage,
    entries: Vec<RecordedEntry>,
    cur: RecordedEntry,
    name: String,
    plain: bool,
}

impl View for Reader {
    type V = ReadState;

    closed spec fn view(&self) -> ReadState {
        ReadState {
            stage: self.stage,
            entries: entries_view(self.entries@),
            cur: entry_view(self.cur),
            name: self.name@,
            plain: self.plain,
        }
    }
}

fn push_pair(v: &mut Vec<(String, String)>, k: String, x: String)
    ensures
        pairs_view(final(v)@) == pairs_view(old(v)@).push((k@, x@)),
{
    v.push((k, x));
    assert(pairs_view(v@) =~= pairs_view(old(v)@).push((k@, x@)));
}

impl Reader {
    /// Reads one line; `false` when the line is not what the document allows there.
    fn step(&mut self, line: &Vec<char>) -> (r: bool)
        ensures
            r == step(old(self)@, line@) is Some,
            r ==> final(self)@ == step(old(self)@, line@)->Some_0,
    {
        let n = line.len();
        match self.stage {
            Stage::Start => {
                if line_is(line, "---") {
                    self.stage = Stage::Sequence;
                    self.cur = new_entry();
                    true
                } else {
                    n == 0
                }
            },
            Stage::Sequence => {
                if !starts_with_text(line, "sequence: ") {
                    return false;
                }
                match number_from(line, "sequence: ".unicode_len()) {
                    Some(v) => {
                        self.cur.sequence = v;
                        self.stage = Stage::When;
                        true
                    },
                    None => false,
                }
            },
            Stage::When => {
                if line_is(line, "when:") {
                    self.stage = Stage::Method;
                    true
                } else {
                    false
                }
            },
            Stage::Method => {
                if !starts_with_text(line, "  method: ") {
                    return false;
                }
                match unescape_from(line, "  method: ".unicode_len()) {
                    Some(v) => {
                        self.cur.request.method = v;
                        self.stage = Stage::Path;
                        true
                    },
                    None => false,
                }
            },
            Stage::Path => {
                if !starts_with_text(line, "  path: ") {
                    return false;
                }
                match unescape_from(line, "  path: ".unicode_len()) {
                    Some(v) => {
                        self.cur.request.path = v;
                        self.stage = Stage::QueryStart;
                        true
                    },
                    None => false,
                }
            },
            Stage::QueryStart => {
                if line_is(line, "  query:") {
                    self.stage = Stage::Query;
                    true
                } else {
                    false
                }
            },
            Stage::Query => {
                if starts_with_text(line, "    - name: ") {
                    match unescape_from(line, "    - name: ".unicode_len()) {
                        Some(v) => {
                            self.name = v;
                            self.stage = Stage::QueryValue;
                            true
                        },
                        None => false,
                    }
                } else if line_is(line, "  headers:") {
                    self.stage = Stage::Headers;
                    true
                } else {
                    false
                }
            },
            Stage::QueryValue => {
                if !starts_with_text(line, "      value: ") {
                    return false;
                }
                match unescape_from(line, "      value: ".unicode_len()) {
                    Some(v) => {
                        let k = self.name.clone();
                        push_pair(&mut self.cur.request.query, k, v);
                        self.stage = Stage::Query;
                        true
                    },
                    None => false,
                }
            },
            Stage::Headers => {
                if starts_with_text(line, "    - name: ") {
                    match unescape_from(line, "    - name: ".unicode_len()) {
                        Some(v) => {
                            self.name = v;
                            self.stage = Stage::HeaderValue;
                            true
                        },
                        None => false,
                    }
                } else if starts_with_text(line, "  body_encoding: ") {
                    match encoding_from(line, "  body_encoding: ".unicode_len()) {
                        Some(p) => {
                            self.plain = p;
                            self.stage = Stage::Body;
                            true
                        },
                        None => false,
                    }
                } else {
                    false
                }
            },
            Stage::HeaderValue => {
                if !starts_with_text(line, "      value: ") {
                    return false;
                }
                match unescape_from(line, "      value: ".unicode_len()) {
                    Some(v) => {
                        let k = self.name.clone();
                        push_pair(&mut self.cur.request.headers, k, v);
                        self.stage = Stage::Headers;
                        true
                    },
                    None => false,
                }
            },
            Stage::Body => {
                if !starts_with_text(line, "  body: ") {
                    return false;
                }
                match body_from(self.plain, line, "  body: ".unicode_len()) {
                    Some(b) => {
                        self.cur.request.body = b;
                        self.stage = Stage::Then;
                        true
                    },
                    None => false,
                }
            },
            Stage::Then => {
                if line_is(line, "then:") {
                    self.stage = Stage::Status;
                    true
                } else {
                    false
                }
            },
            Stage::Status => {
                if !starts_with_text(line, "  status: ") {
                    return false;
                }
                match number_from(line, "  status: ".unicode_len()) {
                    Some(v) => {
                        if v <= 65535 {
                            self.cur.response.status = v as u16;
                            self.stage = Stage::ResponseHeadersStart;
                            true
                        } else {
                            false
                        }
                    },
                    None => false,
                }
            },
            Stage::ResponseHeadersStart => {
                if line_is(line, "  headers:") {
                    self.stage = Stage::ResponseHeaders;
                    true
                } else {
                    false
                }
            },
            Stage::ResponseHeaders => {
                if starts_with_text(line, "    - name: ") {
                    match unescape_from(line, "    - name: ".unicode_len()) {
                        Some(v) => {
                            self.name = v;
                            self.stage = Stage::ResponseHeaderValue;
                            true
                        },
                        None => false,
                    }
                } else if starts_with_text(line, "  body_encoding: ") {
                    match encoding_from(line, "  body_encoding: ".unicode_len()) {
                        Some(p) => {
                            self.plain = p;
                            self.stage = Stage::ResponseBody;
                            true
                        },
                        None => false,
                    }
                } else {
                    false
                }
            },
            Stage::ResponseHeaderValue => {
                if !starts_with_text(line, "      value: ") {
                    return false;
                }
                match unescape_from(line, "      value: ".unicode_len()) {
                    Some(v) => {
                        let k = self.name.clone();
                        push_pair(&mut self.cur.response.headers, k, v);
                        self.stage = Stage::ResponseHeaders;
                        true
                    },
                    None => false,
                }
            },
            Stage::ResponseBody => {
                if !starts_with_text(line, "  body: ") {
                    return false;
                }
                match body_from(self.plain, line, "  body: ".unicode_len()) {
                    Some(b) => {
                        self.cur.response.body = b;
                        self.stage = Stage::Delay;
                        true
                    },
                    None => false,
                }
            },
            Stage::Delay => {
                if !starts_with_text(line, "  delay_ms: ") {
                    return false;
                }
                match number_from(line, "  delay_ms: ".unicode_len()) {
                    Some(v) => {
                        self.cur.response.delay_ms = v;
                        let mut done = new_entry();
                        core::mem::swap(&mut done, &mut self.cur);
                        let ghost before = self.entries@;
                        self.entries.push(done);
                        assert(entries_view(self.entries@) =~= entries_view(before).push(
                            entry_view(done),
                        ));
                        self.stage = Stage::Start;
                        true
                    },
                    None => false,
                }
            },
        }
    }
}

/// Reads a recording document: the entries it holds, in order, or `None`
/// when some line is not what the document allows there or the last entry
/// is unfinished.
pub fn import_document(text: &str) -> (r: Option<Vec<RecordedEntry>>)
    ensures
        match parse_document(text@) {
            Some(es) => r is Some && entries_view(r->Some_0@) == es,
            None => r is None,
        },
{
    let lines = split_lines(text);
    let ghost ls = split_chars(text@, '\n');
    let mut reader = Reader {
        stage: Stage::Start,
        entries: Vec::new(),
        cur: new_entry(),
        name: String::new(),
        plain: true,
    };
    assert(entries_view(reader.entries@) =~= Seq::<EntryView>::empty());
    let mut i: usize = 0;
    while i < lines.len()
        invariant
            ls == split_chars(text@, '\n'),
            lines_view(lines@) == ls,
            0 <= i <= lines@.len(),
            read_lines(ls, i as nat) == Some(reader@),
        decreases lines@.len() - i,
    {
        assert(ls[i as int] == lines@[i as int]@);
        let ghost prev = reader@;
        if !reader.step(&lines[i]) {
            proof {
                assert(read_lines(ls, (i + 1) as nat) == step(prev, ls[i as int]));
                lemma_read_lines_stuck(ls, (i + 1) as nat);
            }
            return None;
        }
        i = i + 1;
    }
    match reader.stage {
        Stage::Start => Some(reader.entries),
        _ => None,
    }
}

/// Once a line cannot be read, no longer prefix can be read either.
proof fn lemma_read_lines_stuck(ls: Seq<Seq<char>>, n: nat)
    requires
        n <= ls.len(),
        read_lines(ls, n) is None,
    ensures
        read_lines(ls, ls.len()) is None,
    decreases ls.len() - n,
{
    if n < ls.len() {
        lemma_read_lines_stuck(ls, n + 1);
    }
}

proof fn lemma_escaped_front(s: Seq<char>)
    requires
        s.len() > 0,
    ensures
        escaped(s) == esc_char(s[0]) + escaped(s.drop_first()),
    decreases s.len(),
{
    if s.len() == 1 {
        assert(s.drop_last() =~= Seq::<char>::empty());
        assert(s.drop_first() =~= Seq::<char>::empty());
        assert(escaped(s.drop_last()) == Seq::<char>::empty());
        assert(escaped(s.drop_first()) == Seq::<char>::empty());
        assert(s.last() == s[0]);
        assert(escaped(s) =~= esc_char(s[0]));
        assert(esc_char(s[0]) + Seq::<char>::empty() =~= esc_char(s[0]));
    } else {
        lemma_escaped_front(s.drop_last());
        assert(s.drop_first().drop_last() =~= s.drop_last().drop_first());
        assert(s.drop_first().last() == s.last());
        assert(s.drop_last()[0] == s[0]);
        assert(escaped(s) =~= esc_char(s[0]) + escaped(s.drop_first()));
    }
}

/// A value reads back as the text it was written from.
pub proof fn lemma_unescape_escaped(s: Seq<char>)
    ensures
        unescaped(escaped(s)) == Some(s),
    decreases s.len(),
{
    if s.len() == 0 {
        assert(escaped(s) =~= Seq::<char>::empty());
    } else {
        lemma_escaped_front(s);
        lemma_unescape_escaped(s.drop_first());
        let c = s[0];
        let t = escaped(s);
        let rest = escaped(s.drop_first());
        if c == '\\' || c == '\n' || c == '\r' {
            assert(t.subrange(2, t.len() as int) =~= rest);
            assert(seq![c] + s.drop_first() =~= s);
        } else {
            assert(t[0] == c);
            assert(t.subrange(1, t.len() as int) =~= rest);
            assert(seq![c] + s.drop_first() =~= s);
        }
    }
}

proof fn lemma_digit(d: nat)
    requires
        d < 10,
    ensures
        is_digit(digit_char(d)),
        ((digit_char(d) as u32) - ('0' as u32)) as nat == d,
{
}

/// A number reads back as the number it was written from.
pub proof fn lemma_number_of_decimal(n: u64)
    ensures
        number(decimal_text(n as nat)) == Some(n),
{
    lemma_decimal_text_reads(n as nat);
}

proof fn lemma_decimal_text_reads(n: nat)
    ensures
        decimal_text(n).len() > 0,
        forall|i: int| 0 <= i < decimal_text(n).len() ==> is_digit(#[trigger] decimal_text(n)[i]),
        decimal(decimal_text(n)) == n,
    decreases n,
{
    if n < 10 {
        lemma_digit(n);
        let t = decimal_text(n);
        assert(t.drop_last() =~= Seq::<char>::empty());
        assert(decimal(t.drop_last()) == 0);
        assert(t.last() == digit_char(n));
    } else {
        lemma_decimal_text_reads(n / 10);
        lemma_digit(n % 10);
        let t = decimal_text(n);
        let p = decimal_text(n / 10);
        assert(t.drop_last() =~= p);
        assert(decimal(t) == decimal(p) * 10 + (n % 10));
        assert((n / 10) * 10 + n % 10 == n) by (nonlinear_arith);
        assert forall|i: int| 0 <= i < t.len() implies is_digit(#[trigger] t[i]) by {
            if i < p.len() {
                assert(t[i] == p[i]);
            }
        }
    }
}

/// The text holds no line feed.
pub open spec fn no_lf(l: Seq<char>) -> bool {
    forall|i: int| 0 <= i < l.len() ==> l[i] != '\n'
}

proof fn lemma_split_nonempty(s: Seq<char>)
    ensures
        split_chars(s, '\n').len() >= 1,
    decreases s.len(),
{
    if s.len() > 0 {
        lemma_split_nonempty(s.drop_last());
    }
}

proof fn lemma_split_append(x: Seq<char>, y: Seq<char>)
    requires
        no_lf(y),
    ensures
        split_chars(x + y, '\n') == split_chars(x, '\n').update(
            split_chars(x, '\n').len() - 1,
            split_chars(x, '\n').last() + y,
        ),
    decreases y.len(),
{
    lemma_split_nonempty(x);
    let p = split_chars(x, '\n');
    if y.len() == 0 {
        assert(x + y =~= x);
        assert(p.update(p.len() - 1, p.last() + y) =~= p);
    } else {
        let y0 = y.drop_last();
        assert(no_lf(y0));
        lemma_split_append(x, y0);
        assert((x + y).drop_last() =~= x + y0);
        assert((x + y).last() == y.last());
        lemma_split_nonempty(x + y0);
        let q = split_chars(x + y0, '\n');
        assert(y[y.len() - 1] != '\n');
        assert(split_chars(x + y, '\n') == q.update(q.len() - 1, q.last().push(y.last())));
        assert(q.len() == p.len());
        assert(q.last() == p.last() + y0);
        assert((p.last() + y0).push(y.last()) =~= p.last() + y);
        assert(q.update(q.len() - 1, q.last().push(y.last())) =~= p.update(
            p.len() - 1,
            p.last() + y,
        ));
    }
}

/// Lines without line feeds, joined, split back into the same lines and a
/// last empty piece.
pub proof fn lemma_split_join(ls: Seq<Seq<char>>)
    requires
        forall|i: int| 0 <= i < ls.len() ==> no_lf(#[trigger] ls[i]),
    ensures
        split_chars(join(ls), '\n') == ls.push(Seq::<char>::empty()),
    decreases ls.len(),
{
    reveal_strlit("\n");
    if ls.len() == 0 {
        assert(join(ls) =~= Seq::<char>::empty());
        assert(split_chars(Seq::<char>::empty(), '\n') =~= seq![Seq::<char>::empty()]);
        assert(ls.push(Seq::<char>::empty()) =~= seq![Seq::<char>::empty()]);
    } else {
        let init = ls.drop_last();
        assert forall|i: int| 0 <= i < init.len() implies no_lf(#[trigger] init[i]) by {
            assert(init[i] == ls[i]);
        }
        lemma_split_join(init);
        let l = ls.last();
        assert(no_lf(l));
        lemma_split_append(join(init), l);
        let z = join(init) + l;
        assert("\n"@ =~= seq!['\n']);
        assert(join(ls) =~= z.push('\n'));
        assert(z.push('\n').drop_last() =~= z);
        let p = init.push(Seq::<char>::empty());
        assert(p.update(p.len() - 1, p.last() + l) =~= init.push(l));
        assert(init.push(l) =~= ls);
    }
}

/// Reading lines from a given state.
pub open spec fn read_from(st: ReadState, ls: Seq<Seq<char>>) -> Option<ReadState>
    decreases ls.len(),
{
    if ls.len() == 0 {
        Some(st)
    } else {
        match read_from(st, ls.drop_last()) {
            Some(s2) => step(s2, ls.last()),
            None => None,
        }
    }
}

proof fn lemma_read_lines_from(ls: Seq<Seq<char>>, n: nat)
    requires
        n <= ls.len(),
    ensures
        read_lines(ls, n) == read_from(initial_state(), ls.subrange(0, n as int)),
    decreases n,
{
    if n > 0 {
        lemma_read_lines_from(ls, (n - 1) as nat);
        assert(ls.subrange(0, n as int).drop_last() =~= ls.subrange(0, n - 1));
        assert(ls.subrange(0, n as int).last() == ls[n - 1]);
    }
}

proof fn lemma_read_concat(st: ReadState, a: Seq<Seq<char>>, b: Seq<Seq<char>>)
    ensures
        read_from(st, a + b) == match read_from(st, a) {
            Some(s2) => read_from(s2, b),
            None => None,
        },
    decreases b.len(),
{
    if b.len() == 0 {
        assert(a + b =~= a);
    } else {
        lemma_read_concat(st, a, b.drop_last());
        assert((a + b).drop_last() =~= a + b.drop_last());
        assert((a + b).last() == b.last());
    }
}

proof fn lemma_read_two(st: ReadState, x: Seq<char>, y: Seq<char>)
    ensures
        read_from(st, seq![x, y]) == match step(st, x) {
            Some(s2) => step(s2, y),
            None => None,
        },
{
    reveal_with_fuel(read_from, 3);
    assert(seq![x, y].drop_last() =~= seq![x]);
    assert(seq![x].drop_last() =~= Seq::<Seq<char>>::empty());
}

proof fn lemma_read_one(st: ReadState, x: Seq<char>)
    ensures
        read_from(st, seq![x]) == step(st, x),
{
    reveal_with_fuel(read_from, 2);
    assert(seq![x].drop_last() =~= Seq::<Seq<char>>::empty());
}

proof fn lemma_prefix(p: Seq<char>, x: Seq<char>)
    ensures
        starts(p + x, p),
        after(p + x, p) == x,
{
    assert((p + x).subrange(0, p.len() as int) =~= p);
    assert((p + x).subrange(p.len() as int, (p + x).len() as int) =~= x);
}

proof fn lemma_read_query_pairs(st: ReadState, ps: Seq<PairView>)
    requires
        st.stage == Stage::Query,
    ensures
        match read_from(st, pair_lines(ps)) {
            Some(r) => r.stage == Stage::Query && r.entries == st.entries && r.plain == st.plain
                && r.cur == (EntryView { query: st.cur.query + ps, ..st.cur }),
            None => false,
        },
    decreases ps.len(),
{
    if ps.len() == 0 {
        assert(st.cur.query + ps =~= st.cur.query);
        assert(pair_lines(ps) =~= Seq::<Seq<char>>::empty());
    } else {
        let init = ps.drop_last();
        lemma_read_query_pairs(st, init);
        let r1 = read_from(st, pair_lines(init))->Some_0;
        let k = ps.last().0;
        let v = ps.last().1;
        let a = "    - name: "@ + escaped(k);
        let b = "      value: "@ + escaped(v);
        assert(pair_lines(ps) == pair_lines(init) + seq![a, b]);
        lemma_read_concat(st, pair_lines(init), seq![a, b]);
        lemma_read_two(r1, a, b);
        lemma_prefix("    - name: "@, escaped(k));
        lemma_prefix("      value: "@, escaped(v));
        lemma_unescape_escaped(k);
        lemma_unescape_escaped(v);
        assert((st.cur.query + init).push((k, v)) =~= st.cur.query + ps);
    }
}

proof fn lemma_read_headers_pairs(st: ReadState, ps: Seq<PairView>)
    requires
        st.stage == Stage::Headers,
    ensures
        match read_from(st, pair_lines(ps)) {
            Some(r) => r.stage == Stage::Headers && r.entries == st.entries && r.plain == st.plain
                && r.cur == (EntryView { headers: st.cur.headers + ps, ..st.cur }),
            None => false,
        },
    decreases ps.len(),
{
    if ps.len() == 0 {
        assert(st.cur.headers + ps =~= st.cur.headers);
        assert(pair_lines(ps) =~= Seq::<Seq<char>>::empty());
    } else {
        let init = ps.drop_last();
        lemma_read_headers_pairs(st, init);
        let r1 = read_from(st, pair_lines(init))->Some_0;
        let k = ps.last().0;
        let v = ps.last().1;
        let a = "    - name: "@ + escaped(k);
        let b = "      value: "@ + escaped(v);
        assert(pair_lines(ps) == pair_lines(init) + seq![a, b]);
        lemma_read_concat(st, pair_lines(init), seq![a, b]);
        lemma_read_two(r1, a, b);
        lemma_prefix("    - name: "@, escaped(k));
        lemma_prefix("      value: "@, escaped(v));
        lemma_unescape_escaped(k);
        lemma_unescape_escaped(v);
        assert((st.cur.headers + init).push((k, v)) =~= st.cur.headers + ps);
    }
}

proof fn lemma_read_response_headers_pairs(st: ReadState, ps: Seq<PairView>)
    requires
        st.stage == Stage::ResponseHeaders,
    ensures
        match read_from(st, pair_lines(ps)) {
            Some(r) => r.stage == Stage::ResponseHeaders && r.entries == st.entries && r.plain == st.plain
                && r.cur == (EntryView { response_headers: st.cur.response_headers + ps, ..st.cur }),
            None => false,
        },
    decreases ps.len(),
{
    if ps.len() == 0 {
        assert(st.cur.response_headers + ps =~= st.cur.response_headers);
        assert(pair_lines(ps) =~= Seq::<Seq<char>>::empty());
    } else {
        let init = ps.drop_last();
        lemma_read_response_headers_pairs(st, init);
        let r1 = read_from(st, pair_lines(init))->Some_0;
        let k = ps.last().0;
        let v = ps.last().1;
        let a = "    - name: "@ + escaped(k);
        let b = "      value: "@ + escaped(v);
        assert(pair_lines(ps) == pair_lines(init) + seq![a, b]);
        lemma_read_concat(st, pair_lines(init), seq![a, b]);
        lemma_read_two(r1, a, b);
        lemma_prefix("    - name: "@, escaped(k));
        lemma_prefix("      value: "@, escaped(v));
        lemma_unescape_escaped(k);
        lemma_unescape_escaped(v);
        assert((st.cur.response_headers + init).push((k, v)) =~= st.cur.response_headers + ps);
    }
}

proof fn lemma_read_head(st: ReadState, e: RecordedEntry)
    requires
        st.stage == Stage::Start,
    ensures
        match read_from(st, head_lines(e)) {
            Some(r) => r.stage == Stage::Query && r.entries == st.entries && r.cur == (EntryView {
                sequence: e.sequence,
                method: e.request.method@,
                path: e.request.path@,
                ..empty_entry()
            }),
            None => false,
        },
{
    let h = head_lines(e);
    assert(h =~= seq![h[0], h[1]] + seq![h[2], h[3]] + seq![h[4], h[5]]);
    lemma_read_concat(st, seq![h[0], h[1]] + seq![h[2], h[3]], seq![h[4], h[5]]);
    lemma_read_concat(st, seq![h[0], h[1]], seq![h[2], h[3]]);
    lemma_read_two(st, h[0], h[1]);
    lemma_prefix("sequence: "@, decimal_text(e.sequence as nat));
    lemma_number_of_decimal(e.sequence);
    let r1 = read_from(st, seq![h[0], h[1]])->Some_0;
    lemma_read_two(r1, h[2], h[3]);
    lemma_prefix("  method: "@, escaped(e.request.method@));
    lemma_unescape_escaped(e.request.method@);
    let r2 = read_from(r1, seq![h[2], h[3]])->Some_0;
    lemma_read_two(r2, h[4], h[5]);
    lemma_prefix("  path: "@, escaped(e.request.path@));
    lemma_unescape_escaped(e.request.path@);
}

proof fn lemma_literals()
    ensures
        !starts("  headers:"@, "    - name: "@),
        !starts("  body_encoding: plain"@, "    - name: "@),
        starts("  body_encoding: plain"@, "  body_encoding: "@),
        after("  body_encoding: plain"@, "  body_encoding: "@) == "plain"@,
        ""@ != "---"@,
        ""@.len() == 0,
{
    reveal_strlit("  headers:");
    reveal_strlit("    - name: ");
    reveal_strlit("  body_encoding: plain");
    reveal_strlit("  body_encoding: ");
    reveal_strlit("plain");
    reveal_strlit("");
    reveal_strlit("---");
    assert("  body_encoding: plain"@.subrange(0, 12) != "    - name: "@) by {
        assert("  body_encoding: plain"@.subrange(0, 12)[2] != "    - name: "@[2]);
    }
    assert("  body_encoding: plain"@.subrange(0, "  body_encoding: "@.len() as int)
        =~= "  body_encoding: "@);
    assert("  body_encoding: plain"@.subrange(
        "  body_encoding: "@.len() as int,
        "  body_encoding: plain"@.len() as int,
    ) =~= "plain"@);
    assert(""@.len() != "---"@.len());
}

proof fn lemma_read_body_in(st: ReadState, b: Seq<u8>, list: Stage, body: Stage)
    requires
        (list == Stage::Headers && body == Stage::Body) || (list == Stage::ResponseHeaders && body
            == Stage::ResponseBody),
        st.stage == list,
        valid_utf8(b),
    ensures
        match read_from(st, seq![body_lines(b)[0]]) {
            Some(r) => r == (ReadState { stage: body, plain: true, ..st }),
            None => false,
        },
{
    lemma_literals();
    lemma_read_one(st, body_lines(b)[0]);
}

proof fn lemma_read_request(st: ReadState, e: RecordedEntry)
    requires
        st.stage == Stage::Query,
        st.cur.query.len() == 0,
        st.cur.headers.len() == 0,
        valid_utf8(e.request.body@),
    ensures
        match read_from(st, request_lines(e)) {
            Some(r) => r.stage == Stage::Then && r.entries == st.entries && r.cur == (EntryView {
                query: pairs_view(e.request.query@),
                headers: pairs_view(e.request.headers@),
                body: e.request.body@,
                ..st.cur
            }),
            None => false,
        },
{
    let q = pair_lines(pairs_view(e.request.query@));
    let h = pair_lines(pairs_view(e.request.headers@));
    let bl = body_lines(e.request.body@);
    lemma_literals();
    lemma_read_concat(st, q + seq!["  headers:"@] + h, bl);
    lemma_read_concat(st, q + seq!["  headers:"@], h);
    lemma_read_concat(st, q, seq!["  headers:"@]);
    lemma_read_query_pairs(st, pairs_view(e.request.query@));
    let r1 = read_from(st, q)->Some_0;
    assert(st.cur.query + pairs_view(e.request.query@) =~= pairs_view(e.request.query@));
    lemma_read_one(r1, "  headers:"@);
    let r2 = read_from(r1, seq!["  headers:"@])->Some_0;
    lemma_read_headers_pairs(r2, pairs_view(e.request.headers@));
    assert(r2.cur.headers + pairs_view(e.request.headers@) =~= pairs_view(e.request.headers@));
    let r3 = read_from(r2, h)->Some_0;
    let t = decode_utf8(e.request.body@);
    lemma_read_two(r3, bl[0], bl[1]);
    lemma_read_body_in(r3, e.request.body@, Stage::Headers, Stage::Body);
    lemma_read_one(r3, bl[0]);
    lemma_prefix("  body: "@, escaped(t));
    lemma_unescape_escaped(t);
    vstd::utf8::decode_utf8_encode_utf8(e.request.body@);
}

proof fn lemma_read_response(st: ReadState, e: RecordedEntry)
    requires
        st.stage == Stage::Then,
        st.cur.response_headers.len() == 0,
        valid_utf8(e.response.body@),
    ensures
        match read_from(st, response_lines(e)) {
            Some(r) => r.stage == Stage::Start && r.cur == empty_entry() && r.entries
                == st.entries.push(
                EntryView {
                    status: e.response.status,
                    response_headers: pairs_view(e.response.headers@),
                    response_body: e.response.body@,
                    delay_ms: e.response.delay_ms,
                    ..st.cur
                },
            ),
            None => false,
        },
{
    let t3 = seq![
        "then:"@,
        "  status: "@ + decimal_text(e.response.status as nat),
        "  headers:"@,
    ];
    let h = pair_lines(pairs_view(e.response.headers@));
    let bl = body_lines(e.response.body@);
    let d = seq!["  delay_ms: "@ + decimal_text(e.response.delay_ms as nat)];
    lemma_literals();
    lemma_read_concat(st, t3 + h + bl, d);
    lemma_read_concat(st, t3 + h, bl);
    lemma_read_concat(st, t3, h);
    assert(t3 =~= seq![t3[0], t3[1]] + seq![t3[2]]);
    lemma_read_concat(st, seq![t3[0], t3[1]], seq![t3[2]]);
    lemma_read_two(st, t3[0], t3[1]);
    lemma_prefix("  status: "@, decimal_text(e.response.status as nat));
    lemma_number_of_decimal(e.response.status as u64);
    let r1 = read_from(st, seq![t3[0], t3[1]])->Some_0;
    lemma_read_one(r1, t3[2]);
    let r2 = read_from(st, t3)->Some_0;
    lemma_read_response_headers_pairs(r2, pairs_view(e.response.headers@));
    assert(r2.cur.response_headers + pairs_view(e.response.headers@) =~= pairs_view(
        e.response.headers@,
    ));
    let r3 = read_from(r2, h)->Some_0;
    let t = decode_utf8(e.response.body@);
    lemma_read_two(r3, bl[0], bl[1]);
    lemma_read_body_in(r3, e.response.body@, Stage::ResponseHeaders, Stage::ResponseBody);
    lemma_read_one(r3, bl[0]);
    lemma_prefix("  body: "@, escaped(t));
    lemma_unescape_escaped(t);
    vstd::utf8::decode_utf8_encode_utf8(e.response.body@);
    let r4 = read_from(r3, bl)->Some_0;
    lemma_read_one(r4, d[0]);
    lemma_prefix("  delay_ms: "@, decimal_text(e.response.delay_ms as nat));
    lemma_number_of_decimal(e.response.delay_ms);
}

/// Both bodies of the entry are valid UTF-8 and so written as text.
pub open spec fn text_bodies(e: RecordedEntry) -> bool {
    valid_utf8(e.request.body@) && valid_utf8(e.response.body@)
}

proof fn lemma_read_entry(st: ReadState, e: RecordedEntry)
    requires
        st.stage == Stage::Start,
        text_bodies(e),
    ensures
        match read_from(st, entry_lines(e)) {
            Some(r) => r.stage == Stage::Start && r.entries == st.entries.push(entry_view(e)),
            None => false,
        },
{
    lemma_read_concat(st, head_lines(e) + request_lines(e), response_lines(e));
    lemma_read_concat(st, head_lines(e), request_lines(e));
    lemma_read_head(st, e);
    let r1 = read_from(st, head_lines(e))->Some_0;
    lemma_read_request(r1, e);
    let r2 = read_from(r1, request_lines(e))->Some_0;
    lemma_read_response(r2, e);
}

proof fn lemma_read_doc(es: Seq<RecordedEntry>)
    requires
        forall|k: int| 0 <= k < es.len() ==> text_bodies(#[trigger] es[k]),
    ensures
        match read_from(initial_state(), doc_lines(es)) {
            Some(r) => r.stage == Stage::Start && r.entries == entries_view(es),
            None => false,
        },
    decreases es.len(),
{
    if es.len() == 0 {
        assert(entries_view(es) =~= Seq::<EntryView>::empty());
    } else {
        let init = es.drop_last();
        assert forall|k: int| 0 <= k < init.len() implies text_bodies(#[trigger] init[k]) by {
            assert(init[k] == es[k]);
        }
        lemma_read_doc(init);
        lemma_read_concat(initial_state(), doc_lines(init), entry_lines(es.last()));
        let r1 = read_from(initial_state(), doc_lines(init))->Some_0;
        lemma_read_entry(r1, es.last());
        assert(entries_view(init).push(entry_view(es.last())) =~= entries_view(es));
    }
}

/// Every line is free of line feeds.
pub open spec fn lines_no_lf(ls: Seq<Seq<char>>) -> bool {
    forall|i: int| 0 <= i < ls.len() ==> no_lf(#[trigger] ls[i])
}

proof fn lemma_escaped_no_lf(s: Seq<char>)
    ensures
        no_lf(escaped(s)),
    decreases s.len(),
{
    if s.len() > 0 {
        lemma_escaped_no_lf(s.drop_last());
        let c = s.last();
        assert(no_lf(esc_char(c)));
        assert(escaped(s) == escaped(s.drop_last()) + esc_char(c));
    }
}

proof fn lemma_decimal_no_lf(n: nat)
    ensures
        no_lf(decimal_text(n)),
{
    lemma_decimal_text_reads(n);
}

proof fn lemma_concat_no_lf(a: Seq<char>, b: Seq<char>)
    requires
        no_lf(a),
        no_lf(b),
    ensures
        no_lf(a + b),
{
    assert forall|i: int| 0 <= i < (a + b).len() implies (a + b)[i] != '\n' by {
        if i < a.len() {
            assert((a + b)[i] == a[i]);
        } else {
            assert((a + b)[i] == b[i - a.len()]);
        }
    }
}

proof fn lemma_lines_concat(a: Seq<Seq<char>>, b: Seq<Seq<char>>)
    requires
        lines_no_lf(a),
        lines_no_lf(b),
    ensures
        lines_no_lf(a + b),
{
    assert forall|i: int| 0 <= i < (a + b).len() implies no_lf(#[trigger] (a + b)[i]) by {
        if i < a.len() {
            assert((a + b)[i] == a[i]);
        } else {
            assert((a + b)[i] == b[i - a.len()]);
        }
    }
}

proof fn lemma_literal_no_lf()
    ensures
        no_lf("---"@),
        no_lf("sequence: "@),
        no_lf("when:"@),
        no_lf("  method: "@),
        no_lf("  path: "@),
        no_lf("  query:"@),
        no_lf("  headers:"@),
        no_lf("    - name: "@),
        no_lf("      value: "@),
        no_lf("  body_encoding: plain"@),
        no_lf("  body: "@),
        no_lf("then:"@),
        no_lf("  status: "@),
        no_lf("  delay_ms: "@),
{
    reveal_strlit("---");
    reveal_strlit("sequence: ");
    reveal_strlit("when:");
    reveal_strlit("  method: ");
    reveal_strlit("  path: ");
    reveal_strlit("  query:");
    reveal_strlit("  headers:");
    reveal_strlit("    - name: ");
    reveal_strlit("      value: ");
    reveal_strlit("  body_encoding: plain");
    reveal_strlit("  body: ");
    reveal_strlit("then:");
    reveal_strlit("  status: ");
    reveal_strlit("  delay_ms: ");
}

proof fn lemma_pair_lines_no_lf(ps: Seq<PairView>)
    ensures
        lines_no_lf(pair_lines(ps)),
    decreases ps.len(),
{
    if ps.len() > 0 {
        lemma_pair_lines_no_lf(ps.drop_last());
        lemma_literal_no_lf();
        lemma_escaped_no_lf(ps.last().0);
        lemma_escaped_no_lf(ps.last().1);
        lemma_concat_no_lf("    - name: "@, escaped(ps.last().0));
        lemma_concat_no_lf("      value: "@, escaped(ps.last().1));
        lemma_lines_concat(
            pair_lines(ps.drop_last()),
            seq!["    - name: "@ + escaped(ps.last().0), "      value: "@ + escaped(ps.last().1)],
        );
    }
}

proof fn lemma_entry_lines_no_lf(e: RecordedEntry)
    requires
        text_bodies(e),
    ensures
        lines_no_lf(entry_lines(e)),
{
    lemma_literal_no_lf();
    lemma_decimal_no_lf(e.sequence as nat);
    lemma_decimal_no_lf(e.response.status as nat);
    lemma_decimal_no_lf(e.response.delay_ms as nat);
    lemma_escaped_no_lf(e.request.method@);
    lemma_escaped_no_lf(e.request.path@);
    lemma_escaped_no_lf(decode_utf8(e.request.body@));
    lemma_escaped_no_lf(decode_utf8(e.response.body@));
    lemma_concat_no_lf("sequence: "@, decimal_text(e.sequence as nat));
    lemma_concat_no_lf("  method: "@, escaped(e.request.method@));
    lemma_concat_no_lf("  path: "@, escaped(e.request.path@));
    lemma_concat_no_lf("  body: "@, escaped(decode_utf8(e.request.body@)));
    lemma_concat_no_lf("  body: "@, escaped(decode_utf8(e.response.body@)));
    lemma_concat_no_lf("  status: "@, decimal_text(e.response.status as nat));
    lemma_concat_no_lf("  delay_ms: "@, decimal_text(e.response.delay_ms as nat));
    lemma_pair_lines_no_lf(pairs_view(e.request.query@));
    lemma_pair_lines_no_lf(pairs_view(e.request.headers@));
    lemma_pair_lines_no_lf(pairs_view(e.response.headers@));
    let q = pair_lines(pairs_view(e.request.query@));
    let h = pair_lines(pairs_view(e.request.headers@));
    let rh = pair_lines(pairs_view(e.response.headers@));
    let b = body_lines(e.request.body@);
    let rb = body_lines(e.response.body@);
    assert(lines_no_lf(head_lines(e)));
    assert(lines_no_lf(seq!["  headers:"@]));
    assert(lines_no_lf(b));
    assert(lines_no_lf(rb));
    lemma_lines_concat(q, seq!["  headers:"@]);
    lemma_lines_concat(q + seq!["  headers:"@], h);
    lemma_lines_concat(q + seq!["  headers:"@] + h, b);
    let t3 = seq![
        "then:"@,
        "  status: "@ + decimal_text(e.response.status as nat),
        "  headers:"@,
    ];
    assert(lines_no_lf(t3));
    lemma_lines_concat(t3, rh);
    lemma_lines_concat(t3 + rh, rb);
    let d = seq!["  delay_ms: "@ + decimal_text(e.response.delay_ms as nat)];
    assert(lines_no_lf(d));
    lemma_lines_concat(t3 + rh + rb, d);
    lemma_lines_concat(head_lines(e), request_lines(e));
    lemma_lines_concat(head_lines(e) + request_lines(e), response_lines(e));
}

proof fn lemma_doc_lines_no_lf(es: Seq<RecordedEntry>)
    requires
        forall|k: int| 0 <= k < es.len() ==> text_bodies(#[trigger] es[k]),
    ensures
        lines_no_lf(doc_lines(es)),
    decreases es.len(),
{
    if es.len() > 0 {
        let init = es.drop_last();
        assert forall|k: int| 0 <= k < init.len() implies text_bodies(#[trigger] init[k]) by {
            assert(init[k] == es[k]);
        }
        lemma_doc_lines_no_lf(init);
        lemma_entry_lines_no_lf(es.last());
        lemma_lines_concat(doc_lines(init), entry_lines(es.last()));
    }
}

/// A document reads back as the entries it was written from, when every
/// body is valid UTF-8 (and so written as text).
pub proof fn lemma_document_round_trip(es: Seq<RecordedEntry>)
    requires
        forall|k: int| 0 <= k < es.len() ==> text_bodies(#[trigger] es[k]),
    ensures
        parse_document(document_text(es)) == Some(entries_view(es)),
{
    let ls = doc_lines(es);
    lemma_doc_lines_no_lf(es);
    lemma_split_join(ls);
    let all = ls.push(Seq::<char>::empty());
    lemma_read_lines_from(all, all.len());
    assert(all.subrange(0, all.len() as int) =~= all);
    lemma_read_doc(es);
    assert(all =~= ls + seq![Seq::<char>::empty()]);
    lemma_read_concat(initial_state(), ls, seq![Seq::<char>::empty()]);
    let r = read_from(initial_state(), ls)->Some_0;
    lemma_read_one(r, Seq::<char>::empty());
    lemma_literals();
    assert(Seq::<char>::empty() != "---"@) by {
        reveal_strlit("---");
    }
}

} // verus!
