//! Normalizing what arrives on the wire: percent-decoded paths, query and
//! form pairs, upper-case methods.

use vstd::prelude::*;
use vstd::string::StringSliceAdditionalSpecFns;

use crate::http_bytes::{lossy_text, utf8_lossy};
use crate::request::{pairs_view, PairView};

verus! {

/// The pieces of `s` between the separators, in order; a text without a
/// separator is one piece, and an empty text is one empty piece.
pub open spec fn split_on(s: Seq<u8>, sep: u8) -> Seq<Seq<u8>>
    decreases s.len(),
{
    if s.len() == 0 {
        seq![Seq::empty()]
    } else {
        let p = split_on(s.drop_last(), sep);
        if s.last() == sep {
            p.push(Seq::empty())
        } else {
            p.update(p.len() - 1, p.last().push(s.last()))
        }
    }
}

/// Position of the first `c` in `s`, or the length of `s` when there is none.
pub open spec fn first_index(s: Seq<u8>, c: u8) -> int
    decreases s.len(),
{
    if s.len() == 0 {
        0
    } else {
        let f = first_index(s.drop_last(), c);
        if f < s.len() - 1 {
            f
        } else if s.last() == c {
            s.len() - 1
        } else {
            s.len() as int
        }
    }
}

pub open spec fn is_hex(b: u8) -> bool {
    (0x30 <= b && b <= 0x39) || (0x41 <= b && b <= 0x46) || (0x61 <= b && b <= 0x66)
}

pub open spec fn hex_value(b: u8) -> u8 {
    if 0x30 <= b && b <= 0x39 {
        (b - 0x30) as u8
    } else if 0x41 <= b && b <= 0x46 {
        (b - 0x41 + 10) as u8
    } else {
        (b - 0x61 + 10) as u8
    }
}

/// Percent-decoding: `%XX` with two hex digits stands for that byte, and,
/// when `plus_is_space`, `+` for a space; every other byte stands for itself.
pub open spec fn percent_decoded(s: Seq<u8>, plus_is_space: bool) -> Seq<u8>
    decreases s.len(),
{
    if s.len() == 0 {
        Seq::empty()
    } else if s.len() >= 3 && s[0] == 0x25u8 && is_hex(s[1]) && is_hex(s[2]) {
        seq![(hex_value(s[1]) * 16 + hex_value(s[2])) as u8] + percent_decoded(
            s.subrange(3, s.len() as int),
            plus_is_space,
        )
    } else if plus_is_space && s[0] == 0x2Bu8 {
        seq![0x20u8] + percent_decoded(s.subrange(1, s.len() as int), plus_is_space)
    } else {
        seq![s[0]] + percent_decoded(s.subrange(1, s.len() as int), plus_is_space)
    }
}

/// The key and value of one `key=value` piece of a query, split at the first
/// `=` (a piece without one has an empty value), each form-decoded.
pub open spec fn query_pair(p: Seq<u8>) -> (Seq<u8>, Seq<u8>) {
    let k = first_index(p, 0x3Du8);
    (
        percent_decoded(p.subrange(0, k), true),
        if k < p.len() {
            percent_decoded(p.subrange(k + 1, p.len() as int), true)
        } else {
            Seq::empty()
        },
    )
}

/// The pairs of the non-empty pieces, in order.
pub open spec fn pairs_of(ps: Seq<Seq<u8>>) -> Seq<(Seq<u8>, Seq<u8>)>
    decreases ps.len(),
{
    if ps.len() == 0 {
        Seq::empty()
    } else if ps.last().len() > 0 {
        pairs_of(ps.drop_last()).push(query_pair(ps.last()))
    } else {
        pairs_of(ps.drop_last())
    }
}

/// The pairs of a raw query string: one for each non-empty `&`-separated
/// piece, in order.
pub open spec fn query_pairs(q: Seq<u8>) -> Seq<(Seq<u8>, Seq<u8>)> {
    pairs_of(split_on(q, 0x26u8))
}

/// The pairs of a raw query string as text, invalid UTF-8 replaced by U+FFFD.
pub open spec fn query_view(q: Seq<u8>) -> Seq<PairView> {
    query_pairs(q).map_values(|kv: (Seq<u8>, Seq<u8>)| (lossy_text(kv.0), lossy_text(kv.1)))
}

fn hex_digit(b: u8) -> (r: Option<u8>)
    ensures
        r is Some <==> is_hex(b),
        r is Some ==> r->Some_0 == hex_value(b),
{
    if 0x30 <= b && b <= 0x39 {
        Some(b - 0x30)
    } else if 0x41 <= b && b <= 0x46 {
        Some(b - 0x41 + 10)
    } else if 0x61 <= b && b <= 0x66 {
        Some(b - 0x61 + 10)
    } else {
        None
    }
}

/// Percent-decodes a byte sequence.
pub fn percent_decode(s: &[u8], plus_is_space: bool) -> (r: Vec<u8>)
    ensures
        r@ == percent_decoded(s@, plus_is_space),
{
    let n = s.len();
    let mut out: Vec<u8> = Vec::new();
    let mut i: usize = 0;
    assert(s@.subrange(0, n as int) =~= s@);
    assert(out@ + percent_decoded(s@, plus_is_space) =~= percent_decoded(s@, plus_is_space));
    while i < n
        invariant
            n == s@.len(),
            0 <= i <= n,
            percent_decoded(s@, plus_is_space) == out@ + percent_decoded(
                s@.subrange(i as int, n as int),
                plus_is_space,
            ),
        decreases n - i,
    {
        let ghost rest = s@.subrange(i as int, n as int);
        let ghost before = out@;
        let b = s[i];
        let mut step: usize = 1;
        let mut decoded = false;
        if b == 0x25u8 && 2 < n - i {
            match (hex_digit(s[i + 1]), hex_digit(s[i + 2])) {
                (Some(h), Some(l)) => {
                    out.push(h * 16 + l);
                    step = 3;
                    decoded = true;
                },
                _ => {},
            }
        }
        if !decoded {
            if plus_is_space && b == 0x2Bu8 {
                out.push(0x20u8);
            } else {
                out.push(b);
            }
        }
        proof {
            assert(rest.subrange(step as int, rest.len() as int) =~= s@.subrange(
                i + step,
                n as int,
            ));
            assert(rest[0] == b);
            if decoded {
                assert(rest[1] == s@[i + 1]);
                assert(rest[2] == s@[i + 2]);
            }
            let piece = out@.subrange(before.len() as int, out@.len() as int);
            let tail = percent_decoded(s@.subrange(i + step, n as int), plus_is_space);
            assert(out@ =~= before + piece);
            assert(percent_decoded(rest, plus_is_space) == piece + tail);
            assert(before + (piece + tail) =~= (before + piece) + tail);
        }
        assert(percent_decoded(s@, plus_is_space) == out@ + percent_decoded(
            s@.subrange(i + step, n as int),
            plus_is_space,
        ));
        i = i + step;
    }
    assert(s@.subrange(n as int, n as int) =~= Seq::<u8>::empty());
    assert(out@ + Seq::<u8>::empty() =~= out@);
    out
}

/// The path as matched: percent-decoded, invalid UTF-8 replaced by U+FFFD.
pub fn decode_path(raw: &str) -> (r: String)
    ensures
        r@ == lossy_text(percent_decoded(raw.spec_bytes(), false)),
{
    let bytes = percent_decode(raw.as_bytes(), false);
    utf8_lossy(bytes.as_slice())
}

/// Position of the first `c` in `s`, or its length.
fn find_byte(s: &[u8], c: u8) -> (r: usize)
    ensures
        r == first_index(s@, c),
{
    let n = s.len();
    let mut i: usize = 0;
    while i < n
        invariant
            n == s@.len(),
            0 <= i <= n,
            first_index(s@.subrange(0, i as int), c) == i,
            forall|k: int| 0 <= k < i ==> s@[k] != c,
        decreases n - i,
    {
        assert(s@.subrange(0, i + 1).drop_last() =~= s@.subrange(0, i as int));
        if s[i] == c {
            proof {
                lemma_first_index_prefix(s@, c, i + 1, i as int);
            }
            return i;
        }
        i = i + 1;
    }
    assert(s@.subrange(0, n as int) =~= s@);
    n
}

proof fn lemma_first_index_prefix(s: Seq<u8>, c: u8, k: int, f: int)
    requires
        0 <= f < k <= s.len(),
        first_index(s.subrange(0, k), c) == f,
    ensures
        first_index(s, c) == f,
    decreases s.len() - k,
{
    if k < s.len() {
        let t = s.subrange(0, k + 1);
        assert(t.drop_last() =~= s.subrange(0, k));
        assert(first_index(t, c) == f);
        lemma_first_index_prefix(s, c, k + 1, f);
    } else {
        assert(s.subrange(0, k) =~= s);
    }
}

/// The key and value of one piece of a query.
fn pair_of_piece(p: &[u8]) -> (r: (String, String))
    ensures
        r.0@ == lossy_text(query_pair(p@).0),
        r.1@ == lossy_text(query_pair(p@).1),
{
    let n = p.len();
    let k = find_byte(p, 0x3Du8);
    let key = percent_decode(vstd::slice::slice_subrange(p, 0, k), true);
    let value = if k < n {
        percent_decode(vstd::slice::slice_subrange(p, k + 1, n), true)
    } else {
        Vec::new()
    };
    (utf8_lossy(key.as_slice()), utf8_lossy(value.as_slice()))
}

/// The pairs of a raw query string (without the `?`), in order.
pub fn parse_query(raw: &str) -> (r: Vec<(String, String)>)
    ensures
        pairs_view(r@) == query_view(raw.spec_bytes()),
{
    parse_form(raw.as_bytes())
}

/// The pairs of `application/x-www-form-urlencoded` bytes (a query string
/// has the same form), in order.
pub fn parse_form(s: &[u8]) -> (r: Vec<(String, String)>)
    ensures
        pairs_view(r@) == query_view(s@),
{
    let n = s.len();
    let ghost mut done: Seq<Seq<u8>> = Seq::empty();
    let mut out: Vec<(String, String)> = Vec::new();
    let mut start: usize = 0;
    let mut i: usize = 0;
    assert(s@.subrange(0, 0) =~= Seq::<u8>::empty());
    assert(split_on(Seq::<u8>::empty(), 0x26u8) =~= done.push(s@.subrange(0, 0)));
    while i < n
        invariant
            n == s@.len(),
            0 <= start <= i <= n,
            split_on(s@.subrange(0, i as int), 0x26u8) == done.push(s@.subrange(start as int, i as int)),
            pairs_view(out@) == pairs_of(done).map_values(
                |kv: (Seq<u8>, Seq<u8>)| (lossy_text(kv.0), lossy_text(kv.1)),
            ),
        decreases n - i,
    {
        let ghost pre = s@.subrange(0, i as int);
        assert(s@.subrange(0, i + 1).drop_last() =~= pre);
        assert(s@.subrange(0, i + 1).last() == s@[i as int]);
        if s[i] == 0x26u8 {
            let ghost cur = s@.subrange(start as int, i as int);
            if start < i {
                let pair = pair_of_piece(vstd::slice::slice_subrange(s, start, i));
                let ghost before = out@;
                out.push(pair);
                assert(pairs_view(out@) =~= pairs_view(before).push((pair.0@, pair.1@)));
            }
            proof {
                let old_done = done;
                done = done.push(cur);
                assert(done.drop_last() =~= old_done);
                assert(done.last() == cur);
                if cur.len() > 0 {
                    assert(pairs_of(done) == pairs_of(old_done).push(query_pair(cur)));
                    pairs_of(old_done).lemma_push_map_commute(
                        |kv: (Seq<u8>, Seq<u8>)| (lossy_text(kv.0), lossy_text(kv.1)),
                        query_pair(cur),
                    );
                } else {
                    assert(pairs_of(done) == pairs_of(old_done));
                }
                assert(pairs_of(done).map_values(
                    |kv: (Seq<u8>, Seq<u8>)| (lossy_text(kv.0), lossy_text(kv.1)),
                ) =~= pairs_view(out@));
            }
            start = i + 1;
            assert(s@.subrange(start as int, start as int) =~= Seq::<u8>::empty());
        } else {
            assert(s@.subrange(start as int, i + 1) =~= s@.subrange(start as int, i as int).push(
                s@[i as int],
            ));
            assert(split_on(s@.subrange(0, i + 1), 0x26u8) =~= done.push(
                s@.subrange(start as int, i + 1),
            ));
        }
        i = i + 1;
    }
    let ghost cur = s@.subrange(start as int, n as int);
    if start < n {
        let pair = pair_of_piece(vstd::slice::slice_subrange(s, start, n));
        let ghost before = out@;
        out.push(pair);
        assert(pairs_view(out@) =~= pairs_view(before).push((pair.0@, pair.1@)));
    }
    proof {
        assert(s@.subrange(0, n as int) =~= s@);
        let all = done.push(cur);
        assert(all.drop_last() =~= done);
        assert(all.last() == cur);
        if cur.len() > 0 {
            assert(pairs_of(all) == pairs_of(done).push(query_pair(cur)));
            pairs_of(done).lemma_push_map_commute(
                |kv: (Seq<u8>, Seq<u8>)| (lossy_text(kv.0), lossy_text(kv.1)),
                query_pair(cur),
            );
        } else {
            assert(pairs_of(all) == pairs_of(done));
        }
        assert(pairs_of(all).map_values(
            |kv: (Seq<u8>, Seq<u8>)| (lossy_text(kv.0), lossy_text(kv.1)),
        ) =~= pairs_view(out@));
    }
    out
}

pub open spec fn ascii_upper(c: char) -> char {
    if 'a' <= c && c <= 'z' {
        ((c as u32) - 32) as char
    } else {
        c
    }
}

/// A method name as matched: ASCII letters upper-cased.
pub fn normalize_method(m: &str) -> (r: String)
    ensures
        r@.len() == m@.len(),
        forall|i: int| 0 <= i < m@.len() ==> r@[i] == ascii_upper(m@[i]),
{
    let n = m.unicode_len();
    let mut out = String::new();
    let mut i: usize = 0;
    while i < n
        invariant
            n == m@.len(),
            0 <= i <= n,
            out@.len() == i,
            forall|k: int| 0 <= k < i ==> out@[k] == ascii_upper(m@[k]),
        decreases n - i,
    {
        let c = m.get_char(i);
        let u = if 'a' <= c && c <= 'z' {
            ((c as u32 - 32) as u8) as char
        } else {
            c
        };
        crate::text::push_char(&mut out, u);
        i = i + 1;
    }
    out
}

} // verus!
