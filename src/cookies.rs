//! Cookies as a request carries them in its `Cookie` headers.

use vstd::prelude::*;

use crate::matcher::{eq_ci, text_eq_ignore_case};
use crate::request::{pairs_view, PairView};

verus! {

/// The pieces of `s` between the separators, in order (one piece when there
/// is no separator).
pub open spec fn split_chars(s: Seq<char>, sep: char) -> Seq<Seq<char>>
    decreases s.len(),
{
    if s.len() == 0 {
        seq![Seq::empty()]
    } else {
        let p = split_chars(s.drop_last(), sep);
        if s.last() == sep {
            p.push(Seq::empty())
        } else {
            p.update(p.len() - 1, p.last().push(s.last()))
        }
    }
}

/// Position of the first character of `s` that satisfies `stop`, or the length of `s`.
pub open spec fn first_where(s: Seq<char>, stop: spec_fn(char) -> bool) -> int
    decreases s.len(),
{
    if s.len() == 0 {
        0
    } else {
        let f = first_where(s.drop_last(), stop);
        if f < s.len() - 1 {
            f
        } else if stop(s.last()) {
            s.len() - 1
        } else {
            s.len() as int
        }
    }
}

/// A piece of a `Cookie` header without its leading spaces.
pub open spec fn trimmed(p: Seq<char>) -> Seq<char> {
    p.subrange(first_where(p, |c: char| c != ' '), p.len() as int)
}

/// Name and value of one trimmed cookie, split at the first `=` (a cookie
/// without one has an empty value).
pub open spec fn cookie_pair(t: Seq<char>) -> PairView {
    let k = first_where(t, |c: char| c == '=');
    (t.subrange(0, k), if k < t.len() {
        t.subrange(k + 1, t.len() as int)
    } else {
        Seq::empty()
    })
}

/// The cookies of the given pieces: one for each piece that is not empty
/// once trimmed, in order.
pub open spec fn cookies_of_pieces(ps: Seq<Seq<char>>) -> Seq<PairView>
    decreases ps.len(),
{
    if ps.len() == 0 {
        Seq::empty()
    } else if trimmed(ps.last()).len() > 0 {
        cookies_of_pieces(ps.drop_last()).push(cookie_pair(trimmed(ps.last())))
    } else {
        cookies_of_pieces(ps.drop_last())
    }
}

/// The cookies of one `Cookie` header value: its `;`-separated pieces.
pub open spec fn cookie_pairs(v: Seq<char>) -> Seq<PairView> {
    cookies_of_pieces(split_chars(v, ';'))
}

/// The cookies of the first `n` headers: those of every `Cookie` header, in order.
pub open spec fn request_cookies(hs: Seq<PairView>, n: nat) -> Seq<PairView>
    decreases n,
{
    if n == 0 {
        Seq::empty()
    } else if eq_ci(hs[n - 1].0, "cookie"@) {
        request_cookies(hs, (n - 1) as nat) + cookie_pairs(hs[n - 1].1)
    } else {
        request_cookies(hs, (n - 1) as nat)
    }
}

proof fn lemma_first_where_bound(s: Seq<char>, stop: spec_fn(char) -> bool)
    ensures
        0 <= first_where(s, stop) <= s.len(),
    decreases s.len(),
{
    if s.len() > 0 {
        lemma_first_where_bound(s.drop_last(), stop);
    }
}

proof fn lemma_first_where_prefix(s: Seq<char>, stop: spec_fn(char) -> bool, k: int, f: int)
    requires
        0 <= f < k <= s.len(),
        first_where(s.subrange(0, k), stop) == f,
    ensures
        first_where(s, stop) == f,
    decreases s.len() - k,
{
    if k < s.len() {
        let t = s.subrange(0, k + 1);
        assert(t.drop_last() =~= s.subrange(0, k));
        assert(first_where(t, stop) == f);
        lemma_first_where_prefix(s, stop, k + 1, f);
    } else {
        assert(s.subrange(0, k) =~= s);
    }
}

/// Position of the first character that is not a space, or the length.
fn first_non_space(s: &Vec<char>) -> (r: usize)
    ensures
        r == first_where(s@, |c: char| c != ' '),
{
    let ghost stop = |c: char| c != ' ';
    let n = s.len();
    let mut i: usize = 0;
    while i < n
        invariant
            stop == (|c: char| c != ' '),
            n == s@.len(),
            0 <= i <= n,
            first_where(s@.subrange(0, i as int), stop) == i,
        decreases n - i,
    {
        assert(s@.subrange(0, i + 1).drop_last() =~= s@.subrange(0, i as int));
        if s[i] != ' ' {
            proof {
                lemma_first_where_prefix(s@, stop, i + 1, i as int);
            }
            return i;
        }
        i = i + 1;
    }
    assert(s@.subrange(0, n as int) =~= s@);
    n
}

/// Position of the first `=`, or the length.
fn first_equals(s: &Vec<char>, from: usize) -> (r: usize)
    requires
        from <= s@.len(),
    ensures
        from + first_where(s@.subrange(from as int, s@.len() as int), |c: char| c == '=') == r,
        from <= r <= s@.len(),
{
    proof {
        lemma_first_where_bound(s@.subrange(from as int, s@.len() as int), |c: char| c == '=');
    }
    let ghost stop = |c: char| c == '=';
    let ghost t = s@.subrange(from as int, s@.len() as int);
    let n = s.len();
    let mut i: usize = from;
    while i < n
        invariant
            stop == (|c: char| c == '='),
            t == s@.subrange(from as int, s@.len() as int),
            n == s@.len(),
            from <= i <= n,
            first_where(t.subrange(0, i - from), stop) == i - from,
        decreases n - i,
    {
        assert(t.subrange(0, i - from + 1).drop_last() =~= t.subrange(0, i - from));
        assert(t[i - from] == s@[i as int]);
        if s[i] == '=' {
            proof {
                lemma_first_where_prefix(t, stop, i - from + 1, i - from);
            }
            return i;
        }
        i = i + 1;
    }
    assert(t.subrange(0, n - from) =~= t);
    n
}

pub(crate) fn copy_range(s: &Vec<char>, from: usize, to: usize) -> (r: String)
    requires
        from <= to <= s@.len(),
    ensures
        r@ == s@.subrange(from as int, to as int),
{
    let mut out = String::new();
    let mut i: usize = from;
    while i < to
        invariant
            from <= i <= to <= s@.len(),
            out@ == s@.subrange(from as int, i as int),
        decreases to - i,
    {
        crate::text::push_char(&mut out, s[i]);
        assert(s@.subrange(from as int, i + 1) =~= s@.subrange(from as int, i as int).push(s@[i as int]));
        i = i + 1;
    }
    out
}

/// The cookie of one piece, when the piece is not empty once trimmed.
fn cookie_of_piece(p: &Vec<char>) -> (r: Option<(String, String)>)
    ensures
        r is Some <==> trimmed(p@).len() > 0,
        r is Some ==> (r->Some_0.0@, r->Some_0.1@) == cookie_pair(trimmed(p@)),
{
    let n = p.len();
    let start = first_non_space(p);
    if start >= n {
        return None;
    }
    let ghost t = trimmed(p@);
    let k = first_equals(p, start);
    let name = copy_range(p, start, k);
    let value = if k < n {
        copy_range(p, k + 1, n)
    } else {
        String::new()
    };
    proof {
        let kk = k - start;
        assert(t == p@.subrange(start as int, n as int));
        assert(t.subrange(0, kk) =~= p@.subrange(start as int, k as int));
        if k < n {
            assert(t.subrange(kk + 1, t.len() as int) =~= p@.subrange(k + 1, n as int));
        }
    }
    Some((name, value))
}

/// The cookies of a `Cookie` header value, in order.
pub fn parse_cookie_header(v: &str) -> (r: Vec<(String, String)>)
    ensures
        pairs_view(r@) == cookie_pairs(v@),
{
    let n = v.unicode_len();
    let ghost s = v@;
    let ghost mut done: Seq<Seq<char>> = Seq::empty();
    let mut out: Vec<(String, String)> = Vec::new();
    let mut cur: Vec<char> = Vec::new();
    let mut i: usize = 0;
    assert(split_chars(s.subrange(0, 0), ';') =~= done.push(cur@));
    while i < n
        invariant
            s == v@,
            n == s.len(),
            0 <= i <= n,
            split_chars(s.subrange(0, i as int), ';') == done.push(cur@),
            pairs_view(out@) == cookies_of_pieces(done),
        decreases n - i,
    {
        let c = v.get_char(i);
        assert(s.subrange(0, i + 1).drop_last() =~= s.subrange(0, i as int));
        assert(s.subrange(0, i + 1).last() == c);
        if c == ';' {
            let ghost piece = cur@;
            match cookie_of_piece(&cur) {
                Some(pair) => {
                    let ghost before = out@;
                    out.push(pair);
                    assert(pairs_view(out@) =~= pairs_view(before).push((pair.0@, pair.1@)));
                },
                None => {},
            }
            proof {
                let old_done = done;
                done = done.push(piece);
                assert(done.drop_last() =~= old_done);
            }
            cur = Vec::new();
        } else {
            cur.push(c);
        }
        i = i + 1;
    }
    let ghost piece = cur@;
    match cookie_of_piece(&cur) {
        Some(pair) => {
            let ghost before = out@;
            out.push(pair);
            assert(pairs_view(out@) =~= pairs_view(before).push((pair.0@, pair.1@)));
        },
        None => {},
    }
    proof {
        assert(s.subrange(0, n as int) =~= s);
        let all = done.push(piece);
        assert(all.drop_last() =~= done);
    }
    out
}

/// The cookies of all `Cookie` headers, in order.
pub fn cookies_of_request(headers: &Vec<(String, String)>) -> (r: Vec<(String, String)>)
    ensures
        pairs_view(r@) == request_cookies(pairs_view(headers@), headers@.len() as nat),
{
    let ghost hs = pairs_view(headers@);
    let mut out: Vec<(String, String)> = Vec::new();
    let mut i: usize = 0;
    while i < headers.len()
        invariant
            hs == pairs_view(headers@),
            0 <= i <= headers@.len(),
            pairs_view(out@) == request_cookies(hs, i as nat),
        decreases headers@.len() - i,
    {
        if text_eq_ignore_case(headers[i].0.as_str(), "cookie") {
            let mut more = parse_cookie_header(headers[i].1.as_str());
            let ghost before = out@;
            let ghost added = more@;
            out.append(&mut more);
            assert(pairs_view(out@) =~= pairs_view(before) + pairs_view(added));
        }
        i = i + 1;
    }
    out
}

} // verus!
