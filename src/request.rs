//! The normalized request and its mathematical view.

use vstd::prelude::*;

verus! {

/// A `(name, value)` pair as text.
pub type PairView = (Seq<char>, Seq<char>);

/// The mathematical value of a normalized request.
pub ghost struct RequestView {
    pub method: Seq<char>,
    pub scheme: Seq<char>,
    pub host: Seq<char>,
    pub port: u16,
    pub path: Seq<char>,
    pub query: Seq<PairView>,
    pub headers: Seq<PairView>,
    pub body: Seq<u8>,
}

/// A normalized HTTP request: the method is upper case, the path is
/// percent-decoded, query and headers keep their order of arrival.
pub struct HttpRequest {
    pub method: String,
    pub scheme: String,
    pub host: String,
    pub port: u16,
    pub path: String,
    pub query: Vec<(String, String)>,
    pub headers: Vec<(String, String)>,
    pub body: Vec<u8>,
}

/// The text of a list of pairs.
pub open spec fn pairs_view(v: Seq<(String, String)>) -> Seq<PairView> {
    Seq::new(v.len(), |i: int| (v[i].0@, v[i].1@))
}

impl View for HttpRequest {
    type V = RequestView;

    open spec fn view(&self) -> RequestView {
        RequestView {
            method: self.method@,
            scheme: self.scheme@,
            host: self.host@,
            port: self.port,
            path: self.path@,
            query: pairs_view(self.query@),
            headers: pairs_view(self.headers@),
            body: self.body@,
        }
    }
}

/// Copies a list of pairs, text for text.
pub fn copy_pairs(v: &Vec<(String, String)>) -> (r: Vec<(String, String)>)
    ensures
        pairs_view(r@) == pairs_view(v@),
{
    let mut r: Vec<(String, String)> = Vec::new();
    let mut i: usize = 0;
    while i < v.len()
        invariant
            0 <= i <= v@.len(),
            r@.len() == i,
            forall|j: int| 0 <= j < i ==> r@[j].0@ == v@[j].0@ && r@[j].1@ == v@[j].1@,
        decreases v@.len() - i,
    {
        let k = v[i].0.clone();
        let x = v[i].1.clone();
        r.push((k, x));
        i = i + 1;
    }
    assert(pairs_view(r@) =~= pairs_view(v@));
    r
}

impl HttpRequest {
    /// A copy of the request with the same view.
    pub fn duplicate(&self) -> (r: HttpRequest)
        ensures
            r@ == self@,
    {
        HttpRequest {
            method: self.method.clone(),
            scheme: self.scheme.clone(),
            host: self.host.clone(),
            port: self.port,
            path: self.path.clone(),
            query: copy_pairs(&self.query),
            headers: copy_pairs(&self.headers),
            body: self.body.clone(),
        }
    }
}

} // verus!
