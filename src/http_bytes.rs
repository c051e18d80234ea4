//! A byte buffer over `bytes::Bytes` with searches and text conversions.

use vstd::prelude::*;
use vstd::string::StringSliceAdditionalSpecFns;
use vstd::utf8::{decode_utf8, valid_utf8};

use base64::Engine;
use bytes::Bytes;

use crate::matcher::{bytes_contain, seq_contains};

verus! {

#[verifier::external_type_specification]
#[verifier::external_body]
pub struct ExBytes(Bytes);

/// The bytes a `Bytes` buffer holds.
pub uninterp spec fn bytes_content(b: Bytes) -> Seq<u8>;

/// The standard, padded base64 text of a byte sequence.
pub uninterp spec fn base64_text(b: Seq<u8>) -> Seq<char>;

/// What standard, padded base64 decoding makes of a text.
pub uninterp spec fn base64_decoded(s: Seq<char>) -> Option<Seq<u8>>;

/// The text `String::from_utf8_lossy` makes of a byte sequence.
pub uninterp spec fn lossy_text(b: Seq<u8>) -> Seq<char>;

/// Relies on `impl From<Vec<u8>> for Bytes`: the buffer takes over the vector's bytes.
#[verifier::external_body]
fn bytes_from_vec(v: Vec<u8>) -> (r: Bytes)
    ensures
        bytes_content(r) == v@,
{
    Bytes::from(v)
}

/// Relies on `impl AsRef<[u8]> for Bytes`: a view of the buffer's bytes.
#[verifier::external_body]
fn bytes_slice(b: &Bytes) -> (r: &[u8])
    ensures
        r@ == bytes_content(*b),
{
    b.as_ref()
}

/// Relies on `impl Clone for Bytes`: a handle to the same bytes.
#[verifier::external_body]
fn bytes_clone(b: &Bytes) -> (r: Bytes)
    ensures
        bytes_content(r) == bytes_content(*b),
{
    b.clone()
}

/// Relies on `base64::engine::general_purpose::STANDARD.encode`.
#[verifier::external_body]
pub(crate) fn base64_encode(b: &[u8]) -> (r: String)
    ensures
        r@ == base64_text(b@),
{
    base64::engine::general_purpose::STANDARD.encode(b)
}

/// Relies on `base64::engine::general_purpose::STANDARD.decode`: it requires
/// canonical padding and refuses trailing bits, so it accepts exactly the
/// standard encodings and gives back the bytes encoded.
#[verifier::external_body]
pub(crate) fn base64_decode(s: &str) -> (r: Option<Vec<u8>>)
    ensures
        r is Some <==> base64_decoded(s@) is Some,
        r is Some ==> r->Some_0@ == base64_decoded(s@)->Some_0,
        r is Some ==> base64_text(r->Some_0@) == s@,
        forall|b: Seq<u8>| base64_text(b) == s@ ==> r is Some && r->Some_0@ == b,
{
    base64::engine::general_purpose::STANDARD.decode(s).ok()
}

/// Relies on `std::str::from_utf8`: the text when the bytes are valid UTF-8.
#[verifier::external_body]
pub(crate) fn utf8_text(b: &[u8]) -> (r: Option<String>)
    ensures
        r is Some <==> valid_utf8(b@),
        r is Some ==> r->Some_0@ == decode_utf8(b@),
{
    match std::str::from_utf8(b) {
        Ok(s) => Some(s.to_string()),
        Err(_) => None,
    }
}

/// Relies on `String::from_utf8_lossy`: valid UTF-8 is decoded as it is.
#[verifier::external_body]
pub(crate) fn utf8_lossy(b: &[u8]) -> (r: String)
    ensures
        r@ == lossy_text(b@),
        valid_utf8(b@) ==> r@ == decode_utf8(b@),
{
    String::from_utf8_lossy(b).into_owned()
}

/// ASCII whitespace as `u8::is_ascii_whitespace` defines it.
pub open spec fn is_ascii_ws(b: u8) -> bool {
    b == 0x20u8 || b == 0x09u8 || b == 0x0Au8 || b == 0x0Cu8 || b == 0x0Du8
}

/// A byte buffer with the searches and conversions the server needs.
pub struct HttpMockBytes(pub Bytes);

impl View for HttpMockBytes {
    type V = Seq<u8>;

    open spec fn view(&self) -> Seq<u8> {
        bytes_content(self.0)
    }
}

impl HttpMockBytes {
    /// A buffer holding the bytes of the vector.
    pub fn from_vec(v: Vec<u8>) -> (r: HttpMockBytes)
        ensures
            r@ == v@,
    {
        HttpMockBytes(bytes_from_vec(v))
    }

    /// A buffer holding the UTF-8 bytes of the text.
    pub fn from_text(s: &str) -> (r: HttpMockBytes)
        ensures
            r@ == s.spec_bytes(),
    {
        HttpMockBytes::from_vec(vstd::slice::slice_to_vec(s.as_bytes()))
    }

    /// A buffer over the same bytes.
    pub fn from_bytes(b: Bytes) -> (r: HttpMockBytes)
        ensures
            r@ == bytes_content(b),
    {
        HttpMockBytes(b)
    }

    /// The bytes, copied into a vector.
    pub fn to_vec(&self) -> (r: Vec<u8>)
        ensures
            r@ == self@,
    {
        vstd::slice::slice_to_vec(bytes_slice(&self.0))
    }

    /// A cheap handle to the same bytes.
    pub fn to_bytes(&self) -> (r: Bytes)
        ensures
            bytes_content(r) == self@,
    {
        bytes_clone(&self.0)
    }

    pub fn is_empty(&self) -> (r: bool)
        ensures
            r == (self@.len() == 0),
    {
        bytes_slice(&self.0).len() == 0
    }

    /// Empty, or only ASCII whitespace.
    pub fn is_blank(&self) -> (r: bool)
        ensures
            r == forall|i: int| 0 <= i < self@.len() ==> is_ascii_ws(#[trigger] self@[i]),
    {
        let s = bytes_slice(&self.0);
        let mut i: usize = 0;
        while i < s.len()
            invariant
                s@ == self@,
                0 <= i <= s@.len(),
                forall|j: int| 0 <= j < i ==> is_ascii_ws(#[trigger] s@[j]),
            decreases s@.len() - i,
        {
            let b = s[i];
            if !(b == 0x20u8 || b == 0x09u8 || b == 0x0Au8 || b == 0x0Cu8 || b == 0x0Du8) {
                return false;
            }
            i = i + 1;
        }
        true
    }

    /// The UTF-8 bytes of `substring` occur in the buffer (the empty text always does).
    pub fn contains_str(&self, substring: &str) -> (r: bool)
        ensures
            r == seq_contains(self@, substring.spec_bytes()),
    {
        bytes_contain(bytes_slice(&self.0), substring.as_bytes())
    }

    /// The bytes of `slice` occur in the buffer.
    pub fn contains_slice(&self, slice: &[u8]) -> (r: bool)
        requires
            slice@.len() > 0,
        ensures
            r == seq_contains(self@, slice@),
    {
        bytes_contain(bytes_slice(&self.0), slice)
    }

    /// The bytes of `vec` occur in the buffer.
    pub fn contains_vec(&self, vec: &Vec<u8>) -> (r: bool)
        requires
            vec@.len() > 0,
        ensures
            r == seq_contains(self@, vec@),
    {
        bytes_contain(bytes_slice(&self.0), vec.as_slice())
    }

    /// The bytes as text, invalid UTF-8 sequences replaced by U+FFFD.
    pub fn to_maybe_lossy_str(&self) -> (r: String)
        ensures
            r@ == lossy_text(self@),
            valid_utf8(self@) ==> r@ == decode_utf8(self@),
    {
        utf8_lossy(bytes_slice(&self.0))
    }

    /// How the bytes are shown: as text when they are valid UTF-8, otherwise
    /// as standard base64.
    pub fn to_display_string(&self) -> (r: String)
        ensures
            valid_utf8(self@) ==> r@ == decode_utf8(self@),
            !valid_utf8(self@) ==> r@ == base64_text(self@),
    {
        let s = bytes_slice(&self.0);
        match utf8_text(s) {
            Some(t) => t,
            None => base64_encode(s),
        }
    }

    /// The buffer holds exactly these bytes.
    pub fn eq_slice(&self, other: &[u8]) -> (r: bool)
        ensures
            r == (self@ == other@),
    {
        crate::matcher::slices_equal(bytes_slice(&self.0), other)
    }
}

} // verus!
