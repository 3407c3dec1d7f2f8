//! Text as it travels on the wire: a `String` is sent as its UTF-8 bytes.
use vstd::prelude::*;
use vstd::utf8::{encode_utf8, valid_utf8};

verus! {

/// The bytes that stand for the characters `s` on the wire.
pub open spec fn wire(s: Seq<char>) -> Seq<u8> {
    encode_utf8(s)
}

/// Relies on `String::from_utf8`: it accepts exactly the valid UTF-8
/// sequences, and the string it builds encodes back to the same bytes.
#[verifier::external_body]
fn string_from_utf8(b: Vec<u8>) -> (r: Option<String>)
    ensures
        r is Some <==> valid_utf8(b@),
        r matches Some(s) ==> wire(s@) == b@,
{
    String::from_utf8(b).ok()
}

/// Decodes `b` as UTF-8 text; `None` when it is not valid UTF-8.
pub fn text_from_bytes(b: &[u8]) -> (r: Option<String>)
    ensures
        r is Some <==> valid_utf8(b@),
        r matches Some(s) ==> wire(s@) == b@,
{
    string_from_utf8(vstd::slice::slice_to_vec(b))
}

/// Appends the wire form of `s` to `out`.
pub fn push_text(out: &mut Vec<u8>, s: &String)
    ensures
        final(out)@ == old(out)@ + wire(s@),
{
    let b = s.as_str().as_bytes();
    crate::bytes::push_all(out, b);
}

} // verus!
