//! Requests and responses, and the wire form of a response.
use vstd::prelude::*;

use crate::bytes::{push_all, CR, LF, SP};
use crate::method::Method;
use crate::text::{push_text, wire};

verus! {

/// A parsed request. Header lines are kept verbatim (without their line
/// ending), duplicates included, in the order they arrived.
#[derive(Debug)]
pub struct HttpRequest {
    pub protocol: String,
    pub method: Method,
    pub uri: String,
    pub headers: Vec<String>,
    pub body: Vec<u8>,
}

/// A response, ready to be serialized.
#[derive(Debug)]
pub struct HttpResponse {
    pub protocol: String,
    pub status_code: u16,
    pub reason_phrase: String,
    pub headers: Vec<String>,
    pub body: Option<Vec<u8>>,
}

/// Carriage return and line feed.
pub open spec fn crlf() -> Seq<u8> {
    seq![CR, LF]
}

/// The decimal digits of `n`, most significant first, without leading zeros.
pub open spec fn decimal(n: nat) -> Seq<u8>
    decreases n,
{
    if n < 10 {
        seq![(48 + n) as u8]
    } else {
        decimal(n / 10).push((48 + n % 10) as u8)
    }
}

/// Each header line followed by a line ending.
pub open spec fn header_block(hs: Seq<Seq<u8>>) -> Seq<u8>
    decreases hs.len(),
{
    if hs.len() == 0 {
        seq![]
    } else {
        header_block(hs.drop_last()) + hs.last() + crlf()
    }
}

/// The wire form of each of the given strings.
pub open spec fn wire_lines(hs: Seq<String>) -> Seq<Seq<u8>> {
    hs.map_values(|h: String| wire(h@))
}

/// The start line and header lines of `r`, up to and including the blank
/// line that ends them.
pub open spec fn head_bytes(r: &HttpResponse) -> Seq<u8> {
    wire(r.protocol@) + seq![SP] + decimal(r.status_code as nat) + seq![SP] + wire(
        r.reason_phrase@,
    ) + crlf() + header_block(wire_lines(r.headers@)) + crlf()
}

/// The body of `r` as it is sent: nothing when there is none.
pub open spec fn body_bytes(r: &HttpResponse) -> Seq<u8> {
    match r.body {
        Some(b) => b@,
        None => seq![],
    }
}

/// The whole wire form of `r`.
pub open spec fn serialized(r: &HttpResponse) -> Seq<u8> {
    head_bytes(r) + body_bytes(r)
}

/// Appends the decimal digits of `n` to `out`.
fn push_decimal(out: &mut Vec<u8>, n: u16)
    ensures
        final(out)@ == old(out)@ + decimal(n as nat),
    decreases n,
{
    if n >= 10 {
        push_decimal(out, n / 10);
    }
    out.push(48u8 + (n % 10) as u8);
    proof {
        if n < 10 {
            assert(final(out)@ =~= old(out)@ + decimal(n as nat));
        } else {
            assert(decimal(n as nat) == decimal((n / 10) as nat).push((48 + n % 10) as u8));
            assert(final(out)@ =~= old(out)@ + decimal(n as nat));
        }
    }
}

/// Builds the response to `request`: the protocol is the request's own.
pub fn response(
    request: &HttpRequest,
    status_code: u16,
    reason_phrase: String,
    headers: &Vec<String>,
    body: Option<Vec<u8>>,
) -> (r: HttpResponse)
    ensures
        r.protocol@ == request.protocol@,
        r.status_code == status_code,
        r.reason_phrase@ == reason_phrase@,
        r.headers@ == headers@,
        r.body == body,
{
    HttpResponse {
        protocol: request.protocol.clone(),
        status_code,
        reason_phrase,
        headers: headers.clone(),
        body,
    }
}

impl HttpResponse {
    /// The response on the wire: start line, header lines, a blank line,
    /// then the body verbatim. No header is added.
    pub fn to_bytes(&self) -> (r: Vec<u8>)
        ensures
            r@ == serialized(self),
    {
        let mut out: Vec<u8> = Vec::new();
        push_text(&mut out, &self.protocol);
        out.push(SP);
        push_decimal(&mut out, self.status_code);
        out.push(SP);
        push_text(&mut out, &self.reason_phrase);
        out.push(CR);
        out.push(LF);
        let ghost start = out@;
        let mut i: usize = 0;
        while i < self.headers.len()
            invariant
                0 <= i <= self.headers@.len(),
                out@ == start + header_block(wire_lines(self.headers@).subrange(0, i as int)),
            decreases self.headers@.len() - i,
        {
            push_text(&mut out, &self.headers[i]);
            out.push(CR);
            out.push(LF);
            proof {
                let hs = wire_lines(self.headers@);
                let pre = hs.subrange(0, i + 1);
                assert(pre.drop_last() =~= hs.subrange(0, i as int));
                assert(pre.last() == wire(self.headers@[i as int]@));
                assert(out@ =~= start + header_block(pre));
            }
            i = i + 1;
        }
        out.push(CR);
        out.push(LF);
        proof {
            let hs = wire_lines(self.headers@);
            assert(hs.subrange(0, hs.len() as int) =~= hs);
        }
        match &self.body {
            Some(b) => push_all(&mut out, b.as_slice()),
            None => {},
        }
        assert(out@ =~= serialized(self));
        out
    }

    /// The response on the wire as text; `None` when the body is not
    /// valid UTF-8 (the start line and headers always are).
    pub fn to_string(&self) -> (r: Option<String>)
        ensures
            r is Some <==> vstd::utf8::valid_utf8(serialized(self)),
            r matches Some(s) ==> wire(s@) == serialized(self),
    {
        let b = self.to_bytes();
        crate::text::text_from_bytes(b.as_slice())
    }
}

} // verus!
