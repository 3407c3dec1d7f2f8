//! Parsing a request from the bytes of one connection.
use vstd::prelude::*;
use vstd::slice::{slice_subrange, slice_to_vec};
use vstd::utf8::valid_utf8;

use crate::message::{wire_lines, HttpRequest};
use crate::method::{method_of, Method};
use crate::scan::{
    find_line_end, first_from, is_lf, is_not_blank, lemma_first_from, line_end, skip_blanks,
    split_tokens, strip_cr, tokens, trim_cr, views,
};
use crate::text::{text_from_bytes, wire};

verus! {

/// Why a request could not be parsed.
#[derive(Debug, Clone, Copy, PartialEq, Eq, Structural)]
pub enum ParseError {
    /// The request line does not hold exactly three tokens, or the first is
    /// not a known method.
    MalformedRequestLine,
    /// The input ended before the blank line that ends the header lines.
    IncompleteRequest,
    /// The input ended before the body that `Content-Length` announced.
    BodyTruncated,
    /// The URI, the protocol or a header line is not valid UTF-8 text.
    NotText,
}

/// What a request holds, as bytes.
pub struct RequestModel {
    pub method: Method,
    pub uri: Seq<u8>,
    pub protocol: Seq<u8>,
    pub headers: Seq<Seq<u8>>,
    pub body: Seq<u8>,
}

/// The model of a parsed request.
pub open spec fn request_model(r: &HttpRequest) -> RequestModel {
    RequestModel {
        method: r.method,
        uri: wire(r.uri@),
        protocol: wire(r.protocol@),
        headers: wire_lines(r.headers@),
        body: r.body@,
    }
}

/// The header lines that start at index `i`, each without its line ending,
/// up to the first empty line, and the index just past that empty line;
/// `None` when the input ends first.
pub open spec fn scan_headers(s: Seq<u8>, i: int) -> Option<(Seq<Seq<u8>>, int)>
    decreases s.len() - i,
{
    if i < 0 || i > s.len() {
        None
    } else {
        let e = line_end(s, i);
        if e >= s.len() {
            None
        } else {
            let line = strip_cr(s.subrange(i, e));
            if line.len() == 0 {
                Some((seq![], e + 1))
            } else {
                proof {
                    lemma_first_from(s, i, |b: u8| is_lf(b));
                }
                match scan_headers(s, e + 1) {
                    None => None,
                    Some(rest) => Some((seq![line] + rest.0, rest.1)),
                }
            }
        }
    }
}

/// The header name `content-length:` in lower case.
pub open spec fn content_length_name() -> Seq<u8> {
    seq![99u8, 111, 110, 116, 101, 110, 116, 45, 108, 101, 110, 103, 116, 104, 58]
}

/// `b` with ASCII upper-case letters made lower-case.
pub open spec fn ascii_lower(b: u8) -> u8 {
    if 65 <= b <= 90 {
        (b + 32) as u8
    } else {
        b
    }
}

/// Does header line `l` start with `Content-Length:`, in any letter case?
pub open spec fn is_content_length(l: Seq<u8>) -> bool {
    l.len() >= 15 && forall|j: int|
        0 <= j < 15 ==> ascii_lower(#[trigger] l[j]) == content_length_name()[j]
}

/// Is every byte of `v` an ASCII digit?
pub open spec fn all_digits(v: Seq<u8>) -> bool {
    forall|j: int| 0 <= j < v.len() ==> 48 <= #[trigger] v[j] <= 57
}

/// The number that the decimal digits `v` write.
pub open spec fn digits_value(v: Seq<u8>) -> nat
    decreases v.len(),
{
    if v.len() == 0 {
        0
    } else {
        digits_value(v.drop_last()) * 10 + (v.last() - 48) as nat
    }
}

/// Where the value of a `Content-Length` header line starts: after the
/// colon and any spaces or tabs.
pub open spec fn value_start(l: Seq<u8>) -> int {
    first_from(l, 15, |b: u8| is_not_blank(b))
}

/// The value of a `Content-Length` header line: the digits after the colon
/// and any spaces or tabs; zero when that is not a non-empty run of digits.
pub open spec fn content_length_value(l: Seq<u8>) -> nat {
    let v = l.subrange(value_start(l), l.len() as int);
    if v.len() > 0 && all_digits(v) {
        digits_value(v)
    } else {
        0
    }
}

/// The body length that header lines `hs` announce: the value of the last
/// `Content-Length` line, zero when there is none.
pub open spec fn content_length_of(hs: Seq<Seq<u8>>) -> nat
    decreases hs.len(),
{
    if hs.len() == 0 {
        0
    } else if is_content_length(hs.last()) {
        content_length_value(hs.last())
    } else {
        content_length_of(hs.drop_last())
    }
}

/// Method, URI and protocol of a request line.
pub open spec fn request_line(l: Seq<u8>) -> Option<(Method, Seq<u8>, Seq<u8>)> {
    let t = tokens(l);
    if t.len() != 3 {
        None
    } else {
        match method_of(t[0]) {
            None => None,
            Some(m) => Some((m, t[1], t[2])),
        }
    }
}

/// Are the URI, the protocol and every header line valid UTF-8?
pub open spec fn all_text(uri: Seq<u8>, protocol: Seq<u8>, hs: Seq<Seq<u8>>) -> bool {
    valid_utf8(uri) && valid_utf8(protocol) && forall|k: int|
        0 <= k < hs.len() ==> valid_utf8(#[trigger] hs[k])
}

/// The request that input `s` holds, where `s` is all that the connection
/// delivered before it closed. Bytes after the body are ignored.
pub open spec fn parse_request(s: Seq<u8>) -> Result<RequestModel, ParseError> {
    let e0 = line_end(s, 0);
    if e0 >= s.len() {
        Err(ParseError::IncompleteRequest)
    } else {
        match request_line(strip_cr(s.subrange(0, e0))) {
            None => Err(ParseError::MalformedRequestLine),
            Some(rl) => match scan_headers(s, e0 + 1) {
                None => Err(ParseError::IncompleteRequest),
                Some(h) => {
                    let (hs, end) = h;
                    let n = content_length_of(hs);
                    if !all_text(rl.1, rl.2, hs) {
                        Err(ParseError::NotText)
                    } else if s.len() - end < n {
                        Err(ParseError::BodyTruncated)
                    } else {
                        Ok(
                            RequestModel {
                                method: rl.0,
                                uri: rl.1,
                                protocol: rl.2,
                                headers: hs,
                                body: s.subrange(end, end + n),
                            },
                        )
                    }
                },
            },
        }
    }
}

} // verus!

verus! {

/// `n` is what a bounded count `(val, big)` stands for: `val` itself, or,
/// where `big` is set, a number past `usize::MAX`.
pub open spec fn counts(val: usize, big: bool, n: nat) -> bool {
    if big {
        n > usize::MAX
    } else {
        val as nat == n
    }
}

/// Does header line `l` start with `Content-Length:`, in any letter case?
pub fn content_length_header(l: &[u8]) -> (r: bool)
    ensures
        r == is_content_length(l@),
{
    if l.len() < 15 {
        return false;
    }
    let name: Vec<u8> = vec![99u8, 111, 110, 116, 101, 110, 116, 45, 108, 101, 110, 103, 116, 104, 58];
    assert(name@ =~= content_length_name());
    let mut j: usize = 0;
    while j < 15
        invariant
            l@.len() >= 15,
            name@ == content_length_name(),
            0 <= j <= 15,
            forall|k: int| 0 <= k < j ==> ascii_lower(#[trigger] l@[k]) == content_length_name()[k],
        decreases 15 - j,
    {
        let b = l[j];
        let lower = if 65 <= b && b <= 90 {
            b + 32
        } else {
            b
        };
        if lower != name[j] {
            return false;
        }
        j = j + 1;
    }
    true
}

/// The value of a `Content-Length` header line, as a bounded count.
pub fn content_length_header_value(l: &[u8]) -> (r: (usize, bool))
    requires
        l@.len() >= 15,
    ensures
        counts(r.0, r.1, content_length_value(l@)),
{
    let a = skip_blanks(l, 15);
    proof {
        lemma_first_from(l@, 15, |b: u8| is_not_blank(b));
    }
    let ghost v = l@.subrange(a as int, l@.len() as int);
    if a >= l.len() {
        return (0, false);
    }
    let mut j = a;
    while j < l.len()
        invariant
            a <= j <= l@.len(),
            v == l@.subrange(a as int, l@.len() as int),
            a as int == value_start(l@),
            forall|k: int| a <= k < j ==> 48 <= #[trigger] l@[k] <= 57,
        decreases l@.len() - j,
    {
        if !(48 <= l[j] && l[j] <= 57) {
            assert(!all_digits(v)) by {
                let idx: int = j - a;
                assert(0 <= idx < v.len());
                assert(v[idx] == l@[j as int]);
            }
            return (0, false);
        }
        j = j + 1;
    }
    assert(all_digits(v)) by {
        assert forall|k: int| 0 <= k < v.len() implies 48 <= #[trigger] v[k] <= 57 by {
            assert(v[k] == l@[a + k]);
        }
    }
    let mut val: usize = 0;
    let mut big = false;
    let mut k = a;
    assert(l@.subrange(a as int, a as int) =~= seq![]);
    while k < l.len()
        invariant
            a <= k <= l@.len(),
            forall|i: int| a <= i < l@.len() ==> 48 <= #[trigger] l@[i] <= 57,
            counts(val, big, digits_value(l@.subrange(a as int, k as int))),
        decreases l@.len() - k,
    {
        let d = (l[k] - 48) as usize;
        let ghost before = digits_value(l@.subrange(a as int, k as int));
        proof {
            let w = l@.subrange(a as int, k + 1);
            assert(w.drop_last() =~= l@.subrange(a as int, k as int));
            assert(digits_value(w) == before * 10 + d);
        }
        if !big {
            match val.checked_mul(10) {
                Some(m) => match m.checked_add(d) {
                    Some(x) => {
                        val = x;
                    },
                    None => {
                        big = true;
                    },
                },
                None => {
                    big = true;
                },
            }
        }
        k = k + 1;
    }
    assert(l@.subrange(a as int, l@.len() as int) == v);
    (val, big)
}

/// The body length that header lines `lines` announce, as a bounded count.
pub fn content_length(lines: &Vec<Vec<u8>>) -> (r: (usize, bool))
    ensures
        counts(r.0, r.1, content_length_of(views(lines@))),
{
    let mut val: usize = 0;
    let mut big = false;
    let mut i: usize = 0;
    assert(views(lines@).subrange(0, 0) =~= seq![]);
    while i < lines.len()
        invariant
            0 <= i <= lines@.len(),
            counts(val, big, content_length_of(views(lines@).subrange(0, i as int))),
        decreases lines@.len() - i,
    {
        let l = lines[i].as_slice();
        proof {
            let w = views(lines@).subrange(0, i + 1);
            assert(w.drop_last() =~= views(lines@).subrange(0, i as int));
            assert(w.last() == l@);
        }
        if content_length_header(l) {
            let (v, b) = content_length_header_value(l);
            val = v;
            big = b;
        }
        i = i + 1;
    }
    assert(views(lines@).subrange(0, lines@.len() as int) =~= views(lines@));
    (val, big)
}

/// `a` put in front of the lines of a header scan.
pub open spec fn prepend(a: Seq<Seq<u8>>, o: Option<(Seq<Seq<u8>>, int)>) -> Option<
    (Seq<Seq<u8>>, int),
> {
    match o {
        None => None,
        Some(p) => Some((a + p.0, p.1)),
    }
}

/// Parses the request held by `input`, all that one connection delivered.
///
/// Line 0 is the request line; the header lines follow up to the first
/// empty line; then come exactly `Content-Length` bytes of body. Lines end
/// with a line feed, and a carriage return before it is dropped.
pub fn http_parse(input: &[u8]) -> (r: Result<HttpRequest, ParseError>)
    ensures
        match r {
            Ok(req) => parse_request(input@) == Ok::<RequestModel, ParseError>(request_model(&req)),
            Err(e) => parse_request(input@) == Err::<RequestModel, ParseError>(e),
        },
{
    let ghost s = input@;
    let e0 = find_line_end(input, 0);
    if e0 >= input.len() {
        return Err(ParseError::IncompleteRequest);
    }
    proof {
        lemma_first_from(s, 0, |b: u8| is_lf(b));
    }
    let line0 = trim_cr(slice_subrange(input, 0, e0));
    let toks = split_tokens(line0);
    if toks.len() != 3 {
        return Err(ParseError::MalformedRequestLine);
    }
    assert(toks@[0]@ == tokens(line0@)[0]);
    let method = match Method::from_token(toks[0].as_slice()) {
        None => {
            return Err(ParseError::MalformedRequestLine);
        },
        Some(m) => m,
    };
    assert(toks@[1]@ == tokens(line0@)[1]);
    assert(toks@[2]@ == tokens(line0@)[2]);
    let ghost rl = (method, toks@[1]@, toks@[2]@);
    assert(request_line(strip_cr(s.subrange(0, e0 as int))) == Some(rl));
    let mut pos: usize = e0 + 1;
    let mut lines: Vec<Vec<u8>> = Vec::new();
    assert(views(lines@) + seq![] =~= seq![]);
    loop
        invariant_except_break
            s == input@,
            e0 == line_end(s, 0),
            e0 < s.len(),
            request_line(strip_cr(s.subrange(0, e0 as int))) == Some(rl),
            e0 + 1 <= pos <= s.len(),
            scan_headers(s, e0 + 1) == prepend(views(lines@), scan_headers(s, pos as int)),
        ensures
            s == input@,
            e0 == line_end(s, 0),
            e0 < s.len(),
            request_line(strip_cr(s.subrange(0, e0 as int))) == Some(rl),
            e0 + 1 <= pos <= s.len(),
            scan_headers(s, e0 + 1) == Some((views(lines@), pos as int)),
        decreases s.len() - pos,
    {
        let e = find_line_end(input, pos);
        if e >= input.len() {
            return Err(ParseError::IncompleteRequest);
        }
        proof {
            lemma_first_from(s, pos as int, |b: u8| is_lf(b));
        }
        let l = trim_cr(slice_subrange(input, pos, e));
        if l.len() == 0 {
            assert(views(lines@) + seq![] =~= views(lines@));
            pos = e + 1;
            break;
        }
        let ghost before = views(lines@);
        lines.push(slice_to_vec(l));
        proof {
            assert(views(lines@) =~= before.push(l@));
            match scan_headers(s, e + 1) {
                None => {},
                Some(p) => {
                    assert(before + (seq![l@] + p.0) =~= views(lines@) + p.0);
                },
            }
        }
        pos = e + 1;
    }
    let ghost hs = views(lines@);
    let uri = match text_from_bytes(toks[1].as_slice()) {
        None => {
            return Err(ParseError::NotText);
        },
        Some(t) => t,
    };
    let protocol = match text_from_bytes(toks[2].as_slice()) {
        None => {
            return Err(ParseError::NotText);
        },
        Some(t) => t,
    };
    assert(all_text(rl.1, rl.2, seq![]));
    let mut headers: Vec<String> = Vec::new();
    let mut k: usize = 0;
    while k < lines.len()
        invariant
            s == input@,
            e0 == line_end(s, 0),
            e0 < s.len(),
            request_line(strip_cr(s.subrange(0, e0 as int))) == Some(rl),
            scan_headers(s, e0 + 1) == Some((hs, pos as int)),
            all_text(rl.1, rl.2, seq![]),
            hs == views(lines@),
            0 <= k <= lines@.len(),
            headers@.len() == k,
            forall|j: int| 0 <= j < k ==> valid_utf8(#[trigger] hs[j]),
            forall|j: int| 0 <= j < k ==> wire(#[trigger] headers@[j]@) == hs[j],
        decreases lines@.len() - k,
    {
        assert(hs[k as int] == lines@[k as int]@);
        match text_from_bytes(lines[k].as_slice()) {
            None => {
                assert(!valid_utf8(hs[k as int]));
                return Err(ParseError::NotText);
            },
            Some(t) => {
                headers.push(t);
            },
        }
        k = k + 1;
    }
    let (n, big) = content_length(&lines);
    if big || input.len() - pos < n {
        return Err(ParseError::BodyTruncated);
    }
    let body = slice_to_vec(slice_subrange(input, pos, pos + n));
    let req = HttpRequest { protocol, method, uri, headers, body };
    assert(request_model(&req).headers =~= hs);
    assert(req.body@ =~= s.subrange(pos as int, pos + n));
    Ok(req)
}

} // verus!
