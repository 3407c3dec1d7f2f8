//! Properties that relate the parser, the serializer and the registry.
use vstd::prelude::*;

use crate::bytes::{CR, LF, SP};
use crate::message::{crlf, decimal, header_block, head_bytes, serialized, wire_lines, HttpResponse};
use crate::parse::{
    all_digits, all_text, content_length_of, digits_value, is_content_length, parse_request,
    request_line, scan_headers,
};
use crate::scan::{first_from, is_lf, lemma_first_from, lemma_first_from_at, line_end, strip_cr};
use crate::text::wire;

verus! {

/// Is every line non-empty and free of line feeds?
pub open spec fn plain_lines(hs: Seq<Seq<u8>>) -> bool {
    forall|k: int| 0 <= k < hs.len() ==> #[trigger] hs[k].len() > 0 && no_lf(hs[k])
}

/// Does `l` hold no line feed?
pub open spec fn no_lf(l: Seq<u8>) -> bool {
    forall|j: int| 0 <= j < l.len() ==> #[trigger] l[j] != LF
}

/// The input of a request: its request line, its header lines, the blank
/// line, and then whatever else the connection carried.
pub open spec fn request_bytes(line0: Seq<u8>, hs: Seq<Seq<u8>>, rest: Seq<u8>) -> Seq<u8> {
    line0 + crlf() + header_block(hs) + crlf() + rest
}

proof fn lemma_header_block_front(h: Seq<u8>, rest: Seq<Seq<u8>>)
    ensures
        header_block(seq![h] + rest) == h + crlf() + header_block(rest),
    decreases rest.len(),
{
    let all = seq![h] + rest;
    if rest.len() == 0 {
        assert(all.drop_last() =~= seq![]);
        assert(header_block(all) =~= h + crlf() + header_block(rest));
    } else {
        assert(all.drop_last() =~= seq![h] + rest.drop_last());
        lemma_header_block_front(h, rest.drop_last());
        assert(all.last() == rest.last());
        assert(header_block(all) == header_block(all.drop_last()) + all.last() + crlf());
        assert(header_block(rest) == header_block(rest.drop_last()) + rest.last() + crlf());
        assert(header_block(all) =~= h + crlf() + header_block(rest));
    }
}

/// A line `l` with no line feed, followed by CR LF at `i`, ends one past its
/// carriage return, and reads back as `l`.
proof fn lemma_crlf_line(s: Seq<u8>, i: int, l: Seq<u8>)
    requires
        0 <= i,
        i + l.len() + 2 <= s.len(),
        s.subrange(i, i + l.len() + 2) == l + crlf(),
        no_lf(l),
    ensures
        line_end(s, i) == i + l.len() + 1,
        strip_cr(s.subrange(i, i + l.len() + 1)) == l,
{
    let e = i + l.len() + 1;
    assert forall|j: int| i <= j < e implies !is_lf(#[trigger] s[j]) by {
        assert(s[j] == (l + crlf())[j - i]);
    }
    assert(s[e] == (l + crlf())[e - i]);
    lemma_first_from_at(s, i, e, |b: u8| is_lf(b));
    assert(s.subrange(i, e) =~= l.push(CR));
    assert(s.subrange(i, e).drop_last() =~= l);
}

/// Header lines written one per line, then the blank line, are read back
/// as they were written.
proof fn lemma_scan_block(s: Seq<u8>, i: int, hs: Seq<Seq<u8>>)
    requires
        0 <= i,
        plain_lines(hs),
        i + header_block(hs).len() + 2 <= s.len(),
        s.subrange(i, i + header_block(hs).len() + 2) == header_block(hs) + crlf(),
    ensures
        scan_headers(s, i) == Some((hs, i + header_block(hs).len() + 2)),
    decreases hs.len(),
{
    if hs.len() == 0 {
        assert(header_block(hs) =~= seq![]);
        lemma_crlf_line(s, i, seq![]);
        assert(s.subrange(i, i + 1) =~= seq![CR]);
    } else {
        let h = hs[0];
        let rest = hs.drop_first();
        assert(hs =~= seq![h] + rest);
        lemma_header_block_front(h, rest);
        let block = header_block(hs) + crlf();
        assert(block =~= (h + crlf()) + (header_block(rest) + crlf()));
        assert(s.subrange(i, i + h.len() + 2) =~= h + crlf()) by {
            assert forall|j: int| 0 <= j < h.len() + 2 implies s.subrange(i, i + h.len() + 2)[j]
                == (h + crlf())[j] by {
                assert(s.subrange(i, i + h.len() + 2)[j] == block[j]);
            }
        }
        assert(hs[0].len() > 0 && no_lf(hs[0]));
        lemma_crlf_line(s, i, h);
        let i2 = i + h.len() + 2;
        assert(plain_lines(rest)) by {
            assert forall|k: int| 0 <= k < rest.len() implies #[trigger] rest[k].len() > 0 && no_lf(
                rest[k],
            ) by {
                assert(rest[k] == hs[k + 1]);
            }
        }
        assert(s.subrange(i2, i2 + header_block(rest).len() + 2) =~= header_block(rest) + crlf())
            by {
            assert forall|j: int| 0 <= j < header_block(rest).len() + 2 implies s.subrange(
                i2,
                i2 + header_block(rest).len() + 2,
            )[j] == (header_block(rest) + crlf())[j] by {
                assert(s.subrange(i2, i2 + header_block(rest).len() + 2)[j] == block[j + h.len()
                    + 2]);
            }
        }
        lemma_scan_block(s, i2, rest);
        assert(strip_cr(s.subrange(i, i + h.len() + 1)) == h);
        assert(seq![h] + rest == hs);
    }
}

/// The request line and the headers of `request_bytes(line0, hs, rest)`
/// are found where they were written.
proof fn lemma_request_frame(line0: Seq<u8>, hs: Seq<Seq<u8>>, rest: Seq<u8>)
    requires
        no_lf(line0),
        plain_lines(hs),
    ensures
        ({
            let s = request_bytes(line0, hs, rest);
            let n0 = line0.len() as int;
            &&& line_end(s, 0) == n0 + 1
            &&& strip_cr(s.subrange(0, n0 + 1)) == line0
            &&& scan_headers(s, n0 + 2) == Some((hs, n0 + 2 + header_block(hs).len() + 2))
        }),
{
    let s = request_bytes(line0, hs, rest);
    let i: int = line0.len() as int + 2;
    assert(s.subrange(0, i) =~= line0 + crlf());
    lemma_crlf_line(s, 0, line0);
    let j: int = i + header_block(hs).len() + 2;
    assert(s.subrange(i, j) =~= header_block(hs) + crlf());
    lemma_scan_block(s, i, hs);
}

/// The parser keeps the header lines of a request, in the order they
/// arrived: whenever a request parses, its headers are exactly the lines
/// that were sent, and it does parse when they are text and the body that
/// they announce has arrived.
pub proof fn law_headers_kept_in_order(line0: Seq<u8>, hs: Seq<Seq<u8>>, rest: Seq<u8>)
    requires
        no_lf(line0),
        request_line(line0) is Some,
        plain_lines(hs),
    ensures
        parse_request(request_bytes(line0, hs, rest)) matches Ok(m) ==> m.headers == hs,
        ({
            let rl = request_line(line0)->Some_0;
            all_text(rl.1, rl.2, hs) && content_length_of(hs) <= rest.len() ==> parse_request(
                request_bytes(line0, hs, rest),
            ) is Ok
        }),
{
    lemma_request_frame(line0, hs, rest);
    let s = request_bytes(line0, hs, rest);
    assert(s.len() == line0.len() + 2 + header_block(hs).len() + 2 + rest.len());
}

proof fn lemma_no_content_length(hs: Seq<Seq<u8>>)
    requires
        forall|k: int| 0 <= k < hs.len() ==> !is_content_length(#[trigger] hs[k]),
    ensures
        content_length_of(hs) == 0,
    decreases hs.len(),
{
    if hs.len() > 0 {
        assert(!is_content_length(hs[hs.len() - 1]));
        assert forall|k: int| 0 <= k < hs.drop_last().len() implies !is_content_length(
            #[trigger] hs.drop_last()[k],
        ) by {
            assert(hs.drop_last()[k] == hs[k]);
        }
        lemma_no_content_length(hs.drop_last());
    }
}

/// Without a `Content-Length` header the body is empty, whatever bytes
/// follow the blank line.
pub proof fn law_no_content_length_no_body(line0: Seq<u8>, hs: Seq<Seq<u8>>, rest: Seq<u8>)
    requires
        no_lf(line0),
        request_line(line0) is Some,
        all_text(request_line(line0)->Some_0.1, request_line(line0)->Some_0.2, hs),
        plain_lines(hs),
        forall|k: int| 0 <= k < hs.len() ==> !is_content_length(#[trigger] hs[k]),
    ensures
        parse_request(request_bytes(line0, hs, rest)) matches Ok(m) && m.body.len() == 0,
{
    lemma_request_frame(line0, hs, rest);
    lemma_no_content_length(hs);
    let s = request_bytes(line0, hs, rest);
    assert(s.len() == line0.len() + 2 + header_block(hs).len() + 2 + rest.len());
}

/// Registering `a` and then `b` for one URI leaves `b` as its handler, and
/// the registry is as if `a` had never been registered.
pub proof fn law_last_registration_wins<H>(before: Map<Seq<char>, H>, uri: Seq<char>, a: H, b: H)
    ensures
        before.insert(uri, a).insert(uri, b)[uri] == b,
        before.insert(uri, a).insert(uri, b) == before.insert(uri, b),
{
    assert(before.insert(uri, a).insert(uri, b) =~= before.insert(uri, b));
}

} // verus!

verus! {

/// Is `b` a space?
pub open spec fn is_sp(b: u8) -> bool {
    b == SP
}

/// Does `l` hold no space?
pub open spec fn no_sp(l: Seq<u8>) -> bool {
    forall|j: int| 0 <= j < l.len() ==> #[trigger] l[j] != SP
}

/// Reads back the status code, the reason phrase and the header lines of
/// a response's wire form; the body is ignored.
pub open spec fn response_head(s: Seq<u8>) -> Option<(nat, Seq<u8>, Seq<Seq<u8>>)> {
    let e0 = line_end(s, 0);
    if e0 >= s.len() {
        None
    } else {
        let line = strip_cr(s.subrange(0, e0));
        let p1 = first_from(line, 0, |b: u8| is_sp(b));
        let p2 = first_from(line, p1 + 1, |b: u8| is_sp(b));
        if p2 >= line.len() {
            None
        } else {
            let code = line.subrange(p1 + 1, p2);
            if code.len() == 0 || !all_digits(code) {
                None
            } else {
                match scan_headers(s, e0 + 1) {
                    None => None,
                    Some(h) => Some((digits_value(code), line.subrange(p2 + 1, line.len() as int), h.0)),
                }
            }
        }
    }
}

proof fn lemma_decimal(n: nat)
    ensures
        decimal(n).len() > 0,
        all_digits(decimal(n)),
        digits_value(decimal(n)) == n,
    decreases n,
{
    if n >= 10 {
        lemma_decimal(n / 10);
        let d = decimal(n);
        assert(d.drop_last() =~= decimal(n / 10));
        assert(n == (n / 10) * 10 + n % 10) by (nonlinear_arith);
        assert(d.last() == (48 + n % 10) as u8);
        assert((d.last() - 48) as nat == n % 10);
        assert(digits_value(d) == digits_value(d.drop_last()) * 10 + (d.last() - 48) as nat);
        assert(all_digits(d)) by {
            assert forall|j: int| 0 <= j < d.len() implies 48 <= #[trigger] d[j] <= 57 by {
                if j < d.len() - 1 {
                    assert(d[j] == decimal(n / 10)[j]);
                }
            }
        }
    } else {
        let d = decimal(n);
        assert(d.drop_last() =~= seq![]);
        assert(digits_value(d) == digits_value(d.drop_last()) * 10 + (d.last() - 48) as nat);
    }
}

/// Serializing a response and reading its head back gives the status
/// code, the reason phrase and the header lines that it was made with, as
/// long as the protocol holds no space and no text holds a line break.
pub proof fn law_response_round_trip(r: &HttpResponse)
    requires
        no_sp(wire(r.protocol@)),
        no_lf(wire(r.protocol@)),
        no_lf(wire(r.reason_phrase@)),
        plain_lines(wire_lines(r.headers@)),
    ensures
        response_head(serialized(r)) == Some(
            (r.status_code as nat, wire(r.reason_phrase@), wire_lines(r.headers@)),
        ),
{
    let p = wire(r.protocol@);
    let d = decimal(r.status_code as nat);
    let q = wire(r.reason_phrase@);
    let hs = wire_lines(r.headers@);
    let body = serialized(r).subrange(head_bytes(r).len() as int, serialized(r).len() as int);
    let line0 = p + seq![SP] + d + seq![SP] + q;
    lemma_decimal(r.status_code as nat);
    assert(no_lf(line0)) by {
        assert forall|j: int| 0 <= j < line0.len() implies #[trigger] line0[j] != LF by {
            if j < p.len() {
                assert(line0[j] == p[j]);
            } else if p.len() < j < p.len() + 1 + d.len() {
                assert(line0[j] == d[j - p.len() - 1]);
            } else if p.len() + 1 + d.len() < j {
                assert(line0[j] == q[j - p.len() - 2 - d.len()]);
            }
        }
    }
    let s = serialized(r);
    assert(s =~= request_bytes(line0, hs, body));
    lemma_request_frame(line0, hs, body);
    let p1 = p.len() as int;
    let p2 = p1 + 1 + d.len();
    assert forall|j: int| 0 <= j < p1 implies !is_sp(#[trigger] line0[j]) by {
        assert(line0[j] == p[j]);
    }
    assert(line0[p1] == SP);
    lemma_first_from_at(line0, 0, p1, |b: u8| is_sp(b));
    assert forall|j: int| p1 + 1 <= j < p2 implies !is_sp(#[trigger] line0[j]) by {
        assert(line0[j] == d[j - p1 - 1]);
    }
    assert(line0[p2] == SP);
    lemma_first_from_at(line0, p1 + 1, p2, |b: u8| is_sp(b));
    assert(line0.subrange(p1 + 1, p2) =~= d);
    assert(line0.subrange(p2 + 1, line0.len() as int) =~= q);
}

} // verus!
