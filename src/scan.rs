//! Finding positions in a byte sequence: line ends, whitespace, tokens.
use vstd::prelude::*;

use crate::bytes::{CR, LF, SP};

verus! {

/// Horizontal tab.
pub const HT: u8 = 9;

/// The first index at or after `i` whose byte satisfies `p`, or the length
/// of `s` when there is none.
pub open spec fn first_from(s: Seq<u8>, i: int, p: spec_fn(u8) -> bool) -> int
    decreases s.len() - i,
{
    if i < 0 || i >= s.len() {
        s.len() as int
    } else if p(s[i]) {
        i
    } else {
        first_from(s, i + 1, p)
    }
}

pub proof fn lemma_first_from(s: Seq<u8>, i: int, p: spec_fn(u8) -> bool)
    requires
        0 <= i <= s.len(),
    ensures
        i <= first_from(s, i, p) <= s.len(),
        first_from(s, i, p) < s.len() ==> p(s[first_from(s, i, p)]),
        forall|j: int| i <= j < first_from(s, i, p) ==> !p(#[trigger] s[j]),
    decreases s.len() - i,
{
    if i < s.len() && !p(s[i]) {
        lemma_first_from(s, i + 1, p);
    }
}

/// Is `b` a line feed?
pub open spec fn is_lf(b: u8) -> bool {
    b == LF
}

/// Is `b` whitespace that separates request-line tokens?
pub open spec fn is_ws(b: u8) -> bool {
    b == SP || b == HT || b == 11 || b == 12 || b == CR
}

/// Is `b` anything but whitespace?
pub open spec fn is_not_ws(b: u8) -> bool {
    !is_ws(b)
}

/// Is `b` anything but a space or a tab?
pub open spec fn is_not_blank(b: u8) -> bool {
    b != SP && b != HT
}

/// The end of the line that starts at `i`: the index of its line feed, or
/// the length of `s` when the line is not terminated.
pub open spec fn line_end(s: Seq<u8>, i: int) -> int {
    first_from(s, i, |b: u8| is_lf(b))
}

/// `l` without one trailing carriage return.
pub open spec fn strip_cr(l: Seq<u8>) -> Seq<u8> {
    if l.len() > 0 && l.last() == CR {
        l.drop_last()
    } else {
        l
    }
}

/// The whitespace-separated tokens of `s` from index `i` on.
pub open spec fn tokens_from(s: Seq<u8>, i: int) -> Seq<Seq<u8>>
    decreases s.len() - i,
{
    if i < 0 || i >= s.len() {
        seq![]
    } else {
        let a = first_from(s, i, |b: u8| is_not_ws(b));
        if a >= s.len() {
            seq![]
        } else {
            let b = first_from(s, a, |b: u8| is_ws(b));
            proof {
                lemma_first_from(s, i, |b: u8| is_not_ws(b));
                lemma_first_from(s, a, |b: u8| is_ws(b));
            }
            seq![s.subrange(a, b)] + tokens_from(s, b)
        }
    }
}

/// The whitespace-separated tokens of `s`.
pub open spec fn tokens(s: Seq<u8>) -> Seq<Seq<u8>> {
    tokens_from(s, 0)
}

/// The contents of each vector.
pub open spec fn views(v: Seq<Vec<u8>>) -> Seq<Seq<u8>> {
    v.map_values(|x: Vec<u8>| x@)
}

/// The index of the first line feed at or after `i`, or `s.len()`.
pub fn find_line_end(s: &[u8], i: usize) -> (r: usize)
    requires
        i <= s@.len(),
    ensures
        r == line_end(s@, i as int),
{
    let mut j = i;
    while j < s.len()
        invariant
            i <= j <= s@.len(),
            line_end(s@, j as int) == line_end(s@, i as int),
        decreases s@.len() - j,
    {
        if s[j] == LF {
            return j;
        }
        j = j + 1;
    }
    j
}

/// The index of the first byte at or after `i` that is not whitespace, or `s.len()`.
fn skip_ws(s: &[u8], i: usize) -> (r: usize)
    requires
        i <= s@.len(),
    ensures
        r == first_from(s@, i as int, |b: u8| is_not_ws(b)),
{
    let mut j = i;
    while j < s.len()
        invariant
            i <= j <= s@.len(),
            first_from(s@, j as int, |b: u8| is_not_ws(b)) == first_from(
                s@,
                i as int,
                |b: u8| is_not_ws(b),
            ),
        decreases s@.len() - j,
    {
        let b = s[j];
        if !(b == SP || b == HT || b == 11 || b == 12 || b == CR) {
            return j;
        }
        j = j + 1;
    }
    j
}

/// The index of the first whitespace byte at or after `i`, or `s.len()`.
fn token_end(s: &[u8], i: usize) -> (r: usize)
    requires
        i <= s@.len(),
    ensures
        r == first_from(s@, i as int, |b: u8| is_ws(b)),
{
    let mut j = i;
    while j < s.len()
        invariant
            i <= j <= s@.len(),
            first_from(s@, j as int, |b: u8| is_ws(b)) == first_from(
                s@,
                i as int,
                |b: u8| is_ws(b),
            ),
        decreases s@.len() - j,
    {
        let b = s[j];
        if b == SP || b == HT || b == 11 || b == 12 || b == CR {
            return j;
        }
        j = j + 1;
    }
    j
}

/// The index of the first byte at or after `i` that is neither a space nor
/// a tab, or `s.len()`.
pub fn skip_blanks(s: &[u8], i: usize) -> (r: usize)
    requires
        i <= s@.len(),
    ensures
        r == first_from(s@, i as int, |b: u8| is_not_blank(b)),
{
    let mut j = i;
    while j < s.len()
        invariant
            i <= j <= s@.len(),
            first_from(s@, j as int, |b: u8| is_not_blank(b)) == first_from(
                s@,
                i as int,
                |b: u8| is_not_blank(b),
            ),
        decreases s@.len() - j,
    {
        if s[j] != SP && s[j] != HT {
            return j;
        }
        j = j + 1;
    }
    j
}

/// `l` without one trailing carriage return.
pub fn trim_cr(l: &[u8]) -> (r: &[u8])
    ensures
        r@ == strip_cr(l@),
{
    let n = l.len();
    if n > 0 && l[n - 1] == CR {
        let r = vstd::slice::slice_subrange(l, 0, n - 1);
        assert(r@ =~= l@.drop_last());
        r
    } else {
        l
    }
}

/// The whitespace-separated tokens of `s`.
pub fn split_tokens(s: &[u8]) -> (r: Vec<Vec<u8>>)
    ensures
        views(r@) == tokens(s@),
{
    let mut toks: Vec<Vec<u8>> = Vec::new();
    let mut i: usize = 0;
    while i < s.len()
        invariant
            0 <= i <= s@.len(),
            tokens(s@) == views(toks@) + tokens_from(s@, i as int),
        decreases s@.len() - i,
    {
        let a = skip_ws(s, i);
        proof {
            lemma_first_from(s@, i as int, |b: u8| is_not_ws(b));
        }
        if a >= s.len() {
            assert(tokens_from(s@, i as int) =~= seq![]);
            assert(views(toks@) + seq![] =~= views(toks@));
            return toks;
        }
        let b = token_end(s, a);
        proof {
            lemma_first_from(s@, a as int, |b: u8| is_ws(b));
        }
        let t = vstd::slice::slice_to_vec(vstd::slice::slice_subrange(s, a, b));
        let ghost before = toks@;
        toks.push(t);
        proof {
            assert(tokens_from(s@, i as int) == seq![s@.subrange(a as int, b as int)] + tokens_from(
                s@,
                b as int,
            ));
            assert(views(toks@) =~= views(before).push(s@.subrange(a as int, b as int)));
            assert(views(toks@) + tokens_from(s@, b as int) =~= views(before) + (seq![
                s@.subrange(a as int, b as int),
            ] + tokens_from(s@, b as int)));
        }
        i = b;
    }
    assert(tokens_from(s@, i as int) =~= seq![]);
    assert(views(toks@) + seq![] =~= views(toks@));
    toks
}

} // verus!

verus! {

/// When no byte in `[i, e)` satisfies `p` and the one at `e` does, the
/// search from `i` stops at `e`.
pub proof fn lemma_first_from_at(s: Seq<u8>, i: int, e: int, p: spec_fn(u8) -> bool)
    requires
        0 <= i <= e < s.len(),
        forall|j: int| i <= j < e ==> !p(#[trigger] s[j]),
        p(s[e]),
    ensures
        first_from(s, i, p) == e,
    decreases e - i,
{
    if i < e {
        lemma_first_from_at(s, i + 1, e, p);
    }
}

} // verus!
