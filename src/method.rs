//! The request methods of HTTP/1.1.
use vstd::prelude::*;

use crate::bytes::bytes_eq;

verus! {

/// One of the nine standard request methods.
#[derive(Debug, Clone, Copy, PartialEq, Eq, Structural)]
pub enum Method {
    Get,
    Head,
    Post,
    Put,
    Delete,
    Connect,
    Options,
    Trace,
    Patch,
}

/// The token that names `m` on the wire.
pub open spec fn method_name(m: Method) -> Seq<u8> {
    match m {
        Method::Get => seq![71u8, 69, 84],
        Method::Head => seq![72u8, 69, 65, 68],
        Method::Post => seq![80u8, 79, 83, 84],
        Method::Put => seq![80u8, 85, 84],
        Method::Delete => seq![68u8, 69, 76, 69, 84, 69],
        Method::Connect => seq![67u8, 79, 78, 78, 69, 67, 84],
        Method::Options => seq![79u8, 80, 84, 73, 79, 78, 83],
        Method::Trace => seq![84u8, 82, 65, 67, 69],
        Method::Patch => seq![80u8, 65, 84, 67, 72],
    }
}

/// The method whose name is exactly `t`, if any (names are case-sensitive).
pub open spec fn method_of(t: Seq<u8>) -> Option<Method> {
    if t == method_name(Method::Get) {
        Some(Method::Get)
    } else if t == method_name(Method::Head) {
        Some(Method::Head)
    } else if t == method_name(Method::Post) {
        Some(Method::Post)
    } else if t == method_name(Method::Put) {
        Some(Method::Put)
    } else if t == method_name(Method::Delete) {
        Some(Method::Delete)
    } else if t == method_name(Method::Connect) {
        Some(Method::Connect)
    } else if t == method_name(Method::Options) {
        Some(Method::Options)
    } else if t == method_name(Method::Trace) {
        Some(Method::Trace)
    } else if t == method_name(Method::Patch) {
        Some(Method::Patch)
    } else {
        None
    }
}

impl Method {
    /// All nine methods, in the order the standard lists them.
    pub fn all() -> (r: Vec<Method>)
        ensures
            r@ == seq![Method::Get, Method::Head, Method::Post, Method::Put, Method::Delete,
                Method::Connect, Method::Options, Method::Trace, Method::Patch],
    {
        let r = vec![Method::Get, Method::Head, Method::Post, Method::Put, Method::Delete,
            Method::Connect, Method::Options, Method::Trace, Method::Patch];
        assert(r@ =~= seq![Method::Get, Method::Head, Method::Post, Method::Put, Method::Delete,
            Method::Connect, Method::Options, Method::Trace, Method::Patch]);
        r
    }

    /// The method's name as it stands on the wire.
    pub fn name_bytes(&self) -> (r: Vec<u8>)
        ensures
            r@ == method_name(*self),
    {
        let r = match self {
            Method::Get => vec![71u8, 69, 84],
            Method::Head => vec![72u8, 69, 65, 68],
            Method::Post => vec![80u8, 79, 83, 84],
            Method::Put => vec![80u8, 85, 84],
            Method::Delete => vec![68u8, 69, 76, 69, 84, 69],
            Method::Connect => vec![67u8, 79, 78, 78, 69, 67, 84],
            Method::Options => vec![79u8, 80, 84, 73, 79, 78, 83],
            Method::Trace => vec![84u8, 82, 65, 67, 69],
            Method::Patch => vec![80u8, 65, 84, 67, 72],
        };
        assert(r@ =~= method_name(*self));
        r
    }

    /// Recognises a request-line token; anything but the nine exact,
    /// upper-case names is refused.
    pub fn from_token(t: &[u8]) -> (r: Option<Method>)
        ensures
            r == method_of(t@),
    {
        let all = Method::all();
        let mut i: usize = 0;
        while i < all.len()
            invariant
                all@ == seq![Method::Get, Method::Head, Method::Post, Method::Put, Method::Delete,
                    Method::Connect, Method::Options, Method::Trace, Method::Patch],
                0 <= i <= 9,
                forall|j: int| 0 <= j < i ==> t@ != method_name(#[trigger] all@[j]),
            decreases 9 - i,
        {
            let m = all[i];
            let name = m.name_bytes();
            if bytes_eq(t, name.as_slice()) {
                return Some(m);
            }
            i = i + 1;
        }
        assert(t@ != method_name(all@[0]));
        assert(t@ != method_name(all@[1]));
        assert(t@ != method_name(all@[2]));
        assert(t@ != method_name(all@[3]));
        assert(t@ != method_name(all@[4]));
        assert(t@ != method_name(all@[5]));
        assert(t@ != method_name(all@[6]));
        assert(t@ != method_name(all@[7]));
        assert(t@ != method_name(all@[8]));
        None
    }
}

} // verus!
