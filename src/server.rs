//! The handler registry and the routing of a request to its response.
use vstd::prelude::*;
use vstd::string::StringExecFns;

use crate::message::{response, serialized, HttpRequest, HttpResponse};
use crate::text::wire;

verus! {

/// `.`
pub const DOT: u8 = 46;

/// `/`
pub const SLASH: u8 = 47;

/// `\`
pub const BACKSLASH: u8 = 92;

/// The mapping that a list of registrations makes: a later entry for a URI
/// replaces an earlier one.
pub open spec fn entries_map<H>(e: Seq<(String, H)>) -> Map<Seq<char>, H>
    decreases e.len(),
{
    if e.len() == 0 {
        Map::empty()
    } else {
        entries_map(e.drop_last()).insert(e.last().0@, e.last().1)
    }
}

/// No URI appears twice in `e`.
pub open spec fn unique_keys<H>(e: Seq<(String, H)>) -> bool {
    forall|a: int, b: int| 0 <= a < b < e.len() ==> (#[trigger] e[a]).0@ != (#[trigger] e[b]).0@
}

proof fn lemma_entries_map_dom<H>(e: Seq<(String, H)>, k: Seq<char>)
    ensures
        entries_map(e).contains_key(k) <==> exists|i: int| 0 <= i < e.len() && (#[trigger] e[i]).0@ == k,
    decreases e.len(),
{
    if e.len() > 0 {
        lemma_entries_map_dom(e.drop_last(), k);
        if entries_map(e).contains_key(k) && k != e.last().0@ {
            let i = choose|i: int| 0 <= i < e.drop_last().len() && (#[trigger] e.drop_last()[i]).0@ == k;
            assert(e[i] == e.drop_last()[i]);
        }
        if exists|i: int| 0 <= i < e.len() && (#[trigger] e[i]).0@ == k {
            let i = choose|i: int| 0 <= i < e.len() && (#[trigger] e[i]).0@ == k;
            if i < e.len() - 1 {
                assert(e.drop_last()[i] == e[i]);
            }
        }
    }
}

proof fn lemma_entries_map_value<H>(e: Seq<(String, H)>, i: int)
    requires
        unique_keys(e),
        0 <= i < e.len(),
    ensures
        entries_map(e).contains_key(e[i].0@),
        entries_map(e)[e[i].0@] == e[i].1,
    decreases e.len(),
{
    if i < e.len() - 1 {
        let d = e.drop_last();
        assert(d[i] == e[i]);
        assert(unique_keys(d)) by {
            assert forall|a: int, b: int| 0 <= a < b < d.len() implies (#[trigger] d[a]).0@ != (
            #[trigger] d[b]).0@ by {
                assert(d[a] == e[a] && d[b] == e[b]);
            }
        }
        assert(e[i] == e[i] && e[e.len() - 1] == e.last());
        lemma_entries_map_value(d, i);
    }
}

/// Does `b` end in a file extension: a `.` that is neither the first nor
/// the last byte, with no path separator after the last `.`?
pub open spec fn is_file_name(b: Seq<u8>) -> bool {
    let p = last_dot_before(b, b.len() as int);
    0 < p < b.len() - 1 && forall|j: int|
        p < j < b.len() ==> #[trigger] b[j] != SLASH && b[j] != BACKSLASH
}

/// The index of the last `.` before index `n`, or -1.
pub open spec fn last_dot_before(b: Seq<u8>, n: int) -> int
    decreases n,
{
    if n <= 0 {
        -1
    } else if b[n - 1] == DOT {
        n - 1
    } else {
        last_dot_before(b, n - 1)
    }
}

/// Does `s` look like the name of a file?
pub fn has_file_extension(s: &str) -> (r: bool)
    ensures
        r == is_file_name(wire(s@)),
{
    let b = s.as_bytes();
    let mut n = b.len();
    while n > 0
        invariant
            b@ == wire(s@),
            n <= b@.len(),
            last_dot_before(b@, n as int) == last_dot_before(b@, b@.len() as int),
        ensures
            b@ == wire(s@),
            n <= b@.len(),
            last_dot_before(b@, n as int) == last_dot_before(b@, b@.len() as int),
            n == 0 || b@[n - 1] == DOT,
        decreases n,
    {
        if b[n - 1] == DOT {
            break;
        }
        n = n - 1;
    }
    // `n` is one past the last dot, or 0 when there is none
    if n == 0 {
        return false;
    }
    let p = n - 1;
    if p == 0 || p >= b.len() - 1 {
        return false;
    }
    let mut j = p + 1;
    while j < b.len()
        invariant
            b@ == wire(s@),
            p == last_dot_before(b@, b@.len() as int),
            p < j <= b@.len(),
            forall|k: int| p < k < j ==> #[trigger] b@[k] != SLASH && b@[k] != BACKSLASH,
        decreases b@.len() - j,
    {
        if b[j] == SLASH || b[j] == BACKSLASH {
            return false;
        }
        j = j + 1;
    }
    true
}

/// Where a request goes.
pub enum Route<'a, H> {
    /// To the handler registered for its URI.
    Handler(&'a H),
    /// To the file at this path, which may not exist.
    StaticFile(String),
    /// To the not-found response.
    NotFound,
}

/// A server's configuration: where static files live, and a handler for
/// each exact URI.
pub struct Http<H> {
    resources_base_path: String,
    handlers: Vec<(String, H)>,
}

impl<H> Http<H> {
    /// The handler for each registered URI.
    pub closed spec fn handler_map(&self) -> Map<Seq<char>, H> {
        entries_map(self.handlers@)
    }

    /// The directory that static files are looked up under.
    pub closed spec fn base_path(&self) -> Seq<char> {
        self.resources_base_path@
    }

    /// Each URI has one entry.
    pub closed spec fn wf(&self) -> bool {
        unique_keys(self.handlers@)
    }

    /// A server with no handlers that serves files from under
    /// `resources_base_path`.
    pub fn new(resources_base_path: String) -> (r: Http<H>)
        ensures
            r.wf(),
            r.handler_map() == Map::<Seq<char>, H>::empty(),
            r.base_path() == resources_base_path@,
    {
        Http { resources_base_path, handlers: Vec::new() }
    }

    /// Makes `f` the handler of `uri`, replacing any earlier one.
    pub fn register_handler(&mut self, uri: String, f: H)
        requires
            old(self).wf(),
        ensures
            final(self).wf(),
            final(self).handler_map() == old(self).handler_map().insert(uri@, f),
            final(self).base_path() == old(self).base_path(),
    {
        let mut i: usize = 0;
        while i < self.handlers.len()
            invariant
                self == old(self),
                self.wf(),
                0 <= i <= self.handlers@.len(),
                forall|j: int| 0 <= j < i ==> (#[trigger] self.handlers@[j]).0@ != uri@,
            decreases self.handlers@.len() - i,
        {
            if self.handlers[i].0 == uri {
                let ghost e = self.handlers@;
                let ghost k = uri@;
                self.handlers.set(i, (uri, f));
                proof {
                    let n = self.handlers@;
                    assert(n == e.update(i as int, (n[i as int].0, f)));
                    assert(unique_keys(n)) by {
                        assert forall|a: int, b: int| 0 <= a < b < n.len() implies (
                        #[trigger] n[a]).0@ != (#[trigger] n[b]).0@ by {
                            assert(e[a].0@ != e[b].0@);
                        }
                    }
                    assert forall|q: Seq<char>| #[trigger]
                        entries_map(n).contains_key(q) == entries_map(e).insert(k, f).contains_key(
                            q,
                        ) by {
                        lemma_entries_map_dom(n, q);
                        lemma_entries_map_dom(e, q);
                        if exists|j: int| 0 <= j < e.len() && (#[trigger] e[j]).0@ == q {
                            let j = choose|j: int| 0 <= j < e.len() && (#[trigger] e[j]).0@ == q;
                            assert(n[j].0@ == q);
                        }
                        if exists|j: int| 0 <= j < n.len() && (#[trigger] n[j]).0@ == q {
                            let j = choose|j: int| 0 <= j < n.len() && (#[trigger] n[j]).0@ == q;
                            assert(e[j].0@ == q);
                        }
                    }
                    assert forall|q: Seq<char>| #[trigger]
                        entries_map(n).contains_key(q) implies entries_map(n)[q]
                        == entries_map(e).insert(k, f)[q] by {
                        lemma_entries_map_dom(n, q);
                        let j = choose|j: int| 0 <= j < n.len() && (#[trigger] n[j]).0@ == q;
                        lemma_entries_map_value(n, j);
                        if j != i {
                            assert(n[j] == e[j]);
                            lemma_entries_map_value(e, j);
                        } else {
                            assert(q == k);
                        }
                    }
                    assert(entries_map(n) =~= entries_map(e).insert(k, f));
                }
                return;
            }
            i = i + 1;
        }
        let ghost e = self.handlers@;
        let ghost k = uri@;
        self.handlers.push((uri, f));
        proof {
            let n = self.handlers@;
            assert(n.drop_last() =~= e);
            assert(unique_keys(n)) by {
                assert forall|a: int, b: int| 0 <= a < b < n.len() implies (#[trigger] n[a]).0@ != (
                #[trigger] n[b]).0@ by {
                    if b == n.len() - 1 {
                        assert(n[a] == e[a]);
                    } else {
                        assert(n[a] == e[a] && n[b] == e[b]);
                    }
                }
            }
        }
    }

    /// The handler registered for `uri`, if any.
    pub fn handler(&self, uri: &String) -> (r: Option<&H>)
        requires
            self.wf(),
        ensures
            match r {
                Some(h) => self.handler_map().contains_key(uri@) && *h == self.handler_map()[uri@],
                None => !self.handler_map().contains_key(uri@),
            },
    {
        let mut i: usize = 0;
        while i < self.handlers.len()
            invariant
                self.wf(),
                0 <= i <= self.handlers@.len(),
                forall|j: int| 0 <= j < i ==> (#[trigger] self.handlers@[j]).0@ != uri@,
            decreases self.handlers@.len() - i,
        {
            if self.handlers[i].0 == *uri {
                proof {
                    lemma_entries_map_value(self.handlers@, i as int);
                }
                return Some(&self.handlers[i].1);
            }
            i = i + 1;
        }
        proof {
            lemma_entries_map_dom(self.handlers@, uri@);
        }
        None
    }

    /// Decides where `request` goes: to the handler of its URI; failing
    /// that, when the URI names a file, to that file under the base path;
    /// failing that, to the not-found response.
    pub fn route(&self, request: &HttpRequest) -> (r: Route<'_, H>)
        requires
            self.wf(),
        ensures
            match r {
                Route::Handler(h) => self.handler_map().contains_key(request.uri@) && *h
                    == self.handler_map()[request.uri@],
                Route::StaticFile(p) => !self.handler_map().contains_key(request.uri@)
                    && is_file_name(wire(request.uri@)) && p@ == self.base_path() + request.uri@,
                Route::NotFound => !self.handler_map().contains_key(request.uri@) && !is_file_name(
                    wire(request.uri@),
                ),
            },
    {
        match self.handler(&request.uri) {
            Some(h) => Route::Handler(h),
            None => {
                if has_file_extension(request.uri.as_str()) {
                    let path = self.resources_base_path.clone().concat(request.uri.as_str());
                    Route::StaticFile(path)
                } else {
                    Route::NotFound
                }
            },
        }
    }
}

/// The response that says the request's resource does not exist.
pub fn not_found(request: &HttpRequest) -> (r: HttpResponse)
    ensures
        r.protocol@ == request.protocol@,
        r.status_code == 404,
        r.reason_phrase@ == "Not Found"@,
        r.headers@.len() == 0,
        r.body is None,
{
    response(request, 404, String::from_str("Not Found"), &Vec::new(), None)
}

/// The answer of the root page: status 200 and nothing else.
pub fn handle_root(request: &HttpRequest) -> (r: HttpResponse)
    ensures
        r.protocol@ == request.protocol@,
        r.status_code == 200,
        r.reason_phrase@ == "OK"@,
        r.headers@.len() == 0,
        r.body is None,
{
    response(request, 200, String::from_str("OK"), &Vec::new(), None)
}

/// The response for a static file: its contents with status 200 when it
/// could be read, the not-found response when not.
pub fn static_file_response(request: &HttpRequest, contents: Option<Vec<u8>>) -> (r: HttpResponse)
    ensures
        r.protocol@ == request.protocol@,
        r.headers@.len() == 0,
        match contents {
            Some(c) => r.status_code == 200 && r.reason_phrase@ == "OK"@ && r.body == Some(c),
            None => r.status_code == 404 && r.reason_phrase@ == "Not Found"@ && r.body is None,
        },
{
    match contents {
        Some(c) => response(request, 200, String::from_str("OK"), &Vec::new(), Some(c)),
        None => not_found(request),
    }
}

} // verus!

verus! {

/// The wire form of a response to a request made with `protocol`, with
/// status `code` and `reason`, no header lines, and `body`.
pub open spec fn plain_reply(protocol: Seq<char>, code: nat, reason: Seq<char>, body: Seq<u8>) -> Seq<u8> {
    wire(protocol) + seq![crate::bytes::SP] + crate::message::decimal(code) + seq![crate::bytes::SP]
        + wire(reason) + crate::message::crlf() + crate::message::crlf() + body
}

/// What the static-file path sends for file contents `c` (`None`: the file
/// could not be read).
pub open spec fn static_reply(protocol: Seq<char>, c: Option<Vec<u8>>) -> Seq<u8> {
    match c {
        Some(b) => plain_reply(protocol, 200, "OK"@, b@),
        None => plain_reply(protocol, 404, "Not Found"@, seq![]),
    }
}

proof fn lemma_plain_reply(r: &HttpResponse)
    requires
        r.headers@.len() == 0,
    ensures
        serialized(r) == plain_reply(
            r.protocol@,
            r.status_code as nat,
            r.reason_phrase@,
            match r.body {
                Some(b) => b@,
                None => seq![],
            },
        ),
{
    assert(crate::message::wire_lines(r.headers@) =~= seq![]);
    assert(crate::message::header_block(crate::message::wire_lines(r.headers@)) =~= seq![]);
    assert(serialized(r) =~= plain_reply(
        r.protocol@,
        r.status_code as nat,
        r.reason_phrase@,
        match r.body {
            Some(b) => b@,
            None => seq![],
        },
    ));
}

impl<H: Fn(&HttpRequest) -> HttpResponse> Http<H> {
    /// Produces the bytes to send back for `request`: the serialized
    /// response of its handler; failing that, for a URI that names a file,
    /// the file's contents (read through `read_file`, which gives `None`
    /// for a file that cannot be read) or a 404; failing that, a 404.
    /// `read_file` is called only on the static-file path.
    pub fn handle<F: Fn(&String) -> Option<Vec<u8>>>(&self, request: &HttpRequest, read_file: F) -> (r: Vec<u8>)
        requires
            self.wf(),
            self.handler_map().contains_key(request.uri@) ==> self.handler_map()[request.uri@].requires((request,)),
            forall|p: &String| read_file.requires((p,)),
        ensures
            self.handler_map().contains_key(request.uri@) ==> exists|resp: HttpResponse|
                self.handler_map()[request.uri@].ensures((request,), resp) && r@ == serialized(&resp),
            !self.handler_map().contains_key(request.uri@) && is_file_name(wire(request.uri@))
                ==> exists|p: String, c: Option<Vec<u8>>|
                p@ == self.base_path() + request.uri@ && read_file.ensures((&p,), c) && r@
                    == static_reply(request.protocol@, c),
            !self.handler_map().contains_key(request.uri@) && !is_file_name(wire(request.uri@))
                ==> r@ == plain_reply(request.protocol@, 404, "Not Found"@, seq![]),
    {
        match self.route(request) {
            Route::Handler(h) => {
                let resp = h(request);
                resp.to_bytes()
            },
            Route::StaticFile(path) => {
                let contents = read_file(&path);
                let ghost c = contents;
                let resp = static_file_response(request, contents);
                proof {
                    lemma_plain_reply(&resp);
                }
                let r = resp.to_bytes();
                assert(r@ == static_reply(request.protocol@, c));
                r
            },
            Route::NotFound => {
                let resp = not_found(request);
                proof {
                    lemma_plain_reply(&resp);
                }
                resp.to_bytes()
            },
        }
    }
}

} // verus!
