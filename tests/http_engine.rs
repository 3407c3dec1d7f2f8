use std::cell::Cell;

use http::message::{response, HttpRequest, HttpResponse};
use http::method::Method;
use http::parse::{http_parse, ParseError};
use http::server::{has_file_extension, not_found, static_file_response, Http, Route};

type Handler = fn(&HttpRequest) -> HttpResponse;

fn get(uri: &str) -> HttpRequest {
    HttpRequest {
        protocol: "HTTP/1.1".to_string(),
        method: Method::Get,
        uri: uri.to_string(),
        headers: vec![],
        body: vec![],
    }
}

fn ok_handler(request: &HttpRequest) -> HttpResponse {
    response(request, 200, "OK".to_string(), &vec![], Some(b"ok".to_vec()))
}

fn handler_a(request: &HttpRequest) -> HttpResponse {
    response(request, 200, "A".to_string(), &vec![], None)
}

fn handler_b(request: &HttpRequest) -> HttpResponse {
    response(request, 201, "B".to_string(), &vec![], None)
}

fn no_files(_p: &String) -> Option<Vec<u8>> {
    None
}

#[test]
fn parses_request_line_and_keeps_header_order() {
    let input = b"GET /index HTTP/1.1\r\nHost: example\r\nAccept: */*\r\nX-Dup: 1\r\nX-Dup: 2\r\n\r\n";
    let r = http_parse(input).unwrap();
    assert_eq!(r.method, Method::Get);
    assert_eq!(r.uri, "/index");
    assert_eq!(r.protocol, "HTTP/1.1");
    assert_eq!(r.headers, vec!["Host: example", "Accept: */*", "X-Dup: 1", "X-Dup: 2"]);
    assert!(r.body.is_empty());
}

#[test]
fn accepts_bare_line_feeds() {
    let r = http_parse(b"POST /a HTTP/1.0\nA: b\n\n").unwrap();
    assert_eq!(r.method, Method::Post);
    assert_eq!(r.protocol, "HTTP/1.0");
    assert_eq!(r.headers, vec!["A: b"]);
}

#[test]
fn truncated_body_is_an_error() {
    let input = b"POST /x HTTP/1.1\r\nContent-Length: 5\r\n\r\nabc";
    assert_eq!(http_parse(input).unwrap_err(), ParseError::BodyTruncated);
}

#[test]
fn body_without_content_length_is_empty() {
    let input = b"GET /x HTTP/1.1\r\nHost: a\r\n\r\ntrailing bytes";
    let r = http_parse(input).unwrap();
    assert!(r.body.is_empty());
}

#[test]
fn body_is_exactly_content_length_bytes() {
    let input = b"POST /x HTTP/1.1\r\ncontent-LENGTH:   5\r\n\r\nhello world";
    let r = http_parse(input).unwrap();
    assert_eq!(r.body, b"hello".to_vec());
    assert_eq!(r.headers, vec!["content-LENGTH:   5"]);
}

#[test]
fn last_content_length_counts() {
    let input = b"POST /x HTTP/1.1\r\nContent-Length: 9\r\nContent-Length: 2\r\n\r\nabc";
    assert_eq!(http_parse(input).unwrap().body, b"ab".to_vec());
}

#[test]
fn binary_body_is_kept() {
    let input = b"PUT /x HTTP/1.1\r\nContent-Length: 3\r\n\r\n\xff\x00\xfe";
    assert_eq!(http_parse(input).unwrap().body, vec![0xff, 0x00, 0xfe]);
}

#[test]
fn unparseable_content_length_is_zero() {
    let r = http_parse(b"POST /x HTTP/1.1\r\nContent-Length: five\r\n\r\nabc").unwrap();
    assert!(r.body.is_empty());
    let r = http_parse(b"POST /x HTTP/1.1\r\nContent-Length:\r\n\r\nabc").unwrap();
    assert!(r.body.is_empty());
}

#[test]
fn huge_content_length_is_truncated() {
    let input = b"POST /x HTTP/1.1\r\nContent-Length: 99999999999999999999999999\r\n\r\nabc";
    assert_eq!(http_parse(input).unwrap_err(), ParseError::BodyTruncated);
}

#[test]
fn request_line_needs_three_tokens() {
    assert_eq!(
        http_parse(b"GET /x\r\n\r\n").unwrap_err(),
        ParseError::MalformedRequestLine
    );
    assert_eq!(
        http_parse(b"GET /x HTTP/1.1 extra\r\n\r\n").unwrap_err(),
        ParseError::MalformedRequestLine
    );
    assert_eq!(http_parse(b"\r\n\r\n").unwrap_err(), ParseError::MalformedRequestLine);
}

#[test]
fn unknown_method_is_malformed() {
    assert_eq!(
        http_parse(b"FETCH /x HTTP/1.1\r\n\r\n").unwrap_err(),
        ParseError::MalformedRequestLine
    );
    assert_eq!(
        http_parse(b"get /x HTTP/1.1\r\n\r\n").unwrap_err(),
        ParseError::MalformedRequestLine
    );
}

#[test]
fn every_method_is_recognised() {
    let names = ["GET", "HEAD", "POST", "PUT", "DELETE", "CONNECT", "OPTIONS", "TRACE", "PATCH"];
    let all = Method::all();
    for (name, m) in names.iter().zip(all.iter()) {
        assert_eq!(Method::from_token(name.as_bytes()), Some(*m));
        assert_eq!(m.name_bytes(), name.as_bytes().to_vec());
        let input = format!("{} / HTTP/1.1\r\n\r\n", name);
        assert_eq!(http_parse(input.as_bytes()).unwrap().method, *m);
    }
}

#[test]
fn incomplete_requests() {
    assert_eq!(http_parse(b"").unwrap_err(), ParseError::IncompleteRequest);
    assert_eq!(http_parse(b"GET / HTTP/1.1").unwrap_err(), ParseError::IncompleteRequest);
    assert_eq!(
        http_parse(b"GET / HTTP/1.1\r\nHost: a\r\n").unwrap_err(),
        ParseError::IncompleteRequest
    );
}

#[test]
fn header_that_is_not_text() {
    assert_eq!(
        http_parse(b"GET / HTTP/1.1\r\nX: \xff\r\n\r\n").unwrap_err(),
        ParseError::NotText
    );
}

#[test]
fn serializes_start_line_headers_and_body() {
    let r = HttpResponse {
        protocol: "HTTP/1.1".to_string(),
        status_code: 200,
        reason_phrase: "OK".to_string(),
        headers: vec!["Content-Type: text/plain".to_string(), "X: y".to_string()],
        body: Some(b"hi".to_vec()),
    };
    assert_eq!(
        r.to_bytes(),
        b"HTTP/1.1 200 OK\r\nContent-Type: text/plain\r\nX: y\r\n\r\nhi".to_vec()
    );
    assert_eq!(
        r.to_string(),
        Some("HTTP/1.1 200 OK\r\nContent-Type: text/plain\r\nX: y\r\n\r\nhi".to_string())
    );
}

#[test]
fn serializes_status_digits() {
    let mut r = not_found(&get("/"));
    assert_eq!(r.to_bytes(), b"HTTP/1.1 404 Not Found\r\n\r\n".to_vec());
    r.status_code = 0;
    assert_eq!(r.to_bytes(), b"HTTP/1.1 0 Not Found\r\n\r\n".to_vec());
    r.status_code = 65535;
    assert_eq!(r.to_bytes(), b"HTTP/1.1 65535 Not Found\r\n\r\n".to_vec());
}

#[test]
fn to_string_refuses_binary_body() {
    let r = HttpResponse {
        protocol: "HTTP/1.1".to_string(),
        status_code: 200,
        reason_phrase: "OK".to_string(),
        headers: vec![],
        body: Some(vec![0xff]),
    };
    assert_eq!(r.to_string(), None);
}

#[test]
fn serialized_head_reads_back() {
    let r = HttpResponse {
        protocol: "HTTP/1.1".to_string(),
        status_code: 302,
        reason_phrase: "Found It".to_string(),
        headers: vec!["Location: /b".to_string(), "Location: /b".to_string()],
        body: Some(b"ignored".to_vec()),
    };
    let bytes = r.to_bytes();
    let text = String::from_utf8(bytes).unwrap();
    let head = text.split("\r\n\r\n").next().unwrap();
    let mut lines = head.split("\r\n");
    let start: Vec<&str> = lines.next().unwrap().splitn(3, ' ').collect();
    assert_eq!(start, vec!["HTTP/1.1", "302", "Found It"]);
    let headers: Vec<&str> = lines.collect();
    assert_eq!(headers, vec!["Location: /b", "Location: /b"]);
}

#[test]
fn response_echoes_protocol() {
    let mut req = get("/");
    req.protocol = "HTTP/1.0".to_string();
    let r = response(&req, 500, "Oops".to_string(), &vec!["A: b".to_string()], None);
    assert_eq!(r.protocol, "HTTP/1.0");
    assert_eq!(r.headers, vec!["A: b"]);
    assert_eq!(r.to_bytes(), b"HTTP/1.0 500 Oops\r\nA: b\r\n\r\n".to_vec());
}

#[test]
fn last_registration_wins() {
    let req = get("/same");
    let mut http: Http<Handler> = Http::new("/srv".to_string());
    http.register_handler("/same".to_string(), handler_a);
    http.register_handler("/same".to_string(), handler_b);
    assert_eq!(http.handle(&req, no_files), b"HTTP/1.1 201 B\r\n\r\n".to_vec());

    let mut http: Http<Handler> = Http::new("/srv".to_string());
    http.register_handler("/same".to_string(), handler_b);
    http.register_handler("/same".to_string(), handler_a);
    assert_eq!(http.handle(&req, no_files), b"HTTP/1.1 200 A\r\n\r\n".to_vec());
}

#[test]
fn handler_lookup_is_exact() {
    let mut http: Http<Handler> = Http::new("/srv".to_string());
    http.register_handler("/a".to_string(), handler_a);
    assert!(http.handler(&"/a".to_string()).is_some());
    assert!(http.handler(&"/a/".to_string()).is_none());
    assert!(http.handler(&"/A".to_string()).is_none());
}

#[test]
fn registered_handler_answers() {
    let mut http: Http<Handler> = Http::new("/srv".to_string());
    http.register_handler("/index".to_string(), ok_handler);
    let req = http_parse(b"GET /index HTTP/1.1\r\n\r\n").unwrap();
    assert_eq!(http.handle(&req, no_files), b"HTTP/1.1 200 OK\r\n\r\nok".to_vec());
}

#[test]
fn static_file_is_served() {
    let http: Http<Handler> = Http::new("/srv/www".to_string());
    let req = get("/logo.png");
    let seen = Cell::new(String::new());
    let reply = http.handle(&req, |p: &String| {
        seen.set(p.clone());
        if p == "/srv/www/logo.png" {
            Some(b"PNGDATA".to_vec())
        } else {
            None
        }
    });
    assert_eq!(seen.take(), "/srv/www/logo.png");
    assert_eq!(reply, b"HTTP/1.1 200 OK\r\n\r\nPNGDATA".to_vec());
}

#[test]
fn missing_static_file_is_not_found() {
    let http: Http<Handler> = Http::new("/srv/www".to_string());
    let mut req = get("/logo.png");
    req.protocol = "HTTP/1.0".to_string();
    assert_eq!(http.handle(&req, no_files), b"HTTP/1.0 404 Not Found\r\n\r\n".to_vec());
    let r = static_file_response(&req, None);
    assert_eq!(r.status_code, 404);
    let r = static_file_response(&req, Some(b"x".to_vec()));
    assert_eq!(r.status_code, 200);
    assert_eq!(r.body, Some(b"x".to_vec()));
}

#[test]
fn non_file_uri_reads_nothing() {
    let http: Http<Handler> = Http::new("/srv/www".to_string());
    let req = get("/missing");
    let calls = Cell::new(0u32);
    let reply = http.handle(&req, |_p: &String| {
        calls.set(calls.get() + 1);
        Some(b"never".to_vec())
    });
    assert_eq!(calls.get(), 0);
    assert_eq!(reply, b"HTTP/1.1 404 Not Found\r\n\r\n".to_vec());
    assert!(matches!(http.route(&req), Route::NotFound));
}

#[test]
fn handler_takes_precedence_over_files() {
    let mut http: Http<Handler> = Http::new("/srv".to_string());
    http.register_handler("/logo.png".to_string(), handler_a);
    let req = get("/logo.png");
    assert!(matches!(http.route(&req), Route::Handler(_)));
    let calls = Cell::new(0u32);
    let reply = http.handle(&req, |_p: &String| {
        calls.set(calls.get() + 1);
        None
    });
    assert_eq!(calls.get(), 0);
    assert_eq!(reply, b"HTTP/1.1 200 A\r\n\r\n".to_vec());
}

#[test]
fn route_builds_static_path() {
    let http: Http<Handler> = Http::new("/base".to_string());
    match http.route(&get("/css/site.css")) {
        Route::StaticFile(p) => assert_eq!(p, "/base/css/site.css"),
        _ => panic!("expected a static file"),
    }
}

#[test]
fn file_extension_heuristic() {
    assert!(has_file_extension("/logo.png"));
    assert!(has_file_extension("a.b"));
    assert!(!has_file_extension("/missing"));
    assert!(!has_file_extension(".png"));
    assert!(!has_file_extension("/logo."));
    assert!(!has_file_extension("/a.b/c"));
    assert!(!has_file_extension("/a.b\\c"));
    assert!(!has_file_extension(""));
    assert!(has_file_extension("/v1.2/x.tar.gz"));
}

#[test]
fn root_handler_answers_ok() {
    let mut req = get("/");
    req.protocol = "HTTP/1.0".to_string();
    let r = http::server::handle_root(&req);
    assert_eq!(r.to_bytes(), b"HTTP/1.0 200 OK\r\n\r\n".to_vec());
}
