use std::collections::HashMap;

use http_server::request::{HttpMethod, HttpRequest, ParseError};
use http_server::response::{create_response, HttpResponse, HttpStatusCode};
use http_server::router::{is_safe_name, read_reply, respond_to, route, write_reply, Action, FileRead};

fn text(b: &[u8]) -> String {
    String::from_utf8(b.to_vec()).unwrap()
}

/// Runs one request against an in-memory file store and gives the bytes sent back.
fn serve(store: &mut HashMap<Vec<u8>, Vec<u8>>, raw: &str) -> String {
    let response = match respond_to(raw.as_bytes()) {
        Action::Reply(r) => r,
        Action::ReadFile(name) => match store.get(&name) {
            Some(b) => read_reply(FileRead::Found(b.clone())),
            None => read_reply(FileRead::Absent),
        },
        Action::WriteFile(name, body) => {
            store.insert(name, body);
            write_reply(true)
        }
    };
    text(&response.to_bytes())
}

fn serve_once(raw: &str) -> String {
    serve(&mut HashMap::new(), raw)
}

#[test]
fn parse_recovers_request_line_and_headers() {
    let raw = "GET /echo/abc HTTP/1.1\r\nHost: localhost:4221\r\n  User-Agent :  curl/8.0  \r\n\r\n";
    let q = HttpRequest::parse(raw.as_bytes()).unwrap();
    assert_eq!(q.method, HttpMethod::Get);
    assert_eq!(q.path, b"/echo/abc".to_vec());
    assert_eq!(q.version, b"HTTP/1.1".to_vec());
    assert_eq!(q.header(b"user-agent").unwrap(), &b"curl/8.0".to_vec());
    assert_eq!(q.header(b"host").unwrap(), &b"localhost:4221".to_vec());
    assert!(q.header(b"accept").is_none());
    assert!(q.body.is_empty());
}

#[test]
fn parse_later_duplicate_header_wins() {
    let raw = "GET / HTTP/1.1\r\nX-Tag: first\r\nx-tag: second\r\n\r\n";
    let q = HttpRequest::parse(raw.as_bytes()).unwrap();
    assert_eq!(q.header(b"x-tag").unwrap(), &b"second".to_vec());
}

#[test]
fn parse_tolerates_bare_line_feeds_and_bad_headers() {
    let raw = "POST /files/x HTTP/1.0\nno colon here\nA: b\n\nhello\n\nworld\n";
    let q = HttpRequest::parse(raw.as_bytes()).unwrap();
    assert_eq!(q.method, HttpMethod::Post);
    assert_eq!(q.version, b"HTTP/1.0".to_vec());
    assert_eq!(q.header(b"a").unwrap(), &b"b".to_vec());
    assert_eq!(q.body, b"helloworld".to_vec());
}

#[test]
fn parse_get_has_no_body() {
    let q = HttpRequest::parse("GET / HTTP/1.1\r\n\r\nignored".as_bytes()).unwrap();
    assert!(q.body.is_empty());
}

#[test]
fn parse_rejects_short_request_line() {
    assert!(matches!(HttpRequest::parse(b"GET /\r\n\r\n"), Err(ParseError::MalformedRequestLine)));
    assert!(matches!(HttpRequest::parse(b""), Err(ParseError::MalformedRequestLine)));
}

#[test]
fn parse_rejects_unknown_method() {
    assert!(matches!(HttpRequest::parse(b"PUT / HTTP/1.1\r\n\r\n"), Err(ParseError::UnknownMethod)));
}

#[test]
fn root_is_ok_without_body() {
    assert_eq!(serve_once("GET / HTTP/1.1\r\n\r\n"), "HTTP/1.1 200 OK\r\n\r\n\r\n");
}

#[test]
fn echo_returns_rest_of_path() {
    assert_eq!(
        serve_once("GET /echo/foo/bar HTTP/1.1\r\n\r\n"),
        "HTTP/1.1 200 OK\r\nContent-Type: text/plain\r\nContent-Length: 7\r\n\r\nfoo/bar"
    );
}

#[test]
fn user_agent_is_reflected() {
    let out = serve_once("GET /user-agent HTTP/1.1\r\nUser-Agent: curl/8.0\r\n\r\n");
    assert_eq!(out, "HTTP/1.1 200 OK\r\nContent-Type: text/plain\r\nContent-Length: 8\r\n\r\ncurl/8.0");
}

#[test]
fn missing_user_agent_is_bad_request() {
    assert_eq!(serve_once("GET /user-agent HTTP/1.1\r\n\r\n"), "HTTP/1.1 400 BAD REQUEST\r\n\r\n\r\n");
}

#[test]
fn written_file_is_read_back() {
    let mut store = HashMap::new();
    let w = serve(&mut store, "POST /files/a.txt HTTP/1.1\r\nContent-Length: 2\r\n\r\nhi");
    assert_eq!(w, "HTTP/1.1 201 NO CONTENT\r\n\r\n\r\n");
    let r = serve(&mut store, "GET /files/a.txt HTTP/1.1\r\n\r\n");
    assert_eq!(
        r,
        "HTTP/1.1 200 OK\r\nContent-Type: application/octet-stream\r\nContent-Length: 2\r\n\r\nhi"
    );
}

#[test]
fn missing_file_is_not_found() {
    assert_eq!(serve_once("GET /files/missing.txt HTTP/1.1\r\n\r\n"), "HTTP/1.1 404 NOT FOUND\r\n\r\n\r\n");
}

#[test]
fn unmatched_path_is_not_found_for_any_method() {
    assert_eq!(serve_once("GET /nope HTTP/1.1\r\n\r\n"), "HTTP/1.1 404 NOT FOUND\r\n\r\n\r\n");
    assert_eq!(serve_once("POST /nope HTTP/1.1\r\n\r\n"), "HTTP/1.1 404 NOT FOUND\r\n\r\n\r\n");
    assert_eq!(serve_once("GET nope HTTP/1.1\r\n\r\n"), "HTTP/1.1 404 NOT FOUND\r\n\r\n\r\n");
    assert_eq!(serve_once("POST /echo/x HTTP/1.1\r\n\r\n"), "HTTP/1.1 404 NOT FOUND\r\n\r\n\r\n");
}

#[test]
fn unparseable_request_is_internal_error() {
    assert_eq!(serve_once("garbage\r\n\r\n"), "HTTP/1.1 500 INTERNAL SERVER ERROR\r\n\r\n\r\n");
}

#[test]
fn content_length_counts_bytes() {
    let body = "h\u{e9}llo \u{1f600}";
    let out = create_response(HttpStatusCode::Okay, b"text/plain", body.as_bytes());
    let expected = format!("HTTP/1.1 200 OK\r\nContent-Type: text/plain\r\nContent-Length: 11\r\n\r\n{}", body);
    assert_eq!(text(&out), expected);
    let echoed = serve_once("GET /echo/\u{e9}\u{e9} HTTP/1.1\r\n\r\n");
    assert!(echoed.contains("Content-Length: 4\r\n"));
}

#[test]
fn create_response_without_body_has_no_headers() {
    let out = create_response(HttpStatusCode::Created, b"text/plain", b"");
    assert_eq!(text(&out), "HTTP/1.1 201 NO CONTENT\r\n\r\n\r\n");
}

#[test]
fn status_codes_and_texts() {
    assert_eq!(HttpStatusCode::Okay.code(), 200);
    assert_eq!(HttpStatusCode::Created.code(), 201);
    assert_eq!(HttpStatusCode::BadRequest.code(), 400);
    assert_eq!(HttpStatusCode::NotFound.code(), 404);
    assert_eq!(HttpStatusCode::InternalServerError.code(), 500);
    assert_eq!(HttpStatusCode::NotFound.text(), "404 NOT FOUND");
}

#[test]
fn file_store_failures_are_internal_errors() {
    assert_eq!(text(&read_reply(FileRead::Failed).to_bytes()), "HTTP/1.1 500 INTERNAL SERVER ERROR\r\n\r\n\r\n");
    assert_eq!(text(&write_reply(false).to_bytes()), "HTTP/1.1 500 INTERNAL SERVER ERROR\r\n\r\n\r\n");
}

#[test]
fn file_names_outside_the_store_are_rejected() {
    assert!(is_safe_name(b"a.txt"));
    assert!(is_safe_name(b"dir/a..b"));
    assert!(!is_safe_name(b""));
    assert!(!is_safe_name(b"/etc/passwd"));
    assert!(!is_safe_name(b"../secret"));
    assert!(!is_safe_name(b"a/../../b"));
    assert!(!is_safe_name(b"a/.."));
    assert_eq!(serve_once("GET /files/../x HTTP/1.1\r\n\r\n"), "HTTP/1.1 400 BAD REQUEST\r\n\r\n\r\n");
    assert_eq!(serve_once("POST /files/ HTTP/1.1\r\n\r\nx"), "HTTP/1.1 400 BAD REQUEST\r\n\r\n\r\n");
}

#[test]
fn route_hands_file_actions_back() {
    let q = HttpRequest::parse(b"POST /files/d/e.bin HTTP/1.1\r\n\r\nab\r\ncd\r\n").unwrap();
    match route(&q) {
        Action::WriteFile(name, body) => {
            assert_eq!(name, b"d/e.bin".to_vec());
            assert_eq!(body, b"abcd".to_vec());
        }
        _ => panic!("expected a write"),
    }
    let q = HttpRequest::parse(b"GET /files/e.bin HTTP/1.1\r\n\r\n").unwrap();
    assert!(matches!(route(&q), Action::ReadFile(n) if n == b"e.bin".to_vec()));
}

#[test]
fn long_body_gets_multi_digit_length() {
    let body = vec![b'x'; 1234];
    let out = create_response(HttpStatusCode::Okay, b"application/octet-stream", &body);
    let head = "HTTP/1.1 200 OK\r\nContent-Type: application/octet-stream\r\nContent-Length: 1234\r\n\r\n";
    assert_eq!(out.len(), head.len() + 1234);
    assert_eq!(text(&out[..head.len()]), head);
}

#[test]
fn body_needs_a_content_type_on_one_line() {
    let ok = HttpResponse { status: HttpStatusCode::Okay, content_type: b"text/plain".to_vec(), body: b"x".to_vec() };
    assert!(ok.is_well_formed());
    let untyped = HttpResponse { status: HttpStatusCode::Okay, content_type: Vec::new(), body: b"x".to_vec() };
    assert!(!untyped.is_well_formed());
    let broken = HttpResponse { status: HttpStatusCode::Okay, content_type: b"a\r\nb".to_vec(), body: b"x".to_vec() };
    assert!(!broken.is_well_formed());
    let empty = HttpResponse { status: HttpStatusCode::NotFound, content_type: Vec::new(), body: Vec::new() };
    assert!(empty.is_well_formed());
}
