use std::io::Read;

use http_server::compression::compress;
use http_server::request::{ParseOutcome, Request};
use http_server::response::{Response, ResponseStatus};
use http_server::router::{file_read, file_written, route, Action};

fn parse_ok(bytes: &[u8]) -> Request {
    match Request::parse(bytes) {
        ParseOutcome::Complete(r) => r,
        ParseOutcome::Incomplete => panic!("incomplete"),
        ParseOutcome::Malformed => panic!("malformed"),
    }
}

fn respond(req: &[u8]) -> Response {
    let request = parse_ok(req);
    match route(&request, b"/srv") {
        Action::Respond(r) => r,
        Action::ReadFile(_) => panic!("unexpected read"),
        Action::WriteFile(_, _) => panic!("unexpected write"),
    }
}

fn header<'a>(r: &'a Response, key: &[u8]) -> Option<&'a [u8]> {
    r.headers.iter().find(|(k, _)| k.as_slice() == key).map(|(_, v)| v.as_slice())
}

fn gunzip(data: &[u8]) -> Vec<u8> {
    let mut out = Vec::new();
    flate2::read::GzDecoder::new(data).read_to_end(&mut out).unwrap();
    out
}

#[test]
fn parse_request_line_and_headers() {
    let r = parse_ok(b"GET /index.html HTTP/1.1\r\nHost: localhost\r\nUser-Agent: curl/8\r\n\r\n");
    assert_eq!(r.line, b"GET /index.html HTTP/1.1".to_vec());
    assert_eq!(r.headers, vec![b"Host: localhost".to_vec(), b"User-Agent: curl/8".to_vec()]);
    assert_eq!(r.body, None);
}

#[test]
fn parse_accepts_bare_line_feeds() {
    let r = parse_ok(b"GET / HTTP/1.1\nHost: a\n\n");
    assert_eq!(r.line, b"GET / HTTP/1.1".to_vec());
    assert_eq!(r.headers, vec![b"Host: a".to_vec()]);
}

#[test]
fn parse_reads_exactly_content_length_bytes() {
    let r = parse_ok(b"POST /files/a HTTP/1.1\r\nContent-Length: 5\r\n\r\nhelloEXTRA");
    assert_eq!(r.body, Some(b"hello".to_vec()));
}

#[test]
fn parse_zero_content_length_has_no_body() {
    let r = parse_ok(b"POST /files/a HTTP/1.1\r\nContent-Length: 0\r\n\r\n");
    assert_eq!(r.body, None);
}

#[test]
fn parse_without_empty_line_is_incomplete() {
    assert!(matches!(Request::parse(b"GET / HTTP/1.1\r\nHost: a\r\n"), ParseOutcome::Incomplete));
    assert!(matches!(Request::parse(b""), ParseOutcome::Incomplete));
}

#[test]
fn parse_short_body_is_incomplete() {
    let out = Request::parse(b"POST /x HTTP/1.1\r\nContent-Length: 10\r\n\r\nabc");
    assert!(matches!(out, ParseOutcome::Incomplete));
}

#[test]
fn parse_bad_content_length_is_malformed() {
    let bad: [&[u8]; 4] = [
        b"POST /x HTTP/1.1\r\nContent-Length: abc\r\n\r\n",
        b"POST /x HTTP/1.1\r\nContent-Length: -1\r\n\r\n",
        b"POST /x HTTP/1.1\r\nContent-Length:5\r\n\r\n",
        b"POST /x HTTP/1.1\r\nContent-Length: 99999999999999999999999\r\n\r\n",
    ];
    for b in bad {
        assert!(matches!(Request::parse(b), ParseOutcome::Malformed));
    }
}

#[test]
fn parse_content_length_with_plus_sign() {
    let r = parse_ok(b"POST /x HTTP/1.1\r\nContent-Length: +2\r\n\r\nok");
    assert_eq!(r.body, Some(b"ok".to_vec()));
}

#[test]
fn parse_empty_request_line_is_malformed() {
    assert!(matches!(Request::parse(b"\r\nHost: a\r\n\r\n"), ParseOutcome::Malformed));
}

#[test]
fn get_path_takes_second_token() {
    let r = parse_ok(b"GET /echo/abc HTTP/1.1\r\n\r\n");
    assert_eq!(r.get_path(), Some(b"/echo/abc".to_vec()));
    let r = parse_ok(b"GET\r\n\r\n");
    assert_eq!(r.get_path(), None);
}

#[test]
fn get_header_first_prefix_match_and_remainder() {
    let r = parse_ok(b"GET / HTTP/1.1\r\nX-A: one: two\r\nX-A: three\r\nX-B:\r\n\r\n");
    assert_eq!(r.get_header(b"X-A"), Some(b"one: two".to_vec()));
    assert_eq!(r.get_header(b"X-B"), None);
    assert_eq!(r.get_header(b"x-a"), None);
    assert_eq!(r.get_header(b"Missing"), None);
}

#[test]
fn add_header_replaces_existing_value() {
    let mut r = Response::new(ResponseStatus::Success);
    r.add_header(b"A", b"1");
    r.add_header(b"B", b"2");
    r.add_header(b"A", b"3");
    assert_eq!(r.headers, vec![(b"A".to_vec(), b"3".to_vec()), (b"B".to_vec(), b"2".to_vec())]);
}

#[test]
fn status_lines() {
    assert_eq!(ResponseStatus::Success.status_line(), b"HTTP/1.1 200 OK".to_vec());
    assert_eq!(ResponseStatus::Created.status_line(), b"HTTP/1.1 201 Created".to_vec());
    assert_eq!(ResponseStatus::NotFound.status_line(), b"HTTP/1.1 404 Not Found".to_vec());
}

#[test]
fn to_bytes_empty_response() {
    assert_eq!(Response::new(ResponseStatus::NotFound).to_bytes(), b"HTTP/1.1 404 Not Found\r\n\r\n".to_vec());
}

#[test]
fn to_bytes_computes_content_length() {
    let mut r = Response::new(ResponseStatus::Success);
    r.add_header(b"Content-Type", b"text/plain");
    r.add_header(b"Content-Length", b"999");
    r.add_body(b"abc");
    assert_eq!(
        r.to_bytes(),
        b"HTTP/1.1 200 OK\r\nContent-Type: text/plain\r\nContent-Length: 3\r\n\r\nabc".to_vec()
    );
}

#[test]
fn to_bytes_large_length_in_decimal() {
    let mut r = Response::new(ResponseStatus::Success);
    r.add_body(&vec![b'x'; 1234]);
    let bytes = r.to_bytes();
    assert!(bytes.starts_with(b"HTTP/1.1 200 OK\r\nContent-Length: 1234\r\n\r\n"));
    assert_eq!(bytes.len(), 41 + 1234);
}

#[test]
fn compress_selects_gzip_from_list() {
    let mut r = Response::new(ResponseStatus::Success);
    r.compress(b"deflate,  gzip , br");
    assert_eq!(header(&r, b"Content-Encoding"), Some(&b"gzip"[..]));
}

#[test]
fn compress_ignores_unsupported_schemes() {
    let mut r = Response::new(ResponseStatus::Success);
    r.compress(b"deflate, br, gzipx, GZIP");
    assert!(r.headers.is_empty());
}

#[test]
fn add_body_compresses_when_encoding_is_gzip() {
    let mut r = Response::new(ResponseStatus::Success);
    r.compress(b"gzip");
    r.add_body(b"hello hello hello");
    assert_ne!(r.body, b"hello hello hello".to_vec());
    assert_eq!(gunzip(&r.body), b"hello hello hello".to_vec());
}

#[test]
fn add_encoded_body_falls_back_without_encoding() {
    let mut r = Response::new(ResponseStatus::Success);
    r.add_header(b"Content-Type", b"text/plain");
    r.compress(b"gzip");
    r.add_encoded_body(b"abc", None);
    assert_eq!(r.body, b"abc".to_vec());
    assert_eq!(header(&r, b"Content-Encoding"), None);
    assert_eq!(r.headers.len(), 1);
}

#[test]
fn add_encoded_body_uses_compressed_bytes() {
    let mut r = Response::new(ResponseStatus::Success);
    r.compress(b"gzip");
    r.add_encoded_body(b"abc", Some(vec![1, 2, 3, 4]));
    assert_eq!(r.body, vec![1, 2, 3, 4]);
}

#[test]
fn compress_wrapper_gives_gzip_stream() {
    let c = compress(b"data").unwrap();
    assert_eq!(&c[..2], &[0x1f, 0x8b]);
    assert_eq!(gunzip(&c), b"data".to_vec());
}

#[test]
fn content_length_matches_compressed_body() {
    let r = respond(b"GET /echo/abcabcabcabc HTTP/1.1\r\nAccept-Encoding: gzip\r\n\r\n");
    let bytes = r.to_bytes();
    let back = parse_ok(&bytes);
    let declared = back.get_header(b"Content-Length").unwrap();
    assert_eq!(declared, r.body.len().to_string().into_bytes());
    assert_eq!(back.body, Some(r.body.clone()));
}

#[test]
fn response_round_trip_through_parser() {
    let mut r = Response::new(ResponseStatus::Created);
    r.add_header(b"Content-Type", b"text/plain");
    r.add_header(b"X-Id", b"7");
    r.add_body(b"payload");
    let back = parse_ok(&r.to_bytes());
    assert_eq!(back.line, b"HTTP/1.1 201 Created".to_vec());
    assert_eq!(
        back.headers,
        vec![b"Content-Type: text/plain".to_vec(), b"X-Id: 7".to_vec(), b"Content-Length: 7".to_vec()]
    );
    assert_eq!(back.body, Some(b"payload".to_vec()));
}

#[test]
fn route_root() {
    let r = respond(b"GET / HTTP/1.1\r\n\r\n");
    assert_eq!(r.status, ResponseStatus::Success);
    assert!(r.headers.is_empty());
    assert!(r.body.is_empty());
}

#[test]
fn route_echo_returns_segment() {
    let r = respond(b"GET /echo/abc HTTP/1.1\r\n\r\n");
    assert_eq!(r.status, ResponseStatus::Success);
    assert_eq!(r.body, b"abc".to_vec());
    assert_eq!(header(&r, b"Content-Type"), Some(&b"text/plain"[..]));
    assert_eq!(r.to_bytes(), b"HTTP/1.1 200 OK\r\nContent-Type: text/plain\r\nContent-Length: 3\r\n\r\nabc".to_vec());
}

#[test]
fn route_echo_empty_segment() {
    let r = respond(b"GET /echo/ HTTP/1.1\r\n\r\n");
    assert_eq!(r.status, ResponseStatus::Success);
    assert!(r.body.is_empty());
}

#[test]
fn route_echo_gzip_decompresses_to_segment() {
    let r = respond(b"GET /echo/banana HTTP/1.1\r\nAccept-Encoding: foo, gzip\r\n\r\n");
    assert_eq!(header(&r, b"Content-Encoding"), Some(&b"gzip"[..]));
    assert_eq!(gunzip(&r.body), b"banana".to_vec());
}

#[test]
fn route_echo_unsupported_encoding_is_plain() {
    let r = respond(b"GET /echo/banana HTTP/1.1\r\nAccept-Encoding: br\r\n\r\n");
    assert_eq!(header(&r, b"Content-Encoding"), None);
    assert_eq!(r.body, b"banana".to_vec());
}

#[test]
fn route_user_agent() {
    let r = respond(b"GET /user-agent HTTP/1.1\r\nUser-Agent: foo/1.0\r\n\r\n");
    assert_eq!(r.status, ResponseStatus::Success);
    assert_eq!(r.body, b"foo/1.0".to_vec());
}

#[test]
fn route_user_agent_missing() {
    let r = respond(b"GET /user-agent HTTP/1.1\r\nHost: x\r\n\r\n");
    assert_eq!(r.status, ResponseStatus::Success);
    assert_eq!(r.body, b"Unknown".to_vec());
}

#[test]
fn route_post_then_get_file() {
    let post = parse_ok(b"POST /files/report.txt HTTP/1.1\r\nContent-Length: 5\r\n\r\nhello");
    let (written_path, contents) = match route(&post, b"/srv") {
        Action::WriteFile(p, c) => (p, c),
        _ => panic!("expected a write"),
    };
    assert_eq!(written_path, b"/srv/report.txt".to_vec());
    assert_eq!(contents, b"hello".to_vec());
    let created = file_written(true);
    assert_eq!(created.status, ResponseStatus::Created);
    assert!(created.body.is_empty());

    let get = parse_ok(b"GET /files/report.txt HTTP/1.1\r\n\r\n");
    let read_path = match route(&get, b"/srv") {
        Action::ReadFile(p) => p,
        _ => panic!("expected a read"),
    };
    assert_eq!(read_path, written_path);
    let r = file_read(Some(contents));
    assert_eq!(r.status, ResponseStatus::Success);
    assert_eq!(r.body, b"hello".to_vec());
    assert_eq!(header(&r, b"Content-Type"), Some(&b"application/octet-stream"[..]));
}

#[test]
fn route_missing_file_is_not_found() {
    let get = parse_ok(b"GET /files/missing.txt HTTP/1.1\r\n\r\n");
    assert!(matches!(route(&get, b"/srv"), Action::ReadFile(_)));
    let r = file_read(None);
    assert_eq!(r.status, ResponseStatus::NotFound);
    assert!(r.body.is_empty());
    assert_eq!(r.to_bytes(), b"HTTP/1.1 404 Not Found\r\n\r\n".to_vec());
}

#[test]
fn route_post_without_body_is_not_found() {
    let r = respond(b"POST /files/a.txt HTTP/1.1\r\n\r\n");
    assert_eq!(r.status, ResponseStatus::NotFound);
}

#[test]
fn failed_write_is_not_found() {
    let r = file_written(false);
    assert_eq!(r.status, ResponseStatus::NotFound);
    assert!(r.body.is_empty());
}

#[test]
fn route_unknown_is_not_found() {
    for req in [
        &b"DELETE /foo HTTP/1.1\r\n\r\n"[..],
        &b"GET /nothing HTTP/1.1\r\n\r\n"[..],
        &b"GET /echoes HTTP/1.1\r\n\r\n"[..],
        &b"POST /echo/x HTTP/1.1\r\n\r\n"[..],
        &b"GARBAGE\r\n\r\n"[..],
    ] {
        let r = respond(req);
        assert_eq!(r.status, ResponseStatus::NotFound);
        assert!(r.body.is_empty());
        assert!(r.headers.is_empty());
    }
}

#[test]
fn compress_trims_unicode_whitespace() {
    let mut r = Response::new(ResponseStatus::Success);
    r.compress("\u{a0}gzip\u{3000}".as_bytes());
    assert_eq!(header(&r, b"Content-Encoding"), Some(&b"gzip"[..]));
    let mut r = Response::new(ResponseStatus::Success);
    r.compress("br,\u{2003}\tgzip \u{85}".as_bytes());
    assert_eq!(header(&r, b"Content-Encoding"), Some(&b"gzip"[..]));
    let mut r = Response::new(ResponseStatus::Success);
    r.compress("\u{200b}gzip".as_bytes());
    assert!(r.headers.is_empty());
}

#[test]
fn exact_routes_match_whole_request_line() {
    let r = respond(b"GET / HTTP/1.0\r\n\r\n");
    assert_eq!(r.status, ResponseStatus::NotFound);
    let r = respond(b"GET /user-agent HTTP/1.0\r\nUser-Agent: foo/1.0\r\n\r\n");
    assert_eq!(r.status, ResponseStatus::NotFound);
}

#[test]
fn to_bytes_drops_names_passing_for_content_length() {
    let mut r = Response::new(ResponseStatus::Success);
    r.add_header(b"Content-Length:", b"1");
    r.add_header(b"Content-Length:x", b"2");
    r.add_header(b"Content-Lengthy", b"3");
    r.add_body(b"ab");
    assert_eq!(
        r.to_bytes(),
        b"HTTP/1.1 200 OK\r\nContent-Lengthy: 3\r\nContent-Length: 2\r\n\r\nab".to_vec()
    );
}
