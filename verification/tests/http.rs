//! The HTTP responder.
use tcp_stack::http::{
    looks_like_request, parse_request, request_head_len, response, Version,
};

#[test]
fn head_len_detects_blank_line() {
    assert_eq!(request_head_len(b"GET / HTTP/1.1\r\n\r\n"), Some(18));
    // Incomplete: no blank line yet.
    assert_eq!(request_head_len(b"GET / HTTP/1.1\r\nHost: x\r\n"), None);
    // Pipelined: the length covers only the FIRST head, leaving the rest buffered.
    let two = b"GET /a HTTP/1.1\r\n\r\nGET /b HTTP/1.1\r\n\r\n";
    let n = request_head_len(two).unwrap();
    assert_eq!(&two[..n], b"GET /a HTTP/1.1\r\n\r\n");
    assert!(request_head_len(&two[n..]).is_some()); // the second request is still there
}

#[test]
fn parses_request_line_and_version() {
    let r = parse_request(b"GET /index.html HTTP/1.1\r\nHost: example\r\n\r\n").unwrap();
    assert_eq!(r.method, "GET");
    assert_eq!(r.path, "/index.html");
    assert_eq!(r.version, Version::Http11);
    assert!(r.keep_alive); // HTTP/1.1 defaults to keep-alive
}

#[test]
fn http11_closes_only_on_connection_close() {
    let r = parse_request(b"GET / HTTP/1.1\r\nConnection: close\r\n\r\n").unwrap();
    assert!(!r.keep_alive);
    // Header name is case-insensitive.
    let r2 = parse_request(b"GET / HTTP/1.1\r\nCONNECTION: Close\r\n\r\n").unwrap();
    assert!(!r2.keep_alive);
}

#[test]
fn http10_persists_only_on_keep_alive() {
    let r = parse_request(b"GET / HTTP/1.0\r\n\r\n").unwrap();
    assert!(!r.keep_alive); // HTTP/1.0 defaults to close
    let r2 = parse_request(b"GET / HTTP/1.0\r\nConnection: keep-alive\r\n\r\n").unwrap();
    assert!(r2.keep_alive);
}

#[test]
fn rejects_malformed_request_line() {
    assert!(parse_request(b"GARBAGE\r\n\r\n").is_none());
    assert!(parse_request(b"GET /\r\n\r\n").is_none()); // no version
    assert!(parse_request(b"GET / HTTP/2.0\r\n\r\n").is_none()); // unsupported version
}

#[test]
fn response_reflects_keep_alive_and_method() {
    let ka = parse_request(b"GET / HTTP/1.1\r\n\r\n").unwrap();
    let r = response(&ka);
    let s = String::from_utf8(r).unwrap();
    assert!(s.starts_with("HTTP/1.1 200 OK\r\n"));
    assert!(s.contains("Connection: keep-alive\r\n"));
    assert!(s.contains("Content-Length: 54\r\n"));
    assert!(s.ends_with("from scratch in Rust!\n"));

    let close = parse_request(b"GET / HTTP/1.0\r\n\r\n").unwrap();
    let s2 = String::from_utf8(response(&close)).unwrap();
    assert!(s2.starts_with("HTTP/1.0 200 OK\r\n"));
    assert!(s2.contains("Connection: close\r\n"));

    // HEAD advertises Content-Length but sends no body.
    let head = parse_request(b"HEAD / HTTP/1.1\r\n\r\n").unwrap();
    let s3 = String::from_utf8(response(&head)).unwrap();
    assert!(s3.contains("Content-Length: 54\r\n"));
    assert!(s3.ends_with("\r\n\r\n")); // headers only, no body
}

#[test]
fn sniffing_recognises_request_methods() {
    assert!(looks_like_request(b"GET / HTTP/1.1\r\n"));
    assert!(looks_like_request(b"HEAD / HTTP/1.1\r\n"));
    assert!(!looks_like_request(b"hello\n"));
    assert!(!looks_like_request(b""));
}

#[test]
fn bytes_that_are_no_text_are_no_request() {
    assert!(parse_request(b"GET /\xff\xfe HTTP/1.1\r\n\r\n").is_none());
    // Text beyond ASCII is kept as it is.
    let r = parse_request("GET /caf\u{e9} HTTP/1.1\r\n\r\n".as_bytes()).unwrap();
    assert_eq!(r.path, "/caf\u{e9}");
}

#[test]
fn response_is_exact() {
    let close = parse_request(b"GET / HTTP/1.0\r\n\r\n").unwrap();
    let expected: &[u8] = b"HTTP/1.0 200 OK\r\nContent-Type: text/plain\r\nContent-Length: 54\r\n\
        Connection: close\r\n\r\nHello from a TCP/IP stack built from scratch in Rust!\n";
    assert_eq!(response(&close), expected);
}

#[test]
fn later_connection_headers_win() {
    let r = parse_request(
        b"GET / HTTP/1.1\r\nConnection: close\r\nConnection: keep-alive\r\n\r\n",
    )
    .unwrap();
    assert!(r.keep_alive);
    assert_eq!(r.clone(), r);
}

#[test]
fn consecutive_responses_can_be_told_apart() {
    let get = parse_request(b"GET / HTTP/1.1\r\n\r\n").unwrap();
    let head = parse_request(b"HEAD / HTTP/1.0\r\n\r\n").unwrap();
    let mut stream = response(&get);
    let first = stream.len();
    stream.extend(response(&head));
    let n = request_head_len(&stream).unwrap();
    assert_eq!(n + 54, first);
    assert_eq!(&stream[n..first], b"Hello from a TCP/IP stack built from scratch in Rust!\n");
    assert_eq!(request_head_len(&stream[first..]), Some(stream.len() - first));
}
