use async_web_server::head::{decode_request_head, HeadDecode, HttpVersion};
use async_web_server::headers::Header;
use async_web_server::redirect::build_redirect;
use async_web_server::response::{encode_response, encode_response_head, ResponseHead};

fn hdr(name: &str, value: &str) -> Header {
    Header { name: name.as_bytes().to_vec(), value: value.as_bytes().to_vec() }
}

#[test]
fn encode_basic_head() {
    let r = ResponseHead {
        status: 200,
        version: HttpVersion::V11,
        headers: vec![hdr("Content-Type", "text/plain")],
    };
    assert_eq!(
        encode_response_head(&r),
        b"HTTP/1.1 200 OK\r\nContent-Type: text/plain\r\n\r\n".to_vec()
    );
}

#[test]
fn send_forces_chunked_framing() {
    let mut r = ResponseHead {
        status: 200,
        version: HttpVersion::V11,
        headers: vec![hdr("Transfer-Encoding", "identity"), hdr("X-Keep", "1")],
    };
    let wire = encode_response(&mut r, b"hi");
    assert_eq!(
        wire,
        b"HTTP/1.1 200 OK\r\nX-Keep: 1\r\ntransfer-encoding: chunked\r\n\r\n2\r\nhi\r\n0\r\n\r\n"
            .to_vec()
    );
}

#[test]
fn empty_body_still_ends_with_terminator() {
    let mut r = ResponseHead { status: 200, version: HttpVersion::V11, headers: vec![] };
    let wire = encode_response(&mut r, b"");
    assert!(wire.ends_with(b"\r\n\r\n0\r\n\r\n"));
}

#[test]
fn insert_header_appends_new_name() {
    let mut r = ResponseHead::new(HttpVersion::V11);
    r.insert_header(b"X-One", b"1");
    r.insert_header(b"X-Two", b"2");
    assert_eq!(r.headers.len(), 2);
    assert_eq!(r.headers[1].name, b"X-Two".to_vec());
}

#[test]
fn insert_header_replaces_first_and_drops_duplicates() {
    let mut r = ResponseHead {
        status: 200,
        version: HttpVersion::V11,
        headers: vec![hdr("A", "1"), hdr("b", "2"), hdr("a", "3")],
    };
    r.insert_header(b"a", b"9");
    assert_eq!(r.headers.len(), 2);
    assert_eq!(r.headers[0].name, b"a".to_vec());
    assert_eq!(r.headers[0].value, b"9".to_vec());
    assert_eq!(r.headers[1].name, b"b".to_vec());
}

#[test]
fn set_status_changes_the_status_line() {
    let mut r = ResponseHead::new(HttpVersion::V11);
    r.set_status(404);
    let wire = encode_response_head(&r);
    assert!(wire.starts_with(b"HTTP/1.1 404 Not Found\r\n"));
}

#[test]
fn redirect_scenario() {
    // a plaintext GET answered with a 307 to the HTTPS equivalent
    let wire = b"GET / HTTP/1.1\r\nHost: x\r\n\r\n";
    let head = match decode_request_head(wire) {
        HeadDecode::Complete(h, _) => h,
        _ => panic!("expected a complete head"),
    };
    let mut resp = build_redirect(&head).expect("the request has a Host header");
    assert_eq!(resp.status, 307);
    let out = encode_response(&mut resp, b"");
    assert!(out.starts_with(b"HTTP/1.1 307 Temporary Redirect\r\nLocation: https://x/\r\n"));
    assert!(out.ends_with(b"0\r\n\r\n"));
}

#[test]
fn redirect_keeps_path_and_query() {
    let wire = b"GET /a/b?q=1 HTTP/1.1\r\nHost: example.com\r\n\r\n";
    let head = match decode_request_head(wire) {
        HeadDecode::Complete(h, _) => h,
        _ => panic!("expected a complete head"),
    };
    let resp = build_redirect(&head).expect("the request has a Host header");
    assert_eq!(resp.headers[0].name, b"Location".to_vec());
    assert_eq!(resp.headers[0].value, b"https://example.com/a/b?q=1".to_vec());
}

#[test]
fn redirect_rejects_host_that_is_no_authority() {
    // a Host that does not parse as a URI authority earns no response
    let wire = b"GET / HTTP/1.1\r\nHost: bad host\r\n\r\n";
    let head = match decode_request_head(wire) {
        HeadDecode::Complete(h, _) => h,
        _ => panic!("expected a complete head"),
    };
    assert!(build_redirect(&head).is_none());
    let wire = b"GET / HTTP/1.1\r\nHost: a:b:c\r\n\r\n";
    let head = match decode_request_head(wire) {
        HeadDecode::Complete(h, _) => h,
        _ => panic!("expected a complete head"),
    };
    assert!(build_redirect(&head).is_none());
}

#[test]
fn redirect_accepts_host_with_port() {
    let wire = b"GET / HTTP/1.1\r\nHost: example.com:8443\r\n\r\n";
    let head = match decode_request_head(wire) {
        HeadDecode::Complete(h, _) => h,
        _ => panic!("expected a complete head"),
    };
    let resp = build_redirect(&head).expect("a host with a port is an authority");
    assert_eq!(resp.headers[0].value, b"https://example.com:8443/".to_vec());
}

#[test]
fn redirect_without_host_gets_no_response() {
    let wire = b"GET / HTTP/1.0\r\n\r\n";
    let head = match decode_request_head(wire) {
        HeadDecode::Complete(h, _) => h,
        _ => panic!("expected a complete head"),
    };
    assert!(build_redirect(&head).is_none());
}
