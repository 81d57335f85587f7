use async_web_server::head::{
    decode_request_head, encode_request_head, HeadDecode, HeadDecodeError, HttpVersion,
    RequestHead, MAX_HEAD_LEN,
};
use async_web_server::headers::Header;

fn hdr(name: &str, value: &str) -> Header {
    Header { name: name.as_bytes().to_vec(), value: value.as_bytes().to_vec() }
}

#[test]
fn decode_simple_get() {
    let wire = b"GET / HTTP/1.1\r\nHost: x\r\n\r\n";
    match decode_request_head(wire) {
        HeadDecode::Complete(h, n) => {
            assert_eq!(n, wire.len());
            assert_eq!(h.method, b"GET".to_vec());
            assert_eq!(h.uri, b"/".to_vec());
            assert_eq!(h.version, HttpVersion::V11);
            assert_eq!(h.headers.len(), 1);
            assert_eq!(h.headers[0].name, b"Host".to_vec());
            assert_eq!(h.headers[0].value, b"x".to_vec());
        },
        _ => panic!("expected a complete head"),
    }
}

#[test]
fn decode_leaves_body_bytes_alone() {
    // the body must not be consumed by head decoding
    let head = b"POST /echo HTTP/1.1\r\nHost: x\r\nContent-Length: 4\r\n\r\n";
    let mut wire = head.to_vec();
    wire.extend_from_slice(b"test");
    match decode_request_head(&wire) {
        HeadDecode::Complete(h, n) => {
            assert_eq!(n, head.len());
            assert_eq!(&wire[n..], b"test");
            assert_eq!(h.method, b"POST".to_vec());
        },
        _ => panic!("expected a complete head"),
    }
}

#[test]
fn encode_then_decode_reproduces_head() {
    let head = RequestHead {
        method: b"POST".to_vec(),
        uri: b"/a/b?c=d".to_vec(),
        version: HttpVersion::V11,
        headers: vec![hdr("Host", "example.com"), hdr("X-Two", "2"), hdr("X-Two", "3")],
    };
    let wire = encode_request_head(&head);
    match decode_request_head(&wire) {
        HeadDecode::Complete(h, n) => {
            assert_eq!(n, wire.len());
            assert_eq!(h.method, head.method);
            assert_eq!(h.uri, head.uri);
            assert_eq!(h.version, head.version);
            assert_eq!(h.headers.len(), head.headers.len());
            for (a, b) in h.headers.iter().zip(head.headers.iter()) {
                assert_eq!(a.name, b.name);
                assert_eq!(a.value, b.value);
            }
        },
        _ => panic!("expected a complete head"),
    }
}

#[test]
fn encode_writes_exact_bytes() {
    let head = RequestHead {
        method: b"GET".to_vec(),
        uri: b"/".to_vec(),
        version: HttpVersion::V11,
        headers: vec![hdr("Host", "x")],
    };
    assert_eq!(encode_request_head(&head), b"GET / HTTP/1.1\r\nHost: x\r\n\r\n".to_vec());
}

#[test]
fn decode_http10() {
    let wire = b"GET / HTTP/1.0\r\n\r\n";
    match decode_request_head(wire) {
        HeadDecode::Complete(h, n) => {
            assert_eq!(n, wire.len());
            assert_eq!(h.version, HttpVersion::V10);
            assert_eq!(h.headers.len(), 0);
        },
        _ => panic!("expected a complete head"),
    }
}

#[test]
fn decode_rejects_other_versions() {
    let wire = b"GET / HTTP/2.0\r\n\r\n";
    match decode_request_head(wire) {
        HeadDecode::Error(e) => assert_eq!(e, HeadDecodeError::UnsupportedVersion),
        _ => panic!("expected an error"),
    }
}

#[test]
fn decode_rejects_malformed_start_line() {
    match decode_request_head(b"GET/HTTP/1.1\r\n\r\n") {
        HeadDecode::Error(e) => assert_eq!(e, HeadDecodeError::MalformedStartLine),
        _ => panic!("expected an error"),
    }
    match decode_request_head(b"nonsense\r\n\r\n") {
        HeadDecode::Error(e) => assert_eq!(e, HeadDecodeError::MalformedStartLine),
        _ => panic!("expected an error"),
    }
}

#[test]
fn decode_rejects_malformed_header() {
    let wire = b"GET / HTTP/1.1\r\nno colon here\r\n\r\n";
    match decode_request_head(wire) {
        HeadDecode::Error(e) => assert_eq!(e, HeadDecodeError::MalformedHeader),
        _ => panic!("expected an error"),
    }
}

#[test]
fn decode_needs_more_on_partial_head() {
    match decode_request_head(b"GET / HTTP/1.1\r\nHost: x\r\n") {
        HeadDecode::NeedMore => {},
        _ => panic!("expected the decoder to wait for more bytes"),
    }
}

#[test]
fn oversized_head_fails_and_next_connection_decodes() {
    // a head that exceeds the cap without reaching the terminator
    let mut wire = b"GET / HTTP/1.1\r\nX-Fill: ".to_vec();
    while wire.len() < MAX_HEAD_LEN {
        wire.push(b'a');
    }
    match decode_request_head(&wire) {
        HeadDecode::Error(e) => assert_eq!(e, HeadDecodeError::HeadTooLong),
        _ => panic!("expected HeadTooLong"),
    }
    // the next connection's head decodes untroubled
    match decode_request_head(b"GET /next HTTP/1.1\r\n\r\n") {
        HeadDecode::Complete(h, _) => assert_eq!(h.uri, b"/next".to_vec()),
        _ => panic!("expected a complete head"),
    }
}

#[test]
fn oversized_complete_head_fails() {
    let mut wire = b"GET / HTTP/1.1\r\nX-Fill: ".to_vec();
    while wire.len() < MAX_HEAD_LEN + 10 {
        wire.push(b'a');
    }
    wire.extend_from_slice(b"\r\n\r\n");
    match decode_request_head(&wire) {
        HeadDecode::Error(e) => assert_eq!(e, HeadDecodeError::HeadTooLong),
        _ => panic!("expected HeadTooLong"),
    }
}

#[test]
fn decode_skips_blank_space_after_colon() {
    let wire = b"GET / HTTP/1.1\r\nHost:   spaced\r\n\r\n";
    match decode_request_head(wire) {
        HeadDecode::Complete(h, _) => {
            assert_eq!(h.headers[0].value, b"spaced".to_vec());
        },
        _ => panic!("expected a complete head"),
    }
}
