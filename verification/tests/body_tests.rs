use async_web_server::body::{BodyDecoder, BodyFraming, BodyFramingError, framing_from_headers};
use async_web_server::head::{decode_request_head, HeadDecode, HttpVersion};
use async_web_server::headers::Header;

fn hdr(name: &str, value: &str) -> Header {
    Header { name: name.as_bytes().to_vec(), value: value.as_bytes().to_vec() }
}

#[test]
fn framing_chunked() {
    let hs = vec![hdr("Host", "x"), hdr("Transfer-Encoding", "chunked")];
    assert_eq!(framing_from_headers(&hs), Ok(BodyFraming::Chunked));
}

#[test]
fn framing_content_length() {
    let hs = vec![hdr("Content-Length", "42")];
    assert_eq!(framing_from_headers(&hs), Ok(BodyFraming::Sized(42)));
}

#[test]
fn framing_defaults_to_no_body() {
    let hs = vec![hdr("Host", "x")];
    assert_eq!(framing_from_headers(&hs), Ok(BodyFraming::Sized(0)));
}

#[test]
fn framing_rejects_other_transfer_encodings() {
    let hs = vec![hdr("Transfer-Encoding", "gzip")];
    assert_eq!(framing_from_headers(&hs), Err(BodyFramingError::BadTransferEncoding));
}

#[test]
fn framing_rejects_bad_content_length() {
    let hs = vec![hdr("Content-Length", "4x")];
    assert_eq!(framing_from_headers(&hs), Err(BodyFramingError::BadContentLength));
    let hs = vec![hdr("Content-Length", "")];
    assert_eq!(framing_from_headers(&hs), Err(BodyFramingError::BadContentLength));
    let hs = vec![hdr("Content-Length", "99999999999999999999999999")];
    assert_eq!(framing_from_headers(&hs), Err(BodyFramingError::BadContentLength));
}

#[test]
fn framing_header_names_match_case_insensitively() {
    let hs = vec![hdr("TRANSFER-ENCODING", "chunked")];
    assert_eq!(framing_from_headers(&hs), Ok(BodyFraming::Chunked));
    let hs = vec![hdr("Content-LENGTH", "7")];
    assert_eq!(framing_from_headers(&hs), Ok(BodyFraming::Sized(7)));
}

#[test]
fn transfer_encoding_value_is_matched_exactly() {
    // the framing layer takes the value byte-for-byte
    let hs = vec![hdr("Transfer-Encoding", "Chunked")];
    assert_eq!(framing_from_headers(&hs), Err(BodyFramingError::BadTransferEncoding));
}

#[test]
fn first_content_length_wins() {
    let hs = vec![hdr("Content-Length", "3"), hdr("Content-Length", "5")];
    assert_eq!(framing_from_headers(&hs), Ok(BodyFraming::Sized(3)));
}

#[test]
fn expect_name_is_case_insensitive_value_exact() {
    let hs = vec![hdr("Content-Length", "1"), hdr("EXPECT", "100-continue")];
    let d = BodyDecoder::from_headers(HttpVersion::V11, &hs).expect("framing is fine");
    assert!(d.continue_pending);
    let hs = vec![hdr("Content-Length", "1"), hdr("Expect", "100-CONTINUE")];
    let d = BodyDecoder::from_headers(HttpVersion::V11, &hs).expect("framing is fine");
    assert!(!d.continue_pending);
}

#[test]
fn sized_body_hands_bytes_through() {
    let hs = vec![hdr("Content-Length", "4")];
    let mut d = BodyDecoder::from_headers(HttpVersion::V11, &hs).expect("framing is fine");
    let wire = d.on_read_polled();
    assert!(wire.is_empty());
    let mut got = Vec::new();
    for b in b"test" {
        if let Some(x) = d.feed(*b) {
            got.push(x);
        }
    }
    assert_eq!(got, b"test".to_vec());
}

#[test]
fn chunked_request_body_decodes() {
    // send POST /echo with a chunked body; the handler reads exactly `test`
    let wire = b"POST /echo HTTP/1.1\r\nHost: x\r\nTransfer-Encoding: chunked\r\n\r\n4\r\ntest\r\n0\r\n\r\n";
    let (head, n) = match decode_request_head(wire) {
        HeadDecode::Complete(h, n) => (h, n),
        _ => panic!("expected a complete head"),
    };
    assert_eq!(head.method, b"POST".to_vec());
    assert_eq!(head.uri, b"/echo".to_vec());
    let mut d = BodyDecoder::from_headers(head.version, &head.headers).expect("chunked framing");
    assert!(d.on_read_polled().is_empty());
    let mut got = Vec::new();
    let mut i = n;
    while !matches!(
        d.progress,
        async_web_server::body::BodyProgress::Done | async_web_server::body::BodyProgress::Failed
    ) {
        assert!(i < wire.len(), "body must end within the wire bytes");
        if let Some(x) = d.feed(wire[i]) {
            got.push(x);
        }
        i += 1;
    }
    assert_eq!(got, b"test".to_vec());
    assert_eq!(i, wire.len());
}

#[test]
fn continue_deferred_until_first_read() {
    let hs = vec![hdr("Content-Length", "1"), hdr("Expect", "100-continue")];
    let mut d = BodyDecoder::from_headers(HttpVersion::V11, &hs).expect("framing is fine");
    // constructed: nothing on the wire yet
    assert!(d.continue_pending);
    // first read: the interim response, exactly once
    let wire = d.on_read_polled();
    assert_eq!(wire, b"HTTP/1.1 100 Continue\r\n\r\n".to_vec());
    let wire2 = d.on_read_polled();
    assert!(wire2.is_empty());
}

#[test]
fn no_continue_without_expect_header() {
    let hs = vec![hdr("Content-Length", "1")];
    let mut d = BodyDecoder::from_headers(HttpVersion::V11, &hs).expect("framing is fine");
    assert!(!d.continue_pending);
    assert!(d.on_read_polled().is_empty());
}
