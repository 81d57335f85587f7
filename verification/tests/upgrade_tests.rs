use async_web_server::head::{decode_request_head, HeadDecode, HttpVersion, RequestHead};
use async_web_server::headers::Header;
use async_web_server::response::encode_response_head;
use async_web_server::upgrade::{demux_request, is_upgrade_request, HttpOrWsHead};

fn decode(wire: &[u8]) -> async_web_server::head::RequestHead {
    match decode_request_head(wire) {
        HeadDecode::Complete(h, _) => h,
        _ => panic!("expected a complete head"),
    }
}

const UPGRADE_WIRE: &[u8] = b"GET /chat HTTP/1.1\r\nHost: x\r\nUpgrade: websocket\r\nConnection: Upgrade\r\nSec-WebSocket-Key: dGhlIHNhbXBsZSBub25jZQ==\r\nSec-WebSocket-Version: 13\r\n\r\n";

#[test]
fn upgrade_request_classifies_as_ws() {
    let head = decode(UPGRADE_WIRE);
    assert!(is_upgrade_request(&head));
    match demux_request(head) {
        HttpOrWsHead::Ws(req, resp) => {
            assert_eq!(req.uri, b"/chat".to_vec());
            assert_eq!(resp.status, 101);
        },
        HttpOrWsHead::Http(_) => panic!("an upgrade request must not classify as plain HTTP"),
    }
}

#[test]
fn plain_get_classifies_as_http() {
    let head = decode(b"GET / HTTP/1.1\r\nHost: x\r\n\r\n");
    assert!(!is_upgrade_request(&head));
    match demux_request(head) {
        HttpOrWsHead::Http(req) => assert_eq!(req.uri, b"/".to_vec()),
        HttpOrWsHead::Ws(_, _) => panic!("a plain request must not classify as an upgrade"),
    }
}

#[test]
fn upgrade_needs_get_method() {
    let head = decode(
        b"POST /chat HTTP/1.1\r\nHost: x\r\nUpgrade: websocket\r\nConnection: Upgrade\r\n\r\n",
    );
    assert!(!is_upgrade_request(&head));
}

#[test]
fn upgrade_token_found_in_comma_list() {
    let head = decode(
        b"GET / HTTP/1.1\r\nHost: x\r\nUpgrade: websocket\r\nConnection: keep-alive, Upgrade\r\n\r\n",
    );
    assert!(is_upgrade_request(&head));
}

#[test]
fn upgrade_match_is_case_insensitive() {
    let head = decode(
        b"GET / HTTP/1.1\r\nHost: x\r\nUPGRADE: WebSocket\r\nCONNECTION: upgrade\r\n\r\n",
    );
    assert!(is_upgrade_request(&head));
}

#[test]
fn connection_without_upgrade_token_is_http() {
    let head = decode(
        b"GET / HTTP/1.1\r\nHost: x\r\nUpgrade: websocket\r\nConnection: keep-alive\r\n\r\n",
    );
    assert!(!is_upgrade_request(&head));
}

#[test]
fn upgrade_with_unanswerable_key_falls_back_to_http() {
    // a key byte below blank space is no valid header value, so the
    // collaborator cannot answer for it and the request stays HTTP
    let hdr = |name: &str, value: &[u8]| Header { name: name.as_bytes().to_vec(), value: value.to_vec() };
    let head = RequestHead {
        method: b"GET".to_vec(),
        uri: b"/chat".to_vec(),
        version: HttpVersion::V11,
        headers: vec![
            hdr("Connection", b"Upgrade"),
            hdr("Upgrade", b"websocket"),
            hdr("Sec-WebSocket-Key", b"\x01bad"),
        ],
    };
    assert!(is_upgrade_request(&head));
    match demux_request(head) {
        HttpOrWsHead::Http(req) => assert_eq!(req.uri, b"/chat".to_vec()),
        HttpOrWsHead::Ws(_, _) => panic!("an unanswerable key must not upgrade"),
    }
}

#[test]
fn accept_value_is_derived_from_the_key() {
    // the derivation itself belongs to the frame-codec collaborator; this
    // key's answer is fixed by its specification
    let head = decode(UPGRADE_WIRE);
    match demux_request(head) {
        HttpOrWsHead::Ws(_, resp) => {
            let accept = resp
                .headers
                .iter()
                .find(|h| h.name == b"Sec-WebSocket-Accept".to_vec())
                .expect("the 101 head carries the accept value");
            assert_eq!(accept.value, b"s3pPLMBiTxaQ9kYGzzhZRbK+xOo=".to_vec());
            let wire = encode_response_head(&resp);
            assert!(wire.starts_with(b"HTTP/1.1 101 Switching Protocols\r\n"));
            assert!(wire.ends_with(b"\r\n\r\n"));
        },
        HttpOrWsHead::Http(_) => panic!("expected an upgrade"),
    }
}
