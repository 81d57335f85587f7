use async_web_server::chunked::{decode_chunked, encode_chunk, encode_chunked_body};
use futures::io::Cursor;
use futures::AsyncReadExt;

#[test]
fn encode_small_body() {
    assert_eq!(encode_chunked_body(b"test"), b"4\r\ntest\r\n0\r\n\r\n".to_vec());
}

#[test]
fn encode_empty_body_is_terminator_only() {
    assert_eq!(encode_chunked_body(b""), b"0\r\n\r\n".to_vec());
}

#[test]
fn encode_uses_uppercase_hex() {
    let body = vec![b'x'; 26];
    let wire = encode_chunked_body(&body);
    assert!(wire.starts_with(b"1A\r\n"));
    assert!(wire.ends_with(b"\r\n0\r\n\r\n"));
}

#[test]
fn decode_single_chunk() {
    let wire = b"4\r\ntest\r\n0\r\n\r\n";
    let (payload, consumed) = decode_chunked(wire).expect("well-formed body");
    assert_eq!(payload, b"test".to_vec());
    assert_eq!(consumed, wire.len());
}

#[test]
fn decode_multiple_chunks() {
    let wire = b"4\r\nWiki\r\n5\r\npedia\r\n0\r\n\r\n";
    let (payload, consumed) = decode_chunked(wire).expect("well-formed body");
    assert_eq!(payload, b"Wikipedia".to_vec());
    assert_eq!(consumed, wire.len());
}

#[test]
fn decode_accepts_lowercase_hex_sizes() {
    let body = vec![b'y'; 10];
    let mut wire = b"a\r\n".to_vec();
    wire.extend_from_slice(&body);
    wire.extend_from_slice(b"\r\n0\r\n\r\n");
    let (payload, _) = decode_chunked(&wire).expect("well-formed body");
    assert_eq!(payload, body);
}

#[test]
fn decode_discards_trailers() {
    let wire = b"3\r\nabc\r\n0\r\nX-Check: 1\r\n\r\n";
    let (payload, consumed) = decode_chunked(wire).expect("well-formed body");
    assert_eq!(payload, b"abc".to_vec());
    assert_eq!(consumed, wire.len());
}

#[test]
fn decode_stops_at_body_end() {
    let wire = b"4\r\ntest\r\n0\r\n\r\nGET / HTTP/1.1\r\n\r\n";
    let (payload, consumed) = decode_chunked(wire).expect("well-formed body");
    assert_eq!(payload, b"test".to_vec());
    assert_eq!(consumed, 14);
}

#[test]
fn decode_rejects_broken_framing() {
    assert!(decode_chunked(b"zz\r\nxx\r\n0\r\n\r\n").is_none());
    assert!(decode_chunked(b"4\r\ntestXX0\r\n\r\n").is_none());
    assert!(decode_chunked(b"4\r\nte").is_none());
}

#[test]
fn round_trip_through_own_decoder() {
    let payloads: Vec<Vec<u8>> = vec![
        b"".to_vec(),
        b"a".to_vec(),
        b"hello world".to_vec(),
        vec![0u8; 300],
        (0..=255u8).collect(),
    ];
    for p in payloads {
        let wire = encode_chunked_body(&p);
        let (decoded, consumed) = decode_chunked(&wire).expect("own encoding decodes");
        assert_eq!(decoded, p);
        assert_eq!(consumed, wire.len());
    }
}

#[test]
fn encoded_body_decodes_with_conformant_decoder() {
    // a decoder from the codec crate, reading our bytes
    let payload = b"the quick brown fox jumps over 16 lazy dogs!".to_vec();
    let mut wire = encode_chunked_body(&payload);
    let cursor = Cursor::new(&mut wire);
    let mut reader = async_http_codec::BodyDecode::new(cursor, None);
    let mut decoded = Vec::new();
    futures::executor::block_on(reader.read_to_end(&mut decoded)).expect("decodes cleanly");
    assert_eq!(decoded, payload);
}

#[test]
fn streamed_chunks_decode_with_conformant_decoder() {
    // several writes, each framed as its own chunk
    let mut wire = encode_chunk(b"one,");
    wire.extend_from_slice(&encode_chunk(b"two,"));
    wire.extend_from_slice(&encode_chunk(b"three"));
    wire.extend_from_slice(&encode_chunked_body(b""));
    let cursor = Cursor::new(&mut wire);
    let mut reader = async_http_codec::BodyDecode::new(cursor, None);
    let mut decoded = Vec::new();
    futures::executor::block_on(reader.read_to_end(&mut decoded)).expect("decodes cleanly");
    assert_eq!(decoded, b"one,two,three".to_vec());
}
