//! The HTTP-or-WebSocket demultiplexer's decisions: classify a decoded
//! request, and synthesize the `101 Switching Protocols` head for an
//! upgrade. The `Sec-WebSocket-Accept` derivation belongs to the frame-codec
//! collaborator and is only named here.

use vstd::prelude::*;
use crate::bytes::{lower_seq, copy_bytes, eq_ignore_case, eq_bytes};
use crate::headers::{
    Header, header_value, has_token, value_has_token, find_header, lemma_header_idx_some,
    lemma_header_idx_none,
};
use crate::head::{RequestHead, headers_pairs};
use crate::response::ResponseHead;

verus! {

pub open spec fn get_method() -> Seq<u8> {
    seq![71u8, 69u8, 84u8]  // GET
}

pub open spec fn connection_name() -> Seq<u8> {
    // connection
    seq![99u8, 111u8, 110u8, 110u8, 101u8, 99u8, 116u8, 105u8, 111u8, 110u8]
}

pub open spec fn upgrade_name() -> Seq<u8> {
    seq![117u8, 112u8, 103u8, 114u8, 97u8, 100u8, 101u8]  // upgrade
}

pub open spec fn websocket_value() -> Seq<u8> {
    seq![119u8, 101u8, 98u8, 115u8, 111u8, 99u8, 107u8, 101u8, 116u8]  // websocket
}

pub open spec fn ws_key_name() -> Seq<u8> {
    // sec-websocket-key
    seq![115u8, 101u8, 99u8, 45u8, 119u8, 101u8, 98u8, 115u8, 111u8, 99u8, 107u8, 101u8, 116u8,
        45u8, 107u8, 101u8, 121u8]
}

pub open spec fn ws_accept_name() -> Seq<u8> {
    // sec-websocket-accept
    seq![115u8, 101u8, 99u8, 45u8, 119u8, 101u8, 98u8, 115u8, 111u8, 99u8, 107u8, 101u8, 116u8,
        45u8, 97u8, 99u8, 99u8, 101u8, 112u8, 116u8]
}

/// A request asks for a WebSocket upgrade iff its method is GET, its
/// `Connection` list carries the `upgrade` token, and its `Upgrade` header
/// is `websocket`, all case-insensitively.
pub open spec fn spec_is_upgrade(method: Seq<u8>, hs: Seq<Header>) -> bool {
    &&& method == get_method()
    &&& match header_value(hs, connection_name()) {
        Some(v) => has_token(v, upgrade_name()),
        None => false,
    }
    &&& match header_value(hs, upgrade_name()) {
        Some(v) => lower_seq(v) == websocket_value(),
        None => false,
    }
}

/// Classify one decoded request, as the demultiplexer does.
pub fn is_upgrade_request(req: &RequestHead) -> (r: bool)
    ensures
        r == spec_is_upgrade(req.method@, req.headers@),
{
    let get: [u8; 3] = [71u8, 69u8, 84u8];
    proof {
        assert(get@ =~= get_method());
    }
    if !eq_bytes(req.method.as_slice(), &get) {
        return false;
    }
    let conn: [u8; 10] = [99u8, 111u8, 110u8, 110u8, 101u8, 99u8, 116u8, 105u8, 111u8, 110u8];
    let upg: [u8; 7] = [117u8, 112u8, 103u8, 114u8, 97u8, 100u8, 101u8];
    let wsv: [u8; 9] = [119u8, 101u8, 98u8, 115u8, 111u8, 99u8, 107u8, 101u8, 116u8];
    proof {
        assert(conn@ =~= connection_name());
        assert(upg@ =~= upgrade_name());
        assert(wsv@ =~= websocket_value());
    }
    let ci = match find_header(&req.headers, &conn) {
        None => {
            proof {
                lemma_header_idx_none(req.headers@, connection_name());
            }
            return false;
        },
        Some(i) => i,
    };
    proof {
        lemma_header_idx_some(req.headers@, connection_name(), ci as int);
    }
    if !value_has_token(req.headers[ci].value.as_slice(), &upg) {
        return false;
    }
    let ui = match find_header(&req.headers, &upg) {
        None => {
            proof {
                lemma_header_idx_none(req.headers@, upgrade_name());
            }
            return false;
        },
        Some(i) => i,
    };
    proof {
        lemma_header_idx_some(req.headers@, upgrade_name(), ui as int);
    }
    if !eq_ignore_case(req.headers[ui].value.as_slice(), &wsv) {
        proof {
            assert(lower_seq(wsv@) =~= websocket_value());
        }
        return false;
    }
    proof {
        assert(lower_seq(wsv@) =~= websocket_value());
    }
    true
}

/// What the frame-codec collaborator derives from a `Sec-WebSocket-Key`
/// value; a function of the key alone.
pub uninterp spec fn ws_accept_of(key: Seq<u8>) -> Seq<u8>;

/// The key values the collaborator answers for: exactly the valid
/// header-value bytes (blank space, or any byte from 32 up except delete).
pub open spec fn ws_accept_ok(key: Seq<u8>) -> bool {
    forall|i: int|
        0 <= i < key.len() ==> (#[trigger] key[i] == 9 || (32 <= key[i] && key[i] != 127))
}

/// Relies on async_ws::http::upgrade_response: the returned
/// `Sec-WebSocket-Accept` header value is derived from the request's
/// `Sec-WebSocket-Key` value alone (SHA-1 of key and GUID, base64), and it
/// answers exactly when the key's bytes are valid header-value bytes
/// (`http::HeaderValue` refuses the others, so the request cannot carry
/// them). The body wraps the key in the minimal upgrade request that
/// function takes; the other fields only make it accept the key.
#[verifier::external_body]
fn ws_accept_value(key: &Vec<u8>) -> (r: Option<Vec<u8>>)
    ensures
        r is Some <==> ws_accept_ok(key@),
        r matches Some(v) ==> v@ == ws_accept_of(key@),
{
    let req = http::Request::builder()
        .method("GET")
        .uri("/")
        .header("Connection", "Upgrade")
        .header("Upgrade", "websocket")
        .header("Sec-WebSocket-Version", "13")
        .header("Sec-WebSocket-Key", key.as_slice())
        .body(())
        .ok()?;
    let resp = async_ws::http::upgrade_response(&req)?;
    Some(resp.headers().get("Sec-WebSocket-Accept")?.as_bytes().to_vec())
}

/// The synthesized head's header names and values, in the casing they are
/// written with; lookups stay case-insensitive.
pub open spec fn connection_display() -> Seq<u8> {
    // Connection
    seq![67u8, 111u8, 110u8, 110u8, 101u8, 99u8, 116u8, 105u8, 111u8, 110u8]
}

pub open spec fn upgrade_display() -> Seq<u8> {
    seq![85u8, 112u8, 103u8, 114u8, 97u8, 100u8, 101u8]  // Upgrade
}

pub open spec fn ws_accept_display() -> Seq<u8> {
    // Sec-WebSocket-Accept
    seq![83u8, 101u8, 99u8, 45u8, 87u8, 101u8, 98u8, 83u8, 111u8, 99u8, 107u8, 101u8, 116u8,
        45u8, 65u8, 99u8, 99u8, 101u8, 112u8, 116u8]
}

/// The header pairs of the synthesized `101 Switching Protocols` head.
pub open spec fn upgrade_head_pairs(accept: Seq<u8>) -> Seq<(Seq<u8>, Seq<u8>)> {
    seq![
        (connection_display(), upgrade_display()),
        (upgrade_display(), websocket_value()),
        (ws_accept_display(), accept),
    ]
}

/// Build the `101` head from the request and the collaborator's accept
/// value. Pure assembly: given the same accept value it always builds the
/// same head.
pub fn upgrade_head_with_accept(req: &RequestHead, accept: Vec<u8>) -> (r: ResponseHead)
    ensures
        r.status == 101,
        r.version == req.version,
        headers_pairs(r.headers@) == upgrade_head_pairs(accept@),
{
    let conn: [u8; 10] = [67u8, 111u8, 110u8, 110u8, 101u8, 99u8, 116u8, 105u8, 111u8, 110u8];
    let upg: [u8; 7] = [85u8, 112u8, 103u8, 114u8, 97u8, 100u8, 101u8];
    let wsv: [u8; 9] = [119u8, 101u8, 98u8, 115u8, 111u8, 99u8, 107u8, 101u8, 116u8];
    let acc: [u8; 20] = [83u8, 101u8, 99u8, 45u8, 87u8, 101u8, 98u8, 83u8, 111u8, 99u8, 107u8,
        101u8, 116u8, 45u8, 65u8, 99u8, 99u8, 101u8, 112u8, 116u8];
    proof {
        assert(conn@ =~= connection_display());
        assert(upg@ =~= upgrade_display());
        assert(wsv@ =~= websocket_value());
        assert(acc@ =~= ws_accept_display());
    }
    let mut hdrs: Vec<Header> = Vec::new();
    hdrs.push(Header { name: copy_bytes(&conn), value: copy_bytes(&upg) });
    hdrs.push(Header { name: copy_bytes(&upg), value: copy_bytes(&wsv) });
    hdrs.push(Header { name: copy_bytes(&acc), value: accept });
    let r = ResponseHead { status: 101, version: req.version, headers: hdrs };
    proof {
        assert(headers_pairs(r.headers@) =~= upgrade_head_pairs(r.headers@[2].value@));
    }
    r
}

/// One demultiplexed request: ordinary HTTP, or a WebSocket upgrade carrying
/// the not-yet-sent `101` head.
pub enum HttpOrWsHead {
    Http(RequestHead),
    Ws(RequestHead, ResponseHead),
}

/// The demultiplexer's whole decision for one request. A request that is no
/// upgrade stays HTTP. An upgrade whose `Sec-WebSocket-Key` the collaborator
/// answers for — that is, one carrying a key at all — gets its `101` head,
/// and is owed it; one without a usable key falls back to HTTP rather than
/// upgrading blind.
pub fn demux_request(req: RequestHead) -> (r: HttpOrWsHead)
    ensures
        match r {
            HttpOrWsHead::Http(h) => h == req,
            HttpOrWsHead::Ws(h, resp) => {
                &&& h == req
                &&& spec_is_upgrade(req.method@, req.headers@)
                &&& header_value(req.headers@, ws_key_name()) is Some
                &&& resp.status == 101
                &&& resp.version == req.version
                &&& headers_pairs(resp.headers@) == upgrade_head_pairs(
                    ws_accept_of(header_value(req.headers@, ws_key_name()).unwrap()),
                )
            },
        },
        !spec_is_upgrade(req.method@, req.headers@) ==> r is Http,
        (spec_is_upgrade(req.method@, req.headers@) && match header_value(
            req.headers@,
            ws_key_name(),
        ) {
            Some(k) => ws_accept_ok(k),
            None => false,
        }) ==> r is Ws,
{
    if !is_upgrade_request(&req) {
        return HttpOrWsHead::Http(req);
    }
    let keyn: [u8; 17] = [115u8, 101u8, 99u8, 45u8, 119u8, 101u8, 98u8, 115u8, 111u8, 99u8, 107u8,
        101u8, 116u8, 45u8, 107u8, 101u8, 121u8];
    proof {
        assert(keyn@ =~= ws_key_name());
    }
    let ki = match find_header(&req.headers, &keyn) {
        None => {
            return HttpOrWsHead::Http(req);
        },
        Some(i) => i,
    };
    proof {
        lemma_header_idx_some(req.headers@, ws_key_name(), ki as int);
    }
    let key = copy_bytes(req.headers[ki].value.as_slice());
    match ws_accept_value(&key) {
        None => HttpOrWsHead::Http(req),
        Some(accept) => {
            let resp = upgrade_head_with_accept(&req, accept);
            HttpOrWsHead::Ws(req, resp)
        },
    }
}

} // verus!
