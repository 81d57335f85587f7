//! The HTTPS redirect responder's decision: for a plaintext request, build
//! the `307 Temporary Redirect` head whose `Location` reuses the request's
//! `Host` as authority and its original target as path and query.

use vstd::prelude::*;
use crate::bytes::copy_bytes;
use crate::headers::{
    Header, header_value, lemma_header_idx_some, lemma_header_idx_none, find_header,
};
use crate::head::{RequestHead, wf_request_head, headers_pairs, push_all};
use crate::response::ResponseHead;

verus! {

pub open spec fn host_name() -> Seq<u8> {
    seq![104u8, 111u8, 115u8, 116u8]  // host
}

pub open spec fn location_name() -> Seq<u8> {
    seq![76u8, 111u8, 99u8, 97u8, 116u8, 105u8, 111u8, 110u8]  // Location
}

pub open spec fn https_scheme() -> Seq<u8> {
    seq![104u8, 116u8, 116u8, 112u8, 115u8, 58u8, 47u8, 47u8]  // https://
}

/// The redirect target: `https://` + authority + original path and query.
pub open spec fn redirect_location(host: Seq<u8>, target: Seq<u8>) -> Seq<u8> {
    https_scheme() + host + target
}

/// Whether the URI rules accept these bytes as an authority (host with
/// optional userinfo and port); a function of the bytes alone.
pub uninterp spec fn is_authority(host: Seq<u8>) -> bool;

/// Relies on http::uri::Authority: parsing validates the bytes as a URI
/// authority and depends on the bytes alone; invalid input is an error, not
/// a panic.
#[verifier::external_body]
fn host_is_authority(host: &Vec<u8>) -> (r: bool)
    ensures
        r == is_authority(host@),
{
    http::uri::Authority::try_from(host.as_slice()).is_ok()
}

/// Build the redirect response head for one plaintext request: `307` with a
/// single `Location` header, in the request's version. A request without a
/// `Host` header, or whose `Host` is no URI authority, gets no response and
/// its connection is dropped.
pub fn build_redirect(req: &RequestHead) -> (r: Option<ResponseHead>)
    requires
        wf_request_head(*req),
    ensures
        match r {
            Some(resp) => {
                &&& header_value(req.headers@, host_name()) is Some
                &&& is_authority(header_value(req.headers@, host_name()).unwrap())
                &&& resp.status == 307
                &&& resp.version == req.version
                &&& headers_pairs(resp.headers@) == seq![
                    (
                        location_name(),
                        redirect_location(
                            header_value(req.headers@, host_name()).unwrap(),
                            req.uri@,
                        ),
                    ),
                ]
            },
            None => match header_value(req.headers@, host_name()) {
                None => true,
                Some(h) => !is_authority(h),
            },
        },
{
    let hostn: [u8; 4] = [104u8, 111u8, 115u8, 116u8];
    proof {
        assert(hostn@ =~= host_name());
    }
    let ix = match find_header(&req.headers, &hostn) {
        None => {
            proof {
                lemma_header_idx_none(req.headers@, host_name());
            }
            return None;
        },
        Some(ix) => ix,
    };
    proof {
        lemma_header_idx_some(req.headers@, host_name(), ix as int);
    }
    if !host_is_authority(&req.headers[ix].value) {
        return None;
    }
    let mut loc: Vec<u8> = Vec::new();
    let scheme: [u8; 8] = [104u8, 116u8, 116u8, 112u8, 115u8, 58u8, 47u8, 47u8];
    proof {
        assert(scheme@ =~= https_scheme());
    }
    push_all(&mut loc, &scheme);
    push_all(&mut loc, req.headers[ix].value.as_slice());
    push_all(&mut loc, req.uri.as_slice());
    let locn: [u8; 8] = [76u8, 111u8, 99u8, 97u8, 116u8, 105u8, 111u8, 110u8];
    proof {
        assert(locn@ =~= location_name());
    }
    let mut hdrs: Vec<Header> = Vec::new();
    hdrs.push(Header { name: copy_bytes(&locn), value: loc });
    let resp = ResponseHead { status: 307, version: req.version, headers: hdrs };
    proof {
        assert(headers_pairs(resp.headers@) =~= seq![
            (
                location_name(),
                redirect_location(header_value(req.headers@, host_name()).unwrap(), req.uri@),
            ),
        ]);
    }
    Some(resp)
}

} // verus!
