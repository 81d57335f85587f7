//! Response-head framing and the send path: status line, headers, and the
//! body always re-framed as chunked, whatever way the caller supplied it.

use vstd::prelude::*;
use crate::bytes::crlf;
use crate::headers::{Header, name_matches, wf_header, wf_headers};
use crate::head::{HttpVersion, version_bytes, headers_bytes, headers_pairs, push_all};
use crate::chunked::{chunked_body, encode_chunked_body};

verus! {

/// A response head: status, version (copied from the request), headers.
pub struct ResponseHead {
    pub status: u16,
    pub version: HttpVersion,
    pub headers: Vec<Header>,
}

pub open spec fn wf_response_head(r: ResponseHead) -> bool {
    &&& 100 <= r.status <= 999
    &&& wf_headers(r.headers@)
}

/// The three decimal digits of a status code.
pub open spec fn status_digits(status: u16) -> Seq<u8> {
    seq![
        (48 + status / 100) as u8,
        (48 + (status / 10) % 10) as u8,
        (48 + status % 10) as u8,
    ]
}

/// Reason phrases this system writes; an empty phrase for codes it has no
/// word for.
pub open spec fn reason_phrase(status: u16) -> Seq<u8> {
    if status == 100 {
        seq![67u8, 111u8, 110u8, 116u8, 105u8, 110u8, 117u8, 101u8]  // Continue
    } else if status == 101 {
        // Switching Protocols
        seq![83u8, 119u8, 105u8, 116u8, 99u8, 104u8, 105u8, 110u8, 103u8, 32u8, 80u8, 114u8,
            111u8, 116u8, 111u8, 99u8, 111u8, 108u8, 115u8]
    } else if status == 200 {
        seq![79u8, 75u8]  // OK
    } else if status == 307 {
        // Temporary Redirect
        seq![84u8, 101u8, 109u8, 112u8, 111u8, 114u8, 97u8, 114u8, 121u8, 32u8, 82u8, 101u8,
            100u8, 105u8, 114u8, 101u8, 99u8, 116u8]
    } else if status == 400 {
        // Bad Request
        seq![66u8, 97u8, 100u8, 32u8, 82u8, 101u8, 113u8, 117u8, 101u8, 115u8, 116u8]
    } else if status == 404 {
        // Not Found
        seq![78u8, 111u8, 116u8, 32u8, 70u8, 111u8, 117u8, 110u8, 100u8]
    } else if status == 500 {
        // Internal Server Error
        seq![73u8, 110u8, 116u8, 101u8, 114u8, 110u8, 97u8, 108u8, 32u8, 83u8, 101u8, 114u8,
            118u8, 101u8, 114u8, 32u8, 69u8, 114u8, 114u8, 111u8, 114u8]
    } else {
        Seq::empty()
    }
}

pub open spec fn status_line_bytes(v: HttpVersion, status: u16) -> Seq<u8> {
    version_bytes(v) + seq![32u8] + status_digits(status) + seq![32u8] + reason_phrase(status)
        + crlf()
}

/// The exact bytes this system writes for a response head.
pub open spec fn response_head_bytes(r: ResponseHead) -> Seq<u8> {
    status_line_bytes(r.version, r.status) + headers_bytes(r.headers@) + crlf()
}

/// The interim response written for `Expect: 100-continue`, in the request's
/// version: a bare `100 Continue` head.
pub open spec fn continue_bytes(v: HttpVersion) -> Seq<u8> {
    status_line_bytes(v, 100) + crlf()
}

fn push_reason(status: u16, out: &mut Vec<u8>)
    ensures
        final(out)@ == old(out)@ + reason_phrase(status),
{
    if status == 100 {
        let w: [u8; 8] = [67u8, 111u8, 110u8, 116u8, 105u8, 110u8, 117u8, 101u8];
        proof {
            assert(w@ =~= reason_phrase(status));
        }
        push_all(out, &w);
    } else if status == 101 {
        let w: [u8; 19] = [83u8, 119u8, 105u8, 116u8, 99u8, 104u8, 105u8, 110u8, 103u8, 32u8,
            80u8, 114u8, 111u8, 116u8, 111u8, 99u8, 111u8, 108u8, 115u8];
        proof {
            assert(w@ =~= reason_phrase(status));
        }
        push_all(out, &w);
    } else if status == 200 {
        let w: [u8; 2] = [79u8, 75u8];
        proof {
            assert(w@ =~= reason_phrase(status));
        }
        push_all(out, &w);
    } else if status == 307 {
        let w: [u8; 18] = [84u8, 101u8, 109u8, 112u8, 111u8, 114u8, 97u8, 114u8, 121u8, 32u8,
            82u8, 101u8, 100u8, 105u8, 114u8, 101u8, 99u8, 116u8];
        proof {
            assert(w@ =~= reason_phrase(status));
        }
        push_all(out, &w);
    } else if status == 400 {
        let w: [u8; 11] = [66u8, 97u8, 100u8, 32u8, 82u8, 101u8, 113u8, 117u8, 101u8, 115u8,
            116u8];
        proof {
            assert(w@ =~= reason_phrase(status));
        }
        push_all(out, &w);
    } else if status == 404 {
        let w: [u8; 9] = [78u8, 111u8, 116u8, 32u8, 70u8, 111u8, 117u8, 110u8, 100u8];
        proof {
            assert(w@ =~= reason_phrase(status));
        }
        push_all(out, &w);
    } else if status == 500 {
        let w: [u8; 21] = [73u8, 110u8, 116u8, 101u8, 114u8, 110u8, 97u8, 108u8, 32u8, 83u8,
            101u8, 114u8, 118u8, 101u8, 114u8, 32u8, 69u8, 114u8, 114u8, 111u8, 114u8];
        proof {
            assert(w@ =~= reason_phrase(status));
        }
        push_all(out, &w);
    } else {
        proof {
            assert(old(out)@ + reason_phrase(status) =~= old(out)@);
        }
    }
}

fn push_status_line(v: HttpVersion, status: u16, out: &mut Vec<u8>)
    requires
        100 <= status <= 999,
    ensures
        final(out)@ == old(out)@ + status_line_bytes(v, status),
{
    match v {
        HttpVersion::V10 => {
            let w: [u8; 8] = [72u8, 84u8, 84u8, 80u8, 47u8, 49u8, 46u8, 48u8];
            proof {
                assert(w@ =~= version_bytes(v));
            }
            push_all(out, &w);
        },
        HttpVersion::V11 => {
            let w: [u8; 8] = [72u8, 84u8, 84u8, 80u8, 47u8, 49u8, 46u8, 49u8];
            proof {
                assert(w@ =~= version_bytes(v));
            }
            push_all(out, &w);
        },
    }
    out.push(32);
    out.push(48 + (status / 100) as u8);
    out.push(48 + ((status / 10) % 10) as u8);
    out.push(48 + (status % 10) as u8);
    out.push(32);
    push_reason(status, out);
    out.push(13);
    out.push(10);
    proof {
        assert(out@ =~= old(out)@ + status_line_bytes(v, status));
    }
}

/// Write the wire form of a response head: exactly `response_head_bytes`.
pub fn encode_response_head(r: &ResponseHead) -> (out: Vec<u8>)
    requires
        100 <= r.status <= 999,
    ensures
        out@ == response_head_bytes(*r),
{
    let mut out: Vec<u8> = Vec::new();
    push_status_line(r.version, r.status, &mut out);
    let ghost sl = out@;
    let mut idx: usize = 0;
    while idx < r.headers.len()
        invariant
            0 <= idx <= r.headers@.len(),
            sl == status_line_bytes(r.version, r.status),
            out@ == sl + headers_bytes(r.headers@.subrange(0, idx as int)),
        decreases r.headers@.len() - idx,
    {
        let hd = &r.headers[idx];
        push_all(&mut out, hd.name.as_slice());
        out.push(58);
        out.push(32);
        push_all(&mut out, hd.value.as_slice());
        out.push(13);
        out.push(10);
        proof {
            crate::head::lemma_headers_bytes_snoc(r.headers@, idx as int);
            assert(out@ =~= sl + headers_bytes(r.headers@.subrange(0, idx + 1)));
        }
        idx = idx + 1;
    }
    out.push(13);
    out.push(10);
    proof {
        assert(r.headers@.subrange(0, r.headers@.len() as int) =~= r.headers@);
        assert(out@ =~= response_head_bytes(*r));
    }
    out
}

/// The interim `100 Continue` head, byte for byte.
pub fn encode_continue(v: HttpVersion) -> (out: Vec<u8>)
    ensures
        out@ == continue_bytes(v),
{
    let mut out: Vec<u8> = Vec::new();
    push_status_line(v, 100, &mut out);
    out.push(13);
    out.push(10);
    proof {
        assert(out@ =~= continue_bytes(v));
    }
    out
}

/// Header pairs with every `Transfer-Encoding` header removed.
pub open spec fn pairs_without(ps: Seq<(Seq<u8>, Seq<u8>)>, name: Seq<u8>) -> Seq<
    (Seq<u8>, Seq<u8>),
>
    decreases ps.len(),
{
    if ps.len() == 0 {
        ps
    } else {
        let rest = pairs_without(ps.subrange(1, ps.len() as int), name);
        if name_matches(ps[0].0, name) {
            rest
        } else {
            seq![ps[0]] + rest
        }
    }
}

pub open spec fn te_name() -> Seq<u8> {
    // transfer-encoding
    seq![116u8, 114u8, 97u8, 110u8, 115u8, 102u8, 101u8, 114u8, 45u8, 101u8, 110u8, 99u8, 111u8,
        100u8, 105u8, 110u8, 103u8]
}

pub open spec fn chunked_value() -> Seq<u8> {
    seq![99u8, 104u8, 117u8, 110u8, 107u8, 101u8, 100u8]  // chunked
}

proof fn lemma_pairs_without_snoc(ps: Seq<(Seq<u8>, Seq<u8>)>, name: Seq<u8>, i: int)
    requires
        0 <= i < ps.len(),
    ensures
        pairs_without(ps.subrange(0, i + 1), name) == if name_matches(ps[i].0, name) {
            pairs_without(ps.subrange(0, i), name)
        } else {
            pairs_without(ps.subrange(0, i), name) + seq![ps[i]]
        },
    decreases i,
{
    let a = ps.subrange(0, i + 1);
    let b = ps.subrange(0, i);
    if i == 0 {
        assert(a.subrange(1, 1) =~= ps.subrange(1, 1).subrange(0, 0));
        assert(pairs_without(a.subrange(1, a.len() as int), name) =~= Seq::<
            (Seq<u8>, Seq<u8>),
        >::empty());
        if !name_matches(ps[0].0, name) {
            assert(pairs_without(a, name) =~= pairs_without(b, name) + seq![ps[0]]);
        }
    } else {
        let ps1 = ps.subrange(1, ps.len() as int);
        lemma_pairs_without_snoc(ps1, name, i - 1);
        assert(a.subrange(1, a.len() as int) =~= ps1.subrange(0, i));
        assert(b.subrange(1, b.len() as int) =~= ps1.subrange(0, i - 1));
        assert(ps1[i - 1] == ps[i]);
        assert(a[0] == ps[0] && b[0] == ps[0]);
        if name_matches(ps[i].0, name) {
        } else if name_matches(ps[0].0, name) {
        } else {
            assert(seq![ps[0]] + (pairs_without(ps1.subrange(0, i - 1), name) + seq![ps[i]])
                =~= (seq![ps[0]] + pairs_without(ps1.subrange(0, i - 1), name)) + seq![ps[i]]);
        }
    }
}

/// Replace whatever `Transfer-Encoding` the caller set: the response body
/// always goes out chunked.
pub fn force_chunked_te(headers: &mut Vec<Header>)
    requires
        wf_headers(old(headers)@),
    ensures
        wf_headers(final(headers)@),
        headers_pairs(final(headers)@) == pairs_without(headers_pairs(old(headers)@), te_name())
            + seq![(te_name(), chunked_value())],
{
    let te: [u8; 17] = [116u8, 114u8, 97u8, 110u8, 115u8, 102u8, 101u8, 114u8, 45u8, 101u8, 110u8,
        99u8, 111u8, 100u8, 105u8, 110u8, 103u8];
    let ch: [u8; 7] = [99u8, 104u8, 117u8, 110u8, 107u8, 101u8, 100u8];
    proof {
        assert(te@ =~= te_name());
        assert(ch@ =~= chunked_value());
    }
    let ghost ops = headers_pairs(old(headers)@);
    let mut kept: Vec<Header> = Vec::new();
    let mut idx: usize = 0;
    proof {
        assert(ops.subrange(0, 0) =~= Seq::<(Seq<u8>, Seq<u8>)>::empty());
        assert(headers_pairs(kept@) =~= pairs_without(ops.subrange(0, 0), te_name()));
    }
    while idx < headers.len()
        invariant
            0 <= idx <= headers@.len(),
            headers@ == old(headers)@,
            ops == headers_pairs(old(headers)@),
            wf_headers(old(headers)@),
            wf_headers(kept@),
            headers_pairs(kept@) == pairs_without(ops.subrange(0, idx as int), te_name()),
            te@ == te_name(),
        decreases headers@.len() - idx,
    {
        let keep = !crate::bytes::eq_ignore_case(headers[idx].name.as_slice(), &te);
        proof {
            assert(ops[idx as int] == (headers@[idx as int].name@, headers@[idx as int].value@));
            lemma_pairs_without_snoc(ops, te_name(), idx as int);
        }
        if keep {
            let nm = crate::bytes::copy_bytes(headers[idx].name.as_slice());
            let vl = crate::bytes::copy_bytes(headers[idx].value.as_slice());
            let ghost before = kept@;
            kept.push(Header { name: nm, value: vl });
            proof {
                assert(wf_header(headers@[idx as int]));
                assert forall|q: int| 0 <= q < kept@.len() implies wf_header(
                    #[trigger] kept@[q],
                ) by {
                    if q < before.len() {
                        assert(kept@[q] == before[q]);
                    }
                }
                assert(headers_pairs(kept@) =~= headers_pairs(before) + seq![ops[idx as int]]);
            }
        }
        idx = idx + 1;
    }
    proof {
        assert(ops.subrange(0, ops.len() as int) =~= ops);
    }
    let te_v = crate::bytes::copy_bytes(&te);
    let ch_v = crate::bytes::copy_bytes(&ch);
    let ghost before = kept@;
    kept.push(Header { name: te_v, value: ch_v });
    proof {
        assert(wf_header(kept@[kept@.len() - 1]));
        assert forall|q: int| 0 <= q < kept@.len() implies wf_header(#[trigger] kept@[q]) by {
            if q < before.len() {
                assert(kept@[q] == before[q]);
            } else {
                assert(kept@[q] == kept@[kept@.len() - 1]);
            }
        }
        assert(headers_pairs(kept@) =~= pairs_without(ops, te_name()) + seq![(
            te_name(),
            chunked_value(),
        )]);
    }
    *headers = kept;
}

impl ResponseHead {
    /// A fresh response head: `200` in the request's version, no headers yet.
    pub fn new(version: HttpVersion) -> (r: ResponseHead)
        ensures
            r.status == 200,
            r.version == version,
            r.headers@.len() == 0,
    {
        ResponseHead { status: 200, version, headers: Vec::new() }
    }

    /// The currently set status.
    pub fn status(&self) -> (r: u16)
        ensures
            r == self.status,
    {
        self.status
    }

    /// Set the response status.
    pub fn set_status(&mut self, status: u16)
        requires
            100 <= status <= 999,
        ensures
            final(self).status == status,
            final(self).version == old(self).version,
            final(self).headers == old(self).headers,
    {
        self.status = status;
    }

    pub fn version(&self) -> (r: HttpVersion)
        ensures
            r == self.version,
    {
        self.version
    }

    pub fn headers(&self) -> (r: &Vec<Header>)
        ensures
            r@ == self.headers@,
    {
        &self.headers
    }

    /// Insert a header: the first header of that name, if any, takes the new
    /// value in place and later duplicates go away; otherwise the header is
    /// appended. Mutable until the head is written; the send path freezes it.
    pub fn insert_header(&mut self, name: &[u8], value: &[u8])
        requires
            wf_headers(old(self).headers@),
            crate::headers::valid_header_name(name@),
            crate::headers::valid_header_value(value@),
        ensures
            final(self).status == old(self).status,
            final(self).version == old(self).version,
            wf_headers(final(self).headers@),
            ({
                let ops = headers_pairs(old(self).headers@);
                headers_pairs(final(self).headers@) == match crate::headers::header_idx(
                    old(self).headers@,
                    name@,
                ) {
                    None => ops + seq![(name@, value@)],
                    Some(i) => ops.subrange(0, i) + seq![(name@, value@)] + pairs_without(
                        ops.subrange(i + 1, ops.len() as int),
                        name@,
                    ),
                }
            }),
    {
        let ghost ops = headers_pairs(old(self).headers@);
        let idx = crate::headers::find_header(&self.headers, name);
        match idx {
            None => {
                proof {
                    crate::headers::lemma_header_idx_none(self.headers@, name@);
                }
                let ghost before = self.headers@;
                self.headers.push(
                    Header {
                        name: crate::bytes::copy_bytes(name),
                        value: crate::bytes::copy_bytes(value),
                    },
                );
                proof {
                    assert forall|q: int| 0 <= q < self.headers@.len() implies wf_header(
                        #[trigger] self.headers@[q],
                    ) by {
                        if q < before.len() {
                            assert(self.headers@[q] == before[q]);
                        }
                    }
                    assert(headers_pairs(self.headers@) =~= ops + seq![(name@, value@)]);
                }
            },
            Some(i) => {
                proof {
                    crate::headers::lemma_header_idx_some(self.headers@, name@, i as int);
                }
                let hlen = self.headers.len();
                let ghost hs = self.headers@;
                let ghost tail = ops.subrange(i + 1, ops.len() as int);
                let mut kept: Vec<Header> = Vec::new();
                let mut j: usize = 0;
                proof {
                    assert(headers_pairs(kept@) =~= ops.subrange(0, 0));
                }
                while j < i
                    invariant
                        0 <= j <= i < hs.len(),
                        hs == self.headers@,
                        wf_headers(hs),
                        ops == headers_pairs(hs),
                        wf_headers(kept@),
                        headers_pairs(kept@) == ops.subrange(0, j as int),
                    decreases i - j,
                {
                    let ghost before = kept@;
                    let nm2 = crate::bytes::copy_bytes(self.headers[j].name.as_slice());
                    let vl2 = crate::bytes::copy_bytes(self.headers[j].value.as_slice());
                    kept.push(Header { name: nm2, value: vl2 });
                    proof {
                        assert(wf_header(hs[j as int]));
                        assert forall|q: int| 0 <= q < kept@.len() implies wf_header(
                            #[trigger] kept@[q],
                        ) by {
                            if q < before.len() {
                                assert(kept@[q] == before[q]);
                            }
                        }
                        assert(ops[j as int] == (hs[j as int].name@, hs[j as int].value@));
                        assert(headers_pairs(kept@) =~= headers_pairs(before) + seq![
                            ops[j as int],
                        ]);
                        assert(ops.subrange(0, j + 1) =~= ops.subrange(0, j as int) + seq![
                            ops[j as int],
                        ]);
                    }
                    j = j + 1;
                }
                let ghost before = kept@;
                kept.push(
                    Header {
                        name: crate::bytes::copy_bytes(name),
                        value: crate::bytes::copy_bytes(value),
                    },
                );
                proof {
                    assert forall|q: int| 0 <= q < kept@.len() implies wf_header(
                        #[trigger] kept@[q],
                    ) by {
                        if q < before.len() {
                            assert(kept@[q] == before[q]);
                        }
                    }
                    assert(headers_pairs(kept@) =~= ops.subrange(0, i as int) + seq![
                        (name@, value@),
                    ]);
                    assert(tail.subrange(0, 0) =~= Seq::<(Seq<u8>, Seq<u8>)>::empty());
                    assert(headers_pairs(kept@) =~= ops.subrange(0, i as int) + seq![
                        (name@, value@),
                    ] + pairs_without(tail.subrange(0, 0), name@));
                }
                let mut k: usize = i + 1;
                while k < self.headers.len()
                    invariant
                        i < k <= hs.len(),
                        hs == self.headers@,
                        wf_headers(hs),
                        ops == headers_pairs(hs),
                        tail == ops.subrange(i + 1, ops.len() as int),
                        wf_headers(kept@),
                        headers_pairs(kept@) == ops.subrange(0, i as int) + seq![(name@, value@)]
                            + pairs_without(tail.subrange(0, k - i - 1), name@),
                    decreases hs.len() - k,
                {
                    proof {
                        assert(ops[k as int] == (hs[k as int].name@, hs[k as int].value@));
                        assert(tail[k - i - 1] == ops[k as int]);
                        lemma_pairs_without_snoc(tail, name@, k - i - 1);
                    }
                    let keep = !crate::bytes::eq_ignore_case(
                        self.headers[k].name.as_slice(),
                        name,
                    );
                    if keep {
                        let ghost before = kept@;
                        let nm2 = crate::bytes::copy_bytes(self.headers[k].name.as_slice());
                        let vl2 = crate::bytes::copy_bytes(self.headers[k].value.as_slice());
                        kept.push(Header { name: nm2, value: vl2 });
                        proof {
                            assert(wf_header(hs[k as int]));
                            assert forall|q: int| 0 <= q < kept@.len() implies wf_header(
                                #[trigger] kept@[q],
                            ) by {
                                if q < before.len() {
                                    assert(kept@[q] == before[q]);
                                }
                            }
                            assert(headers_pairs(kept@) =~= headers_pairs(before) + seq![
                                tail[k - i - 1],
                            ]);
                            assert(headers_pairs(kept@) =~= ops.subrange(0, i as int) + seq![
                                (name@, value@),
                            ] + pairs_without(tail.subrange(0, k - i), name@));
                        }
                    } else {
                        proof {
                            assert(headers_pairs(kept@) =~= ops.subrange(0, i as int) + seq![
                                (name@, value@),
                            ] + pairs_without(tail.subrange(0, k - i), name@));
                        }
                    }
                    k = k + 1;
                }
                proof {
                    assert(tail.subrange(0, tail.len() as int) =~= tail);
                }
                self.headers = kept;
            },
        }
    }
}

/// Everything this system puts on the wire for one response: the head, with
/// `Transfer-Encoding` forced to `chunked`, then the body re-framed as one
/// chunk and the zero-size terminator.
pub fn encode_response(head: &mut ResponseHead, body: &[u8]) -> (r: Vec<u8>)
    requires
        wf_response_head(*old(head)),
    ensures
        wf_response_head(*final(head)),
        final(head).status == old(head).status,
        final(head).version == old(head).version,
        headers_pairs(final(head).headers@) == pairs_without(
            headers_pairs(old(head).headers@),
            te_name(),
        ) + seq![(te_name(), chunked_value())],
        r@ == response_head_bytes(*final(head)) + chunked_body(body@),
{
    force_chunked_te(&mut head.headers);
    let mut out = encode_response_head(head);
    let chunks = encode_chunked_body(body);
    push_all(&mut out, chunks.as_slice());
    out
}

} // verus!
