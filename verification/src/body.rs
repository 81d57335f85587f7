//! The request body decoder: framing chosen from the parsed headers
//! (`Transfer-Encoding: chunked`, `Content-Length`, or no body), fed one
//! byte at a time, with the interim `100 Continue` deferred until the
//! handler's first read.

use vstd::prelude::*;
use crate::headers::{
    Header, name_matches, header_value, lemma_header_idx_some, lemma_header_idx_none, find_header,
};
use crate::head::HttpVersion;
use crate::chunked::{ChunkState, chunk_step, chunk_step_exec, initial_chunk_state};
use crate::response::{te_name, chunked_value, continue_bytes, encode_continue};

verus! {

#[derive(Clone, Copy, PartialEq, Eq, Structural, Debug)]
pub enum BodyFraming {
    /// `Content-Length` framing; zero stands for no body at all.
    Sized(u64),
    /// `Transfer-Encoding: chunked` framing.
    Chunked,
}

#[derive(Clone, Copy, PartialEq, Eq, Structural, Debug)]
pub enum BodyFramingError {
    /// A `Transfer-Encoding` header other than exactly `chunked`.
    BadTransferEncoding,
    /// A `Content-Length` that is not a plain decimal number in range.
    BadContentLength,
}

pub open spec fn content_length_name() -> Seq<u8> {
    // content-length
    seq![99u8, 111u8, 110u8, 116u8, 101u8, 110u8, 116u8, 45u8, 108u8, 101u8, 110u8, 103u8, 116u8,
        104u8]
}

pub open spec fn expect_name() -> Seq<u8> {
    seq![101u8, 120u8, 112u8, 101u8, 99u8, 116u8]  // expect
}

pub open spec fn continue_value() -> Seq<u8> {
    // 100-continue
    seq![49u8, 48u8, 48u8, 45u8, 99u8, 111u8, 110u8, 116u8, 105u8, 110u8, 117u8, 101u8]
}

pub open spec fn is_te_at(hs: Seq<Header>, i: int) -> bool {
    0 <= i < hs.len() && name_matches(hs[i].name@, te_name())
}

pub open spec fn has_te(hs: Seq<Header>) -> bool {
    exists|i: int| is_te_at(hs, i)
}

pub open spec fn te_all_chunked(hs: Seq<Header>) -> bool {
    forall|i: int| is_te_at(hs, i) ==> #[trigger] hs[i].value@ == chunked_value()
}

// ---- plain decimal numbers ----

pub open spec fn all_digits(v: Seq<u8>) -> bool {
    &&& v.len() > 0
    &&& forall|i: int| 0 <= i < v.len() ==> 48 <= #[trigger] v[i] <= 57
}

pub open spec fn dec_value(v: Seq<u8>) -> nat
    decreases v.len(),
{
    if v.len() == 0 {
        0
    } else {
        dec_value(v.subrange(0, v.len() - 1)) * 10 + (v[v.len() - 1] - 48) as nat
    }
}

pub open spec fn parse_content_length(v: Seq<u8>) -> Option<u64> {
    if all_digits(v) && dec_value(v) <= u64::MAX as nat {
        Some(dec_value(v) as u64)
    } else {
        None
    }
}

/// Longer digit strings never stand for smaller numbers.
proof fn lemma_dec_value_prefix_le(v: Seq<u8>, i: int, j: int)
    requires
        0 <= i <= j <= v.len(),
    ensures
        dec_value(v.subrange(0, i)) <= dec_value(v.subrange(0, j)),
    decreases j - i,
{
    if i < j {
        lemma_dec_value_prefix_le(v, i, j - 1);
        let a = v.subrange(0, j - 1);
        let b = v.subrange(0, j);
        assert(b.subrange(0, b.len() - 1) =~= a);
        assert(dec_value(b) == dec_value(a) * 10 + (v[j - 1] - 48) as nat);
        assert(dec_value(a) <= dec_value(a) * 10) by (nonlinear_arith);
    }
}

/// Parse a decimal `Content-Length` value.
#[verifier::loop_isolation(false)]
pub fn parse_content_length_exec(v: &[u8]) -> (r: Option<u64>)
    ensures
        r == parse_content_length(v@),
{
    if v.len() == 0 {
        return None;
    }
    let mut acc: u64 = 0;
    let mut i: usize = 0;
    proof {
        assert(v@.subrange(0, 0) =~= Seq::<u8>::empty());
    }
    while i < v.len()
        invariant
            0 <= i <= v@.len(),
            acc as nat == dec_value(v@.subrange(0, i as int)),
            forall|m: int| 0 <= m < i ==> 48 <= #[trigger] v@[m] <= 57,
        decreases v@.len() - i,
    {
        let c = v[i];
        if !(48 <= c && c <= 57) {
            proof {
                assert(!all_digits(v@));
            }
            return None;
        }
        let d = (c - 48) as u64;
        if acc > (u64::MAX - d) / 10 {
            proof {
                assert(acc as nat * 10 + d as nat > u64::MAX as nat) by (nonlinear_arith)
                    requires
                        acc as nat > ((u64::MAX - d) / 10) as nat,
                        d < 10,
                ;
                assert(v@.subrange(0, i + 1).subrange(0, i as int) =~= v@.subrange(0, i as int));
                assert(dec_value(v@.subrange(0, i + 1)) == acc as nat * 10 + d as nat);
                lemma_dec_value_prefix_le(v@, i + 1, v@.len() as int);
                assert(v@.subrange(0, v@.len() as int) =~= v@);
            }
            return None;
        }
        proof {
            assert(acc as nat * 10 + d as nat <= u64::MAX as nat) by (nonlinear_arith)
                requires
                    acc as nat <= ((u64::MAX - d) / 10) as nat,
                    d < 10,
            ;
            assert(v@.subrange(0, i + 1).subrange(0, i as int) =~= v@.subrange(0, i as int));
        }
        acc = acc * 10 + d;
        i = i + 1;
    }
    proof {
        assert(v@.subrange(0, v@.len() as int) =~= v@);
    }
    Some(acc)
}

// ---- framing from headers ----

/// Which framing the parsed headers call for, as the head/body codec
/// chooses it: any `Transfer-Encoding` header must be exactly `chunked`;
/// else `Content-Length`; else no body.
pub open spec fn framing_of_headers(hs: Seq<Header>) -> Result<BodyFraming, BodyFramingError> {
    if has_te(hs) {
        if te_all_chunked(hs) {
            Ok(BodyFraming::Chunked)
        } else {
            Err(BodyFramingError::BadTransferEncoding)
        }
    } else {
        match header_value(hs, content_length_name()) {
            Some(v) => match parse_content_length(v) {
                Some(n) => Ok(BodyFraming::Sized(n)),
                None => Err(BodyFramingError::BadContentLength),
            },
            None => Ok(BodyFraming::Sized(0)),
        }
    }
}

/// The request asks for an interim `100 Continue` before its body is read.
pub open spec fn expects_continue(hs: Seq<Header>) -> bool {
    exists|i: int|
        0 <= i < hs.len() && name_matches(#[trigger] hs[i].name@, expect_name()) && hs[i].value@
            == continue_value()
}

pub fn framing_from_headers(headers: &Vec<Header>) -> (r: Result<BodyFraming, BodyFramingError>)
    ensures
        r == framing_of_headers(headers@),
{
    let te: [u8; 17] = [116u8, 114u8, 97u8, 110u8, 115u8, 102u8, 101u8, 114u8, 45u8, 101u8, 110u8,
        99u8, 111u8, 100u8, 105u8, 110u8, 103u8];
    let ch: [u8; 7] = [99u8, 104u8, 117u8, 110u8, 107u8, 101u8, 100u8];
    proof {
        assert(te@ =~= te_name());
        assert(ch@ =~= chunked_value());
    }
    let mut any_te = false;
    let mut i: usize = 0;
    while i < headers.len()
        invariant
            0 <= i <= headers@.len(),
            te@ == te_name(),
            ch@ == chunked_value(),
            any_te == exists|k: int| 0 <= k < i && is_te_at(headers@, k),
            forall|k: int|
                0 <= k < i && is_te_at(headers@, k) ==> #[trigger] headers@[k].value@
                    == chunked_value(),
        decreases headers@.len() - i,
    {
        if crate::bytes::eq_ignore_case(headers[i].name.as_slice(), &te) {
            if !crate::bytes::eq_bytes(headers[i].value.as_slice(), &ch) {
                proof {
                    assert(is_te_at(headers@, i as int));
                    assert(!te_all_chunked(headers@));
                }
                return Err(BodyFramingError::BadTransferEncoding);
            }
            any_te = true;
            proof {
                assert(is_te_at(headers@, i as int));
            }
        }
        i = i + 1;
    }
    if any_te {
        proof {
            assert(te_all_chunked(headers@));
        }
        return Ok(BodyFraming::Chunked);
    }
    proof {
        assert(!has_te(headers@));
    }
    let cl: [u8; 14] = [99u8, 111u8, 110u8, 116u8, 101u8, 110u8, 116u8, 45u8, 108u8, 101u8, 110u8,
        103u8, 116u8, 104u8];
    proof {
        assert(cl@ =~= content_length_name());
    }
    match find_header(headers, &cl) {
        None => {
            proof {
                lemma_header_idx_none(headers@, content_length_name());
            }
            Ok(BodyFraming::Sized(0))
        },
        Some(ix) => {
            proof {
                lemma_header_idx_some(headers@, content_length_name(), ix as int);
            }
            match parse_content_length_exec(headers[ix].value.as_slice()) {
                Some(n) => Ok(BodyFraming::Sized(n)),
                None => Err(BodyFramingError::BadContentLength),
            }
        },
    }
}

pub fn headers_expect_continue(headers: &Vec<Header>) -> (r: bool)
    ensures
        r == expects_continue(headers@),
{
    let ex: [u8; 6] = [101u8, 120u8, 112u8, 101u8, 99u8, 116u8];
    let cv: [u8; 12] = [49u8, 48u8, 48u8, 45u8, 99u8, 111u8, 110u8, 116u8, 105u8, 110u8, 117u8,
        101u8];
    proof {
        assert(ex@ =~= expect_name());
        assert(cv@ =~= continue_value());
    }
    let mut i: usize = 0;
    while i < headers.len()
        invariant
            0 <= i <= headers@.len(),
            ex@ == expect_name(),
            cv@ == continue_value(),
            forall|k: int|
                0 <= k < i ==> !(name_matches(#[trigger] headers@[k].name@, expect_name())
                    && headers@[k].value@ == continue_value()),
        decreases headers@.len() - i,
    {
        if crate::bytes::eq_ignore_case(headers[i].name.as_slice(), &ex) {
            if crate::bytes::eq_bytes(headers[i].value.as_slice(), &cv) {
                return true;
            }
        }
        i = i + 1;
    }
    false
}

// ---- the decoder ----

#[derive(Clone, Copy, PartialEq, Eq, Structural, Debug)]
pub enum BodyProgress {
    /// `Content-Length` framing with that many bytes still owed.
    Sized { remaining: u64 },
    /// Chunked framing in the given machine state.
    Chunked { st: ChunkState },
    /// The whole body is consumed.
    Done,
    /// The peer broke the chunked framing.
    Failed,
}

/// A request body decoder bound to one connection. It consumes transport
/// bytes one at a time and hands the payload bytes out; it owns the decision
/// when the interim `100 Continue` goes on the wire.
pub struct BodyDecoder {
    pub version: HttpVersion,
    pub continue_pending: bool,
    pub progress: BodyProgress,
}

impl BodyDecoder {
    /// Construct the decoder for a freshly decoded head. Nothing is written
    /// to the wire here: if the request expects `100 Continue`, the interim
    /// response stays pending until the first read.
    pub fn from_headers(version: HttpVersion, headers: &Vec<Header>) -> (r: Result<
        BodyDecoder,
        BodyFramingError,
    >)
        ensures
            match r {
                Ok(d) => {
                    &&& d.version == version
                    &&& d.continue_pending == expects_continue(headers@)
                    &&& match framing_of_headers(headers@) {
                        Ok(BodyFraming::Sized(n)) => d.progress == if n == 0 {
                            BodyProgress::Done
                        } else {
                            BodyProgress::Sized { remaining: n }
                        },
                        Ok(BodyFraming::Chunked) => d.progress == (BodyProgress::Chunked {
                            st: initial_chunk_state(),
                        }),
                        Err(_) => false,
                    }
                },
                Err(e) => framing_of_headers(headers@) == Err::<BodyFraming, _>(e),
            },
    {
        let framing = framing_from_headers(headers)?;
        let progress = match framing {
            BodyFraming::Sized(n) => if n == 0 {
                BodyProgress::Done
            } else {
                BodyProgress::Sized { remaining: n }
            },
            BodyFraming::Chunked => BodyProgress::Chunked {
                st: ChunkState::Size { value: 0, any: false },
            },
        };
        Ok(BodyDecoder { version, continue_pending: headers_expect_continue(headers), progress })
    }

    /// The bytes owed to the wire when the handler first reads the body: the
    /// interim `100 Continue` exactly when the request asked for it and
    /// nothing was sent yet; empty on every later call.
    pub fn on_read_polled(&mut self) -> (wire: Vec<u8>)
        ensures
            final(self).progress == old(self).progress,
            final(self).version == old(self).version,
            !final(self).continue_pending,
            wire@ == if old(self).continue_pending {
                continue_bytes(old(self).version)
            } else {
                Seq::<u8>::empty()
            },
    {
        if self.continue_pending {
            self.continue_pending = false;
            encode_continue(self.version)
        } else {
            Vec::new()
        }
    }

    /// Feed one transport byte. Returns the payload byte it stands for, if
    /// any. The interim response must have been dealt with first, so that no
    /// body byte is consumed while a `100 Continue` is still owed.
    pub fn feed(&mut self, b: u8) -> (out: Option<u8>)
        requires
            !old(self).continue_pending,
            !(old(self).progress is Done),
            !(old(self).progress is Failed),
        ensures
            final(self).version == old(self).version,
            !final(self).continue_pending,
            match old(self).progress {
                BodyProgress::Sized { remaining } => {
                    &&& out == Some(b)
                    &&& final(self).progress == if remaining <= 1 {
                        BodyProgress::Done
                    } else {
                        BodyProgress::Sized { remaining: (remaining - 1) as u64 }
                    }
                },
                BodyProgress::Chunked { st } => {
                    &&& out == chunk_step(st, b).1
                    &&& final(self).progress == match chunk_step(st, b).0 {
                        ChunkState::Done => BodyProgress::Done,
                        ChunkState::Failed => BodyProgress::Failed,
                        st2 => BodyProgress::Chunked { st: st2 },
                    }
                },
                _ => false,
            },
    {
        match self.progress {
            BodyProgress::Sized { remaining } => {
                if remaining <= 1 {
                    self.progress = BodyProgress::Done;
                } else {
                    self.progress = BodyProgress::Sized { remaining: remaining - 1 };
                }
                Some(b)
            },
            BodyProgress::Chunked { st } => {
                let (st2, out) = chunk_step_exec(st, b);
                match st2 {
                    ChunkState::Done => {
                        self.progress = BodyProgress::Done;
                    },
                    ChunkState::Failed => {
                        self.progress = BodyProgress::Failed;
                    },
                    _ => {
                        self.progress = BodyProgress::Chunked { st: st2 };
                    },
                }
                out
            },
            _ => {
                None
            },
        }
    }
}

} // verus!
