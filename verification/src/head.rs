//! HTTP/1.1 request-head framing: the wire form of a head, a total
//! specification of decoding, and the bounded decoder itself. The head is
//! `method SP uri SP version CRLF (name ": " value CRLF)* CRLF`, capped at
//! `MAX_HEAD_LEN` bytes of combined header material.

use vstd::prelude::*;
use vstd::slice::{slice_subrange, slice_to_vec};
use crate::bytes::{
    crlf, head_terminator, match_at, find_sub, find_subslice, slice_match_at,
    lemma_find_sub_some, lemma_find_sub_none, lemma_find_sub_exact, lemma_match_one,
    lemma_match_crlf, lemma_match_term,
};
use crate::headers::{
    Header, wf_header, wf_headers, valid_header_name, valid_header_value, trim_leading, is_ws,
};

verus! {

/// Cap on the byte length of one request head, terminator included.
pub const MAX_HEAD_LEN: usize = 8192;

#[derive(Clone, Copy, PartialEq, Eq, Structural, Debug)]
pub enum HttpVersion {
    V10,
    V11,
}

#[derive(Clone, Copy, PartialEq, Eq, Structural, Debug)]
pub enum HeadDecodeError {
    /// No complete head within `MAX_HEAD_LEN` bytes.
    HeadTooLong,
    /// The start line declares a version other than HTTP/1.0 or HTTP/1.1.
    UnsupportedVersion,
    /// The start line is not `method SP uri SP version`.
    MalformedStartLine,
    /// A header line has no colon, or invalid name or value bytes.
    MalformedHeader,
}

/// A decoded request head: method, target, version, and the header multimap
/// in wire order.
pub struct RequestHead {
    pub method: Vec<u8>,
    pub uri: Vec<u8>,
    pub version: HttpVersion,
    pub headers: Vec<Header>,
}

/// The ghost image of a request head, over plain sequences.
#[verifier::ext_equal]
pub ghost struct HeadView {
    pub method: Seq<u8>,
    pub uri: Seq<u8>,
    pub version: HttpVersion,
    pub headers: Seq<(Seq<u8>, Seq<u8>)>,
}

pub open spec fn headers_pairs(hs: Seq<Header>) -> Seq<(Seq<u8>, Seq<u8>)> {
    hs.map_values(|h: Header| (h.name@, h.value@))
}

pub open spec fn head_view(h: RequestHead) -> HeadView {
    HeadView {
        method: h.method@,
        uri: h.uri@,
        version: h.version,
        headers: headers_pairs(h.headers@),
    }
}

/// Methods and request targets are non-empty printable ASCII without spaces.
pub open spec fn valid_token(t: Seq<u8>) -> bool {
    &&& t.len() > 0
    &&& forall|i: int| 0 <= i < t.len() ==> 33 <= #[trigger] t[i] <= 126
}

pub open spec fn wf_request_head(h: RequestHead) -> bool {
    &&& valid_token(h.method@)
    &&& valid_token(h.uri@)
    &&& wf_headers(h.headers@)
}

impl RequestHead {
    /// The request method's bytes.
    pub fn method(&self) -> (r: &Vec<u8>)
        ensures
            r@ == self.method@,
    {
        &self.method
    }

    /// The request target's bytes.
    pub fn uri(&self) -> (r: &Vec<u8>)
        ensures
            r@ == self.uri@,
    {
        &self.uri
    }

    /// The declared version.
    pub fn version(&self) -> (r: HttpVersion)
        ensures
            r == self.version,
    {
        self.version
    }

    /// The header multimap, in wire order.
    pub fn headers(&self) -> (r: &Vec<Header>)
        ensures
            r@ == self.headers@,
    {
        &self.headers
    }
}

// ---- the wire form ----

pub open spec fn version_bytes(v: HttpVersion) -> Seq<u8> {
    match v {
        HttpVersion::V10 => seq![72u8, 84u8, 84u8, 80u8, 47u8, 49u8, 46u8, 48u8],
        HttpVersion::V11 => seq![72u8, 84u8, 84u8, 80u8, 47u8, 49u8, 46u8, 49u8],
    }
}

pub open spec fn http_slash() -> Seq<u8> {
    seq![72u8, 84u8, 84u8, 80u8, 47u8]
}

pub open spec fn header_line_bytes(name: Seq<u8>, value: Seq<u8>) -> Seq<u8> {
    name + seq![58u8, 32u8] + value + crlf()
}

pub open spec fn headers_bytes(hs: Seq<Header>) -> Seq<u8>
    decreases hs.len(),
{
    if hs.len() == 0 {
        Seq::empty()
    } else {
        header_line_bytes(hs[0].name@, hs[0].value@) + headers_bytes(hs.subrange(1, hs.len() as int))
    }
}

pub open spec fn request_line_bytes(h: RequestHead) -> Seq<u8> {
    h.method@ + seq![32u8] + h.uri@ + seq![32u8] + version_bytes(h.version) + crlf()
}

/// The exact bytes this system writes for a request head.
pub open spec fn head_bytes(h: RequestHead) -> Seq<u8> {
    request_line_bytes(h) + headers_bytes(h.headers@) + crlf()
}

// ---- the decode specification ----

/// Position just past the first `CRLF CRLF`, if any.
pub open spec fn head_end(s: Seq<u8>) -> Option<int> {
    match find_sub(s, head_terminator(), 0) {
        None => None,
        Some(j) => Some(j + 4),
    }
}

/// Start line `method SP uri SP version`, ending at `e0` (the first CRLF).
pub open spec fn parse_request_line_at(s: Seq<u8>, e0: int) -> Result<
    (Seq<u8>, Seq<u8>, HttpVersion),
    HeadDecodeError,
> {
    match find_sub(s, seq![32u8], 0) {
        None => Err(HeadDecodeError::MalformedStartLine),
        Some(a) => if a >= e0 {
            Err(HeadDecodeError::MalformedStartLine)
        } else {
            match find_sub(s, seq![32u8], a + 1) {
                None => Err(HeadDecodeError::MalformedStartLine),
                Some(b) => if b >= e0 {
                    Err(HeadDecodeError::MalformedStartLine)
                } else {
                    let m = s.subrange(0, a);
                    let u = s.subrange(a + 1, b);
                    let v = s.subrange(b + 1, e0);
                    if !(valid_token(m) && valid_token(u)) {
                        Err(HeadDecodeError::MalformedStartLine)
                    } else if v == version_bytes(HttpVersion::V11) {
                        Ok((m, u, HttpVersion::V11))
                    } else if v == version_bytes(HttpVersion::V10) {
                        Ok((m, u, HttpVersion::V10))
                    } else if v.len() >= 5 && v.subrange(0, 5) == http_slash() {
                        Err(HeadDecodeError::UnsupportedVersion)
                    } else {
                        Err(HeadDecodeError::MalformedStartLine)
                    }
                },
            }
        },
    }
}

/// Header line starting at `i` and ending at `j` (its CRLF): name, colon,
/// optional blank space, value.
pub open spec fn parse_header_line_at(s: Seq<u8>, i: int, j: int) -> Option<(Seq<u8>, Seq<u8>)> {
    match find_sub(s, seq![58u8], i) {
        None => None,
        Some(k) => if k >= j {
            None
        } else {
            let nm = s.subrange(i, k);
            let val = trim_leading(s.subrange(k + 1, j));
            if valid_header_name(nm) && valid_header_value(val) {
                Some((nm, val))
            } else {
                None
            }
        },
    }
}

/// Header lines from `i` up to the final empty line at `n - 2`.
pub open spec fn parse_headers_from(s: Seq<u8>, i: int, n: int) -> Option<
    Seq<(Seq<u8>, Seq<u8>)>,
>
    decreases n - i,
    via parse_headers_from_dec
{
    if i == n - 2 {
        Some(Seq::empty())
    } else if !(0 <= i && i + 2 <= n - 2 && n <= s.len()) {
        None
    } else {
        match find_sub(s, crlf(), i) {
            None => None,
            Some(j) => if j > n - 4 {
                None
            } else {
                match parse_header_line_at(s, i, j) {
                    None => None,
                    Some(p) => match parse_headers_from(s, j + 2, n) {
                        None => None,
                        Some(rest) => Some(seq![p] + rest),
                    },
                }
            },
        }
    }
}

#[via_fn]
proof fn parse_headers_from_dec(s: Seq<u8>, i: int, n: int) {
    if i != n - 2 && 0 <= i && i + 2 <= n - 2 && n <= s.len() {
        match find_sub(s, crlf(), i) {
            Some(j) => {
                lemma_find_sub_some(s, crlf(), i, j);
            },
            None => {},
        }
    }
}

/// What decoding yields on a whole buffer.
#[verifier::ext_equal]
pub ghost enum HeadParse {
    Complete(HeadView, int),
    Partial,
    Fail(HeadDecodeError),
}

pub open spec fn parse_complete(s: Seq<u8>, n: int) -> Result<HeadView, HeadDecodeError> {
    match find_sub(s, crlf(), 0) {
        None => Err(HeadDecodeError::MalformedStartLine),
        Some(e0) => match parse_request_line_at(s, e0) {
            Err(e) => Err(e),
            Ok((m, u, v)) => match parse_headers_from(s, e0 + 2, n) {
                None => Err(HeadDecodeError::MalformedHeader),
                Some(pairs) => Ok(
                    HeadView { method: m, uri: u, version: v, headers: pairs },
                ),
            },
        },
    }
}

/// Total decode semantics: where the head ends, what it holds, and which
/// error each malformed input earns.
pub open spec fn decode_head_spec(s: Seq<u8>) -> HeadParse {
    match head_end(s) {
        None => if s.len() >= MAX_HEAD_LEN as int {
            HeadParse::Fail(HeadDecodeError::HeadTooLong)
        } else {
            HeadParse::Partial
        },
        Some(n) => if n > MAX_HEAD_LEN as int {
            HeadParse::Fail(HeadDecodeError::HeadTooLong)
        } else {
            match parse_complete(s, n) {
                Ok(hv) => HeadParse::Complete(hv, n),
                Err(e) => HeadParse::Fail(e),
            }
        },
    }
}

// ---- the decoder ----

pub enum HeadDecode {
    /// A head, and how many input bytes it occupies; bytes from there on
    /// belong to the body.
    Complete(RequestHead, usize),
    /// No full head yet and the cap not reached.
    NeedMore,
    Error(HeadDecodeError),
}

/// The decoder returns exactly what `decode_head_spec` names.
pub open spec fn decode_matches(s: Seq<u8>, r: HeadDecode) -> bool {
    match r {
        HeadDecode::Complete(h, n) => decode_head_spec(s) == HeadParse::Complete(
            head_view(h),
            n as int,
        ) && wf_request_head(h),
        HeadDecode::NeedMore => decode_head_spec(s) is Partial,
        HeadDecode::Error(e) => decode_head_spec(s) == HeadParse::Fail(e),
    }
}

fn check_token(s: &[u8], a: usize, b: usize) -> (r: bool)
    requires
        a <= b <= s@.len(),
    ensures
        r == valid_token(s@.subrange(a as int, b as int)),
{
    if a == b {
        return false;
    }
    let mut k: usize = a;
    while k < b
        invariant
            a <= k <= b <= s@.len(),
            forall|m: int| a <= m < k ==> 33 <= #[trigger] s@[m] <= 126,
        decreases b - k,
    {
        let c = s[k];
        if !(33 <= c && c <= 126) {
            assert(s@.subrange(a as int, b as int)[k - a] == s@[k as int]);
            return false;
        }
        k = k + 1;
    }
    proof {
        assert forall|i: int| 0 <= i < b - a implies 33 <= #[trigger] s@.subrange(
            a as int,
            b as int,
        )[i] <= 126 by {
            assert(s@.subrange(a as int, b as int)[i] == s@[a + i]);
        }
    }
    true
}

fn check_header_name(s: &[u8], a: usize, b: usize) -> (r: bool)
    requires
        a <= b <= s@.len(),
    ensures
        r == valid_header_name(s@.subrange(a as int, b as int)),
{
    if a == b {
        return false;
    }
    let mut k: usize = a;
    while k < b
        invariant
            a <= k <= b <= s@.len(),
            forall|m: int| a <= m < k ==> 33 <= #[trigger] s@[m] <= 126 && s@[m] != 58,
        decreases b - k,
    {
        let c = s[k];
        if !(33 <= c && c <= 126) || c == 58 {
            assert(s@.subrange(a as int, b as int)[k - a] == s@[k as int]);
            return false;
        }
        k = k + 1;
    }
    proof {
        assert forall|i: int| 0 <= i < b - a implies 33 <= #[trigger] s@.subrange(
            a as int,
            b as int,
        )[i] <= 126 && s@.subrange(a as int, b as int)[i] != 58 by {
            assert(s@.subrange(a as int, b as int)[i] == s@[a + i]);
        }
    }
    true
}

fn check_value_bytes(s: &[u8], a: usize, b: usize) -> (r: bool)
    requires
        a <= b <= s@.len(),
    ensures
        r == valid_header_value(s@.subrange(a as int, b as int)),
{
    if a < b {
        let c0 = s[a];
        if c0 == 32 || c0 == 9 {
            assert(is_ws(s@.subrange(a as int, b as int)[0]));
            return false;
        }
    }
    let mut k: usize = a;
    while k < b
        invariant
            a <= k <= b <= s@.len(),
            forall|m: int| a <= m < k ==> #[trigger] s@[m] != 13 && s@[m] != 10,
            a < b ==> !is_ws(s@[a as int]),
        decreases b - k,
    {
        let c = s[k];
        if c == 13 || c == 10 {
            assert(s@.subrange(a as int, b as int)[k - a] == s@[k as int]);
            return false;
        }
        k = k + 1;
    }
    proof {
        let sub = s@.subrange(a as int, b as int);
        assert forall|i: int| 0 <= i < sub.len() implies #[trigger] sub[i] != 13 && sub[i] != 10 by {
            assert(sub[i] == s@[a + i]);
        }
        if sub.len() > 0 {
            assert(sub[0] == s@[a as int]);
        }
    }
    true
}

/// Decode one request head from the front of `input`.
#[verifier::loop_isolation(false)]
pub fn decode_request_head(input: &[u8]) -> (r: HeadDecode)
    ensures
        decode_matches(input@, r),
{
    let ilen = input.len();
    let term4: [u8; 4] = [13u8, 10u8, 13u8, 10u8];
    proof {
        assert(term4@ =~= head_terminator());
    }
    let t = match find_subslice(input, &term4, 0) {
        None => {
            if ilen >= MAX_HEAD_LEN {
                return HeadDecode::Error(HeadDecodeError::HeadTooLong);
            }
            return HeadDecode::NeedMore;
        },
        Some(t) => t,
    };
    proof {
        lemma_find_sub_some(input@, head_terminator(), 0, t as int);
    }
    let n = t + 4;
    if n > MAX_HEAD_LEN {
        return HeadDecode::Error(HeadDecodeError::HeadTooLong);
    }
    let crlf2: [u8; 2] = [13u8, 10u8];
    proof {
        assert(crlf2@ =~= crlf());
    }
    let e0 = match find_subslice(input, &crlf2, 0) {
        None => {
            proof {
                lemma_find_sub_none(input@, crlf(), 0);
                assert(match_at(input@, crlf(), t as int)) by {
                    assert(input@.subrange(t as int, t + 2) =~= crlf()) by {
                        assert(input@.subrange(t as int, t + 4) == head_terminator());
                        assert(input@[t as int] == head_terminator()[0]);
                        assert(input@[t + 1] == head_terminator()[1]);
                    }
                }
                assert(false);
            }
            return HeadDecode::Error(HeadDecodeError::MalformedStartLine);
        },
        Some(e0) => e0,
    };
    proof {
        lemma_find_sub_some(input@, crlf(), 0, e0 as int);
    }
    // start line
    let sp1: [u8; 1] = [32u8];
    proof {
        assert(sp1@ =~= seq![32u8]);
    }
    let a = match find_subslice(input, &sp1, 0) {
        None => {
            return HeadDecode::Error(HeadDecodeError::MalformedStartLine);
        },
        Some(a) => a,
    };
    if a >= e0 {
        return HeadDecode::Error(HeadDecodeError::MalformedStartLine);
    }
    let b = match find_subslice(input, &sp1, a + 1) {
        None => {
            return HeadDecode::Error(HeadDecodeError::MalformedStartLine);
        },
        Some(b) => b,
    };
    if b >= e0 {
        return HeadDecode::Error(HeadDecodeError::MalformedStartLine);
    }
    proof {
        lemma_find_sub_some(input@, seq![32u8], 0, a as int);
        lemma_find_sub_some(input@, seq![32u8], a + 1, b as int);
    }
    if !(check_token(input, 0, a) && check_token(input, a + 1, b)) {
        return HeadDecode::Error(HeadDecodeError::MalformedStartLine);
    }
    let ghost vspec = input@.subrange(b + 1, e0 as int);
    let version: HttpVersion;
    let vlen = e0 - (b + 1);
    if vlen == 8 && slice_match_at(input, &[72u8, 84u8, 84u8, 80u8, 47u8, 49u8, 46u8, 49u8], b + 1)
    {
        proof {
            assert(vspec =~= version_bytes(HttpVersion::V11));
        }
        version = HttpVersion::V11;
    } else if vlen == 8 && slice_match_at(
        input,
        &[72u8, 84u8, 84u8, 80u8, 47u8, 49u8, 46u8, 48u8],
        b + 1,
    ) {
        proof {
            assert(vspec =~= version_bytes(HttpVersion::V10));
            assert(vspec != version_bytes(HttpVersion::V11)) by {
                assert(vspec[5] == 49u8 && vspec[6] == 46u8 && vspec[7] == 48u8);
                assert(version_bytes(HttpVersion::V11)[7] == 49u8);
            }
        }
        version = HttpVersion::V10;
    } else if vlen >= 5 && slice_match_at(input, &[72u8, 84u8, 84u8, 80u8, 47u8], b + 1) {
        proof {
            assert(vspec.subrange(0, 5) =~= input@.subrange(b + 1, b + 1 + 5));
            assert(vspec.subrange(0, 5) =~= http_slash());
            lemma_version_disagree(vspec, input@, b + 1, e0 as int, vlen as int);
        }
        return HeadDecode::Error(HeadDecodeError::UnsupportedVersion);
    } else {
        proof {
            lemma_version_disagree(vspec, input@, b + 1, e0 as int, vlen as int);
            if vspec.len() >= 5 && vspec.subrange(0, 5) == http_slash() {
                assert(input@.subrange(b + 1, b + 1 + 5) =~= vspec.subrange(0, 5));
            }
        }
        return HeadDecode::Error(HeadDecodeError::MalformedStartLine);
    }
    let method = slice_to_vec(slice_subrange(input, 0, a));
    let uri = slice_to_vec(slice_subrange(input, a + 1, b));

    // header lines
    let mut hdrs: Vec<Header> = Vec::new();
    let mut i: usize = e0 + 2;
    let colon1: [u8; 1] = [58u8];
    proof {
        assert(colon1@ =~= seq![58u8]);
        assert(headers_pairs(hdrs@) =~= Seq::<(Seq<u8>, Seq<u8>)>::empty());
        assert(match_at(input@, crlf(), t as int)) by {
            assert(input@.subrange(t as int, t + 4) == head_terminator());
            assert(input@.subrange(t as int, t + 4)[0] == input@[t as int]);
            assert(input@.subrange(t as int, t + 4)[1] == input@[t + 1]);
            assert(input@.subrange(t as int, t + 2) =~= crlf());
        }
        assert(e0 <= t);
    }
    while i != n - 2
        invariant
            e0 + 2 <= i <= n - 2,
            wf_headers(hdrs@),
            ({
                let whole = parse_headers_from(input@, e0 + 2, n as int);
                let rest = parse_headers_from(input@, i as int, n as int);
                whole == match rest {
                    None => None::<Seq<(Seq<u8>, Seq<u8>)>>,
                    Some(r) => Some(headers_pairs(hdrs@) + r),
                }
            }),
        decreases n - i,
    {
        let j = match find_subslice(input, &crlf2, i) {
            None => {
                return HeadDecode::Error(HeadDecodeError::MalformedHeader);
            },
            Some(j) => j,
        };
        proof {
            lemma_find_sub_some(input@, crlf(), i as int, j as int);
        }
        if j > n - 4 {
            return HeadDecode::Error(HeadDecodeError::MalformedHeader);
        }
        let k = match find_subslice(input, &colon1, i) {
            None => {
                return HeadDecode::Error(HeadDecodeError::MalformedHeader);
            },
            Some(k) => k,
        };
        proof {
            lemma_find_sub_some(input@, seq![58u8], i as int, k as int);
        }
        if k >= j {
            return HeadDecode::Error(HeadDecodeError::MalformedHeader);
        }
        if !check_header_name(input, i, k) {
            return HeadDecode::Error(HeadDecodeError::MalformedHeader);
        }
        // skip blank space after the colon
        let mut v0: usize = k + 1;
        while v0 < j && (input[v0] == 32 || input[v0] == 9)
            invariant
                k + 1 <= v0 <= j <= input@.len(),
                trim_leading(input@.subrange(k + 1, j as int)) == trim_leading(
                    input@.subrange(v0 as int, j as int),
                ),
            decreases j - v0,
        {
            proof {
                let cur = input@.subrange(v0 as int, j as int);
                assert(is_ws(cur[0]));
                assert(cur.subrange(1, cur.len() as int) =~= input@.subrange(v0 + 1, j as int));
            }
            v0 = v0 + 1;
        }
        proof {
            let cur = input@.subrange(v0 as int, j as int);
            if cur.len() > 0 {
                assert(cur[0] == input@[v0 as int]);
            }
            assert(trim_leading(cur) == cur);
        }
        if !check_value_bytes(input, v0, j) {
            return HeadDecode::Error(HeadDecodeError::MalformedHeader);
        }
        let name = slice_to_vec(slice_subrange(input, i, k));
        let value = slice_to_vec(slice_subrange(input, v0, j));
        let ghost old_hdrs = hdrs@;
        let ghost pair = (name@, value@);
        hdrs.push(Header { name, value });
        proof {
            assert(hdrs@[hdrs@.len() - 1].name@ == pair.0);
            assert(parse_header_line_at(input@, i as int, j as int) == Some(pair));
            assert(headers_pairs(hdrs@) =~= headers_pairs(old_hdrs) + seq![pair]);
            assert forall|q: int| 0 <= q < hdrs@.len() implies crate::headers::wf_header(
                #[trigger] hdrs@[q],
            ) by {
                if q < old_hdrs.len() {
                    assert(hdrs@[q] == old_hdrs[q]);
                }
            }
            let rest_new = parse_headers_from(input@, j + 2, n as int);
            match rest_new {
                None => {},
                Some(rn) => {
                    assert(parse_headers_from(input@, i as int, n as int) == Some(
                        seq![pair] + rn,
                    ));
                    assert(headers_pairs(old_hdrs) + (seq![pair] + rn) =~= headers_pairs(hdrs@)
                        + rn);
                },
            }
        }
        i = j + 2;
    }
    proof {
        assert(parse_headers_from(input@, i as int, n as int) == Some(
            Seq::<(Seq<u8>, Seq<u8>)>::empty(),
        ));
        assert(headers_pairs(hdrs@) + Seq::<(Seq<u8>, Seq<u8>)>::empty() =~= headers_pairs(hdrs@));
    }
    let head = RequestHead { method, uri, version, headers: hdrs };
    proof {
        let hv = match parse_complete(input@, n as int) {
            Ok(hv) => hv,
            Err(_) => arbitrary(),
        };
        assert(parse_complete(input@, n as int) is Ok);
        assert(hv =~= head_view(head));
    }
    HeadDecode::Complete(head, n)
}

/// Append a slice to a byte vector.
pub fn push_all(dst: &mut Vec<u8>, src: &[u8])
    ensures
        final(dst)@ == old(dst)@ + src@,
{
    let mut k: usize = 0;
    while k < src.len()
        invariant
            0 <= k <= src@.len(),
            dst@ == old(dst)@ + src@.subrange(0, k as int),
        decreases src@.len() - k,
    {
        dst.push(src[k]);
        proof {
            assert(old(dst)@ + src@.subrange(0, k + 1) =~= (old(dst)@ + src@.subrange(0, k as int)).push(
                src@[k as int],
            ));
        }
        k = k + 1;
    }
    proof {
        assert(src@.subrange(0, src@.len() as int) =~= src@);
    }
}

pub proof fn lemma_headers_bytes_snoc(hs: Seq<Header>, i: int)
    requires
        0 <= i < hs.len(),
    ensures
        headers_bytes(hs.subrange(0, i + 1)) == headers_bytes(hs.subrange(0, i))
            + header_line_bytes(hs[i].name@, hs[i].value@),
    decreases i,
{
    let a = hs.subrange(0, i + 1);
    let b = hs.subrange(0, i);
    if i == 0 {
        assert(a.subrange(1, 1) =~= hs.subrange(1, 1));
        assert(headers_bytes(a.subrange(1, a.len() as int)) =~= Seq::<u8>::empty());
        assert(headers_bytes(a) =~= headers_bytes(b) + header_line_bytes(hs[0].name@, hs[0].value@));
    } else {
        let hs1 = hs.subrange(1, hs.len() as int);
        lemma_headers_bytes_snoc(hs1, i - 1);
        assert(a.subrange(1, a.len() as int) =~= hs1.subrange(0, i));
        assert(b.subrange(1, b.len() as int) =~= hs1.subrange(0, i - 1));
        assert(hs1[i - 1] == hs[i]);
        assert(a[0] == hs[0] && b[0] == hs[0]);
        assert(headers_bytes(a) == header_line_bytes(hs[0].name@, hs[0].value@) + headers_bytes(
            hs1.subrange(0, i),
        ));
        assert(headers_bytes(b) == header_line_bytes(hs[0].name@, hs[0].value@) + headers_bytes(
            hs1.subrange(0, i - 1),
        ));
        assert(headers_bytes(a) =~= headers_bytes(b) + header_line_bytes(hs[i].name@, hs[i].value@));
    }
}

/// Write the wire form of a request head: exactly `head_bytes`.
pub fn encode_request_head(h: &RequestHead) -> (r: Vec<u8>)
    ensures
        r@ == head_bytes(*h),
{
    let mut out: Vec<u8> = Vec::new();
    push_all(&mut out, h.method.as_slice());
    out.push(32);
    push_all(&mut out, h.uri.as_slice());
    out.push(32);
    match h.version {
        HttpVersion::V10 => {
            let vb: [u8; 8] = [72u8, 84u8, 84u8, 80u8, 47u8, 49u8, 46u8, 48u8];
            proof {
                assert(vb@ =~= version_bytes(HttpVersion::V10));
            }
            push_all(&mut out, &vb);
        },
        HttpVersion::V11 => {
            let vb: [u8; 8] = [72u8, 84u8, 84u8, 80u8, 47u8, 49u8, 46u8, 49u8];
            proof {
                assert(vb@ =~= version_bytes(HttpVersion::V11));
            }
            push_all(&mut out, &vb);
        },
    }
    out.push(13);
    out.push(10);
    proof {
        assert(out@ =~= request_line_bytes(*h));
    }
    let ghost rl = out@;
    let mut idx: usize = 0;
    while idx < h.headers.len()
        invariant
            0 <= idx <= h.headers@.len(),
            rl == request_line_bytes(*h),
            out@ == rl + headers_bytes(h.headers@.subrange(0, idx as int)),
        decreases h.headers@.len() - idx,
    {
        let hd = &h.headers[idx];
        push_all(&mut out, hd.name.as_slice());
        out.push(58);
        out.push(32);
        push_all(&mut out, hd.value.as_slice());
        out.push(13);
        out.push(10);
        proof {
            lemma_headers_bytes_snoc(h.headers@, idx as int);
            assert(out@ =~= rl + headers_bytes(h.headers@.subrange(0, idx + 1)));
        }
        idx = idx + 1;
    }
    out.push(13);
    out.push(10);
    proof {
        assert(h.headers@.subrange(0, h.headers@.len() as int) =~= h.headers@);
        assert(out@ =~= head_bytes(*h));
    }
    out
}

/// Parsing an encoded header block yields the original pairs, and the block
/// holds no head terminator of its own.
proof fn lemma_parse_headers_encoding(s: Seq<u8>, i: int, n: int, hs: Seq<Header>)
    requires
        wf_headers(hs),
        0 <= i,
        i + headers_bytes(hs).len() == n - 2,
        n <= s.len(),
        s.subrange(i, n - 2) == headers_bytes(hs),
        s[n - 2] == 13,
        s[n - 1] == 10,
    ensures
        parse_headers_from(s, i, n) == Some(headers_pairs(hs)),
        forall|k: int| i <= k < n - 4 ==> !match_at(s, head_terminator(), k),
    decreases hs.len(),
{
    if hs.len() == 0 {
        assert(i == n - 2);
        assert(headers_pairs(hs) =~= Seq::<(Seq<u8>, Seq<u8>)>::empty());
    } else {
        let h0 = hs[0];
        let nm = h0.name@;
        let val = h0.value@;
        let line = header_line_bytes(nm, val);
        let nl = nm.len() as int;
        let vl = val.len() as int;
        let ll = line.len() as int;
        assert(wf_header(h0));
        assert(ll == nl + 2 + vl + 2);
        let rest = hs.subrange(1, hs.len() as int);
        let hb = headers_bytes(hs);
        assert(hb == line + headers_bytes(rest));
        assert forall|m: int| 0 <= m < ll implies s[i + m] == line[m] by {
            assert(s.subrange(i, n - 2)[m] == s[i + m]);
            assert(hb[m] == line[m]);
        }
        // classify this line's bytes
        assert forall|m: int| 0 <= m < nl implies line[m] == nm[m] by {}
        assert(line[nl] == 58);
        assert(line[nl + 1] == 32);
        assert forall|m: int| 0 <= m < vl implies line[nl + 2 + m] == val[m] by {}
        assert(line[ll - 2] == 13);
        assert(line[ll - 1] == 10);
        assert forall|k: int| i <= k < i + ll - 2 implies s[k] != 13 by {
            let m = k - i;
            if m < nl {
                assert(33 <= nm[m] <= 126);
            } else if m >= nl + 2 {
                assert(val[m - nl - 2] != 13);
            }
        }
        // the line's own CRLF is the first one
        let j = i + ll - 2;
        assert(s[j] == 13 && s[j + 1] == 10);
        lemma_match_crlf(s, j);
        assert forall|k: int| i <= k < j implies !match_at(s, crlf(), k) by {
            if k + 2 <= s.len() {
                lemma_match_crlf(s, k);
            }
        }
        lemma_find_sub_exact(s, crlf(), i, j);
        // the colon after the name is the first one
        assert forall|k: int| i <= k < i + nl implies !match_at(s, seq![58u8], k) by {
            if k + 1 <= s.len() {
                lemma_match_one(s, 58u8, k);
                assert(s[k] == line[k - i]);
                assert(line[k - i] == nm[k - i]);
                assert(nm[k - i] != 58);
            }
        }
        lemma_match_one(s, 58u8, i + nl);
        let kcol = i + nl;
        lemma_find_sub_exact(s, seq![58u8], i, kcol);
        assert(s.subrange(i, kcol) =~= nm);
        assert(s.subrange(kcol + 1, j) =~= seq![32u8] + val);
        assert((seq![32u8] + val).subrange(1, (seq![32u8] + val).len() as int) =~= val);
        assert(trim_leading(seq![32u8] + val) == trim_leading(val));
        assert(trim_leading(val) == val);
        assert(parse_header_line_at(s, i, j) == Some((nm, val)));
        // the rest of the block
        assert(s.subrange(i + ll, n - 2) =~= headers_bytes(rest)) by {
            assert forall|m: int| 0 <= m < headers_bytes(rest).len() implies s.subrange(
                i + ll,
                n - 2,
            )[m] == headers_bytes(rest)[m] by {
                assert(s.subrange(i, n - 2)[ll + m] == s[i + ll + m]);
                assert(hb[ll + m] == headers_bytes(rest)[m]);
            }
        }
        assert(wf_headers(rest)) by {
            assert forall|q: int| 0 <= q < rest.len() implies wf_header(#[trigger] rest[q]) by {
                assert(rest[q] == hs[q + 1]);
            }
        }
        lemma_parse_headers_encoding(s, i + ll, n, rest);
        assert(parse_headers_from(s, i, n) == Some(seq![(nm, val)] + headers_pairs(rest)));
        assert(seq![(nm, val)] + headers_pairs(rest) =~= headers_pairs(hs)) by {
            assert forall|q: int|
                0 <= q < hs.len() implies (seq![(nm, val)] + headers_pairs(rest))[q]
                == headers_pairs(hs)[q] by {
                if q > 0 {
                    assert(rest[q - 1] == hs[q]);
                }
            }
        }
        // no terminator inside the block before the final empty line
        assert forall|k: int| i <= k < n - 4 implies !match_at(s, head_terminator(), k) by {
            if k + 4 <= s.len() {
                lemma_match_term(s, k);
                if k < j {
                    assert(s[k] != 13);
                } else if k == j {
                    assert(rest.len() > 0) by {
                        if rest.len() == 0 {
                            assert(headers_bytes(rest).len() == 0);
                            assert(j == n - 4);
                        }
                    }
                    assert(s[k + 2] == headers_bytes(rest)[0]);
                    assert(headers_bytes(rest)[0] == rest[0].name@[0]);
                    assert(wf_header(rest[0]));
                    assert(33 <= rest[0].name@[0] <= 126);
                } else if k == j + 1 {
                    assert(s[k] == 10);
                } else {
                    assert(!match_at(s, head_terminator(), k));
                }
            }
        }
    }
}

/// Round trip with the body left in place: decoding `head_bytes(h) ++ tail`
/// yields exactly `h` again and consumes exactly the head's bytes, touching
/// none of `tail`.
pub proof fn lemma_head_round_trip(h: RequestHead, tail: Seq<u8>)
    requires
        wf_request_head(h),
        head_bytes(h).len() <= MAX_HEAD_LEN as int,
    ensures
        decode_head_spec(head_bytes(h) + tail) == HeadParse::Complete(
            head_view(h),
            head_bytes(h).len() as int,
        ),
{
    let enc = head_bytes(h);
    let s = enc + tail;
    let l = enc.len() as int;
    let rl = request_line_bytes(h);
    let hb = headers_bytes(h.headers@);
    let rll = rl.len() as int;
    let ml = h.method@.len() as int;
    let ul = h.uri@.len() as int;
    assert(rll == ml + 1 + ul + 1 + 8 + 2);
    assert(l == rll + hb.len() + 2);
    assert forall|m: int| 0 <= m < l implies s[m] == enc[m] by {}
    // request line byte classes
    let vb = version_bytes(h.version);
    assert forall|m: int| 0 <= m < ml implies s[m] == h.method@[m] by {
        assert(enc[m] == rl[m]);
    }
    let a = ml;
    let b = ml + 1 + ul;
    assert(s[a] == 32) by {
        assert(enc[a] == rl[a]);
    }
    assert forall|m: int| 0 <= m < ul implies s[a + 1 + m] == h.uri@[m] by {
        assert(enc[a + 1 + m] == rl[a + 1 + m]);
    }
    assert(s[b] == 32) by {
        assert(enc[b] == rl[b]);
    }
    assert forall|m: int| 0 <= m < 8 implies s[b + 1 + m] == vb[m] by {
        assert(enc[b + 1 + m] == rl[b + 1 + m]);
    }
    assert(vb[0] == 72 && vb[1] == 84 && vb[2] == 84 && vb[3] == 80 && vb[4] == 47 && vb[5] == 49
        && vb[6] == 46) by {
        match h.version {
            HttpVersion::V10 => {},
            HttpVersion::V11 => {},
        }
    }
    let e0 = rll - 2;
    assert(s[e0] == 13 && s[e0 + 1] == 10) by {
        assert(enc[e0] == rl[e0]);
        assert(enc[e0 + 1] == rl[e0 + 1]);
        assert(rl[e0] == 13 && rl[e0 + 1] == 10);
    }
    // no CR before the request line's CRLF
    assert forall|k: int| 0 <= k < e0 implies s[k] != 13 by {
        if k < ml {
            assert(33 <= h.method@[k] <= 126);
        } else if k == a {
        } else if k < b {
            assert(33 <= h.uri@[k - a - 1] <= 126);
        } else if k == b {
        } else {
            assert(s[k] == vb[k - b - 1]);
        }
    }
    lemma_match_crlf(s, e0);
    assert forall|k: int| 0 <= k < e0 implies !match_at(s, crlf(), k) by {
        if k + 2 <= s.len() {
            lemma_match_crlf(s, k);
        }
    }
    lemma_find_sub_exact(s, crlf(), 0, e0);
    // the header block region
    assert(s[l - 2] == 13 && s[l - 1] == 10) by {
        assert(enc[l - 2] == (rl + hb + crlf())[l - 2]);
        assert(enc[l - 1] == (rl + hb + crlf())[l - 1]);
    }
    assert(s.subrange(rll, l - 2) =~= hb) by {
        assert forall|m: int| 0 <= m < hb.len() implies s.subrange(rll, l - 2)[m] == hb[m] by {
            assert(s[rll + m] == enc[rll + m]);
            assert(enc[rll + m] == (rl + hb + crlf())[rll + m]);
        }
    }
    lemma_parse_headers_encoding(s, rll, l, h.headers@);
    // terminator position: l - 4
    assert(s[l - 4] == 13 && s[l - 3] == 10) by {
        if hb.len() == 0 {
            assert(l - 4 == e0);
        } else {
            assert(s.subrange(rll, l - 2)[hb.len() - 2] == hb[hb.len() - 2]);
            assert(s.subrange(rll, l - 2)[hb.len() - 1] == hb[hb.len() - 1]);
            lemma_headers_bytes_last_crlf(h.headers@);
        }
    }
    lemma_match_term(s, l - 4);
    assert forall|k: int| 0 <= k < l - 4 implies !match_at(s, head_terminator(), k) by {
        if k + 4 <= s.len() {
            lemma_match_term(s, k);
            if k < e0 {
                assert(s[k] != 13);
            } else if k == e0 {
                assert(rll <= l - 4);
                if hb.len() > 0 {
                    assert(s[k + 2] == s.subrange(rll, l - 2)[0]);
                    assert(hb[0] == h.headers@[0].name@[0]);
                    assert(wf_header(h.headers@[0]));
                    assert(33 <= h.headers@[0].name@[0] <= 126);
                } else {
                    assert(e0 == l - 4);
                }
            } else if k == e0 + 1 {
                assert(s[k] == 10);
            } else {
                assert(!match_at(s, head_terminator(), k));
            }
        }
    }
    lemma_find_sub_exact(s, head_terminator(), 0, l - 4);
    assert(head_end(s) == Some(l));
    // the request line parses back
    assert forall|k: int| 0 <= k < a implies !match_at(s, seq![32u8], k) by {
        if k + 1 <= s.len() {
            lemma_match_one(s, 32u8, k);
            assert(33 <= h.method@[k] <= 126);
        }
    }
    lemma_match_one(s, 32u8, a);
    lemma_find_sub_exact(s, seq![32u8], 0, a);
    assert forall|k: int| a + 1 <= k < b implies !match_at(s, seq![32u8], k) by {
        if k + 1 <= s.len() {
            lemma_match_one(s, 32u8, k);
            assert(33 <= h.uri@[k - a - 1] <= 126);
        }
    }
    lemma_match_one(s, 32u8, b);
    lemma_find_sub_exact(s, seq![32u8], a + 1, b);
    assert(s.subrange(0, a) =~= h.method@);
    assert(s.subrange(a + 1, b) =~= h.uri@);
    assert(s.subrange(b + 1, e0) =~= vb);
    assert(version_bytes(HttpVersion::V10) != version_bytes(HttpVersion::V11)) by {
        assert(version_bytes(HttpVersion::V10)[7] == 48);
        assert(version_bytes(HttpVersion::V11)[7] == 49);
    }
    assert(parse_request_line_at(s, e0) == Ok::<_, HeadDecodeError>((
        h.method@,
        h.uri@,
        h.version,
    )));
    assert(parse_complete(s, l) == Ok::<HeadView, HeadDecodeError>(head_view(h))) by {
        assert(HeadView {
            method: h.method@,
            uri: h.uri@,
            version: h.version,
            headers: headers_pairs(h.headers@),
        } =~= head_view(h));
    }
}

/// The last two bytes of a non-empty header block are its final CRLF.
proof fn lemma_headers_bytes_last_crlf(hs: Seq<Header>)
    requires
        hs.len() > 0,
    ensures
        headers_bytes(hs).len() >= 2,
        headers_bytes(hs)[headers_bytes(hs).len() - 2] == 13,
        headers_bytes(hs)[headers_bytes(hs).len() - 1] == 10,
    decreases hs.len(),
{
    let line = header_line_bytes(hs[0].name@, hs[0].value@);
    let rest = hs.subrange(1, hs.len() as int);
    if rest.len() == 0 {
        assert(headers_bytes(rest).len() == 0);
        assert(line[line.len() - 2] == 13);
        assert(line[line.len() - 1] == 10);
    } else {
        lemma_headers_bytes_last_crlf(rest);
    }
}

/// A version field that is not the two known version strings, stated both
/// ways round.
proof fn lemma_version_disagree(v: Seq<u8>, s: Seq<u8>, lo: int, hi: int, vlen: int)
    requires
        v == s.subrange(lo, hi),
        0 <= lo <= hi <= s.len(),
        vlen == hi - lo,
        vlen != 8 || s.subrange(lo, lo + 8) != version_bytes(HttpVersion::V11),
        vlen != 8 || s.subrange(lo, lo + 8) != version_bytes(HttpVersion::V10),
    ensures
        v != version_bytes(HttpVersion::V11),
        v != version_bytes(HttpVersion::V10),
{
    if vlen == 8 {
        assert(s.subrange(lo, lo + 8) =~= v);
    } else {
        assert(v.len() != 8);
    }
}

} // verus!
