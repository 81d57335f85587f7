//! Header multimap: insertion order preserved, names compared
//! ASCII-case-insensitively, duplicates allowed. Also the comma-separated
//! token lists that `Connection`-style header values carry.

use vstd::prelude::*;
use crate::bytes::{lower_seq, find_sub, find_subslice, eq_ignore_case, lemma_find_sub_some};

verus! {

/// One request or response header line, split at the colon.
pub struct Header {
    pub name: Vec<u8>,
    pub value: Vec<u8>,
}

/// Header names are non-empty printable ASCII without colons.
pub open spec fn valid_header_name(n: Seq<u8>) -> bool {
    &&& n.len() > 0
    &&& forall|i: int| 0 <= i < n.len() ==> 33 <= #[trigger] n[i] <= 126 && n[i] != 58
}

/// Header values carry no line break and do not start with blank space,
/// so that a decoded head re-encodes to the same bytes.
pub open spec fn valid_header_value(v: Seq<u8>) -> bool {
    &&& forall|i: int| 0 <= i < v.len() ==> #[trigger] v[i] != 13 && v[i] != 10
    &&& v.len() > 0 ==> !is_ws(v[0])
}

pub open spec fn wf_header(h: Header) -> bool {
    valid_header_name(h.name@) && valid_header_value(h.value@)
}

pub open spec fn wf_headers(hs: Seq<Header>) -> bool {
    forall|i: int| 0 <= i < hs.len() ==> wf_header(#[trigger] hs[i])
}

pub open spec fn is_ws(b: u8) -> bool {
    b == 32 || b == 9
}

pub open spec fn name_matches(a: Seq<u8>, b: Seq<u8>) -> bool {
    lower_seq(a) == lower_seq(b)
}

/// Index of the first header whose name matches, case-insensitively.
pub open spec fn header_idx(hs: Seq<Header>, name: Seq<u8>) -> Option<int>
    decreases hs.len(),
{
    if hs.len() == 0 {
        None
    } else if name_matches(hs[0].name@, name) {
        Some(0int)
    } else {
        match header_idx(hs.subrange(1, hs.len() as int), name) {
            None => None,
            Some(i) => Some(i + 1),
        }
    }
}

/// Value of the first header whose name matches, case-insensitively.
pub open spec fn header_value(hs: Seq<Header>, name: Seq<u8>) -> Option<Seq<u8>> {
    match header_idx(hs, name) {
        None => None,
        Some(i) => Some(hs[i].value@),
    }
}

pub proof fn lemma_header_idx_some(hs: Seq<Header>, name: Seq<u8>, j: int)
    requires
        header_idx(hs, name) == Some(j),
    ensures
        0 <= j < hs.len(),
        name_matches(hs[j].name@, name),
        forall|k: int| 0 <= k < j ==> !name_matches(hs[k].name@, name),
    decreases hs.len(),
{
    if hs.len() > 0 && !name_matches(hs[0].name@, name) {
        let tail = hs.subrange(1, hs.len() as int);
        lemma_header_idx_some(tail, name, j - 1);
        assert forall|k: int| 0 <= k < j implies !name_matches(hs[k].name@, name) by {
            if k > 0 {
                assert(tail[k - 1] == hs[k]);
            }
        }
    }
}

pub proof fn lemma_header_idx_none(hs: Seq<Header>, name: Seq<u8>)
    requires
        header_idx(hs, name) is None,
    ensures
        forall|k: int| 0 <= k < hs.len() ==> !name_matches(hs[k].name@, name),
    decreases hs.len(),
{
    if hs.len() > 0 {
        let tail = hs.subrange(1, hs.len() as int);
        lemma_header_idx_none(tail, name);
        assert forall|k: int| 0 <= k < hs.len() implies !name_matches(hs[k].name@, name) by {
            if k > 0 {
                assert(tail[k - 1] == hs[k]);
            }
        }
    }
}

pub proof fn lemma_header_idx_exact(hs: Seq<Header>, name: Seq<u8>, j: int)
    requires
        0 <= j < hs.len(),
        name_matches(hs[j].name@, name),
        forall|k: int| 0 <= k < j ==> !name_matches(hs[k].name@, name),
    ensures
        header_idx(hs, name) == Some(j),
    decreases hs.len(),
{
    if j > 0 {
        let tail = hs.subrange(1, hs.len() as int);
        assert(tail[j - 1] == hs[j]);
        assert forall|k: int| 0 <= k < j - 1 implies !name_matches(tail[k].name@, name) by {
            assert(tail[k] == hs[k + 1]);
        }
        lemma_header_idx_exact(tail, name, j - 1);
    }
}

/// First header whose name matches `name`, case-insensitively.
pub fn find_header(hs: &Vec<Header>, name: &[u8]) -> (r: Option<usize>)
    ensures
        match r {
            Some(j) => header_idx(hs@, name@) == Some(j as int),
            None => header_idx(hs@, name@) is None,
        },
{
    let mut i: usize = 0;
    while i < hs.len()
        invariant
            0 <= i <= hs@.len(),
            forall|k: int| 0 <= k < i ==> !name_matches(hs@[k].name@, name@),
        decreases hs@.len() - i,
    {
        if eq_ignore_case(hs[i].name.as_slice(), name) {
            proof {
                lemma_header_idx_exact(hs@, name@, i as int);
            }
            return Some(i);
        }
        i = i + 1;
    }
    proof {
        if header_idx(hs@, name@) is Some {
            let j = header_idx(hs@, name@)->0;
            lemma_header_idx_some(hs@, name@, j);
        }
    }
    None
}

/// Is this a well-formed header name?
pub fn name_is_valid(n: &[u8]) -> (r: bool)
    ensures
        r == valid_header_name(n@),
{
    if n.len() == 0 {
        return false;
    }
    let mut k: usize = 0;
    while k < n.len()
        invariant
            0 <= k <= n@.len(),
            forall|m: int| 0 <= m < k ==> 33 <= #[trigger] n@[m] <= 126 && n@[m] != 58,
        decreases n@.len() - k,
    {
        let c = n[k];
        if !(33 <= c && c <= 126) || c == 58 {
            return false;
        }
        k = k + 1;
    }
    true
}

/// Is this a well-formed header value?
pub fn value_is_valid(v: &[u8]) -> (r: bool)
    ensures
        r == valid_header_value(v@),
{
    if v.len() > 0 {
        let c0 = v[0];
        if c0 == 32 || c0 == 9 {
            return false;
        }
    }
    let mut k: usize = 0;
    while k < v.len()
        invariant
            0 <= k <= v@.len(),
            forall|m: int| 0 <= m < k ==> #[trigger] v@[m] != 13 && v@[m] != 10,
            v@.len() > 0 ==> !is_ws(v@[0]),
        decreases v@.len() - k,
    {
        let c = v[k];
        if c == 13 || c == 10 {
            return false;
        }
        k = k + 1;
    }
    true
}

/// Is every header in the list well-formed?
pub fn headers_are_wf(hs: &Vec<Header>) -> (r: bool)
    ensures
        r == wf_headers(hs@),
{
    let mut i: usize = 0;
    while i < hs.len()
        invariant
            0 <= i <= hs@.len(),
            forall|k: int| 0 <= k < i ==> wf_header(#[trigger] hs@[k]),
        decreases hs@.len() - i,
    {
        if !name_is_valid(hs[i].name.as_slice()) || !value_is_valid(hs[i].value.as_slice()) {
            return false;
        }
        i = i + 1;
    }
    true
}

// ---- comma-separated token lists ----

pub open spec fn trim_leading(s: Seq<u8>) -> Seq<u8>
    decreases s.len(),
{
    if s.len() > 0 && is_ws(s[0]) {
        trim_leading(s.subrange(1, s.len() as int))
    } else {
        s
    }
}

pub open spec fn trim_trailing(s: Seq<u8>) -> Seq<u8>
    decreases s.len(),
{
    if s.len() > 0 && is_ws(s[s.len() - 1]) {
        trim_trailing(s.subrange(0, s.len() - 1))
    } else {
        s
    }
}

pub open spec fn trim_ws(s: Seq<u8>) -> Seq<u8> {
    trim_trailing(trim_leading(s))
}

/// One comma-list element equals `tok` after trimming and case folding.
pub open spec fn token_eq(t: Seq<u8>, tok: Seq<u8>) -> bool {
    lower_seq(trim_ws(t)) == lower_seq(tok)
}

/// End of the comma-list element that starts at `i`.
pub open spec fn token_end(s: Seq<u8>, i: int) -> int {
    match find_sub(s, seq![44u8], i) {
        None => s.len() as int,
        Some(j) => j,
    }
}

/// Some comma-list element at or after `i` equals `tok`.
pub open spec fn has_token_from(s: Seq<u8>, i: int, tok: Seq<u8>) -> bool
    decreases s.len() - i,
    via has_token_from_dec
{
    if !(0 <= i <= s.len()) {
        false
    } else {
        let e = token_end(s, i);
        if token_eq(s.subrange(i, e), tok) {
            true
        } else if e >= s.len() {
            false
        } else {
            has_token_from(s, e + 1, tok)
        }
    }
}

#[via_fn]
proof fn has_token_from_dec(s: Seq<u8>, i: int, tok: Seq<u8>) {
    if 0 <= i <= s.len() {
        match find_sub(s, seq![44u8], i) {
            Some(j) => {
                lemma_find_sub_some(s, seq![44u8], i, j);
            }
            None => {}
        }
    }
}

/// The comma list in `s` contains `tok` (trimmed, case-insensitive).
pub open spec fn has_token(s: Seq<u8>, tok: Seq<u8>) -> bool {
    has_token_from(s, 0, tok)
}

/// Trimmed, case-folded comparison of `s[i..e)` against `tok`.
fn range_token_eq(s: &[u8], i: usize, e: usize, tok: &[u8]) -> (r: bool)
    requires
        i <= e <= s@.len(),
    ensures
        r == token_eq(s@.subrange(i as int, e as int), tok@),
{
    let mut a: usize = i;
    while a < e && is_ws_exec(s[a])
        invariant
            i <= a <= e <= s@.len(),
            trim_leading(s@.subrange(i as int, e as int)) == trim_leading(
                s@.subrange(a as int, e as int),
            ),
        decreases e - a,
    {
        proof {
            let cur = s@.subrange(a as int, e as int);
            assert(cur.subrange(1, cur.len() as int) =~= s@.subrange(a + 1, e as int));
        }
        a = a + 1;
    }
    proof {
        assert(trim_leading(s@.subrange(a as int, e as int)) == s@.subrange(a as int, e as int));
    }
    let mut b: usize = e;
    while b > a && is_ws_exec(s[b - 1])
        invariant
            a <= b <= e <= s@.len(),
            trim_trailing(s@.subrange(a as int, e as int)) == trim_trailing(
                s@.subrange(a as int, b as int),
            ),
        decreases b - a,
    {
        proof {
            let cur = s@.subrange(a as int, b as int);
            assert(cur.subrange(0, cur.len() - 1) =~= s@.subrange(a as int, b - 1));
        }
        b = b - 1;
    }
    proof {
        assert(trim_trailing(s@.subrange(a as int, b as int)) == s@.subrange(a as int, b as int));
        assert(trim_ws(s@.subrange(i as int, e as int)) == s@.subrange(a as int, b as int));
    }
    let seg = &s[a..b];
    eq_ignore_case(seg, tok)
}

fn is_ws_exec(b: u8) -> (r: bool)
    ensures
        r == is_ws(b),
{
    b == 32 || b == 9
}

/// Does the comma list in `value` contain `tok`?
pub fn value_has_token(value: &[u8], tok: &[u8]) -> (r: bool)
    ensures
        r == has_token(value@, tok@),
{
    let mut i: usize = 0;
    loop
        invariant
            0 <= i <= value@.len(),
            has_token(value@, tok@) == has_token_from(value@, i as int, tok@),
        decreases value@.len() - i,
    {
        let comma: [u8; 1] = [44u8];
        let e_opt = find_subslice(value, &comma, i);
        let e: usize = match e_opt {
            Some(j) => j,
            None => value.len(),
        };
        proof {
            assert(comma@ =~= seq![44u8]);
            assert(token_end(value@, i as int) == e as int);
            if e_opt is Some {
                lemma_find_sub_some(value@, seq![44u8], i as int, e as int);
            }
        }
        if range_token_eq(value, i, e, tok) {
            return true;
        }
        if e >= value.len() {
            return false;
        }
        i = e + 1;
    }
}

} // verus!
