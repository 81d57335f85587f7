//! Byte-level groundwork: CRLF constants, substring search with a minimality
//! spec, and ASCII case folding. Everything else in the crate scans wire
//! bytes through these.

use vstd::prelude::*;

verus! {

pub const CR: u8 = 13;
pub const LF: u8 = 10;
pub const SP: u8 = 32;
pub const HTAB: u8 = 9;
pub const COLON: u8 = 58;

pub open spec fn crlf() -> Seq<u8> {
    seq![13u8, 10u8]
}

pub open spec fn head_terminator() -> Seq<u8> {
    seq![13u8, 10u8, 13u8, 10u8]
}

/// The pattern `pat` occurs in `s` at position `i`.
pub open spec fn match_at(s: Seq<u8>, pat: Seq<u8>, i: int) -> bool {
    &&& 0 <= i
    &&& i + pat.len() <= s.len()
    &&& s.subrange(i, i + pat.len() as int) == pat
}

/// Position of the first occurrence of `pat` in `s` at or after `i`.
/// Empty patterns are never found.
pub open spec fn find_sub(s: Seq<u8>, pat: Seq<u8>, i: int) -> Option<int>
    decreases s.len() - i,
{
    if i < 0 || pat.len() <= 0 || i + pat.len() > s.len() {
        None
    } else if s.subrange(i, i + pat.len() as int) == pat {
        Some(i)
    } else {
        find_sub(s, pat, i + 1)
    }
}

pub proof fn lemma_find_sub_some(s: Seq<u8>, pat: Seq<u8>, i: int, j: int)
    requires
        find_sub(s, pat, i) == Some(j),
    ensures
        i <= j,
        match_at(s, pat, j),
        forall|k: int| i <= k < j ==> !match_at(s, pat, k),
    decreases s.len() - i,
{
    if !(i < 0 || pat.len() <= 0 || i + pat.len() > s.len()) {
        if s.subrange(i, i + pat.len() as int) == pat {
        } else {
            lemma_find_sub_some(s, pat, i + 1, j);
        }
    }
}

pub proof fn lemma_find_sub_none(s: Seq<u8>, pat: Seq<u8>, i: int)
    requires
        find_sub(s, pat, i) is None,
        0 <= i,
        pat.len() > 0,
    ensures
        forall|k: int| i <= k ==> !match_at(s, pat, k),
    decreases s.len() - i,
{
    if i + pat.len() <= s.len() {
        lemma_find_sub_none(s, pat, i + 1);
        assert forall|k: int| i <= k implies !match_at(s, pat, k) by {
            if k > i {
                assert(!match_at(s, pat, k));
            }
        }
    }
}

/// A position that matches, with none before it, is the one `find_sub` names.
pub proof fn lemma_find_sub_exact(s: Seq<u8>, pat: Seq<u8>, i: int, j: int)
    requires
        0 <= i <= j,
        pat.len() > 0,
        match_at(s, pat, j),
        forall|k: int| i <= k < j ==> !match_at(s, pat, k),
    ensures
        find_sub(s, pat, i) == Some(j),
    decreases j - i,
{
    if i < j {
        assert(!match_at(s, pat, i));
        lemma_find_sub_exact(s, pat, i + 1, j);
    } else {
        assert(match_at(s, pat, i));
    }
}

pub proof fn lemma_match_one(s: Seq<u8>, b: u8, k: int)
    requires
        0 <= k < s.len(),
    ensures
        match_at(s, seq![b], k) <==> s[k] == b,
{
    if s[k] == b {
        assert(s.subrange(k, k + 1) =~= seq![b]);
    }
    if match_at(s, seq![b], k) {
        assert(s.subrange(k, k + 1)[0] == s[k]);
    }
}

pub proof fn lemma_match_crlf(s: Seq<u8>, k: int)
    requires
        0 <= k,
        k + 2 <= s.len(),
    ensures
        match_at(s, crlf(), k) <==> s[k] == 13 && s[k + 1] == 10,
{
    if s[k] == 13 && s[k + 1] == 10 {
        assert(s.subrange(k, k + 2) =~= crlf());
    }
    if match_at(s, crlf(), k) {
        assert(s.subrange(k, k + 2)[0] == s[k]);
        assert(s.subrange(k, k + 2)[1] == s[k + 1]);
    }
}

pub proof fn lemma_match_term(s: Seq<u8>, k: int)
    requires
        0 <= k,
        k + 4 <= s.len(),
    ensures
        match_at(s, head_terminator(), k) <==> s[k] == 13 && s[k + 1] == 10 && s[k + 2] == 13
            && s[k + 3] == 10,
{
    if s[k] == 13 && s[k + 1] == 10 && s[k + 2] == 13 && s[k + 3] == 10 {
        assert(s.subrange(k, k + 4) =~= head_terminator());
    }
    if match_at(s, head_terminator(), k) {
        assert(s.subrange(k, k + 4)[0] == s[k]);
        assert(s.subrange(k, k + 4)[1] == s[k + 1]);
        assert(s.subrange(k, k + 4)[2] == s[k + 2]);
        assert(s.subrange(k, k + 4)[3] == s[k + 3]);
    }
}

/// Compare `s[i .. i + pat.len()]` with `pat`.
pub fn slice_match_at(s: &[u8], pat: &[u8], i: usize) -> (r: bool)
    requires
        i + pat@.len() <= s@.len() <= usize::MAX,
    ensures
        r <==> s@.subrange(i as int, i + pat@.len() as int) == pat@,
{
    let mut k: usize = 0;
    while k < pat.len()
        invariant
            0 <= k <= pat@.len(),
            i + pat@.len() <= s@.len() <= usize::MAX,
            forall|m: int| 0 <= m < k ==> s@[i + m] == pat@[m],
        decreases pat@.len() - k,
    {
        if s[i + k] != pat[k] {
            assert(s@.subrange(i as int, i + pat@.len() as int)[k as int] != pat@[k as int]);
            return false;
        }
        k = k + 1;
    }
    proof {
        assert(s@.subrange(i as int, i + pat@.len() as int) =~= pat@);
    }
    true
}

/// First occurrence of `pat` in `s` at or after `from`, as `find_sub` names it.
pub fn find_subslice(s: &[u8], pat: &[u8], from: usize) -> (r: Option<usize>)
    ensures
        match r {
            Some(j) => find_sub(s@, pat@, from as int) == Some(j as int),
            None => find_sub(s@, pat@, from as int) is None,
        },
{
    if pat.len() == 0 || from > s.len() || pat.len() > s.len() - from {
        proof {
            lemma_find_sub_oob(s@, pat@, from as int);
        }
        return None;
    }
    let mut i: usize = from;
    while i <= s.len() - pat.len()
        invariant
            from <= i,
            0 < pat@.len() <= s@.len(),
            find_sub(s@, pat@, from as int) == find_sub(s@, pat@, i as int),
        decreases s@.len() - i,
    {
        if slice_match_at(s, pat, i) {
            return Some(i);
        }
        i = i + 1;
    }
    None
}

/// find_sub yields None whenever the window does not fit.
proof fn lemma_find_sub_oob(s: Seq<u8>, pat: Seq<u8>, i: int)
    requires
        pat.len() <= 0 || i + pat.len() > s.len(),
    ensures
        find_sub(s, pat, i) is None,
{
}

/// Byte-for-byte equality of slices.
pub fn eq_bytes(a: &[u8], b: &[u8]) -> (r: bool)
    ensures
        r <==> a@ == b@,
{
    if a.len() != b.len() {
        return false;
    }
    let mut k: usize = 0;
    while k < a.len()
        invariant
            0 <= k <= a@.len(),
            a@.len() == b@.len(),
            forall|m: int| 0 <= m < k ==> a@[m] == b@[m],
        decreases a@.len() - k,
    {
        if a[k] != b[k] {
            return false;
        }
        k = k + 1;
    }
    proof {
        assert(a@ =~= b@);
    }
    true
}

/// Copy a byte slice into a fresh vector.
pub fn copy_bytes(s: &[u8]) -> (r: Vec<u8>)
    ensures
        r@ == s@,
{
    vstd::slice::slice_to_vec(s)
}

/// ASCII lower-casing of one byte.
pub open spec fn lower_byte(b: u8) -> u8 {
    if 65 <= b && b <= 90 {
        (b + 32) as u8
    } else {
        b
    }
}

/// ASCII lower-casing of a byte sequence.
pub open spec fn lower_seq(s: Seq<u8>) -> Seq<u8> {
    s.map_values(|b: u8| lower_byte(b))
}

/// ASCII-case-insensitive equality of byte slices.
pub fn eq_ignore_case(a: &[u8], b: &[u8]) -> (r: bool)
    ensures
        r <==> lower_seq(a@) == lower_seq(b@),
{
    if a.len() != b.len() {
        assert(lower_seq(a@).len() != lower_seq(b@).len());
        return false;
    }
    let mut k: usize = 0;
    while k < a.len()
        invariant
            0 <= k <= a@.len(),
            a@.len() == b@.len(),
            forall|m: int| 0 <= m < k ==> lower_byte(a@[m]) == lower_byte(b@[m]),
        decreases a@.len() - k,
    {
        let x = lower_byte_exec(a[k]);
        let y = lower_byte_exec(b[k]);
        if x != y {
            assert(lower_seq(a@)[k as int] != lower_seq(b@)[k as int]);
            return false;
        }
        k = k + 1;
    }
    proof {
        assert(lower_seq(a@) =~= lower_seq(b@));
    }
    true
}

pub fn lower_byte_exec(b: u8) -> (r: u8)
    ensures
        r == lower_byte(b),
{
    if 65 <= b && b <= 90 {
        b + 32
    } else {
        b
    }
}

} // verus!
