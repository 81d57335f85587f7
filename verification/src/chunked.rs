//! Chunked transfer framing: a byte-at-a-time decoding machine (size line in
//! hex, chunk data, trailing CRLF, terminal zero-size chunk, optional
//! trailers), the encoder this system writes bodies with, and the proof that
//! the two are inverse.

use vstd::prelude::*;
use crate::bytes::crlf;

verus! {

/// Chunk sizes at or above this bound are refused while the size line is
/// read, so the accumulated size never overflows.
pub const CHUNK_SIZE_LIMIT: u64 = 0x1000000000000000;

#[derive(Clone, Copy, PartialEq, Eq, Structural, Debug)]
pub enum ChunkState {
    /// Reading the hex size line; `any` says whether a digit was seen.
    Size { value: u64, any: bool },
    /// Saw the size line's CR, expecting LF.
    SizeLf { value: u64 },
    /// Inside chunk data with `remaining` bytes to come.
    Data { remaining: u64 },
    /// Chunk data done, expecting CR.
    DataEndCr,
    /// Chunk data done, expecting LF.
    DataEndLf,
    /// After the zero-size chunk: blank line ends the body, anything else
    /// starts a trailer line.
    TrailerStart,
    /// Inside a trailer line, waiting for its CR.
    TrailerLine,
    /// Saw a trailer line's CR, expecting LF.
    TrailerCr,
    /// Saw the final blank line's CR, expecting LF.
    FinalLf,
    /// The terminal zero-size chunk and its blank line are consumed.
    Done,
    /// The input violated the framing.
    Failed,
}

pub open spec fn initial_chunk_state() -> ChunkState {
    ChunkState::Size { value: 0, any: false }
}

/// Hex digit value of a byte, if it is one.
pub open spec fn hex_value(b: u8) -> Option<u64> {
    if 48 <= b && b <= 57 {
        Some((b - 48) as u64)
    } else if 97 <= b && b <= 102 {
        Some((b - 97 + 10) as u64)
    } else if 65 <= b && b <= 70 {
        Some((b - 65 + 10) as u64)
    } else {
        None
    }
}

/// One step of the chunked-framing machine: next state, and the data byte it
/// hands to the caller, if any.
pub open spec fn chunk_step(st: ChunkState, b: u8) -> (ChunkState, Option<u8>) {
    match st {
        ChunkState::Size { value, any } => match hex_value(b) {
            Some(d) => if value >= CHUNK_SIZE_LIMIT {
                (ChunkState::Failed, None)
            } else {
                (ChunkState::Size { value: (value * 16 + d) as u64, any: true }, None)
            },
            None => if b == 13 && any {
                (ChunkState::SizeLf { value }, None)
            } else {
                (ChunkState::Failed, None)
            },
        },
        ChunkState::SizeLf { value } => if b == 10 {
            if value == 0 {
                (ChunkState::TrailerStart, None)
            } else {
                (ChunkState::Data { remaining: value }, None)
            }
        } else {
            (ChunkState::Failed, None)
        },
        ChunkState::Data { remaining } => if remaining <= 1 {
            (ChunkState::DataEndCr, Some(b))
        } else {
            (ChunkState::Data { remaining: (remaining - 1) as u64 }, Some(b))
        },
        ChunkState::DataEndCr => if b == 13 {
            (ChunkState::DataEndLf, None)
        } else {
            (ChunkState::Failed, None)
        },
        ChunkState::DataEndLf => if b == 10 {
            (initial_chunk_state(), None)
        } else {
            (ChunkState::Failed, None)
        },
        ChunkState::TrailerStart => if b == 13 {
            (ChunkState::FinalLf, None)
        } else if b == 10 {
            (ChunkState::Failed, None)
        } else {
            (ChunkState::TrailerLine, None)
        },
        ChunkState::TrailerLine => if b == 13 {
            (ChunkState::TrailerCr, None)
        } else if b == 10 {
            (ChunkState::Failed, None)
        } else {
            (ChunkState::TrailerLine, None)
        },
        ChunkState::TrailerCr => if b == 10 {
            (ChunkState::TrailerStart, None)
        } else {
            (ChunkState::Failed, None)
        },
        ChunkState::FinalLf => if b == 10 {
            (ChunkState::Done, None)
        } else {
            (ChunkState::Failed, None)
        },
        ChunkState::Done => (ChunkState::Failed, None),
        ChunkState::Failed => (ChunkState::Failed, None),
    }
}

pub open spec fn opt_byte_seq(o: Option<u8>) -> Seq<u8> {
    match o {
        None => Seq::empty(),
        Some(b) => seq![b],
    }
}

/// Run the machine over a whole byte sequence, collecting handed-out data.
pub open spec fn chunk_run(st: ChunkState, s: Seq<u8>) -> (ChunkState, Seq<u8>)
    decreases s.len(),
{
    if s.len() == 0 {
        (st, Seq::empty())
    } else {
        let step = chunk_step(st, s[0]);
        let rest = chunk_run(step.0, s.subrange(1, s.len() as int));
        (rest.0, opt_byte_seq(step.1) + rest.1)
    }
}

pub proof fn lemma_chunk_run_app(st: ChunkState, a: Seq<u8>, b: Seq<u8>)
    ensures
        chunk_run(st, a + b) == (
            chunk_run(chunk_run(st, a).0, b).0,
            chunk_run(st, a).1 + chunk_run(chunk_run(st, a).0, b).1,
        ),
    decreases a.len(),
{
    if a.len() == 0 {
        assert(a + b =~= b);
        assert(chunk_run(st, a).1 + chunk_run(chunk_run(st, a).0, b).1 =~= chunk_run(st, b).1);
    } else {
        let step = chunk_step(st, a[0]);
        let a1 = a.subrange(1, a.len() as int);
        assert((a + b).subrange(1, (a + b).len() as int) =~= a1 + b);
        assert((a + b)[0] == a[0]);
        lemma_chunk_run_app(step.0, a1, b);
        assert(opt_byte_seq(step.1) + (chunk_run(step.0, a1).1 + chunk_run(
            chunk_run(step.0, a1).0,
            b,
        ).1) =~= (opt_byte_seq(step.1) + chunk_run(step.0, a1).1) + chunk_run(
            chunk_run(step.0, a1).0,
            b,
        ).1);
    }
}

pub proof fn lemma_chunk_run_one(st: ChunkState, b: u8)
    ensures
        chunk_run(st, seq![b]) == (chunk_step(st, b).0, opt_byte_seq(chunk_step(st, b).1)),
{
    assert(seq![b].len() == 1);
    assert(seq![b][0] == b);
    assert(seq![b].subrange(1, 1) =~= Seq::<u8>::empty());
    let r = chunk_run(st, seq![b]);
    let step = chunk_step(st, b);
    assert(chunk_run(step.0, Seq::<u8>::empty()) == (step.0, Seq::<u8>::empty()));
    assert(r.0 == step.0);
    assert(r.1 == opt_byte_seq(step.1) + Seq::<u8>::empty());
    assert(r.1 =~= opt_byte_seq(step.1));
}

/// Once the machine has failed, no continuation reaches `Done`.
pub proof fn lemma_failed_absorbs(s: Seq<u8>)
    ensures
        chunk_run(ChunkState::Failed, s).0 == ChunkState::Failed,
    decreases s.len(),
{
    if s.len() > 0 {
        lemma_failed_absorbs(s.subrange(1, s.len() as int));
    }
}

// ---- the wire form this system writes ----

pub open spec fn hex_digit_char(d: nat) -> u8 {
    if d < 10 {
        (48 + d) as u8
    } else {
        (65 + (d - 10)) as u8
    }
}

/// Hex representation, uppercase, no leading zeros (except for zero itself).
pub open spec fn hex_rep(n: nat) -> Seq<u8>
    decreases n,
{
    if n < 16 {
        seq![hex_digit_char(n)]
    } else {
        hex_rep(n / 16) + seq![hex_digit_char(n % 16)]
    }
}

/// One data chunk: size line, data, CRLF.
pub open spec fn chunk_bytes(data: Seq<u8>) -> Seq<u8> {
    hex_rep(data.len() as nat) + crlf() + data + crlf()
}

/// The terminal zero-size chunk and the blank line after it.
pub open spec fn terminator_chunk() -> Seq<u8> {
    seq![48u8, 13u8, 10u8, 13u8, 10u8]
}

/// The bytes this system writes for a whole body: one data chunk (if the
/// payload is non-empty) and the terminal zero-size chunk.
pub open spec fn chunked_body(payload: Seq<u8>) -> Seq<u8> {
    if payload.len() == 0 {
        terminator_chunk()
    } else {
        chunk_bytes(payload) + terminator_chunk()
    }
}

// ---- encoder ----

fn hex_digit_exec(d: u64) -> (r: u8)
    requires
        d < 16,
    ensures
        r == hex_digit_char(d as nat),
{
    if d < 10 {
        48 + (d as u8)
    } else {
        65 + ((d - 10) as u8)
    }
}

fn push_hex(n: u64, out: &mut Vec<u8>)
    ensures
        final(out)@ == old(out)@ + hex_rep(n as nat),
    decreases n,
{
    if n < 16 {
        out.push(hex_digit_exec(n));
        proof {
            assert(old(out)@ + hex_rep(n as nat) =~= old(out)@.push(hex_digit_char(n as nat)));
        }
    } else {
        push_hex(n / 16, out);
        out.push(hex_digit_exec(n % 16));
        proof {
            assert((n as nat) / 16 == (n / 16) as nat) by (nonlinear_arith);
            assert((n as nat) % 16 == (n % 16) as nat) by (nonlinear_arith);
            assert(old(out)@ + hex_rep(n as nat) =~= (old(out)@ + hex_rep((n / 16) as nat)).push(
                hex_digit_char((n % 16) as nat),
            ));
        }
    }
}

/// One data chunk as this system frames it.
pub fn encode_chunk(data: &[u8]) -> (r: Vec<u8>)
    requires
        data@.len() > 0,
    ensures
        r@ == chunk_bytes(data@),
{
    let mut out: Vec<u8> = Vec::new();
    push_hex(data.len() as u64, &mut out);
    out.push(13);
    out.push(10);
    crate::head::push_all(&mut out, data);
    out.push(13);
    out.push(10);
    proof {
        assert(out@ =~= chunk_bytes(data@));
    }
    out
}

/// The terminal zero-size chunk and blank line.
pub fn encode_chunk_terminator() -> (r: Vec<u8>)
    ensures
        r@ == terminator_chunk(),
{
    let mut out: Vec<u8> = Vec::new();
    out.push(48);
    out.push(13);
    out.push(10);
    out.push(13);
    out.push(10);
    proof {
        assert(out@ =~= terminator_chunk());
    }
    out
}

/// A whole body, re-framed as chunked, as the response path always writes it.
pub fn encode_chunked_body(payload: &[u8]) -> (r: Vec<u8>)
    ensures
        r@ == chunked_body(payload@),
{
    if payload.len() == 0 {
        encode_chunk_terminator()
    } else {
        let mut out = encode_chunk(payload);
        let mut term = encode_chunk_terminator();
        let ghost before = out@;
        crate::head::push_all(&mut out, term.as_slice());
        out
    }
}

// ---- decoder ----

/// One step, executable.
pub fn chunk_step_exec(st: ChunkState, b: u8) -> (r: (ChunkState, Option<u8>))
    ensures
        r == chunk_step(st, b),
{
    match st {
        ChunkState::Size { value, any } => {
            let d_opt: Option<u64> = if 48 <= b && b <= 57 {
                Some((b - 48) as u64)
            } else if 97 <= b && b <= 102 {
                Some((b - 97 + 10) as u64)
            } else if 65 <= b && b <= 70 {
                Some((b - 65 + 10) as u64)
            } else {
                None
            };
            match d_opt {
                Some(d) => if value >= CHUNK_SIZE_LIMIT {
                    (ChunkState::Failed, None)
                } else {
                    (ChunkState::Size { value: value * 16 + d, any: true }, None)
                },
                None => if b == 13 && any {
                    (ChunkState::SizeLf { value }, None)
                } else {
                    (ChunkState::Failed, None)
                },
            }
        },
        ChunkState::SizeLf { value } => if b == 10 {
            if value == 0 {
                (ChunkState::TrailerStart, None)
            } else {
                (ChunkState::Data { remaining: value }, None)
            }
        } else {
            (ChunkState::Failed, None)
        },
        ChunkState::Data { remaining } => if remaining <= 1 {
            (ChunkState::DataEndCr, Some(b))
        } else {
            (ChunkState::Data { remaining: remaining - 1 }, Some(b))
        },
        ChunkState::DataEndCr => if b == 13 {
            (ChunkState::DataEndLf, None)
        } else {
            (ChunkState::Failed, None)
        },
        ChunkState::DataEndLf => if b == 10 {
            (ChunkState::Size { value: 0, any: false }, None)
        } else {
            (ChunkState::Failed, None)
        },
        ChunkState::TrailerStart => if b == 13 {
            (ChunkState::FinalLf, None)
        } else if b == 10 {
            (ChunkState::Failed, None)
        } else {
            (ChunkState::TrailerLine, None)
        },
        ChunkState::TrailerLine => if b == 13 {
            (ChunkState::TrailerCr, None)
        } else if b == 10 {
            (ChunkState::Failed, None)
        } else {
            (ChunkState::TrailerLine, None)
        },
        ChunkState::TrailerCr => if b == 10 {
            (ChunkState::TrailerStart, None)
        } else {
            (ChunkState::Failed, None)
        },
        ChunkState::FinalLf => if b == 10 {
            (ChunkState::Done, None)
        } else {
            (ChunkState::Failed, None)
        },
        ChunkState::Done => (ChunkState::Failed, None),
        ChunkState::Failed => (ChunkState::Failed, None),
    }
}

/// Decode a whole chunked body from the front of `input`: the payload and
/// how many bytes the framing occupies. `None` when no prefix of `input`
/// completes a body.
#[verifier::loop_isolation(false)]
pub fn decode_chunked(input: &[u8]) -> (r: Option<(Vec<u8>, usize)>)
    ensures
        match r {
            Some(pc) => {
                &&& pc.1 <= input@.len()
                &&& chunk_run(initial_chunk_state(), input@.subrange(0, pc.1 as int)) == (
                    ChunkState::Done,
                    pc.0@,
                )
                &&& forall|p: int|
                    0 <= p < pc.1 ==> chunk_run(
                        initial_chunk_state(),
                        input@.subrange(0, p),
                    ).0 != ChunkState::Done
            },
            None => forall|p: int|
                0 <= p <= input@.len() ==> chunk_run(
                    initial_chunk_state(),
                    input@.subrange(0, p),
                ).0 != ChunkState::Done,
        },
{
    let mut st = ChunkState::Size { value: 0, any: false };
    let mut out: Vec<u8> = Vec::new();
    let mut i: usize = 0;
    proof {
        assert(input@.subrange(0, 0) =~= Seq::<u8>::empty());
    }
    while i < input.len()
        invariant
            0 <= i <= input@.len(),
            chunk_run(initial_chunk_state(), input@.subrange(0, i as int)) == (st, out@),
            st != ChunkState::Done,
            forall|p: int|
                0 <= p <= i ==> chunk_run(initial_chunk_state(), input@.subrange(0, p)).0
                    != ChunkState::Done,
        decreases input@.len() - i,
    {
        let b = input[i];
        let (st2, em) = chunk_step_exec(st, b);
        proof {
            let pre = input@.subrange(0, i as int);
            assert(input@.subrange(0, i + 1) =~= pre + seq![b]);
            lemma_chunk_run_app(initial_chunk_state(), pre, seq![b]);
            lemma_chunk_run_one(st, b);
        }
        match em {
            Some(d) => {
                out.push(d);
                proof {
                    assert(chunk_run(initial_chunk_state(), input@.subrange(0, i + 1)).1 =~= out@);
                }
            },
            None => {
                proof {
                    assert(chunk_run(initial_chunk_state(), input@.subrange(0, i + 1)).1 =~= out@);
                }
            },
        }
        st = st2;
        i = i + 1;
        match st {
            ChunkState::Done => {
                return Some((out, i));
            },
            ChunkState::Failed => {
                proof {
                    assert forall|p: int|
                        0 <= p <= input@.len() implies chunk_run(
                        initial_chunk_state(),
                        input@.subrange(0, p),
                    ).0 != ChunkState::Done by {
                        if p > i {
                            let pre = input@.subrange(0, i as int);
                            let mid = input@.subrange(i as int, p);
                            assert(input@.subrange(0, p) =~= pre + mid);
                            lemma_chunk_run_app(initial_chunk_state(), pre, mid);
                            lemma_failed_absorbs(mid);
                        }
                    }
                }
                return None;
            },
            _ => {},
        }
    }
    None
}

// ---- the round trip ----

/// Feeding the hex form of `n` to a fresh size line yields `n`.
proof fn lemma_run_hex(n: nat)
    requires
        n <= u64::MAX as nat,
    ensures
        chunk_run(initial_chunk_state(), hex_rep(n)) == (
            ChunkState::Size { value: n as u64, any: true },
            Seq::<u8>::empty(),
        ),
    decreases n,
{
    if n < 16 {
        lemma_chunk_run_one(initial_chunk_state(), hex_digit_char(n));
        assert(hex_value(hex_digit_char(n)) == Some(n as u64));
    } else {
        let q = n / 16;
        let d = n % 16;
        assert(q * 16 + d == n) by (nonlinear_arith)
            requires
                q == n / 16,
                d == n % 16,
        ;
        assert(q < CHUNK_SIZE_LIMIT as nat) by (nonlinear_arith)
            requires
                n <= u64::MAX as nat,
                q == n / 16,
        ;
        lemma_run_hex(q);
        lemma_chunk_run_app(initial_chunk_state(), hex_rep(q), seq![hex_digit_char(d)]);
        lemma_chunk_run_one(ChunkState::Size { value: q as u64, any: true }, hex_digit_char(d));
        assert(hex_value(hex_digit_char(d)) == Some(d as u64));
        assert(hex_rep(n) == hex_rep(q) + seq![hex_digit_char(d)]);
        assert(chunk_run(initial_chunk_state(), hex_rep(n)).1 =~= Seq::<u8>::empty());
    }
}

/// Feeding `data` while `data.len()` bytes remain hands all of `data` out.
proof fn lemma_run_data(data: Seq<u8>)
    requires
        0 < data.len() <= u64::MAX as nat,
    ensures
        chunk_run(ChunkState::Data { remaining: data.len() as u64 }, data) == (
            ChunkState::DataEndCr,
            data,
        ),
    decreases data.len(),
{
    let st = ChunkState::Data { remaining: data.len() as u64 };
    if data.len() == 1 {
        lemma_chunk_run_one(st, data[0]);
        assert(opt_byte_seq(Some(data[0])) =~= data);
    } else {
        let rest = data.subrange(1, data.len() as int);
        lemma_run_data(rest);
        assert(chunk_step(st, data[0]) == (
            ChunkState::Data { remaining: (data.len() - 1) as u64 },
            Some(data[0]),
        ));
        assert(seq![data[0]] + rest =~= data);
        assert(opt_byte_seq(Some(data[0])) + chunk_run(
            ChunkState::Data { remaining: rest.len() as u64 },
            rest,
        ).1 =~= data);
    }
}

/// Feeding the terminal zero-size chunk completes the body.
proof fn lemma_run_terminator()
    ensures
        chunk_run(initial_chunk_state(), terminator_chunk()) == (
            ChunkState::Done,
            Seq::<u8>::empty(),
        ),
{
    let p1 = seq![48u8];
    lemma_chunk_run_one(initial_chunk_state(), 48u8);
    assert(hex_value(48u8) == Some(0u64));
    let st1 = ChunkState::Size { value: 0, any: true };
    lemma_chunk_run_app(initial_chunk_state(), p1, seq![13u8]);
    lemma_chunk_run_one(st1, 13u8);
    assert(hex_value(13u8) is None);
    let p2 = p1 + seq![13u8];
    lemma_chunk_run_app(initial_chunk_state(), p2, seq![10u8]);
    lemma_chunk_run_one(ChunkState::SizeLf { value: 0 }, 10u8);
    let p3 = p2 + seq![10u8];
    lemma_chunk_run_app(initial_chunk_state(), p3, seq![13u8]);
    lemma_chunk_run_one(ChunkState::TrailerStart, 13u8);
    let p4 = p3 + seq![13u8];
    lemma_chunk_run_app(initial_chunk_state(), p4, seq![10u8]);
    lemma_chunk_run_one(ChunkState::FinalLf, 10u8);
    let p5 = p4 + seq![10u8];
    assert(p5 =~= terminator_chunk());
    assert(chunk_run(initial_chunk_state(), terminator_chunk()).1 =~= Seq::<u8>::empty());
}

/// One data chunk carries its payload through the machine and leaves it
/// ready for the next size line.
proof fn lemma_run_chunk(payload: Seq<u8>)
    requires
        0 < payload.len() <= u64::MAX as nat,
    ensures
        chunk_run(initial_chunk_state(), chunk_bytes(payload)) == (
            initial_chunk_state(),
            payload,
        ),
{
    let n = payload.len() as nat;
    let sz = hex_rep(n);
    lemma_run_hex(n);
    lemma_chunk_run_app(initial_chunk_state(), sz, seq![13u8]);
    lemma_chunk_run_one(ChunkState::Size { value: n as u64, any: true }, 13u8);
    assert(hex_value(13u8) is None);
    lemma_chunk_run_app(initial_chunk_state(), sz + seq![13u8], seq![10u8]);
    lemma_chunk_run_one(ChunkState::SizeLf { value: n as u64 }, 10u8);
    let pre1 = sz + seq![13u8] + seq![10u8];
    assert(chunk_run(initial_chunk_state(), pre1) == (
        ChunkState::Data { remaining: n as u64 },
        Seq::<u8>::empty(),
    )) by {
        assert(chunk_run(initial_chunk_state(), pre1).1 =~= Seq::<u8>::empty());
    }
    lemma_run_data(payload);
    lemma_chunk_run_app(initial_chunk_state(), pre1, payload);
    let pre2 = pre1 + payload;
    assert(chunk_run(initial_chunk_state(), pre2) == (ChunkState::DataEndCr, payload)) by {
        assert(chunk_run(initial_chunk_state(), pre2).1 =~= payload);
    }
    lemma_chunk_run_app(initial_chunk_state(), pre2, seq![13u8]);
    lemma_chunk_run_one(ChunkState::DataEndCr, 13u8);
    let pre3 = pre2 + seq![13u8];
    assert(chunk_run(initial_chunk_state(), pre3) == (ChunkState::DataEndLf, payload)) by {
        assert(chunk_run(initial_chunk_state(), pre3).1 =~= payload);
    }
    lemma_chunk_run_app(initial_chunk_state(), pre3, seq![10u8]);
    lemma_chunk_run_one(ChunkState::DataEndLf, 10u8);
    assert(pre3 + seq![10u8] =~= chunk_bytes(payload));
    assert(chunk_run(initial_chunk_state(), chunk_bytes(payload)).1 =~= payload);
}

/// The wire bytes of a streamed body: one chunk per write, then the
/// terminator.
pub open spec fn chunks_bytes(parts: Seq<Seq<u8>>) -> Seq<u8>
    decreases parts.len(),
{
    if parts.len() == 0 {
        terminator_chunk()
    } else {
        chunk_bytes(parts[0]) + chunks_bytes(parts.subrange(1, parts.len() as int))
    }
}

/// A streamed body — any sequence of non-empty writes, each framed as its
/// own chunk, closed by the zero-size terminator — decodes to the
/// concatenation of the writes.
pub proof fn lemma_streamed_chunks_round_trip(parts: Seq<Seq<u8>>)
    requires
        forall|i: int| 0 <= i < parts.len() ==> 0 < #[trigger] parts[i].len() <= u64::MAX as nat,
    ensures
        chunk_run(initial_chunk_state(), chunks_bytes(parts)) == (
            ChunkState::Done,
            parts.flatten(),
        ),
    decreases parts.len(),
{
    if parts.len() == 0 {
        lemma_run_terminator();
        assert(parts.flatten() =~= Seq::<u8>::empty());
    } else {
        let rest = parts.subrange(1, parts.len() as int);
        lemma_streamed_chunks_round_trip(rest);
        lemma_run_chunk(parts[0]);
        lemma_chunk_run_app(initial_chunk_state(), chunk_bytes(parts[0]), chunks_bytes(rest));
        assert(parts.flatten() == parts[0] + rest.flatten());
        assert(chunk_run(initial_chunk_state(), chunks_bytes(parts)).1 =~= parts.flatten());
    }
}

/// Decoding what this system encodes yields exactly the original payload,
/// and the machine stops in `Done`: the final chunk on the wire is always
/// the zero-size terminator.
pub proof fn lemma_chunked_round_trip(payload: Seq<u8>)
    requires
        payload.len() <= u64::MAX as nat,
    ensures
        chunk_run(initial_chunk_state(), chunked_body(payload)) == (ChunkState::Done, payload),
{
    if payload.len() == 0 {
        lemma_run_terminator();
        assert(chunked_body(payload) == terminator_chunk());
        assert(chunk_run(initial_chunk_state(), chunked_body(payload)).1 =~= payload);
    } else {
        lemma_run_chunk(payload);
        lemma_run_terminator();
        lemma_chunk_run_app(initial_chunk_state(), chunk_bytes(payload), terminator_chunk());
        assert(chunk_run(initial_chunk_state(), chunked_body(payload)).1 =~= payload);
    }
}

} // verus!
