//! The resumable MessagePack token decoder.
//!
//! The decoder is specified by a byte-at-a-time machine (`step`, folded over
//! a byte sequence by `run`). Each call of `TokenIter::next` consumes a run of
//! input bytes, and the token it yields is, once split into one-byte payload
//! pieces by `explode`, exactly what `run` produces over those bytes.

use vstd::prelude::*;
use crate::num::Num;
use crate::markers::{
    C_ARR16, C_ARR32, C_BIN16, C_BIN32, C_BIN8, C_EXT16, C_EXT32, C_EXT8, C_F32, C_F64,
    C_FALSE, C_FIXEXT1, C_FIXEXT16, C_FIXEXT2, C_FIXEXT4, C_FIXEXT8, C_I16, C_I32, C_I64,
    C_I8, C_MAP16, C_MAP32, C_NIL, C_RES, C_STR16, C_STR32, C_STR8, C_TRUE, C_U16, C_U32,
    C_U64, C_U8,
};

verus! {

/// What a length announced by a `Token::Len` counts.
#[derive(Debug, Clone, Copy, PartialEq, Eq, Structural)]
pub enum LenType {
    /// Bytes of binary data.
    Bin,
    /// Bytes of utf8 string data.
    Str,
    /// Elements of an array.
    Arr,
    /// Key / value pairs of a map.
    Mapping,
    /// Bytes of ext data with the given type tag.
    Ext(i8),
}

/// A token of the decoded stream. Payload bytes borrow from the input.
#[derive(Clone, Copy, Debug, PartialEq)]
pub enum Token<'lt> {
    /// A piece of a bin, str or ext payload; `u32` bytes of it remain.
    BinCont(&'lt [u8], u32),
    /// The last (or only) piece of a bin, str or ext payload.
    Bin(&'lt [u8]),
    /// An announced length.
    Len(LenType, u32),
    /// Nil.
    Nil,
    /// A boolean.
    Bool(bool),
    /// A number.
    Num(Num),
}

/// The mathematical model of a token: payloads are byte sequences.
pub enum Tok {
    BinCont(Seq<u8>, u32),
    Bin(Seq<u8>),
    Len(LenType, u32),
    Nil,
    Bool(bool),
    Num(Num),
}

impl<'lt> View for Token<'lt> {
    type V = Tok;

    open spec fn view(&self) -> Tok {
        match *self {
            Token::BinCont(b, r) => Tok::BinCont(b@, r),
            Token::Bin(b) => Tok::Bin(b@),
            Token::Len(t, l) => Tok::Len(t, l),
            Token::Nil => Tok::Nil,
            Token::Bool(b) => Tok::Bool(b),
            Token::Num(n) => Tok::Num(n),
        }
    }
}

/// How the bytes of a pending header are to be read once complete.
#[derive(Debug, Clone, Copy, PartialEq, Eq, Structural)]
pub enum PendType {
    /// A length of the given kind.
    Len(LenType),
    /// The length of an ext payload; its type byte follows.
    ExtLen,
    /// The type byte of an ext payload of the given length.
    Ext(u32),
    U8,
    U16,
    U32,
    U64,
    I8,
    I16,
    I32,
    I64,
    /// The bit pattern of a single-precision float.
    F32,
    /// The bit pattern of a double-precision float.
    F64,
}

/// The bytes of a multi-byte header read so far: `len` of them, whose
/// big-endian value is `acc`.
#[derive(Debug, Clone, Copy, PartialEq, Eq, Structural)]
pub struct PartialStore {
    pub len: u8,
    pub acc: u64,
}

/// The decoder's state between bytes.
#[derive(Debug, Clone, Copy, PartialEq, Eq, Structural)]
pub enum DecState {
    /// Waiting for a marker byte.
    WantMarker,
    /// A zero-length payload is due: an empty `Bin` comes next.
    WantBinZero,
    /// This many payload bytes are due.
    WantBin(u32),
    /// One header byte is due.
    Pend8(PendType),
    /// Two header bytes are due, some of them already read.
    Pend16(PendType, PartialStore),
    /// Four header bytes are due, some of them already read.
    Pend32(PendType, PartialStore),
    /// Eight header bytes are due, some of them already read.
    Pend64(PendType, PartialStore),
}

pub open spec fn pow256(n: nat) -> nat
    decreases n,
{
    if n == 0 {
        1
    } else {
        256 * pow256((n - 1) as nat)
    }
}

/// The value of the `n`-byte two's complement pattern `v`.
pub open spec fn signed_of(v: nat, n: nat) -> int {
    if v >= pow256(n) / 2 {
        v - pow256(n)
    } else {
        v as int
    }
}

/// The ext type tag that a byte holds.
pub open spec fn i8_of_byte(b: u8) -> i8 {
    if b >= 128 {
        (b - 256) as i8
    } else {
        b as i8
    }
}

pub open spec fn store_ok(p: PartialStore, width: nat) -> bool {
    p.len < width && p.acc < pow256(p.len as nat)
}

/// The states the decoder can be in.
pub open spec fn state_ok(s: DecState) -> bool {
    match s {
        DecState::WantBin(n) => n > 0,
        DecState::Pend16(_, p) => store_ok(p, 2),
        DecState::Pend32(_, p) => store_ok(p, 4),
        DecState::Pend64(_, p) => store_ok(p, 8),
        _ => true,
    }
}

/// The state after a length of kind `t` was read, and the token announcing it.
pub open spec fn got_len(t: LenType, n: u32) -> (DecState, Seq<Tok>) {
    let st = match t {
        LenType::Arr | LenType::Mapping => DecState::WantMarker,
        _ => if n == 0 {
            DecState::WantBinZero
        } else {
            DecState::WantBin(n)
        },
    };
    (st, seq![Tok::Len(t, n)])
}

/// A complete header of kind `k` whose bytes read big-endian give `v`.
#[verifier::opaque]
pub open spec fn finish(k: PendType, v: u64) -> (DecState, Seq<Tok>) {
    match k {
        PendType::Len(t) => got_len(t, (v % 0x1_0000_0000) as u32),
        PendType::ExtLen => (DecState::Pend8(PendType::Ext((v % 0x1_0000_0000) as u32)), seq![]),
        PendType::Ext(len) => got_len(LenType::Ext(i8_of_byte((v % 256) as u8)), len),
        PendType::U8 | PendType::U16 | PendType::U32 | PendType::U64 => (
            DecState::WantMarker,
            seq![Tok::Num(Num::Unsigned(v))],
        ),
        PendType::I8 => (
            DecState::WantMarker,
            seq![Tok::Num(Num::Signed(signed_of(v as nat % pow256(1), 1) as i64))],
        ),
        PendType::I16 => (
            DecState::WantMarker,
            seq![Tok::Num(Num::Signed(signed_of(v as nat % pow256(2), 2) as i64))],
        ),
        PendType::I32 => (
            DecState::WantMarker,
            seq![Tok::Num(Num::Signed(signed_of(v as nat % pow256(4), 4) as i64))],
        ),
        PendType::I64 => (
            DecState::WantMarker,
            seq![Tok::Num(Num::Signed(signed_of(v as nat, 8) as i64))],
        ),
        PendType::F32 => (
            DecState::WantMarker,
            seq![Tok::Num(Num::F32((v % 0x1_0000_0000) as u32))],
        ),
        PendType::F64 => (DecState::WantMarker, seq![Tok::Num(Num::F64(v))]),
    }
}

/// The pending state that a marker of a multi-byte item leads to
/// (markers 0xc4 to 0xdf).
pub open spec fn marker_pend(m: u8) -> DecState {
    let p = PartialStore { len: 0, acc: 0 };
    if m == C_BIN8 {
        DecState::Pend8(PendType::Len(LenType::Bin))
    } else if m == C_BIN16 {
        DecState::Pend16(PendType::Len(LenType::Bin), p)
    } else if m == C_BIN32 {
        DecState::Pend32(PendType::Len(LenType::Bin), p)
    } else if m == C_EXT8 {
        DecState::Pend8(PendType::ExtLen)
    } else if m == C_EXT16 {
        DecState::Pend16(PendType::ExtLen, p)
    } else if m == C_EXT32 {
        DecState::Pend32(PendType::ExtLen, p)
    } else if m == C_F32 {
        DecState::Pend32(PendType::F32, p)
    } else if m == C_F64 {
        DecState::Pend64(PendType::F64, p)
    } else if m == C_U8 {
        DecState::Pend8(PendType::U8)
    } else if m == C_U16 {
        DecState::Pend16(PendType::U16, p)
    } else if m == C_U32 {
        DecState::Pend32(PendType::U32, p)
    } else if m == C_U64 {
        DecState::Pend64(PendType::U64, p)
    } else if m == C_I8 {
        DecState::Pend8(PendType::I8)
    } else if m == C_I16 {
        DecState::Pend16(PendType::I16, p)
    } else if m == C_I32 {
        DecState::Pend32(PendType::I32, p)
    } else if m == C_I64 {
        DecState::Pend64(PendType::I64, p)
    } else if m == C_FIXEXT1 {
        DecState::Pend8(PendType::Ext(1))
    } else if m == C_FIXEXT2 {
        DecState::Pend8(PendType::Ext(2))
    } else if m == C_FIXEXT4 {
        DecState::Pend8(PendType::Ext(4))
    } else if m == C_FIXEXT8 {
        DecState::Pend8(PendType::Ext(8))
    } else if m == C_FIXEXT16 {
        DecState::Pend8(PendType::Ext(16))
    } else if m == C_STR8 {
        DecState::Pend8(PendType::Len(LenType::Str))
    } else if m == C_STR16 {
        DecState::Pend16(PendType::Len(LenType::Str), p)
    } else if m == C_STR32 {
        DecState::Pend32(PendType::Len(LenType::Str), p)
    } else if m == C_ARR16 {
        DecState::Pend16(PendType::Len(LenType::Arr), p)
    } else if m == C_ARR32 {
        DecState::Pend32(PendType::Len(LenType::Arr), p)
    } else if m == C_MAP16 {
        DecState::Pend16(PendType::Len(LenType::Mapping), p)
    } else {
        DecState::Pend32(PendType::Len(LenType::Mapping), p)
    }
}

/// What a marker byte read in state `WantMarker` leads to.
#[verifier::opaque]
pub open spec fn marker_step(m: u8) -> (DecState, Seq<Tok>) {
    if m <= 0x7f {
        (DecState::WantMarker, seq![Tok::Num(Num::Unsigned(m as u64))])
    } else if m <= 0x8f {
        (DecState::WantMarker, seq![Tok::Len(LenType::Mapping, (m - 0x80) as u32)])
    } else if m <= 0x9f {
        (DecState::WantMarker, seq![Tok::Len(LenType::Arr, (m - 0x90) as u32)])
    } else if m <= 0xbf {
        got_len(LenType::Str, (m - 0xa0) as u32)
    } else if m == C_NIL || m == C_RES {
        (DecState::WantMarker, seq![Tok::Nil])
    } else if m == C_FALSE {
        (DecState::WantMarker, seq![Tok::Bool(false)])
    } else if m == C_TRUE {
        (DecState::WantMarker, seq![Tok::Bool(true)])
    } else if m >= 0xe0 {
        (DecState::WantMarker, seq![Tok::Num(Num::Signed((m - 256) as i64))])
    } else {
        (marker_pend(m), seq![])
    }
}

pub open spec fn push_store(p: PartialStore, b: u8) -> PartialStore {
    PartialStore { len: (p.len + 1) as u8, acc: (p.acc * 256 + b) as u64 }
}

/// A store after the bytes `bs` were appended to it.
pub open spec fn push_all(p: PartialStore, bs: Seq<u8>) -> PartialStore
    decreases bs.len(),
{
    if bs.len() == 0 {
        p
    } else {
        push_store(push_all(p, bs.drop_last()), bs.last())
    }
}

/// The state `Pend16`, `Pend32` or `Pend64` for a header of `w` bytes.
pub open spec fn pend_wide(w: nat, k: PendType, p: PartialStore) -> DecState {
    if w == 2 {
        DecState::Pend16(k, p)
    } else if w == 4 {
        DecState::Pend32(k, p)
    } else {
        DecState::Pend64(k, p)
    }
}

pub open spec fn step_wide(w: nat, k: PendType, p: PartialStore, b: u8) -> (DecState, Seq<Tok>) {
    let q = push_store(p, b);
    if q.len >= w {
        finish(k, q.acc)
    } else {
        (pend_wide(w, k, q), seq![])
    }
}

/// One byte read in state `s`: the next state and the tokens completed.
/// Payload bytes come out one at a time.
pub open spec fn step(s: DecState, b: u8) -> (DecState, Seq<Tok>) {
    match s {
        DecState::WantMarker => marker_step(b),
        DecState::WantBinZero => (marker_step(b).0, seq![Tok::Bin(seq![])] + marker_step(b).1),
        DecState::WantBin(n) => if n <= 1 {
            (DecState::WantMarker, seq![Tok::Bin(seq![b])])
        } else {
            (DecState::WantBin((n - 1) as u32), seq![Tok::BinCont(seq![b], (n - 1) as u32)])
        },
        DecState::Pend8(k) => finish(k, b as u64),
        DecState::Pend16(k, p) => step_wide(2, k, p, b),
        DecState::Pend32(k, p) => step_wide(4, k, p, b),
        DecState::Pend64(k, p) => step_wide(8, k, p, b),
    }
}

/// The bytes `bs` read one by one from state `s`: the final state and all
/// tokens completed on the way.
pub open spec fn run(s: DecState, bs: Seq<u8>) -> (DecState, Seq<Tok>)
    decreases bs.len(),
{
    if bs.len() == 0 {
        (s, seq![])
    } else {
        let prev = run(s, bs.drop_last());
        let last = step(prev.0, bs.last());
        (last.0, prev.1 + last.1)
    }
}

/// A token with its payload split into one-byte pieces, as `run` yields it.
pub open spec fn explode(t: Tok) -> Seq<Tok> {
    match t {
        Tok::BinCont(b, r) => Seq::new(
            b.len(),
            |i: int| Tok::BinCont(seq![b[i]], (r + b.len() - 1 - i) as u32),
        ),
        Tok::Bin(b) => if b.len() == 0 {
            seq![t]
        } else {
            Seq::new(
                b.len(),
                |i: int|
                    if i == b.len() - 1 {
                        Tok::Bin(seq![b[i]])
                    } else {
                        Tok::BinCont(seq![b[i]], (b.len() - 1 - i) as u32)
                    },
            )
        },
        _ => seq![t],
    }
}

/// Payload bytes `bs` read while `n` were due.
pub open spec fn payload_toks(bs: Seq<u8>, n: nat) -> Seq<Tok> {
    Seq::new(
        bs.len(),
        |i: int|
            if i == n - 1 {
                Tok::Bin(seq![bs[i]])
            } else {
                Tok::BinCont(seq![bs[i]], (n - 1 - i) as u32)
            },
    )
}

/// The minimum number of bytes that lets the decoder make progress.
pub open spec fn bytes_min(s: DecState) -> nat {
    match s {
        DecState::WantMarker => 1,
        DecState::WantBinZero => 0,
        DecState::WantBin(l) => l as nat,
        DecState::Pend8(_) => 1,
        DecState::Pend16(_, p) => (2 - p.len) as nat,
        DecState::Pend32(_, p) => (4 - p.len) as nat,
        DecState::Pend64(_, p) => (8 - p.len) as nat,
    }
}

/// The state after which a payload of `n` bytes is read.
pub open spec fn want_payload(n: u32) -> DecState {
    if n == 0 {
        DecState::WantBinZero
    } else {
        DecState::WantBin(n)
    }
}

/// The state after a length of kind `k` was announced.
pub open spec fn len_state(k: LenType, n: u32) -> DecState {
    match k {
        LenType::Arr | LenType::Mapping => DecState::WantMarker,
        _ => want_payload(n),
    }
}

/// All tokens of `bs` read from state `s`, an empty payload that is due at
/// the end included: what one parse yields when its tokens are drained.
pub open spec fn drain(s: DecState, bs: Seq<u8>) -> (DecState, Seq<Tok>) {
    let r = run(s, bs);
    if r.0 == DecState::WantBinZero {
        (DecState::WantMarker, r.1.push(Tok::Bin(Seq::<u8>::empty())))
    } else {
        r
    }
}

/// Chunks read one after the other by one decoder from state `s`.
pub open spec fn drain_chunks(s: DecState, cs: Seq<Seq<u8>>) -> (DecState, Seq<Tok>)
    decreases cs.len(),
{
    if cs.len() == 0 {
        (s, seq![])
    } else {
        let prev = drain_chunks(s, cs.drop_last());
        let last = drain(prev.0, cs.last());
        (last.0, prev.1 + last.1)
    }
}

/// Tokens with their payloads split into one-byte pieces.
pub open spec fn exploded(ts: Seq<Tok>) -> Seq<Tok>
    decreases ts.len(),
{
    if ts.len() == 0 {
        seq![]
    } else {
        exploded(ts.drop_last()) + explode(ts.last())
    }
}

pub proof fn lemma_run_concat(s: DecState, x: Seq<u8>, y: Seq<u8>)
    ensures
        run(s, x + y) == (run(run(s, x).0, y).0, run(s, x).1 + run(run(s, x).0, y).1),
    decreases y.len(),
{
    if y.len() == 0 {
        assert(x + y =~= x);
        assert(run(s, x).1 + seq![] =~= run(s, x).1);
    } else {
        assert((x + y).drop_last() =~= x + y.drop_last());
        assert((x + y).last() == y.last());
        lemma_run_concat(s, x, y.drop_last());
        let mid = run(s, x).0;
        let a = run(s, x).1;
        let b = run(mid, y.drop_last()).1;
        let c = step(run(mid, y.drop_last()).0, y.last()).1;
        assert(a + b + c =~= a + (b + c));
    }
}

pub(crate) proof fn lemma_run_bin(n: u32, bs: Seq<u8>)
    requires
        1 <= bs.len() <= n,
    ensures
        run(DecState::WantBin(n), bs) == (
            if bs.len() == n {
                DecState::WantMarker
            } else {
                DecState::WantBin((n - bs.len()) as u32)
            },
            payload_toks(bs, n as nat),
        ),
    decreases bs.len(),
{
    let s = DecState::WantBin(n);
    if bs.len() == 1 {
        assert(bs.drop_last() =~= Seq::<u8>::empty());
        assert(run(s, bs.drop_last()) == (s, Seq::<Tok>::empty()));
        let last = step(s, bs.last());
        assert(Seq::<Tok>::empty() + last.1 =~= payload_toks(bs, n as nat));
    } else {
        lemma_run_bin(n, bs.drop_last());
        let prev = run(s, bs.drop_last());
        let m = (n - bs.len() + 1) as u32;
        assert(prev.0 == DecState::WantBin(m));
        let last = step(prev.0, bs.last());
        assert(prev.1 + last.1 =~= payload_toks(bs, n as nat));
    }
}

pub proof fn lemma_pow256_small()
    ensures
        pow256(0) == 1,
        pow256(1) == 0x100,
        pow256(2) == 0x10000,
        pow256(4) == 0x1_0000_0000,
        pow256(7) == 0x100_0000_0000_0000,
        pow256(8) == 0x1_0000_0000_0000_0000,
{
    reveal_with_fuel(pow256, 9);
}

pub(crate) proof fn lemma_pow256_mono(a: nat, b: nat)
    requires
        a <= b,
    ensures
        pow256(a) <= pow256(b),
    decreases b,
{
    if a < b {
        lemma_pow256_mono(a, (b - 1) as nat);
    }
}

pub(crate) proof fn lemma_push_store(p: PartialStore, b: u8)
    requires
        p.len < 8,
        p.acc < pow256(p.len as nat),
    ensures
        push_store(p, b).len == p.len + 1,
        push_store(p, b).acc == p.acc * 256 + b,
        push_store(p, b).acc < pow256((p.len + 1) as nat),
{
    let l = p.len as nat;
    lemma_pow256_small();
    lemma_pow256_mono(l, 7);
    assert(pow256(l + 1) == 256 * pow256(l));
    assert(p.acc * 256 + b < pow256(l) * 256) by (nonlinear_arith)
        requires
            p.acc < pow256(l),
            b < 256,
    ;
}

pub(crate) proof fn lemma_push_all(p: PartialStore, bs: Seq<u8>)
    requires
        p.len + bs.len() <= 8,
        p.acc < pow256(p.len as nat),
    ensures
        push_all(p, bs).len == p.len + bs.len(),
        push_all(p, bs).acc < pow256(push_all(p, bs).len as nat),
    decreases bs.len(),
{
    if bs.len() > 0 {
        lemma_push_all(p, bs.drop_last());
        lemma_push_store(push_all(p, bs.drop_last()), bs.last());
    }
}

pub(crate) proof fn lemma_run_wide(w: nat, k: PendType, p: PartialStore, bs: Seq<u8>)
    requires
        w == 2 || w == 4 || w == 8,
        store_ok(p, w),
        1 <= bs.len() <= w - p.len,
    ensures
        run(pend_wide(w, k, p), bs) == (
            if p.len + bs.len() == w {
                finish(k, push_all(p, bs).acc)
            } else {
                (pend_wide(w, k, push_all(p, bs)), seq![])
            }
        ),
    decreases bs.len(),
{
    let s = pend_wide(w, k, p);
    lemma_push_all(p, bs);
    lemma_push_all(p, bs.drop_last());
    if bs.len() == 1 {
        assert(bs.drop_last() =~= Seq::<u8>::empty());
        assert(run(s, bs.drop_last()) == (s, Seq::<Tok>::empty()));
        let last = step(s, bs.last());
        assert(last == step_wide(w, k, p, bs.last()));
        assert(Seq::<Tok>::empty() + last.1 =~= last.1);
    } else {
        lemma_run_wide(w, k, p, bs.drop_last());
        let q = push_all(p, bs.drop_last());
        let last = step(pend_wide(w, k, q), bs.last());
        assert(last == step_wide(w, k, q, bs.last()));
        assert(Seq::<Tok>::empty() + last.1 =~= last.1);
    }
}

proof fn lemma_run_zero(x: Seq<u8>)
    requires
        x.len() > 0,
    ensures
        run(DecState::WantBinZero, x) == (
            run(DecState::WantMarker, x).0,
            seq![Tok::Bin(Seq::<u8>::empty())] + run(DecState::WantMarker, x).1,
        ),
    decreases x.len(),
{
    let e = seq![Tok::Bin(Seq::<u8>::empty())];
    if x.len() == 1 {
        lemma_run_one(DecState::WantBinZero, x[0]);
        lemma_run_one(DecState::WantMarker, x[0]);
        assert(x =~= seq![x[0]]);
    } else {
        lemma_run_zero(x.drop_last());
        let p = run(DecState::WantMarker, x.drop_last());
        let l = step(p.0, x.last());
        assert(e + p.1 + l.1 =~= e + (p.1 + l.1));
    }
}

/// Feeding `a` and then `b` to one decoder leaves it in the same state, and
/// yields the same tokens (payloads split into one-byte pieces), as feeding
/// `a + b` in one parse.
pub proof fn law_two_chunks(s: DecState, a: Seq<u8>, b: Seq<u8>)
    ensures
        drain(s, a + b) == (drain(drain(s, a).0, b).0, drain(s, a).1 + drain(drain(s, a).0, b).1),
{
    lemma_run_concat(s, a, b);
    let ra = run(s, a);
    if ra.0 == DecState::WantBinZero {
        if b.len() == 0 {
            assert(a + b =~= a);
            assert(run(DecState::WantMarker, b) == (DecState::WantMarker, Seq::<Tok>::empty()));
            assert(run(DecState::WantBinZero, b) == (DecState::WantBinZero, Seq::<Tok>::empty()));
            assert(ra.1.push(Tok::Bin(Seq::<u8>::empty())) + Seq::<Tok>::empty() =~= ra.1.push(
                Tok::Bin(Seq::<u8>::empty()),
            ));
            assert(ra.1 + Seq::<Tok>::empty() =~= ra.1);
        } else {
            lemma_run_zero(b);
            let rb = run(DecState::WantMarker, b);
            assert(ra.1 + (seq![Tok::Bin(Seq::<u8>::empty())] + rb.1) =~= ra.1.push(
                Tok::Bin(Seq::<u8>::empty()),
            ) + rb.1);
            if rb.0 == DecState::WantBinZero {
                assert(ra.1 + (seq![Tok::Bin(Seq::<u8>::empty())] + rb.1).push(
                    Tok::Bin(Seq::<u8>::empty()),
                ) =~= ra.1.push(Tok::Bin(Seq::<u8>::empty())) + rb.1.push(
                    Tok::Bin(Seq::<u8>::empty()),
                ));
            }
        }
    } else {
        let rb = run(ra.0, b);
        if rb.0 == DecState::WantBinZero {
            assert((ra.1 + rb.1).push(Tok::Bin(Seq::<u8>::empty())) =~= ra.1 + rb.1.push(
                Tok::Bin(Seq::<u8>::empty()),
            ));
        }
    }
}

/// Feeding any partition of a byte sequence, chunk after chunk, to one
/// decoder yields what feeding the whole sequence at once yields.
pub proof fn law_chunk_invariance(s: DecState, cs: Seq<Seq<u8>>)
    requires
        cs.len() >= 1,
    ensures
        drain_chunks(s, cs) == drain(s, cs.flatten()),
    decreases cs.len(),
{
    let init = cs.drop_last();
    cs.drop_last().lemma_flatten_push(cs.last());
    assert(init.push(cs.last()) =~= cs);
    if cs.len() == 1 {
        assert(drain_chunks(s, init) == (s, Seq::<Tok>::empty()));
        assert(init.flatten() =~= Seq::<u8>::empty());
        assert(Seq::<u8>::empty() + cs.last() =~= cs.last());
        assert(Seq::<Tok>::empty() + drain(s, cs.last()).1 =~= drain(s, cs.last()).1);
    } else {
        law_chunk_invariance(s, init);
        law_two_chunks(s, init.flatten(), cs.last());
    }
}

/// A payload of `n` bytes is read as exactly `n` one-byte pieces, each
/// carrying how many bytes remain after it, the last of them a `Bin`; then a
/// marker is due again. So the pieces that follow a length announcement add
/// up to the announced length.
pub proof fn law_payload_length(n: u32, bs: Seq<u8>)
    requires
        1 <= bs.len() == n,
    ensures
        run(DecState::WantBin(n), bs) == (DecState::WantMarker, payload_toks(bs, n as nat)),
        payload_toks(bs, n as nat).last() == Tok::Bin(seq![bs.last()]),
        forall|i: int|
            0 <= i < n - 1 ==> #[trigger] payload_toks(bs, n as nat)[i] == Tok::BinCont(
                seq![bs[i]],
                (n - 1 - i) as u32,
            ),
{
    lemma_run_bin(n, bs);
}

/// What one call of `TokenIter::next` did: from state `s` with input `d`
/// at `c`, it left state `s2` with the cursor at `c2` and returned `r`.
pub open spec fn next_done(
    s: DecState,
    d: Seq<u8>,
    c: int,
    r: Option<Tok>,
    s2: DecState,
    c2: int,
) -> bool {
    match r {
        None => {
            &&& c2 == d.len()
            &&& s != DecState::WantBinZero
            &&& s2 != DecState::WantBinZero
            &&& run(s, d.subrange(c, d.len() as int)) == (s2, Seq::<Tok>::empty())
        },
        Some(t) => {
            ||| {
                &&& s == DecState::WantBinZero
                &&& t == Tok::Bin(Seq::<u8>::empty())
                &&& s2 == DecState::WantMarker
                &&& c2 == c
            }
            ||| {
                &&& c < c2 <= d.len()
                &&& run(s, d.subrange(c, c2)) == (s2, explode(t))
                &&& forall|k: int|
                    c < k < c2 ==> (#[trigger] run(s, d.subrange(c, k))).1.len() < explode(
                        t,
                    ).len()
            }
        },
    }
}

/// The MessagePack decoder: the state of a resumable parse.
pub struct Decoder {
    state: DecState,
}

impl View for Decoder {
    type V = DecState;

    closed spec fn view(&self) -> DecState {
        self.state
    }
}

impl Decoder {
    #[verifier::type_invariant]
    spec fn inv(&self) -> bool {
        state_ok(self.state)
    }

    /// A decoder waiting for its first marker.
    pub fn new() -> (r: Decoder)
        ensures
            r@ == DecState::WantMarker,
    {
        Decoder { state: DecState::WantMarker }
    }

    /// The minimum number of bytes the next parse needs to make progress.
    /// Fewer or more work too.
    pub fn next_bytes_min(&self) -> (r: u32)
        ensures
            r == bytes_min(self@),
    {
        proof {
            use_type_invariant(self);
        }
        match self.state {
            DecState::WantMarker => 1,
            DecState::WantBinZero => 0,
            DecState::WantBin(l) => l,
            DecState::Pend8(_) => 1,
            DecState::Pend16(_, p) => 2 - p.len as u32,
            DecState::Pend32(_, p) => 4 - p.len as u32,
            DecState::Pend64(_, p) => 8 - p.len as u32,
        }
    }

    /// Parse a chunk of input into tokens, resuming where the previous chunk
    /// left off.
    pub fn parse<'dec, 'buf>(&'dec mut self, data: &'buf [u8]) -> (r: TokenIter<'dec, 'buf>)
        ensures
            *r.dec == *old(self),
            *final(self) == *final(r.dec),
            r.data@ == data@,
            r.cursor == 0,
    {
        TokenIter { dec: self, data, cursor: 0 }
    }

    fn set_state(&mut self, s: DecState)
        requires
            state_ok(s),
        ensures
            final(self)@ == s,
    {
        self.state = s;
    }

    fn set_want_bin_data(&mut self, len: u32)
        ensures
            final(self)@ == (if len == 0 {
                DecState::WantBinZero
            } else {
                DecState::WantBin(len)
            }),
    {
        if len == 0 {
            self.state = DecState::WantBinZero;
        } else {
            self.state = DecState::WantBin(len);
        }
    }
}

/// The tokens of one chunk of input, produced one call of `next` at a time.
pub struct TokenIter<'dec, 'buf> {
    /// The decoder being advanced.
    pub dec: &'dec mut Decoder,
    /// The chunk being read.
    pub data: &'buf [u8],
    /// How much of the chunk has been read.
    pub cursor: usize,
}

/// What one pass of the parsing loop did.
enum Progress<'buf> {
    /// Input ran out first.
    Wait,
    /// A token is complete.
    Emit(Token<'buf>),
    /// Header bytes were read and another pass is needed.
    Again,
}

fn i8_of_byte_exec(b: u8) -> (r: i8)
    ensures
        r == i8_of_byte(b),
{
    if b >= 128 {
        (b as i16 - 256) as i8
    } else {
        b as i8
    }
}

fn marker_pend_exec(m: u8) -> (r: DecState)
    requires
        0xc4 <= m <= 0xdf,
    ensures
        r == marker_pend(m),
        state_ok(r),
{
    let p = PartialStore { len: 0, acc: 0 };
    proof {
        lemma_pow256_small();
    }
    if m == C_BIN8 {
        DecState::Pend8(PendType::Len(LenType::Bin))
    } else if m == C_BIN16 {
        DecState::Pend16(PendType::Len(LenType::Bin), p)
    } else if m == C_BIN32 {
        DecState::Pend32(PendType::Len(LenType::Bin), p)
    } else if m == C_EXT8 {
        DecState::Pend8(PendType::ExtLen)
    } else if m == C_EXT16 {
        DecState::Pend16(PendType::ExtLen, p)
    } else if m == C_EXT32 {
        DecState::Pend32(PendType::ExtLen, p)
    } else if m == C_F32 {
        DecState::Pend32(PendType::F32, p)
    } else if m == C_F64 {
        DecState::Pend64(PendType::F64, p)
    } else if m == C_U8 {
        DecState::Pend8(PendType::U8)
    } else if m == C_U16 {
        DecState::Pend16(PendType::U16, p)
    } else if m == C_U32 {
        DecState::Pend32(PendType::U32, p)
    } else if m == C_U64 {
        DecState::Pend64(PendType::U64, p)
    } else if m == C_I8 {
        DecState::Pend8(PendType::I8)
    } else if m == C_I16 {
        DecState::Pend16(PendType::I16, p)
    } else if m == C_I32 {
        DecState::Pend32(PendType::I32, p)
    } else if m == C_I64 {
        DecState::Pend64(PendType::I64, p)
    } else if m == C_FIXEXT1 {
        DecState::Pend8(PendType::Ext(1))
    } else if m == C_FIXEXT2 {
        DecState::Pend8(PendType::Ext(2))
    } else if m == C_FIXEXT4 {
        DecState::Pend8(PendType::Ext(4))
    } else if m == C_FIXEXT8 {
        DecState::Pend8(PendType::Ext(8))
    } else if m == C_FIXEXT16 {
        DecState::Pend8(PendType::Ext(16))
    } else if m == C_STR8 {
        DecState::Pend8(PendType::Len(LenType::Str))
    } else if m == C_STR16 {
        DecState::Pend16(PendType::Len(LenType::Str), p)
    } else if m == C_STR32 {
        DecState::Pend32(PendType::Len(LenType::Str), p)
    } else if m == C_ARR16 {
        DecState::Pend16(PendType::Len(LenType::Arr), p)
    } else if m == C_ARR32 {
        DecState::Pend32(PendType::Len(LenType::Arr), p)
    } else if m == C_MAP16 {
        DecState::Pend16(PendType::Len(LenType::Mapping), p)
    } else {
        DecState::Pend32(PendType::Len(LenType::Mapping), p)
    }
}

impl PartialStore {
    /// An empty store.
    pub fn new() -> (r: PartialStore)
        ensures
            r == (PartialStore { len: 0, acc: 0 }),
    {
        PartialStore { len: 0, acc: 0 }
    }

    /// Appends the header bytes `bytes`.
    pub fn push(&mut self, bytes: &[u8])
        requires
            old(self).len + bytes@.len() <= 8,
            old(self).acc < pow256(old(self).len as nat),
        ensures
            *final(self) == push_all(*old(self), bytes@),
    {
        let mut i: usize = 0;
        while i < bytes.len()
            invariant
                i <= bytes@.len(),
                old(self).len + bytes@.len() <= 8,
                old(self).acc < pow256(old(self).len as nat),
                *self == push_all(*old(self), bytes@.subrange(0, i as int)),
            decreases bytes@.len() - i,
        {
            proof {
                lemma_push_all(*old(self), bytes@.subrange(0, i as int));
                lemma_push_store(*self, bytes@[i as int]);
                lemma_pow256_small();
                lemma_pow256_mono(self.len as nat, 7);
                assert(bytes@.subrange(0, i + 1).drop_last() =~= bytes@.subrange(0, i as int));
            }
            let b = bytes[i];
            self.acc = self.acc * 256 + b as u64;
            self.len = self.len + 1;
            i = i + 1;
        }
        assert(bytes@.subrange(0, i as int) =~= bytes@);
    }
}

impl<'dec, 'buf> TokenIter<'dec, 'buf> {
    /// The next byte, if any is left.
    fn get_byte(&mut self) -> (r: Option<u8>)
        requires
            old(self).cursor <= old(self).data@.len(),
        ensures
            final(self).data == old(self).data,
            final(self).dec == old(self).dec,
            match r {
                None => final(self).cursor == old(self).cursor && old(self).cursor
                    == old(self).data@.len(),
                Some(b) => old(self).cursor < old(self).data@.len() && final(self).cursor == old(
                    self,
                ).cursor + 1 && b == old(self).data@[old(self).cursor as int],
            },
    {
        if self.cursor >= self.data.len() {
            None
        } else {
            self.cursor = self.cursor + 1;
            Some(self.data[self.cursor - 1])
        }
    }

    /// Up to `len` bytes, fewer where the input ends first; none if it has
    /// ended already.
    fn get_bytes(&mut self, len: u32) -> (r: Option<&'buf [u8]>)
        requires
            old(self).cursor <= old(self).data@.len(),
            len > 0,
        ensures
            final(self).data == old(self).data,
            final(self).dec == old(self).dec,
            match r {
                None => final(self).cursor == old(self).cursor && old(self).cursor
                    == old(self).data@.len(),
                Some(b) => {
                    &&& 0 < b@.len()
                    &&& final(self).cursor <= old(self).data@.len()
                    &&& final(self).cursor == old(self).cursor + b@.len()
                    &&& b@.len() == if len < old(self).data@.len() - old(self).cursor {
                        len as int
                    } else {
                        old(self).data@.len() - old(self).cursor
                    }
                    &&& b@ == old(self).data@.subrange(
                        old(self).cursor as int,
                        final(self).cursor as int,
                    )
                },
            },
    {
        let data_len = self.data.len();
        if self.cursor >= data_len {
            None
        } else {
            let rem_len = data_len - self.cursor;
            let n: usize = if (len as usize) < rem_len {
                len as usize
            } else {
                rem_len
            };
            let out = &self.data[self.cursor..self.cursor + n];
            self.cursor = self.cursor + n;
            Some(out)
        }
    }
}


/// The model of an optional token.
pub open spec fn opt_tok(r: Option<Token>) -> Option<Tok> {
    match r {
        Some(t) => Some(t@),
        None => None,
    }
}

/// The tokens that a header completion yields.
spec fn opt_seq(r: Option<Token>) -> Seq<Tok> {
    match r {
        Some(t) => seq![t@],
        None => seq![],
    }
}

/// What one pass of the parsing loop did, from state `s` at `c` to state
/// `s2` at `c2`.
spec fn pass_ok(s: DecState, d: Seq<u8>, c: int, p: Progress, s2: DecState, c2: int) -> bool {
    &&& c <= c2 <= d.len()
    &&& state_ok(s2)
    &&& match p {
        Progress::Wait => {
            &&& c2 == d.len()
            &&& s2 != DecState::WantBinZero
            &&& run(s, d.subrange(c, c2)) == (s2, Seq::<Tok>::empty())
        },
        Progress::Emit(t) => {
            &&& c < c2
            &&& run(s, d.subrange(c, c2)) == (s2, explode(t@))
            &&& explode(t@).len() >= 1
            &&& forall|k: int|
                c < k < c2 ==> (#[trigger] run(s, d.subrange(c, k))).1.len() < explode(t@).len()
            &&& t matches Token::Len(k, n) ==> s2 == len_state(k, n)
            &&& t matches Token::BinCont(b, rem) ==> c2 == d.len() && s2 == DecState::WantBin(rem)
                && b@.len() > 0
        },
        Progress::Again => {
            &&& c < c2
            &&& s2 != DecState::WantBinZero
            &&& run(s, d.subrange(c, c2)) == (s2, Seq::<Tok>::empty())
            &&& forall|k: int| c < k <= c2 ==> (#[trigger] run(s, d.subrange(c, k))).1.len() == 0
        },
    }
}

pub(crate) proof fn lemma_run_one(s: DecState, b: u8)
    ensures
        run(s, seq![b]) == step(s, b),
{
    assert(seq![b].drop_last() =~= Seq::<u8>::empty());
    assert(run(s, Seq::<u8>::empty()) == (s, Seq::<Tok>::empty()));
    assert(Seq::<Tok>::empty() + step(s, b).1 =~= step(s, b).1);
}

impl<'dec, 'buf> TokenIter<'dec, 'buf> {
    /// Complete a header of kind `k` with value `v`: set the next state and
    /// yield the token it completes, if any.
    fn finish_header(&mut self, k: PendType, v: u64) -> (r: Option<Token<'buf>>)
        ensures
            final(self).data == old(self).data,
            final(self).cursor == old(self).cursor,
            *final(final(self).dec) == *final(old(self).dec),
            (final(self).dec@, opt_seq(r)) == finish(k, v),
            state_ok(final(self).dec@),
            r.is_none() ==> final(self).dec@ != DecState::WantBinZero,
            r.is_some() ==> explode(r.unwrap()@) == seq![r.unwrap()@],
            r matches Some(t) ==> !(t is BinCont) && !(t is Bin),
            r matches Some(Token::Len(k, n)) ==> final(self).dec@ == len_state(k, n),
    {
        proof {
            reveal(finish);
            lemma_pow256_small();
        }
        match k {
            PendType::Len(t) => {
                let n = (v % 0x1_0000_0000) as u32;
                Some(self.got_len(t, n))
            },
            PendType::ExtLen => {
                let n = (v % 0x1_0000_0000) as u32;
                self.dec.set_state(DecState::Pend8(PendType::Ext(n)));
                None
            },
            PendType::Ext(len) => {
                let t = i8_of_byte_exec((v % 256) as u8);
                Some(self.got_len(LenType::Ext(t), len))
            },
            PendType::U8 | PendType::U16 | PendType::U32 | PendType::U64 => {
                self.dec.set_state(DecState::WantMarker);
                Some(Token::Num(Num::Unsigned(v)))
            },
            PendType::I8 => {
                let b = v % 0x100;
                let i: i64 = if b >= 0x80 {
                    b as i64 - 0x100
                } else {
                    b as i64
                };
                self.dec.set_state(DecState::WantMarker);
                Some(Token::Num(Num::Signed(i)))
            },
            PendType::I16 => {
                let b = v % 0x10000;
                let i: i64 = if b >= 0x8000 {
                    b as i64 - 0x10000
                } else {
                    b as i64
                };
                self.dec.set_state(DecState::WantMarker);
                Some(Token::Num(Num::Signed(i)))
            },
            PendType::I32 => {
                let b = v % 0x1_0000_0000;
                let i: i64 = if b >= 0x8000_0000 {
                    b as i64 - 0x1_0000_0000
                } else {
                    b as i64
                };
                self.dec.set_state(DecState::WantMarker);
                Some(Token::Num(Num::Signed(i)))
            },
            PendType::I64 => {
                let i: i64 = if v >= 0x8000_0000_0000_0000 {
                    (v - 0x8000_0000_0000_0000) as i64 + i64::MIN
                } else {
                    v as i64
                };
                self.dec.set_state(DecState::WantMarker);
                Some(Token::Num(Num::Signed(i)))
            },
            PendType::F32 => {
                self.dec.set_state(DecState::WantMarker);
                Some(Token::Num(Num::F32((v % 0x1_0000_0000) as u32)))
            },
            PendType::F64 => {
                self.dec.set_state(DecState::WantMarker);
                Some(Token::Num(Num::F64(v)))
            },
        }
    }

    /// A length of kind `t` was read: announce it and expect its payload.
    fn got_len(&mut self, t: LenType, len: u32) -> (r: Token<'buf>)
        ensures
            final(self).data == old(self).data,
            final(self).cursor == old(self).cursor,
            *final(final(self).dec) == *final(old(self).dec),
            (final(self).dec@, seq![r@]) == got_len(t, len),
            r == Token::Len(t, len),
            state_ok(final(self).dec@),
            final(self).dec@ == len_state(t, len),
    {
        match t {
            LenType::Arr | LenType::Mapping => {
                self.dec.set_state(DecState::WantMarker);
            },
            _ => {
                self.dec.set_want_bin_data(len);
            },
        }
        Token::Len(t, len)
    }

    /// A pass in state `WantMarker`.
    fn parse_want_marker(&mut self) -> (r: Progress<'buf>)
        requires
            old(self).cursor <= old(self).data@.len(),
            old(self).dec@ == DecState::WantMarker,
        ensures
            final(self).data == old(self).data,
            *final(final(self).dec) == *final(old(self).dec),
            pass_ok(
                old(self).dec@,
                old(self).data@,
                old(self).cursor as int,
                r,
                final(self).dec@,
                final(self).cursor as int,
            ),
    {
        let ghost c = self.cursor as int;
        let m = match self.get_byte() {
            None => {
                assert(self.data@.subrange(c, c) =~= Seq::<u8>::empty());
                return Progress::Wait;
            },
            Some(m) => m,
        };
        proof {
            reveal(marker_step);
            assert(self.data@.subrange(c, c + 1) =~= seq![m]);
            lemma_run_one(DecState::WantMarker, m);
        }
        if m <= 0x7f {
            Progress::Emit(Token::Num(Num::Unsigned(m as u64)))
        } else if m <= 0x8f {
            Progress::Emit(Token::Len(LenType::Mapping, (m - 0x80) as u32))
        } else if m <= 0x9f {
            Progress::Emit(Token::Len(LenType::Arr, (m - 0x90) as u32))
        } else if m <= 0xbf {
            Progress::Emit(self.got_len(LenType::Str, (m - 0xa0) as u32))
        } else if m == C_NIL || m == C_RES {
            Progress::Emit(Token::Nil)
        } else if m == C_FALSE {
            Progress::Emit(Token::Bool(false))
        } else if m == C_TRUE {
            Progress::Emit(Token::Bool(true))
        } else if m >= 0xe0 {
            Progress::Emit(Token::Num(Num::Signed(m as i64 - 256)))
        } else {
            self.dec.set_state(marker_pend_exec(m));
            Progress::Again
        }
    }

    /// A pass in state `WantBin(n)`.
    fn parse_want_bin_data(&mut self, n: u32) -> (r: Progress<'buf>)
        requires
            old(self).cursor <= old(self).data@.len(),
            old(self).dec@ == DecState::WantBin(n),
            n > 0,
        ensures
            final(self).data == old(self).data,
            *final(final(self).dec) == *final(old(self).dec),
            match r {
                Progress::Emit(Token::BinCont(b, rem)) => b@.len() + rem == n && final(self).dec@
                    == DecState::WantBin(rem),
                Progress::Emit(Token::Bin(b)) => b@.len() == n && final(self).dec@
                    == DecState::WantMarker,
                Progress::Wait => final(self).dec@ == old(self).dec@,
                _ => false,
            },
            pass_ok(
                old(self).dec@,
                old(self).data@,
                old(self).cursor as int,
                r,
                final(self).dec@,
                final(self).cursor as int,
            ),
    {
        let ghost c = self.cursor as int;
        let bytes = match self.get_bytes(n) {
            None => {
                assert(self.data@.subrange(c, c) =~= Seq::<u8>::empty());
                return Progress::Wait;
            },
            Some(b) => b,
        };
        proof {
            lemma_run_bin(n, bytes@);
            let d = self.data@;
            let c2 = self.cursor as int;
            assert forall|k: int| c < k < c2 implies (#[trigger] run(
                DecState::WantBin(n),
                d.subrange(c, k),
            )).1.len() < bytes@.len() by {
                assert(d.subrange(c, k) =~= bytes@.subrange(0, k - c));
                lemma_run_bin(n, bytes@.subrange(0, k - c));
            }
        }
        if bytes.len() == n as usize {
            self.dec.set_state(DecState::WantMarker);
            assert(explode(Tok::Bin(bytes@)) =~= payload_toks(bytes@, n as nat));
            Progress::Emit(Token::Bin(bytes))
        } else {
            let rem = n - bytes.len() as u32;
            self.dec.set_want_bin_data(rem);
            assert(explode(Tok::BinCont(bytes@, rem)) =~= payload_toks(bytes@, n as nat));
            Progress::Emit(Token::BinCont(bytes, rem))
        }
    }

    /// A pass in state `Pend8(k)`.
    fn parse_pend_8(&mut self, k: PendType) -> (r: Progress<'buf>)
        requires
            old(self).cursor <= old(self).data@.len(),
            old(self).dec@ == DecState::Pend8(k),
        ensures
            final(self).data == old(self).data,
            *final(final(self).dec) == *final(old(self).dec),
            pass_ok(
                old(self).dec@,
                old(self).data@,
                old(self).cursor as int,
                r,
                final(self).dec@,
                final(self).cursor as int,
            ),
    {
        let ghost c = self.cursor as int;
        let b = match self.get_byte() {
            None => {
                assert(self.data@.subrange(c, c) =~= Seq::<u8>::empty());
                return Progress::Wait;
            },
            Some(b) => b,
        };
        proof {
            assert(self.data@.subrange(c, c + 1) =~= seq![b]);
            lemma_run_one(DecState::Pend8(k), b);
        }
        match self.finish_header(k, b as u64) {
            None => Progress::Again,
            Some(t) => Progress::Emit(t),
        }
    }

    /// A pass in state `Pend16`, `Pend32` or `Pend64`, for a header of `w`
    /// bytes of which `p` holds those read so far.
    fn parse_pend_wide(&mut self, w: u8, k: PendType, p: PartialStore) -> (r: Progress<'buf>)
        requires
            old(self).cursor <= old(self).data@.len(),
            w == 2 || w == 4 || w == 8,
            store_ok(p, w as nat),
            old(self).dec@ == pend_wide(w as nat, k, p),
        ensures
            final(self).data == old(self).data,
            *final(final(self).dec) == *final(old(self).dec),
            pass_ok(
                old(self).dec@,
                old(self).data@,
                old(self).cursor as int,
                r,
                final(self).dec@,
                final(self).cursor as int,
            ),
    {
        let ghost c = self.cursor as int;
        let bytes = match self.get_bytes((w - p.len) as u32) {
            None => {
                assert(self.data@.subrange(c, c) =~= Seq::<u8>::empty());
                return Progress::Wait;
            },
            Some(b) => b,
        };
        proof {
            lemma_run_wide(w as nat, k, p, bytes@);
            lemma_push_all(p, bytes@);
            let d = self.data@;
            let c2 = self.cursor as int;
            assert forall|j: int| c < j < c2 implies (#[trigger] run(
                pend_wide(w as nat, k, p),
                d.subrange(c, j),
            )).1.len() == 0 by {
                assert(d.subrange(c, j) =~= bytes@.subrange(0, j - c));
                lemma_run_wide(w as nat, k, p, bytes@.subrange(0, j - c));
            }
        }
        let mut q = p;
        q.push(bytes);
        if q.len == w {
            match self.finish_header(k, q.acc) {
                None => Progress::Again,
                Some(t) => Progress::Emit(t),
            }
        } else {
            if w == 2 {
                self.dec.set_state(DecState::Pend16(k, q));
            } else if w == 4 {
                self.dec.set_state(DecState::Pend32(k, q));
            } else {
                self.dec.set_state(DecState::Pend64(k, q));
            }
            Progress::Wait
        }
    }

    /// The next token whose bytes are all present, or `None` once the chunk
    /// is used up; a header cut off by the chunk's end is kept in the
    /// decoder, to be completed by the next chunk.
    pub fn next(&mut self) -> (r: Option<Token<'buf>>)
        requires
            old(self).cursor <= old(self).data@.len(),
        ensures
            final(self).data == old(self).data,
            final(self).cursor <= final(self).data@.len(),
            *final(final(self).dec) == *final(old(self).dec),
            next_done(
                old(self).dec@,
                old(self).data@,
                old(self).cursor as int,
                opt_tok(r),
                final(self).dec@,
                final(self).cursor as int,
            ),
            old(self).dec@ matches DecState::WantBin(n) ==> match r {
                Some(Token::BinCont(b, rem)) => b@.len() + rem == n && final(self).dec@
                    == DecState::WantBin(rem),
                Some(Token::Bin(b)) => b@.len() == n && final(self).dec@ == DecState::WantMarker,
                None => final(self).dec@ == old(self).dec@,
                _ => false,
            },
            r matches Some(Token::Len(k, n)) ==> final(self).dec@ == len_state(k, n),
            r matches Some(Token::BinCont(b, rem)) ==> final(self).cursor == final(self).data@.len()
                && final(self).dec@ == DecState::WantBin(rem) && b@.len() > 0,
    {
        proof {
            use_type_invariant(&*self.dec);
        }
        if let DecState::WantBin(n) = self.dec.state {
            let ghost c = self.cursor as int;
            let p = self.parse_want_bin_data(n);
            assert(self.data@.subrange(c, c) =~= Seq::<u8>::empty());
            match p {
                Progress::Emit(t) => {
                    return Some(t);
                },
                _ => {
                    return None;
                },
            }
        }
        if let DecState::WantBinZero = self.dec.state {
            self.dec.set_state(DecState::WantMarker);
            let empty = &self.data[0..0];
            assert(empty@ =~= Seq::<u8>::empty());
            return Some(Token::Bin(empty));
        }
        let ghost s0 = self.dec@;
        let ghost c0 = self.cursor as int;
        let ghost d = self.data@;
        assert(d.subrange(c0, c0) =~= Seq::<u8>::empty());
        loop
            invariant
                self.data == old(self).data,
                self.data@ == d,
                d == old(self).data@,
                c0 == old(self).cursor as int,
                s0 == old(self).dec@,
                c0 <= self.cursor <= d.len(),
                self.dec@ != DecState::WantBinZero,
                s0 != DecState::WantBinZero,
                !(s0 is WantBin),
                run(s0, d.subrange(c0, self.cursor as int)) == (self.dec@, Seq::<Tok>::empty()),
                forall|k: int|
                    c0 < k <= self.cursor ==> (#[trigger] run(s0, d.subrange(c0, k))).1.len() == 0,
                *final(self.dec) == *final(old(self).dec),
            decreases d.len() - self.cursor,
        {
            proof {
                use_type_invariant(&*self.dec);
            }
            let ghost s = self.dec@;
            let ghost c = self.cursor as int;
            let progress = match self.dec.state {
                DecState::WantMarker => self.parse_want_marker(),
                DecState::WantBin(n) => self.parse_want_bin_data(n),
                DecState::Pend8(k) => self.parse_pend_8(k),
                DecState::Pend16(k, p) => self.parse_pend_wide(2, k, p),
                DecState::Pend32(k, p) => self.parse_pend_wide(4, k, p),
                DecState::Pend64(k, p) => self.parse_pend_wide(8, k, p),
                // excluded by the loop invariant
                DecState::WantBinZero => Progress::Wait,
            };
            let ghost c2 = self.cursor as int;
            proof {
                assert(d.subrange(c0, c2) =~= d.subrange(c0, c) + d.subrange(c, c2));
                lemma_run_concat(s0, d.subrange(c0, c), d.subrange(c, c2));
                assert(Seq::<Tok>::empty() + run(s, d.subrange(c, c2)).1 =~= run(
                    s,
                    d.subrange(c, c2),
                ).1);
                assert forall|k: int| c < k <= c2 implies run(s0, d.subrange(c0, k)).1.len()
                    == run(s, d.subrange(c, k)).1.len() by {
                    assert(d.subrange(c0, k) =~= d.subrange(c0, c) + d.subrange(c, k));
                    lemma_run_concat(s0, d.subrange(c0, c), d.subrange(c, k));
                }
            }
            match progress {
                Progress::Wait => {
                    return None;
                },
                Progress::Emit(t) => {
                    return Some(t);
                },
                Progress::Again => {},
            }
        }
    }
}


/// The models of a run of tokens.
pub open spec fn tok_seq(ts: Seq<Token>) -> Seq<Tok> {
    ts.map_values(|t: Token| t@)
}

/// Only the last token may be an unfinished payload piece: every payload
/// that the input holds in full comes as one `Bin`.
pub open spec fn whole_payloads(ts: Seq<Tok>) -> bool {
    &&& forall|i: int| 0 <= i < ts.len() - 1 ==> !(#[trigger] ts[i] is BinCont)
    &&& forall|i: int| 0 <= i < ts.len() ==> (#[trigger] ts[i] matches Tok::BinCont(b, _) ==> b.len() > 0)
}

/// Drains one parse of `data`.
pub(crate) fn collect_tokens<'buf>(dec: &mut Decoder, data: &'buf [u8]) -> (r: Vec<Token<'buf>>)
    ensures
        (final(dec)@, exploded(tok_seq(r@))) == drain(old(dec)@, data@),
        whole_payloads(tok_seq(r@)),
{
    let ghost s0 = dec@;
    let ghost d = data@;
    let mut out: Vec<Token<'buf>> = Vec::new();
    let mut it = dec.parse(data);
    let ghost e = Tok::Bin(Seq::<u8>::empty());
    assert(d.subrange(0, 0) =~= Seq::<u8>::empty());
    assert(tok_seq(out@) =~= Seq::<Tok>::empty());
    loop
        invariant
            e == Tok::Bin(Seq::<u8>::empty()),
            s0 == old(dec)@,
            d == data@,
            it.data@ == d,
            it.cursor <= d.len(),
            after_borrow(*dec) == *final(it.dec),
            ({
                let rr = run(s0, d.subrange(0, it.cursor as int));
                ||| (it.dec@ == rr.0 && exploded(tok_seq(out@)) == rr.1)
                ||| (rr.0 == DecState::WantBinZero && it.dec@ == DecState::WantMarker && exploded(
                    tok_seq(out@),
                ) == rr.1.push(e))
            }),
            whole_payloads(tok_seq(out@)),
            out@.len() > 0 && out@.last() is BinCont ==> it.cursor == d.len() && it.dec@ is WantBin,
        decreases 2 * (d.len() - it.cursor) + if it.dec@ == DecState::WantBinZero {
            1int
        } else {
            0int
        },
    {
        let ghost c = it.cursor as int;
        let ghost st = it.dec@;
        let ghost before = tok_seq(out@);
        let ghost rr = run(s0, d.subrange(0, c));
        match it.next() {
            None => {
                let ghost c2 = it.cursor as int;
                proof {
                    assert(d.subrange(0, c2) =~= d);
                    assert(d.subrange(0, c) + d.subrange(c, c2) =~= d);
                    lemma_run_concat(s0, d.subrange(0, c), d.subrange(c, c2));
                    if st == rr.0 {
                        assert(rr.1 + Seq::<Tok>::empty() =~= rr.1);
                    } else if c < c2 {
                        lemma_run_zero(d.subrange(c, c2));
                        assert(rr.1 + (seq![e] + Seq::<Tok>::empty()) =~= rr.1.push(e));
                    } else {
                        assert(d.subrange(c, c2) =~= Seq::<u8>::empty());
                        assert(rr.1 + Seq::<Tok>::empty() =~= rr.1);
                    }
                }
                assert(drain(s0, d) == (it.dec@, exploded(tok_seq(out@))));
                return out;
            },
            Some(t) => {
                let ghost c2 = it.cursor as int;
                out.push(t);
                proof {
                    let now = tok_seq(out@);
                    assert(now =~= before.push(t@));
                    assert(now.drop_last() =~= before);
                    assert(exploded(now) == exploded(before) + explode(t@));
                    if c < c2 {
                        assert(d.subrange(0, c2) =~= d.subrange(0, c) + d.subrange(c, c2));
                        lemma_run_concat(s0, d.subrange(0, c), d.subrange(c, c2));
                        let r2 = run(s0, d.subrange(0, c2));
                        if st == rr.0 {
                            assert(exploded(now) == rr.1 + explode(t@));
                            assert(r2 == (it.dec@, rr.1 + explode(t@)));
                        } else {
                            lemma_run_zero(d.subrange(c, c2));
                            assert(rr.1 + (seq![e] + explode(t@)) =~= rr.1.push(e) + explode(
                                t@,
                            ));
                            assert(r2 == (it.dec@, exploded(now)));
                        }
                    } else {
                        assert(st == DecState::WantBinZero);
                        assert(explode(t@) =~= seq![e]);
                        assert(exploded(now) =~= rr.1.push(e));
                        assert(rr == run(s0, d.subrange(0, c2)));
                    }
                    assert forall|i: int| 0 <= i < now.len() - 1 implies !(#[trigger] now[i] is BinCont) by {
                        if i < before.len() - 1 {
                            assert(now[i] == before[i]);
                        } else {
                            assert(now[i] == before[i]);
                            assert(before[i] == out@[i]@);
                        }
                    }
                    assert forall|i: int| 0 <= i < now.len() implies (#[trigger] now[i] matches Tok::BinCont(b, _) ==> b.len() > 0) by {
                        if i < before.len() {
                            assert(now[i] == before[i]);
                        } else {
                            assert(now[i] == t@);
                        }
                    }
                }
            },
        }
    }
}

} // verus!
