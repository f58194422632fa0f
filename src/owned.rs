//! The owned-token adapter: drives the decoder over chunks of input and
//! joins the pieces of each bin, str or ext payload into one owned buffer.

use vstd::prelude::*;
use crate::num::Num;
use crate::decode::{
    collect_tokens, drain, explode, exploded, DecState, Decoder, LenType, Tok, Token, tok_seq,
};
use crate::encode::append;

verus! {

/// A token whose payload, if any, is owned and whole.
#[derive(Debug, PartialEq)]
pub enum OwnedToken {
    Bin(Vec<u8>),
    Str(Vec<u8>),
    Ext(i8, Vec<u8>),
    Arr(u32),
    Mapping(u32),
    Nil,
    Bool(bool),
    Num(Num),
}

/// The model of an owned token.
pub enum OTok {
    Bin(Seq<u8>),
    Str(Seq<u8>),
    Ext(i8, Seq<u8>),
    Arr(u32),
    Mapping(u32),
    Nil,
    Bool(bool),
    Num(Num),
}

impl View for OwnedToken {
    type V = OTok;

    open spec fn view(&self) -> OTok {
        match self {
            OwnedToken::Bin(b) => OTok::Bin(b@),
            OwnedToken::Str(b) => OTok::Str(b@),
            OwnedToken::Ext(t, b) => OTok::Ext(*t, b@),
            OwnedToken::Arr(n) => OTok::Arr(*n),
            OwnedToken::Mapping(n) => OTok::Mapping(*n),
            OwnedToken::Nil => OTok::Nil,
            OwnedToken::Bool(b) => OTok::Bool(*b),
            OwnedToken::Num(n) => OTok::Num(*n),
        }
    }
}

/// The models of a run of owned tokens.
pub open spec fn otok_seq(ts: Seq<OwnedToken>) -> Seq<OTok> {
    ts.map_values(|t: OwnedToken| t@)
}

/// The adapter's memory between tokens: the kind of the payload being read
/// and the pieces of it read so far.
pub struct Joining {
    pub kind: LenType,
    pub pending: Seq<u8>,
}

/// The owned token for a whole payload of kind `k`.
pub open spec fn whole(k: LenType, b: Seq<u8>) -> OTok {
    match k {
        LenType::Str => OTok::Str(b),
        LenType::Ext(t) => OTok::Ext(t, b),
        _ => OTok::Bin(b),
    }
}

/// One token taken in: the memory after it and the owned tokens it completes.
pub open spec fn absorb(j: Joining, t: Tok) -> (Joining, Seq<OTok>) {
    match t {
        Tok::Len(LenType::Arr, n) => (j, seq![OTok::Arr(n)]),
        Tok::Len(LenType::Mapping, n) => (j, seq![OTok::Mapping(n)]),
        Tok::Len(k, _) => (Joining { kind: k, pending: j.pending }, seq![]),
        Tok::Nil => (j, seq![OTok::Nil]),
        Tok::Bool(b) => (j, seq![OTok::Bool(b)]),
        Tok::Num(n) => (j, seq![OTok::Num(n)]),
        Tok::BinCont(b, _) => (Joining { kind: j.kind, pending: j.pending + b }, seq![]),
        Tok::Bin(b) => (
            Joining { kind: j.kind, pending: seq![] },
            seq![whole(j.kind, j.pending + b)],
        ),
    }
}

/// Tokens taken in one after the other.
pub open spec fn absorb_all(j: Joining, ts: Seq<Tok>) -> (Joining, Seq<OTok>)
    decreases ts.len(),
{
    if ts.len() == 0 {
        (j, seq![])
    } else {
        let prev = absorb_all(j, ts.drop_last());
        let last = absorb(prev.0, ts.last());
        (last.0, prev.1 + last.1)
    }
}

/// The memory of an adapter that has read nothing.
pub open spec fn fresh() -> Joining {
    Joining { kind: LenType::Bin, pending: seq![] }
}

pub proof fn lemma_absorb_concat(j: Joining, x: Seq<Tok>, y: Seq<Tok>)
    ensures
        absorb_all(j, x + y) == (
            absorb_all(absorb_all(j, x).0, y).0,
            absorb_all(j, x).1 + absorb_all(absorb_all(j, x).0, y).1,
        ),
    decreases y.len(),
{
    if y.len() == 0 {
        assert(x + y =~= x);
        assert(absorb_all(j, x).1 + Seq::<OTok>::empty() =~= absorb_all(j, x).1);
    } else {
        assert((x + y).drop_last() =~= x + y.drop_last());
        lemma_absorb_concat(j, x, y.drop_last());
        let m = absorb_all(j, x);
        let a = m.1;
        let b = absorb_all(m.0, y.drop_last()).1;
        let c = absorb(absorb_all(m.0, y.drop_last()).0, y.last()).1;
        assert(a + b + c =~= a + (b + c));
    }
}

proof fn lemma_absorb_pieces(j: Joining, b: Seq<u8>, r: u32, n: nat)
    requires
        n <= b.len(),
    ensures
        absorb_all(j, explode(Tok::BinCont(b, r)).subrange(0, n as int)) == (
            Joining { kind: j.kind, pending: j.pending + b.subrange(0, n as int) },
            Seq::<OTok>::empty(),
        ),
    decreases n,
{
    let xs = explode(Tok::BinCont(b, r));
    if n == 0 {
        assert(xs.subrange(0, 0) =~= Seq::<Tok>::empty());
        assert(j.pending + b.subrange(0, 0) =~= j.pending);
    } else {
        lemma_absorb_pieces(j, b, r, (n - 1) as nat);
        assert(xs.subrange(0, n as int).drop_last() =~= xs.subrange(0, n - 1));
        assert(j.pending + b.subrange(0, n - 1) + seq![b[n - 1]] =~= j.pending + b.subrange(
            0,
            n as int,
        ));
    }
}

/// A token taken in whole, or in its one-byte pieces, has the same effect.
pub proof fn lemma_absorb_explode(j: Joining, t: Tok)
    ensures
        absorb_all(j, explode(t)) == absorb(j, t),
{
    match t {
        Tok::BinCont(b, r) => {
            lemma_absorb_pieces(j, b, r, b.len());
            assert(explode(t).subrange(0, b.len() as int) =~= explode(t));
            assert(b.subrange(0, b.len() as int) =~= b);
            assert(absorb_all(j, explode(t)) == absorb(j, t));
        },
        Tok::Bin(b) => {
            if b.len() == 0 {
                assert(explode(t).drop_last() =~= Seq::<Tok>::empty());
                assert(absorb_all(j, Seq::<Tok>::empty()) == (j, Seq::<OTok>::empty()));
                assert(Seq::<OTok>::empty() + absorb(j, t).1 =~= absorb(j, t).1);
            } else {
                let xs = explode(t);
                let r = (b.len() - 1) as u32;
                let front = b.subrange(0, b.len() - 1);
                let ys = explode(Tok::BinCont(front, 1));
                lemma_absorb_pieces(j, front, 1, front.len());
                assert(xs.drop_last() =~= ys.subrange(0, front.len() as int));
                assert(front.subrange(0, front.len() as int) =~= front);
                assert(xs.last() == Tok::Bin(seq![b[b.len() - 1]]));
                assert(j.pending + front + seq![b[b.len() - 1]] =~= j.pending + b);
                let mid = Joining { kind: j.kind, pending: j.pending + front };
                assert(absorb_all(j, xs.drop_last()) == (mid, Seq::<OTok>::empty()));
                assert(Seq::<OTok>::empty() + absorb(mid, xs.last()).1 =~= absorb(j, t).1);
                assert(absorb(mid, xs.last()).0 == absorb(j, t).0);
            }
        },
        _ => {
            assert(explode(t).drop_last() =~= Seq::<Tok>::empty());
            assert(absorb_all(j, Seq::<Tok>::empty()) == (j, Seq::<OTok>::empty()));
            assert(Seq::<OTok>::empty() + absorb(j, t).1 =~= absorb(j, t).1);
        },
    }
}


/// A decoder that yields owned tokens, fed one chunk of input at a time.
pub struct OwnedDecoder {
    dec: Decoder,
    kind: LenType,
    buf: Vec<u8>,
}

impl OwnedDecoder {
    /// The decoder's state.
    pub closed spec fn state(&self) -> DecState {
        self.dec@
    }

    /// The payload kind and pieces it holds.
    pub closed spec fn joining(&self) -> Joining {
        Joining { kind: self.kind, pending: self.buf@ }
    }

    /// An adapter that has read nothing.
    pub fn new() -> (r: OwnedDecoder)
        ensures
            r.state() == DecState::WantMarker,
            r.joining() == fresh(),
    {
        let r = OwnedDecoder { dec: Decoder::new(), kind: LenType::Bin, buf: Vec::new() };
        assert(r.joining().pending =~= Seq::<u8>::empty());
        r
    }

    /// The minimum number of bytes the next chunk needs for progress.
    pub fn next_bytes_min(&self) -> (r: u32)
        ensures
            r == crate::decode::bytes_min(self.state()),
    {
        self.dec.next_bytes_min()
    }

    /// Reads a chunk and appends to `out` the owned tokens it completes.
    pub fn feed(&mut self, chunk: &[u8], out: &mut Vec<OwnedToken>)
        ensures
            final(self).state() == drain(old(self).state(), chunk@).0,
            final(self).joining() == absorb_all(
                old(self).joining(),
                drain(old(self).state(), chunk@).1,
            ).0,
            otok_seq(final(out)@) == otok_seq(old(out)@) + absorb_all(
                old(self).joining(),
                drain(old(self).state(), chunk@).1,
            ).1,
    {
        let ghost j0 = self.joining();
        let ghost o0 = otok_seq(out@);
        let toks = collect_tokens(&mut self.dec, chunk);
        let ghost ts = tok_seq(toks@);
        assert(ts.subrange(0, 0) =~= Seq::<Tok>::empty());
        assert(exploded(Seq::<Tok>::empty()) == Seq::<Tok>::empty());
        assert(o0 + Seq::<OTok>::empty() =~= o0);
        let mut i: usize = 0;
        while i < toks.len()
            invariant
                ts == tok_seq(toks@),
                self.state() == drain(old(self).state(), chunk@).0,
                exploded(ts) == drain(old(self).state(), chunk@).1,
                j0 == old(self).joining(),
                o0 == otok_seq(old(out)@),
                i <= toks@.len(),
                self.joining() == absorb_all(j0, exploded(ts.subrange(0, i as int))).0,
                otok_seq(out@) == o0 + absorb_all(j0, exploded(ts.subrange(0, i as int))).1,
            decreases toks@.len() - i,
        {
            let ghost before = self.joining();
            let ghost xs = exploded(ts.subrange(0, i as int));
            let t = toks[i];
            self.absorb_token(t, out);
            proof {
                assert(ts.subrange(0, i + 1).drop_last() =~= ts.subrange(0, i as int));
                assert(ts[i as int] == t@);
                lemma_absorb_concat(j0, xs, explode(t@));
                lemma_absorb_explode(before, t@);
                let a = absorb_all(j0, xs).1;
                let b = absorb(before, t@).1;
                assert(o0 + a + b =~= o0 + (a + b));
            }
            i = i + 1;
        }
        assert(ts.subrange(0, i as int) =~= ts);
    }

    /// Takes in one token.
    fn absorb_token(&mut self, t: Token, out: &mut Vec<OwnedToken>)
        ensures
            final(self).dec == old(self).dec,
            final(self).joining() == absorb(old(self).joining(), t@).0,
            otok_seq(final(out)@) == otok_seq(old(out)@) + absorb(old(self).joining(), t@).1,
    {
        let ghost o0 = otok_seq(out@);
        match t {
            Token::Len(LenType::Arr, n) => out.push(OwnedToken::Arr(n)),
            Token::Len(LenType::Mapping, n) => out.push(OwnedToken::Mapping(n)),
            Token::Len(k, _) => {
                self.kind = k;
            },
            Token::Nil => out.push(OwnedToken::Nil),
            Token::Bool(b) => out.push(OwnedToken::Bool(b)),
            Token::Num(n) => out.push(OwnedToken::Num(n)),
            Token::BinCont(b, _) => {
                append(&mut self.buf, b);
            },
            Token::Bin(b) => {
                let mut data: Vec<u8> = Vec::new();
                append(&mut data, self.buf.as_slice());
                append(&mut data, b);
                self.buf = Vec::new();
                let tok = match self.kind {
                    LenType::Str => OwnedToken::Str(data),
                    LenType::Ext(x) => OwnedToken::Ext(x, data),
                    _ => OwnedToken::Bin(data),
                };
                out.push(tok);
                assert(self.buf@ =~= Seq::<u8>::empty());
            },
        }
        assert(otok_seq(out@) =~= o0 + absorb(old(self).joining(), t@).1);
    }
}
} // verus!
