//! Owned and borrowed MessagePack value trees: building them from decoder
//! tokens and encoding them back to bytes.

use vstd::prelude::*;
use vstd::utf8::{encode_utf8, valid_utf8};
use vstd::string::StringSliceAdditionalSpecFns;
use crate::num::{wire_num, Num};
use crate::error::{
    bin_expected_text, len_token_text, text_bin_expected, text_ext_len, text_len, Config, Error,
};
use crate::decode::{collect_tokens, tok_seq, whole_payloads, drain, exploded, DecState, Decoder, LenType, Tok, Token};
use crate::owned::{OTok, OwnedToken, otok_seq};
use crate::encode::{
    append, arr_header, bin_header, ext_header, map_header, num_encoding, str_header, Encoder,
};
use crate::markers::{C_FALSE, C_NIL, C_TRUE};

verus! {

/// The mathematical model of a value tree.
pub enum Val {
    Nil,
    Bool(bool),
    Num(Num),
    Bin(Seq<u8>),
    Str(Seq<u8>),
    Arr(Seq<Val>),
    Mapping(Seq<(Val, Val)>),
    Ext(i8, Seq<u8>),
}

/// An owned MessagePack string: bytes that are meant to be, but need not
/// be, utf8.
#[derive(Clone, Debug, PartialEq)]
pub struct Utf8Str(pub Vec<u8>);

/// A borrowed MessagePack string.
#[derive(Clone, Copy, Debug, PartialEq)]
pub struct Utf8StrRef<'lt>(pub &'lt [u8]);

/// An owned value tree.
#[derive(Debug, PartialEq)]
pub enum Value {
    Nil,
    Bool(bool),
    Num(Num),
    Bin(Vec<u8>),
    Str(Utf8Str),
    Arr(Vec<Value>),
    /// Key / value pairs, in order, duplicates kept.
    Mapping(Vec<(Value, Value)>),
    Ext(i8, Vec<u8>),
}

/// A value tree whose payloads borrow from one input buffer.
#[derive(Debug, PartialEq)]
pub enum ValueRef<'lt> {
    Nil,
    Bool(bool),
    Num(Num),
    Bin(&'lt [u8]),
    Str(Utf8StrRef<'lt>),
    Arr(Vec<ValueRef<'lt>>),
    /// Key / value pairs, in order, duplicates kept.
    Mapping(Vec<(ValueRef<'lt>, ValueRef<'lt>)>),
    Ext(i8, &'lt [u8]),
}

/// The model of an owned tree.
pub open spec fn val_of(v: Value) -> Val
    decreases v,
{
    match v {
        Value::Nil => Val::Nil,
        Value::Bool(b) => Val::Bool(b),
        Value::Num(n) => Val::Num(n),
        Value::Bin(b) => Val::Bin(b@),
        Value::Str(s) => Val::Str(s.0@),
        Value::Arr(a) => Val::Arr(
            Seq::new(
                a@.len(),
                |i: int|
                    if 0 <= i < a@.len() {
                        val_of(a@[i])
                    } else {
                        Val::Nil
                    },
            ),
        ),
        Value::Mapping(m) => Val::Mapping(
            Seq::new(
                m@.len(),
                |i: int|
                    if 0 <= i < m@.len() {
                        (val_of(m@[i].0), val_of(m@[i].1))
                    } else {
                        (Val::Nil, Val::Nil)
                    },
            ),
        ),
        Value::Ext(t, b) => Val::Ext(t, b@),
    }
}

impl View for Value {
    type V = Val;

    open spec fn view(&self) -> Val {
        val_of(*self)
    }
}

/// The model of a borrowed tree.
pub open spec fn val_of_ref<'lt>(v: ValueRef<'lt>) -> Val
    decreases v,
{
    match v {
        ValueRef::Nil => Val::Nil,
        ValueRef::Bool(b) => Val::Bool(b),
        ValueRef::Num(n) => Val::Num(n),
        ValueRef::Bin(b) => Val::Bin(b@),
        ValueRef::Str(s) => Val::Str(s.0@),
        ValueRef::Arr(a) => Val::Arr(
            Seq::new(
                a@.len(),
                |i: int|
                    if 0 <= i < a@.len() {
                        val_of_ref(a@[i])
                    } else {
                        Val::Nil
                    },
            ),
        ),
        ValueRef::Mapping(m) => Val::Mapping(
            Seq::new(
                m@.len(),
                |i: int|
                    if 0 <= i < m@.len() {
                        (val_of_ref(m@[i].0), val_of_ref(m@[i].1))
                    } else {
                        (Val::Nil, Val::Nil)
                    },
            ),
        ),
        ValueRef::Ext(t, b) => Val::Ext(t, b@),
    }
}

impl<'lt> View for ValueRef<'lt> {
    type V = Val;

    open spec fn view(&self) -> Val {
        val_of_ref(*self)
    }
}

/// Whether every length in the tree fits the format's 32-bit length fields.
pub open spec fn encodable(v: Val) -> bool
    decreases v,
{
    match v {
        Val::Bin(b) => b.len() <= u32::MAX,
        Val::Str(s) => s.len() <= u32::MAX,
        Val::Ext(_, b) => b.len() <= u32::MAX,
        Val::Arr(a) => a.len() <= u32::MAX && forall|i: int|
            0 <= i < a.len() ==> encodable(#[trigger] a[i]),
        Val::Mapping(m) => m.len() <= u32::MAX && forall|i: int|
            #![trigger m[i]]
            0 <= i < m.len() ==> encodable(m[i].0) && encodable(m[i].1),
        _ => true,
    }
}

/// The bytes of a value: each node's header, then its payload or its
/// children in order (a map's key before its value).
pub open spec fn encoding(v: Val) -> Seq<u8>
    decreases v, 1nat, 0nat,
{
    match v {
        Val::Nil => seq![C_NIL],
        Val::Bool(b) => seq![if b { C_TRUE } else { C_FALSE }],
        Val::Num(n) => num_encoding(wire_num(n)),
        Val::Bin(b) => bin_header(b.len()) + b,
        Val::Str(s) => str_header(s.len()) + s,
        Val::Ext(t, b) => ext_header(b.len(), t) + b,
        Val::Arr(a) => arr_header(a.len()) + children_encoding(v, a.len()),
        Val::Mapping(m) => map_header(m.len()) + children_encoding(v, m.len()),
    }
}

/// The encoding of the first `n` children of a container, one after the
/// other; a map's entry is its key then its value.
pub open spec fn children_encoding(v: Val, n: nat) -> Seq<u8>
    decreases v, 0nat, n,
{
    if n == 0 {
        seq![]
    } else {
        let prev = children_encoding(v, (n - 1) as nat);
        match v {
            Val::Arr(a) => if n <= a.len() {
                prev + encoding(a[n - 1])
            } else {
                prev
            },
            Val::Mapping(m) => if n <= m.len() {
                prev + encoding(m[n - 1].0) + encoding(m[n - 1].1)
            } else {
                prev
            },
            _ => prev,
        }
    }
}

/// The error for a length that the format cannot represent.
fn too_long() -> (r: Error) {
    Error::EOther("length exceeds u32::MAX".to_owned())
}

/// Appends the encoding of `v` to `out`.
#[verifier::loop_isolation(false)]
#[verifier::spinoff_prover]
#[verifier::rlimit(60)]
fn encode_into(enc: &mut Encoder, v: &ValueRef, out: &mut Vec<u8>) -> (r: Result<(), Error>)
    ensures
        r.is_ok() <==> encodable(v@),
        r.is_ok() ==> final(out)@ == old(out)@ + encoding(v@),
    decreases v,
{
    match v {
        ValueRef::Nil => {
            append(out, enc.enc_nil().as_slice());
            Ok(())
        },
        ValueRef::Bool(b) => {
            append(out, enc.enc_bool(*b).as_slice());
            Ok(())
        },
        ValueRef::Num(n) => {
            append(out, enc.enc_num(*n).as_slice());
            Ok(())
        },
        ValueRef::Bin(b) => {
            if b.len() > u32::MAX as usize {
                return Err(too_long());
            }
            append(out, enc.enc_bin_len(b.len() as u32).as_slice());
            append(out, b);
            assert(final(out)@ =~= old(out)@ + encoding(v@));
            Ok(())
        },
        ValueRef::Str(s) => {
            if s.0.len() > u32::MAX as usize {
                return Err(too_long());
            }
            append(out, enc.enc_str_len(s.0.len() as u32).as_slice());
            append(out, s.0);
            assert(final(out)@ =~= old(out)@ + encoding(v@));
            Ok(())
        },
        ValueRef::Ext(t, b) => {
            if b.len() > u32::MAX as usize {
                return Err(too_long());
            }
            append(out, enc.enc_ext_len(b.len() as u32, *t).as_slice());
            append(out, b);
            assert(final(out)@ =~= old(out)@ + encoding(v@));
            Ok(())
        },
        ValueRef::Arr(a) => {
            if a.len() > u32::MAX as usize {
                return Err(too_long());
            }
            append(out, enc.enc_arr_len(a.len() as u32).as_slice());
            let ghost start = out@;
            let ghost s = v@->Arr_0;
            let mut i: usize = 0;
            while i < a.len()
                invariant
                    i <= a@.len(),
                    s.len() == a@.len(),
                    out@ == start + children_encoding(v@, i as nat),
                    forall|j: int| 0 <= j < i ==> encodable(#[trigger] s[j]),
                decreases a@.len() - i,
            {
                proof {
                    assert(decreases_to!(*v => *a));
                    assert(decreases_to!(*a => a[i as int]));
                }
                let r = encode_into(enc, &a[i], out);
                assert(s[i as int] == a@[i as int]@);
                if r.is_err() {
                    assert(!encodable(v@));
                    return r;
                }
                i = i + 1;
                assert(out@ =~= start + children_encoding(v@, i as nat));
            }
            assert(encodable(v@));
            assert(final(out)@ =~= old(out)@ + encoding(v@));
            Ok(())
        },
        ValueRef::Mapping(m) => {
            if m.len() > u32::MAX as usize {
                return Err(too_long());
            }
            append(out, enc.enc_map_len(m.len() as u32).as_slice());
            let ghost start = out@;
            let ghost s = v@->Mapping_0;
            let mut i: usize = 0;
            while i < m.len()
                invariant
                    i <= m@.len(),
                    s.len() == m@.len(),
                    out@ == start + children_encoding(v@, i as nat),
                    forall|j: int| #![trigger s[j]] 0 <= j < i ==> encodable(s[j].0) && encodable(s[j].1),
                decreases m@.len() - i,
            {
                proof {
                    assert(decreases_to!(*v => *m));
                    assert(decreases_to!(*m => m[i as int]));
                    assert(decreases_to!(m[i as int] => m[i as int].0));
                    assert(decreases_to!(m[i as int] => m[i as int].1));
                }
                let (k, x) = &m[i];
                assert(s[i as int] == (m@[i as int].0@, m@[i as int].1@));
                let rk = encode_into(enc, k, out);
                if rk.is_err() {
                    assert(!encodable(s[i as int].0));
                    assert(!encodable(v@));
                    return rk;
                }
                let rx = encode_into(enc, x, out);
                if rx.is_err() {
                    assert(!encodable(s[i as int].1));
                    assert(!encodable(v@));
                    return rx;
                }
                i = i + 1;
                assert(out@ =~= start + children_encoding(v@, i as nat));
            }
            assert(encodable(v@));
            assert(final(out)@ =~= old(out)@ + encoding(v@));
            Ok(())
        },
    }
}

impl<'lt> ValueRef<'lt> {
    /// The MessagePack encoding of this value; an error exactly when some
    /// length in it exceeds `u32::MAX`.
    pub fn to_bytes(&self) -> (r: Result<Vec<u8>, Error>)
        ensures
            r.is_ok() <==> encodable(self@),
            r matches Ok(b) ==> b@ == encoding(self@),
    {
        let mut out: Vec<u8> = Vec::new();
        let mut enc = Encoder::new();
        match encode_into(&mut enc, self, &mut out) {
            Ok(()) => {
                assert(out@ =~= encoding(self@));
                Ok(out)
            },
            Err(e) => Err(e),
        }
    }
}


/// The outcome of building a tree from tokens: the value and the position
/// after its last token, or failure.
pub enum Built<T> {
    Done(T, int),
    /// Failure, with what was expected and what was found.
    Fail(Seq<char>, Seq<char>),
}

/// The tree whose tokens start at `pos`, with containers nested at most
/// `depth` deep. A bin, str or ext length must be followed by one `Bin`
/// token of exactly that length.
pub open spec fn tree_at(ts: Seq<Tok>, pos: int, depth: nat) -> Built<Val>
    decreases depth, 0nat, 0nat,
{
    if pos < 0 || pos >= ts.len() {
        Built::Fail("Marker"@, "UnexpectedEOF"@)
    } else {
        match ts[pos] {
            Tok::Nil => Built::Done(Val::Nil, pos + 1),
            Tok::Bool(b) => Built::Done(Val::Bool(b), pos + 1),
            Tok::Num(n) => Built::Done(Val::Num(n), pos + 1),
            Tok::Len(LenType::Arr, l) => if depth == 0 {
                Built::Fail("depth within max_depth"@, "Arr"@)
            } else {
                match elems_at(ts, pos + 1, l as nat, (depth - 1) as nat) {
                    Built::Done(vs, p) => Built::Done(Val::Arr(vs), p),
                    Built::Fail(e, g) => Built::Fail(e, g),
                }
            },
            Tok::Len(LenType::Mapping, l) => if depth == 0 {
                Built::Fail("depth within max_depth"@, "Map"@)
            } else {
                match pairs_at(ts, pos + 1, l as nat, (depth - 1) as nat) {
                    Built::Done(ps, p) => Built::Done(Val::Mapping(ps), p),
                    Built::Fail(e, g) => Built::Fail(e, g),
                }
            },
            Tok::Len(t, l) => if pos + 1 < ts.len() && ts[pos + 1] is Bin && ts[pos
                + 1]->Bin_0.len() == l {
                let d = ts[pos + 1]->Bin_0;
                Built::Done(
                    match t {
                        LenType::Str => Val::Str(d),
                        LenType::Ext(x) => Val::Ext(x, d),
                        _ => Val::Bin(d),
                    },
                    pos + 2,
                )
            } else {
                Built::Fail(bin_expected_text(l as int), len_token_text(t, l as int))
            },
            _ => Built::Fail("Marker"@, "unexpected token"@),
        }
    }
}

/// `n` trees one after the other from `pos`.
pub open spec fn elems_at(ts: Seq<Tok>, pos: int, n: nat, depth: nat) -> Built<Seq<Val>>
    decreases depth, 1nat, n,
{
    if n == 0 {
        Built::Done(seq![], pos)
    } else {
        match elems_at(ts, pos, (n - 1) as nat, depth) {
            Built::Done(vs, p) => match tree_at(ts, p, depth) {
                Built::Done(v, p2) => Built::Done(vs.push(v), p2),
                Built::Fail(e, g) => Built::Fail(e, g),
            },
            Built::Fail(e, g) => Built::Fail(e, g),
        }
    }
}

/// `n` key / value pairs of trees one after the other from `pos`.
pub open spec fn pairs_at(ts: Seq<Tok>, pos: int, n: nat, depth: nat) -> Built<Seq<(Val, Val)>>
    decreases depth, 1nat, n,
{
    if n == 0 {
        Built::Done(seq![], pos)
    } else {
        match pairs_at(ts, pos, (n - 1) as nat, depth) {
            Built::Done(ps, p) => match tree_at(ts, p, depth) {
                Built::Done(k, p2) => match tree_at(ts, p2, depth) {
                    Built::Done(v, p3) => Built::Done(ps.push((k, v)), p3),
                    Built::Fail(e, g) => Built::Fail(e, g),
                },
                Built::Fail(e, g) => Built::Fail(e, g),
            },
            Built::Fail(e, g) => Built::Fail(e, g),
        }
    }
}

proof fn lemma_elems_fail_stays(ts: Seq<Tok>, pos: int, n: nat, m: nat, depth: nat)
    requires
        n <= m,
        elems_at(ts, pos, n, depth) is Fail,
    ensures
        elems_at(ts, pos, m, depth) == elems_at(ts, pos, n, depth),
    decreases m,
{
    if n < m {
        lemma_elems_fail_stays(ts, pos, n, (m - 1) as nat, depth);
    }
}

proof fn lemma_pairs_fail_stays(ts: Seq<Tok>, pos: int, n: nat, m: nat, depth: nat)
    requires
        n <= m,
        pairs_at(ts, pos, n, depth) is Fail,
    ensures
        pairs_at(ts, pos, m, depth) == pairs_at(ts, pos, n, depth),
    decreases m,
{
    if n < m {
        lemma_pairs_fail_stays(ts, pos, n, (m - 1) as nat, depth);
    }
}

/// The error for tokens that do not form a value.
fn decode_error(pos: usize, len: usize) -> (r: Error)
    ensures
        r matches Error::EDecode { expected, got } && expected@ == "Marker"@ && got@ == (if pos
            >= len {
            "UnexpectedEOF"@
        } else {
            "unexpected token"@
        }),
{
    if pos >= len {
        Error::unexpected_eof()
    } else {
        Error::EDecode { expected: "Marker".to_owned(), got: "unexpected token".to_owned() }
    }
}

/// Builds the tree whose tokens start at `pos`.
#[verifier::loop_isolation(false)]
fn next_val<'buf>(toks: &Vec<Token<'buf>>, pos: usize, depth: usize) -> (r: Result<
    (ValueRef<'buf>, usize),
    Error,
>)
    ensures
        match tree_at(tok_seq(toks@), pos as int, depth as nat) {
            Built::Done(v, p) => r matches Ok((x, q)) && x@ == v && q == p,
            Built::Fail(e, g) => r matches Err(Error::EDecode { expected, got }) && expected@ == e
                && got@ == g,
        },
        r is Err ==> r->Err_0 is EDecode,
    decreases depth, 0nat, 0nat,
{
    let ghost ts = tok_seq(toks@);
    if pos >= toks.len() {
        return Err(decode_error(pos, toks.len()));
    }
    assert(ts[pos as int] == toks@[pos as int]@);
    match toks[pos] {
        Token::Nil => Ok((ValueRef::Nil, pos + 1)),
        Token::Bool(b) => Ok((ValueRef::Bool(b), pos + 1)),
        Token::Num(n) => Ok((ValueRef::Num(n), pos + 1)),
        Token::Len(LenType::Arr, l) => {
            if depth == 0 {
                return Err(Error::EDecode {
                    expected: "depth within max_depth".to_owned(),
                    got: "Arr".to_owned(),
                });
            }
            let cap: usize = if (l as usize) < toks.len() - pos {
                l as usize
            } else {
                toks.len() - pos
            };
            let mut out: Vec<ValueRef<'buf>> = Vec::with_capacity(cap);
            let mut p = pos + 1;
            let mut i: u32 = 0;
            while i < l
                invariant
                    i <= l,
                    elems_at(ts, pos + 1, i as nat, (depth - 1) as nat) matches Built::Done(
                        vs,
                        q,
                    ) && q == p && vs == out@.map_values(|x: ValueRef<'buf>| x@),
                decreases l - i,
            {
                match next_val(toks, p, depth - 1) {
                    Ok((x, q)) => {
                        out.push(x);
                        p = q;
                    },
                    Err(e) => {
                        proof {
                            lemma_elems_fail_stays(ts, pos + 1, (i + 1) as nat, l as nat, (depth - 1) as nat);
                        }
                        return Err(e);
                    },
                }
                i = i + 1;
                assert(out@.map_values(|x: ValueRef<'buf>| x@) =~= elems_at(ts, pos + 1, i as nat, (depth - 1) as nat)->Done_0);
            }
            let r = ValueRef::Arr(out);
            assert(r@->Arr_0 =~= out@.map_values(|x: ValueRef<'buf>| x@));
            Ok((r, p))
        },
        Token::Len(LenType::Mapping, l) => {
            if depth == 0 {
                return Err(Error::EDecode {
                    expected: "depth within max_depth".to_owned(),
                    got: "Map".to_owned(),
                });
            }
            let cap: usize = if (l as usize) < toks.len() - pos {
                l as usize
            } else {
                toks.len() - pos
            };
            let mut out: Vec<(ValueRef<'buf>, ValueRef<'buf>)> = Vec::with_capacity(cap);
            let mut p = pos + 1;
            let mut i: u32 = 0;
            while i < l
                invariant
                    i <= l,
                    pairs_at(ts, pos + 1, i as nat, (depth - 1) as nat) matches Built::Done(
                        ps,
                        q,
                    ) && q == p && ps == out@.map_values(
                        |x: (ValueRef<'buf>, ValueRef<'buf>)| (x.0@, x.1@),
                    ),
                decreases l - i,
            {
                let (k, q) = match next_val(toks, p, depth - 1) {
                    Ok(kq) => kq,
                    Err(e) => {
                        proof {
                            lemma_pairs_fail_stays(ts, pos + 1, (i + 1) as nat, l as nat, (depth - 1) as nat);
                        }
                        return Err(e);
                    },
                };
                let (x, q2) = match next_val(toks, q, depth - 1) {
                    Ok(xq) => xq,
                    Err(e) => {
                        proof {
                            lemma_pairs_fail_stays(ts, pos + 1, (i + 1) as nat, l as nat, (depth - 1) as nat);
                        }
                        return Err(e);
                    },
                };
                out.push((k, x));
                p = q2;
                i = i + 1;
                assert(out@.map_values(|x: (ValueRef<'buf>, ValueRef<'buf>)| (x.0@, x.1@))
                    =~= pairs_at(ts, pos + 1, i as nat, (depth - 1) as nat)->Done_0);
            }
            let r = ValueRef::Mapping(out);
            assert(r@->Mapping_0 =~= out@.map_values(
                |x: (ValueRef<'buf>, ValueRef<'buf>)| (x.0@, x.1@),
            ));
            Ok((r, p))
        },
        Token::Len(t, l) => {
            if pos + 1 < toks.len() {
                assert(ts[pos + 1] == toks@[pos + 1]@);
                if let Token::Bin(d) = toks[pos + 1] {
                    if d.len() == l as usize {
                        let v = match t {
                            LenType::Str => ValueRef::Str(Utf8StrRef(d)),
                            LenType::Ext(x) => ValueRef::Ext(x, d),
                            _ => ValueRef::Bin(d),
                        };
                        return Ok((v, pos + 2));
                    }
                }
            }
            let got = match t {
                LenType::Str => text_len("Str", l),
                LenType::Ext(x) => text_ext_len(x, l),
                _ => text_len("Bin", l),
            };
            Err(Error::EDecode { expected: text_bin_expected(l), got })
        },
        _ => Err(decode_error(pos, toks.len())),
    }
}


/// How deeply containers nest in `v`: 0 for a scalar.
pub open spec fn nesting(v: Val) -> nat
    decreases v, 1nat, 0nat,
{
    match v {
        Val::Arr(a) => 1 + deepest(v, a.len()),
        Val::Mapping(m) => 1 + deepest(v, m.len()),
        _ => 0,
    }
}

/// The greatest nesting among the first `n` children of a container.
pub open spec fn deepest(v: Val, n: nat) -> nat
    decreases v, 0nat, n,
{
    if n == 0 {
        0
    } else {
        let prev = deepest(v, (n - 1) as nat);
        let here = match v {
            Val::Arr(a) => if n <= a.len() {
                nesting(a[n - 1])
            } else {
                0
            },
            Val::Mapping(m) => if n <= m.len() {
                if nesting(m[n - 1].0) >= nesting(m[n - 1].1) {
                    nesting(m[n - 1].0)
                } else {
                    nesting(m[n - 1].1)
                }
            } else {
                0
            },
            _ => 0,
        };
        if prev >= here {
            prev
        } else {
            here
        }
    }
}

/// What reading `bs` as one value, with containers nested at most `depth`
/// deep, gives: the value, or where the bytes do not hold one, what was
/// expected and what was found. The
/// tokens are those of one parse of all of `bs`.
pub open spec fn decodes_to(bs: Seq<u8>, depth: nat, r: Result<Val, (Seq<char>, Seq<char>)>) -> bool {
    exists|ts: Seq<Tok>|
        {
            &&& exploded(ts) == drain(DecState::WantMarker, bs).1
            &&& whole_payloads(ts)
            &&& match tree_at(ts, 0, depth) {
                Built::Done(v, _) => r == Ok::<Val, (Seq<char>, Seq<char>)>(v),
                Built::Fail(e, g) => r == Err::<Val, (Seq<char>, Seq<char>)>((e, g)),
            }
        }
}

proof fn lemma_depth_tree(ts: Seq<Tok>, pos: int, depth: nat)
    ensures
        tree_at(ts, pos, depth) matches Built::Done(v, _) ==> nesting(v) <= depth,
    decreases depth, 0nat, 0nat,
{
    if 0 <= pos < ts.len() && depth > 0 {
        match ts[pos] {
            Tok::Len(LenType::Arr, l) => {
                lemma_depth_elems(ts, pos + 1, l as nat, (depth - 1) as nat);
                if let Built::Done(vs, p) = elems_at(ts, pos + 1, l as nat, (depth - 1) as nat) {
                    lemma_deepest_elems(Val::Arr(vs), vs.len(), (depth - 1) as nat);
                }
            },
            Tok::Len(LenType::Mapping, l) => {
                lemma_depth_pairs(ts, pos + 1, l as nat, (depth - 1) as nat);
                if let Built::Done(ps, p) = pairs_at(ts, pos + 1, l as nat, (depth - 1) as nat) {
                    lemma_deepest_pairs(Val::Mapping(ps), ps.len(), (depth - 1) as nat);
                }
            },
            _ => {},
        }
    }
}

proof fn lemma_depth_elems(ts: Seq<Tok>, pos: int, n: nat, depth: nat)
    ensures
        elems_at(ts, pos, n, depth) matches Built::Done(vs, _) ==> vs.len() == n && forall|i: int|
            0 <= i < vs.len() ==> nesting(#[trigger] vs[i]) <= depth,
    decreases depth, 1nat, n,
{
    if n > 0 {
        lemma_depth_elems(ts, pos, (n - 1) as nat, depth);
        if let Built::Done(vs, p) = elems_at(ts, pos, (n - 1) as nat, depth) {
            lemma_depth_tree(ts, p, depth);
        }
    }
}

proof fn lemma_depth_pairs(ts: Seq<Tok>, pos: int, n: nat, depth: nat)
    ensures
        pairs_at(ts, pos, n, depth) matches Built::Done(ps, _) ==> ps.len() == n && forall|i: int|
            0 <= i < ps.len() ==> nesting(#[trigger] ps[i].0) <= depth && nesting(ps[i].1)
                <= depth,
    decreases depth, 1nat, n,
{
    if n > 0 {
        lemma_depth_pairs(ts, pos, (n - 1) as nat, depth);
        if let Built::Done(ps, p) = pairs_at(ts, pos, (n - 1) as nat, depth) {
            lemma_depth_tree(ts, p, depth);
            if let Built::Done(k, p2) = tree_at(ts, p, depth) {
                lemma_depth_tree(ts, p2, depth);
                if let Built::Done(v, p3) = tree_at(ts, p2, depth) {
                    let qs = ps.push((k, v));
                    assert(pairs_at(ts, pos, n, depth) == Built::Done(qs, p3));
                    assert forall|i: int| 0 <= i < qs.len() implies nesting(#[trigger] qs[i].0)
                        <= depth && nesting(qs[i].1) <= depth by {
                        if i < ps.len() {
                            assert(qs[i] == ps[i]);
                        }
                    }
                }
            }
        }
    }
}

proof fn lemma_deepest_elems(v: Val, n: nat, d: nat)
    requires
        v is Arr,
        n <= v->Arr_0.len(),
        forall|i: int| 0 <= i < v->Arr_0.len() ==> nesting(#[trigger] v->Arr_0[i]) <= d,
    ensures
        deepest(v, n) <= d,
    decreases n,
{
    if n > 0 {
        lemma_deepest_elems(v, (n - 1) as nat, d);
    }
}

proof fn lemma_deepest_pairs(v: Val, n: nat, d: nat)
    requires
        v is Mapping,
        n <= v->Mapping_0.len(),
        forall|i: int|
            0 <= i < v->Mapping_0.len() ==> nesting(#[trigger] v->Mapping_0[i].0) <= d && nesting(
                v->Mapping_0[i].1,
            ) <= d,
    ensures
        deepest(v, n) <= d,
    decreases n,
{
    if n > 0 {
        lemma_deepest_pairs(v, (n - 1) as nat, d);
    }
}

/// A tree built under a depth bound never nests deeper than the bound; so a
/// deeper tree is refused.
pub proof fn law_depth_bound(bs: Seq<u8>, depth: nat, v: Val)
    requires
        decodes_to(bs, depth, Ok(v)),
    ensures
        nesting(v) <= depth,
{
    let ts = choose|ts: Seq<Tok>|
        {
            &&& exploded(ts) == drain(DecState::WantMarker, bs).1
            &&& whole_payloads(ts)
            &&& match tree_at(ts, 0, depth) {
                Built::Done(x, _) => Ok::<Val, (Seq<char>, Seq<char>)>(v) == Ok::<
                    Val,
                    (Seq<char>, Seq<char>),
                >(x),
                Built::Fail(e, g) => Ok::<Val, (Seq<char>, Seq<char>)>(v) == Err::<
                    Val,
                    (Seq<char>, Seq<char>),
                >((e, g)),
            }
        };
    lemma_depth_tree(ts, 0, depth);
}

/// The model of a decoding result: the value's model, or a decode error's
/// two texts.
pub open spec fn result_model(r: Result<ValueRef, Error>) -> Result<Val, (Seq<char>, Seq<char>)> {
    match r {
        Ok(x) => Ok(x@),
        Err(Error::EDecode { expected, got }) => Err((expected@, got@)),
        Err(_) => Err((Seq::empty(), Seq::empty())),
    }
}

impl<'lt> ValueRef<'lt> {
    /// Decode the first value of `buf`, its payloads borrowed from `buf`,
    /// with the default depth bound.
    pub fn from_ref(buf: &'lt [u8]) -> (r: Result<ValueRef<'lt>, Error>)
        ensures
            decodes_to(
                buf@,
                crate::error::DEFAULT_MAX_DEPTH as nat,
                result_model(r),
            ),
            r is Err ==> r->Err_0 is EDecode,
    {
        let config = Config { max_depth: crate::error::DEFAULT_MAX_DEPTH };
        Self::from_ref_config(buf, &config)
    }

    /// Decode the first value of `buf`, its payloads borrowed from `buf`;
    /// containers nested deeper than `config.max_depth` are an error.
    pub fn from_ref_config(buf: &'lt [u8], config: &Config) -> (r: Result<ValueRef<'lt>, Error>)
        ensures
            decodes_to(
                buf@,
                config.max_depth as nat,
                result_model(r),
            ),
            r is Err ==> r->Err_0 is EDecode,
    {
        let mut dec = Decoder::new();
        let toks = collect_tokens(&mut dec, buf);
        let r = match next_val(&toks, 0, config.max_depth) {
            Ok((v, _)) => Ok(v),
            Err(e) => Err(e),
        };
        let ghost ts = tok_seq(toks@);
        assert(exploded(ts) == drain(DecState::WantMarker, buf@).1);
        r
    }
}

/// The tree whose owned tokens start at `pos`, with containers nested at
/// most `depth` deep.
pub open spec fn otree_at(ts: Seq<OTok>, pos: int, depth: nat) -> Built<Val>
    decreases depth, 0nat, 0nat,
{
    if pos < 0 || pos >= ts.len() {
        Built::Fail("Marker"@, "UnexpectedEOF"@)
    } else {
        match ts[pos] {
            OTok::Nil => Built::Done(Val::Nil, pos + 1),
            OTok::Bool(b) => Built::Done(Val::Bool(b), pos + 1),
            OTok::Num(n) => Built::Done(Val::Num(n), pos + 1),
            OTok::Bin(b) => Built::Done(Val::Bin(b), pos + 1),
            OTok::Str(b) => Built::Done(Val::Str(b), pos + 1),
            OTok::Ext(t, b) => Built::Done(Val::Ext(t, b), pos + 1),
            OTok::Arr(l) => if depth == 0 {
                Built::Fail("depth within max_depth"@, "Arr"@)
            } else {
                match oelems_at(ts, pos + 1, l as nat, (depth - 1) as nat) {
                    Built::Done(vs, p) => Built::Done(Val::Arr(vs), p),
                    Built::Fail(e, g) => Built::Fail(e, g),
                }
            },
            OTok::Mapping(l) => if depth == 0 {
                Built::Fail("depth within max_depth"@, "Map"@)
            } else {
                match opairs_at(ts, pos + 1, l as nat, (depth - 1) as nat) {
                    Built::Done(ps, p) => Built::Done(Val::Mapping(ps), p),
                    Built::Fail(e, g) => Built::Fail(e, g),
                }
            },
        }
    }
}

/// `n` trees one after the other from `pos`.
pub open spec fn oelems_at(ts: Seq<OTok>, pos: int, n: nat, depth: nat) -> Built<Seq<Val>>
    decreases depth, 1nat, n,
{
    if n == 0 {
        Built::Done(seq![], pos)
    } else {
        match oelems_at(ts, pos, (n - 1) as nat, depth) {
            Built::Done(vs, p) => match otree_at(ts, p, depth) {
                Built::Done(v, p2) => Built::Done(vs.push(v), p2),
                Built::Fail(e, g) => Built::Fail(e, g),
            },
            Built::Fail(e, g) => Built::Fail(e, g),
        }
    }
}

/// `n` key / value pairs of trees one after the other from `pos`.
pub open spec fn opairs_at(ts: Seq<OTok>, pos: int, n: nat, depth: nat) -> Built<
    Seq<(Val, Val)>,
>
    decreases depth, 1nat, n,
{
    if n == 0 {
        Built::Done(seq![], pos)
    } else {
        match opairs_at(ts, pos, (n - 1) as nat, depth) {
            Built::Done(ps, p) => match otree_at(ts, p, depth) {
                Built::Done(k, p2) => match otree_at(ts, p2, depth) {
                    Built::Done(v, p3) => Built::Done(ps.push((k, v)), p3),
                    Built::Fail(e, g) => Built::Fail(e, g),
                },
                Built::Fail(e, g) => Built::Fail(e, g),
            },
            Built::Fail(e, g) => Built::Fail(e, g),
        }
    }
}

proof fn lemma_oelems_fail_stays(ts: Seq<OTok>, pos: int, n: nat, m: nat, depth: nat)
    requires
        n <= m,
        oelems_at(ts, pos, n, depth) is Fail,
    ensures
        oelems_at(ts, pos, m, depth) == oelems_at(ts, pos, n, depth),
    decreases m,
{
    if n < m {
        lemma_oelems_fail_stays(ts, pos, n, (m - 1) as nat, depth);
    }
}

proof fn lemma_opairs_fail_stays(ts: Seq<OTok>, pos: int, n: nat, m: nat, depth: nat)
    requires
        n <= m,
        opairs_at(ts, pos, n, depth) is Fail,
    ensures
        opairs_at(ts, pos, m, depth) == opairs_at(ts, pos, n, depth),
    decreases m,
{
    if n < m {
        lemma_opairs_fail_stays(ts, pos, n, (m - 1) as nat, depth);
    }
}

/// A copy of `b`.
fn copy_bytes(b: &Vec<u8>) -> (r: Vec<u8>)
    ensures
        r@ == b@,
{
    let mut r: Vec<u8> = Vec::new();
    append(&mut r, b.as_slice());
    assert(r@ =~= b@);
    r
}

/// Builds the owned tree whose tokens start at `pos`.
#[verifier::loop_isolation(false)]
fn next_owned(toks: &Vec<OwnedToken>, pos: usize, depth: usize) -> (r: Result<(Value, usize), Error>)
    ensures
        match otree_at(otok_seq(toks@), pos as int, depth as nat) {
            Built::Done(v, p) => r matches Ok((x, q)) && x@ == v && q == p,
            Built::Fail(e, g) => r matches Err(Error::EDecode { expected, got }) && expected@ == e
                && got@ == g,
        },
        r is Err ==> r->Err_0 is EDecode,
    decreases depth, 0nat, 0nat,
{
    let ghost ts = otok_seq(toks@);
    if pos >= toks.len() {
        return Err(decode_error(pos, toks.len()));
    }
    assert(ts[pos as int] == toks@[pos as int]@);
    match &toks[pos] {
        OwnedToken::Nil => Ok((Value::Nil, pos + 1)),
        OwnedToken::Bool(b) => Ok((Value::Bool(*b), pos + 1)),
        OwnedToken::Num(n) => Ok((Value::Num(*n), pos + 1)),
        OwnedToken::Bin(b) => Ok((Value::Bin(copy_bytes(b)), pos + 1)),
        OwnedToken::Str(b) => Ok((Value::Str(Utf8Str(copy_bytes(b))), pos + 1)),
        OwnedToken::Ext(t, b) => Ok((Value::Ext(*t, copy_bytes(b)), pos + 1)),
        OwnedToken::Arr(l) => {
            let l = *l;
            if depth == 0 {
                return Err(Error::EDecode {
                    expected: "depth within max_depth".to_owned(),
                    got: "Arr".to_owned(),
                });
            }
            let cap: usize = if (l as usize) < toks.len() - pos {
                l as usize
            } else {
                toks.len() - pos
            };
            let mut out: Vec<Value> = Vec::with_capacity(cap);
            let mut p = pos + 1;
            let mut i: u32 = 0;
            while i < l
                invariant
                    i <= l,
                    oelems_at(ts, pos + 1, i as nat, (depth - 1) as nat) matches Built::Done(
                        vs,
                        q,
                    ) && q == p && vs == out@.map_values(|x: Value| x@),
                decreases l - i,
            {
                match next_owned(toks, p, depth - 1) {
                    Ok((x, q)) => {
                        out.push(x);
                        p = q;
                    },
                    Err(e) => {
                        proof {
                            lemma_oelems_fail_stays(ts, pos + 1, (i + 1) as nat, l as nat, (depth - 1) as nat);
                        }
                        return Err(e);
                    },
                }
                i = i + 1;
                assert(out@.map_values(|x: Value| x@) =~= oelems_at(ts, pos + 1, i as nat, (depth - 1) as nat)->Done_0);
            }
            let r = Value::Arr(out);
            assert(r@->Arr_0 =~= out@.map_values(|x: Value| x@));
            Ok((r, p))
        },
        OwnedToken::Mapping(l) => {
            let l = *l;
            if depth == 0 {
                return Err(Error::EDecode {
                    expected: "depth within max_depth".to_owned(),
                    got: "Map".to_owned(),
                });
            }
            let cap: usize = if (l as usize) < toks.len() - pos {
                l as usize
            } else {
                toks.len() - pos
            };
            let mut out: Vec<(Value, Value)> = Vec::with_capacity(cap);
            let mut p = pos + 1;
            let mut i: u32 = 0;
            while i < l
                invariant
                    i <= l,
                    opairs_at(ts, pos + 1, i as nat, (depth - 1) as nat) matches Built::Done(
                        ps,
                        q,
                    ) && q == p && ps == out@.map_values(|x: (Value, Value)| (x.0@, x.1@)),
                decreases l - i,
            {
                let (k, q) = match next_owned(toks, p, depth - 1) {
                    Ok(kq) => kq,
                    Err(e) => {
                        proof {
                            lemma_opairs_fail_stays(ts, pos + 1, (i + 1) as nat, l as nat, (depth - 1) as nat);
                        }
                        return Err(e);
                    },
                };
                let (x, q2) = match next_owned(toks, q, depth - 1) {
                    Ok(xq) => xq,
                    Err(e) => {
                        proof {
                            lemma_opairs_fail_stays(ts, pos + 1, (i + 1) as nat, l as nat, (depth - 1) as nat);
                        }
                        return Err(e);
                    },
                };
                out.push((k, x));
                p = q2;
                i = i + 1;
                assert(out@.map_values(|x: (Value, Value)| (x.0@, x.1@))
                    =~= opairs_at(ts, pos + 1, i as nat, (depth - 1) as nat)->Done_0);
            }
            let r = Value::Mapping(out);
            assert(r@->Mapping_0 =~= out@.map_values(|x: (Value, Value)| (x.0@, x.1@)));
            Ok((r, p))
        },
    }
}

impl Value {
    /// Builds the first value of a run of owned tokens; containers nested
    /// deeper than `config.max_depth` are an error.
    pub fn from_owned_tokens(toks: &Vec<OwnedToken>, config: &Config) -> (r: Result<Value, Error>)
        ensures
            match otree_at(otok_seq(toks@), 0, config.max_depth as nat) {
                Built::Done(v, _) => r matches Ok(x) && x@ == v,
                Built::Fail(e, g) => r matches Err(Error::EDecode { expected, got }) && expected@ == e
                && got@ == g,
            },
            r is Err ==> r->Err_0 is EDecode,
    {
        match next_owned(toks, 0, config.max_depth) {
            Ok((v, _)) => Ok(v),
            Err(e) => Err(e),
        }
    }
}

/// Relies on `core::str::from_utf8`: it accepts exactly the valid utf8
/// sequences and returns a `str` over the same bytes.
#[verifier::external_body]
fn str_from_utf8(b: &[u8]) -> (r: Result<&str, Error>)
    ensures
        match r {
            Ok(s) => valid_utf8(b@) && s.spec_bytes() == b@,
            Err(e) => !valid_utf8(b@) && e is EInvalidUtf8,
        },
{
    match core::str::from_utf8(b) {
        Ok(s) => Ok(s),
        Err(_) => Err(Error::EInvalidUtf8),
    }
}

impl Utf8Str {
    /// A borrowed view of this string.
    pub fn as_ref(&self) -> (r: Utf8StrRef)
        ensures
            r.0@ == self.0@,
    {
        Utf8StrRef(self.0.as_slice())
    }

    /// This string as a `str`, where it is valid utf8.
    pub fn as_str(&self) -> (r: Result<&str, Error>)
        ensures
            match r {
                Ok(s) => valid_utf8(self.0@) && s.spec_bytes() == self.0@,
                Err(e) => !valid_utf8(self.0@) && e is EInvalidUtf8,
            },
    {
        str_from_utf8(self.0.as_slice())
    }

    /// This string as a `String`, where it is valid utf8.
    pub fn into_string(self) -> (r: Result<String, Error>)
        ensures
            r is Ok <==> valid_utf8(self.0@),
            r matches Ok(t) ==> encode_utf8(t@) == self.0@,
            r matches Err(e) ==> e is EInvalidUtf8,
    {
        match str_from_utf8(self.0.as_slice()) {
            Ok(s) => Ok(s.to_owned()),
            Err(e) => Err(e),
        }
    }

    /// The raw bytes.
    pub fn as_bytes(&self) -> (r: &[u8])
        ensures
            r@ == self.0@,
    {
        self.0.as_slice()
    }
}

impl<'lt> Utf8StrRef<'lt> {
    /// This string as a `str`, where it is valid utf8.
    pub fn as_str(&self) -> (r: Result<&'lt str, Error>)
        ensures
            match r {
                Ok(s) => valid_utf8(self.0@) && s.spec_bytes() == self.0@,
                Err(e) => !valid_utf8(self.0@) && e is EInvalidUtf8,
            },
    {
        str_from_utf8(self.0)
    }

    /// The raw bytes.
    pub fn as_bytes(&self) -> (r: &'lt [u8])
        ensures
            r@ == self.0@,
    {
        self.0
    }
}

/// The borrowed view of an owned tree.
#[verifier::loop_isolation(false)]
fn borrow_tree<'a>(v: &'a Value) -> (r: ValueRef<'a>)
    ensures
        r@ == v@,
    decreases v,
{
    match v {
        Value::Nil => ValueRef::Nil,
        Value::Bool(b) => ValueRef::Bool(*b),
        Value::Num(n) => ValueRef::Num(*n),
        Value::Bin(b) => ValueRef::Bin(b.as_slice()),
        Value::Str(s) => ValueRef::Str(Utf8StrRef(s.0.as_slice())),
        Value::Ext(t, b) => ValueRef::Ext(*t, b.as_slice()),
        Value::Arr(a) => {
            let mut out: Vec<ValueRef<'a>> = Vec::with_capacity(a.len());
            let mut i: usize = 0;
            while i < a.len()
                invariant
                    i <= a@.len(),
                    out@.len() == i,
                    forall|j: int| 0 <= j < i ==> #[trigger] out@[j]@ == a@[j]@,
                decreases a@.len() - i,
            {
                proof {
                    assert(decreases_to!(*v => *a));
                    assert(decreases_to!(*a => a[i as int]));
                }
                out.push(borrow_tree(&a[i]));
                i = i + 1;
            }
            let r = ValueRef::Arr(out);
            assert forall|j: int| 0 <= j < a@.len() implies r@->Arr_0[j] == v@->Arr_0[j] by {
                assert(out@[j]@ == a@[j]@);
            }
            assert(r@->Arr_0 =~= v@->Arr_0);
            r
        },
        Value::Mapping(m) => {
            let mut out: Vec<(ValueRef<'a>, ValueRef<'a>)> = Vec::with_capacity(m.len());
            let mut i: usize = 0;
            while i < m.len()
                invariant
                    i <= m@.len(),
                    out@.len() == i,
                    forall|j: int|
                        #![trigger out@[j]]
                        0 <= j < i ==> out@[j].0@ == m@[j].0@ && out@[j].1@ == m@[j].1@,
                decreases m@.len() - i,
            {
                proof {
                    assert(decreases_to!(*v => *m));
                    assert(decreases_to!(*m => m[i as int]));
                    assert(decreases_to!(m[i as int] => m[i as int].0));
                    assert(decreases_to!(m[i as int] => m[i as int].1));
                }
                let (k, x) = &m[i];
                let pair = (borrow_tree(k), borrow_tree(x));
                out.push(pair);
                i = i + 1;
            }
            let r = ValueRef::Mapping(out);
            assert forall|j: int| 0 <= j < m@.len() implies r@->Mapping_0[j] == v@->Mapping_0[j] by {
                assert(out@[j].0@ == m@[j].0@ && out@[j].1@ == m@[j].1@);
            }
            assert(r@->Mapping_0 =~= v@->Mapping_0);
            r
        },
    }
}

/// An owned copy of a borrowed tree.
#[verifier::loop_isolation(false)]
fn own_tree(v: &ValueRef) -> (r: Value)
    ensures
        r@ == v@,
    decreases v,
{
    match v {
        ValueRef::Nil => Value::Nil,
        ValueRef::Bool(b) => Value::Bool(*b),
        ValueRef::Num(n) => Value::Num(*n),
        ValueRef::Bin(b) => {
            let mut c: Vec<u8> = Vec::new();
            append(&mut c, b);
            assert(c@ =~= b@);
            Value::Bin(c)
        },
        ValueRef::Str(s) => {
            let mut c: Vec<u8> = Vec::new();
            append(&mut c, s.0);
            assert(c@ =~= s.0@);
            Value::Str(Utf8Str(c))
        },
        ValueRef::Ext(t, b) => {
            let mut c: Vec<u8> = Vec::new();
            append(&mut c, b);
            assert(c@ =~= b@);
            Value::Ext(*t, c)
        },
        ValueRef::Arr(a) => {
            let mut out: Vec<Value> = Vec::with_capacity(a.len());
            let mut i: usize = 0;
            while i < a.len()
                invariant
                    i <= a@.len(),
                    out@.len() == i,
                    forall|j: int| 0 <= j < i ==> #[trigger] out@[j]@ == a@[j]@,
                decreases a@.len() - i,
            {
                proof {
                    assert(decreases_to!(*v => *a));
                    assert(decreases_to!(*a => a[i as int]));
                }
                out.push(own_tree(&a[i]));
                i = i + 1;
            }
            let r = Value::Arr(out);
            assert forall|j: int| 0 <= j < a@.len() implies r@->Arr_0[j] == v@->Arr_0[j] by {
                assert(out@[j]@ == a@[j]@);
            }
            assert(r@->Arr_0 =~= v@->Arr_0);
            r
        },
        ValueRef::Mapping(m) => {
            let mut out: Vec<(Value, Value)> = Vec::with_capacity(m.len());
            let mut i: usize = 0;
            while i < m.len()
                invariant
                    i <= m@.len(),
                    out@.len() == i,
                    forall|j: int|
                        #![trigger out@[j]]
                        0 <= j < i ==> out@[j].0@ == m@[j].0@ && out@[j].1@ == m@[j].1@,
                decreases m@.len() - i,
            {
                proof {
                    assert(decreases_to!(*v => *m));
                    assert(decreases_to!(*m => m[i as int]));
                    assert(decreases_to!(m[i as int] => m[i as int].0));
                    assert(decreases_to!(m[i as int] => m[i as int].1));
                }
                let (k, x) = &m[i];
                let pair = (own_tree(k), own_tree(x));
                out.push(pair);
                i = i + 1;
            }
            let r = Value::Mapping(out);
            assert forall|j: int| 0 <= j < m@.len() implies r@->Mapping_0[j] == v@->Mapping_0[j] by {
                assert(out@[j].0@ == m@[j].0@ && out@[j].1@ == m@[j].1@);
            }
            assert(r@->Mapping_0 =~= v@->Mapping_0);
            r
        },
    }
}

impl Value {
    /// A borrowed view of this tree.
    pub fn as_ref(&self) -> (r: ValueRef)
        ensures
            r@ == self@,
    {
        borrow_tree(self)
    }

    /// The MessagePack encoding of this value; an error exactly when some
    /// length in it exceeds `u32::MAX`.
    pub fn to_bytes(&self) -> (r: Result<Vec<u8>, Error>)
        ensures
            r is Ok <==> encodable(self@),
            r matches Ok(b) ==> b@ == encoding(self@),
    {
        borrow_tree(self).to_bytes()
    }
}

impl<'lt> ValueRef<'lt> {
    /// An owned copy of this tree.
    pub fn to_owned(&self) -> (r: Value)
        ensures
            r@ == self@,
    {
        own_tree(self)
    }
}
} // verus!
