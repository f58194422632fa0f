//! The decoder reads back what the encoder writes.

use vstd::prelude::*;
use vstd::arithmetic::div_mod::lemma_mod_breakdown;
use crate::num::{num_of_int, wire_num, whole_value, Num};
use crate::encode::{
    be, bin_header, byte_of_i8, ext_header, int_encoding, lemma_be_len, marked, num_encoding,
    str_header, arr_header, map_header,
};
use crate::markers::{
    C_ARR16, C_ARR32, C_BIN16, C_BIN32, C_BIN8, C_EXT16, C_EXT32, C_EXT8, C_F32, C_F64, C_FIXEXT1,
    C_FIXEXT16, C_FIXEXT2, C_FIXEXT4, C_FIXEXT8, C_I16, C_I32, C_I64, C_I8, C_MAP16, C_MAP32, C_STR16,
    C_STR32, C_STR8, C_U16, C_U32, C_U64, C_U8,
};
use crate::value::{
    children_encoding, decodes_to, deepest, elems_at, encodable, encoding, nesting, pairs_at,
    tree_at, Built, Val,
};
use crate::decode::{whole_payloads, 
    drain, explode, exploded, finish, got_len, i8_of_byte, lemma_pow256_mono, lemma_pow256_small,
    lemma_push_all, lemma_push_store, lemma_run_bin, lemma_run_concat, lemma_run_one,
    lemma_run_wide, law_two_chunks, marker_pend, marker_step, pend_wide, pow256, push_all,
    run, signed_of, step, want_payload, DecState, LenType, PartialStore, PendType, Tok,
};

verus! {

proof fn lemma_push_be(p: PartialStore, v: nat, n: nat)
    requires
        p.len + n <= 8,
        p.acc < pow256(p.len as nat),
    ensures
        push_all(p, be(v, n)).acc == p.acc * pow256(n) + v % pow256(n),
    decreases n,
{
    lemma_be_len(v, n);
    if n == 0 {
        assert(be(v, 0) =~= Seq::<u8>::empty());
        assert(pow256(0) == 1);
    } else {
        let x = be(v / 256, (n - 1) as nat);
        let b = (v % 256) as u8;
        assert(be(v, n) == x.push(b));
        assert(x.push(b).drop_last() =~= x);
        lemma_push_be(p, v / 256, (n - 1) as nat);
        lemma_be_len(v / 256, (n - 1) as nat);
        lemma_push_all(p, x);
        let q = push_all(p, x);
        lemma_push_store(q, b);
        let m = pow256((n - 1) as nat);
        assert(pow256(n) == 256 * m);
        assert(m > 0) by {
            lemma_pow256_mono(0, (n - 1) as nat);
        }
        lemma_mod_breakdown(v as int, 256, m as int);
        assert(p.acc * m * 256 == p.acc * pow256(n)) by (nonlinear_arith)
            requires pow256(n) == 256 * m;
        assert(((v / 256) % m) * 256 + v % 256 == v % pow256(n)) by (nonlinear_arith)
            requires
                pow256(n) == 256 * m,
                v % (256 * m) == 256 * ((v / 256) % m) + v % 256,
        ;
        let a = p.acc * m;
        let bb = (v / 256) % m;
        let c = v % 256;
        assert((a + bb) * 256 + c == a * 256 + (bb * 256 + c)) by (nonlinear_arith);
        assert(q.acc == a + bb);
        assert(push_all(p, be(v, n)) == crate::decode::push_store(q, b));
    }
}

/// A marker of a multi-byte item followed by its `w` header bytes, holding
/// `v` big-endian, is read as the complete header.
proof fn lemma_run_marked(m: u8, v: nat, w: nat, k: PendType)
    requires
        0xc4 <= m <= 0xdf,
        v < pow256(w),
        (w == 1 && marker_pend(m) == DecState::Pend8(k)) || ((w == 2 || w == 4 || w == 8)
            && marker_pend(m) == pend_wide(w, k, PartialStore { len: 0, acc: 0 })),
    ensures
        run(DecState::WantMarker, marked(m, v, w)) == finish(k, v as u64),
{
    reveal(marker_step);
    lemma_pow256_small();
    lemma_be_len(v, w);
    let bs = be(v, w);
    assert(marked(m, v, w) =~= seq![m] + bs);
    lemma_run_concat(DecState::WantMarker, seq![m], bs);
    lemma_run_one(DecState::WantMarker, m);
    assert(Seq::<Tok>::empty() + run(marker_pend(m), bs).1 =~= run(marker_pend(m), bs).1);
    let p = PartialStore { len: 0, acc: 0 };
    lemma_push_be(p, v, w);
    assert(v % pow256(w) == v) by {
        vstd::arithmetic::div_mod::lemma_small_mod(v, pow256(w));
    }
    if w == 1 {
        assert(bs =~= seq![(v % 256) as u8]) by {
            assert(be(v / 256, 0) =~= Seq::<u8>::empty());
        }
        lemma_run_one(DecState::Pend8(k), (v % 256) as u8);
    } else {
        lemma_run_wide(w, k, p, bs);
        assert(p.acc * pow256(w) == 0);
    }
}


/// A number as the decoder yields it back: integers in the variant their
/// sign calls for, floats as they are.
pub open spec fn read_back(n: Num) -> Num {
    match n {
        Num::Signed(i) => num_of_int(i as int),
        Num::Unsigned(u) => num_of_int(u as int),
        _ => n,
    }
}

#[verifier::spinoff_prover]
#[verifier::rlimit(40)]
proof fn lemma_drain_int(i: int)
    requires
        -0x8000_0000_0000_0000 <= i < 0x1_0000_0000_0000_0000,
    ensures
        drain(DecState::WantMarker, int_encoding(i)) == (
            DecState::WantMarker,
            seq![Tok::Num(num_of_int(i))],
        ),
{
    reveal(marker_step);
    reveal(finish);
    lemma_pow256_small();
    let e = int_encoding(i);
    if 0 <= i < 0x80 || -32 <= i < 0 {
        lemma_run_one(DecState::WantMarker, e[0]);
        assert(e =~= seq![e[0]]);
    } else if 0 <= i < 0x100 {
        lemma_run_marked(C_U8, i as nat, 1, PendType::U8);
    } else if 0 <= i < 0x10000 {
        lemma_run_marked(C_U16, i as nat, 2, PendType::U16);
    } else if 0 <= i < 0x1_0000_0000 {
        lemma_run_marked(C_U32, i as nat, 4, PendType::U32);
    } else if 0 <= i {
        lemma_run_marked(C_U64, i as nat, 8, PendType::U64);
    } else if -0x80 <= i {
        lemma_run_marked(C_I8, (i + 0x100) as nat, 1, PendType::I8);
    } else if -0x8000 <= i {
        lemma_run_marked(C_I16, (i + 0x10000) as nat, 2, PendType::I16);
    } else if -0x8000_0000 <= i {
        lemma_run_marked(C_I32, (i + 0x1_0000_0000) as nat, 4, PendType::I32);
    } else {
        lemma_run_marked(C_I64, (i + 0x1_0000_0000_0000_0000) as nat, 8, PendType::I64);
    }
}

proof fn lemma_drain_num(n: Num)
    ensures
        drain(DecState::WantMarker, num_encoding(n)) == (
            DecState::WantMarker,
            seq![Tok::Num(read_back(n))],
        ),
{
    reveal(finish);
    lemma_pow256_small();
    match n {
        Num::F32(b) => {
            lemma_run_marked(C_F32, b as nat, 4, PendType::F32);
        },
        Num::F64(b) => {
            lemma_run_marked(C_F64, b as nat, 8, PendType::F64);
        },
        Num::Signed(i) => {
            lemma_drain_int(i as int);
        },
        Num::Unsigned(u) => {
            lemma_drain_int(u as int);
        },
    }
}


proof fn lemma_i8_byte(t: i8)
    ensures
        i8_of_byte(byte_of_i8(t)) == t,
{
}

/// How a length header of kind `k` is read.
proof fn lemma_run_len_header(k: LenType, n: nat)
    requires
        n <= u32::MAX,
        !(k is Ext),
    ensures
        run(
            DecState::WantMarker,
            match k {
                LenType::Bin => bin_header(n),
                LenType::Str => str_header(n),
                LenType::Arr => arr_header(n),
                _ => map_header(n),
            },
        ) == got_len(k, n as u32),
{
    reveal(marker_step);
    reveal(finish);
    lemma_pow256_small();
    let pk = PendType::Len(k);
    match k {
        LenType::Bin => {
            if n < 0x100 {
                lemma_run_marked(C_BIN8, n, 1, pk);
            } else if n < 0x10000 {
                lemma_run_marked(C_BIN16, n, 2, pk);
            } else {
                lemma_run_marked(C_BIN32, n, 4, pk);
            }
        },
        LenType::Str => {
            if n < 32 {
                lemma_run_one(DecState::WantMarker, str_header(n)[0]);
                assert(str_header(n) =~= seq![str_header(n)[0]]);
            } else if n < 0x100 {
                lemma_run_marked(C_STR8, n, 1, pk);
            } else if n < 0x10000 {
                lemma_run_marked(C_STR16, n, 2, pk);
            } else {
                lemma_run_marked(C_STR32, n, 4, pk);
            }
        },
        LenType::Arr => {
            if n < 16 {
                lemma_run_one(DecState::WantMarker, arr_header(n)[0]);
                assert(arr_header(n) =~= seq![arr_header(n)[0]]);
            } else if n < 0x10000 {
                lemma_run_marked(C_ARR16, n, 2, pk);
            } else {
                lemma_run_marked(C_ARR32, n, 4, pk);
            }
        },
        _ => {
            if n < 16 {
                lemma_run_one(DecState::WantMarker, map_header(n)[0]);
                assert(map_header(n) =~= seq![map_header(n)[0]]);
            } else if n < 0x10000 {
                lemma_run_marked(C_MAP16, n, 2, pk);
            } else {
                lemma_run_marked(C_MAP32, n, 4, pk);
            }
        },
    }
}

/// How an ext header is read.
proof fn lemma_run_ext_header(n: nat, t: i8)
    requires
        n <= u32::MAX,
    ensures
        run(DecState::WantMarker, ext_header(n, t)) == got_len(LenType::Ext(t), n as u32),
{
    reveal(marker_step);
    reveal(finish);
    lemma_pow256_small();
    let tb = byte_of_i8(t);
    lemma_i8_byte(t);
    let h = ext_header(n, t);
    if n == 1 || n == 2 || n == 4 || n == 8 || n == 16 {
        assert(h =~= seq![h[0]] + seq![tb]);
        lemma_run_concat(DecState::WantMarker, seq![h[0]], seq![tb]);
        lemma_run_one(DecState::WantMarker, h[0]);
        lemma_run_one(DecState::Pend8(PendType::Ext(n as u32)), tb);
        assert(Seq::<Tok>::empty() + step(DecState::Pend8(PendType::Ext(n as u32)), tb).1
            =~= step(DecState::Pend8(PendType::Ext(n as u32)), tb).1);
    } else {
        let (m, w) = if n < 0x100 {
            (C_EXT8, 1nat)
        } else if n < 0x10000 {
            (C_EXT16, 2nat)
        } else {
            (C_EXT32, 4nat)
        };
        lemma_run_marked(m, n, w, PendType::ExtLen);
        assert(h =~= marked(m, n, w) + seq![tb]);
        lemma_run_concat(DecState::WantMarker, marked(m, n, w), seq![tb]);
        lemma_run_one(DecState::Pend8(PendType::Ext(n as u32)), tb);
        assert(Seq::<Tok>::empty() + step(DecState::Pend8(PendType::Ext(n as u32)), tb).1
            =~= step(DecState::Pend8(PendType::Ext(n as u32)), tb).1);
    }
}

/// A payload header followed by its payload is read as the length and one
/// whole payload.
proof fn lemma_drain_payload(k: LenType, h: Seq<u8>, s: Seq<u8>)
    requires
        s.len() <= u32::MAX,
        !(k is Arr || k is Mapping),
        run(DecState::WantMarker, h) == got_len(k, s.len() as u32),
    ensures
        drain(DecState::WantMarker, h + s) == (
            DecState::WantMarker,
            seq![Tok::Len(k, s.len() as u32)] + explode(Tok::Bin(s)),
        ),
{
    law_two_chunks(DecState::WantMarker, h, s);
    let n = s.len() as u32;
    if n == 0 {
        assert(s =~= Seq::<u8>::empty());
        assert(run(DecState::WantMarker, Seq::<u8>::empty()) == (
            DecState::WantMarker,
            Seq::<Tok>::empty(),
        ));
        assert(seq![Tok::Len(k, n)].push(Tok::Bin(Seq::<u8>::empty())) + Seq::<Tok>::empty()
            =~= seq![Tok::Len(k, n)] + explode(Tok::Bin(s)));
    } else {
        lemma_run_bin(n, s);
        assert(explode(Tok::Bin(s)) =~= crate::decode::payload_toks(s, n as nat));
    }
}


/// Whether every number in the tree is held as the encoder writes it: no
/// non-negative integer held signed, no integral float, no double that a
/// single holds exactly.
pub open spec fn canonical(v: Val) -> bool
    decreases v,
{
    match v {
        Val::Num(n) => wire_num(n) == n,
        Val::Arr(a) => forall|i: int| 0 <= i < a.len() ==> canonical(#[trigger] a[i]),
        Val::Mapping(m) => forall|i: int|
            #![trigger m[i]]
            0 <= i < m.len() ==> canonical(m[i].0) && canonical(m[i].1),
        _ => true,
    }
}

/// The tokens of a value, each payload whole.
pub open spec fn tokens_of(v: Val) -> Seq<Tok>
    decreases v, 1nat, 0nat,
{
    match v {
        Val::Nil => seq![Tok::Nil],
        Val::Bool(b) => seq![Tok::Bool(b)],
        Val::Num(n) => seq![Tok::Num(n)],
        Val::Bin(b) => seq![Tok::Len(LenType::Bin, b.len() as u32), Tok::Bin(b)],
        Val::Str(b) => seq![Tok::Len(LenType::Str, b.len() as u32), Tok::Bin(b)],
        Val::Ext(t, b) => seq![Tok::Len(LenType::Ext(t), b.len() as u32), Tok::Bin(b)],
        Val::Arr(a) => seq![Tok::Len(LenType::Arr, a.len() as u32)] + children_tokens(v, a.len()),
        Val::Mapping(m) => seq![Tok::Len(LenType::Mapping, m.len() as u32)] + children_tokens(
            v,
            m.len(),
        ),
    }
}

/// The tokens of the first `k` children of a container.
pub open spec fn children_tokens(v: Val, k: nat) -> Seq<Tok>
    decreases v, 0nat, k,
{
    if k == 0 {
        seq![]
    } else {
        let prev = children_tokens(v, (k - 1) as nat);
        match v {
            Val::Arr(a) => if k <= a.len() {
                prev + tokens_of(a[k - 1])
            } else {
                prev
            },
            Val::Mapping(m) => if k <= m.len() {
                prev + tokens_of(m[k - 1].0) + tokens_of(m[k - 1].1)
            } else {
                prev
            },
            _ => prev,
        }
    }
}

proof fn lemma_exploded_concat(x: Seq<Tok>, y: Seq<Tok>)
    ensures
        exploded(x + y) == exploded(x) + exploded(y),
    decreases y.len(),
{
    if y.len() == 0 {
        assert(x + y =~= x);
        assert(exploded(y) == Seq::<Tok>::empty());
        assert(exploded(x) + Seq::<Tok>::empty() =~= exploded(x));
    } else {
        assert((x + y).drop_last() =~= x + y.drop_last());
        lemma_exploded_concat(x, y.drop_last());
        assert(exploded(x) + exploded(y.drop_last()) + explode(y.last()) =~= exploded(x) + (
        exploded(y.drop_last()) + explode(y.last())));
    }
}

proof fn lemma_exploded_scalar(t: Tok)
    requires
        !(t is Bin || t is BinCont),
    ensures
        exploded(seq![t]) == seq![t],
{
    assert(seq![t].drop_last() =~= Seq::<Tok>::empty());
    assert(exploded(Seq::<Tok>::empty()) == Seq::<Tok>::empty());
    assert(explode(t) == seq![t]);
    assert(Seq::<Tok>::empty() + seq![t] =~= seq![t]);
}

proof fn lemma_exploded_payload(k: LenType, l: u32, b: Seq<u8>)
    ensures
        exploded(seq![Tok::Len(k, l), Tok::Bin(b)]) == seq![Tok::Len(k, l)] + explode(Tok::Bin(b)),
{
    let x = seq![Tok::Len(k, l), Tok::Bin(b)];
    assert(x.drop_last() =~= seq![Tok::Len(k, l)]);
    lemma_exploded_scalar(Tok::Len(k, l));
}

proof fn lemma_drain_value(v: Val)
    requires
        encodable(v),
        canonical(v),
    ensures
        drain(DecState::WantMarker, encoding(v)) == (DecState::WantMarker, exploded(tokens_of(v))),
    decreases v, 1nat, 0nat,
{
    reveal(marker_step);
    let wm = DecState::WantMarker;
    match v {
        Val::Nil => {
            lemma_run_one(wm, 0xc0);
            lemma_exploded_scalar(Tok::Nil);
        },
        Val::Bool(b) => {
            lemma_run_one(wm, if b { 0xc3u8 } else { 0xc2u8 });
            lemma_exploded_scalar(Tok::Bool(b));
        },
        Val::Num(n) => {
            assert(whole_value(n) == whole_value(n));
            lemma_drain_num(n);
            lemma_exploded_scalar(Tok::Num(n));
        },
        Val::Bin(b) => {
            lemma_run_len_header(LenType::Bin, b.len());
            lemma_drain_payload(LenType::Bin, bin_header(b.len()), b);
            lemma_exploded_payload(LenType::Bin, b.len() as u32, b);
        },
        Val::Str(b) => {
            lemma_run_len_header(LenType::Str, b.len());
            lemma_drain_payload(LenType::Str, str_header(b.len()), b);
            lemma_exploded_payload(LenType::Str, b.len() as u32, b);
        },
        Val::Ext(t, b) => {
            lemma_run_ext_header(b.len(), t);
            lemma_drain_payload(LenType::Ext(t), ext_header(b.len(), t), b);
            lemma_exploded_payload(LenType::Ext(t), b.len() as u32, b);
        },
        Val::Arr(a) => {
            let h = arr_header(a.len());
            lemma_run_len_header(LenType::Arr, a.len());
            lemma_drain_children(v, a.len());
            law_two_chunks(wm, h, children_encoding(v, a.len()));
            lemma_exploded_scalar(Tok::Len(LenType::Arr, a.len() as u32));
            lemma_exploded_concat(
                seq![Tok::Len(LenType::Arr, a.len() as u32)],
                children_tokens(v, a.len()),
            );
        },
        Val::Mapping(m) => {
            let h = map_header(m.len());
            lemma_run_len_header(LenType::Mapping, m.len());
            lemma_drain_children(v, m.len());
            law_two_chunks(wm, h, children_encoding(v, m.len()));
            lemma_exploded_scalar(Tok::Len(LenType::Mapping, m.len() as u32));
            lemma_exploded_concat(
                seq![Tok::Len(LenType::Mapping, m.len() as u32)],
                children_tokens(v, m.len()),
            );
        },
    }
}

proof fn lemma_drain_children(v: Val, k: nat)
    requires
        encodable(v),
        canonical(v),
        (v matches Val::Arr(a) && k <= a.len()) || (v matches Val::Mapping(m) && k <= m.len()),
    ensures
        drain(DecState::WantMarker, children_encoding(v, k)) == (
            DecState::WantMarker,
            exploded(children_tokens(v, k)),
        ),
    decreases v, 0nat, k,
{
    let wm = DecState::WantMarker;
    if k == 0 {
        assert(run(wm, Seq::<u8>::empty()) == (wm, Seq::<Tok>::empty()));
        assert(exploded(Seq::<Tok>::empty()) == Seq::<Tok>::empty());
    } else {
        lemma_drain_children(v, (k - 1) as nat);
        let pb = children_encoding(v, (k - 1) as nat);
        let pt = children_tokens(v, (k - 1) as nat);
        match v {
            Val::Arr(a) => {
                let c = a[k - 1];
                lemma_drain_value(c);
                law_two_chunks(wm, pb, encoding(c));
                lemma_exploded_concat(pt, tokens_of(c));
            },
            Val::Mapping(m) => {
                let (x, y) = m[k - 1];
                assert(canonical(x) && canonical(y) && encodable(x) && encodable(y));
                lemma_drain_value(x);
                lemma_drain_value(y);
                law_two_chunks(wm, pb, encoding(x));
                law_two_chunks(wm, pb + encoding(x), encoding(y));
                lemma_exploded_concat(pt, tokens_of(x));
                lemma_exploded_concat(pt + tokens_of(x), tokens_of(y));
                assert(pb + encoding(x) + encoding(y) == children_encoding(v, k));
            },
            _ => {},
        }
    }
}


proof fn lemma_deepest_ge(v: Val, n: nat, i: int)
    requires
        0 <= i < n,
        (v matches Val::Arr(a) && n <= a.len()) || (v matches Val::Mapping(m) && n <= m.len()),
    ensures
        v matches Val::Arr(a) ==> nesting(a[i]) <= deepest(v, n),
        v matches Val::Mapping(m) ==> nesting(m[i].0) <= deepest(v, n) && nesting(m[i].1)
            <= deepest(v, n),
    decreases n,
{
    if i < n - 1 {
        lemma_deepest_ge(v, (n - 1) as nat, i);
    }
}

proof fn lemma_no_cont(v: Val)
    ensures
        forall|i: int| 0 <= i < tokens_of(v).len() ==> !(#[trigger] tokens_of(v)[i] is BinCont),
    decreases v, 1nat, 0nat,
{
    match v {
        Val::Arr(a) => {
            lemma_no_cont_children(v, a.len());
            let h = seq![Tok::Len(LenType::Arr, a.len() as u32)];
            let c = children_tokens(v, a.len());
            assert forall|i: int| 0 <= i < tokens_of(v).len() implies !(
            #[trigger] tokens_of(v)[i] is BinCont) by {
                if i >= 1 {
                    assert(tokens_of(v)[i] == c[i - 1]);
                }
            }
        },
        Val::Mapping(m) => {
            lemma_no_cont_children(v, m.len());
            let c = children_tokens(v, m.len());
            assert forall|i: int| 0 <= i < tokens_of(v).len() implies !(
            #[trigger] tokens_of(v)[i] is BinCont) by {
                if i >= 1 {
                    assert(tokens_of(v)[i] == c[i - 1]);
                }
            }
        },
        _ => {},
    }
}

proof fn lemma_no_cont_children(v: Val, k: nat)
    ensures
        forall|i: int|
            0 <= i < children_tokens(v, k).len() ==> !(#[trigger] children_tokens(v, k)[i] is BinCont),
    decreases v, 0nat, k,
{
    if k > 0 {
        lemma_no_cont_children(v, (k - 1) as nat);
        let p = children_tokens(v, (k - 1) as nat);
        match v {
            Val::Arr(a) => {
                if k <= a.len() {
                    lemma_no_cont(a[k - 1]);
                    let t = tokens_of(a[k - 1]);
                    assert forall|i: int| 0 <= i < children_tokens(v, k).len() implies !(
                    #[trigger] children_tokens(v, k)[i] is BinCont) by {
                        if i >= p.len() {
                            assert(children_tokens(v, k)[i] == t[i - p.len()]);
                        } else {
                            assert(children_tokens(v, k)[i] == p[i]);
                        }
                    }
                }
            },
            Val::Mapping(m) => {
                if k <= m.len() {
                    lemma_no_cont(m[k - 1].0);
                    lemma_no_cont(m[k - 1].1);
                    let t0 = tokens_of(m[k - 1].0);
                    let t1 = tokens_of(m[k - 1].1);
                    assert forall|i: int| 0 <= i < children_tokens(v, k).len() implies !(
                    #[trigger] children_tokens(v, k)[i] is BinCont) by {
                        if i >= p.len() + t0.len() {
                            assert(children_tokens(v, k)[i] == t1[i - p.len() - t0.len()]);
                        } else if i >= p.len() {
                            assert(children_tokens(v, k)[i] == t0[i - p.len()]);
                        } else {
                            assert(children_tokens(v, k)[i] == p[i]);
                        }
                    }
                }
            },
            _ => {},
        }
    }
}

proof fn lemma_window(ts: Seq<Tok>, p: int, t: Seq<Tok>, off: int, len: int)
    requires
        0 <= p,
        p + t.len() <= ts.len(),
        ts.subrange(p, p + t.len()) == t,
        0 <= off,
        0 <= len,
        off + len <= t.len(),
    ensures
        ts.subrange(p + off, p + off + len) == t.subrange(off, off + len),
{
    assert forall|j: int| 0 <= j < len implies #[trigger] ts.subrange(p + off, p + off + len)[j]
        == t.subrange(off, off + len)[j] by {
        assert(ts.subrange(p, p + t.len())[off + j] == t[off + j]);
    }
    assert(ts.subrange(p + off, p + off + len) =~= t.subrange(off, off + len));
}

proof fn lemma_tree_value(v: Val, ts: Seq<Tok>, p: int, d: nat)
    requires
        encodable(v),
        nesting(v) <= d,
        0 <= p,
        p + tokens_of(v).len() <= ts.len(),
        ts.subrange(p, p + tokens_of(v).len()) == tokens_of(v),
    ensures
        tree_at(ts, p, d) == Built::Done(v, p + tokens_of(v).len()),
    decreases v, 1nat, 0nat,
{
    let t = tokens_of(v);
    assert(ts[p] == t[0]);
    match v {
        Val::Bin(b) => {
            assert(ts[p + 1] == t[1]);
        },
        Val::Str(b) => {
            assert(ts[p + 1] == t[1]);
        },
        Val::Ext(x, b) => {
            assert(ts[p + 1] == t[1]);
        },
        Val::Arr(a) => {
            let c = children_tokens(v, a.len());
            lemma_window(ts, p, t, 1, c.len() as int);
            assert(t.subrange(1, 1 + c.len() as int) =~= c);
            lemma_tree_elems(v, ts, p + 1, a.len(), (d - 1) as nat);
            assert(a.subrange(0, a.len() as int) =~= a);
        },
        Val::Mapping(m) => {
            let c = children_tokens(v, m.len());
            lemma_window(ts, p, t, 1, c.len() as int);
            assert(t.subrange(1, 1 + c.len() as int) =~= c);
            lemma_tree_pairs(v, ts, p + 1, m.len(), (d - 1) as nat);
            assert(m.subrange(0, m.len() as int) =~= m);
        },
        _ => {},
    }
}

proof fn lemma_tree_elems(v: Val, ts: Seq<Tok>, p: int, k: nat, d: nat)
    requires
        encodable(v),
        v matches Val::Arr(a) && k <= a.len(),
        deepest(v, k) <= d,
        0 <= p,
        p + children_tokens(v, k).len() <= ts.len(),
        ts.subrange(p, p + children_tokens(v, k).len()) == children_tokens(v, k),
    ensures
        elems_at(ts, p, k, d) == Built::Done(v->Arr_0.subrange(0, k as int), p + children_tokens(
            v,
            k,
        ).len()),
    decreases v, 0nat, k,
{
    let a = v->Arr_0;
    if k == 0 {
        assert(a.subrange(0, 0) =~= Seq::<Val>::empty());
    } else {
        let pt = children_tokens(v, (k - 1) as nat);
        let c = a[k - 1];
        let t = tokens_of(c);
        assert(children_tokens(v, k) == pt + t);
        let all = children_tokens(v, k);
        lemma_window(ts, p, all, 0, pt.len() as int);
        assert(all.subrange(0, pt.len() as int) =~= pt);
        lemma_tree_elems(v, ts, p, (k - 1) as nat, d);
        let q = p + pt.len();
        lemma_window(ts, p, all, pt.len() as int, t.len() as int);
        assert(all.subrange(pt.len() as int, (pt.len() + t.len()) as int) =~= t);
        lemma_deepest_ge(v, k, k - 1);
        lemma_tree_value(c, ts, q, d);
        assert(a.subrange(0, k - 1).push(c) =~= a.subrange(0, k as int));
    }
}

proof fn lemma_tree_pairs(v: Val, ts: Seq<Tok>, p: int, k: nat, d: nat)
    requires
        encodable(v),
        v matches Val::Mapping(m) && k <= m.len(),
        deepest(v, k) <= d,
        0 <= p,
        p + children_tokens(v, k).len() <= ts.len(),
        ts.subrange(p, p + children_tokens(v, k).len()) == children_tokens(v, k),
    ensures
        pairs_at(ts, p, k, d) == Built::Done(
            v->Mapping_0.subrange(0, k as int),
            p + children_tokens(v, k).len(),
        ),
    decreases v, 0nat, k,
{
    let m = v->Mapping_0;
    if k == 0 {
        assert(m.subrange(0, 0) =~= Seq::<(Val, Val)>::empty());
    } else {
        let pt = children_tokens(v, (k - 1) as nat);
        let (x, y) = m[k - 1];
        let tx = tokens_of(x);
        let ty = tokens_of(y);
        let all = children_tokens(v, k);
        assert(all == pt + tx + ty);
        assert(encodable(x) && encodable(y));
        lemma_window(ts, p, all, 0, pt.len() as int);
        assert(all.subrange(0, pt.len() as int) =~= pt);
        lemma_tree_pairs(v, ts, p, (k - 1) as nat, d);
        let q = p + pt.len();
        let q2 = q + tx.len();
        lemma_window(ts, p, all, pt.len() as int, tx.len() as int);
        assert(all.subrange(pt.len() as int, (pt.len() + tx.len()) as int) =~= tx);
        lemma_window(ts, p, all, (pt.len() + tx.len()) as int, ty.len() as int);
        assert(all.subrange((pt.len() + tx.len()) as int, (pt.len() + tx.len() + ty.len()) as int)
            =~= ty);
        lemma_deepest_ge(v, k, k - 1);
        lemma_tree_value(x, ts, q, d);
        lemma_tree_value(y, ts, q2, d);
        assert(m.subrange(0, k - 1).push((x, y)) =~= m.subrange(0, k as int));
    }
}

/// Decoding the encoding of a value gives the value back: every shortest-form
/// byte sequence is read as the value it encodes, which encodes to it again.
/// The value's lengths fit the format, its numbers are held as the decoder
/// reads them back, and it nests no deeper than the bound.
pub proof fn law_round_trip(v: Val, depth: nat)
    requires
        encodable(v),
        canonical(v),
        nesting(v) <= depth,
    ensures
        decodes_to(encoding(v), depth, Ok(v)),
{
    let ts = tokens_of(v);
    lemma_drain_value(v);
    lemma_no_cont(v);
    assert(ts.subrange(0, ts.len() as int) =~= ts);
    lemma_tree_value(v, ts, 0, depth);
    assert(whole_payloads(ts));
}


proof fn lemma_exploded_front(t: Tok, rest: Seq<Tok>)
    ensures
        exploded(seq![t] + rest) == explode(t) + exploded(rest),
{
    lemma_exploded_concat(seq![t], rest);
    assert(seq![t].drop_last() =~= Seq::<Tok>::empty());
    assert(exploded(Seq::<Tok>::empty()) == Seq::<Tok>::empty());
    assert(Seq::<Tok>::empty() + explode(t) =~= explode(t));
}

proof fn lemma_explode_shape(t: Tok)
    ensures
        explode(t).len() >= 1 || (t matches Tok::BinCont(b, _) && b.len() == 0),
        !(t is Bin || t is BinCont) ==> explode(t) == seq![t],
        t matches Tok::Bin(b) ==> explode(t).len() == if b.len() == 0 { 1 } else { b.len() }
            && explode(t).last() is Bin && forall|i: int|
            0 <= i < explode(t).len() - 1 ==> #[trigger] explode(t)[i] is BinCont,
        t matches Tok::BinCont(b, _) ==> explode(t).len() == b.len() && forall|i: int|
            0 <= i < explode(t).len() ==> #[trigger] explode(t)[i] is BinCont,
{
}

/// Two token runs that split into the same one-byte pieces, each with only
/// whole payloads but for a last piece, are the same run.
proof fn lemma_tokens_unique(a: Seq<Tok>, b: Seq<Tok>)
    requires
        exploded(a) == exploded(b),
        whole_payloads(a),
        whole_payloads(b),
    ensures
        a == b,
    decreases a.len() + b.len(),
{
    if a.len() == 0 || b.len() == 0 {
        if a.len() > 0 {
            lemma_empty_tail(a);
        }
        if b.len() > 0 {
            lemma_empty_tail(b);
        }
        assert(a =~= b);
    } else {
        let ta = a[0];
        let tb = b[0];
        let ra = a.subrange(1, a.len() as int);
        let rb = b.subrange(1, b.len() as int);
        assert(a =~= seq![ta] + ra);
        assert(b =~= seq![tb] + rb);
        lemma_exploded_front(ta, ra);
        lemma_exploded_front(tb, rb);
        lemma_explode_shape(ta);
        lemma_explode_shape(tb);
        let x = exploded(a);
        let ea = explode(ta);
        let eb = explode(tb);
        // an unfinished piece can only come last
        assert(a.len() > 1 ==> !(a[0] is BinCont));
        assert(b.len() > 1 ==> !(b[0] is BinCont));
        lemma_first_piece(ta, tb, ra, rb);
        assert(ta == tb);
        assert(ea == eb);
        assert(exploded(ra) =~= x.subrange(ea.len() as int, x.len() as int));
        assert(exploded(rb) =~= x.subrange(eb.len() as int, x.len() as int));
        assert forall|i: int| 0 <= i < ra.len() - 1 implies !(#[trigger] ra[i] is BinCont) by {
            assert(ra[i] == a[i + 1]);
        }
        assert forall|i: int| 0 <= i < rb.len() - 1 implies !(#[trigger] rb[i] is BinCont) by {
            assert(rb[i] == b[i + 1]);
        }
        lemma_tokens_unique(ra, rb);
    }
}

proof fn lemma_empty_tail(a: Seq<Tok>)
    requires
        a.len() > 0,
        whole_payloads(a),
    ensures
        exploded(a).len() > 0,
{
    let ra = a.subrange(1, a.len() as int);
    assert(a =~= seq![a[0]] + ra);
    lemma_exploded_front(a[0], ra);
    lemma_explode_shape(a[0]);
    if a.len() > 1 {
        assert(!(a[0] is BinCont));
    }
}

/// The first tokens of two runs with the same pieces are the same.
proof fn lemma_first_piece(ta: Tok, tb: Tok, ra: Seq<Tok>, rb: Seq<Tok>)
    requires
        explode(ta) + exploded(ra) == explode(tb) + exploded(rb),
        ta matches Tok::BinCont(b, _) ==> ra.len() == 0 && b.len() > 0,
        tb matches Tok::BinCont(b, _) ==> rb.len() == 0 && b.len() > 0,
    ensures
        ta == tb,
    decreases 0nat,
{
    lemma_explode_shape(ta);
    lemma_explode_shape(tb);
    if (ta is Bin || ta is BinCont) && !(tb is Bin || tb is BinCont) {
        lemma_first_piece_kinds(ta, tb, ra, rb);
    } else if (tb is Bin || tb is BinCont) && !(ta is Bin || ta is BinCont) {
        lemma_first_piece_kinds(tb, ta, rb, ra);
    } else if !(ta is Bin || ta is BinCont) {
        let x = explode(ta) + exploded(ra);
        assert(x[0] == ta);
        assert(x[0] == tb);
    } else {
        lemma_first_payload(ta, tb, ra, rb);
    }
}

/// A payload piece and a token of another kind never start the same run.
proof fn lemma_first_piece_kinds(ta: Tok, tb: Tok, ra: Seq<Tok>, rb: Seq<Tok>)
    requires
        ta is Bin || ta is BinCont,
        !(tb is Bin || tb is BinCont),
        ta matches Tok::BinCont(b, _) ==> ra.len() == 0 && b.len() > 0,
    ensures
        explode(ta) + exploded(ra) != explode(tb) + exploded(rb),
{
    if explode(ta) + exploded(ra) == explode(tb) + exploded(rb) {
        lemma_first_piece_kinds_eq(ta, tb, ra, rb);
    }
}

proof fn lemma_first_piece_kinds_eq(ta: Tok, tb: Tok, ra: Seq<Tok>, rb: Seq<Tok>)
    requires
        explode(ta) + exploded(ra) == explode(tb) + exploded(rb),
        ta is Bin || ta is BinCont,
        !(tb is Bin || tb is BinCont),
        ta matches Tok::BinCont(b, _) ==> ra.len() == 0 && b.len() > 0,
    ensures
        explode(ta)[0] == tb,
        explode(ta)[0] is Bin || explode(ta)[0] is BinCont,
{
    lemma_explode_shape(ta);
    lemma_explode_shape(tb);
    let x = explode(tb) + exploded(rb);
    assert(x[0] == tb);
    assert(explode(ta).len() >= 1);
    assert(x[0] == explode(ta)[0]);
    if explode(ta).len() > 1 {
        assert(explode(ta)[0] is BinCont);
    }
}

/// Two payload tokens that start the same run are the same.
proof fn lemma_first_payload(ta: Tok, tb: Tok, ra: Seq<Tok>, rb: Seq<Tok>)
    requires
        explode(ta) + exploded(ra) == explode(tb) + exploded(rb),
        ta is Bin || ta is BinCont,
        tb is Bin || tb is BinCont,
        ta matches Tok::BinCont(b, _) ==> ra.len() == 0 && b.len() > 0,
        tb matches Tok::BinCont(b, _) ==> rb.len() == 0 && b.len() > 0,
    ensures
        ta == tb,
{
    lemma_explode_shape(ta);
    lemma_explode_shape(tb);
    let x = explode(ta) + exploded(ra);
    let ea = explode(ta);
    let eb = explode(tb);
    assert(x == eb + exploded(rb));
    assert(forall|i: int| 0 <= i < ea.len() ==> x[i] == #[trigger] ea[i]);
    assert(forall|i: int| 0 <= i < eb.len() ==> x[i] == #[trigger] eb[i]);
    if ta is BinCont && tb is BinCont {
        assert(x == ea);
        assert(x == eb);
        assert(ea.len() == eb.len());
        let b = ta->BinCont_0;
        let c = tb->BinCont_0;
        assert forall|i: int| 0 <= i < b.len() implies b[i] == c[i] by {
            assert(ea[i] == eb[i]);
            assert(ea[i]->BinCont_0[0] == b[i]);
            assert(eb[i]->BinCont_0[0] == c[i]);
        }
        assert(b =~= c);
        let l = b.len() - 1;
        assert(ea[l] == eb[l]);
    } else if ta is Bin && tb is Bin {
        let b = ta->Bin_0;
        let c = tb->Bin_0;
        let ka = ea.len();
        let kb = eb.len();
        if ka < kb {
            assert(x[ka - 1] == ea[ka - 1]);
            assert(x[ka - 1] == eb[ka - 1]);
        } else if kb < ka {
            assert(x[kb - 1] == ea[kb - 1]);
            assert(x[kb - 1] == eb[kb - 1]);
        } else if b.len() == 0 || c.len() == 0 {
            assert(ea[0] == eb[0]);
            if b.len() == 0 && c.len() > 0 {
                assert(eb[0]->Bin_0.len() == 1);
            }
            if c.len() == 0 && b.len() > 0 {
                assert(ea[0]->Bin_0.len() == 1);
            }
            assert(b =~= c);
        } else {
            assert forall|i: int| 0 <= i < b.len() implies b[i] == c[i] by {
                assert(ea[i] == eb[i]);
                if i == b.len() - 1 {
                    assert(ea[i]->Bin_0[0] == b[i]);
                    assert(eb[i]->Bin_0[0] == c[i]);
                } else {
                    assert(ea[i]->BinCont_0[0] == b[i]);
                    assert(eb[i]->BinCont_0[0] == c[i]);
                }
            }
            assert(b =~= c);
        }
    } else if ta is Bin {
        let k = ea.len();
        assert(x == eb);
        assert(x[k - 1] == ea[k - 1]);
        assert(x[k - 1] == eb[k - 1]);
    } else {
        let k = eb.len();
        assert(x == ea);
        assert(x[k - 1] == eb[k - 1]);
        assert(x[k - 1] == ea[k - 1]);
    }
}

/// Reading the same bytes under the same bound gives one answer: the
/// outcome that `decodes_to` describes is unique.
pub proof fn law_decoding_is_functional(
    bs: Seq<u8>,
    depth: nat,
    r1: Result<Val, (Seq<char>, Seq<char>)>,
    r2: Result<Val, (Seq<char>, Seq<char>)>,
)
    requires
        decodes_to(bs, depth, r1),
        decodes_to(bs, depth, r2),
    ensures
        r1 == r2,
{
    let t1 = choose|ts: Seq<Tok>|
        {
            &&& exploded(ts) == drain(DecState::WantMarker, bs).1
            &&& whole_payloads(ts)
            &&& match tree_at(ts, 0, depth) {
                Built::Done(v, _) => r1 == Ok::<Val, (Seq<char>, Seq<char>)>(v),
                Built::Fail(e, g) => r1 == Err::<Val, (Seq<char>, Seq<char>)>((e, g)),
            }
        };
    let t2 = choose|ts: Seq<Tok>|
        {
            &&& exploded(ts) == drain(DecState::WantMarker, bs).1
            &&& whole_payloads(ts)
            &&& match tree_at(ts, 0, depth) {
                Built::Done(v, _) => r2 == Ok::<Val, (Seq<char>, Seq<char>)>(v),
                Built::Fail(e, g) => r2 == Err::<Val, (Seq<char>, Seq<char>)>((e, g)),
            }
        };
    lemma_tokens_unique(t1, t2);
}


proof fn lemma_tree_deep(v: Val, ts: Seq<Tok>, p: int, d: nat)
    requires
        encodable(v),
        nesting(v) > d,
        0 <= p,
        p + tokens_of(v).len() <= ts.len(),
        ts.subrange(p, p + tokens_of(v).len()) == tokens_of(v),
    ensures
        tree_at(ts, p, d) is Fail,
    decreases v, 1nat, 0nat,
{
    let t = tokens_of(v);
    assert(ts[p] == t[0]);
    match v {
        Val::Arr(a) => {
            if d > 0 {
                let c = children_tokens(v, a.len());
                lemma_window(ts, p, t, 1, c.len() as int);
                assert(t.subrange(1, 1 + c.len() as int) =~= c);
                lemma_elems_deep(v, ts, p + 1, a.len(), (d - 1) as nat);
            }
        },
        Val::Mapping(m) => {
            if d > 0 {
                let c = children_tokens(v, m.len());
                lemma_window(ts, p, t, 1, c.len() as int);
                assert(t.subrange(1, 1 + c.len() as int) =~= c);
                lemma_pairs_deep(v, ts, p + 1, m.len(), (d - 1) as nat);
            }
        },
        _ => {},
    }
}

proof fn lemma_elems_deep(v: Val, ts: Seq<Tok>, p: int, k: nat, d: nat)
    requires
        encodable(v),
        v matches Val::Arr(a) && k <= a.len(),
        deepest(v, k) > d,
        0 <= p,
        p + children_tokens(v, k).len() <= ts.len(),
        ts.subrange(p, p + children_tokens(v, k).len()) == children_tokens(v, k),
    ensures
        elems_at(ts, p, k, d) is Fail,
    decreases v, 0nat, k,
{
    let a = v->Arr_0;
    let pt = children_tokens(v, (k - 1) as nat);
    let c = a[k - 1];
    let t = tokens_of(c);
    let all = children_tokens(v, k);
    assert(all == pt + t);
    lemma_window(ts, p, all, 0, pt.len() as int);
    assert(all.subrange(0, pt.len() as int) =~= pt);
    if deepest(v, (k - 1) as nat) > d {
        lemma_elems_deep(v, ts, p, (k - 1) as nat, d);
    } else {
        lemma_tree_elems(v, ts, p, (k - 1) as nat, d);
        let q = p + pt.len();
        lemma_window(ts, p, all, pt.len() as int, t.len() as int);
        assert(all.subrange(pt.len() as int, (pt.len() + t.len()) as int) =~= t);
        lemma_tree_deep(c, ts, q, d);
    }
}

proof fn lemma_pairs_deep(v: Val, ts: Seq<Tok>, p: int, k: nat, d: nat)
    requires
        encodable(v),
        v matches Val::Mapping(m) && k <= m.len(),
        deepest(v, k) > d,
        0 <= p,
        p + children_tokens(v, k).len() <= ts.len(),
        ts.subrange(p, p + children_tokens(v, k).len()) == children_tokens(v, k),
    ensures
        pairs_at(ts, p, k, d) is Fail,
    decreases v, 0nat, k,
{
    let m = v->Mapping_0;
    let pt = children_tokens(v, (k - 1) as nat);
    let (x, y) = m[k - 1];
    let tx = tokens_of(x);
    let ty = tokens_of(y);
    let all = children_tokens(v, k);
    assert(all == pt + tx + ty);
    assert(encodable(x) && encodable(y));
    lemma_window(ts, p, all, 0, pt.len() as int);
    assert(all.subrange(0, pt.len() as int) =~= pt);
    if deepest(v, (k - 1) as nat) > d {
        lemma_pairs_deep(v, ts, p, (k - 1) as nat, d);
    } else {
        lemma_tree_pairs(v, ts, p, (k - 1) as nat, d);
        let q = p + pt.len();
        let q2 = q + tx.len();
        lemma_window(ts, p, all, pt.len() as int, tx.len() as int);
        assert(all.subrange(pt.len() as int, (pt.len() + tx.len()) as int) =~= tx);
        if nesting(x) > d {
            lemma_tree_deep(x, ts, q, d);
        } else {
            lemma_tree_value(x, ts, q, d);
            lemma_window(ts, p, all, (pt.len() + tx.len()) as int, ty.len() as int);
            assert(all.subrange(
                (pt.len() + tx.len()) as int,
                (pt.len() + tx.len() + ty.len()) as int,
            ) =~= ty);
            lemma_tree_deep(y, ts, q2, d);
        }
    }
}

/// A value nested deeper than the bound is refused: reading its encoding
/// under that bound gives a decode error, never a value.
pub proof fn law_too_deep(w: Val, d: nat)
    requires
        encodable(w),
        canonical(w),
        nesting(w) > d,
    ensures
        exists|e: (Seq<char>, Seq<char>)| decodes_to(encoding(w), d, Err(e)),
        forall|r: Result<Val, (Seq<char>, Seq<char>)>| decodes_to(encoding(w), d, r) ==> r is Err,
{
    let ts = tokens_of(w);
    lemma_drain_value(w);
    lemma_no_cont(w);
    assert(ts.subrange(0, ts.len() as int) =~= ts);
    lemma_tree_deep(w, ts, 0, d);
    assert(whole_payloads(ts));
    let e = (tree_at(ts, 0, d)->Fail_0, tree_at(ts, 0, d)->Fail_1);
    assert(decodes_to(encoding(w), d, Err(e)));
    assert forall|r: Result<Val, (Seq<char>, Seq<char>)>| decodes_to(encoding(w), d, r) implies r is Err by {
        law_decoding_is_functional(encoding(w), d, r, Err(e));
    }
}

} // verus!
