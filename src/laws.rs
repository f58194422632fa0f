//! Laws of the codec that relate the encoder to the format and to the
//! decoder.

use vstd::prelude::*;
use crate::num::{f64_val, single_holds, whole_value, wire_num, FloatVal, Num};
use crate::encode::{
    arr_header, be, bin_header, byte_of_i8, ext_header, int_encoding, lemma_be_len, map_header,
    marked, num_encoding, str_header,
};
use crate::decode::{marker_step, run, step, DecState, Tok};
use crate::value::{encoding, Val};
use crate::markers::{
    C_ARR16, C_ARR32, C_BIN16, C_BIN32, C_BIN8, C_EXT16, C_EXT32, C_EXT8, C_FIXARR0, C_FIXEXT1,
    C_FIXEXT16, C_FIXEXT2, C_FIXEXT4, C_FIXEXT8, C_FIXMAP0, C_FIXSTR0, C_I16, C_I32, C_I64, C_I8,
    C_MAP16, C_MAP32, C_RES, C_STR16, C_STR32, C_STR8, C_U16, C_U32, C_U64, C_U8,
};

verus! {

/// The reserved byte, read where a marker is expected, is a nil.
pub proof fn law_reserved_reads_as_nil(s: DecState)
    requires
        s == DecState::WantMarker || s == DecState::WantBinZero,
    ensures
        step(s, C_RES).0 == DecState::WantMarker,
        step(s, C_RES).1.last() == Tok::Nil,
{
    reveal(marker_step);
}

/// No value's encoding starts with the reserved byte: the encoder never
/// uses it as a marker.
pub proof fn law_reserved_never_written(v: Val)
    ensures
        encoding(v).len() > 0,
        encoding(v)[0] != C_RES,
{
    match v {
        Val::Num(n) => {
            match n {
                Num::F32(b) => {},
                Num::F64(b) => {},
                Num::Signed(i) => {},
                Num::Unsigned(u) => {},
            }
        },
        _ => {},
    }
}

/// The legal headers of a str payload of `n` bytes.
pub open spec fn str_header_legal(h: Seq<u8>, n: nat) -> bool {
    ||| (n < 32 && h == seq![(C_FIXSTR0 + n) as u8])
    ||| (n < 0x100 && h == marked(C_STR8, n, 1))
    ||| (n < 0x10000 && h == marked(C_STR16, n, 2))
    ||| (n < 0x1_0000_0000 && h == marked(C_STR32, n, 4))
}

/// The legal headers of a bin payload of `n` bytes.
pub open spec fn bin_header_legal(h: Seq<u8>, n: nat) -> bool {
    ||| (n < 0x100 && h == marked(C_BIN8, n, 1))
    ||| (n < 0x10000 && h == marked(C_BIN16, n, 2))
    ||| (n < 0x1_0000_0000 && h == marked(C_BIN32, n, 4))
}

/// The legal headers of an array of `n` elements.
pub open spec fn arr_header_legal(h: Seq<u8>, n: nat) -> bool {
    ||| (n < 16 && h == seq![(C_FIXARR0 + n) as u8])
    ||| (n < 0x10000 && h == marked(C_ARR16, n, 2))
    ||| (n < 0x1_0000_0000 && h == marked(C_ARR32, n, 4))
}

/// The legal headers of a map of `n` pairs.
pub open spec fn map_header_legal(h: Seq<u8>, n: nat) -> bool {
    ||| (n < 16 && h == seq![(C_FIXMAP0 + n) as u8])
    ||| (n < 0x10000 && h == marked(C_MAP16, n, 2))
    ||| (n < 0x1_0000_0000 && h == marked(C_MAP32, n, 4))
}

/// The legal headers of an ext payload of `n` bytes with type tag `t`.
pub open spec fn ext_header_legal(h: Seq<u8>, n: nat, t: i8) -> bool {
    ||| (n == 1 && h == seq![C_FIXEXT1, byte_of_i8(t)])
    ||| (n == 2 && h == seq![C_FIXEXT2, byte_of_i8(t)])
    ||| (n == 4 && h == seq![C_FIXEXT4, byte_of_i8(t)])
    ||| (n == 8 && h == seq![C_FIXEXT8, byte_of_i8(t)])
    ||| (n == 16 && h == seq![C_FIXEXT16, byte_of_i8(t)])
    ||| (n < 0x100 && h == marked(C_EXT8, n, 1).push(byte_of_i8(t)))
    ||| (n < 0x10000 && h == marked(C_EXT16, n, 2).push(byte_of_i8(t)))
    ||| (n < 0x1_0000_0000 && h == marked(C_EXT32, n, 4).push(byte_of_i8(t)))
}

/// The legal encodings of the integer `i`.
pub open spec fn int_legal(h: Seq<u8>, i: int) -> bool {
    ||| (0 <= i < 0x80 && h == seq![i as u8])
    ||| (-32 <= i < 0 && h == seq![(i + 0x100) as u8])
    ||| (0 <= i < 0x100 && h == marked(C_U8, i as nat, 1))
    ||| (0 <= i < 0x10000 && h == marked(C_U16, i as nat, 2))
    ||| (0 <= i < 0x1_0000_0000 && h == marked(C_U32, i as nat, 4))
    ||| (0 <= i < 0x1_0000_0000_0000_0000 && h == marked(C_U64, i as nat, 8))
    ||| (-0x80 <= i < 0x80 && h == marked(C_I8, (if i < 0 { i + 0x100 } else { i }) as nat, 1))
    ||| (-0x8000 <= i < 0x8000 && h == marked(
        C_I16,
        (if i < 0 { i + 0x10000 } else { i }) as nat,
        2,
    ))
    ||| (-0x8000_0000 <= i < 0x8000_0000 && h == marked(
        C_I32,
        (if i < 0 { i + 0x1_0000_0000 } else { i }) as nat,
        4,
    ))
    ||| (-0x8000_0000_0000_0000 <= i < 0x8000_0000_0000_0000 && h == marked(
        C_I64,
        (if i < 0 { i + 0x1_0000_0000_0000_0000 } else { i }) as nat,
        8,
    ))
}

proof fn lemma_marked_len(m: u8, v: nat, n: nat)
    ensures
        marked(m, v, n).len() == n + 1,
{
    lemma_be_len(v, n);
}

proof fn lemma_all_marked_lens(v: nat)
    ensures
        forall|m: u8, n: nat| #[trigger] marked(m, v, n).len() == n + 1,
{
    assert forall|m: u8, n: nat| #[trigger] marked(m, v, n).len() == n + 1 by {
        lemma_marked_len(m, v, n);
    }
}

/// Every header the encoder writes is a legal one, and no legal header is
/// shorter.
pub proof fn law_shortest_headers(n: nat, t: i8)
    requires
        n <= u32::MAX,
    ensures
        str_header_legal(str_header(n), n),
        forall|h: Seq<u8>| str_header_legal(h, n) ==> str_header(n).len() <= h.len(),
        bin_header_legal(bin_header(n), n),
        forall|h: Seq<u8>| bin_header_legal(h, n) ==> bin_header(n).len() <= h.len(),
        arr_header_legal(arr_header(n), n),
        forall|h: Seq<u8>| arr_header_legal(h, n) ==> arr_header(n).len() <= h.len(),
        map_header_legal(map_header(n), n),
        forall|h: Seq<u8>| map_header_legal(h, n) ==> map_header(n).len() <= h.len(),
        ext_header_legal(ext_header(n, t), n, t),
        forall|h: Seq<u8>| ext_header_legal(h, n, t) ==> ext_header(n, t).len() <= h.len(),
{
    lemma_all_marked_lens(n);
}

/// Every integer's encoding is a legal one, and no legal encoding of it is
/// shorter.
pub proof fn law_shortest_int(i: int)
    requires
        -0x8000_0000_0000_0000 <= i < 0x1_0000_0000_0000_0000,
    ensures
        int_legal(int_encoding(i), i),
        forall|h: Seq<u8>| int_legal(h, i) ==> int_encoding(i).len() <= h.len(),
{
    lemma_all_marked_lens(i as nat);
    lemma_all_marked_lens((i + 0x100) as nat);
    lemma_all_marked_lens((i + 0x10000) as nat);
    lemma_all_marked_lens((i + 0x1_0000_0000) as nat);
    lemma_all_marked_lens((i + 0x1_0000_0000_0000_0000) as nat);
}

/// Every number is written in its shortest form: a value that is an integer
/// within the 64-bit range exactly as that integer (see `law_shortest_int`);
/// any other double in five bytes where a single holds it exactly, else in
/// nine; any other single in five.
pub proof fn law_shortest_num(n: Num)
    ensures
        whole_value(n) matches Some(v) && -0x8000_0000_0000_0000 <= v < 0x1_0000_0000_0000_0000
            ==> num_encoding(wire_num(n)) == int_encoding(whole_value(n)->Some_0),
        !(whole_value(n) matches Some(v) && -0x8000_0000_0000_0000 <= v < 0x1_0000_0000_0000_0000)
            ==> (n matches Num::F64(b) ==> num_encoding(wire_num(n)).len() == if single_holds(
            f64_val(b),
        ) {
            5int
        } else {
            9int
        }),
        !(whole_value(n) matches Some(v) && -0x8000_0000_0000_0000 <= v < 0x1_0000_0000_0000_0000)
            ==> (n is F32 ==> num_encoding(wire_num(n)).len() == 5),
{
    lemma_all_marked_lens(0);
    if let Num::F64(b) = n {
        lemma_all_marked_lens(b as nat);
        if let FloatVal::Fin(neg, sig, exp) = f64_val(b) {
            if sig == 0 {
                vstd::arithmetic::power2::lemma_pow2_pos((-exp) as nat);
                vstd::arithmetic::power2::lemma_pow2_pos(exp as nat);
                assert(crate::num::scaled(0, exp) == 0);
                assert(crate::num::whole(0, exp));
                assert(whole_value(n) == Some(0int));
            }
        }
    }
    if let Num::F32(b) = n {
        lemma_all_marked_lens(b as nat);
    }
    if let Num::F32(c) = wire_num(n) {
        lemma_all_marked_lens(c as nat);
    }
}

} // verus!
