//! Shortest-form MessagePack header encoding.

use vstd::prelude::*;
use crate::num::{wire_num, Num};
use crate::markers::{
    C_ARR16, C_ARR32, C_BIN16, C_F32, C_F64, C_I16, C_I32, C_I64, C_I8, C_U16, C_U32, C_U64, C_U8, C_BIN32, C_BIN8, C_EXT16, C_EXT32, C_EXT8, C_FALSE, C_FIXARR0, C_FIXEXT1, C_FIXEXT16, C_FIXEXT2, C_FIXEXT4, C_FIXEXT8, C_FIXMAP0, C_FIXSTR0, C_MAP16, C_MAP32, C_NIL, C_STR16, C_STR32, C_STR8, C_TRUE,
};

verus! {

/// `v` modulo 256^n, written big-endian in `n` bytes.
pub open spec fn be(v: nat, n: nat) -> Seq<u8>
    decreases n,
{
    if n == 0 {
        seq![]
    } else {
        be(v / 256, (n - 1) as nat).push((v % 256) as u8)
    }
}

pub proof fn lemma_be_len(v: nat, n: nat)
    ensures
        be(v, n).len() == n,
    decreases n,
{
    if n > 0 {
        lemma_be_len(v / 256, (n - 1) as nat);
    }
}

/// The byte that holds the two's complement of `t`.
pub open spec fn byte_of_i8(t: i8) -> u8 {
    if t < 0 {
        (t + 256) as u8
    } else {
        t as u8
    }
}

pub fn exec_byte_of_i8(t: i8) -> (r: u8)
    ensures
        r == byte_of_i8(t),
{
    if t < 0 {
        (t as i16 + 256) as u8
    } else {
        t as u8
    }
}

/// A marker byte followed by `v` big-endian in `n` bytes.
pub open spec fn marked(m: u8, v: nat, n: nat) -> Seq<u8> {
    seq![m] + be(v, n)
}

/// Appends `s` to `out`.
pub fn append(out: &mut Vec<u8>, s: &[u8])
    ensures
        final(out)@ == old(out)@ + s@,
{
    let mut i: usize = 0;
    while i < s.len()
        invariant
            i <= s@.len(),
            out@ == old(out)@ + s@.subrange(0, i as int),
        decreases s@.len() - i,
    {
        out.push(s[i]);
        i = i + 1;
        assert(out@ =~= old(out)@ + s@.subrange(0, i as int));
    }
    assert(s@.subrange(0, i as int) =~= s@);
}

/// A header of at most nine bytes, produced without allocation.
#[derive(Clone, Copy)]
pub struct VarBytes {
    len: usize,
    buf: [u8; 9],
}

impl View for VarBytes {
    type V = Seq<u8>;

    closed spec fn view(&self) -> Seq<u8> {
        self.buf@.subrange(0, self.len as int)
    }
}

impl VarBytes {
    #[verifier::type_invariant]
    spec fn fits_buffer(&self) -> bool {
        self.len <= 9
    }

    fn empty() -> (r: VarBytes)
        ensures
            r@ == Seq::<u8>::empty(),
    {
        let r = VarBytes { len: 0, buf: [0u8; 9] };
        assert(r@ =~= Seq::<u8>::empty());
        r
    }

    fn push(&mut self, b: u8)
        requires
            old(self)@.len() < 9,
        ensures
            final(self)@ == old(self)@.push(b),
    {
        proof {
            use_type_invariant(&*self);
        }
        let ghost before = self@;
        self.buf[self.len] = b;
        self.len = self.len + 1;
        assert(self@ =~= before.push(b));
    }

    fn push_be(&mut self, v: u64, n: usize)
        requires
            old(self)@.len() + n <= 9,
        ensures
            final(self)@ == old(self)@ + be(v as nat, n as nat),
        decreases n,
    {
        proof {
            lemma_be_len(v as nat, n as nat);
        }
        if n > 0 {
            self.push_be(v / 256, n - 1);
            proof {
                lemma_be_len((v / 256) as nat, (n - 1) as nat);
            }
            self.push((v % 256) as u8);
            assert(be(v as nat, n as nat) == be((v / 256) as nat, (n - 1) as nat).push(
                (v % 256) as u8,
            ));
            assert(self@ =~= old(self)@ + be(v as nat, n as nat));
        } else {
            assert(old(self)@ + be(v as nat, 0) =~= old(self)@);
        }
    }

    fn marked(m: u8, v: u64, n: usize) -> (r: VarBytes)
        requires
            n <= 8,
        ensures
            r@ == marked(m, v as nat, n as nat),
            r@.len() == n + 1,
    {
        proof {
            lemma_be_len(v as nat, n as nat);
        }
        let mut r = VarBytes::empty();
        r.push(m);
        r.push_be(v, n);
        assert(seq![m] =~= Seq::<u8>::empty().push(m));
        r
    }

    /// The header bytes.
    pub fn as_slice(&self) -> (r: &[u8])
        ensures
            r@ == self@,
    {
        proof {
            use_type_invariant(self);
        }
        let s: &[u8] = self.buf.as_slice();
        &s[0..self.len]
    }

    /// Number of header bytes.
    pub fn len(&self) -> (r: usize)
        ensures
            r == self@.len(),
    {
        proof {
            use_type_invariant(self);
        }
        self.len
    }

    /// The header bytes as an owned vector.
    pub fn to_vec(&self) -> (r: Vec<u8>)
        ensures
            r@ == self@,
    {
        let mut out: Vec<u8> = Vec::new();
        append(&mut out, self.as_slice());
        out
    }
}

/// Header of a bin payload of `len` bytes.
pub open spec fn bin_header(len: nat) -> Seq<u8> {
    if len < 0x100 {
        marked(C_BIN8, len, 1)
    } else if len < 0x10000 {
        marked(C_BIN16, len, 2)
    } else {
        marked(C_BIN32, len, 4)
    }
}

/// Header of a str payload of `len` bytes.
pub open spec fn str_header(len: nat) -> Seq<u8> {
    if len < 32 {
        seq![(C_FIXSTR0 + len) as u8]
    } else if len < 0x100 {
        marked(C_STR8, len, 1)
    } else if len < 0x10000 {
        marked(C_STR16, len, 2)
    } else {
        marked(C_STR32, len, 4)
    }
}

/// Header of an array of `len` elements.
pub open spec fn arr_header(len: nat) -> Seq<u8> {
    if len < 16 {
        seq![(C_FIXARR0 + len) as u8]
    } else if len < 0x10000 {
        marked(C_ARR16, len, 2)
    } else {
        marked(C_ARR32, len, 4)
    }
}

/// Header of a map of `len` key / value pairs.
pub open spec fn map_header(len: nat) -> Seq<u8> {
    if len < 16 {
        seq![(C_FIXMAP0 + len) as u8]
    } else if len < 0x10000 {
        marked(C_MAP16, len, 2)
    } else {
        marked(C_MAP32, len, 4)
    }
}

/// Header of an ext payload of `len` bytes with type tag `t`.
pub open spec fn ext_header(len: nat, t: i8) -> Seq<u8> {
    if len == 1 {
        seq![C_FIXEXT1, byte_of_i8(t)]
    } else if len == 2 {
        seq![C_FIXEXT2, byte_of_i8(t)]
    } else if len == 4 {
        seq![C_FIXEXT4, byte_of_i8(t)]
    } else if len == 8 {
        seq![C_FIXEXT8, byte_of_i8(t)]
    } else if len == 16 {
        seq![C_FIXEXT16, byte_of_i8(t)]
    } else if len < 0x100 {
        marked(C_EXT8, len, 1).push(byte_of_i8(t))
    } else if len < 0x10000 {
        marked(C_EXT16, len, 2).push(byte_of_i8(t))
    } else {
        marked(C_EXT32, len, 4).push(byte_of_i8(t))
    }
}


/// The shortest encoding of the integer `i` (within the 64-bit range):
/// fixints where they reach, otherwise the narrowest unsigned form for
/// non-negative values and the narrowest signed form for negative ones.
pub open spec fn int_encoding(i: int) -> Seq<u8> {
    if 0 <= i < 0x80 {
        seq![i as u8]
    } else if -32 <= i < 0 {
        seq![(i + 0x100) as u8]
    } else if 0 <= i < 0x100 {
        marked(C_U8, i as nat, 1)
    } else if 0 <= i < 0x10000 {
        marked(C_U16, i as nat, 2)
    } else if 0 <= i < 0x1_0000_0000 {
        marked(C_U32, i as nat, 4)
    } else if 0 <= i {
        marked(C_U64, i as nat, 8)
    } else if -0x80 <= i {
        marked(C_I8, (i + 0x100) as nat, 1)
    } else if -0x8000 <= i {
        marked(C_I16, (i + 0x10000) as nat, 2)
    } else if -0x8000_0000 <= i {
        marked(C_I32, (i + 0x1_0000_0000) as nat, 4)
    } else {
        marked(C_I64, (i + 0x1_0000_0000_0000_0000) as nat, 8)
    }
}

/// The encoding of a number: integers in their shortest form, floats as
/// they are held.
pub open spec fn num_encoding(n: Num) -> Seq<u8> {
    match n {
        Num::F32(b) => marked(C_F32, b as nat, 4),
        Num::F64(b) => marked(C_F64, b as nat, 8),
        Num::Signed(i) => int_encoding(i as int),
        Num::Unsigned(u) => int_encoding(u as int),
    }
}

fn enc_unsigned(u: u64) -> (r: VarBytes)
    ensures
        r@ == int_encoding(u as int),
{
    if u < 0x80 {
        VarBytes::marked(u as u8, 0, 0)
    } else if u < 0x100 {
        VarBytes::marked(C_U8, u, 1)
    } else if u < 0x10000 {
        VarBytes::marked(C_U16, u, 2)
    } else if u < 0x1_0000_0000 {
        VarBytes::marked(C_U32, u, 4)
    } else {
        VarBytes::marked(C_U64, u, 8)
    }
}

fn enc_negative(i: i64) -> (r: VarBytes)
    requires
        i < 0,
    ensures
        r@ == int_encoding(i as int),
{
    if i >= -32 {
        VarBytes::marked((i + 0x100) as u8, 0, 0)
    } else if i >= -0x80 {
        VarBytes::marked(C_I8, (i + 0x100) as u64, 1)
    } else if i >= -0x8000 {
        VarBytes::marked(C_I16, (i + 0x10000) as u64, 2)
    } else if i >= -0x8000_0000 {
        VarBytes::marked(C_I32, (i + 0x1_0000_0000) as u64, 4)
    } else {
        VarBytes::marked(C_I64, (i - i64::MIN) as u64 + 0x8000_0000_0000_0000, 8)
    }
}

/// The MessagePack encoder. It holds no state: every method is a pure
/// function from a logical value to its shortest header.
pub struct Encoder;

impl Encoder {
    /// A new encoder.
    pub fn new() -> (r: Encoder) {
        Encoder
    }

    /// The encoding of `nil`.
    pub fn enc_nil(&mut self) -> (r: VarBytes)
        ensures
            r@ == seq![C_NIL],
    {
        VarBytes::marked(C_NIL, 0, 0)
    }

    /// The encoding of a boolean.
    pub fn enc_bool(&mut self, b: bool) -> (r: VarBytes)
        ensures
            r@ == seq![if b { C_TRUE } else { C_FALSE }],
    {
        if b {
            VarBytes::marked(C_TRUE, 0, 0)
        } else {
            VarBytes::marked(C_FALSE, 0, 0)
        }
    }

    /// The shortest encoding of a number: an integral value within the
    /// 64-bit range as an integer, a double that a single holds exactly as
    /// that single, any other float as held.
    pub fn enc_num(&mut self, n: Num) -> (r: VarBytes)
        ensures
            r@ == num_encoding(wire_num(n)),
    {
        let m = match n {
            Num::F32(b) => Num::from_f32_bits(b),
            Num::F64(b) => Num::from_f64_bits(b),
            _ => n,
        };
        proof {
            if !(n is F32 || n is F64) {
                assert(num_encoding(wire_num(n)) == num_encoding(n));
            }
        }
        match m {
            Num::F32(b) => VarBytes::marked(C_F32, b as u64, 4),
            Num::F64(b) => VarBytes::marked(C_F64, b, 8),
            Num::Signed(i) => if i >= 0 {
                enc_unsigned(i as u64)
            } else {
                enc_negative(i)
            },
            Num::Unsigned(u) => enc_unsigned(u),
        }
    }

    /// The header of a bin payload of `len` bytes; the payload follows it.
    pub fn enc_bin_len(&mut self, len: u32) -> (r: VarBytes)
        ensures
            r@ == bin_header(len as nat),
    {
        if len < 0x100 {
            VarBytes::marked(C_BIN8, len as u64, 1)
        } else if len < 0x10000 {
            VarBytes::marked(C_BIN16, len as u64, 2)
        } else {
            VarBytes::marked(C_BIN32, len as u64, 4)
        }
    }

    /// The header of a str payload of `len` bytes; the payload follows it.
    pub fn enc_str_len(&mut self, len: u32) -> (r: VarBytes)
        ensures
            r@ == str_header(len as nat),
    {
        if len < 32 {
            VarBytes::marked(C_FIXSTR0 + len as u8, 0, 0)
        } else if len < 0x100 {
            VarBytes::marked(C_STR8, len as u64, 1)
        } else if len < 0x10000 {
            VarBytes::marked(C_STR16, len as u64, 2)
        } else {
            VarBytes::marked(C_STR32, len as u64, 4)
        }
    }

    /// The header of an array of `len` elements.
    pub fn enc_arr_len(&mut self, len: u32) -> (r: VarBytes)
        ensures
            r@ == arr_header(len as nat),
    {
        if len < 16 {
            VarBytes::marked(C_FIXARR0 + len as u8, 0, 0)
        } else if len < 0x10000 {
            VarBytes::marked(C_ARR16, len as u64, 2)
        } else {
            VarBytes::marked(C_ARR32, len as u64, 4)
        }
    }

    /// The header of a map of `len` key / value pairs.
    pub fn enc_map_len(&mut self, len: u32) -> (r: VarBytes)
        ensures
            r@ == map_header(len as nat),
    {
        if len < 16 {
            VarBytes::marked(C_FIXMAP0 + len as u8, 0, 0)
        } else if len < 0x10000 {
            VarBytes::marked(C_MAP16, len as u64, 2)
        } else {
            VarBytes::marked(C_MAP32, len as u64, 4)
        }
    }

    /// The header of an ext payload of `len` bytes with type tag `t`.
    pub fn enc_ext_len(&mut self, len: u32, t: i8) -> (r: VarBytes)
        ensures
            r@ == ext_header(len as nat, t),
    {
        let tb = exec_byte_of_i8(t);
        if len == 1 {
            let mut r = VarBytes::marked(C_FIXEXT1, 0, 0);
            r.push(tb);
            r
        } else if len == 2 {
            let mut r = VarBytes::marked(C_FIXEXT2, 0, 0);
            r.push(tb);
            r
        } else if len == 4 {
            let mut r = VarBytes::marked(C_FIXEXT4, 0, 0);
            r.push(tb);
            r
        } else if len == 8 {
            let mut r = VarBytes::marked(C_FIXEXT8, 0, 0);
            r.push(tb);
            r
        } else if len == 16 {
            let mut r = VarBytes::marked(C_FIXEXT16, 0, 0);
            r.push(tb);
            r
        } else if len < 0x100 {
            let mut r = VarBytes::marked(C_EXT8, len as u64, 1);
            r.push(tb);
            r
        } else if len < 0x10000 {
            let mut r = VarBytes::marked(C_EXT16, len as u64, 2);
            r.push(tb);
            r
        } else {
            let mut r = VarBytes::marked(C_EXT32, len as u64, 4);
            r.push(tb);
            r
        }
    }
}

} // verus!
