//! The numeric type carried by MessagePack tokens and values.

use vstd::prelude::*;
use vstd::arithmetic::power2::{pow2, lemma_pow2_unfold, lemma_pow2_pos, lemma2_to64, lemma_pow2_adds};
use vstd::arithmetic::div_mod::{lemma_div_denominator, lemma_mod_breakdown};

verus! {

/// A MessagePack number. Floating-point numbers are held as their
/// IEEE-754 bit patterns, so the library itself never computes with floats.
#[derive(Clone, Copy, Debug)]
pub enum Num {
    /// An IEEE-754 single-precision number, as its bit pattern.
    F32(u32),
    /// An IEEE-754 double-precision number, as its bit pattern.
    F64(u64),
    /// A signed integer.
    Signed(i64),
    /// An unsigned integer.
    Unsigned(u64),
}

/// The number that an integer becomes: non-negative integers are held
/// unsigned, negative ones signed.
pub open spec fn num_of_int(v: int) -> Num {
    if v >= 0 {
        Num::Unsigned(v as u64)
    } else {
        Num::Signed(v as i64)
    }
}

impl From<u8> for Num {
    fn from(t: u8) -> (r: Num) {
        Num::Unsigned(t as u64)
    }
}

impl vstd::std_specs::convert::FromSpecImpl<u8> for Num {
    open spec fn obeys_from_spec() -> bool {
        true
    }

    open spec fn from_spec(v: u8) -> Num {
        num_of_int(v as int)
    }
}

impl From<u16> for Num {
    fn from(t: u16) -> (r: Num) {
        Num::Unsigned(t as u64)
    }
}

impl vstd::std_specs::convert::FromSpecImpl<u16> for Num {
    open spec fn obeys_from_spec() -> bool {
        true
    }

    open spec fn from_spec(v: u16) -> Num {
        num_of_int(v as int)
    }
}

impl From<u32> for Num {
    fn from(t: u32) -> (r: Num) {
        Num::Unsigned(t as u64)
    }
}

impl vstd::std_specs::convert::FromSpecImpl<u32> for Num {
    open spec fn obeys_from_spec() -> bool {
        true
    }

    open spec fn from_spec(v: u32) -> Num {
        num_of_int(v as int)
    }
}

impl From<u64> for Num {
    fn from(t: u64) -> (r: Num) {
        Num::Unsigned(t as u64)
    }
}

impl vstd::std_specs::convert::FromSpecImpl<u64> for Num {
    open spec fn obeys_from_spec() -> bool {
        true
    }

    open spec fn from_spec(v: u64) -> Num {
        num_of_int(v as int)
    }
}

impl From<usize> for Num {
    fn from(t: usize) -> (r: Num) {
        Num::Unsigned(t as u64)
    }
}

impl vstd::std_specs::convert::FromSpecImpl<usize> for Num {
    open spec fn obeys_from_spec() -> bool {
        true
    }

    open spec fn from_spec(v: usize) -> Num {
        num_of_int(v as int)
    }
}

impl From<i8> for Num {
    fn from(t: i8) -> (r: Num) {
        if t >= 0 {
            Num::Unsigned(t as u64)
        } else {
            Num::Signed(t as i64)
        }
    }
}

impl vstd::std_specs::convert::FromSpecImpl<i8> for Num {
    open spec fn obeys_from_spec() -> bool {
        true
    }

    open spec fn from_spec(v: i8) -> Num {
        num_of_int(v as int)
    }
}

impl From<i16> for Num {
    fn from(t: i16) -> (r: Num) {
        if t >= 0 {
            Num::Unsigned(t as u64)
        } else {
            Num::Signed(t as i64)
        }
    }
}

impl vstd::std_specs::convert::FromSpecImpl<i16> for Num {
    open spec fn obeys_from_spec() -> bool {
        true
    }

    open spec fn from_spec(v: i16) -> Num {
        num_of_int(v as int)
    }
}

impl From<i32> for Num {
    fn from(t: i32) -> (r: Num) {
        if t >= 0 {
            Num::Unsigned(t as u64)
        } else {
            Num::Signed(t as i64)
        }
    }
}

impl vstd::std_specs::convert::FromSpecImpl<i32> for Num {
    open spec fn obeys_from_spec() -> bool {
        true
    }

    open spec fn from_spec(v: i32) -> Num {
        num_of_int(v as int)
    }
}

impl From<i64> for Num {
    fn from(t: i64) -> (r: Num) {
        if t >= 0 {
            Num::Unsigned(t as u64)
        } else {
            Num::Signed(t as i64)
        }
    }
}

impl vstd::std_specs::convert::FromSpecImpl<i64> for Num {
    open spec fn obeys_from_spec() -> bool {
        true
    }

    open spec fn from_spec(v: i64) -> Num {
        num_of_int(v as int)
    }
}

impl From<isize> for Num {
    fn from(t: isize) -> (r: Num) {
        if t >= 0 {
            Num::Unsigned(t as u64)
        } else {
            Num::Signed(t as i64)
        }
    }
}

impl vstd::std_specs::convert::FromSpecImpl<isize> for Num {
    open spec fn obeys_from_spec() -> bool {
        true
    }

    open spec fn from_spec(v: isize) -> Num {
        num_of_int(v as int)
    }
}


/// The value of a float bit pattern: not a number, an infinity of a sign, or
/// the finite value `(-1)^neg * sig * 2^exp`.
pub enum FloatVal {
    NaN,
    Inf(bool),
    Fin(bool, nat, int),
}

/// The value of the IEEE-754 double with bit pattern `b`.
pub open spec fn f64_val(b: u64) -> FloatVal {
    let m = b % 0x10_0000_0000_0000;
    let e = (b / 0x10_0000_0000_0000) % 0x800;
    let neg = b >= 0x8000_0000_0000_0000;
    if e == 0x7ff {
        if m == 0 {
            FloatVal::Inf(neg)
        } else {
            FloatVal::NaN
        }
    } else if e == 0 {
        FloatVal::Fin(neg, m as nat, -1074)
    } else {
        FloatVal::Fin(neg, (m + 0x10_0000_0000_0000) as nat, e - 1075)
    }
}

/// The value of the IEEE-754 single with bit pattern `b`.
pub open spec fn f32_val(b: u32) -> FloatVal {
    let m = b % 0x80_0000;
    let e = (b / 0x80_0000) % 0x100;
    let neg = b >= 0x8000_0000;
    if e == 0xff {
        if m == 0 {
            FloatVal::Inf(neg)
        } else {
            FloatVal::NaN
        }
    } else if e == 0 {
        FloatVal::Fin(neg, m as nat, -149)
    } else {
        FloatVal::Fin(neg, (m + 0x80_0000) as nat, e - 150)
    }
}

/// `sig * 2^exp`, truncated toward zero.
pub open spec fn scaled(sig: nat, exp: int) -> nat {
    if exp >= 0 {
        sig * pow2(exp as nat)
    } else {
        sig / pow2((-exp) as nat)
    }
}

/// Whether `sig * 2^exp` is an integer.
pub open spec fn whole(sig: nat, exp: int) -> bool {
    exp >= 0 || sig % pow2((-exp) as nat) == 0
}

pub open spec fn signed(neg: bool, mag: nat) -> int {
    if neg {
        -mag
    } else {
        mag as int
    }
}

/// A number truncated toward zero: not a number, an infinity, or an
/// integer together with whether it is the number's exact value.
pub enum Truncated {
    NaN,
    Inf(bool),
    Int(int, bool),
}

pub open spec fn truncated_float(f: FloatVal) -> Truncated {
    match f {
        FloatVal::NaN => Truncated::NaN,
        FloatVal::Inf(neg) => Truncated::Inf(neg),
        FloatVal::Fin(neg, sig, exp) => Truncated::Int(signed(neg, scaled(sig, exp)), whole(sig, exp)),
    }
}

pub open spec fn truncated(n: Num) -> Truncated {
    match n {
        Num::Signed(i) => Truncated::Int(i as int, true),
        Num::Unsigned(u) => Truncated::Int(u as int, true),
        Num::F32(b) => truncated_float(f32_val(b)),
        Num::F64(b) => truncated_float(f64_val(b)),
    }
}

/// The integer a number is, if it is one.
pub open spec fn whole_value(n: Num) -> Option<int> {
    match truncated(n) {
        Truncated::Int(v, true) => Some(v),
        _ => None,
    }
}

pub open spec fn clamp(v: int, lo: int, hi: int) -> int {
    if v < lo {
        lo
    } else if v > hi {
        hi
    } else {
        v
    }
}

/// Whether `n` converts to an integer type of range `lo..=hi` without loss.
pub open spec fn fits_in(n: Num, lo: int, hi: int) -> bool {
    whole_value(n) matches Some(v) && lo <= v <= hi
}

/// `n` converted to an integer type of range `lo..=hi`: truncated toward
/// zero and clamped to the range; not a number gives 0.
pub open spec fn to_in(n: Num, lo: int, hi: int) -> int {
    match truncated(n) {
        Truncated::NaN => 0,
        Truncated::Inf(neg) => if neg {
            lo
        } else {
            hi
        },
        Truncated::Int(v, _) => clamp(v, lo, hi),
    }
}

/// A positive significand with its factors of two moved into the exponent.
pub open spec fn canon(sig: nat, exp: int) -> (nat, int)
    decreases sig,
{
    if sig > 0 && sig % 2 == 0 {
        canon(sig / 2, exp + 1)
    } else {
        (sig, exp)
    }
}

pub open spec fn float_of(n: Num) -> Option<FloatVal> {
    match n {
        Num::F32(b) => Some(f32_val(b)),
        Num::F64(b) => Some(f64_val(b)),
        _ => None,
    }
}

/// Equality of values across variants: integers by value, an integer and a
/// float when the float is that integer, and two floats when they are the
/// same value (not a number equals nothing, the two zeros are equal).
pub open spec fn num_eq(a: Num, b: Num) -> bool {
    match (float_of(a), float_of(b)) {
        (None, None) => whole_value(a) == whole_value(b),
        (None, Some(_)) => whole_value(b) == whole_value(a),
        (Some(_), None) => whole_value(a) == whole_value(b),
        (Some(x), Some(y)) => match (x, y) {
            (FloatVal::Inf(p), FloatVal::Inf(q)) => p == q,
            (FloatVal::Fin(n1, s1, e1), FloatVal::Fin(n2, s2, e2)) => (s1 == 0 && s2 == 0) || (
            n1 == n2 && s1 > 0 && s2 > 0 && canon(s1, e1) == canon(s2, e2)),
            _ => false,
        },
    }
}

/// What `Num::trunc` finds: `nan`; else the sign, whether the truncated
/// magnitude reaches 2^128 (`huge`, infinities included), the magnitude
/// otherwise, and whether the truncation is exact.
pub struct Trunc {
    pub nan: bool,
    pub neg: bool,
    pub huge: bool,
    pub mag: u128,
    pub exact: bool,
}

pub open spec fn trunc_ok(n: Num, t: Trunc) -> bool {
    match truncated(n) {
        Truncated::NaN => t.nan,
        Truncated::Inf(neg) => !t.nan && t.huge && t.neg == neg && !t.exact,
        Truncated::Int(v, ex) => {
            &&& !t.nan
            &&& t.exact == ex
            &&& (t.huge <==> (v >= pow2(128) || v <= -pow2(128)))
            &&& (!t.huge ==> signed(t.neg, t.mag as nat) == v)
            &&& (t.huge ==> (t.neg <==> v < 0))
        },
    }
}

proof fn lemma_pow2_128()
    ensures
        pow2(127) == 0x8000_0000_0000_0000_0000_0000_0000_0000,
        pow2(128) == 0x1_0000_0000_0000_0000_0000_0000_0000_0000,
        pow2(64) == 0x1_0000_0000_0000_0000,
{
    lemma2_to64();
    lemma_pow2_adds(64, 64);
    lemma_pow2_unfold(128);
}

/// `sig * 2^exp` truncated toward zero: its magnitude saturated at 2^128,
/// whether it reached that, and whether it is exact.
fn scale(sig: u64, exp: i64) -> (r: (u128, bool, bool))
    requires
        -2000 <= exp <= 2000,
    ensures
        r.1 <==> scaled(sig as nat, exp as int) >= pow2(128),
        !r.1 ==> r.0 == scaled(sig as nat, exp as int),
        r.2 <==> whole(sig as nat, exp as int),
{
    proof {
        lemma_pow2_128();
        lemma2_to64();
    }
    if exp >= 0 {
        let mut mag: u128 = sig as u128;
        let mut huge = false;
        let mut i: i64 = 0;
        assert(sig as nat * pow2(0) == sig as nat);
        while i < exp
            invariant
                0 <= i <= exp,
                pow2(128) == 0x1_0000_0000_0000_0000_0000_0000_0000_0000,
                pow2(127) == 0x8000_0000_0000_0000_0000_0000_0000_0000,
                huge <==> sig as nat * pow2(i as nat) >= pow2(128),
                !huge ==> mag == sig as nat * pow2(i as nat),
            decreases exp - i,
        {
            proof {
                lemma_pow2_unfold((i + 1) as nat);
                assert(sig as nat * pow2((i + 1) as nat) == 2 * (sig as nat * pow2(i as nat))) by (nonlinear_arith)
                    requires pow2((i + 1) as nat) == 2 * pow2(i as nat);
            }
            if !huge {
                if mag >= 0x8000_0000_0000_0000_0000_0000_0000_0000 {
                    huge = true;
                } else {
                    mag = mag * 2;
                }
            }
            i = i + 1;
        }
        proof {
            assert(pow2(0) == 1);
        }
        (mag, huge, true)
    } else {
        let mut mag: u64 = sig;
        let mut exact = true;
        let mut i: i64 = 0;
        let n: i64 = -exp;
        assert(sig as nat / pow2(0) == sig as nat);
        assert(sig as nat % pow2(0) == 0);
        while i < n
            invariant
                0 <= i <= n,
                n == -exp,
                mag == sig as nat / pow2(i as nat),
                exact <==> sig as nat % pow2(i as nat) == 0,
            decreases n - i,
        {
            proof {
                let p = pow2(i as nat);
                lemma_pow2_pos(i as nat);
                lemma_pow2_unfold((i + 1) as nat);
                assert(pow2((i + 1) as nat) == p * 2);
                lemma_div_denominator(sig as int, p as int, 2);
                lemma_mod_breakdown(sig as int, p as int, 2);
                let a = (sig as nat / p) % 2;
                let b = sig as nat % p;
                assert(p * a + b == 0 <==> (a == 0 && b == 0)) by (nonlinear_arith)
                    requires p > 0, a >= 0, b >= 0;
            }
            exact = exact && mag % 2 == 0;
            mag = mag / 2;
            i = i + 1;
        }
        proof {
            lemma_pow2_pos(n as nat);
            assert(mag as nat <= sig as nat) by (nonlinear_arith)
                requires mag == sig as nat / pow2(n as nat), pow2(n as nat) > 0;
        }
        (mag as u128, false, exact)
    }
}


/// The parts of a float bit pattern, for computing with.
pub enum FloatParts {
    NaN,
    Inf(bool),
    Fin(bool, u64, i64),
}

impl View for FloatParts {
    type V = FloatVal;

    open spec fn view(&self) -> FloatVal {
        match *self {
            FloatParts::NaN => FloatVal::NaN,
            FloatParts::Inf(n) => FloatVal::Inf(n),
            FloatParts::Fin(n, s, e) => FloatVal::Fin(n, s as nat, e as int),
        }
    }
}

fn f64_parts(b: u64) -> (r: FloatParts)
    ensures
        r@ == f64_val(b),
        r matches FloatParts::Fin(_, s, e) ==> s < 0x20_0000_0000_0000 && -1074 <= e <= 971,
{
    let m = b % 0x10_0000_0000_0000;
    let e = (b / 0x10_0000_0000_0000) % 0x800;
    let neg = b >= 0x8000_0000_0000_0000;
    if e == 0x7ff {
        if m == 0 {
            FloatParts::Inf(neg)
        } else {
            FloatParts::NaN
        }
    } else if e == 0 {
        FloatParts::Fin(neg, m, -1074)
    } else {
        FloatParts::Fin(neg, m + 0x10_0000_0000_0000, e as i64 - 1075)
    }
}

fn f32_parts(b: u32) -> (r: FloatParts)
    ensures
        r@ == f32_val(b),
        r matches FloatParts::Fin(_, s, e) ==> s < 0x100_0000 && -149 <= e <= 104,
{
    let m = b % 0x80_0000;
    let e = (b / 0x80_0000) % 0x100;
    let neg = b >= 0x8000_0000;
    if e == 0xff {
        if m == 0 {
            FloatParts::Inf(neg)
        } else {
            FloatParts::NaN
        }
    } else if e == 0 {
        FloatParts::Fin(neg, m as u64, -149)
    } else {
        FloatParts::Fin(neg, (m + 0x80_0000) as u64, e as i64 - 150)
    }
}

fn float_trunc(p: FloatParts) -> (r: Trunc)
    requires
        p matches FloatParts::Fin(_, s, e) ==> -2000 <= e <= 2000,
    ensures
        match truncated_float(p@) {
            Truncated::NaN => r.nan,
            Truncated::Inf(neg) => !r.nan && r.huge && r.neg == neg && !r.exact,
            Truncated::Int(v, ex) => {
                &&& !r.nan
                &&& r.exact == ex
                &&& (r.huge <==> (v >= pow2(128) || v <= -pow2(128)))
                &&& (!r.huge ==> signed(r.neg, r.mag as nat) == v)
                &&& (r.huge ==> (r.neg <==> v < 0))
            },
        },
{
    match p {
        FloatParts::NaN => Trunc { nan: true, neg: false, huge: false, mag: 0, exact: false },
        FloatParts::Inf(neg) => Trunc { nan: false, neg, huge: true, mag: 0, exact: false },
        FloatParts::Fin(neg, sig, exp) => {
            let (mag, huge, exact) = scale(sig, exp);
            proof {
                lemma_pow2_pos(128);
            }
            Trunc { nan: false, neg, huge, mag, exact }
        },
    }
}

impl Num {
    /// This number truncated toward zero, see `Trunc`.
    pub fn trunc(&self) -> (r: Trunc)
        ensures
            trunc_ok(*self, r),
    {
        proof {
            lemma_pow2_128();
        }
        match *self {
            Num::Signed(i) => {
                let mag: u128 = if i < 0 {
                    (-(i as i128)) as u128
                } else {
                    i as u128
                };
                Trunc { nan: false, neg: i < 0, huge: false, mag, exact: true }
            },
            Num::Unsigned(u) => Trunc { nan: false, neg: false, huge: false, mag: u as u128, exact: true },
            Num::F32(b) => float_trunc(f32_parts(b)),
            Num::F64(b) => float_trunc(f64_parts(b)),
        }
    }
}


/// An integer type that a number converts to.
pub trait NumTo: Sized {
    /// The least value of the type.
    spec fn lo() -> int;

    /// The greatest value of the type.
    spec fn hi() -> int;

    /// The integer a value of the type is.
    spec fn value_of(t: Self) -> int;

    /// Whether `n` converts to this type without loss.
    fn fits_num(n: &Num) -> (r: bool)
        ensures
            r == fits_in(*n, Self::lo(), Self::hi()),
    ;

    /// `n` converted to this type, clamped to its range.
    fn num_to(n: &Num) -> (r: Self)
        ensures
            Self::value_of(r) == to_in(*n, Self::lo(), Self::hi()),
    ;
}

/// Whether a truncated number is exact and lies in `-neg_max..=pos_max`.
fn fits_range(t: &Trunc, neg_max: u128, pos_max: u128) -> (r: bool)
    ensures
        r == (!t.nan && t.exact && !t.huge && if t.neg {
            t.mag <= neg_max
        } else {
            t.mag <= pos_max
        }),
{
    !t.nan && t.exact && !t.huge && if t.neg {
        t.mag <= neg_max
    } else {
        t.mag <= pos_max
    }
}

/// A truncated number clamped to `-neg_max..=pos_max`, as a sign and a
/// magnitude; not a number gives 0.
fn to_range(t: &Trunc, neg_max: u128, pos_max: u128) -> (r: (bool, u128))
    ensures
        r.1 <= if r.0 {
            neg_max
        } else {
            pos_max
        },
        r == (if t.nan {
            (false, 0u128)
        } else if t.huge {
            (t.neg, if t.neg {
                neg_max
            } else {
                pos_max
            })
        } else if t.neg {
            (true, if t.mag <= neg_max {
                t.mag
            } else {
                neg_max
            })
        } else {
            (false, if t.mag <= pos_max {
                t.mag
            } else {
                pos_max
            })
        }),
{
    if t.nan {
        (false, 0)
    } else if t.huge {
        if t.neg {
            (true, neg_max)
        } else {
            (false, pos_max)
        }
    } else if t.neg {
        (true, if t.mag <= neg_max {
            t.mag
        } else {
            neg_max
        })
    } else {
        (false, if t.mag <= pos_max {
            t.mag
        } else {
            pos_max
        })
    }
}

impl NumTo for u8 {
    open spec fn lo() -> int {
        0 as int
    }

    open spec fn hi() -> int {
        255 as int
    }

    open spec fn value_of(t: u8) -> int {
        t as int
    }

    fn fits_num(n: &Num) -> (r: bool) {
        let tr = n.trunc();
        proof {
            lemma_pow2_128();
        }
        fits_range(&tr, 0, 0xff)
    }

    fn num_to(n: &Num) -> (r: u8) {
        let tr = n.trunc();
        proof {
            lemma_pow2_128();
        }
        let (_, m) = to_range(&tr, 0, 0xff);
        m as u8
    }
}

impl NumTo for u16 {
    open spec fn lo() -> int {
        0 as int
    }

    open spec fn hi() -> int {
        0xffff as int
    }

    open spec fn value_of(t: u16) -> int {
        t as int
    }

    fn fits_num(n: &Num) -> (r: bool) {
        let tr = n.trunc();
        proof {
            lemma_pow2_128();
        }
        fits_range(&tr, 0, 0xffff)
    }

    fn num_to(n: &Num) -> (r: u16) {
        let tr = n.trunc();
        proof {
            lemma_pow2_128();
        }
        let (_, m) = to_range(&tr, 0, 0xffff);
        m as u16
    }
}

impl NumTo for u32 {
    open spec fn lo() -> int {
        0 as int
    }

    open spec fn hi() -> int {
        0xffff_ffff as int
    }

    open spec fn value_of(t: u32) -> int {
        t as int
    }

    fn fits_num(n: &Num) -> (r: bool) {
        let tr = n.trunc();
        proof {
            lemma_pow2_128();
        }
        fits_range(&tr, 0, 0xffff_ffff)
    }

    fn num_to(n: &Num) -> (r: u32) {
        let tr = n.trunc();
        proof {
            lemma_pow2_128();
        }
        let (_, m) = to_range(&tr, 0, 0xffff_ffff);
        m as u32
    }
}

impl NumTo for u64 {
    open spec fn lo() -> int {
        0 as int
    }

    open spec fn hi() -> int {
        0xffff_ffff_ffff_ffff as int
    }

    open spec fn value_of(t: u64) -> int {
        t as int
    }

    fn fits_num(n: &Num) -> (r: bool) {
        let tr = n.trunc();
        proof {
            lemma_pow2_128();
        }
        fits_range(&tr, 0, 0xffff_ffff_ffff_ffff)
    }

    fn num_to(n: &Num) -> (r: u64) {
        let tr = n.trunc();
        proof {
            lemma_pow2_128();
        }
        let (_, m) = to_range(&tr, 0, 0xffff_ffff_ffff_ffff);
        m as u64
    }
}

impl NumTo for usize {
    open spec fn lo() -> int {
        0 as int
    }

    open spec fn hi() -> int {
        usize::MAX as int
    }

    open spec fn value_of(t: usize) -> int {
        t as int
    }

    fn fits_num(n: &Num) -> (r: bool) {
        let tr = n.trunc();
        proof {
            lemma_pow2_128();
        }
        fits_range(&tr, 0, usize::MAX as u128)
    }

    fn num_to(n: &Num) -> (r: usize) {
        let tr = n.trunc();
        proof {
            lemma_pow2_128();
        }
        let (_, m) = to_range(&tr, 0, usize::MAX as u128);
        m as usize
    }
}

impl NumTo for u128 {
    open spec fn lo() -> int {
        0 as int
    }

    open spec fn hi() -> int {
        u128::MAX as int
    }

    open spec fn value_of(t: u128) -> int {
        t as int
    }

    fn fits_num(n: &Num) -> (r: bool) {
        let tr = n.trunc();
        proof {
            lemma_pow2_128();
        }
        fits_range(&tr, 0, u128::MAX)
    }

    fn num_to(n: &Num) -> (r: u128) {
        let tr = n.trunc();
        proof {
            lemma_pow2_128();
        }
        let (_, m) = to_range(&tr, 0, u128::MAX);
        m as u128
    }
}

impl NumTo for i8 {
    open spec fn lo() -> int {
        -0x80 as int
    }

    open spec fn hi() -> int {
        0x7f as int
    }

    open spec fn value_of(t: i8) -> int {
        t as int
    }

    fn fits_num(n: &Num) -> (r: bool) {
        let tr = n.trunc();
        proof {
            lemma_pow2_128();
        }
        fits_range(&tr, 0x80, 0x7f)
    }

    fn num_to(n: &Num) -> (r: i8) {
        let tr = n.trunc();
        proof {
            lemma_pow2_128();
        }
        let (neg, m) = to_range(&tr, 0x80, 0x7f);
        if neg {
            (-(m as i128)) as i8
        } else {
            m as i8
        }
    }
}

impl NumTo for i16 {
    open spec fn lo() -> int {
        -0x8000 as int
    }

    open spec fn hi() -> int {
        0x7fff as int
    }

    open spec fn value_of(t: i16) -> int {
        t as int
    }

    fn fits_num(n: &Num) -> (r: bool) {
        let tr = n.trunc();
        proof {
            lemma_pow2_128();
        }
        fits_range(&tr, 0x8000, 0x7fff)
    }

    fn num_to(n: &Num) -> (r: i16) {
        let tr = n.trunc();
        proof {
            lemma_pow2_128();
        }
        let (neg, m) = to_range(&tr, 0x8000, 0x7fff);
        if neg {
            (-(m as i128)) as i16
        } else {
            m as i16
        }
    }
}

impl NumTo for i32 {
    open spec fn lo() -> int {
        -0x8000_0000 as int
    }

    open spec fn hi() -> int {
        0x7fff_ffff as int
    }

    open spec fn value_of(t: i32) -> int {
        t as int
    }

    fn fits_num(n: &Num) -> (r: bool) {
        let tr = n.trunc();
        proof {
            lemma_pow2_128();
        }
        fits_range(&tr, 0x8000_0000, 0x7fff_ffff)
    }

    fn num_to(n: &Num) -> (r: i32) {
        let tr = n.trunc();
        proof {
            lemma_pow2_128();
        }
        let (neg, m) = to_range(&tr, 0x8000_0000, 0x7fff_ffff);
        if neg {
            (-(m as i128)) as i32
        } else {
            m as i32
        }
    }
}

impl NumTo for i64 {
    open spec fn lo() -> int {
        -0x8000_0000_0000_0000 as int
    }

    open spec fn hi() -> int {
        0x7fff_ffff_ffff_ffff as int
    }

    open spec fn value_of(t: i64) -> int {
        t as int
    }

    fn fits_num(n: &Num) -> (r: bool) {
        let tr = n.trunc();
        proof {
            lemma_pow2_128();
        }
        fits_range(&tr, 0x8000_0000_0000_0000, 0x7fff_ffff_ffff_ffff)
    }

    fn num_to(n: &Num) -> (r: i64) {
        let tr = n.trunc();
        proof {
            lemma_pow2_128();
        }
        let (neg, m) = to_range(&tr, 0x8000_0000_0000_0000, 0x7fff_ffff_ffff_ffff);
        if neg {
            (-(m as i128)) as i64
        } else {
            m as i64
        }
    }
}

impl NumTo for isize {
    open spec fn lo() -> int {
        isize::MIN as int
    }

    open spec fn hi() -> int {
        isize::MAX as int
    }

    open spec fn value_of(t: isize) -> int {
        t as int
    }

    fn fits_num(n: &Num) -> (r: bool) {
        let tr = n.trunc();
        proof {
            lemma_pow2_128();
        }
        fits_range(&tr, (isize::MAX as u128) + 1, isize::MAX as u128)
    }

    fn num_to(n: &Num) -> (r: isize) {
        let tr = n.trunc();
        proof {
            lemma_pow2_128();
        }
        let (neg, m) = to_range(&tr, (isize::MAX as u128) + 1, isize::MAX as u128);
        if neg {
            (-(m as i128)) as isize
        } else {
            m as isize
        }
    }
}

impl NumTo for i128 {
    open spec fn lo() -> int {
        i128::MIN as int
    }

    open spec fn hi() -> int {
        i128::MAX as int
    }

    open spec fn value_of(t: i128) -> int {
        t as int
    }

    fn fits_num(n: &Num) -> (r: bool) {
        let tr = n.trunc();
        proof {
            lemma_pow2_128();
        }
        fits_range(&tr, 0x8000_0000_0000_0000_0000_0000_0000_0000, i128::MAX as u128)
    }

    fn num_to(n: &Num) -> (r: i128) {
        let tr = n.trunc();
        proof {
            lemma_pow2_128();
        }
        let (neg, m) = to_range(&tr, 0x8000_0000_0000_0000_0000_0000_0000_0000, i128::MAX as u128);
        if neg {
            if m == 0x8000_0000_0000_0000_0000_0000_0000_0000 {
                i128::MIN
            } else {
                -(m as i128)
            }
        } else {
            m as i128
        }
    }
}

impl Num {
    /// Whether this number converts to `T` without loss.
    pub fn fits<T: NumTo>(&self) -> (r: bool)
        ensures
            r == fits_in(*self, T::lo(), T::hi()),
    {
        T::fits_num(self)
    }

    /// This number converted to `T`, clamped to its range.
    pub fn to<T: NumTo>(&self) -> (r: T)
        ensures
            T::value_of(r) == to_in(*self, T::lo(), T::hi()),
    {
        T::num_to(self)
    }
}


fn canon_exec(sig: u64, exp: i64) -> (r: (u64, i128))
    requires
        sig > 0,
    ensures
        (r.0 as nat, r.1 as int) == canon(sig as nat, exp as int),
{
    let mut s = sig;
    let mut e: i128 = exp as i128;
    while s % 2 == 0
        invariant
            0 < s <= sig,
            exp <= e <= exp + (sig - s),
            canon(s as nat, e as int) == canon(sig as nat, exp as int),
        decreases s,
    {
        s = s / 2;
        e = e + 1;
    }
    (s, e)
}

fn float_of_exec(n: &Num) -> (r: Option<FloatParts>)
    ensures
        match r {
            Some(p) => float_of(*n) == Some(p@),
            None => float_of(*n) is None,
        },
        r matches Some(FloatParts::Fin(_, s, e)) ==> -2000 <= e <= 2000,
{
    match *n {
        Num::F32(b) => Some(f32_parts(b)),
        Num::F64(b) => Some(f64_parts(b)),
        _ => None,
    }
}

/// Whether two truncations are the same exact integer.
fn same_whole(a: &Trunc, b: &Trunc) -> (r: bool)
    ensures
        r == (!a.nan && !b.nan && a.exact && b.exact && !a.huge && !b.huge && signed(
            a.neg,
            a.mag as nat,
        ) == signed(b.neg, b.mag as nat)),
{
    !a.nan && !b.nan && a.exact && b.exact && !a.huge && !b.huge && (a.mag == b.mag && (a.neg
        == b.neg || a.mag == 0))
}

impl PartialEq for Num {
    fn eq(&self, o: &Num) -> (r: bool) {
        proof {
            lemma_pow2_128();
        }
        match (float_of_exec(self), float_of_exec(o)) {
            (Some(FloatParts::Inf(p)), Some(FloatParts::Inf(q))) => p == q,
            (Some(FloatParts::Fin(n1, s1, e1)), Some(FloatParts::Fin(n2, s2, e2))) => {
                if s1 == 0 && s2 == 0 {
                    true
                } else if n1 == n2 && s1 > 0 && s2 > 0 {
                    let c1 = canon_exec(s1, e1);
                    let c2 = canon_exec(s2, e2);
                    c1.0 == c2.0 && c1.1 == c2.1
                } else {
                    false
                }
            },
            (Some(_), Some(_)) => false,
            _ => {
                let a = self.trunc();
                let b = o.trunc();
                same_whole(&a, &b)
            },
        }
    }
}

impl vstd::std_specs::cmp::PartialEqSpecImpl for Num {
    open spec fn obeys_eq_spec() -> bool {
        true
    }

    open spec fn eq_spec(&self, o: &Num) -> bool {
        num_eq(*self, *o)
    }
}

/// A number converts to an integer type without loss exactly when turning
/// the converted value back into a number gives a number equal to it.
pub proof fn law_fits_round_trip(n: Num, lo: int, hi: int)
    requires
        i64::MIN <= lo <= 0,
        0 <= hi <= u64::MAX,
    ensures
        fits_in(n, lo, hi) <==> num_eq(num_of_int(to_in(n, lo, hi)), n),
{
    lemma_pow2_128();
    let v = to_in(n, lo, hi);
    assert(whole_value(num_of_int(v)) == Some(v));
}


/// The number a float becomes: an integer when the float is one within the
/// 64-bit range (non-negative ones unsigned), else the float itself.
pub open spec fn normalized(f: Num) -> Num {
    match whole_value(f) {
        Some(v) => if 0 <= v <= u64::MAX {
            Num::Unsigned(v as u64)
        } else if i64::MIN <= v < 0 {
            Num::Signed(v as i64)
        } else {
            f
        },
        None => f,
    }
}

fn normalize(f: Num) -> (r: Num)
    ensures
        r == normalized(f),
{
    let t = f.trunc();
    proof {
        lemma_pow2_128();
    }
    if !t.nan && t.exact && !t.huge {
        if !t.neg || t.mag == 0 {
            if t.mag <= u64::MAX as u128 {
                return Num::Unsigned(t.mag as u64);
            }
        } else if t.mag <= 0x8000_0000_0000_0000 {
            return Num::Signed((-(t.mag as i128)) as i64);
        }
    }
    f
}

/// How many binary digits `s` has.
pub open spec fn bit_len(s: nat) -> nat
    decreases s,
{
    if s == 0 {
        0
    } else {
        1 + bit_len(s / 2)
    }
}

/// Whether a single-precision float holds the value `f` exactly:
/// infinities and zeros it does; a finite `s * 2^e` with odd `s` when `s`
/// has at most 24 binary digits, `e >= -149` (the lowest digit of a
/// subnormal single), and its top digit lies below 2^128.
pub open spec fn single_holds(f: FloatVal) -> bool {
    match f {
        FloatVal::NaN => false,
        FloatVal::Inf(_) => true,
        FloatVal::Fin(_, sig, exp) => sig == 0 || ({
            let c = canon(sig, exp);
            c.0 < 0x100_0000 && c.1 >= -149 && c.1 + bit_len(c.0) <= 128
        }),
    }
}

/// The single-precision bit pattern of `(-1)^neg * s * 2^e` (`s` odd, the
/// value held exactly by a single): normal when its top binary digit is at
/// 2^-126 or above, with the significand widened to 24 digits; else
/// subnormal, with digits counted from 2^-149.
pub open spec fn single_bits(neg: bool, s: nat, e: int) -> u32 {
    let sign: int = if neg {
        0x8000_0000
    } else {
        0
    };
    let l = bit_len(s);
    let top = e + l - 1;
    if top >= -126 {
        (sign + (top + 127) * 0x80_0000 + (s * pow2((24 - l) as nat) - 0x80_0000)) as u32
    } else {
        (sign + s * pow2((e + 149) as nat)) as u32
    }
}

/// The number the encoder writes for `n`: a value that is an integer within
/// the 64-bit range as that integer; else a double that a single holds
/// exactly as that single; else `n` as held.
pub open spec fn wire_num(n: Num) -> Num {
    let m = normalized(n);
    if m != n {
        m
    } else {
        match n {
            Num::F64(b) => match f64_val(b) {
                FloatVal::Inf(neg) => Num::F32(
                    if neg {
                        0xff80_0000u32
                    } else {
                        0x7f80_0000u32
                    },
                ),
                FloatVal::Fin(neg, sig, exp) => if sig > 0 && single_holds(f64_val(b)) {
                    Num::F32(single_bits(neg, canon(sig, exp).0, canon(sig, exp).1))
                } else {
                    n
                },
                FloatVal::NaN => n,
            },
            _ => n,
        }
    }
}

proof fn lemma_canon_shift(s: nat, k: nat, e: int)
    requires
        s > 0,
    ensures
        canon(s * pow2(k), e - k) == canon(s, e),
    decreases k,
{
    lemma2_to64();
    if k > 0 {
        lemma_pow2_unfold(k);
        lemma_pow2_pos((k - 1) as nat);
        let t = s * pow2((k - 1) as nat);
        assert(s * pow2(k) == 2 * t) by (nonlinear_arith)
            requires pow2(k) == 2 * pow2((k - 1) as nat), t == s * pow2((k - 1) as nat);
        assert(t > 0) by (nonlinear_arith)
            requires s > 0, pow2((k - 1) as nat) > 0, t == s * pow2((k - 1) as nat);
        assert((2 * t) % 2 == 0 && (2 * t) / 2 == t);
        lemma_canon_shift(s, (k - 1) as nat, e);
        assert(e - k + 1 == e - (k - 1));
    } else {
        assert(s * pow2(0) == s);
    }
}

proof fn lemma_bit_len_range(x: nat, n: nat)
    requires
        n > 0,
        pow2((n - 1) as nat) <= x < pow2(n),
    ensures
        bit_len(x) == n,
    decreases n,
{
    lemma2_to64();
    lemma_pow2_unfold(n);
    if n > 1 {
        lemma_pow2_unfold((n - 1) as nat);
        lemma_bit_len_range(x / 2, (n - 1) as nat);
    } else {
        assert(x == 1);
        assert(bit_len(0) == 0);
    }
}

/// The single-precision bit pattern of a finite nonzero double value
/// `(-1)^neg * sig * 2^exp`, where a single holds it exactly.
fn narrow(neg: bool, sig: u64, exp: i64) -> (r: Option<u32>)
    requires
        sig > 0,
        sig < 0x20_0000_0000_0000,
        -2000 <= exp <= 2000,
    ensures
        match r {
            Some(c) => single_holds(FloatVal::Fin(neg, sig as nat, exp as int)) && (f32_val(
                c,
            ) matches FloatVal::Fin(n2, s2, e2) && n2 == neg && s2 > 0 && canon(s2, e2) == canon(
                sig as nat,
                exp as int,
            )) && c == single_bits(
                neg,
                canon(sig as nat, exp as int).0,
                canon(sig as nat, exp as int).1,
            ),
            None => !single_holds(FloatVal::Fin(neg, sig as nat, exp as int)),
        },
{
    proof {
        lemma2_to64();
    }
    let (s, e) = canon_exec(sig, exp);
    proof {
        lemma_canon_bounds(sig as nat, exp as int);
        lemma_canon_fixed(s as nat, e as int);
        assert(s * pow2(0) == s);
        assert(bit_len(s as nat) == bit_len(s as nat) + 0);
    }
    if s >= 0x100_0000 || e < -149 {
        return None;
    }
    let mut big: u64 = s;
    let mut k: u32 = 0;
    while big < 0x80_0000
        invariant
            0 < s < 0x100_0000,
            big == s * pow2(k as nat),
            0 < big < 0x100_0000,
            pow2(k as nat) <= big,
            k <= 24,
            bit_len(big as nat) == bit_len(s as nat) + k,
        decreases 0x100_0000 - big,
    {
        proof {
            lemma2_to64();
            if k >= 23 {
                if k > 23 {
                    vstd::arithmetic::power2::lemma_pow2_strictly_increases(23, k as nat);
                }
            }
            lemma_pow2_unfold((k + 1) as nat);
            assert(s * pow2((k + 1) as nat) == 2 * (s * pow2(k as nat))) by (nonlinear_arith)
                requires pow2((k + 1) as nat) == 2 * pow2(k as nat);
            assert((2 * big as nat) / 2 == big as nat);
        }
        big = big * 2;
        k = k + 1;
    }
    proof {
        lemma_bit_len_range(big as nat, 24);
    }
    let top: i128 = e - k as i128 + 150;
    if top > 254 {
        return None;
    }
    let sign: u32 = if neg {
        0x8000_0000
    } else {
        0
    };
    proof {
        assert(bit_len(s as nat) == 24 - k);
    }
    if top >= 1 {
        let bits: u32 = sign + (top as u32) * 0x80_0000 + (big as u32 - 0x80_0000);
        proof {
            assert((24 - bit_len(s as nat)) as nat == k as nat);
            lemma_canon_shift(s as nat, k as nat, e as int);
            assert(bits % 0x80_0000 == big - 0x80_0000) by (nonlinear_arith)
                requires bits == sign + (top as u32) * 0x80_0000 + (big - 0x80_0000), sign == 0 || sign == 0x8000_0000, 0 <= big - 0x80_0000 < 0x80_0000, 1 <= top <= 254;
            assert((bits / 0x80_0000) % 0x100 == top) by (nonlinear_arith)
                requires bits == sign + (top as u32) * 0x80_0000 + (big - 0x80_0000), sign == 0 || sign == 0x8000_0000, 0 <= big - 0x80_0000 < 0x80_0000, 1 <= top <= 254;
        }
        Some(bits)
    } else {
        let j: u32 = (e + 149) as u32;
        let mut small: u64 = s;
        let mut i: u32 = 0;
        while i < j
            invariant
                0 < s < 0x100_0000,
                j < k,
                i <= j,
                small == s * pow2(i as nat),
                small * pow2((k - i) as nat) == big,
                big < 0x100_0000,
            decreases j - i,
        {
            proof {
                lemma_pow2_unfold((i + 1) as nat);
                lemma_pow2_unfold((k - i) as nat);
                assert(s * pow2((i + 1) as nat) == 2 * (s * pow2(i as nat))) by (nonlinear_arith)
                    requires pow2((i + 1) as nat) == 2 * pow2(i as nat);
                assert(2 * small * pow2((k - i - 1) as nat) == big) by (nonlinear_arith)
                    requires small * pow2((k - i) as nat) == big, pow2((k - i) as nat) == 2 * pow2((k - i - 1) as nat);
                lemma_pow2_pos((k - i - 1) as nat);
                assert(2 * small <= big) by (nonlinear_arith)
                    requires 2 * small * pow2((k - i - 1) as nat) == big, pow2((k - i - 1) as nat) >= 1;
            }
            small = small * 2;
            i = i + 1;
        }
        proof {
            lemma_pow2_unfold((k - i) as nat);
            lemma_pow2_pos((k - i - 1) as nat);
            assert(2 * small <= big) by (nonlinear_arith)
                requires small * pow2((k - i) as nat) == big, pow2((k - i) as nat) == 2 * pow2((k - i - 1) as nat), pow2((k - i - 1) as nat) >= 1;
            lemma_canon_shift(s as nat, j as nat, e as int);
        }
        let bits: u32 = sign + small as u32;
        proof {
            assert((e + 149) as nat == j as nat);
        }
        Some(bits)
    }
}

proof fn lemma_canon_fixed(s: nat, e: int)
    requires
        s > 0,
        s % 2 == 1,
    ensures
        canon(s, e) == (s, e),
{
}

proof fn lemma_canon_bounds(sig: nat, exp: int)
    requires
        sig > 0,
    ensures
        0 < canon(sig, exp).0 <= sig,
        canon(sig, exp).0 % 2 == 1,
        exp <= canon(sig, exp).1 <= exp + sig,
    decreases sig,
{
    if sig % 2 == 0 {
        lemma_canon_bounds(sig / 2, exp + 1);
    }
}

impl Num {
    /// The number for the double with bit pattern `bits`, normalized: an
    /// integral value within the 64-bit range becomes an integer; else a
    /// value that a single-precision float holds exactly becomes that
    /// single; else the double stays.
    pub fn from_f64_bits(bits: u64) -> (r: Num)
        ensures
            r == wire_num(Num::F64(bits)),
            normalized(Num::F64(bits)) != Num::F64(bits) ==> r == normalized(Num::F64(bits)),
            normalized(Num::F64(bits)) == Num::F64(bits) && single_holds(f64_val(bits)) ==> (r is F32
                && num_eq(r, Num::F64(bits))),
            normalized(Num::F64(bits)) == Num::F64(bits) && !single_holds(f64_val(bits)) ==> r
                == Num::F64(bits),
    {
        let n = normalize(Num::F64(bits));
        if let Num::F64(_) = n {
            match f64_parts(bits) {
                FloatParts::Inf(neg) => {
                    let c: u32 = if neg {
                        0xff80_0000
                    } else {
                        0x7f80_0000
                    };
                    Num::F32(c)
                },
                FloatParts::Fin(neg, sig, exp) => {
                    if sig == 0 {
                        proof {
                            lemma_pow2_pos((-exp) as nat);
                            assert(scaled(0, exp as int) == 0);
                            assert(whole(0, exp as int));
                        }
                        n
                    } else {
                        match narrow(neg, sig, exp) {
                            Some(c) => Num::F32(c),
                            None => n,
                        }
                    }
                },
                FloatParts::NaN => n,
            }
        } else {
            n
        }
    }

    /// The number for the single with bit pattern `bits`, normalized: an
    /// integral value within the 64-bit range becomes an integer.
    pub fn from_f32_bits(bits: u32) -> (r: Num)
        ensures
            r == normalized(Num::F32(bits)),
            r == wire_num(Num::F32(bits)),
    {
        normalize(Num::F32(bits))
    }
}

} // verus!
