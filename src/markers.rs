//! Named marker bytes of the MessagePack wire format.

use vstd::prelude::*;

verus! {

pub const C_FIXMAP0: u8 = 0x80;
pub const C_FIXARR0: u8 = 0x90;
pub const C_FIXSTR0: u8 = 0xa0;
pub const C_NIL: u8 = 0xc0;
/// Reserved byte: decoded as nil, never produced by the encoder.
pub const C_RES: u8 = 0xc1;
pub const C_FALSE: u8 = 0xc2;
pub const C_TRUE: u8 = 0xc3;
pub const C_BIN8: u8 = 0xc4;
pub const C_BIN16: u8 = 0xc5;
pub const C_BIN32: u8 = 0xc6;
pub const C_EXT8: u8 = 0xc7;
pub const C_EXT16: u8 = 0xc8;
pub const C_EXT32: u8 = 0xc9;
pub const C_F32: u8 = 0xca;
pub const C_F64: u8 = 0xcb;
pub const C_U8: u8 = 0xcc;
pub const C_U16: u8 = 0xcd;
pub const C_U32: u8 = 0xce;
pub const C_U64: u8 = 0xcf;
pub const C_I8: u8 = 0xd0;
pub const C_I16: u8 = 0xd1;
pub const C_I32: u8 = 0xd2;
pub const C_I64: u8 = 0xd3;
pub const C_FIXEXT1: u8 = 0xd4;
pub const C_FIXEXT2: u8 = 0xd5;
pub const C_FIXEXT4: u8 = 0xd6;
pub const C_FIXEXT8: u8 = 0xd7;
pub const C_FIXEXT16: u8 = 0xd8;
pub const C_STR8: u8 = 0xd9;
pub const C_STR16: u8 = 0xda;
pub const C_STR32: u8 = 0xdb;
pub const C_ARR16: u8 = 0xdc;
pub const C_ARR32: u8 = 0xdd;
pub const C_MAP16: u8 = 0xde;
pub const C_MAP32: u8 = 0xdf;

} // verus!
