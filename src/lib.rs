//! MessagePack encoding and decoding.
//!
//! - `decode`: a resumable, allocation-free token decoder. It is specified
//!   by a byte-at-a-time machine (`step`, folded by `run`); every call of
//!   `TokenIter::next` is proved to yield exactly what that machine yields
//!   over the bytes it consumed, and feeding input in any split gives the
//!   same tokens (`law_chunk_invariance`).
//! - `encode`: shortest-form headers for every kind of item.
//! - `num`: numbers, with floats held as IEEE-754 bit patterns, exact
//!   conversions to integer types, and value equality across variants.
//! - `value`: owned and borrowed value trees, built from tokens under a
//!   depth bound and encoded back to bytes.
//! - `owned`: joins the pieces of payloads split across input chunks.
//! - `stream`: the shapes of caller-implemented byte sources and sinks.
//! - `laws`, `roundtrip`: shortest encoding, the reserved marker, and that
//!   decoding an encoding gives the value back.

pub mod markers;
pub mod encode;
pub mod num;
pub mod decode;
pub mod error;
pub mod value;
pub mod owned;
pub mod laws;
pub mod roundtrip;
pub mod stream;
