//! The shapes of byte sources and sinks that callers implement.

use vstd::prelude::*;
use crate::error::Error;

verus! {

/// A source of input that hands out one chunk at a time. A caller drives
/// an `OwnedDecoder` with it, passing `next_bytes_min` as the hint.
pub trait AsProducerSync {
    /// The next chunk, or `None` once the input has ended; `len_hint` is the
    /// least number of bytes that lets the decoder make progress.
    fn read_next(&mut self, len_hint: u32) -> Result<Option<&[u8]>, Error>;
}

/// A sink that takes bytes in order.
pub trait AsConsumerSync {
    /// Takes all of `data`.
    fn write(&mut self, data: &[u8]) -> Result<(), Error>;
}

} // verus!
