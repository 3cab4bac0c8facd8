//! An in-memory LZO1X-1 codec: `compress_to_slice` turns a byte slice into an
//! LZO1X-1 stream, and `decompress_to_slice` recovers the original bytes from
//! such a stream.
//!
//! Both directions are specified exactly: `spec_compress` and
//! `spec_decompress` define, byte for byte, the stream the encoder produces
//! and the data (or typed error) the decoder returns, and the executable
//! functions are verified to return precisely those values.

use vstd::prelude::*;

pub mod compress;
pub mod decompress;
pub mod laws;

pub use compress::compress_to_slice;
pub use decompress::decompress_to_slice;

verus! {

/// Decompression error type.
#[derive(Debug, Clone, Copy, PartialEq, Eq, Structural)]
pub enum Error {
    /// Input does not have the correct format.
    Format,
    /// Reached end of input buffer but expected more input.
    InputOverrun,
    /// Output buffer was not large enough.
    OutputOverrun,
    /// Input buffer was not entirely consumed.
    InputNotConsumed,
}

/// Upper bound on the size of a compressed stream, as a function of the
/// input size: `n + n/16 + 64 + 3`.
pub open spec fn spec_worst_compress(n: int) -> int {
    n + n / 16 + 64 + 3
}

/// Computes the worst case compressed size for the given input `size`,
/// which must be small enough for the result to fit in `usize`.
pub fn worst_compress(size: usize) -> (r: usize)
    requires
        spec_worst_compress(size as int) <= usize::MAX,
    ensures
        r == spec_worst_compress(size as int),
{
    size + size / 16 + 64 + 3
}

} // verus!
