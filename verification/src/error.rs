use vstd::prelude::*;

verus! {

/// The largest uncompressed length that a block may declare.
pub const MAX_INPUT_SIZE: u64 = 0xFFFF_FFFF;

/// Why a compressed block was rejected.
#[derive(Clone, Copy, Debug, PartialEq, Eq, Structural)]
pub enum Error {
    /// The block is structurally invalid: a malformed length prefix, a bad
    /// tag, an offset or length out of bounds, input that ends too early,
    /// or output that does not match the declared length.
    Corrupt,
    /// The declared uncompressed length is larger than the format allows.
    TooBig {
        /// The length that was declared.
        given: u64,
        /// The largest length that is accepted.
        max: u64,
    },
}

} // verus!
