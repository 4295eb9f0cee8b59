//! The byte-string value types shared with the sibling commitment
//! operations, as owned fixed-width structs.

use vstd::prelude::*;

verus! {

/// A serialized uncompressed group element
#[derive(Clone, Copy, Debug)]
pub struct CommitmentBytes(pub(crate) [u8; 64]);

#[derive(Clone, Copy, Debug)]
pub struct CommitmentBytesCompressed(pub(crate) [u8; 32]);

/// A serialized scalar field element.
/// It is at most 32 bytes, little-endian. A value with fewer bytes is equal
/// to its zero right padded counterpart.
#[derive(Clone, Copy, Debug)]
pub struct ScalarBytes(pub(crate) [u8; 32]);

/// Data for a commitment update: the scalar at `index` changes from
/// `previous` to `current`.
#[derive(Clone, Copy, Debug)]
pub struct ScalarEdit {
    pub index: u8,
    pub previous: ScalarBytes,
    pub current: ScalarBytes,
}

} // verus!
