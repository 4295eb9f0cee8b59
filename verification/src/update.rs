//! Updating an existing commitment by scalar deltas.

use crate::bytes::{CommitmentBytes, ScalarBytes};
use std::collections::HashMap;
use vstd::prelude::*;

verus! {

pub trait CommitUpdate {
    fn commit_update(&self, commitment: CommitmentBytes, delta: ScalarBytesDelta, index: u8) -> CommitmentBytes;

    fn commit_update_sparse(&self, commitment: CommitmentBytes, deltas: HashMap<u8, ScalarBytesDelta>) -> CommitmentBytes;
}

/// Data for a commitment update: a scalar changing from `previous` to
/// `current`.
#[derive(Clone, Copy, Debug)]
pub struct ScalarBytesDelta {
    current: ScalarBytes,
    previous: ScalarBytes,
}

} // verus!
