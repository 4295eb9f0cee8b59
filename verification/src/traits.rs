//! What a cryptographic context offers to the byte-level callers: committing
//! to scalar vectors and updating existing commitments.

use crate::types::{CommitmentBytes, ScalarBytes, ScalarEdit};
use vstd::prelude::*;

verus! {

pub trait Committable {
    fn commit(&self, values: Vec<ScalarBytes>) -> CommitmentBytes;

    fn commit_sparse(&self, values: Vec<(ScalarBytes, u8)>) -> CommitmentBytes;
}

pub trait Updatable {
    fn update(&self, commitment: CommitmentBytes, value: ScalarEdit) -> CommitmentBytes;

    fn update_sparse(&self, commitment: CommitmentBytes, values: Vec<ScalarEdit>) -> CommitmentBytes;
}

} // verus!
