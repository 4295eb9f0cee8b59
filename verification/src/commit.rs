//! Committing to dense and sparse scalar vectors, over the plain byte-string
//! aliases.

use crate::bytes::{CommitmentBytes, ScalarBytes};
use std::collections::HashMap;
use vstd::prelude::*;

verus! {

pub trait Commit {
    fn commit(&self, values: Vec<ScalarBytes>) -> CommitmentBytes;

    fn commit_sparse(&self, values: HashMap<u8, ScalarBytes>) -> CommitmentBytes;
}

} // verus!
