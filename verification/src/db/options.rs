//! Options for reads.
use vstd::prelude::*;

verus! {

/// Options that control a read.
#[derive(Debug, Default)]
pub struct ReadOptions {
    pub verify_checksums: bool,
    pub fill_cache: bool,
}

} // verus!
