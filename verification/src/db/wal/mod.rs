//! The write-ahead log: records split into fragments that never straddle a 32 KiB block.
pub mod format;
pub mod reader;
pub mod writer;
pub mod log_law;

use crate::util::text::{format_log_file_name, log_file_name};
use vstd::prelude::*;

verus! {

/// The file name of log number `log_number`: at least six decimal digits, then `.log`.
pub fn make_log_file_name(log_number: u64) -> (r: String)
    ensures
        r@ == log_file_name(log_number),
{
    format_log_file_name(log_number)
}

} // verus!
