//! Errors of the storage engine.
use vstd::prelude::*;

verus! {

#[verifier::external_type_specification]
#[verifier::external_body]
pub struct ExIoError(std::io::Error);

/// What went wrong.
#[derive(Debug)]
pub enum DbError {
    NotFound(String),
    Corruption(String),
    NotSupported(String),
    InvalidArgument(String),
    IOError(std::io::Error),
}

/// `Err(DbError::Corruption(..))` carrying the text `msg`.
pub open spec fn is_corruption<T>(r: Result<T, DbError>, msg: Seq<char>) -> bool {
    r matches Err(DbError::Corruption(m)) && m@ == msg
}

/// A corruption error carrying `msg`.
pub fn corruption(msg: &str) -> (r: DbError)
    ensures
        r matches DbError::Corruption(m) && m@ == msg@,
{
    DbError::Corruption(String::from_str(msg))
}

} // verus!
