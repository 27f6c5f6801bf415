//! The layout of log records.
use vstd::prelude::*;

verus! {

/// The largest record type number.
pub const MAX_RECORD_TYPE: u8 = 4;

/// The size of a log block.
pub const BLOCK_SIZE: u64 = 32768;

/// A fragment header: a 4-byte checksum, a 2-byte length and the type.
pub const HEADER_SIZE: usize = 4 + 2 + 1;

/// Where a fragment lies in its record.
#[derive(PartialEq, Eq, Debug, Clone, Copy, Structural)]
pub enum RecordType {
    Zero,
    Full,
    First,
    Middle,
    Last,
}

/// The number written for a record type.
pub open spec fn record_type_code(t: RecordType) -> u8 {
    match t {
        RecordType::Zero => 0,
        RecordType::Full => 1,
        RecordType::First => 2,
        RecordType::Middle => 3,
        RecordType::Last => 4,
    }
}

impl RecordType {
    /// The number written for this record type.
    pub fn as_u8(&self) -> (r: u8)
        ensures
            r == record_type_code(*self),
    {
        match self {
            RecordType::Zero => 0,
            RecordType::Full => 1,
            RecordType::First => 2,
            RecordType::Middle => 3,
            RecordType::Last => 4,
        }
    }

    /// The record type numbered `value`; numbers past the last type are invalid.
    pub fn try_from_u8(value: u8) -> (r: Result<RecordType, &'static str>)
        ensures
            match r {
                Ok(t) => value <= MAX_RECORD_TYPE && record_type_code(t) == value,
                Err(msg) => value > MAX_RECORD_TYPE && msg@ == "Invalid record type"@,
            },
    {
        match value {
            0 => Ok(RecordType::Zero),
            1 => Ok(RecordType::Full),
            2 => Ok(RecordType::First),
            3 => Ok(RecordType::Middle),
            4 => Ok(RecordType::Last),
            _ => Err("Invalid record type"),
        }
    }

    /// The record type's name: "zero", "full", "first", "middle" or "last".
    pub fn to_string(&self) -> (r: String)
        ensures
            r@ == match *self {
                RecordType::Zero => "zero"@,
                RecordType::Full => "full"@,
                RecordType::First => "first"@,
                RecordType::Middle => "middle"@,
                RecordType::Last => "last"@,
            },
    {
        match self {
            RecordType::Zero => String::from_str("zero"),
            RecordType::Full => String::from_str("full"),
            RecordType::First => String::from_str("first"),
            RecordType::Middle => String::from_str("middle"),
            RecordType::Last => String::from_str("last"),
        }
    }
}

} // verus!
