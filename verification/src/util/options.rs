//! Options for building and reading tables.
use vstd::prelude::*;

verus! {

/// How a block is compressed in a table.
#[derive(Debug, Clone, Copy, PartialEq, Eq, Structural)]
pub enum CompressionType {
    NoCompression,
    SnappyCompression,
    ZstdCompression,
}

/// The compression type's number in a block trailer.
pub open spec fn compression_type_code(t: CompressionType) -> u8 {
    match t {
        CompressionType::NoCompression => 0,
        CompressionType::SnappyCompression => 1,
        CompressionType::ZstdCompression => 2,
    }
}

impl CompressionType {
    /// The compression type's number in a block trailer.
    pub fn as_u8(&self) -> (r: u8)
        ensures
            r == compression_type_code(*self),
    {
        match self {
            CompressionType::NoCompression => 0,
            CompressionType::SnappyCompression => 1,
            CompressionType::ZstdCompression => 2,
        }
    }

    /// The compression type numbered `value`; numbers past 2 are a bad block type.
    pub fn try_from_u8(value: u8) -> (r: Result<CompressionType, &'static str>)
        ensures
            match r {
                Ok(t) => value < 3 && compression_type_code(t) == value,
                Err(msg) => value >= 3 && msg@ == "bad block type"@,
            },
    {
        match value {
            0 => Ok(CompressionType::NoCompression),
            1 => Ok(CompressionType::SnappyCompression),
            2 => Ok(CompressionType::ZstdCompression),
            _ => Err("bad block type"),
        }
    }
}

/// The settings that shape the tables this engine writes. The comparator, the filter
/// policy and the block cache are handed to the parts that use them.
#[derive(Debug, Clone, Copy)]
pub struct Options {
    pub max_file_size: isize,
    pub block_restart_interval: isize,
    pub block_size: isize,
    pub compression: CompressionType,
    pub zstd_compression_level: i32,
    pub paranoid_checks: bool,
}

impl Default for Options {
    /// 4 MiB files, a restart point every 16 keys, 4 KiB blocks, snappy compression at
    /// zstd level 1, no paranoid checks.
    fn default() -> (r: Self)
        ensures
            r.max_file_size == 4 * 1024 * 1024,
            r.block_restart_interval == 16,
            r.block_size == 4 * 1024,
            r.compression == CompressionType::SnappyCompression,
            r.zstd_compression_level == 1,
            !r.paranoid_checks,
    {
        Options {
            max_file_size: 4 * 1024 * 1024,
            block_restart_interval: 16,
            block_size: 4 * 1024,
            compression: CompressionType::SnappyCompression,
            zstd_compression_level: 1,
            paranoid_checks: false,
        }
    }
}

} // verus!
