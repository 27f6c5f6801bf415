pub mod bytes;
pub mod coding;
pub mod comparator;
pub mod text;
pub mod options;
pub mod filter_policy;
pub mod hash;
pub mod random;
pub mod crc;
pub mod cache;
pub mod testutil;
