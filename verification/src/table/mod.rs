pub mod compression;
pub mod format;
pub mod block;
pub mod block_builder;
pub mod block_roundtrip;
pub mod filter_block;
pub mod table_builder;
pub mod iterator_wrapper;
pub mod two_level_iterator;
pub mod table;
