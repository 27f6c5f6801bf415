pub mod dbformat;
pub mod error;
pub mod iterator;
pub mod wal;
pub mod options;
pub mod memtable;
pub mod skiplist;
pub mod sorted_pairs;
pub mod version_edit;
pub mod edit_roundtrip;
