//! The key/value store that lives beside the index: the records of its
//! in-memory table and of its write-ahead log.

pub mod skip_list;
pub mod wal;
