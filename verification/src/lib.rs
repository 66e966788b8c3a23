//! The storage core of a log-structured merge-tree key-value engine: blocks,
//! sorted-string tables, the in-memory table, and the iterators that fuse
//! them into one sorted stream.

pub mod block;
pub mod error;
pub mod iterators;
pub mod key;
pub mod lsm_iterator;
pub mod lsm_storage;
pub mod mem_table;
pub mod table;
pub mod wire;
