//! A disk-backed storage engine: fixed-size pages behind a buffer pool, with a
//! B+-tree index, an extendible hash index and a heap list of tuples built on
//! top of it.

pub mod bitmap;
pub mod btree;
pub mod buffer;
pub mod catalog;
pub mod codec;
pub mod disk;
pub mod error;
pub mod hash_table;
pub mod page;
pub mod page_cache;
pub mod pair;
pub mod replacer;
pub mod storable;
pub mod table;
