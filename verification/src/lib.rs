//! A small paged storage engine: row serialization, slotted pages, a buffer
//! pool over a page store, and a B-tree index built from those pages.
pub mod codec;
pub mod representations;
pub mod buffer_pool;
pub mod serialization;
pub mod data_storage;
pub mod btree;
pub mod reader;
