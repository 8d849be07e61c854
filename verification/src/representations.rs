//! Byte-level representations of tuples and pages, and searches over them.
pub mod tuple;
pub mod page;
pub mod search;
