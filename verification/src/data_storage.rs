//! Where pages live when they are not in the buffer pool.
pub mod storage;
