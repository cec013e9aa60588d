//! A page-oriented storage engine: fixed-size pages in one flat file image,
//! a bounded page cache with LRU eviction, and a B+Tree index over the pages.
pub mod b_plus_tree;
pub mod buffer_pool;
pub mod codec;
pub mod error;
pub mod page;
pub mod record;
pub mod storage_engine;
