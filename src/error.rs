use vstd::prelude::*;

verus! {

/// The failures of the storage engine, the buffer pool and the index.
#[derive(Debug, Clone, Copy, PartialEq, Eq, Structural)]
pub enum Error {
    /// A region of the file lies outside what the file holds or can hold.
    IO,
    /// The bytes of a page do not decode.
    CorruptPage,
    /// A page's encoding is this many bytes, more than a page holds.
    PageSizeExceeded(usize),
    /// Every resident page of the buffer pool is pinned.
    NoEvictablePage,
    /// The key is not in the index.
    KeyNotFound,
}

} // verus!
