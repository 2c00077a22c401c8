//! Where a pool gets its blocks of memory from.
use vstd::prelude::*;

verus! {

/// One call a pool made on its block source: a `page_size` query that
/// answered `page`, a `map` of `size` bytes that returned `base`, or an
/// `unmap` of the block at `ptr` of `size` bytes.
pub enum SourceCall {
    PageSize { page: usize },
    Mapped { size: usize, base: usize },
    Unmapped { ptr: usize, size: usize },
}

/// Supplies and releases raw blocks of memory for a `Pool`.
///
/// Addresses are plain integers: 0 stands for the null pointer.
/// Implementations must return a block that is readable and writable.
pub trait BlockSource {
    /// Reserves or maps `size` bytes and returns the base address.
    ///
    /// The returned address must be the one later handed to `unmap`. The
    /// address 0 means the backend could not provide memory.
    fn map(&mut self, size: usize) -> usize;

    /// Releases a block previously returned by `map`, given its base
    /// address and the size originally requested.
    fn unmap(&mut self, ptr: usize, size: usize);

    /// Returns the platform allocation granularity used for block growth.
    fn page_size(&self) -> usize;
}

} // verus!
