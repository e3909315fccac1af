use vstd::prelude::*;

verus! {

/// Size in bytes of every persisted page.
pub const PAGE_SIZE: usize = 4096;

/// Number of slots in a data page's directory.
pub const MAX_SLOTS: usize = 255;

/// Identifier of a page; `0` names no page.
pub type PageId = u32;

/// Index of a record within a data page.
pub type SlotId = u8;

/// Write a changed header page of the free list to disk at once.
pub const FLUSH: bool = true;

/// Leave a changed header page of the free list in memory until the next flush.
pub const NO_FLUSH: bool = false;

} // verus!
