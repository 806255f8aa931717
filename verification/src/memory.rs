//! Sizes and owners of memory.

use vstd::prelude::*;

verus! {

/// The size of a page-table entry, in Bytes
pub const SIZE_8b: u64 = 0x8;

/// The size of a 4 KiB page
pub const SIZE_4KiB: u64 = 0x1000;

/// The size of a 2 MiB page
pub const SIZE_2MiB: u64 = 0x200000;

/// The size of a 1 GiB page
pub const SIZE_1GiB: u64 = 0x40000000;

/// The owner of a portion of memory
#[derive(Clone, Copy, PartialEq, Eq, Structural, Debug)]
pub enum MemoryOwner {
    Kernel,
    User,
}

} // verus!
