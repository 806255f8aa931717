//! Paging structures of a 64-bit kernel: page-table entry bitmaps, page and
//! table types, the indexers used to walk page tables, a model of physical
//! memory holding the tables, and the tracing pages that keep track of the
//! dynamic allocations of each memory owner.

use vstd::prelude::*;

pub mod memory;
pub mod bitmap;
pub mod errors;
pub mod page;
pub mod tracing;
pub mod physmem;
pub mod table_type;
pub mod indexers;
pub mod table;
pub mod tables;
pub mod allocations;
pub mod search;
pub mod management;
pub mod utilities;
pub mod tty;
pub mod setup;

verus! {
} // verus!
