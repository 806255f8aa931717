//! Page types.

use vstd::prelude::*;
use crate::memory::{SIZE_4KiB, SIZE_2MiB, SIZE_1GiB};

verus! {

/// Represents the page size of a page
#[derive(Clone, Copy, PartialEq, Eq, Structural, Debug)]
pub enum PageType {
    OneGiB,
    TwoMiB,
    FourKiB,
}

/// The size in Bytes of a page of the given type
pub open spec fn page_size_of(t: PageType) -> u64 {
    match t {
        PageType::OneGiB => SIZE_1GiB,
        PageType::TwoMiB => SIZE_2MiB,
        PageType::FourKiB => SIZE_4KiB,
    }
}

impl PageType {
    /// Returns the size in Bytes of the page type
    pub fn size(&self) -> (r: u64)
        ensures
            r == page_size_of(*self),
    {
        match self {
            PageType::OneGiB => SIZE_1GiB,
            PageType::TwoMiB => SIZE_2MiB,
            PageType::FourKiB => SIZE_4KiB,
        }
    }
}

} // verus!
