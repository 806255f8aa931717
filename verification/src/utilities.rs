//! Choosing the pages that hold an allocation.

use vstd::prelude::*;
use crate::page::{PageType, page_size_of};

verus! {

/// A quarter of a page of 2 MiB
pub const SIZE_512KiB: u64 = 0x80000;

/// A quarter of a page of 1 GiB
pub const SIZE_256MiB: u64 = 0x10000000;

/// The type of the pages that hold an allocation of `size` Bytes: pages of
/// 4 KiB below 512 KiB, of 2 MiB below 256 MiB, of 1 GiB from then on
pub open spec fn suitable_page_type(size: u64) -> PageType {
    if size < SIZE_512KiB {
        PageType::FourKiB
    } else if size < SIZE_256MiB {
        PageType::TwoMiB
    } else {
        PageType::OneGiB
    }
}

/// The number of pages of the given type that hold `size` Bytes, the last
/// one possibly in part
pub open spec fn pages_needed(size: u64, t: PageType) -> u64 {
    let p = page_size_of(t);
    if size % p == 0 { size / p } else { (size / p + 1) as u64 }
}

/// Computes the type and the number of the pages to be used to allocate the
/// requested size
pub fn suitable_pages(target_size: u64) -> (r: (PageType, u64))
    ensures
        r.0 == suitable_page_type(target_size),
        r.1 == pages_needed(target_size, r.0),
        r.1 * page_size_of(r.0) >= target_size,
        r.1 * page_size_of(r.0) < target_size + page_size_of(r.0),
{
    let page_type = if target_size < SIZE_512KiB {
        PageType::FourKiB
    } else if target_size < SIZE_256MiB {
        PageType::TwoMiB
    } else {
        PageType::OneGiB
    };
    let page_size = page_type.size();
    let n = target_size / page_size;
    let n_pages = if target_size % page_size == 0 { n } else { n + 1 };
    proof {
        assert(page_size > 0);
        assert(target_size == page_size * n + target_size % page_size) by (nonlinear_arith)
            requires page_size > 0, n == target_size / page_size;
        assert((n + 1) * page_size == n * page_size + page_size) by (nonlinear_arith);
        assert(n * page_size == page_size * n) by (nonlinear_arith);
    }
    (page_type, n_pages)
}

} // verus!
