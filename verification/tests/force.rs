use std::cell::RefCell;

use lib::bitmap::{init_address_masks, Bitmap, PS_BIT, P_BIT, RW_BIT};
use lib::errors::PagingError;
use lib::management::force::{book_kernel_allocations_space, force_insert_pages, insert_page, insert_pages};
use lib::management::map::{MapAnswer, MapRequest};
use lib::memory::MemoryOwner;
use lib::page::PageType;
use lib::physmem::PhysicalMemory;
use lib::table::PageTable;
use lib::tracing::pages::TracingPages;

const PML4T: u64 = 0x10000;
const FIRST_LADDR: u64 = 0x80_0000_0000;

/// A memory map handing out table frames from 0x20000 on, one every 0x10000
/// Bytes once taken, and ranges of pages at 0x60_0000
struct Frames {
    next_table: RefCell<u64>,
    asked: RefCell<Vec<MapRequest>>,
}

impl Frames {
    fn new() -> Self {
        Frames { next_table: RefCell::new(0x20000), asked: RefCell::new(Vec::new()) }
    }

    fn answer(&self, q: MapRequest) -> MapAnswer {
        self.asked.borrow_mut().push(q);
        match q {
            MapRequest::FindAvailable(_) => MapAnswer::Found(*self.next_table.borrow()),
            MapRequest::Acquire(_, _) => {
                *self.next_table.borrow_mut() += 0x10000;
                MapAnswer::Yes
            },
            MapRequest::FindRange(_, _) => MapAnswer::Found(0x60_0000),
            _ => MapAnswer::Yes,
        }
    }
}

fn huge_kernel_flags() -> Bitmap {
    Bitmap::default_kernel().with_bits(PS_BIT)
}

#[test]
fn insert_pages_without_tables_finds_no_slot() {
    let mut mem = PhysicalMemory::new();
    let masks = init_address_masks(40);
    let mut tracing = TracingPages::new();
    let frames = Frames::new();
    let map = |q: MapRequest| frames.answer(q);
    let pml4t = PageTable::pml4t(PML4T, MemoryOwner::Kernel);
    let r = insert_pages(PageType::TwoMiB, 1, huge_kernel_flags(), pml4t, &mut mem, &masks, &mut tracing, &map);
    assert_eq!(r, Ok(None));
    assert!(frames.asked.borrow().is_empty());
    assert_eq!(insert_page(PageType::TwoMiB, huge_kernel_flags(), pml4t, &mut mem, &masks, &mut tracing, &map), Ok(None));
}

#[test]
fn force_insert_pages_creates_the_tables() {
    let mut mem = PhysicalMemory::new();
    let masks = init_address_masks(40);
    let mut tracing = TracingPages::new();
    let frames = Frames::new();
    let map = |q: MapRequest| frames.answer(q);
    let pml4t = PageTable::pml4t(PML4T, MemoryOwner::Kernel);
    let r = force_insert_pages(PageType::TwoMiB, 1, huge_kernel_flags(), pml4t, &mut mem, &masks, &mut tracing, &map);
    assert_eq!(r, Ok((0x60_0000, FIRST_LADDR)));
    assert_eq!(
        *frames.asked.borrow(),
        vec![
            // no PDPT holds a slot for a PDT: a PDPT is made
            MapRequest::FindAvailable(PageType::FourKiB),
            MapRequest::FindAvailable(PageType::FourKiB),
            MapRequest::Acquire(0x20000, PageType::FourKiB),
            // then the PDT in it
            MapRequest::FindAvailable(PageType::FourKiB),
            MapRequest::Acquire(0x30000, PageType::FourKiB),
            // then the page
            MapRequest::FindRange(PageType::TwoMiB, 1),
            MapRequest::AcquireRange(0x60_0000, PageType::TwoMiB, 1),
        ]
    );
    assert_eq!(mem.read(PML4T + 8), 0x20000 | RW_BIT | P_BIT);
    assert_eq!(mem.read(0x20000), 0x30000 | RW_BIT | P_BIT);
    assert_eq!(mem.read(0x30000), 0x60_0000 | PS_BIT | RW_BIT | P_BIT);
    let md = tracing.pages[0].entry_at(0);
    assert!(md.is_free());
    assert_eq!((md.lower_paddr(), md.lower_laddr(), md.size()), (0x60_0000, FIRST_LADDR, 0x20_0000));
    // the next page finds the table made for the first one
    let r = insert_pages(PageType::TwoMiB, 1, huge_kernel_flags(), pml4t, &mut mem, &masks, &mut tracing, &map);
    assert_eq!(r, Ok(Some((0x60_0000, FIRST_LADDR + 0x20_0000))));
}

#[test]
fn book_kernel_allocations_space_books_one_huge_page() {
    let mut mem = PhysicalMemory::new();
    let masks = init_address_masks(40);
    let mut tracing = TracingPages::new();
    let frames = Frames::new();
    let map = |q: MapRequest| frames.answer(q);
    let pml4t = PageTable::pml4t(PML4T, MemoryOwner::Kernel);
    assert_eq!(book_kernel_allocations_space(pml4t, &mut mem, &masks, &mut tracing, &map), Ok((0x60_0000, FIRST_LADDR)));
}

#[test]
fn fail_force_insert_pages_without_frames() {
    let mut mem = PhysicalMemory::new();
    let masks = init_address_masks(40);
    let mut tracing = TracingPages::new();
    let map = |q: MapRequest| match q {
        MapRequest::FindAvailable(_) => MapAnswer::No,
        _ => MapAnswer::Yes,
    };
    let pml4t = PageTable::pml4t(PML4T, MemoryOwner::Kernel);
    let r = force_insert_pages(PageType::TwoMiB, 1, huge_kernel_flags(), pml4t, &mut mem, &masks, &mut tracing, &map);
    assert_eq!(r, Err(PagingError::NoSpaceAvailable));
    assert_eq!(mem.read(PML4T + 8), 0);
}

#[test]
fn fail_force_insert_pages_when_a_table_cannot_be_taken() {
    let mut mem = PhysicalMemory::new();
    let masks = init_address_masks(40);
    let mut tracing = TracingPages::new();
    let map = |q: MapRequest| match q {
        MapRequest::FindAvailable(_) => MapAnswer::Found(0x20000),
        MapRequest::Acquire(_, _) => MapAnswer::Failed,
        _ => MapAnswer::Yes,
    };
    let pml4t = PageTable::pml4t(PML4T, MemoryOwner::Kernel);
    let r = force_insert_pages(PageType::TwoMiB, 1, huge_kernel_flags(), pml4t, &mut mem, &masks, &mut tracing, &map);
    assert_eq!(r, Err(PagingError::AllocationFailure));
}

#[test]
fn fail_insert_pages_when_the_range_cannot_be_taken() {
    let mut mem = PhysicalMemory::new();
    let masks = init_address_masks(40);
    let mut tracing = TracingPages::new();
    let frames = Frames::new();
    let map = |q: MapRequest| frames.answer(q);
    let pml4t = PageTable::pml4t(PML4T, MemoryOwner::Kernel);
    assert!(force_insert_pages(PageType::TwoMiB, 1, huge_kernel_flags(), pml4t, &mut mem, &masks, &mut tracing, &map).is_ok());
    let refusing = |q: MapRequest| match q {
        MapRequest::AcquireRange(_, _, _) => MapAnswer::Failed,
        other => frames.answer(other),
    };
    let r = insert_pages(PageType::TwoMiB, 1, huge_kernel_flags(), pml4t, &mut mem, &masks, &mut tracing, &refusing);
    assert_eq!(r, Err(PagingError::AllocationFailure));
    let no_range = |q: MapRequest| match q {
        MapRequest::FindRange(_, _) => MapAnswer::No,
        other => frames.answer(other),
    };
    let r = insert_pages(PageType::TwoMiB, 1, huge_kernel_flags(), pml4t, &mut mem, &masks, &mut tracing, &no_range);
    assert_eq!(r, Err(PagingError::NoSpaceAvailable));
}
