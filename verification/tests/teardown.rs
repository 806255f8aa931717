use std::cell::RefCell;

use lib::bitmap::{init_address_masks, PS_BIT, P_BIT, RW_BIT, SU_BIT};
use lib::errors::PagingError;
use lib::management::clean::cleanup_unused_pages;
use lib::management::map::{MapAnswer, MapRequest};
use lib::management::create::init_paging_structure;
use lib::management::delete::{delete_paging_structure, tear_down_paging_structure};
use lib::memory::MemoryOwner;
use lib::page::PageType;
use lib::physmem::PhysicalMemory;
use lib::table::PageTable;
use lib::tracing::pages::TracingPages;

const FLAGS: u64 = RW_BIT | P_BIT;
const HUGE: u64 = PS_BIT | RW_BIT | P_BIT;

/// A kernel structure: the PDPT at 0x20000 maps a 1 GiB page at its offset 8
/// and the PDT at 0x30000 at its offset 0x10; the PDT maps a 2 MiB page at its
/// offset 8 and the PT at 0x40000 at its offset 0x10; the PT maps a 4 KiB page
/// at its offset 8
fn structure() -> (PageTable, PhysicalMemory) {
    let mut mem = PhysicalMemory::new();
    mem.write(0x10008, 0x20000 | FLAGS);
    mem.write(0x20008, 0x4000_0000 | HUGE);
    mem.write(0x20010, 0x30000 | FLAGS);
    mem.write(0x30008, 0x20_0000 | HUGE);
    mem.write(0x30010, 0x40000 | FLAGS);
    mem.write(0x40008, 0x9000 | FLAGS);
    (PageTable::pml4t(0x10000, MemoryOwner::Kernel), mem)
}

/// The free space of the three pages in the tracing pages
fn traced() -> TracingPages {
    let mut tracing = TracingPages::new();
    assert!(tracing.insert_available_space(0x4000_0000, 0x80_4000_0000, 0x4000_0000).is_ok());
    assert!(tracing.insert_available_space(0x20_0000, 0x80_8000_0000, 0x20_0000).is_ok());
    assert!(tracing.insert_available_space(0x9000, 0x80_9000_0000, 0x1000).is_ok());
    assert_eq!(tracing.pages[0].size(), 3);
    tracing
}

#[test]
fn tear_down_whole_structure() {
    let (pml4t, mut mem) = structure();
    let masks = init_address_masks(40);
    let (r, releases) = tear_down_paging_structure(pml4t, &mut mem, &masks);
    assert_eq!(r, Ok(()));
    assert_eq!(
        releases,
        vec![
            (0x4000_0000, PageType::OneGiB),
            (0x20_0000, PageType::TwoMiB),
            (0x9000, PageType::FourKiB),
            (0x40000, PageType::FourKiB),
            (0x30000, PageType::FourKiB),
            (0x20000, PageType::FourKiB),
            (0x10000, PageType::FourKiB),
        ]
    );
    assert_eq!(mem.read(0x10008), 0);
    assert_eq!(mem.read(0x20010), 0);
    assert_eq!(mem.read(0x30010), 0);
    assert_eq!(mem.read(0x40008), 0);
    // huge pages are given back but their entries stay
    assert_eq!(mem.read(0x20008), 0x4000_0000 | HUGE);
    assert_eq!(mem.read(0x30008), 0x20_0000 | HUGE);
}

#[test]
fn tear_down_empty_structure_gives_back_the_pml4t() {
    let mut mem = PhysicalMemory::new();
    let masks = init_address_masks(40);
    let (r, releases) = tear_down_paging_structure(PageTable::pml4t(0x10000, MemoryOwner::Kernel), &mut mem, &masks);
    assert_eq!(r, Ok(()));
    assert_eq!(releases, vec![(0x10000, PageType::FourKiB)]);
}

#[test]
fn fail_tear_down_huge_pml4t_entry() {
    let mut mem = PhysicalMemory::new();
    mem.write(0x10000, 0x4000_0000 | HUGE);
    let masks = init_address_masks(40);
    let (r, releases) = tear_down_paging_structure(PageTable::pml4t(0x10000, MemoryOwner::Kernel), &mut mem, &masks);
    assert_eq!(r, Err(PagingError::InvalidRequest));
    assert!(releases.is_empty());
}

#[test]
fn delete_whole_structure_gives_back_every_frame() {
    let (pml4t, mut mem) = structure();
    let masks = init_address_masks(40);
    let asked = RefCell::new(Vec::new());
    let map = |q: MapRequest| {
        asked.borrow_mut().push(q);
        MapAnswer::Yes
    };
    assert_eq!(delete_paging_structure(pml4t, &mut mem, &masks, &map), Ok(()));
    assert_eq!(asked.borrow().len(), 7);
    assert_eq!(asked.borrow()[0], MapRequest::Release(0x4000_0000, PageType::OneGiB));
    assert_eq!(asked.borrow()[6], MapRequest::Release(0x10000, PageType::FourKiB));
    assert_eq!(mem.read(0x10008), 0);
}

#[test]
fn delete_structure_with_a_frame_not_taken_back() {
    let (pml4t, mut mem) = structure();
    let masks = init_address_masks(40);
    let asked = RefCell::new(Vec::new());
    let map = |q: MapRequest| {
        asked.borrow_mut().push(q);
        if q == MapRequest::Release(0x9000, PageType::FourKiB) { MapAnswer::Failed } else { MapAnswer::Yes }
    };
    assert_eq!(delete_paging_structure(pml4t, &mut mem, &masks, &map), Err(PagingError::DeallocationFailure));
    // every other frame is still given back
    assert_eq!(asked.borrow().len(), 7);
}

#[test]
fn delete_structure_with_an_unreachable_table_gives_back_what_was_listed() {
    let mut mem = PhysicalMemory::new();
    mem.write(0x10000, 0x20000 | FLAGS);
    mem.write(0x10008, 0x4000_0000 | HUGE);
    let masks = init_address_masks(40);
    let asked = RefCell::new(Vec::new());
    let map = |q: MapRequest| {
        asked.borrow_mut().push(q);
        MapAnswer::Failed
    };
    let r = delete_paging_structure(PageTable::pml4t(0x10000, MemoryOwner::Kernel), &mut mem, &masks, &map);
    assert_eq!(r, Err(PagingError::InvalidRequest));
    assert_eq!(*asked.borrow(), vec![MapRequest::Release(0x20000, PageType::FourKiB)]);
}

#[test]
fn cleanup_gives_back_free_pages_and_tables() {
    let (pml4t, mut mem) = structure();
    let masks = init_address_masks(40);
    let mut tracing = traced();
    let asked = RefCell::new(Vec::new());
    let map = |q: MapRequest| {
        asked.borrow_mut().push(q);
        MapAnswer::Yes
    };
    assert_eq!(cleanup_unused_pages(pml4t, &mut mem, &masks, &mut tracing, &map), Ok(()));
    assert_eq!(
        *asked.borrow(),
        vec![
            MapRequest::HasSpace(0x9000, PageType::FourKiB),
            MapRequest::Release(0x9000, PageType::FourKiB),
            MapRequest::Release(0x40000, PageType::FourKiB),
            MapRequest::HasSpace(0x20_0000, PageType::TwoMiB),
            MapRequest::Release(0x20_0000, PageType::TwoMiB),
            MapRequest::Release(0x30000, PageType::FourKiB),
            MapRequest::HasSpace(0x4000_0000, PageType::OneGiB),
            MapRequest::Release(0x4000_0000, PageType::OneGiB),
            MapRequest::Release(0x20000, PageType::FourKiB),
        ]
    );
    for entry in [0x10008, 0x20008, 0x20010, 0x30008, 0x30010, 0x40008] {
        assert_eq!(mem.read(entry), 0);
    }
    assert!(tracing.pages[0].is_empty());
}

#[test]
fn cleanup_keeps_tables_of_pages_in_use() {
    let (pml4t, mut mem) = structure();
    let masks = init_address_masks(40);
    let mut tracing = traced();
    let map = |q: MapRequest| match q {
        MapRequest::HasSpace(_, PageType::TwoMiB) => MapAnswer::No,
        _ => MapAnswer::Yes,
    };
    assert_eq!(cleanup_unused_pages(pml4t, &mut mem, &masks, &mut tracing, &map), Ok(()));
    // the 4 KiB page and its PT are gone
    assert_eq!(mem.read(0x40008), 0);
    assert_eq!(mem.read(0x30010), 0);
    // the 2 MiB page keeps the PDT, the PDPT and the PML4T entry
    assert_eq!(mem.read(0x30008), 0x20_0000 | HUGE);
    assert_eq!(mem.read(0x20010), 0x30000 | FLAGS);
    assert_eq!(mem.read(0x10008), 0x20000 | FLAGS);
    // the 1 GiB page is gone
    assert_eq!(mem.read(0x20008), 0);
    assert_eq!(tracing.pages[0].size(), 1);
    assert_eq!(tracing.pages[0].entry_at(0).lower_paddr(), 0x20_0000);
}

#[test]
fn fail_cleanup_when_a_release_fails() {
    let (pml4t, mut mem) = structure();
    let masks = init_address_masks(40);
    let mut tracing = traced();
    let map = |q: MapRequest| match q {
        MapRequest::Release(0x9000, _) => MapAnswer::Failed,
        _ => MapAnswer::Yes,
    };
    assert_eq!(cleanup_unused_pages(pml4t, &mut mem, &masks, &mut tracing, &map), Err(PagingError::CleanupFailure));
    // the page that failed keeps its entry and its space, but the walk went on
    assert_eq!(mem.read(0x40008), 0x9000 | FLAGS);
    assert_eq!(tracing.pages[0].size(), 1);
    assert_eq!(tracing.pages[0].entry_at(0).lower_paddr(), 0x9000);
    // the tables leading to the page that stays mapped are kept
    assert_eq!(mem.read(0x30010), 0x40000 | FLAGS);
    assert_eq!(mem.read(0x20010), 0x30000 | FLAGS);
    assert_eq!(mem.read(0x10008), 0x20000 | FLAGS);
    // the others pages are gone
    assert_eq!(mem.read(0x30008), 0);
    assert_eq!(mem.read(0x20008), 0);
}

#[test]
fn cleanup_visits_the_entries_from_the_last_down_to_the_first() {
    let mut mem = PhysicalMemory::new();
    mem.write(0x10008, 0x20000 | FLAGS);
    mem.write(0x20000, 0x4000_0000 | HUGE);
    mem.write(0x20FE8, 0x8000_0000 | HUGE);
    let masks = init_address_masks(40);
    let mut tracing = TracingPages::new();
    assert!(tracing.insert_available_space(0x4000_0000, 0x80_0000_0000, 0x4000_0000).is_ok());
    assert!(tracing.insert_available_space(0x8000_0000, 0x80_4000_0000, 0x4000_0000).is_ok());
    let asked = RefCell::new(Vec::new());
    let map = |q: MapRequest| {
        asked.borrow_mut().push(q);
        MapAnswer::Yes
    };
    let pml4t = PageTable::pml4t(0x10000, MemoryOwner::Kernel);
    assert_eq!(cleanup_unused_pages(pml4t, &mut mem, &masks, &mut tracing, &map), Ok(()));
    // the higher page first, then the one of the first entry
    assert_eq!(asked.borrow()[0], MapRequest::HasSpace(0x8000_0000, PageType::OneGiB));
    assert_eq!(asked.borrow()[2], MapRequest::HasSpace(0x4000_0000, PageType::OneGiB));
    assert_eq!(mem.read(0x20000), 0);
    assert_eq!(mem.read(0x20FE8), 0);
    assert_eq!(mem.read(0x10008), 0);
}

#[test]
fn init_paging_structure_links_the_first_tables() {
    let mut mem = PhysicalMemory::new();
    mem.write(0x10000 + 0x800, 0xDEAD);
    let tracing = init_paging_structure(0x10000, 0x60_0000, 0x80_0000, 4, MemoryOwner::User, &mut mem);
    assert_eq!(tracing.len(), 1);
    assert!(tracing.pages[0].is_empty());
    let flags = SU_BIT | RW_BIT | P_BIT;
    // tables are zeroed first
    assert_eq!(mem.read(0x10000 + 0x800), 0);
    // process tables
    assert_eq!(mem.read(0x10000), 0x11000 | flags);
    assert_eq!(mem.read(0x11000), 0x12000 | flags);
    assert_eq!(mem.read(0x12000), 0x13000 | flags);
    // stack tables
    assert_eq!(mem.read(0x10FF8), 0x14000 | flags);
    assert_eq!(mem.read(0x14FF8), 0x16000 | flags);
    // each stack page has its own PDT entry, a huge page
    for k in 0..4u64 {
        assert_eq!(mem.read(0x16000 + 0x7F0 + 8 * k), (0x80_0000 + k * 0x20_0000) | PS_BIT | flags);
    }
    assert_eq!(mem.read(0x16000), 0);
    // tracing tables, owned by the kernel
    assert_eq!(mem.read(0x14000), 0x15000 | RW_BIT | P_BIT);
    assert_eq!(mem.read(0x15000), 0x60_0000 | PS_BIT | RW_BIT | P_BIT);
}
