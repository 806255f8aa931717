use std::cell::RefCell;

use lib::bitmap::{init_address_masks, PS_BIT, P_BIT, RW_BIT};
use lib::errors::PagingError;
use lib::management::map::{MapAnswer, MapRequest};
use lib::memory::MemoryOwner;
use lib::page::PageType;
use lib::physmem::PhysicalMemory;
use lib::table::PageTable;
use lib::tracing::tables::{append_tracing_page, create_tracing_page, delete_tracing_page};

const FLAGS: u64 = RW_BIT | P_BIT;
const TRACE_FLAGS: u64 = RW_BIT | P_BIT | PS_BIT;

/// The kernel tracing tables: the last PML4T entry points to the PDPT at
/// 0x20000, whose first entry points to the PDT at 0x30000, whose first entry
/// maps the tracing page at 0x60_0000
fn tracing_tables() -> (PageTable, PhysicalMemory) {
    let mut mem = PhysicalMemory::new();
    mem.write(0x10FF8, 0x20000 | FLAGS);
    mem.write(0x20000, 0x30000 | FLAGS);
    mem.write(0x30000, 0x60_0000 | TRACE_FLAGS);
    (PageTable::pml4t(0x10000, MemoryOwner::Kernel), mem)
}

#[test]
fn append_tracing_page_takes_the_first_free_slot() {
    let (pml4t, mut mem) = tracing_tables();
    let masks = init_address_masks(40);
    let asked = RefCell::new(Vec::new());
    let map = |q: MapRequest| {
        asked.borrow_mut().push(q);
        MapAnswer::Yes
    };
    let e = append_tracing_page(0x80_0000, pml4t, &mut mem, &masks, &map).unwrap();
    assert_eq!(e.address_in_table(), 0x30008);
    assert_eq!(mem.read(0x30008), 0x80_0000 | TRACE_FLAGS);
    assert!(asked.borrow().is_empty());
}

#[test]
fn append_tracing_page_creates_a_table_when_full() {
    let (pml4t, mut mem) = tracing_tables();
    for k in 0..512u64 {
        mem.write(0x30000 + 8 * k, (0x60_0000 + 0x20_0000 * k) | TRACE_FLAGS);
    }
    let masks = init_address_masks(40);
    let asked = RefCell::new(Vec::new());
    let map = |q: MapRequest| {
        asked.borrow_mut().push(q);
        match q {
            MapRequest::FindAvailable(_) => MapAnswer::Found(0x40000),
            _ => MapAnswer::Yes,
        }
    };
    let e = append_tracing_page(0x8000_0000, pml4t, &mut mem, &masks, &map).unwrap();
    assert_eq!(
        *asked.borrow(),
        vec![MapRequest::FindAvailable(PageType::FourKiB), MapRequest::Acquire(0x40000, PageType::FourKiB)]
    );
    assert_eq!(mem.read(0x20008), 0x40000 | FLAGS);
    assert_eq!(e.address_in_table(), 0x40000);
    assert_eq!(mem.read(0x40000), 0x8000_0000 | TRACE_FLAGS);
}

#[test]
fn fail_append_tracing_page_without_frame() {
    let (pml4t, mut mem) = tracing_tables();
    for k in 0..512u64 {
        mem.write(0x30000 + 8 * k, (0x60_0000 + 0x20_0000 * k) | TRACE_FLAGS);
    }
    let masks = init_address_masks(40);
    let map = |_q: MapRequest| MapAnswer::No;
    assert_eq!(append_tracing_page(0x8000_0000, pml4t, &mut mem, &masks, &map), Err(PagingError::NoSpaceAvailable));
}

#[test]
fn delete_tracing_page_gives_its_frame_back() {
    let (pml4t, mut mem) = tracing_tables();
    let masks = init_address_masks(40);
    let asked = RefCell::new(Vec::new());
    let map = |q: MapRequest| {
        asked.borrow_mut().push(q);
        MapAnswer::Yes
    };
    assert_eq!(delete_tracing_page(0x60_0000, pml4t, &mut mem, &masks, &map), Ok(()));
    assert_eq!(*asked.borrow(), vec![MapRequest::KernelReleaseRange(0x60_0000, PageType::TwoMiB, 1)]);
    assert_eq!(mem.read(0x30000), 0);
}

#[test]
fn fail_delete_unexisting_tracing_page() {
    let (pml4t, mut mem) = tracing_tables();
    let masks = init_address_masks(40);
    let map = |_q: MapRequest| MapAnswer::Yes;
    assert_eq!(delete_tracing_page(0xA0_0000, pml4t, &mut mem, &masks, &map), Err(PagingError::PageFault));
    assert_eq!(mem.read(0x30000), 0x60_0000 | TRACE_FLAGS);
    let failing = |_q: MapRequest| MapAnswer::Failed;
    assert_eq!(delete_tracing_page(0x60_0000, pml4t, &mut mem, &masks, &failing), Err(PagingError::DeallocationFailure));
    assert_eq!(mem.read(0x30000), 0x60_0000 | TRACE_FLAGS);
}

#[test]
fn create_tracing_page_maps_a_new_frame() {
    let (pml4t, mut mem) = tracing_tables();
    let masks = init_address_masks(40);
    let map = |q: MapRequest| match q {
        MapRequest::FindRange(_, _) => MapAnswer::Found(0xA0_0000),
        _ => MapAnswer::Yes,
    };
    let e = create_tracing_page(pml4t, &mut mem, &masks, &map).unwrap();
    assert_eq!(e.address_in_table(), 0x30008);
    assert_eq!(mem.read(0x30008), 0xA0_0000 | TRACE_FLAGS);
}

#[test]
fn fail_create_tracing_page_gives_the_frame_back() {
    let mut mem = PhysicalMemory::new();
    let masks = init_address_masks(40);
    let asked = RefCell::new(Vec::new());
    let map = |q: MapRequest| {
        asked.borrow_mut().push(q);
        match q {
            MapRequest::FindRange(_, _) => MapAnswer::Found(0xA0_0000),
            _ => MapAnswer::Yes,
        }
    };
    let pml4t = PageTable::pml4t(0x10000, MemoryOwner::Kernel);
    assert_eq!(create_tracing_page(pml4t, &mut mem, &masks, &map), Err(PagingError::TableNotPresent));
    assert_eq!(asked.borrow().last(), Some(&MapRequest::KernelReleaseRange(0xA0_0000, PageType::TwoMiB, 1)));
}
