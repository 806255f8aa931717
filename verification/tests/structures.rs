use std::cell::RefCell;

use lib::bitmap::{init_address_masks, AddressMasks, PS_BIT, P_BIT, RW_BIT, SU_BIT};
use lib::errors::{PagingError, TracingError, TracingPageError};
use lib::management::create::create_paging_structure;
use lib::management::map::{MapAnswer, MapRequest};
use lib::management::space::{drop_occupied_space, take_available_space};
use lib::memory::MemoryOwner;
use lib::page::PageType;
use lib::physmem::PhysicalMemory;
use lib::setup::{init, init_kernel_tracing_pages, setup_identity_map, setup_kernel_tracing_pages};
use lib::table::PageTable;
use lib::tracing::metadata::Metadata;
use lib::tracing::pages::TracingPages;

/// A memory map that answers each request by `rule`, and records the requests
struct Recorder<R: Fn(MapRequest) -> MapAnswer> {
    rule: R,
    asked: RefCell<Vec<MapRequest>>,
}

impl<R: Fn(MapRequest) -> MapAnswer> Recorder<R> {
    fn new(rule: R) -> Self {
        Recorder { rule, asked: RefCell::new(Vec::new()) }
    }

    fn answer(&self, q: MapRequest) -> MapAnswer {
        self.asked.borrow_mut().push(q);
        (self.rule)(q)
    }
}

fn frames(q: MapRequest) -> MapAnswer {
    match q {
        MapRequest::FindRange(PageType::FourKiB, _) => MapAnswer::Found(0x10000),
        MapRequest::FindRange(PageType::TwoMiB, 1) => MapAnswer::Found(0x60_0000),
        MapRequest::FindRange(_, _) => MapAnswer::Found(0x80_0000),
        _ => MapAnswer::Yes,
    }
}

#[test]
fn create_paging_structure_lays_out_the_frames_found() {
    let mut mem = PhysicalMemory::new();
    // the stack and tracing pages are set to zero
    mem.write(0x80_0000 + 0x1234 * 8, 0xDEAD);
    mem.write(0x60_0000 + 0x10, 0xBEEF);
    let map = Recorder::new(frames);
    let r = create_paging_structure(MemoryOwner::User, 4, &mut mem, &|q| map.answer(q));
    let (pml4t, tracing) = r.ok().unwrap();
    assert_eq!(pml4t, 0x10000);
    assert_eq!(tracing.len(), 1);
    assert!(tracing.pages[0].is_empty());
    assert_eq!(*map.asked.borrow(), vec![
        MapRequest::FindRange(PageType::FourKiB, 7),
        MapRequest::FindRange(PageType::TwoMiB, 1),
        MapRequest::FindRange(PageType::TwoMiB, 4),
        MapRequest::AcquireRange(0x10000, PageType::FourKiB, 7),
        MapRequest::KernelAcquireRange(0x60_0000, PageType::TwoMiB, 1),
        MapRequest::AcquireRange(0x80_0000, PageType::TwoMiB, 4),
    ]);
    let flags = SU_BIT | RW_BIT | P_BIT;
    assert_eq!(mem.read(0x10000), 0x11000 | flags);
    assert_eq!(mem.read(0x10FF8), 0x14000 | flags);
    // each stack page has its own PDT entry, a huge page
    for k in 0..4u64 {
        assert_eq!(mem.read(0x16000 + 0x7F0 + 8 * k), (0x80_0000 + k * 0x20_0000) | PS_BIT | flags);
    }
    assert_eq!(mem.read(0x16000), 0);
    assert_eq!(mem.read(0x15000), 0x60_0000 | PS_BIT | RW_BIT | P_BIT);
    assert_eq!(mem.read(0x80_0000 + 0x1234 * 8), 0);
    assert_eq!(mem.read(0x60_0000 + 0x10), 0);
}

#[test]
fn create_paging_structure_without_frames_has_no_space() {
    let mut mem = PhysicalMemory::new();
    let map = Recorder::new(|q| match q {
        MapRequest::FindRange(PageType::TwoMiB, _) => MapAnswer::No,
        q => frames(q),
    });
    let r = create_paging_structure(MemoryOwner::User, 4, &mut mem, &|q| map.answer(q));
    assert_eq!(r.err(), Some(PagingError::NoSpaceAvailable));
    assert_eq!(map.asked.borrow().len(), 2);
    assert_eq!(mem.read(0x10000), 0);
}

#[test]
fn create_paging_structure_fails_to_take_the_tables() {
    let mut mem = PhysicalMemory::new();
    let map = Recorder::new(|q| match q {
        MapRequest::AcquireRange(_, PageType::FourKiB, _) => MapAnswer::Failed,
        q => frames(q),
    });
    let r = create_paging_structure(MemoryOwner::User, 4, &mut mem, &|q| map.answer(q));
    assert_eq!(r.err(), Some(PagingError::AllocationFailure));
    assert_eq!(map.asked.borrow().len(), 4);
}

#[test]
fn create_paging_structure_gives_back_the_stack_and_tracing_frames() {
    let mut mem = PhysicalMemory::new();
    let map = Recorder::new(|q| match q {
        MapRequest::AcquireRange(_, PageType::TwoMiB, _) => MapAnswer::Failed,
        q => frames(q),
    });
    let r = create_paging_structure(MemoryOwner::User, 4, &mut mem, &|q| map.answer(q));
    // both were given back, so the creation goes on
    assert_eq!(r.ok().map(|(p, _)| p), Some(0x10000));
    let asked = map.asked.borrow();
    assert_eq!(asked[6], MapRequest::ReleaseRange(0x80_0000, PageType::TwoMiB, 4));
    assert_eq!(asked[7], MapRequest::KernelReleaseRange(0x60_0000, PageType::TwoMiB, 1));
}

#[test]
fn create_paging_structure_fails_to_give_back_the_tracing_frame() {
    let mut mem = PhysicalMemory::new();
    let map = Recorder::new(|q| match q {
        MapRequest::KernelAcquireRange(_, _, _) | MapRequest::KernelReleaseRange(_, _, _) => MapAnswer::Failed,
        q => frames(q),
    });
    let r = create_paging_structure(MemoryOwner::User, 4, &mut mem, &|q| map.answer(q));
    assert_eq!(r.err(), Some(PagingError::DeallocationFailure));
    assert_eq!(map.asked.borrow().len(), 6);
    assert_eq!(mem.read(0x10000), 0);
}

#[test]
fn create_paging_structure_beyond_the_address_space_fails() {
    let mut mem = PhysicalMemory::new();
    let map = Recorder::new(|q| match q {
        MapRequest::FindRange(PageType::FourKiB, _) => MapAnswer::Found(u64::MAX - 0x1000),
        q => frames(q),
    });
    let r = create_paging_structure(MemoryOwner::User, 4, &mut mem, &|q| map.answer(q));
    assert_eq!(r.err(), Some(PagingError::InternalFailure));
}

/// The kernel tracing tables: the last PML4T entry points to the PDPT at
/// 0x20000, whose first entry points to the PDT at 0x30000, whose first entry
/// maps the tracing page at 0x60_0000
fn tracing_tables() -> (PageTable, PhysicalMemory, AddressMasks) {
    let mut mem = PhysicalMemory::new();
    mem.write(0x10FF8, 0x20000 | RW_BIT | P_BIT);
    mem.write(0x20000, 0x30000 | RW_BIT | P_BIT);
    mem.write(0x30000, 0x60_0000 | RW_BIT | P_BIT | PS_BIT);
    (PageTable::pml4t(0x10000, MemoryOwner::Kernel), mem, init_address_masks(40))
}

/// A full tracing page of alternating taken and free entries of 0x100 Bytes
fn full_tracing() -> TracingPages {
    let mut tracing = TracingPages::new();
    tracing.pages[0].fill_alternate(0x1000, 0xA000, 0x100);
    tracing
}

#[test]
fn take_available_space_creates_a_tracing_page_for_the_excess() {
    let (pml4t, mut mem, masks) = tracing_tables();
    let mut tracing = full_tracing();
    let map = Recorder::new(|q| match q {
        MapRequest::FindRange(PageType::TwoMiB, 1) => MapAnswer::Found(0x80_0000),
        _ => MapAnswer::Yes,
    });
    let r = take_available_space(&mut tracing, 0x1140, 0x10, pml4t, &mut mem, &masks, &|q| map.answer(q));
    assert_eq!(r, Ok(()));
    assert_eq!(*map.asked.borrow(), vec![
        MapRequest::TakeSpace(0x1140, 0x10),
        MapRequest::FindRange(PageType::TwoMiB, 1),
        MapRequest::KernelAcquireRange(0x80_0000, PageType::TwoMiB, 1),
    ]);
    assert_eq!(mem.read(0x30008), 0x80_0000 | RW_BIT | P_BIT | PS_BIT);
    assert_eq!(tracing.len(), 2);
    assert_eq!(tracing.pages[1].size(), 2);
}

#[test]
fn fail_take_available_space_without_a_frame_for_the_excess() {
    let (pml4t, mut mem, masks) = tracing_tables();
    let mut tracing = full_tracing();
    let map = Recorder::new(|q| match q {
        MapRequest::FindRange(_, _) => MapAnswer::Failed,
        _ => MapAnswer::Yes,
    });
    let r = take_available_space(&mut tracing, 0x1140, 0x10, pml4t, &mut mem, &masks, &|q| map.answer(q));
    assert_eq!(r, Err(PagingError::NoSpaceAvailable));
    assert_eq!(*map.asked.borrow(), vec![
        MapRequest::TakeSpace(0x1140, 0x10),
        MapRequest::FindRange(PageType::TwoMiB, 1),
        MapRequest::DropSpace(0x1140, 0x10),
    ]);
    assert_eq!(mem.read(0x30008), 0);
    assert_eq!(tracing.len(), 1);
}

fn tracing_with_free_space() -> TracingPages {
    let mut tracing = TracingPages::new();
    tracing.pages[0].append_unchecked(Metadata::new_free(0x100_0000, 0x4000_0000, 0x10000));
    tracing
}

#[test]
fn take_available_space_takes_in_the_map_then_in_the_tracing_pages() {
    let (pml4t, mut mem, masks) = tracing_tables();
    let mut tracing = tracing_with_free_space();
    let map = Recorder::new(|_| MapAnswer::Yes);
    assert!(!tracing.cannot_take_space(0x100_0000, 0x1000));
    assert_eq!(take_available_space(&mut tracing, 0x100_0000, 0x1000, pml4t, &mut mem, &masks, &|q| map.answer(q)), Ok(()));
    assert_eq!(*map.asked.borrow(), vec![MapRequest::TakeSpace(0x100_0000, 0x1000)]);
    let first = tracing.pages[0].entry_at(0);
    assert!(first.is_taken());
    assert_eq!(first.size(), 0x1000);
    // and dropping it frees the space again
    assert_eq!(drop_occupied_space(&mut tracing, 0x100_0000, 0x1000, &|q| map.answer(q)), Ok(()));
    assert_eq!(map.asked.borrow()[1], MapRequest::DropSpace(0x100_0000, 0x1000));
    assert_eq!(tracing.pages[0].size(), 1);
    assert!(tracing.pages[0].entry_at(0).is_free());
    assert_eq!(tracing.pages[0].entry_at(0).size(), 0x10000);
}

#[test]
fn take_available_space_refused_by_the_map() {
    let (pml4t, mut mem, masks) = tracing_tables();
    let mut tracing = tracing_with_free_space();
    let map = Recorder::new(|_| MapAnswer::Failed);
    assert_eq!(take_available_space(&mut tracing, 0x100_0000, 0x1000, pml4t, &mut mem, &masks, &|q| map.answer(q)), Err(PagingError::InternalFailure));
    assert!(tracing.pages[0].entry_at(0).is_free());
    assert_eq!(map.asked.borrow().len(), 1);
}

#[test]
fn take_available_space_not_traced_is_given_back_to_the_map() {
    let (pml4t, mut mem, masks) = tracing_tables();
    let mut tracing = tracing_with_free_space();
    let map = Recorder::new(|_| MapAnswer::Yes);
    let r = take_available_space(&mut tracing, 0x200_0000, 0x1000, pml4t, &mut mem, &masks, &|q| map.answer(q));
    assert_eq!(r, Err(PagingError::TracingError(TracingError::NotFound)));
    assert_eq!(*map.asked.borrow(), vec![
        MapRequest::TakeSpace(0x200_0000, 0x1000),
        MapRequest::DropSpace(0x200_0000, 0x1000),
    ]);
}

#[test]
fn drop_occupied_space_not_traced_leaves_the_map_alone() {
    let mut tracing = tracing_with_free_space();
    let map = Recorder::new(|_| MapAnswer::Yes);
    let r = drop_occupied_space(&mut tracing, 0x200_0000, 0x1000, &|q| map.answer(q));
    assert_eq!(r, Err(PagingError::TracingError(TracingError::NotFound)));
    assert!(map.asked.borrow().is_empty());
}

#[test]
fn drop_occupied_space_refused_by_the_map() {
    let mut tracing = TracingPages::new();
    tracing.pages[0].append_unchecked(Metadata::new_taken(0x100_0000, 0x4000_0000, 0x1000));
    let map = Recorder::new(|_| MapAnswer::Failed);
    let r = drop_occupied_space(&mut tracing, 0x100_0000, 0x1000, &|q| map.answer(q));
    assert_eq!(r, Err(PagingError::InternalFailure));
    assert!(tracing.pages[0].entry_at(0).is_free());
}

#[test]
fn init_kernel_tracing_pages_takes_a_table_and_a_page() {
    let mut mem = PhysicalMemory::new();
    let map = Recorder::new(|q| match q {
        MapRequest::FindAvailable(PageType::FourKiB) => MapAnswer::Found(0x30000),
        MapRequest::FindAvailable(_) => MapAnswer::Found(0x40_0000),
        _ => MapAnswer::Yes,
    });
    let tracing = init_kernel_tracing_pages(&mut mem, &|q| map.answer(q)).ok().unwrap();
    assert_eq!(tracing.len(), 1);
    assert_eq!(*map.asked.borrow(), vec![
        MapRequest::FindAvailable(PageType::FourKiB),
        MapRequest::Acquire(0x30000, PageType::FourKiB),
        MapRequest::FindAvailable(PageType::TwoMiB),
        MapRequest::Acquire(0x40_0000, PageType::TwoMiB),
    ]);
    assert_eq!(mem.read(0x102000), 0x30000 | RW_BIT | P_BIT);
    assert_eq!(mem.read(0x30000), 0x40_0000 | PS_BIT | RW_BIT | P_BIT);
}

#[test]
fn init_kernel_tracing_pages_without_a_page_has_no_space() {
    let mut mem = PhysicalMemory::new();
    let map = Recorder::new(|q| match q {
        MapRequest::FindAvailable(PageType::FourKiB) => MapAnswer::Found(0x30000),
        MapRequest::FindAvailable(_) => MapAnswer::No,
        _ => MapAnswer::Yes,
    });
    let r = init_kernel_tracing_pages(&mut mem, &|q| map.answer(q));
    assert_eq!(r.err(), Some(PagingError::NoSpaceAvailable));
    assert_eq!(mem.read(0x102000), 0);
}

#[test]
fn init_kernel_tracing_pages_fails_to_take_the_table() {
    let mut mem = PhysicalMemory::new();
    let map = Recorder::new(|q| match q {
        MapRequest::FindAvailable(_) => MapAnswer::Found(0x30000),
        _ => MapAnswer::Failed,
    });
    let r = init_kernel_tracing_pages(&mut mem, &|q| map.answer(q));
    assert_eq!(r.err(), Some(PagingError::AllocationFailure));
    assert_eq!(map.asked.borrow().len(), 2);
}

#[test]
fn setup_kernel_tracing_pages_zeroes_the_table() {
    let mut mem = PhysicalMemory::new();
    mem.write(0x30008, 0xDEAD);
    mem.write(0x40_0000 + 0x1F_FFF8, 0xBEEF);
    let tracing = setup_kernel_tracing_pages(0x30000, 0x40_0000, &mut mem);
    assert_eq!(tracing.len(), 1);
    assert_eq!(mem.read(0x30008), 0);
    assert_eq!(mem.read(0x40_0000 + 0x1F_FFF8), 0);
    assert_eq!(mem.read(0x30000), 0x40_0000 | PS_BIT | RW_BIT | P_BIT);
}

#[test]
fn setup_identity_map_maps_the_first_gib() {
    let mut mem = PhysicalMemory::new();
    setup_identity_map(&mut mem);
    assert_eq!(mem.read(0x100000), 0x101000 | RW_BIT | P_BIT);
    assert_eq!(mem.read(0x101000), PS_BIT | RW_BIT | P_BIT);
}

#[test]
fn init_maps_the_kernel_code_and_stack() {
    let mut mem = PhysicalMemory::new();
    let masks = init(40, 2, 2, 0x4000_0000, &mut mem);
    assert_eq!(masks.mask_4k, 0xFF_FFFF_F000);
    assert_eq!(masks.mask_2m, 0xFF_FFE0_0000);
    assert_eq!(masks.mask_1g, 0xFF_C000_0000);
    // the identity map
    assert_eq!(mem.read(0x100000), 0x101000 | RW_BIT | P_BIT);
    // the last PML4T entry points to the kernel PDPT, whose second-last entry
    // points to the code PDT
    assert_eq!(mem.read(0x100FF8), 0x102000 | RW_BIT | P_BIT);
    assert_eq!(mem.read(0x102FF0), 0x103000 | RW_BIT | P_BIT);
    // the code pages map the kernel
    assert_eq!(mem.read(0x103000), 0x4000_0000 | PS_BIT | RW_BIT | P_BIT);
    assert_eq!(mem.read(0x103008), 0x4020_0000 | PS_BIT | RW_BIT | P_BIT);
    assert_eq!(mem.read(0x103010), 0);
    // the stack pages end right below the kernel, the last entry the highest
    assert_eq!(mem.read(0x104808), 0x3FE0_0000 | PS_BIT | RW_BIT | P_BIT);
    assert_eq!(mem.read(0x104800), 0x3FC0_0000 | PS_BIT | RW_BIT | P_BIT);
    assert_eq!(mem.read(0x104810), 0);
}

#[test]
fn errors_have_the_messages_of_the_kernel() {
    assert_eq!(PagingError::NoSpaceAvailable.panic_message(), "PagingError: NoSpaceAvailable");
    assert_eq!(PagingError::TracingError(TracingError::NotFound).panic_message(), "PagingError: TracingError");
    assert_eq!(TracingError::CleanupPreconditions.panic_message(), "TracingError: CleanupPreconditions");
    assert_eq!(TracingError::TracingPageError(TracingPageError::NotFound).panic_message(), "TracingError: TracingPageError");
    assert_eq!(TracingPageError::ResizePreconditions.panic_message(), "TracingPageError: ResizePreconditions");
}
