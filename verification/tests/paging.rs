use lib::allocations::AllocationsIterator;
use lib::bitmap::{init_address_masks, AddressMasks, Bitmap, PS_BIT, P_BIT, RW_BIT, SU_BIT};
use lib::errors::PagingError;
use lib::management::create::create_process_pages;
use lib::management::insert::{insert_pages_into, insert_table};
use lib::management::remove::{remove_pages, update_tracing_table};
use lib::management::map::{MapAnswer, MapRequest};
use lib::management::update::{relocate_inplace, relocation_address};
use lib::tracing::metadata::Metadata;
use lib::memory::MemoryOwner;
use lib::page::PageType;
use lib::physmem::PhysicalMemory;
use lib::search::{find_page_slot, find_pages_slots};
use lib::table::PageTable;
use lib::table_type::PageTableType;
use lib::tracing::pages::TracingPages;

const PML4T: u64 = 0x1000;
const PDPT: u64 = 0x2000;
const PDT: u64 = 0x3000;
const PT: u64 = 0x4000;
/// The logical address of the first kernel allocation: PML4T entry 1
const FIRST_LADDR: u64 = 0x80_0000_0000;

fn setup() -> (PageTable, PhysicalMemory, AddressMasks) {
    (PageTable::pml4t(PML4T, MemoryOwner::Kernel), PhysicalMemory::new(), init_address_masks(40))
}

fn kernel_flags() -> Bitmap {
    Bitmap::default_kernel()
}

fn insert(table_type: PageTableType, paddr: u64, pml4t: PageTable, mem: &mut PhysicalMemory, masks: &AddressMasks) {
    let r = insert_table(table_type, kernel_flags(), Some(paddr), pml4t, mem, masks);
    assert!(matches!(r, Ok(Some(_))));
}

#[test]
fn fail_search_1gib_page_slot() {
    let (pml4t, mem, masks) = setup();
    assert!(find_pages_slots(PageType::OneGiB, 1, pml4t, &mem, &masks).is_none());
    assert!(find_page_slot(PageType::OneGiB, pml4t, &mem, &masks).is_none());
}

#[test]
fn fail_search_2mib_page_slot() {
    let (pml4t, mut mem, masks) = setup();
    insert(PageTableType::PageDirectoryPointerTable, PDPT, pml4t, &mut mem, &masks);
    assert!(find_pages_slots(PageType::TwoMiB, 1, pml4t, &mem, &masks).is_none());
}

#[test]
fn fail_search_4kib_page_slot() {
    let (pml4t, mut mem, masks) = setup();
    insert(PageTableType::PageDirectoryPointerTable, PDPT, pml4t, &mut mem, &masks);
    insert(PageTableType::PageDirectoryTable, PDT, pml4t, &mut mem, &masks);
    assert!(find_pages_slots(PageType::FourKiB, 1, pml4t, &mem, &masks).is_none());
}

#[test]
fn insert_pdpt_pdt_pt() {
    let (pml4t, mut mem, masks) = setup();
    insert(PageTableType::PageDirectoryPointerTable, PDPT, pml4t, &mut mem, &masks);
    assert_eq!(mem.read(PML4T + 0x008), PDPT | RW_BIT | P_BIT);
    insert(PageTableType::PageDirectoryTable, PDT, pml4t, &mut mem, &masks);
    assert_eq!(mem.read(PDPT), PDT | RW_BIT | P_BIT);
    insert(PageTableType::PageTable, PT, pml4t, &mut mem, &masks);
    assert_eq!(mem.read(PDT), PT | RW_BIT | P_BIT);
    assert_eq!(mem.read(PT), 0);
}

#[test]
fn fail_insert_table_without_space() {
    let (pml4t, mut mem, masks) = setup();
    let r = insert_table(PageTableType::PageDirectoryPointerTable, kernel_flags(), None, pml4t, &mut mem, &masks);
    assert!(matches!(r, Err(PagingError::NoSpaceAvailable)));
    assert_eq!(mem.read(PML4T + 0x008), 0);
}

#[test]
fn fail_insert_pml4t() {
    let (pml4t, mut mem, masks) = setup();
    let r = insert_table(PageTableType::PageMapLevel4Table, kernel_flags(), Some(PDPT), pml4t, &mut mem, &masks);
    assert!(matches!(r, Err(PagingError::IncompatibleTable)));
}

#[test]
fn search_1gib_page_slot() {
    let (pml4t, mut mem, masks) = setup();
    insert(PageTableType::PageDirectoryPointerTable, PDPT, pml4t, &mut mem, &masks);
    let it = find_pages_slots(PageType::OneGiB, 1, pml4t, &mem, &masks).unwrap();
    assert!(matches!(it, AllocationsIterator::Pdpt(_)));
    assert_eq!(it.build_laddr(0), FIRST_LADDR);
}

#[test]
fn search_2mib_page_slot() {
    let (pml4t, mut mem, masks) = setup();
    insert(PageTableType::PageDirectoryPointerTable, PDPT, pml4t, &mut mem, &masks);
    insert(PageTableType::PageDirectoryTable, PDT, pml4t, &mut mem, &masks);
    let it = find_pages_slots(PageType::TwoMiB, 1, pml4t, &mem, &masks).unwrap();
    assert!(matches!(it, AllocationsIterator::Pdt(_)));
    assert_eq!(it.build_laddr(0), FIRST_LADDR);
}

#[test]
fn search_4kib_page_slot() {
    let (pml4t, mut mem, masks) = setup();
    insert(PageTableType::PageDirectoryPointerTable, PDPT, pml4t, &mut mem, &masks);
    insert(PageTableType::PageDirectoryTable, PDT, pml4t, &mut mem, &masks);
    insert(PageTableType::PageTable, PT, pml4t, &mut mem, &masks);
    let it = find_pages_slots(PageType::FourKiB, 1, pml4t, &mem, &masks).unwrap();
    assert!(matches!(it, AllocationsIterator::Pt(_)));
    assert_eq!(it.build_laddr(0), FIRST_LADDR);
}

#[test]
fn insert_relocate_and_remove_1gib_page() {
    let (pml4t, mut mem, masks) = setup();
    insert(PageTableType::PageDirectoryPointerTable, PDPT, pml4t, &mut mem, &masks);
    let it = find_pages_slots(PageType::OneGiB, 1, pml4t, &mem, &masks).unwrap();
    let mut tracing = TracingPages::new();
    let flags = Bitmap::from_page_type(PageType::OneGiB);
    let r = insert_pages_into(it, PageType::OneGiB, 1, flags, Some(0x4000_0000), pml4t, &mut mem, &masks, &mut tracing);
    assert_eq!(r, Ok((0x4000_0000, FIRST_LADDR)));
    assert_eq!(mem.read(PDPT), 0x4000_0000 | PS_BIT | RW_BIT | P_BIT);
    let md = tracing.pages[0].entry_at(0);
    assert!(md.is_free());
    assert_eq!((md.lower_paddr(), md.lower_laddr(), md.size()), (0x4000_0000, FIRST_LADDR, 0x4000_0000));
    // the slot is taken now
    let next = find_pages_slots(PageType::OneGiB, 1, pml4t, &mem, &masks).unwrap();
    assert_eq!(next.build_laddr(0), FIRST_LADDR + 0x4000_0000);
    // the page is found back from its logical address
    assert_eq!(relocation_address(FIRST_LADDR + 0x1234, pml4t, &mem, &masks), Ok(0x4000_1234));
    // and removed
    assert_eq!(remove_pages(FIRST_LADDR, PageType::OneGiB, 1, pml4t, &mut mem, &masks), Ok(0x4000_0000));
    assert_eq!(mem.read(PDPT), 0);
    assert_eq!(update_tracing_table(&mut tracing, 0x4000_0000, PageType::OneGiB, 1, pml4t, &mut mem, &masks, &|_q: MapRequest| MapAnswer::Yes), Ok(()));
    assert!(tracing.pages[0].is_empty());
    assert_eq!(relocation_address(FIRST_LADDR, pml4t, &mem, &masks), Err(PagingError::InvalidRequest));
}

#[test]
fn insert_and_remove_2mib_pages() {
    let (pml4t, mut mem, masks) = setup();
    insert(PageTableType::PageDirectoryPointerTable, PDPT, pml4t, &mut mem, &masks);
    insert(PageTableType::PageDirectoryTable, PDT, pml4t, &mut mem, &masks);
    let it = find_pages_slots(PageType::TwoMiB, 3, pml4t, &mem, &masks).unwrap();
    let mut tracing = TracingPages::new();
    let flags = Bitmap::from_page_type(PageType::TwoMiB);
    let r = insert_pages_into(it, PageType::TwoMiB, 3, flags, Some(0x60_0000), pml4t, &mut mem, &masks, &mut tracing);
    assert_eq!(r, Ok((0x60_0000, FIRST_LADDR)));
    assert_eq!(mem.read(PDT), 0x60_0000 | PS_BIT | RW_BIT | P_BIT);
    assert_eq!(mem.read(PDT + 8), 0x80_0000 | PS_BIT | RW_BIT | P_BIT);
    assert_eq!(mem.read(PDT + 16), 0xA0_0000 | PS_BIT | RW_BIT | P_BIT);
    assert_eq!(tracing.pages[0].entry_at(0).size(), 0x60_0000);
    // each page is found back from the PDT entry that maps it
    assert_eq!(relocation_address(FIRST_LADDR + 0x20_0010, pml4t, &mem, &masks), Ok(0x80_0010));
    assert_eq!(remove_pages(FIRST_LADDR, PageType::TwoMiB, 3, pml4t, &mut mem, &masks), Ok(0x60_0000));
    assert_eq!(mem.read(PDT), 0);
    assert_eq!(mem.read(PDT + 8), 0);
    assert_eq!(mem.read(PDT + 16), 0);
}

#[test]
fn insert_and_remove_4kib_page() {
    let (pml4t, mut mem, masks) = setup();
    insert(PageTableType::PageDirectoryPointerTable, PDPT, pml4t, &mut mem, &masks);
    insert(PageTableType::PageDirectoryTable, PDT, pml4t, &mut mem, &masks);
    insert(PageTableType::PageTable, PT, pml4t, &mut mem, &masks);
    let it = find_page_slot(PageType::FourKiB, pml4t, &mem, &masks).unwrap();
    let mut tracing = TracingPages::new();
    let r = insert_pages_into(it, PageType::FourKiB, 1, kernel_flags(), Some(0x9000), pml4t, &mut mem, &masks, &mut tracing);
    assert_eq!(r, Ok((0x9000, FIRST_LADDR)));
    assert_eq!(mem.read(PT), 0x9000 | RW_BIT | P_BIT);
    assert_eq!(relocation_address(FIRST_LADDR + 0x10, pml4t, &mem, &masks), Ok(0x9010));
    assert_eq!(remove_pages(FIRST_LADDR, PageType::FourKiB, 1, pml4t, &mut mem, &masks), Ok(0x9000));
    assert_eq!(mem.read(PT), 0);
}

#[test]
fn fail_insert_pages_without_space() {
    let (pml4t, mut mem, masks) = setup();
    insert(PageTableType::PageDirectoryPointerTable, PDPT, pml4t, &mut mem, &masks);
    let it = find_pages_slots(PageType::OneGiB, 1, pml4t, &mem, &masks).unwrap();
    let mut tracing = TracingPages::new();
    let flags = Bitmap::from_page_type(PageType::OneGiB);
    let r = insert_pages_into(it, PageType::OneGiB, 1, flags, None, pml4t, &mut mem, &masks, &mut tracing);
    assert_eq!(r, Err(PagingError::NoSpaceAvailable));
    assert_eq!(mem.read(PDPT), 0);
    assert!(tracing.pages[0].is_empty());
}

#[test]
fn fail_relocate_unmapped_address() {
    let (pml4t, mut mem, masks) = setup();
    assert!(relocation_address(FIRST_LADDR, pml4t, &mem, &masks).is_err());
    let mut tracing = TracingPages::new();
    let asked = std::cell::RefCell::new(Vec::new());
    let map = |q: MapRequest| { asked.borrow_mut().push(q); MapAnswer::Yes };
    assert_eq!(relocate_inplace(FIRST_LADDR, 0x100, pml4t, &mut mem, &masks, &mut tracing, &map), Err(PagingError::TableNotPresent));
    assert!(asked.borrow().is_empty());
}

/// A huge page of 1 GiB at 0x4000_0000 mapped at the first kernel address,
/// traced as an allocation of 0x1000 Bytes followed by free space
fn mapped_allocation() -> (PageTable, PhysicalMemory, AddressMasks, TracingPages) {
    let (pml4t, mut mem, masks) = setup();
    insert(PageTableType::PageDirectoryPointerTable, PDPT, pml4t, &mut mem, &masks);
    mem.write(PDPT, 0x4000_0000 | PS_BIT | RW_BIT | P_BIT);
    let mut tracing = TracingPages::new();
    tracing.pages[0].append_unchecked(Metadata::new_taken(0x4000_0000, FIRST_LADDR, 0x1000));
    tracing.pages[0].append_unchecked(Metadata::new_free(0x4000_1000, FIRST_LADDR + 0x1000, 0x1000));
    (pml4t, mem, masks, tracing)
}

#[test]
fn relocate_inplace_grows_the_allocation() {
    let (pml4t, mut mem, masks, mut tracing) = mapped_allocation();
    assert!(!tracing.cannot_resize(0x4000_0000, 0x1800));
    let asked = std::cell::RefCell::new(Vec::new());
    let map = |q: MapRequest| { asked.borrow_mut().push(q); MapAnswer::Yes };
    assert_eq!(relocate_inplace(FIRST_LADDR, 0x1800, pml4t, &mut mem, &masks, &mut tracing, &map), Ok(()));
    assert_eq!(*asked.borrow(), vec![MapRequest::TakeSpace(0x4000_0000, 0x1800)]);
    let first = tracing.pages[0].entry_at(0);
    assert!(first.is_taken());
    assert_eq!(first.size(), 0x1800);
    let second = tracing.pages[0].entry_at(1);
    assert!(second.is_free());
    assert_eq!((second.lower_paddr(), second.size()), (0x4000_1800, 0x800));
}

#[test]
fn relocate_inplace_refused_by_the_map() {
    let (pml4t, mut mem, masks, mut tracing) = mapped_allocation();
    let map = |_: MapRequest| MapAnswer::Failed;
    assert_eq!(relocate_inplace(FIRST_LADDR, 0x800, pml4t, &mut mem, &masks, &mut tracing, &map), Err(PagingError::InternalFailure));
    assert_eq!(tracing.pages[0].entry_at(0).size(), 0x1000);
}

#[test]
fn relocate_inplace_beyond_the_free_space_fails() {
    let (pml4t, mut mem, masks, mut tracing) = mapped_allocation();
    let map = |_: MapRequest| MapAnswer::Yes;
    let r = relocate_inplace(FIRST_LADDR, 0x3000, pml4t, &mut mem, &masks, &mut tracing, &map);
    assert!(r.is_err());
    assert_eq!(tracing.pages[0].entry_at(0).size(), 0x1000);
}

#[test]
fn process_pages_are_linked_from_the_first_entries() {
    let mut mem = PhysicalMemory::new();
    create_process_pages(0x10000, MemoryOwner::User, &mut mem);
    let flags = SU_BIT | RW_BIT | P_BIT;
    assert_eq!(mem.read(0x10000), 0x11000 | flags);
    assert_eq!(mem.read(0x11000), 0x12000 | flags);
    assert_eq!(mem.read(0x12000), 0x13000 | flags);
    assert_eq!(mem.read(0x13000), 0);
}

#[test]
fn search_1gib_page_slot_past_missing_pdpt() {
    let (pml4t, mut mem, masks) = setup();
    // the first allocation entry of the PML4T is empty, the next one holds a PDPT
    mem.write(PML4T + 0x010, PDPT | RW_BIT | P_BIT);
    let it = find_pages_slots(PageType::OneGiB, 1, pml4t, &mem, &masks).unwrap();
    assert!(matches!(it, AllocationsIterator::Pdpt(_)));
    assert_eq!(it.build_laddr(0), 2 * FIRST_LADDR);
}

#[test]
fn search_2mib_page_slot_past_missing_pdt() {
    let (pml4t, mut mem, masks) = setup();
    insert(PageTableType::PageDirectoryPointerTable, PDPT, pml4t, &mut mem, &masks);
    // the first entry of the PDPT is empty, the next one holds a PDT
    mem.write(PDPT + 0x008, PDT | RW_BIT | P_BIT);
    let it = find_pages_slots(PageType::TwoMiB, 1, pml4t, &mem, &masks).unwrap();
    assert!(matches!(it, AllocationsIterator::Pdt(_)));
    assert_eq!(it.build_laddr(0), FIRST_LADDR + 0x4000_0000);
}

#[test]
fn search_4kib_page_slot_past_huge_page() {
    let (pml4t, mut mem, masks) = setup();
    insert(PageTableType::PageDirectoryPointerTable, PDPT, pml4t, &mut mem, &masks);
    insert(PageTableType::PageDirectoryTable, PDT, pml4t, &mut mem, &masks);
    // the first entry of the PDT maps a 2 MiB page, the next one holds a PT
    mem.write(PDT, 0x20_0000 | PS_BIT | RW_BIT | P_BIT);
    mem.write(PDT + 0x008, PT | RW_BIT | P_BIT);
    let it = find_pages_slots(PageType::FourKiB, 1, pml4t, &mem, &masks).unwrap();
    assert!(matches!(it, AllocationsIterator::Pt(_)));
    assert_eq!(it.build_laddr(0), FIRST_LADDR + 0x20_0000);
}

#[test]
fn update_tracing_table_creates_a_tracing_page_for_the_overflow() {
    // tracing tables: the last PML4T entry points to the PDPT at 0x20000, whose
    // first entry points to the PDT at 0x30000, whose first entry maps the
    // tracing page at 0x60_0000
    let mut mem = PhysicalMemory::new();
    mem.write(PML4T + 0xFF8, 0x20000 | RW_BIT | P_BIT);
    mem.write(0x20000, 0x30000 | RW_BIT | P_BIT);
    mem.write(0x30000, 0x60_0000 | PS_BIT | RW_BIT | P_BIT);
    let pml4t = PageTable::pml4t(PML4T, MemoryOwner::Kernel);
    let masks = init_address_masks(40);
    // a full tracing page of alternately taken and free entries of 64 KiB
    let mut tracing = TracingPages::new();
    tracing.pages[0].fill_alternate(0x1000_0000, 0x1000_0000, 0x10000);
    let asked = std::cell::RefCell::new(Vec::new());
    let map = |q: MapRequest| {
        asked.borrow_mut().push(q);
        match q {
            MapRequest::FindRange(_, _) => MapAnswer::Found(0x80_0000),
            _ => MapAnswer::Yes,
        }
    };
    // removing a page from the middle of a free entry splits it: the last
    // entry of the page overflows into a new tracing page
    let r = update_tracing_table(&mut tracing, 0x1001_4000, PageType::FourKiB, 1, pml4t, &mut mem, &masks, &map);
    assert_eq!(r, Ok(()));
    assert_eq!(*asked.borrow(), vec![
        MapRequest::FindRange(PageType::TwoMiB, 1),
        MapRequest::KernelAcquireRange(0x80_0000, PageType::TwoMiB, 1),
    ]);
    assert_eq!(mem.read(0x30008), 0x80_0000 | PS_BIT | RW_BIT | P_BIT);
    assert_eq!(tracing.len(), 2);
    assert_eq!(tracing.pages[1].size(), 1);
}
