use lib::indexers::{PageTableEntryIndex, PageTableEntryOffset};
use lib::memory::MemoryOwner;
use lib::table_type::PageTableType;
use lib::page::PageType;

#[test]
fn index_iterates_range() {
    let mut idx = PageTableEntryIndex::range(3, 6);
    assert_eq!(idx.next(), Some(3));
    assert_eq!(idx.next(), Some(4));
    assert_eq!(idx.next(), Some(5));
    assert_eq!(idx.next(), None);
}

#[test]
fn reversed_index_counts_from_the_end() {
    let mut idx = PageTableEntryIndex::range(0, 4);
    idx.reverse();
    assert_eq!(idx.next(), Some(3));
    assert_eq!(idx.next(), Some(2));
    assert_eq!(idx.next(), Some(1));
    assert_eq!(idx.next(), Some(0));
    assert_eq!(idx.next(), None);
}

#[test]
fn reversed_unbounded_offset_goes_from_the_last_entry_down_to_the_first() {
    let mut ofs = PageTableEntryOffset::unbounded();
    ofs.reverse();
    let mut seen = Vec::new();
    while let Some(o) = ofs.next() {
        seen.push(o);
    }
    assert_eq!(seen.len(), 512);
    assert_eq!(seen[0], 0xFF8);
    assert_eq!(seen[1], 0xFF0);
    assert_eq!(seen[511], 0x0);
}

#[test]
fn reversed_range_offset_stays_in_its_range() {
    let mut ofs = PageTableEntryOffset::range(0x10, 0x28);
    ofs.reverse();
    assert_eq!(ofs.next(), Some(0x20));
    assert_eq!(ofs.next(), Some(0x18));
    assert_eq!(ofs.next(), Some(0x10));
    assert_eq!(ofs.next(), None);
}

#[test]
fn offset_iterates_by_eight() {
    let mut ofs = PageTableEntryOffset::range(0x10, 0x28);
    assert_eq!(ofs.next(), Some(0x10));
    assert_eq!(ofs.next(), Some(0x18));
    assert_eq!(ofs.next(), Some(0x20));
    assert_eq!(ofs.next(), None);
}

#[test]
fn allocations_bounds_of_kernel_pml4t() {
    let idx = PageTableEntryIndex::allocations(PageTableType::PageMapLevel4Table, MemoryOwner::Kernel);
    assert_eq!((idx.start, idx.end), (1, 510));
    let idx = PageTableEntryIndex::allocations(PageTableType::PageMapLevel4Table, MemoryOwner::User);
    assert_eq!((idx.start, idx.end), (0, 511));
    let ofs = PageTableEntryOffset::allocations(PageTableType::PageTable, MemoryOwner::Kernel);
    assert_eq!((ofs.start, ofs.end), (0, 0x1000));
}

#[test]
fn index_and_offset_roundtrip() {
    let idx = PageTableEntryIndex::allocations_with_index(7, PageTableType::PageDirectoryTable, MemoryOwner::User);
    let ofs = PageTableEntryOffset::from_index(idx);
    assert_eq!(ofs.current_offset, 56);
    assert_eq!(PageTableEntryIndex::from_offset(ofs), idx);
}

#[test]
fn tracing_of_pt_is_refused() {
    assert!(PageTableEntryOffset::tracing(PageTableType::PageTable, MemoryOwner::Kernel).is_err());
    assert!(PageTableEntryOffset::tracing(PageTableType::PageMapLevel4Table, MemoryOwner::Kernel).is_ok());
}

#[test]
fn parent_and_child_tables() {
    assert_eq!(PageTableType::PageTable.parent_table_type(), Ok(PageTableType::PageDirectoryTable));
    assert!(PageTableType::PageMapLevel4Table.parent_table_type().is_err());
    assert_eq!(PageTableType::PageDirectoryTable.child_table_type(), Ok(PageTableType::PageTable));
    assert!(PageTableType::PageTable.child_table_type().is_err());
    assert_eq!(PageTableType::from_page_type(PageType::TwoMiB), PageTableType::PageDirectoryTable);
    assert_eq!(PageType::try_from_table_type(PageTableType::PageDirectoryPointerTable), Ok(PageType::OneGiB));
    assert!(PageType::try_from_table_type(PageTableType::PageMapLevel4Table).is_err());
}
