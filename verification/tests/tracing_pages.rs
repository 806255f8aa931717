use std::cell::RefCell;

use lib::bitmap::{init_address_masks, PS_BIT, P_BIT, RW_BIT};
use lib::errors::PagingError;
use lib::management::map::{MapAnswer, MapRequest};
use lib::memory::MemoryOwner;
use lib::page::PageType;
use lib::physmem::PhysicalMemory;
use lib::table::PageTable;
use lib::tracing::metadata::Metadata;
use lib::tracing::page::{TracingPage, METADATA_ARRAY_SIZE};
use lib::tracing::pages::TracingPages;

fn taken(pa: u64, la: u64, sz: u64) -> Metadata {
    Metadata::new_taken(pa, la, sz)
}

fn free(pa: u64, la: u64, sz: u64) -> Metadata {
    Metadata::new_free(pa, la, sz)
}

fn assert_md(actual: Metadata, expected: Metadata) {
    assert_eq!(actual.lower_paddr(), expected.lower_paddr());
    assert_eq!(actual.lower_laddr(), expected.lower_laddr());
    assert_eq!(actual.size(), expected.size());
    assert_eq!(actual.is_free(), expected.is_free());
    assert_eq!(actual.is_taken(), expected.is_taken());
    assert_eq!(actual.is_none(), expected.is_none());
}

fn page_with(entries: &[Metadata]) -> TracingPage {
    let mut page = TracingPage::new();
    for md in entries {
        page.append_unchecked(*md);
    }
    page
}

/// Four separated entries: taken, free, free, taken
fn four_entries() -> TracingPage {
    page_with(&[
        taken(0x1000, 0xA000, 0x100),
        free(0x2000, 0xB000, 0x100),
        free(0x3000, 0xC000, 0x100),
        taken(0x4000, 0xD000, 0x100),
    ])
}

/// A full page of taken entries of 0x100 Bytes from 0x1000 to 0x1000F00
fn full_taken() -> TracingPage {
    let mut page = TracingPage::new();
    page.fill_taken(0x1000, 0xA000, 0x100);
    page
}

/// A full page of alternating taken and free entries of 0x100 Bytes
fn full_alternate() -> TracingPage {
    let mut page = TracingPage::new();
    page.fill_alternate(0x1000, 0xA000, 0x100);
    page
}

/// Entries right above a full page, with two holes
fn multiple_entries() -> TracingPage {
    page_with(&[
        taken(0x1000F00, 0x1009F00, 0x100),
        taken(0x1001100, 0x100A100, 0x100),
        taken(0x1001200, 0x100A200, 0x100),
        taken(0x1001400, 0x100A400, 0x100),
    ])
}

fn single(page: TracingPage) -> TracingPages {
    TracingPages { pages: vec![page] }
}

fn double(first: TracingPage, second: TracingPage) -> TracingPages {
    TracingPages { pages: vec![first, second] }
}

fn assert_four_entries_unchanged(page: &TracingPage) {
    assert_eq!(page.size(), 4);
    assert_md(page.entry_at(0), taken(0x1000, 0xA000, 0x100));
    assert_md(page.entry_at(1), free(0x2000, 0xB000, 0x100));
    assert_md(page.entry_at(2), free(0x3000, 0xC000, 0x100));
    assert_md(page.entry_at(3), taken(0x4000, 0xD000, 0x100));
}

const LAST: usize = METADATA_ARRAY_SIZE - 1;

#[test]
fn new_pages_hold_one_empty_page() {
    let pages = TracingPages::new();
    assert_eq!(pages.len(), 1);
    assert!(pages.pages[0].is_empty());
}

/// The kernel tracing tables mapping `n` tracing pages: the last PML4T entry
/// points to the PDPT at 0x20000, whose first entry points to the PDT at
/// 0x30000, whose first entries map the pages from 0x60_0000 on
fn tracing_tables(n: u64) -> (PageTable, PhysicalMemory) {
    let mut mem = PhysicalMemory::new();
    mem.write(0x10FF8, 0x20000 | RW_BIT | P_BIT);
    mem.write(0x20000, 0x30000 | RW_BIT | P_BIT);
    for k in 0..n {
        mem.write(0x30000 + 8 * k, (0x60_0000 + 0x20_0000 * k) | RW_BIT | P_BIT | PS_BIT);
    }
    (PageTable::pml4t(0x10000, MemoryOwner::Kernel), mem)
}

/// Cleans up the pages, the memory map answering `answer`; the result and the
/// requests made
fn cleanup(pages: &mut TracingPages, mem: &mut PhysicalMemory, pml4t: PageTable, answer: MapAnswer)
    -> (Result<(), PagingError>, Vec<MapRequest>)
{
    let masks = init_address_masks(40);
    let asked = RefCell::new(Vec::new());
    let map = |q: MapRequest| {
        asked.borrow_mut().push(q);
        answer
    };
    let r = pages.cleanup_unused_tracing_pages(pml4t, mem, &masks, &map);
    let requests = asked.borrow().clone();
    (r, requests)
}

fn release(frame: u64) -> MapRequest {
    MapRequest::KernelReleaseRange(frame, PageType::TwoMiB, 1)
}

#[test]
fn cleanup_unused_pages_two_empty() {
    let (pml4t, mut mem) = tracing_tables(2);
    let mut pages = double(TracingPage::new(), TracingPage::new());
    let (r, asked) = cleanup(&mut pages, &mut mem, pml4t, MapAnswer::Yes);
    assert_eq!(r, Ok(()));
    assert_eq!(asked, vec![release(0x80_0000)]);
    assert_eq!(mem.read(0x30008), 0);
    assert_ne!(mem.read(0x30000), 0);
    assert_eq!(pages.len(), 1);
    assert!(pages.pages[0].is_empty());
}

#[test]
fn cleanup_unused_pages_two_below() {
    let (pml4t, mut mem) = tracing_tables(2);
    let mut pages = double(four_entries(), TracingPage::new());
    let (r, asked) = cleanup(&mut pages, &mut mem, pml4t, MapAnswer::Yes);
    assert_eq!(r, Ok(()));
    assert_eq!(asked, vec![release(0x80_0000)]);
    assert_eq!(mem.read(0x30008), 0);
    assert_eq!(pages.len(), 1);
    assert_eq!(pages.pages[0].size(), 4);
}

#[test]
fn cleanup_unused_pages_two_above() {
    let (pml4t, mut mem) = tracing_tables(2);
    let mut pages = double(full_taken(), TracingPage::new());
    let (r, asked) = cleanup(&mut pages, &mut mem, pml4t, MapAnswer::Yes);
    assert_eq!(r, Ok(()));
    assert!(asked.is_empty());
    assert_ne!(mem.read(0x30008), 0);
    assert_eq!(pages.len(), 2);
    assert!(pages.pages[0].is_full());
    assert!(pages.pages[1].is_empty());
}

#[test]
fn cleanup_unused_pages_three_below() {
    let (pml4t, mut mem) = tracing_tables(3);
    let mut pages = TracingPages { pages: vec![four_entries(), TracingPage::new(), TracingPage::new()] };
    let (r, asked) = cleanup(&mut pages, &mut mem, pml4t, MapAnswer::Yes);
    assert_eq!(r, Ok(()));
    assert_eq!(asked, vec![release(0x80_0000), release(0xA0_0000)]);
    assert_eq!(mem.read(0x30008), 0);
    assert_eq!(mem.read(0x30010), 0);
    assert_eq!(pages.len(), 1);
    assert_eq!(pages.pages[0].size(), 4);
}

#[test]
fn cleanup_unused_pages_three_above() {
    let (pml4t, mut mem) = tracing_tables(3);
    let mut pages = TracingPages { pages: vec![full_taken(), TracingPage::new(), TracingPage::new()] };
    let (r, asked) = cleanup(&mut pages, &mut mem, pml4t, MapAnswer::Yes);
    assert_eq!(r, Ok(()));
    assert_eq!(asked, vec![release(0xA0_0000)]);
    assert_ne!(mem.read(0x30008), 0);
    assert_eq!(mem.read(0x30010), 0);
    assert_eq!(pages.len(), 2);
    assert!(pages.pages[0].is_full());
    assert!(pages.pages[1].is_empty());
}

#[test]
fn fail_cleanup_unused_pages_when_a_frame_stays() {
    let (pml4t, mut mem) = tracing_tables(3);
    let mut pages = TracingPages { pages: vec![four_entries(), TracingPage::new(), TracingPage::new()] };
    let (r, asked) = cleanup(&mut pages, &mut mem, pml4t, MapAnswer::No);
    assert_eq!(r, Err(PagingError::DeallocationFailure));
    assert_eq!(asked, vec![release(0x80_0000)]);
    assert_ne!(mem.read(0x30008), 0);
    assert_ne!(mem.read(0x30010), 0);
    assert_eq!(pages.len(), 1);
}

#[test]
fn fail_cleanup_unused_pages_without_tracing_tables() {
    let mut mem = PhysicalMemory::new();
    let pml4t = PageTable::pml4t(0x10000, MemoryOwner::Kernel);
    let mut pages = double(TracingPage::new(), TracingPage::new());
    let (r, asked) = cleanup(&mut pages, &mut mem, pml4t, MapAnswer::Yes);
    assert!(r.is_err());
    assert!(asked.is_empty());
    assert_eq!(pages.len(), 1);
}

#[test]
fn merge_pages() {
    let first = page_with(&[
        taken(0x1000, 0xA000, 0x1000),
        taken(0x2000, 0xB000, 0x1000),
        free(0x3000, 0xC000, 0x1000),
    ]);
    let second = page_with(&[free(0x4000, 0xD000, 0x1000), taken(0x5000, 0xE000, 0x1000)]);
    let mut pages = double(first, second);
    assert!(pages.merge_tracing_pages().is_ok());
    assert_eq!(pages.len(), 2);
    assert_eq!(pages.pages[0].size(), 4);
    assert!(pages.pages[1].is_empty());
    assert_md(pages.pages[0].entry_at(0), taken(0x1000, 0xA000, 0x1000));
    assert_md(pages.pages[0].entry_at(1), taken(0x2000, 0xB000, 0x1000));
    assert_md(pages.pages[0].entry_at(2), free(0x3000, 0xC000, 0x2000));
    assert_md(pages.pages[0].entry_at(3), taken(0x5000, 0xE000, 0x1000));
}

#[test]
fn insert_entry_empty_page() {
    let mut pages = TracingPages::new();
    let new_md = taken(0x1000, 0xA000, 0x100);
    assert!(pages.insert_entry(new_md).is_ok());
    assert_eq!(pages.len(), 1);
    assert_eq!(pages.pages[0].size(), 1);
    assert_md(pages.pages[0].entry_at(0), new_md);
}

#[test]
fn insert_entry() {
    let mut pages = single(four_entries());
    let new_md = taken(0x2800, 0xB800, 0x100);
    assert!(pages.insert_entry(new_md).is_ok());
    let page = &pages.pages[0];
    assert_eq!(page.size(), 5);
    assert_md(page.entry_at(0), taken(0x1000, 0xA000, 0x100));
    assert_md(page.entry_at(1), free(0x2000, 0xB000, 0x100));
    assert_md(page.entry_at(2), new_md);
    assert_md(page.entry_at(3), free(0x3000, 0xC000, 0x100));
    assert_md(page.entry_at(4), taken(0x4000, 0xD000, 0x100));
    assert_eq!(pages.len(), 1);
}

#[test]
fn insert_entry_full_page() {
    let mut pages = single(full_taken());
    let new_md = taken(0xF00, 0x9F00, 0x100);
    assert!(pages.insert_entry(new_md).is_ok());
    assert_eq!(pages.len(), 2);
    assert!(pages.pages[0].is_full());
    assert_md(pages.pages[0].entry_at(0), new_md);
    assert_md(pages.pages[0].entry_at(LAST), taken(0x1000D00, 0x1009D00, 0x100));
    assert_eq!(pages.pages[1].size(), 1);
    assert_md(pages.pages[1].entry_at(0), taken(0x1000E00, 0x1009E00, 0x100));
}

#[test]
fn insert_available_space_merges_with_free_neighbour() {
    let mut pages = single(four_entries());
    assert!(pages.insert_available_space(0x2100, 0xB100, 0x100).is_ok());
    let page = &pages.pages[0];
    assert_eq!(page.size(), 4);
    assert_md(page.entry_at(1), free(0x2000, 0xB000, 0x200));
}

#[test]
fn insert_available_space_below_every_entry() {
    let mut pages = single(four_entries());
    assert!(pages.insert_available_space(0x800, 0x9800, 0x100).is_ok());
    let page = &pages.pages[0];
    assert_eq!(page.size(), 5);
    assert_md(page.entry_at(0), free(0x800, 0x9800, 0x100));
    assert_md(page.entry_at(1), taken(0x1000, 0xA000, 0x100));
}

#[test]
fn fail_insert_available_space_above_every_page() {
    let mut pages = single(four_entries());
    assert!(pages.insert_available_space(0x5000, 0xE000, 0x100).is_err());
    assert_four_entries_unchanged(&pages.pages[0]);
}

#[test]
fn remove_entry() {
    let mut pages = single(four_entries());
    assert!(pages.remove_space(0x3000, 0x100).is_ok());
    let page = &pages.pages[0];
    assert_eq!(page.size(), 3);
    assert_md(page.entry_at(0), taken(0x1000, 0xA000, 0x100));
    assert_md(page.entry_at(1), free(0x2000, 0xB000, 0x100));
    assert_md(page.entry_at(2), taken(0x4000, 0xD000, 0x100));
}

#[test]
fn fail_remove_entry_unexisting() {
    let mut pages = single(four_entries());
    assert!(pages.remove_space(0x5000, 0x100).is_err());
    assert_four_entries_unchanged(&pages.pages[0]);
    assert_eq!(pages.len(), 1);
}

#[test]
fn take_entry() {
    let mut pages = single(four_entries());
    assert!(pages.take_available_space(0x3000, 0x100).is_ok());
    let page = &pages.pages[0];
    assert_eq!(page.size(), 4);
    assert_md(page.entry_at(0), taken(0x1000, 0xA000, 0x100));
    assert_md(page.entry_at(1), free(0x2000, 0xB000, 0x100));
    assert_md(page.entry_at(2), taken(0x3000, 0xC000, 0x100));
    assert_md(page.entry_at(3), taken(0x4000, 0xD000, 0x100));
}

#[test]
fn fail_take_entry_unexisting() {
    let mut pages = single(four_entries());
    assert!(pages.take_available_space(0x5000, 0x100).is_err());
    assert_four_entries_unchanged(&pages.pages[0]);
}

#[test]
fn drop_entry() {
    let mut pages = single(four_entries());
    assert!(pages.drop_occupied_space(0x4000).is_ok());
    let page = &pages.pages[0];
    assert_eq!(page.size(), 4);
    assert_md(page.entry_at(0), taken(0x1000, 0xA000, 0x100));
    assert_md(page.entry_at(1), free(0x2000, 0xB000, 0x100));
    assert_md(page.entry_at(2), free(0x3000, 0xC000, 0x100));
    assert_md(page.entry_at(3), free(0x4000, 0xD000, 0x100));
}

#[test]
fn fail_drop_entry_unexisting() {
    let mut pages = single(four_entries());
    assert!(pages.drop_occupied_space(0x5000).is_err());
    assert_four_entries_unchanged(&pages.pages[0]);
}

#[test]
fn take_then_drop_gives_back_a_free_entry() {
    let mut pages = single(four_entries());
    assert!(pages.take_available_space(0x2000, 0x100).is_ok());
    assert_md(pages.pages[0].entry_at(1), taken(0x2000, 0xB000, 0x100));
    assert!(pages.drop_occupied_space(0x2000).is_ok());
    assert_four_entries_unchanged(&pages.pages[0]);
}

#[test]
fn update_entry_resize_smaller() {
    let mut pages = single(four_entries());
    assert!(pages.resize(0x4000, 0x80).is_ok());
    let page = &pages.pages[0];
    assert_eq!(page.size(), 5);
    assert_md(page.entry_at(0), taken(0x1000, 0xA000, 0x100));
    assert_md(page.entry_at(1), free(0x2000, 0xB000, 0x100));
    assert_md(page.entry_at(2), free(0x3000, 0xC000, 0x100));
    assert_md(page.entry_at(3), taken(0x4000, 0xD000, 0x80));
    assert_md(page.entry_at(4), free(0x4080, 0xD080, 0x80));
}

fn four_entries_big_first() -> TracingPage {
    page_with(&[
        taken(0x1000, 0xA000, 0x1000),
        free(0x2000, 0xB000, 0x100),
        free(0x3000, 0xC000, 0x100),
        taken(0x4000, 0xD000, 0x100),
    ])
}

#[test]
fn update_entry_resize_bigger() {
    let mut pages = single(four_entries_big_first());
    assert!(pages.resize(0x1000, 0x1100).is_ok());
    let page = &pages.pages[0];
    assert_eq!(page.size(), 3);
    assert_md(page.entry_at(0), taken(0x1000, 0xA000, 0x1100));
    assert_md(page.entry_at(1), free(0x3000, 0xC000, 0x100));
    assert_md(page.entry_at(2), taken(0x4000, 0xD000, 0x100));
}

#[test]
fn fail_update_entry_resize_unexisting() {
    let mut pages = single(four_entries());
    assert!(pages.resize(0x5000, 0x100).is_err());
    assert_four_entries_unchanged(&pages.pages[0]);
}

#[test]
fn query_relocation_inplace_smaller() {
    let pages = single(four_entries());
    let r = pages.can_relocate_inplace(0xD000, 0x80);
    assert_eq!(r.map(|x| x.0), Ok(true));
    assert_four_entries_unchanged(&pages.pages[0]);
}

#[test]
fn query_relocation_inplace_bigger_contiguous_free_bigger() {
    let pages = single(four_entries_big_first());
    assert_eq!(pages.can_relocate_inplace(0xA000, 0x1080).map(|x| x.0), Ok(true));
    assert_eq!(pages.pages[0].size(), 4);
}

#[test]
fn query_relocation_inplace_bigger_contiguous_free_smaller() {
    let pages = single(four_entries_big_first());
    assert_eq!(pages.can_relocate_inplace(0xA000, 0x1200).map(|x| x.0), Ok(false));
}

#[test]
fn query_relocation_inplace_bigger_noncontiguous_free() {
    let pages = single(four_entries());
    assert_eq!(pages.can_relocate_inplace(0xA000, 0x1080).map(|x| x.0), Ok(false));
}

#[test]
fn query_relocation_inplace_bigger_free_not_right_after() {
    let pages = single(page_with(&[taken(0x1000, 0xA000, 0x100), free(0x2000, 0xB000, 0x1000)]));
    assert_eq!(pages.can_relocate_inplace(0xA000, 0x200), Ok((false, 0x100)));
    assert_eq!(pages.pages[0].size(), 2);
}

#[test]
fn query_relocation_inplace_bigger_contiguous_taken() {
    let pages = single(page_with(&[
        taken(0x1000, 0xA000, 0x1000),
        taken(0x2000, 0xB000, 0x100),
        free(0x3000, 0xC000, 0x100),
        taken(0x4000, 0xD000, 0x100),
    ]));
    assert_eq!(pages.can_relocate_inplace(0xA000, 0x1080).map(|x| x.0), Ok(false));
}

#[test]
fn fail_query_relocation_inplace_unexisting() {
    let pages = single(four_entries());
    assert!(pages.can_relocate_inplace(0xE000, 0x80).is_err());
}

#[test]
fn find_available_space_first_fit() {
    let pages = single(page_with(&[
        taken(0x1000, 0xA000, 0x100),
        free(0x2000, 0xB000, 0x100),
        free(0x3000, 0xC000, 0x400),
        free(0x4000, 0xD000, 0x800),
    ]));
    assert_eq!(pages.find_available_space(0x100), Some((0x2000, 0xB000)));
    assert_eq!(pages.find_available_space(0x200), Some((0x3000, 0xC000)));
    assert_eq!(pages.find_available_space(0x800), Some((0x4000, 0xD000)));
    assert_eq!(pages.find_available_space(0x801), None);
}

#[test]
fn insert_entry_first_page() {
    let mut pages = double(full_taken(), multiple_entries());
    let new_md = taken(0xF00, 0x9F00, 0x100);
    assert!(pages.insert_entry(new_md).is_ok());
    assert!(pages.pages[0].is_full());
    assert_md(pages.pages[0].entry_at(0), new_md);
    assert_md(pages.pages[0].entry_at(LAST), taken(0x1000D00, 0x1009D00, 0x100));
    assert_eq!(pages.pages[1].size(), 5);
    assert_md(pages.pages[1].entry_at(0), taken(0x1000E00, 0x1009E00, 0x100));
    assert_md(pages.pages[1].entry_at(4), taken(0x1001400, 0x100A400, 0x100));
    assert_eq!(pages.len(), 2);
}

#[test]
fn insert_entry_second_page_empty() {
    let mut pages = double(full_taken(), TracingPage::new());
    let new_md = taken(0x1000F00, 0x1009F00, 0x100);
    assert!(pages.insert_entry(new_md).is_ok());
    assert!(pages.pages[0].is_full());
    assert_md(pages.pages[0].entry_at(LAST), taken(0x1000E00, 0x1009E00, 0x100));
    assert_eq!(pages.pages[1].size(), 1);
    assert_md(pages.pages[1].entry_at(0), new_md);
}

#[test]
fn insert_entry_second_page_free() {
    let mut pages = double(full_taken(), page_with(&[free(0x1000F00, 0x1009F00, 0x100)]));
    let new_md = free(0x1001000, 0x100A000, 0x100);
    assert!(pages.insert_entry(new_md).is_ok());
    assert!(pages.pages[0].is_full());
    assert_md(pages.pages[0].entry_at(LAST), taken(0x1000E00, 0x1009E00, 0x100));
    assert_eq!(pages.pages[1].size(), 1);
    assert_md(pages.pages[1].entry_at(0), free(0x1000F00, 0x1009F00, 0x200));
}

#[test]
fn insert_entry_second_page_taken() {
    let mut pages = double(full_taken(), page_with(&[taken(0x1000F00, 0x1009F00, 0x100)]));
    let new_md = taken(0x1001000, 0x100A000, 0x100);
    assert!(pages.insert_entry(new_md).is_ok());
    assert!(pages.pages[0].is_full());
    assert_eq!(pages.pages[1].size(), 2);
    assert_md(pages.pages[1].entry_at(0), taken(0x1000F00, 0x1009F00, 0x100));
    assert_md(pages.pages[1].entry_at(1), new_md);
}

#[test]
fn insert_entry_second_page_multiple() {
    let mut pages = double(full_taken(), multiple_entries());
    let new_md = taken(0x1001000, 0x100A000, 0x100);
    assert!(pages.insert_entry(new_md).is_ok());
    assert!(pages.pages[0].is_full());
    assert_md(pages.pages[0].entry_at(LAST), taken(0x1000E00, 0x1009E00, 0x100));
    let page2 = &pages.pages[1];
    assert_eq!(page2.size(), 5);
    assert_md(page2.entry_at(0), taken(0x1000F00, 0x1009F00, 0x100));
    assert_md(page2.entry_at(1), new_md);
    assert_md(page2.entry_at(2), taken(0x1001100, 0x100A100, 0x100));
    assert_md(page2.entry_at(3), taken(0x1001200, 0x100A200, 0x100));
    assert_md(page2.entry_at(4), taken(0x1001400, 0x100A400, 0x100));
}

#[test]
fn remove_entry_first_page() {
    let mut pages = double(full_taken(), multiple_entries());
    assert!(pages.remove_space(0x1000, 0x100).is_ok());
    assert!(pages.pages[0].is_full());
    assert_md(pages.pages[0].entry_at(0), taken(0x1100, 0xA100, 0x100));
    assert_md(pages.pages[0].entry_at(LAST), taken(0x1000F00, 0x1009F00, 0x100));
    let page2 = &pages.pages[1];
    assert_eq!(page2.size(), 3);
    assert_md(page2.entry_at(0), taken(0x1001100, 0x100A100, 0x100));
    assert_md(page2.entry_at(1), taken(0x1001200, 0x100A200, 0x100));
    assert_md(page2.entry_at(2), taken(0x1001400, 0x100A400, 0x100));
}

#[test]
fn remove_entry_partially_first_page() {
    let mut pages = double(full_alternate(), multiple_entries());
    assert!(pages.remove_space(0x1140, 0x80).is_ok());
    let page1 = &pages.pages[0];
    assert!(page1.is_full());
    assert_md(page1.entry_at(0), taken(0x1000, 0xA000, 0x100));
    assert_md(page1.entry_at(1), free(0x1100, 0xA100, 0x40));
    assert_md(page1.entry_at(2), free(0x11C0, 0xA1C0, 0x40));
    assert_md(page1.entry_at(LAST), free(0x1000D00, 0x1009D00, 0x100));
    let page2 = &pages.pages[1];
    assert_eq!(page2.size(), 5);
    assert_md(page2.entry_at(0), taken(0x1000E00, 0x1009E00, 0x100));
    assert_md(page2.entry_at(1), taken(0x1000F00, 0x1009F00, 0x100));
    assert_md(page2.entry_at(2), taken(0x1001100, 0x100A100, 0x100));
    assert_md(page2.entry_at(3), taken(0x1001200, 0x100A200, 0x100));
    assert_md(page2.entry_at(4), taken(0x1001400, 0x100A400, 0x100));
}

#[test]
fn remove_entry_first_page_last_with_reminder() {
    let mut pages = double(full_taken(), multiple_entries());
    assert!(pages.remove_space(0x1000E00, 0x200).is_ok());
    assert!(pages.pages[0].is_full());
    assert_md(pages.pages[0].entry_at(0), taken(0x1000, 0xA000, 0x100));
    assert_md(pages.pages[0].entry_at(LAST), taken(0x1001100, 0x100A100, 0x100));
    let page2 = &pages.pages[1];
    assert_eq!(page2.size(), 2);
    assert_md(page2.entry_at(0), taken(0x1001200, 0x100A200, 0x100));
    assert_md(page2.entry_at(1), taken(0x1001400, 0x100A400, 0x100));
}

#[test]
fn remove_entry_second_page() {
    let mut pages = double(full_taken(), multiple_entries());
    assert!(pages.remove_space(0x1001100, 0x100).is_ok());
    assert!(pages.pages[0].is_full());
    assert_md(pages.pages[0].entry_at(LAST), taken(0x1000E00, 0x1009E00, 0x100));
    let page2 = &pages.pages[1];
    assert_eq!(page2.size(), 3);
    assert_md(page2.entry_at(0), taken(0x1000F00, 0x1009F00, 0x100));
    assert_md(page2.entry_at(1), taken(0x1001200, 0x100A200, 0x100));
    assert_md(page2.entry_at(2), taken(0x1001400, 0x100A400, 0x100));
}

#[test]
fn take_entry_partially_first_page() {
    let mut pages = double(full_alternate(), multiple_entries());
    assert!(pages.take_available_space(0x1140, 0x80).is_ok());
    let page1 = &pages.pages[0];
    assert!(page1.is_full());
    assert_md(page1.entry_at(0), taken(0x1000, 0xA000, 0x100));
    assert_md(page1.entry_at(1), free(0x1100, 0xA100, 0x40));
    assert_md(page1.entry_at(2), taken(0x1140, 0xA140, 0x80));
    assert_md(page1.entry_at(3), free(0x11C0, 0xA1C0, 0x40));
    assert_md(page1.entry_at(LAST), taken(0x1000C00, 0x1009C00, 0x100));
    let page2 = &pages.pages[1];
    assert_eq!(page2.size(), 6);
    assert_md(page2.entry_at(0), free(0x1000D00, 0x1009D00, 0x100));
    assert_md(page2.entry_at(1), taken(0x1000E00, 0x1009E00, 0x100));
    assert_md(page2.entry_at(2), taken(0x1000F00, 0x1009F00, 0x100));
    assert_md(page2.entry_at(3), taken(0x1001100, 0x100A100, 0x100));
    assert_md(page2.entry_at(4), taken(0x1001200, 0x100A200, 0x100));
    assert_md(page2.entry_at(5), taken(0x1001400, 0x100A400, 0x100));
}

#[test]
fn take_entry_entirely_second_page() {
    let mut second = multiple_entries();
    second.metadata[0].set_free();
    let mut pages = double(full_taken(), second);
    assert!(pages.take_available_space(0x1000F00, 0x100).is_ok());
    assert!(pages.pages[0].is_full());
    assert_md(pages.pages[0].entry_at(LAST), taken(0x1000E00, 0x1009E00, 0x100));
    let page2 = &pages.pages[1];
    assert_eq!(page2.size(), 4);
    assert_md(page2.entry_at(0), taken(0x1000F00, 0x1009F00, 0x100));
    assert_md(page2.entry_at(1), taken(0x1001100, 0x100A100, 0x100));
    assert_md(page2.entry_at(2), taken(0x1001200, 0x100A200, 0x100));
    assert_md(page2.entry_at(3), taken(0x1001400, 0x100A400, 0x100));
}

#[test]
fn drop_entry_first_page() {
    let mut pages = double(full_taken(), multiple_entries());
    assert!(pages.drop_occupied_space(0x1000).is_ok());
    assert!(pages.pages[0].is_full());
    assert_md(pages.pages[0].entry_at(0), free(0x1000, 0xA000, 0x100));
    assert_eq!(pages.pages[1].size(), 4);
    assert_md(pages.pages[1].entry_at(0), taken(0x1000F00, 0x1009F00, 0x100));
    assert_md(pages.pages[1].entry_at(3), taken(0x1001400, 0x100A400, 0x100));
}

#[test]
fn drop_entry_second_page() {
    let mut pages = double(full_taken(), multiple_entries());
    assert!(pages.drop_occupied_space(0x1001100).is_ok());
    assert!(pages.pages[0].is_full());
    assert_md(pages.pages[0].entry_at(0), taken(0x1000, 0xA000, 0x100));
    assert_md(pages.pages[0].entry_at(LAST), taken(0x1000E00, 0x1009E00, 0x100));
    let page2 = &pages.pages[1];
    assert_eq!(page2.size(), 4);
    assert_md(page2.entry_at(0), taken(0x1000F00, 0x1009F00, 0x100));
    assert_md(page2.entry_at(1), free(0x1001100, 0x100A100, 0x100));
    assert_md(page2.entry_at(2), taken(0x1001200, 0x100A200, 0x100));
    assert_md(page2.entry_at(3), taken(0x1001400, 0x100A400, 0x100));
}

#[test]
fn update_entry_resize_smaller_first_page() {
    let mut pages = double(full_taken(), multiple_entries());
    assert!(pages.resize(0x1000, 0x80).is_ok());
    let page1 = &pages.pages[0];
    assert!(page1.is_full());
    assert_md(page1.entry_at(0), taken(0x1000, 0xA000, 0x80));
    assert_md(page1.entry_at(1), free(0x1080, 0xA080, 0x80));
    assert_md(page1.entry_at(LAST), taken(0x1000D00, 0x1009D00, 0x100));
    let page2 = &pages.pages[1];
    assert_eq!(page2.size(), 5);
    assert_md(page2.entry_at(0), taken(0x1000E00, 0x1009E00, 0x100));
    assert_md(page2.entry_at(1), taken(0x1000F00, 0x1009F00, 0x100));
    assert_md(page2.entry_at(2), taken(0x1001100, 0x100A100, 0x100));
    assert_md(page2.entry_at(3), taken(0x1001200, 0x100A200, 0x100));
    assert_md(page2.entry_at(4), taken(0x1001400, 0x100A400, 0x100));
}

#[test]
fn update_entry_resize_bigger_first_page() {
    let mut pages = double(full_alternate(), multiple_entries());
    assert!(pages.resize(0x1000, 0x200).is_ok());
    let page1 = &pages.pages[0];
    assert!(page1.is_full());
    assert_md(page1.entry_at(0), taken(0x1000, 0xA000, 0x200));
    assert_md(page1.entry_at(1), taken(0x1200, 0xA200, 0x100));
    assert_md(page1.entry_at(LAST), taken(0x1000F00, 0x1009F00, 0x100));
    let page2 = &pages.pages[1];
    assert_eq!(page2.size(), 3);
    assert_md(page2.entry_at(0), taken(0x1001100, 0x100A100, 0x100));
    assert_md(page2.entry_at(1), taken(0x1001200, 0x100A200, 0x100));
    assert_md(page2.entry_at(2), taken(0x1001400, 0x100A400, 0x100));
}

#[test]
fn update_entry_resize_smaller_second_page() {
    let mut pages = double(full_taken(), multiple_entries());
    assert!(pages.resize(0x1001100, 0x80).is_ok());
    assert!(pages.pages[0].is_full());
    assert_md(pages.pages[0].entry_at(LAST), taken(0x1000E00, 0x1009E00, 0x100));
    let page2 = &pages.pages[1];
    assert_eq!(page2.size(), 5);
    assert_md(page2.entry_at(0), taken(0x1000F00, 0x1009F00, 0x100));
    assert_md(page2.entry_at(1), taken(0x1001100, 0x100A100, 0x80));
    assert_md(page2.entry_at(2), free(0x1001180, 0x100A180, 0x80));
    assert_md(page2.entry_at(3), taken(0x1001200, 0x100A200, 0x100));
    assert_md(page2.entry_at(4), taken(0x1001400, 0x100A400, 0x100));
}

#[test]
fn query_relocation_inplace_first_page() {
    let pages = double(full_taken(), multiple_entries());
    assert_eq!(pages.can_relocate_inplace(0xA000, 0x80).map(|x| x.0), Ok(true));
    assert!(pages.pages[0].is_full());
    assert_eq!(pages.pages[1].size(), 4);
}

#[test]
fn query_relocation_inplace_second_page() {
    let pages = double(full_taken(), multiple_entries());
    assert_eq!(pages.can_relocate_inplace(0x1009F00, 0x80).map(|x| x.0), Ok(true));
    assert_eq!(pages.pages[1].size(), 4);
}

#[test]
fn take_entry_on_a_full_last_page_stores_the_excess_in_a_new_page() {
    let mut entries = vec![free(0x1000, 0xA000, 0x300)];
    for k in 1..METADATA_ARRAY_SIZE as u64 {
        entries.push(taken(0x1300 + (k - 1) * 0x10, 0xA300 + (k - 1) * 0x10, 0x10));
    }
    let mut pages = single(page_with(&entries));
    assert!(!pages.cannot_take_space(0x1100, 0x100));
    assert_eq!(pages.take_available_space(0x1100, 0x100), Ok(()));
    assert_eq!(pages.len(), 2);
    assert_md(pages.pages[0].entry_at(0), free(0x1000, 0xA000, 0x100));
    assert_md(pages.pages[0].entry_at(1), taken(0x1100, 0xA100, 0x100));
    assert_md(pages.pages[0].entry_at(2), free(0x1200, 0xA200, 0x100));
    assert_eq!(pages.pages[1].size(), 2);
}
