//! Removing pages from the tables used to allocate memory.

use vstd::prelude::*;
use crate::allocations::{
    AllocationsPml4tIterator, AllocationsPdptIterator, AllocationsPdtIterator, AllocationsPtIterator,
    pdpt_from, pdt_from, pt_from, pdpt_step, pdt_step, pt_step, pdpt_measure, pdt_measure, pt_measure,
    lemma_pdpt_step, lemma_pdt_step, lemma_pt_step, masks_ok, index_at, pml4t_index, pdpt_index,
    pdt_index, pt_index, PML4T_SHIFT, PDPT_SHIFT, PDT_SHIFT, PT_SHIFT,
};
use crate::bitmap::{AddressMasks, Bitmap};
use crate::errors::PagingError;
use crate::indexers::{PageTableEntryIndex, PageTableEntryOffset, alloc_index_start, alloc_index_end};
use crate::memory::MemoryOwner;
use crate::page::{PageType, page_size_of};
use crate::physmem::{PhysicalMemory, word_at};
use crate::search::{measure_bound, lemma_measures_bounded, lemma_pdt_measure_bounded, lemma_pdpt_measure_bounded};
use crate::table::{PageTable, table_of_entry};
use crate::table_type::PageTableType;
use crate::tables::PageTableIterator;
use crate::tracing::pages::{TracingPages, remove_space_outcome, remove_refused};
use crate::tracing::metadata::Metadata;
use crate::tracing::tables::{page_creation, page_created};
use crate::management::map::{MapRequest, MapAnswer, records, begins};

verus! {

/// The indexer of the allocation entries of a table, positioned on the entry
/// whose index is found at the given position of a logical address
pub open spec fn laddr_offset(laddr: u64, shift: u64, t: PageTableType, owner: MemoryOwner) -> PageTableEntryOffset {
    PageTableEntryOffset {
        current_offset: (index_at(laddr, shift) * 8) as u64,
        next_offset: (index_at(laddr, shift) * 8) as u64,
        start: (alloc_index_start(t, owner) * 8) as u64,
        end: (alloc_index_end(t, owner) * 8) as u64,
        reversed: false,
    }
}

/// The outcome of removing `n` pages of 1 GiB walking the PDPTs from `it`:
/// `base` is the physical address of the first page removed so far and
/// `count` how many were removed; the result, with the address of the first
/// page, and the memory
pub open spec fn pdpt_removal(
    it: AllocationsPdptIterator,
    base: Option<u64>,
    count: nat,
    n: u64,
    mem: Map<u64, u64>,
    masks: AddressMasks,
) -> (Result<u64, PagingError>, Map<u64, u64>)
    decreases pdpt_measure(it),
{
    if !(it.wf() && masks_ok(masks)) {
        (Err(PagingError::PageFault), mem)
    } else {
        let (o, it2) = pdpt_step(it, mem, masks);
        match o {
            None => (if count > 0 { Err(PagingError::InvalidRequest) } else { Err(PagingError::PageFault) }, mem),
            Some((c, e)) => {
                if !c {
                    (Err(PagingError::InvalidRequest), mem)
                } else if !e.is_present(mem) {
                    (Err(PagingError::PageNotPresent), mem)
                } else if !e.is_huge(mem) {
                    (Err(PagingError::PageNotHuge), mem)
                } else {
                    let b = match base {
                        Some(b) => b,
                        None => e.bits(mem) & masks.mask_1g,
                    };
                    let mem2 = mem.insert(e.entry, 0);
                    if count + 1 == n {
                        (Ok(b), mem2)
                    } else {
                        proof { lemma_pdpt_step(it, mem, masks); }
                        pdpt_removal(it2, Some(b), count + 1, n, mem2, masks)
                    }
                }
            },
        }
    }
}

/// Removes `n_pages` pages of 1 GiB starting from the one mapped at the
/// given logical address, clearing their entries
///
/// Returns an [`Err`] if the entries are not contiguous or do not map pages
/// of this size, or if the pages run past the last table; otherwise returns
/// the physical address of the first page.
pub fn remove_1gib_pages(base_laddr: u64, n_pages: u64, pml4t: PageTable, mem: &mut PhysicalMemory, masks: &AddressMasks) -> (r: Result<u64, PagingError>)
    requires
        pml4t.table_type == PageTableType::PageMapLevel4Table,
        pml4t.fits(),
        masks_ok(*masks),
    ensures
        (r, final(mem).view()) == (match pdpt_from(AllocationsPml4tIterator { pml4t_iter: PageTableIterator { page_table: pml4t, entry_offset: laddr_offset(base_laddr, PML4T_SHIFT, PageTableType::PageMapLevel4Table, pml4t.table_owner) } }, Some(laddr_offset(base_laddr, PDPT_SHIFT, PageTableType::PageDirectoryPointerTable, pml4t.table_owner)), old(mem).view(), *masks) {
            Some(it) => pdpt_removal(it, None, 0, n_pages, old(mem).view(), *masks),
            None => (Err(PagingError::PageFault), old(mem).view()),
        }),
{
    let owner = pml4t.table_owner;
    let pml4t_ofs = PageTableEntryOffset::from_index(PageTableEntryIndex::allocations_with_index(pml4t_index(base_laddr), PageTableType::PageMapLevel4Table, owner));
    let pdpt_ofs = PageTableEntryOffset::from_index(PageTableEntryIndex::allocations_with_index(pdpt_index(base_laddr), PageTableType::PageDirectoryPointerTable, owner));
    if let Some(mut iterator) = AllocationsPdptIterator::new_with_offsets(pml4t_ofs, pdpt_ofs, pml4t, mem, masks) {
        let ghost start = iterator;
        let ghost m0 = mem.view();
        let mut count: u64 = 0;
        let mut base_paddr: Option<u64> = None;
        proof { lemma_pdpt_measure_bounded(iterator); }
        loop
            invariant
                iterator.wf(),
                masks_ok(*masks),
                m0 == old(mem).view(),
                (pdpt_from(AllocationsPml4tIterator { pml4t_iter: PageTableIterator { page_table: pml4t, entry_offset: laddr_offset(base_laddr, PML4T_SHIFT, PageTableType::PageMapLevel4Table, pml4t.table_owner) } }, Some(laddr_offset(base_laddr, PDPT_SHIFT, PageTableType::PageDirectoryPointerTable, pml4t.table_owner)), m0, *masks)) == Some(start),
                pdpt_removal(start, None, 0, n_pages, m0, *masks)
                    == pdpt_removal(iterator, base_paddr, count as nat, n_pages, mem.view(), *masks),
                count + pdpt_measure(iterator) < measure_bound(),
                count < n_pages || n_pages == 0,
                count > 0 ==> base_paddr is Some,
            decreases pdpt_measure(iterator),
        {
            proof { lemma_pdpt_step(iterator, mem.view(), *masks); }
            match iterator.next(mem, masks) {
                None => {
                    if count > 0 {
                        return Err(PagingError::InvalidRequest);
                    }
                    return Err(PagingError::PageFault);
                },
                Some((contiguous, entry)) => {
                    if !contiguous {
                        return Err(PagingError::InvalidRequest);
                    }
                    let entry_bitmap = entry.bitmap(mem);
                    if !entry_bitmap.present() {
                        return Err(PagingError::PageNotPresent);
                    } else if !entry_bitmap.page_size() {
                        return Err(PagingError::PageNotHuge);
                    }
                    if base_paddr.is_none() {
                        base_paddr = Some(entry_bitmap.address(PageType::OneGiB, masks));
                    }
                    entry.set_bitmap(mem, Bitmap::new());
                    count = count + 1;
                    if count == n_pages {
                        return match base_paddr {
                            Some(b) => Ok(b),
                            None => Err(PagingError::InternalFailure),
                        };
                    }
                },
            }
        }
    }
    Err(PagingError::PageFault)
}

/// The outcome of removing `n` pages of 2 MiB walking the PDTs from `it`:
/// `base` is the physical address of the first page removed so far and
/// `count` how many were removed; the result, with the address of the first
/// page, and the memory
pub open spec fn pdt_removal(
    it: AllocationsPdtIterator,
    base: Option<u64>,
    count: nat,
    n: u64,
    mem: Map<u64, u64>,
    masks: AddressMasks,
) -> (Result<u64, PagingError>, Map<u64, u64>)
    decreases pdt_measure(it),
{
    if !(it.wf() && masks_ok(masks)) {
        (Err(PagingError::PageFault), mem)
    } else {
        let (o, it2) = pdt_step(it, mem, masks);
        match o {
            None => (if count > 0 { Err(PagingError::InvalidRequest) } else { Err(PagingError::PageFault) }, mem),
            Some((c, e)) => {
                if !c {
                    (Err(PagingError::InvalidRequest), mem)
                } else if !e.is_present(mem) {
                    (Err(PagingError::PageNotPresent), mem)
                } else if !e.is_huge(mem) {
                    (Err(PagingError::PageNotHuge), mem)
                } else {
                    let b = match base {
                        Some(b) => b,
                        None => e.bits(mem) & masks.mask_2m,
                    };
                    let mem2 = mem.insert(e.entry, 0);
                    if count + 1 == n {
                        (Ok(b), mem2)
                    } else {
                        proof { lemma_pdt_step(it, mem, masks); }
                        pdt_removal(it2, Some(b), count + 1, n, mem2, masks)
                    }
                }
            },
        }
    }
}

/// Removes `n_pages` pages of 2 MiB starting from the one mapped at the
/// given logical address, clearing their entries
///
/// Returns an [`Err`] if the entries are not contiguous or do not map pages
/// of this size, or if the pages run past the last table; otherwise returns
/// the physical address of the first page.
pub fn remove_2mib_pages(base_laddr: u64, n_pages: u64, pml4t: PageTable, mem: &mut PhysicalMemory, masks: &AddressMasks) -> (r: Result<u64, PagingError>)
    requires
        pml4t.table_type == PageTableType::PageMapLevel4Table,
        pml4t.fits(),
        masks_ok(*masks),
    ensures
        (r, final(mem).view()) == (match match pdpt_from(AllocationsPml4tIterator { pml4t_iter: PageTableIterator { page_table: pml4t, entry_offset: laddr_offset(base_laddr, PML4T_SHIFT, PageTableType::PageMapLevel4Table, pml4t.table_owner) } }, Some(laddr_offset(base_laddr, PDPT_SHIFT, PageTableType::PageDirectoryPointerTable, pml4t.table_owner)), old(mem).view(), *masks) {
            Some(p) => pdt_from(p, Some(laddr_offset(base_laddr, PDT_SHIFT, PageTableType::PageDirectoryTable, pml4t.table_owner)), old(mem).view(), *masks),
            None => None,
        } {
            Some(it) => pdt_removal(it, None, 0, n_pages, old(mem).view(), *masks),
            None => (Err(PagingError::PageFault), old(mem).view()),
        }),
{
    let owner = pml4t.table_owner;
    let pml4t_ofs = PageTableEntryOffset::from_index(PageTableEntryIndex::allocations_with_index(pml4t_index(base_laddr), PageTableType::PageMapLevel4Table, owner));
    let pdpt_ofs = PageTableEntryOffset::from_index(PageTableEntryIndex::allocations_with_index(pdpt_index(base_laddr), PageTableType::PageDirectoryPointerTable, owner));
    let pdt_ofs = PageTableEntryOffset::from_index(PageTableEntryIndex::allocations_with_index(pdt_index(base_laddr), PageTableType::PageDirectoryTable, owner));
    if let Some(mut iterator) = AllocationsPdtIterator::new_with_offsets(pml4t_ofs, pdpt_ofs, pdt_ofs, pml4t, mem, masks) {
        let ghost start = iterator;
        let ghost m0 = mem.view();
        let mut count: u64 = 0;
        let mut base_paddr: Option<u64> = None;
        proof { lemma_pdt_measure_bounded(iterator); }
        loop
            invariant
                iterator.wf(),
                masks_ok(*masks),
                m0 == old(mem).view(),
                (match pdpt_from(AllocationsPml4tIterator { pml4t_iter: PageTableIterator { page_table: pml4t, entry_offset: laddr_offset(base_laddr, PML4T_SHIFT, PageTableType::PageMapLevel4Table, pml4t.table_owner) } }, Some(laddr_offset(base_laddr, PDPT_SHIFT, PageTableType::PageDirectoryPointerTable, pml4t.table_owner)), m0, *masks) {
            Some(p) => pdt_from(p, Some(laddr_offset(base_laddr, PDT_SHIFT, PageTableType::PageDirectoryTable, pml4t.table_owner)), m0, *masks),
            None => None,
        }) == Some(start),
                pdt_removal(start, None, 0, n_pages, m0, *masks)
                    == pdt_removal(iterator, base_paddr, count as nat, n_pages, mem.view(), *masks),
                count + pdt_measure(iterator) < measure_bound(),
                count < n_pages || n_pages == 0,
                count > 0 ==> base_paddr is Some,
            decreases pdt_measure(iterator),
        {
            proof { lemma_pdt_step(iterator, mem.view(), *masks); }
            match iterator.next(mem, masks) {
                None => {
                    if count > 0 {
                        return Err(PagingError::InvalidRequest);
                    }
                    return Err(PagingError::PageFault);
                },
                Some((contiguous, entry)) => {
                    if !contiguous {
                        return Err(PagingError::InvalidRequest);
                    }
                    let entry_bitmap = entry.bitmap(mem);
                    if !entry_bitmap.present() {
                        return Err(PagingError::PageNotPresent);
                    } else if !entry_bitmap.page_size() {
                        return Err(PagingError::PageNotHuge);
                    }
                    if base_paddr.is_none() {
                        base_paddr = Some(entry_bitmap.address(PageType::TwoMiB, masks));
                    }
                    entry.set_bitmap(mem, Bitmap::new());
                    count = count + 1;
                    if count == n_pages {
                        return match base_paddr {
                            Some(b) => Ok(b),
                            None => Err(PagingError::InternalFailure),
                        };
                    }
                },
            }
        }
    }
    Err(PagingError::PageFault)
}

/// The outcome of removing `n` pages of 4 KiB walking the PTs from `it`:
/// `base` is the physical address of the first page removed so far and
/// `count` how many were removed; the result, with the address of the first
/// page, and the memory
pub open spec fn pt_removal(
    it: AllocationsPtIterator,
    base: Option<u64>,
    count: nat,
    n: u64,
    mem: Map<u64, u64>,
    masks: AddressMasks,
) -> (Result<u64, PagingError>, Map<u64, u64>)
    decreases pt_measure(it),
{
    if !(it.wf() && masks_ok(masks)) {
        (Err(PagingError::PageFault), mem)
    } else {
        let (o, it2) = pt_step(it, mem, masks);
        match o {
            None => (if count > 0 { Err(PagingError::InvalidRequest) } else { Err(PagingError::PageFault) }, mem),
            Some((c, e)) => {
                if !c {
                    (Err(PagingError::InvalidRequest), mem)
                } else if !e.is_present(mem) {
                    (Err(PagingError::PageNotPresent), mem)
                } else {
                    let b = match base {
                        Some(b) => b,
                        None => e.bits(mem) & masks.mask_4k,
                    };
                    let mem2 = mem.insert(e.entry, 0);
                    if count + 1 == n {
                        (Ok(b), mem2)
                    } else {
                        proof { lemma_pt_step(it, mem, masks); }
                        pt_removal(it2, Some(b), count + 1, n, mem2, masks)
                    }
                }
            },
        }
    }
}

/// Removes `n_pages` pages of 4 KiB starting from the one mapped at the
/// given logical address, clearing their entries
///
/// Returns an [`Err`] if the entries are not contiguous or do not map pages
/// of this size, or if the pages run past the last table; otherwise returns
/// the physical address of the first page.
pub fn remove_4kib_pages(base_laddr: u64, n_pages: u64, pml4t: PageTable, mem: &mut PhysicalMemory, masks: &AddressMasks) -> (r: Result<u64, PagingError>)
    requires
        pml4t.table_type == PageTableType::PageMapLevel4Table,
        pml4t.fits(),
        masks_ok(*masks),
    ensures
        (r, final(mem).view()) == (match match pdpt_from(AllocationsPml4tIterator { pml4t_iter: PageTableIterator { page_table: pml4t, entry_offset: laddr_offset(base_laddr, PML4T_SHIFT, PageTableType::PageMapLevel4Table, pml4t.table_owner) } }, Some(laddr_offset(base_laddr, PDPT_SHIFT, PageTableType::PageDirectoryPointerTable, pml4t.table_owner)), old(mem).view(), *masks) {
            Some(p) => match pdt_from(p, Some(laddr_offset(base_laddr, PDT_SHIFT, PageTableType::PageDirectoryTable, pml4t.table_owner)), old(mem).view(), *masks) {
                Some(q) => pt_from(q, Some(laddr_offset(base_laddr, PT_SHIFT, PageTableType::PageTable, pml4t.table_owner)), old(mem).view(), *masks),
                None => None,
            },
            None => None,
        } {
            Some(it) => pt_removal(it, None, 0, n_pages, old(mem).view(), *masks),
            None => (Err(PagingError::PageFault), old(mem).view()),
        }),
{
    let owner = pml4t.table_owner;
    let pml4t_ofs = PageTableEntryOffset::from_index(PageTableEntryIndex::allocations_with_index(pml4t_index(base_laddr), PageTableType::PageMapLevel4Table, owner));
    let pdpt_ofs = PageTableEntryOffset::from_index(PageTableEntryIndex::allocations_with_index(pdpt_index(base_laddr), PageTableType::PageDirectoryPointerTable, owner));
    let pdt_ofs = PageTableEntryOffset::from_index(PageTableEntryIndex::allocations_with_index(pdt_index(base_laddr), PageTableType::PageDirectoryTable, owner));
    let pt_ofs = PageTableEntryOffset::from_index(PageTableEntryIndex::allocations_with_index(pt_index(base_laddr), PageTableType::PageTable, owner));
    if let Some(mut iterator) = AllocationsPtIterator::new_with_offsets(pml4t_ofs, pdpt_ofs, pdt_ofs, pt_ofs, pml4t, mem, masks) {
        let ghost start = iterator;
        let ghost m0 = mem.view();
        let mut count: u64 = 0;
        let mut base_paddr: Option<u64> = None;
        proof { lemma_measures_bounded(iterator); }
        loop
            invariant
                iterator.wf(),
                masks_ok(*masks),
                m0 == old(mem).view(),
                (match pdpt_from(AllocationsPml4tIterator { pml4t_iter: PageTableIterator { page_table: pml4t, entry_offset: laddr_offset(base_laddr, PML4T_SHIFT, PageTableType::PageMapLevel4Table, pml4t.table_owner) } }, Some(laddr_offset(base_laddr, PDPT_SHIFT, PageTableType::PageDirectoryPointerTable, pml4t.table_owner)), m0, *masks) {
            Some(p) => match pdt_from(p, Some(laddr_offset(base_laddr, PDT_SHIFT, PageTableType::PageDirectoryTable, pml4t.table_owner)), m0, *masks) {
                Some(q) => pt_from(q, Some(laddr_offset(base_laddr, PT_SHIFT, PageTableType::PageTable, pml4t.table_owner)), m0, *masks),
                None => None,
            },
            None => None,
        }) == Some(start),
                pt_removal(start, None, 0, n_pages, m0, *masks)
                    == pt_removal(iterator, base_paddr, count as nat, n_pages, mem.view(), *masks),
                count + pt_measure(iterator) < measure_bound(),
                count < n_pages || n_pages == 0,
                count > 0 ==> base_paddr is Some,
            decreases pt_measure(iterator),
        {
            proof { lemma_pt_step(iterator, mem.view(), *masks); }
            match iterator.next(mem, masks) {
                None => {
                    if count > 0 {
                        return Err(PagingError::InvalidRequest);
                    }
                    return Err(PagingError::PageFault);
                },
                Some((contiguous, entry)) => {
                    if !contiguous {
                        return Err(PagingError::InvalidRequest);
                    }
                    let entry_bitmap = entry.bitmap(mem);
                    if !entry_bitmap.present() {
                        return Err(PagingError::PageNotPresent);
                    }
                    if base_paddr.is_none() {
                        base_paddr = Some(entry_bitmap.address(PageType::FourKiB, masks));
                    }
                    entry.set_bitmap(mem, Bitmap::new());
                    count = count + 1;
                    if count == n_pages {
                        return match base_paddr {
                            Some(b) => Ok(b),
                            None => Err(PagingError::InternalFailure),
                        };
                    }
                },
            }
        }
    }
    Err(PagingError::PageFault)
}


/// The outcome of removing pages of the given type, as [`remove_pages`] does it
pub open spec fn pages_removal(base_laddr: u64, page_type: PageType, n_pages: u64, pml4t: PageTable, mem: Map<u64, u64>, masks: AddressMasks)
    -> (Result<u64, PagingError>, Map<u64, u64>)
{
    let owner = pml4t.table_owner;
    let p = pdpt_from(AllocationsPml4tIterator { pml4t_iter: PageTableIterator { page_table: pml4t,
        entry_offset: laddr_offset(base_laddr, PML4T_SHIFT, PageTableType::PageMapLevel4Table, owner) } },
        Some(laddr_offset(base_laddr, PDPT_SHIFT, PageTableType::PageDirectoryPointerTable, owner)), mem, masks);
    match page_type {
        PageType::OneGiB => match p {
            Some(it) => pdpt_removal(it, None, 0, n_pages, mem, masks),
            None => (Err(PagingError::PageFault), mem),
        },
        PageType::TwoMiB => match p {
            Some(p) => match pdt_from(p, Some(laddr_offset(base_laddr, PDT_SHIFT, PageTableType::PageDirectoryTable, owner)), mem, masks) {
                Some(it) => pdt_removal(it, None, 0, n_pages, mem, masks),
                None => (Err(PagingError::PageFault), mem),
            },
            None => (Err(PagingError::PageFault), mem),
        },
        PageType::FourKiB => match p {
            Some(p) => match pdt_from(p, Some(laddr_offset(base_laddr, PDT_SHIFT, PageTableType::PageDirectoryTable, owner)), mem, masks) {
                Some(q) => match pt_from(q, Some(laddr_offset(base_laddr, PT_SHIFT, PageTableType::PageTable, owner)), mem, masks) {
                    Some(it) => pt_removal(it, None, 0, n_pages, mem, masks),
                    None => (Err(PagingError::PageFault), mem),
                },
                None => (Err(PagingError::PageFault), mem),
            },
            None => (Err(PagingError::PageFault), mem),
        },
    }
}

/// Once the first page of 1 GiB is removed, the address returned is the one
/// recorded for it, whatever the following pages are
proof fn lemma_pdpt_removal_keeps_base(it: AllocationsPdptIterator, b: u64, count: nat, n: u64, mem: Map<u64, u64>, masks: AddressMasks)
    ensures
        pdpt_removal(it, Some(b), count, n, mem, masks).0 matches Ok(x) ==> x == b,
    decreases pdpt_measure(it),
{
    if it.wf() && masks_ok(masks) {
        let (o, it2) = pdpt_step(it, mem, masks);
        if let Some((c, e)) = o {
            lemma_pdpt_step(it, mem, masks);
            lemma_pdpt_removal_keeps_base(it2, b, count + 1, n, mem.insert(e.entry, 0), masks);
        }
    }
}

/// Removing pages of 1 GiB from the iterator `it` returns, when it
/// succeeds, the frame held by the first entry the iterator yields, the
/// entry of the first page removed
pub proof fn lemma_pdpt_removal_returns_first_frame(it: AllocationsPdptIterator, n: u64, mem: Map<u64, u64>, masks: AddressMasks)
    ensures
        pdpt_removal(it, None, 0, n, mem, masks).0 matches Ok(x) ==>
            (pdpt_step(it, mem, masks).0 matches Some((_, e)) && x == e.bits(mem) & masks.mask_1g),
{
    if it.wf() && masks_ok(masks) {
        let (o, it2) = pdpt_step(it, mem, masks);
        if let Some((c, e)) = o {
            lemma_pdpt_step(it, mem, masks);
            lemma_pdpt_removal_keeps_base(it2, e.bits(mem) & masks.mask_1g, 1, n, mem.insert(e.entry, 0), masks);
        }
    }
}

/// Once the first page of 2 MiB is removed, the address returned is the one
/// recorded for it, whatever the following pages are
proof fn lemma_pdt_removal_keeps_base(it: AllocationsPdtIterator, b: u64, count: nat, n: u64, mem: Map<u64, u64>, masks: AddressMasks)
    ensures
        pdt_removal(it, Some(b), count, n, mem, masks).0 matches Ok(x) ==> x == b,
    decreases pdt_measure(it),
{
    if it.wf() && masks_ok(masks) {
        let (o, it2) = pdt_step(it, mem, masks);
        if let Some((c, e)) = o {
            lemma_pdt_step(it, mem, masks);
            lemma_pdt_removal_keeps_base(it2, b, count + 1, n, mem.insert(e.entry, 0), masks);
        }
    }
}

/// Removing pages of 2 MiB from the iterator `it` returns, when it
/// succeeds, the frame held by the first entry the iterator yields, the
/// entry of the first page removed
pub proof fn lemma_pdt_removal_returns_first_frame(it: AllocationsPdtIterator, n: u64, mem: Map<u64, u64>, masks: AddressMasks)
    ensures
        pdt_removal(it, None, 0, n, mem, masks).0 matches Ok(x) ==>
            (pdt_step(it, mem, masks).0 matches Some((_, e)) && x == e.bits(mem) & masks.mask_2m),
{
    if it.wf() && masks_ok(masks) {
        let (o, it2) = pdt_step(it, mem, masks);
        if let Some((c, e)) = o {
            lemma_pdt_step(it, mem, masks);
            lemma_pdt_removal_keeps_base(it2, e.bits(mem) & masks.mask_2m, 1, n, mem.insert(e.entry, 0), masks);
        }
    }
}

/// Once the first page of 4 KiB is removed, the address returned is the one
/// recorded for it, whatever the following pages are
proof fn lemma_pt_removal_keeps_base(it: AllocationsPtIterator, b: u64, count: nat, n: u64, mem: Map<u64, u64>, masks: AddressMasks)
    ensures
        pt_removal(it, Some(b), count, n, mem, masks).0 matches Ok(x) ==> x == b,
    decreases pt_measure(it),
{
    if it.wf() && masks_ok(masks) {
        let (o, it2) = pt_step(it, mem, masks);
        if let Some((c, e)) = o {
            lemma_pt_step(it, mem, masks);
            lemma_pt_removal_keeps_base(it2, b, count + 1, n, mem.insert(e.entry, 0), masks);
        }
    }
}

/// Removing pages of 4 KiB from the iterator `it` returns, when it
/// succeeds, the frame held by the first entry the iterator yields, the
/// entry of the first page removed
pub proof fn lemma_pt_removal_returns_first_frame(it: AllocationsPtIterator, n: u64, mem: Map<u64, u64>, masks: AddressMasks)
    ensures
        pt_removal(it, None, 0, n, mem, masks).0 matches Ok(x) ==>
            (pt_step(it, mem, masks).0 matches Some((_, e)) && x == e.bits(mem) & masks.mask_4k),
{
    if it.wf() && masks_ok(masks) {
        let (o, it2) = pt_step(it, mem, masks);
        if let Some((c, e)) = o {
            lemma_pt_step(it, mem, masks);
            lemma_pt_removal_keeps_base(it2, e.bits(mem) & masks.mask_4k, 1, n, mem.insert(e.entry, 0), masks);
        }
    }
}

/// Removing pages of 1 GiB starting at `base_laddr` returns, when it
/// succeeds, the frame of the page that `base_laddr` falls in: the one held by
/// the entry of the PDPT reached from the entry of `base_laddr` of the PML4T,
/// whatever the pages after it are
pub proof fn lemma_1gib_removal_returns_frame_of_base(base_laddr: u64, n_pages: u64, pml4t: PageTable, mem: Map<u64, u64>,
    masks: AddressMasks, pdpt: PageTable)
    requires
        index_at(base_laddr, PML4T_SHIFT) < alloc_index_end(PageTableType::PageMapLevel4Table, pml4t.table_owner),
        index_at(base_laddr, PDPT_SHIFT) < alloc_index_end(PageTableType::PageDirectoryPointerTable, pml4t.table_owner),
        table_of_entry(pml4t.entry_at((index_at(base_laddr, PML4T_SHIFT) * 8) as u64), mem, masks) == Ok::<PageTable, PagingError>(pdpt),
    ensures
        pages_removal(base_laddr, PageType::OneGiB, n_pages, pml4t, mem, masks).0 matches Ok(x) ==>
            x == word_at(mem, (pdpt.base_address + index_at(base_laddr, PDPT_SHIFT) * 8) as u64) & masks.mask_1g,
{
    let owner = pml4t.table_owner;
    let p = pdpt_from(AllocationsPml4tIterator { pml4t_iter: PageTableIterator { page_table: pml4t,
        entry_offset: laddr_offset(base_laddr, PML4T_SHIFT, PageTableType::PageMapLevel4Table, owner) } },
        Some(laddr_offset(base_laddr, PDPT_SHIFT, PageTableType::PageDirectoryPointerTable, owner)), mem, masks);
    assert(p == Some(AllocationsPdptIterator {
        pml4t_iter: AllocationsPml4tIterator { pml4t_iter: PageTableIterator { page_table: pml4t,
            entry_offset: laddr_offset(base_laddr, PML4T_SHIFT, PageTableType::PageMapLevel4Table, owner).spec_advanced() } },
        pdpt_iter: PageTableIterator { page_table: pdpt, entry_offset: laddr_offset(base_laddr, PDPT_SHIFT, PageTableType::PageDirectoryPointerTable, owner) },
    }));
    let it = p.unwrap();
    lemma_pdpt_removal_returns_first_frame(it, n_pages, mem, masks);
    assert(pdpt_step(it, mem, masks).0 == Some((true, pdpt.entry_at((index_at(base_laddr, PDPT_SHIFT) * 8) as u64))));
}

/// Removing pages of 2 MiB starting at `base_laddr` returns, when it
/// succeeds, the frame of the page that `base_laddr` falls in: the one held by
/// the entry of the PDT reached from the entries of `base_laddr` of the PML4T
/// and of the PDPT, whatever the pages after it are
pub proof fn lemma_2mib_removal_returns_frame_of_base(base_laddr: u64, n_pages: u64, pml4t: PageTable, mem: Map<u64, u64>,
    masks: AddressMasks, pdpt: PageTable, pdt: PageTable)
    requires
        index_at(base_laddr, PML4T_SHIFT) < alloc_index_end(PageTableType::PageMapLevel4Table, pml4t.table_owner),
        index_at(base_laddr, PDPT_SHIFT) < alloc_index_end(PageTableType::PageDirectoryPointerTable, pml4t.table_owner),
        index_at(base_laddr, PDT_SHIFT) < alloc_index_end(PageTableType::PageDirectoryTable, pml4t.table_owner),
        table_of_entry(pml4t.entry_at((index_at(base_laddr, PML4T_SHIFT) * 8) as u64), mem, masks) == Ok::<PageTable, PagingError>(pdpt),
        table_of_entry(pdpt.entry_at((index_at(base_laddr, PDPT_SHIFT) * 8) as u64), mem, masks) == Ok::<PageTable, PagingError>(pdt),
    ensures
        pages_removal(base_laddr, PageType::TwoMiB, n_pages, pml4t, mem, masks).0 matches Ok(x) ==>
            x == word_at(mem, (pdt.base_address + index_at(base_laddr, PDT_SHIFT) * 8) as u64) & masks.mask_2m,
{
    let owner = pml4t.table_owner;
    let p = pdpt_from(AllocationsPml4tIterator { pml4t_iter: PageTableIterator { page_table: pml4t,
        entry_offset: laddr_offset(base_laddr, PML4T_SHIFT, PageTableType::PageMapLevel4Table, owner) } },
        Some(laddr_offset(base_laddr, PDPT_SHIFT, PageTableType::PageDirectoryPointerTable, owner)), mem, masks);
    assert(p == Some(AllocationsPdptIterator {
        pml4t_iter: AllocationsPml4tIterator { pml4t_iter: PageTableIterator { page_table: pml4t,
            entry_offset: laddr_offset(base_laddr, PML4T_SHIFT, PageTableType::PageMapLevel4Table, owner).spec_advanced() } },
        pdpt_iter: PageTableIterator { page_table: pdpt, entry_offset: laddr_offset(base_laddr, PDPT_SHIFT, PageTableType::PageDirectoryPointerTable, owner) },
    }));
    let pp = p.unwrap();
    let q = pdt_from(pp, Some(laddr_offset(base_laddr, PDT_SHIFT, PageTableType::PageDirectoryTable, owner)), mem, masks);
    assert(q == Some(AllocationsPdtIterator {
        pdpt_iter: AllocationsPdptIterator { pdpt_iter: PageTableIterator { page_table: pdpt,
            entry_offset: laddr_offset(base_laddr, PDPT_SHIFT, PageTableType::PageDirectoryPointerTable, owner).spec_advanced() }, ..pp },
        pdt_iter: PageTableIterator { page_table: pdt, entry_offset: laddr_offset(base_laddr, PDT_SHIFT, PageTableType::PageDirectoryTable, owner) },
    }));
    let it = q.unwrap();
    lemma_pdt_removal_returns_first_frame(it, n_pages, mem, masks);
    assert(pdt_step(it, mem, masks).0 == Some((true, pdt.entry_at((index_at(base_laddr, PDT_SHIFT) * 8) as u64))));
}

/// Removing pages of 4 KiB starting at `base_laddr` returns, when it
/// succeeds, the frame of the page that `base_laddr` falls in: the one held by
/// the entry of the PT reached from the entries of `base_laddr` of the PML4T,
/// the PDPT and the PDT, whatever the pages after it are
pub proof fn lemma_4kib_removal_returns_frame_of_base(base_laddr: u64, n_pages: u64, pml4t: PageTable, mem: Map<u64, u64>,
    masks: AddressMasks, pdpt: PageTable, pdt: PageTable, pt: PageTable)
    requires
        index_at(base_laddr, PML4T_SHIFT) < alloc_index_end(PageTableType::PageMapLevel4Table, pml4t.table_owner),
        index_at(base_laddr, PDPT_SHIFT) < alloc_index_end(PageTableType::PageDirectoryPointerTable, pml4t.table_owner),
        index_at(base_laddr, PDT_SHIFT) < alloc_index_end(PageTableType::PageDirectoryTable, pml4t.table_owner),
        index_at(base_laddr, PT_SHIFT) < alloc_index_end(PageTableType::PageTable, pml4t.table_owner),
        table_of_entry(pml4t.entry_at((index_at(base_laddr, PML4T_SHIFT) * 8) as u64), mem, masks) == Ok::<PageTable, PagingError>(pdpt),
        table_of_entry(pdpt.entry_at((index_at(base_laddr, PDPT_SHIFT) * 8) as u64), mem, masks) == Ok::<PageTable, PagingError>(pdt),
        table_of_entry(pdt.entry_at((index_at(base_laddr, PDT_SHIFT) * 8) as u64), mem, masks) == Ok::<PageTable, PagingError>(pt),
    ensures
        pages_removal(base_laddr, PageType::FourKiB, n_pages, pml4t, mem, masks).0 matches Ok(x) ==>
            x == word_at(mem, (pt.base_address + index_at(base_laddr, PT_SHIFT) * 8) as u64) & masks.mask_4k,
{
    let owner = pml4t.table_owner;
    let p = pdpt_from(AllocationsPml4tIterator { pml4t_iter: PageTableIterator { page_table: pml4t,
        entry_offset: laddr_offset(base_laddr, PML4T_SHIFT, PageTableType::PageMapLevel4Table, owner) } },
        Some(laddr_offset(base_laddr, PDPT_SHIFT, PageTableType::PageDirectoryPointerTable, owner)), mem, masks);
    assert(p == Some(AllocationsPdptIterator {
        pml4t_iter: AllocationsPml4tIterator { pml4t_iter: PageTableIterator { page_table: pml4t,
            entry_offset: laddr_offset(base_laddr, PML4T_SHIFT, PageTableType::PageMapLevel4Table, owner).spec_advanced() } },
        pdpt_iter: PageTableIterator { page_table: pdpt, entry_offset: laddr_offset(base_laddr, PDPT_SHIFT, PageTableType::PageDirectoryPointerTable, owner) },
    }));
    let pp = p.unwrap();
    let q = pdt_from(pp, Some(laddr_offset(base_laddr, PDT_SHIFT, PageTableType::PageDirectoryTable, owner)), mem, masks);
    assert(q == Some(AllocationsPdtIterator {
        pdpt_iter: AllocationsPdptIterator { pdpt_iter: PageTableIterator { page_table: pdpt,
            entry_offset: laddr_offset(base_laddr, PDPT_SHIFT, PageTableType::PageDirectoryPointerTable, owner).spec_advanced() }, ..pp },
        pdt_iter: PageTableIterator { page_table: pdt, entry_offset: laddr_offset(base_laddr, PDT_SHIFT, PageTableType::PageDirectoryTable, owner) },
    }));
    let qq = q.unwrap();
    let t = pt_from(qq, Some(laddr_offset(base_laddr, PT_SHIFT, PageTableType::PageTable, owner)), mem, masks);
    assert(t == Some(AllocationsPtIterator {
        pdt_iter: AllocationsPdtIterator { pdt_iter: PageTableIterator { page_table: pdt,
            entry_offset: laddr_offset(base_laddr, PDT_SHIFT, PageTableType::PageDirectoryTable, owner).spec_advanced() }, ..qq },
        pt_iter: PageTableIterator { page_table: pt, entry_offset: laddr_offset(base_laddr, PT_SHIFT, PageTableType::PageTable, owner) },
    }));
    let it = t.unwrap();
    lemma_pt_removal_returns_first_frame(it, n_pages, mem, masks);
    assert(pt_step(it, mem, masks).0 == Some((true, pt.entry_at((index_at(base_laddr, PT_SHIFT) * 8) as u64))));
}

/// Removes `n_pages` pages of the given type starting from the one mapped at
/// the given logical address, clearing their entries
///
/// The pages must be contiguous. The entries cleared so far stay cleared when
/// an error occurs. Returns the physical address of the first page, which the
/// memory map and the tracing pages must then release.
pub fn remove_pages(base_laddr: u64, page_type: PageType, n_pages: u64, pml4t: PageTable, mem: &mut PhysicalMemory, masks: &AddressMasks)
    -> (r: Result<u64, PagingError>)
    requires
        pml4t.table_type == PageTableType::PageMapLevel4Table,
        pml4t.fits(),
        masks_ok(*masks),
    ensures
        (r, final(mem).view()) == pages_removal(base_laddr, page_type, n_pages, pml4t, old(mem).view(), *masks),
{
    match page_type {
        PageType::OneGiB => remove_1gib_pages(base_laddr, n_pages, pml4t, mem, masks),
        PageType::TwoMiB => remove_2mib_pages(base_laddr, n_pages, pml4t, mem, masks),
        PageType::FourKiB => remove_4kib_pages(base_laddr, n_pages, pml4t, mem, masks),
    }
}

/// Removes one page of the given type, as [`remove_pages`] does
pub fn remove_page(base_laddr: u64, page_type: PageType, pml4t: PageTable, mem: &mut PhysicalMemory, masks: &AddressMasks)
    -> (r: Result<u64, PagingError>)
    requires
        pml4t.table_type == PageTableType::PageMapLevel4Table,
        pml4t.fits(),
        masks_ok(*masks),
    ensures
        (r, final(mem).view()) == pages_removal(base_laddr, page_type, 1, pml4t, old(mem).view(), *masks),
{
    remove_pages(base_laddr, page_type, 1, pml4t, mem, masks)
}

/// The outcome of removing the space of `n_pages` pages of the given type at
/// `paddr` from the tracing pages `v` of the owner of the PML4T, in the memory
/// `mem`, given the answers `ans` of the memory map: the result, the tracing
/// pages, the memory and the requests made
///
/// When the tracing pages need a new page to hold what overflows, a tracing
/// page is created for it as [`page_creation`] says; if that fails, the new
/// page is not kept and its error is the result.
pub open spec fn tracing_removal(v: Seq<Seq<Metadata>>, paddr: u64, size: u64, pml4t: PageTable, mem: Map<u64, u64>,
    masks: AddressMasks, ans: Seq<MapAnswer>) -> (Result<(), PagingError>, Seq<Seq<Metadata>>, Map<u64, u64>, Seq<MapRequest>)
{
    let (r, v2) = remove_space_outcome(v, paddr, size);
    if v2.len() > v.len() {
        let (c, st) = page_creation(pml4t, (mem, Seq::empty()), ans, masks);
        match c {
            Ok(_) => (r, v2, st.0, st.1),
            Err(e) => (Err(e), v2.take(v.len() as int), st.0, st.1),
        }
    } else {
        (r, v2, mem, Seq::empty())
    }
}

/// The space was removed as [`tracing_removal`] says for the answers `ans`
/// of the memory map, each to its request: the result `r`, the tracing pages
/// `v2` after `v` and the memory `mem2` after `mem`
pub open spec fn tracing_removal_done<F: Fn(MapRequest) -> MapAnswer>(map: &F, v: Seq<Seq<Metadata>>, paddr: u64, size: u64,
    pml4t: PageTable, mem: Map<u64, u64>, masks: AddressMasks, ans: Seq<MapAnswer>, r: Result<(), PagingError>,
    v2: Seq<Seq<Metadata>>, mem2: Map<u64, u64>) -> bool
{
    let (res, v3, m3, reqs) = tracing_removal(v, paddr, size, pml4t, mem, masks, ans);
    &&& records(map, ans, reqs)
    &&& res == r
    &&& v3 == v2
    &&& m3 == mem2
}

/// The size of `n_pages` pages of the given type
pub open spec fn pages_size(page_type: PageType, n_pages: u64) -> u64 {
    (page_size_of(page_type) * n_pages) as u64
}

/// Removes the space of the removed pages from the tracing pages of the owner
/// of the PML4T, creating a tracing page when the tracing pages need one, as
/// [`page_created`] does
pub fn update_tracing_table<F: Fn(MapRequest) -> MapAnswer>(
    tracing: &mut TracingPages,
    paddr: u64,
    page_type: PageType,
    n_pages: u64,
    pml4t: PageTable,
    mem: &mut PhysicalMemory,
    masks: &AddressMasks,
    map: &F,
) -> (r: Result<(), PagingError>)
    requires
        old(tracing).wf(),
        page_size_of(page_type) * n_pages <= u64::MAX,
        !remove_refused(old(tracing).view(), paddr, (page_size_of(page_type) * n_pages) as u64),
        pml4t.fits(),
        masks_ok(*masks),
        forall|q: MapRequest| map.requires((q,)),
    ensures
        final(tracing).wf(),
        exists|ans: Seq<MapAnswer>| tracing_removal_done(map, old(tracing).view(), paddr, pages_size(page_type, n_pages),
            pml4t, old(mem).view(), *masks, ans, r, final(tracing).view(), final(mem).view()),
{
    let ghost v = tracing.view();
    let ghost m0 = mem.view();
    let size = page_type.size() * n_pages;
    proof { assert(size == pages_size(page_type, n_pages)); }
    let n0 = tracing.pages.len();
    let r = tracing.remove_space(paddr, size);
    if tracing.pages.len() > n0 {
        let (c, h, q) = page_created(pml4t, mem, masks, map, Ghost(Seq::empty()), Ghost(Seq::empty()));
        proof { assert(begins(h@, h@)); }
        match c {
            Ok(_) => {
                proof { assert(tracing_removal_done(map, v, paddr, size, pml4t, m0, *masks, h@, r, tracing.view(), mem.view())); }
                r
            },
            Err(e) => {
                tracing.keep_first_pages(n0);
                proof { assert(tracing_removal_done(map, v, paddr, size, pml4t, m0, *masks, h@, Err(e), tracing.view(), mem.view())); }
                Err(e)
            },
        }
    } else {
        proof {
            assert(tracing_removal_done(map, v, paddr, size, pml4t, m0, *masks, Seq::empty(), r, tracing.view(), mem.view()));
        }
        r
    }
}

} // verus!
