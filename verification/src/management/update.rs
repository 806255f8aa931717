//! Resizing allocations in place.

use vstd::prelude::*;
use crate::allocations::{index_at, pml4t_index, pdpt_index, pdt_index, pt_index, PML4T_SHIFT, PDPT_SHIFT, PDT_SHIFT, PT_SHIFT};
use crate::bitmap::{AddressMasks, has, P_BIT, PS_BIT};
use crate::errors::PagingError;
use crate::indexers::{PageTableEntryIndex, alloc_index_end};
use crate::memory::{SIZE_1GiB, SIZE_2MiB, SIZE_4KiB};
use crate::page::{PageType, page_size_of};
use crate::physmem::{PhysicalMemory, word_at};
use crate::table::{PageTable, PageTableEntry, table_of_entry};
use crate::table_type::PageTableType;
use crate::tracing::excess::Reminder;
use crate::tracing::metadata::Metadata;
use crate::tracing::pages::{TracingPages, resize_from, resize_refused, resize_grows_over};
use crate::management::map::{MapRequest, MapAnswer, records, ask_map, begins};
use crate::tracing::tables::{page_creation, page_created};

verus! {

/// The offset of a logical address within the page of the given type mapping it
pub open spec fn page_offset(laddr: u64, page_type: PageType) -> u64 {
    laddr & ((page_size_of(page_type) - 1) as u64)
}

/// Returns the offset of a logical address within the page of the given type
pub fn laddr_page_offset(laddr: u64, page_type: PageType) -> (r: u64)
    ensures
        r == page_offset(laddr, page_type),
        r < page_size_of(page_type),
{
    let size = page_type.size();
    let r = laddr & (size - 1);
    proof {
        let s1 = (size - 1) as u64;
        assert(laddr & s1 <= s1) by (bit_vector);
    }
    r
}

/// The masks leave room for the offsets within the pages
pub open spec fn page_masks_ok(masks: AddressMasks) -> bool {
    &&& masks.mask_1g + SIZE_1GiB <= u64::MAX
    &&& masks.mask_2m + SIZE_2MiB <= u64::MAX
    &&& masks.mask_4k + SIZE_4KiB <= u64::MAX
}

/// The entry of the table at the index found at the given position of a
/// logical address, if the index is within the allocation entries
pub open spec fn entry_for(t: PageTable, laddr: u64, shift: u64) -> Option<PageTableEntry> {
    if index_at(laddr, shift) < alloc_index_end(t.table_type, t.table_owner) {
        Some(t.entry_at((index_at(laddr, shift) * 8) as u64))
    } else {
        None
    }
}

/// The physical address the allocation at `laddr` is found at, walking the
/// tables from the PML4T, or why it cannot be found: the frame of the entry
/// mapping its page, plus the offset of `laddr` in that page
pub open spec fn relocation_paddr(laddr: u64, pml4t: PageTable, mem: Map<u64, u64>, masks: AddressMasks) -> Result<u64, PagingError> {
    match entry_for(pml4t, laddr, PML4T_SHIFT) {
        None => Err(PagingError::PageFault),
        Some(e1) => match table_of_entry(e1, mem, masks) {
            Err(e) => Err(e),
            Ok(pdpt) => match entry_for(pdpt, laddr, PDPT_SHIFT) {
                None => Err(PagingError::PageFault),
                Some(e2) => {
                    let b2 = e2.bits(mem);
                    if !(has(b2, P_BIT)) {
                        Err(PagingError::InvalidRequest)
                    } else if has(b2, PS_BIT) {
                        Ok(((b2 & masks.mask_1g) + page_offset(laddr, PageType::OneGiB)) as u64)
                    } else {
                        match table_of_entry(e2, mem, masks) {
                            Err(e) => Err(e),
                            Ok(pdt) => match entry_for(pdt, laddr, PDT_SHIFT) {
                                None => Err(PagingError::PageFault),
                                Some(e3) => {
                                    let b3 = e3.bits(mem);
                                    if !(has(b3, P_BIT)) {
                                        Err(PagingError::InvalidRequest)
                                    } else if has(b3, PS_BIT) {
                                        Ok(((b3 & masks.mask_2m) + page_offset(laddr, PageType::TwoMiB)) as u64)
                                    } else {
                                        match table_of_entry(e3, mem, masks) {
                                            Err(e) => Err(e),
                                            Ok(pt) => match entry_for(pt, laddr, PT_SHIFT) {
                                                None => Err(PagingError::PageFault),
                                                Some(e4) => {
                                                    let b4 = e4.bits(mem);
                                                    if !(has(b4, P_BIT)) {
                                                        Err(PagingError::InvalidRequest)
                                                    } else {
                                                        Ok(((b4 & masks.mask_4k) + page_offset(laddr, PageType::FourKiB)) as u64)
                                                    }
                                                },
                                            },
                                        }
                                    }
                                },
                            },
                        }
                    }
                },
            },
        },
    }
}

/// An allocation in a page of 1 GiB, mapped by a present entry with the
/// *Page Size* bit of the PDPT reached from the PML4T entry of `laddr`, is
/// found at the frame of that entry plus the offset of `laddr` in the 1 GiB
/// page
pub proof fn lemma_relocation_in_1gib_page(laddr: u64, pml4t: PageTable, mem: Map<u64, u64>, masks: AddressMasks, pdpt: PageTable)
    requires
        index_at(laddr, PML4T_SHIFT) < alloc_index_end(pml4t.table_type, pml4t.table_owner),
        table_of_entry(pml4t.entry_at((index_at(laddr, PML4T_SHIFT) * 8) as u64), mem, masks) == Ok::<PageTable, PagingError>(pdpt),
        index_at(laddr, PDPT_SHIFT) < alloc_index_end(pdpt.table_type, pdpt.table_owner),
        has(word_at(mem, (pdpt.base_address + index_at(laddr, PDPT_SHIFT) * 8) as u64), P_BIT),
        has(word_at(mem, (pdpt.base_address + index_at(laddr, PDPT_SHIFT) * 8) as u64), PS_BIT),
    ensures
        relocation_paddr(laddr, pml4t, mem, masks) == Ok::<u64, PagingError>(
            ((word_at(mem, (pdpt.base_address + index_at(laddr, PDPT_SHIFT) * 8) as u64) & masks.mask_1g)
                + laddr % 0x4000_0000) as u64),
{
    assert(laddr & 0x3FFF_FFFFu64 == laddr % 0x4000_0000) by (bit_vector);
    assert(page_size_of(PageType::OneGiB) == 0x4000_0000);
}

/// An allocation in a page of 2 MiB, mapped by a present entry with the
/// *Page Size* bit of the PDT reached from the entries of `laddr` of the PML4T
/// and of the PDPT, is found at the frame of that entry plus the offset of
/// `laddr` in the 2 MiB page
pub proof fn lemma_relocation_in_2mib_page(laddr: u64, pml4t: PageTable, mem: Map<u64, u64>, masks: AddressMasks,
    pdpt: PageTable, pdt: PageTable)
    requires
        index_at(laddr, PML4T_SHIFT) < alloc_index_end(pml4t.table_type, pml4t.table_owner),
        table_of_entry(pml4t.entry_at((index_at(laddr, PML4T_SHIFT) * 8) as u64), mem, masks) == Ok::<PageTable, PagingError>(pdpt),
        index_at(laddr, PDPT_SHIFT) < alloc_index_end(pdpt.table_type, pdpt.table_owner),
        !(has(word_at(mem, (pdpt.base_address + index_at(laddr, PDPT_SHIFT) * 8) as u64), PS_BIT)),
        table_of_entry(pdpt.entry_at((index_at(laddr, PDPT_SHIFT) * 8) as u64), mem, masks) == Ok::<PageTable, PagingError>(pdt),
        index_at(laddr, PDT_SHIFT) < alloc_index_end(pdt.table_type, pdt.table_owner),
        has(word_at(mem, (pdt.base_address + index_at(laddr, PDT_SHIFT) * 8) as u64), P_BIT),
        has(word_at(mem, (pdt.base_address + index_at(laddr, PDT_SHIFT) * 8) as u64), PS_BIT),
    ensures
        relocation_paddr(laddr, pml4t, mem, masks) == Ok::<u64, PagingError>(
            ((word_at(mem, (pdt.base_address + index_at(laddr, PDT_SHIFT) * 8) as u64) & masks.mask_2m)
                + laddr % 0x20_0000) as u64),
{
    assert(laddr & 0x1F_FFFFu64 == laddr % 0x20_0000) by (bit_vector);
    assert(page_size_of(PageType::TwoMiB) == 0x20_0000);
}

/// An allocation in a page of 4 KiB, mapped by a present entry of the PT
/// reached from the entries of `laddr` of the PML4T, the PDPT and the PDT, is
/// found at the frame of that entry plus the offset of `laddr` in the page
pub proof fn lemma_relocation_in_4kib_page(laddr: u64, pml4t: PageTable, mem: Map<u64, u64>, masks: AddressMasks,
    pdpt: PageTable, pdt: PageTable, pt: PageTable)
    requires
        index_at(laddr, PML4T_SHIFT) < alloc_index_end(pml4t.table_type, pml4t.table_owner),
        table_of_entry(pml4t.entry_at((index_at(laddr, PML4T_SHIFT) * 8) as u64), mem, masks) == Ok::<PageTable, PagingError>(pdpt),
        index_at(laddr, PDPT_SHIFT) < alloc_index_end(pdpt.table_type, pdpt.table_owner),
        !(has(word_at(mem, (pdpt.base_address + index_at(laddr, PDPT_SHIFT) * 8) as u64), PS_BIT)),
        table_of_entry(pdpt.entry_at((index_at(laddr, PDPT_SHIFT) * 8) as u64), mem, masks) == Ok::<PageTable, PagingError>(pdt),
        index_at(laddr, PDT_SHIFT) < alloc_index_end(pdt.table_type, pdt.table_owner),
        !(has(word_at(mem, (pdt.base_address + index_at(laddr, PDT_SHIFT) * 8) as u64), PS_BIT)),
        table_of_entry(pdt.entry_at((index_at(laddr, PDT_SHIFT) * 8) as u64), mem, masks) == Ok::<PageTable, PagingError>(pt),
        index_at(laddr, PT_SHIFT) < alloc_index_end(pt.table_type, pt.table_owner),
        has(word_at(mem, (pt.base_address + index_at(laddr, PT_SHIFT) * 8) as u64), P_BIT),
    ensures
        relocation_paddr(laddr, pml4t, mem, masks) == Ok::<u64, PagingError>(
            ((word_at(mem, (pt.base_address + index_at(laddr, PT_SHIFT) * 8) as u64) & masks.mask_4k)
                + laddr % 0x1000) as u64),
{
    assert(laddr & 0xFFFu64 == laddr % 0x1000) by (bit_vector);
    assert(page_size_of(PageType::FourKiB) == 0x1000);
}

/// Finds the physical address of the allocation at the given logical address,
/// walking the tables from the PML4T, so that it can be resized in place
///
/// Returns an [`Err`] if a table or the page cannot be found.
pub fn relocation_address(laddr: u64, pml4t: PageTable, mem: &PhysicalMemory, masks: &AddressMasks) -> (r: Result<u64, PagingError>)
    requires
        pml4t.table_type == PageTableType::PageMapLevel4Table,
        pml4t.fits(),
        crate::allocations::masks_ok(*masks),
        page_masks_ok(*masks),
    ensures
        r == relocation_paddr(laddr, pml4t, mem.view(), *masks),
{
    let owner = pml4t.table_owner;
    let pml4t_idx = PageTableEntryIndex::allocations_with_index(pml4t_index(laddr), PageTableType::PageMapLevel4Table, owner);
    if let Some(pml4t_entry) = pml4t.at_index(&pml4t_idx) {
        let pdpt = PageTable::try_from_entry(pml4t_entry, mem, masks)?;
        proof { crate::allocations::lemma_child_fits(pml4t_entry.bits(mem.view()), *masks); }
        let pdpt_idx = PageTableEntryIndex::allocations_with_index(pdpt_index(laddr), PageTableType::PageDirectoryPointerTable, owner);
        if let Some(pdpt_entry) = pdpt.at_index(&pdpt_idx) {
            let pdpt_entry_bits = pdpt_entry.bitmap(mem);
            if !pdpt_entry_bits.present() {
                return Err(PagingError::InvalidRequest);
            } else if pdpt_entry_bits.page_size() {
                proof { lemma_masked_le(pdpt_entry_bits@, masks.mask_1g); }
                return Ok(pdpt_entry_bits.address(PageType::OneGiB, masks) + laddr_page_offset(laddr, PageType::OneGiB));
            }
            let pdt = PageTable::try_from_entry(pdpt_entry, mem, masks)?;
            proof { crate::allocations::lemma_child_fits(pdpt_entry.bits(mem.view()), *masks); }
            let pdt_idx = PageTableEntryIndex::allocations_with_index(pdt_index(laddr), PageTableType::PageDirectoryTable, owner);
            if let Some(pdt_entry) = pdt.at_index(&pdt_idx) {
                let pdt_entry_bits = pdt_entry.bitmap(mem);
                if !pdt_entry_bits.present() {
                    return Err(PagingError::InvalidRequest);
                } else if pdt_entry_bits.page_size() {
                    proof { lemma_masked_le(pdt_entry_bits@, masks.mask_2m); }
                    return Ok(pdt_entry_bits.address(PageType::TwoMiB, masks) + laddr_page_offset(laddr, PageType::TwoMiB));
                }
                let pt = PageTable::try_from_entry(pdt_entry, mem, masks)?;
                proof { crate::allocations::lemma_child_fits(pdt_entry.bits(mem.view()), *masks); }
                let pt_idx = PageTableEntryIndex::allocations_with_index(pt_index(laddr), PageTableType::PageTable, owner);
                if let Some(pt_entry) = pt.at_index(&pt_idx) {
                    let pt_entry_bits = pt_entry.bitmap(mem);
                    if !pt_entry_bits.present() {
                        return Err(PagingError::InvalidRequest);
                    }
                    proof { lemma_masked_le(pt_entry_bits@, masks.mask_4k); }
                    return Ok(pt_entry_bits.address(PageType::FourKiB, masks) + laddr_page_offset(laddr, PageType::FourKiB));
                }
            }
        }
    }
    Err(PagingError::PageFault)
}

/// Masking never gives more than the mask
pub proof fn lemma_masked_le(bits: u64, mask: u64)
    ensures
        bits & mask <= mask,
{
    assert(bits & mask <= mask) by (bit_vector);
}

/// Resizes the allocation in the tracing pages once the memory map holds its new size
pub fn update_tracing_table(tracing: &mut TracingPages, paddr: u64, size: u64) -> (r: Result<(), PagingError>)
    requires
        old(tracing).wf(),
        !resize_refused(old(tracing).view(), paddr, size),
    ensures
        (r, final(tracing).view()) == resize_from(old(tracing).view(), paddr, size, 0, false, None, Reminder::Zero),
        final(tracing).pages_ok(),
        !resize_grows_over(old(tracing).view(), paddr, size) ==> final(tracing).wf(),
{
    tracing.resize(paddr, size)
}

/// The outcome of resizing in place to `size` Bytes the allocation at the
/// logical address `laddr`, in the tracing pages `v`, given the answers `ans`
/// of the memory map: the result, the tracing pages, the memory and the
/// requests made
///
/// The space is taken in the memory map at the physical address of the
/// allocation, then the allocation is resized in the tracing pages; a resizing
/// that the tracing pages cannot serve is refused with
/// [`PagingError::InternalFailure`]. When the tracing pages need a new page to
/// hold what overflows, a tracing page is created for it as [`page_creation`]
/// says; if that fails, the new page is not kept and its error is the result.
pub open spec fn relocation_outcome(
    laddr: u64,
    size: u64,
    pml4t: PageTable,
    mem: Map<u64, u64>,
    masks: AddressMasks,
    v: Seq<Seq<Metadata>>,
    ans: Seq<MapAnswer>,
) -> (Result<(), PagingError>, Seq<Seq<Metadata>>, Map<u64, u64>, Seq<MapRequest>) {
    match relocation_paddr(laddr, pml4t, mem, masks) {
        Err(e) => (Err(e), v, mem, Seq::empty()),
        Ok(paddr) => {
            let reqs = seq![MapRequest::TakeSpace(paddr, size)];
            if ans[0] != MapAnswer::Yes || resize_refused(v, paddr, size) {
                (Err(PagingError::InternalFailure), v, mem, reqs)
            } else {
                let (r, v2) = resize_from(v, paddr, size, 0, false, None, Reminder::Zero);
                if v2.len() > v.len() {
                    let (c, st) = page_creation(pml4t, (mem, reqs), ans, masks);
                    match c {
                        Ok(_) => (r, v2, st.0, st.1),
                        Err(e) => (Err(e), v2.take(v.len() as int), st.0, st.1),
                    }
                } else {
                    (r, v2, mem, reqs)
                }
            }
        },
    }
}

/// The allocation was resized as [`relocation_outcome`] says for the answers
/// `ans` of the memory map, each to its request: the result `r`, the tracing
/// pages `v2` after `v` and the memory `mem2` after `mem`
pub open spec fn relocation_done<F: Fn(MapRequest) -> MapAnswer>(
    map: &F,
    laddr: u64,
    size: u64,
    pml4t: PageTable,
    mem: Map<u64, u64>,
    masks: AddressMasks,
    v: Seq<Seq<Metadata>>,
    ans: Seq<MapAnswer>,
    r: Result<(), PagingError>,
    v2: Seq<Seq<Metadata>>,
    mem2: Map<u64, u64>,
) -> bool {
    let (res, v3, m3, reqs) = relocation_outcome(laddr, size, pml4t, mem, masks, v, ans);
    &&& records(map, ans, reqs)
    &&& res == r
    &&& v3 == v2
    &&& m3 == mem2
}

/// Resizes in place to `size` Bytes the allocation at the logical address
/// `laddr`: the page mapping it is found walking the tables from the PML4T,
/// its space is taken in the memory map, and the allocation is resized in the
/// tracing pages
///
/// Returns the error of the walk if the page cannot be found,
/// [`PagingError::InternalFailure`] if the memory map refuses the space or the
/// tracing pages cannot serve the resizing, otherwise what the tracing pages
/// return.
pub fn relocate_inplace<F: Fn(MapRequest) -> MapAnswer>(
    laddr: u64,
    size: u64,
    pml4t: PageTable,
    mem: &mut PhysicalMemory,
    masks: &AddressMasks,
    tracing: &mut TracingPages,
    map: &F,
) -> (r: Result<(), PagingError>)
    requires
        pml4t.table_type == PageTableType::PageMapLevel4Table,
        pml4t.fits(),
        crate::allocations::masks_ok(*masks),
        page_masks_ok(*masks),
        old(tracing).wf(),
        forall|q: MapRequest| map.requires((q,)),
    ensures
        exists|ans: Seq<MapAnswer>| relocation_done(map, laddr, size, pml4t, old(mem).view(), *masks, old(tracing).view(), ans,
            r, final(tracing).view(), final(mem).view()),
        final(tracing).pages_ok(),
        !(relocation_paddr(laddr, pml4t, old(mem).view(), *masks) matches Ok(p) && resize_grows_over(old(tracing).view(), p, size))
            ==> final(tracing).wf(),
{
    let ghost v = tracing.view();
    let ghost m0 = mem.view();
    let paddr = match relocation_address(laddr, pml4t, mem, masks) {
        Ok(p) => p,
        Err(e) => {
            let ghost h: Seq<MapAnswer> = Seq::empty();
            assert(relocation_outcome(laddr, size, pml4t, mem.view(), *masks, v, h).3 =~= Seq::<MapRequest>::empty());
            assert(relocation_done(map, laddr, size, pml4t, m0, *masks, v, h, Err(e), tracing.view(), mem.view()));
            return Err(e);
        },
    };
    let (a, h, q) = ask_map(map, MapRequest::TakeSpace(paddr, size), Ghost(Seq::empty()), Ghost(Seq::empty()));
    proof { assert(q@ =~= seq![MapRequest::TakeSpace(paddr, size)]); assert(h@[0] == a); }
    if a != MapAnswer::Yes || tracing.cannot_resize(paddr, size) {
        assert(relocation_done(map, laddr, size, pml4t, m0, *masks, v, h@, Err(PagingError::InternalFailure), tracing.view(), mem.view()));
        return Err(PagingError::InternalFailure);
    }
    let n0 = tracing.pages.len();
    let r = update_tracing_table(tracing, paddr, size);
    if tracing.pages.len() > n0 {
        let (c, h2, q2) = page_created(pml4t, mem, masks, map, h, q);
        proof {
            assert(begins(h2@, h2@));
            assert(h2@[0] == a);
        }
        match c {
            Ok(_) => {
                proof { assert(relocation_done(map, laddr, size, pml4t, m0, *masks, v, h2@, r, tracing.view(), mem.view())); }
                r
            },
            Err(e) => {
                tracing.keep_first_pages(n0);
                proof { assert(relocation_done(map, laddr, size, pml4t, m0, *masks, v, h2@, Err(e), tracing.view(), mem.view())); }
                Err(e)
            },
        }
    } else {
        assert(relocation_done(map, laddr, size, pml4t, m0, *masks, v, h@, r, tracing.view(), mem.view()));
        r
    }
}

} // verus!
