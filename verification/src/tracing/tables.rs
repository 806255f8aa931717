//! The tables that map the tracing pages of a memory owner.
//!
//! The last entry of the PML4T points to a PDPT whose tracing entries point
//! to PDTs; the entries of those PDTs map the tracing pages, huge pages of
//! 2 MiB that belong to the kernel. The tracing PDTs are walked in order, the
//! entries of a PDPT only while they are present.

use vstd::prelude::*;
use crate::allocations::{masks_ok, lemma_child_fits};
use crate::bitmap::{AddressMasks, Bitmap, has, P_BIT, PS_BIT, RW_BIT};
use crate::errors::PagingError;
use crate::indexers::{PageTableEntryOffset, LIMIT_ENTRY_OFFSET, TABLE_OFFSET_INCREMENT_SIZE, TRACING_TABLES_PML4T_OFFSET,
    tracing_start, tracing_end};
use crate::management::insert::{zero_table, zeroed};
use crate::management::map::{MapRequest, MapAnswer, begins, records, follows, lemma_begins_trans, lemma_follows_trans, ask_map};
use crate::page::PageType;
use crate::physmem::PhysicalMemory;
use crate::table::{PageTable, PageTableEntry, table_of_entry};
use crate::table_type::PageTableType;

verus! {

/// The flags of the entries mapping the tracing pages
pub open spec fn trace_page_flags() -> u64 {
    (RW_BIT | P_BIT) | PS_BIT
}

/// The PDPT of the tracing tables of the owner of `pml4t`
pub open spec fn tracing_pdpt_of(pml4t: PageTable, mem: Map<u64, u64>, masks: AddressMasks) -> Result<PageTable, PagingError> {
    table_of_entry(pml4t.entry_at(TRACING_TABLES_PML4T_OFFSET), mem, masks)
}

/// The first offset of the tracing entries of a PDPT
pub open spec fn pdpt_start(pdpt: PageTable) -> u64 {
    tracing_start(PageTableType::PageDirectoryPointerTable, pdpt.table_owner)
}

/// The limit of the tracing entries of a PDPT
pub open spec fn pdpt_end(pdpt: PageTable) -> u64 {
    tracing_end(PageTableType::PageDirectoryPointerTable, pdpt.table_owner, LIMIT_ENTRY_OFFSET)
}

/// The first entry of the PDT from the offset `o` on that is not present
pub open spec fn free_pdt_entry(pdt: PageTable, o: int, mem: Map<u64, u64>) -> Option<PageTableEntry>
    decreases LIMIT_ENTRY_OFFSET + 8 - o,
{
    if o < 0 || o >= LIMIT_ENTRY_OFFSET {
        None
    } else if !(pdt.entry_at(o as u64).is_present(mem)) {
        Some(pdt.entry_at(o as u64))
    } else {
        free_pdt_entry(pdt, o + 8, mem)
    }
}

/// The first free slot for a tracing page in the PDTs of the tracing entries
/// of the PDPT from the offset `o` on: the first tracing entry must point to
/// a PDT, the following ones are walked while they are present
pub open spec fn free_tracing_slot(pdpt: PageTable, o: int, mem: Map<u64, u64>, masks: AddressMasks)
    -> Result<Option<PageTableEntry>, PagingError>
    decreases pdpt_end(pdpt) + 8 - o,
{
    if o < pdpt_start(pdpt) || o >= pdpt_end(pdpt) {
        Ok(None)
    } else {
        let e = pdpt.entry_at(o as u64);
        if o > pdpt_start(pdpt) && !(e.is_present(mem)) {
            Ok(None)
        } else {
            match table_of_entry(e, mem, masks) {
                Err(x) => Err(x),
                Ok(pdt) => match free_pdt_entry(pdt, 0, mem) {
                    Some(s) => Ok(Some(s)),
                    None => free_tracing_slot(pdpt, o + 8, mem, masks),
                },
            }
        }
    }
}

/// The first tracing entry of the PDPT from the offset `o` on that is not present
pub open spec fn free_pdpt_entry(pdpt: PageTable, o: int, mem: Map<u64, u64>) -> Option<PageTableEntry>
    decreases pdpt_end(pdpt) + 8 - o,
{
    if o < pdpt_start(pdpt) || o >= pdpt_end(pdpt) {
        None
    } else if !(pdpt.entry_at(o as u64).is_present(mem)) {
        Some(pdpt.entry_at(o as u64))
    } else {
        free_pdpt_entry(pdpt, o + 8, mem)
    }
}

/// The state of the tracing tables: the memory and the requests made to the
/// memory map so far
pub type TableState = (Map<u64, u64>, Seq<MapRequest>);

/// Makes the request `q`, whose answer is the next one of `ans`
pub open spec fn ask_for(st: TableState, ans: Seq<MapAnswer>, q: MapRequest) -> (MapAnswer, TableState) {
    (ans[st.1.len() as int], (st.0, st.1.push(q)))
}

/// The outcome of creating a tracing PDT: a frame is asked for and taken,
/// set to zero, then linked from the first tracing entry of the PDPT that is
/// not present; the entry linking it, and the state
pub open spec fn tracing_table_creation(pdpt: PageTable, st: TableState, ans: Seq<MapAnswer>)
    -> (Result<PageTableEntry, PagingError>, TableState)
{
    let (a, st1) = ask_for(st, ans, MapRequest::FindAvailable(PageType::FourKiB));
    match a {
        MapAnswer::Found(p) => if p + LIMIT_ENTRY_OFFSET > u64::MAX {
            (Err(PagingError::NoSpaceAvailable), st1)
        } else {
            let (a2, st2) = ask_for(st1, ans, MapRequest::Acquire(p, PageType::FourKiB));
            if a2 != MapAnswer::Yes {
                (Err(PagingError::AllocationFailure), st2)
            } else {
                let m3 = zeroed(st2.0, p);
                match free_pdpt_entry(pdpt, pdpt_start(pdpt) as int, m3) {
                    Some(e) => (Ok(e), (m3.insert(e.entry, p | (RW_BIT | P_BIT)), st2.1)),
                    None => (Err(PagingError::NoSlotAvailable), (m3, st2.1)),
                }
            }
        },
        _ => (Err(PagingError::NoSpaceAvailable), st1),
    }
}

/// The outcome of mapping the tracing page at `page_paddr` in the first free
/// slot of the tracing PDTs, a new tracing PDT being created when there is
/// none; the entry mapping the page, and the state
pub open spec fn page_appended(page_paddr: u64, pml4t: PageTable, st: TableState, ans: Seq<MapAnswer>, masks: AddressMasks)
    -> (Result<PageTableEntry, PagingError>, TableState)
{
    match tracing_pdpt_of(pml4t, st.0, masks) {
        Err(x) => (Err(x), st),
        Ok(pdpt) => match free_tracing_slot(pdpt, pdpt_start(pdpt) as int, st.0, masks) {
            Err(x) => (Err(x), st),
            Ok(Some(e)) => (Ok(e), (st.0.insert(e.entry, page_paddr | trace_page_flags()), st.1)),
            Ok(None) => {
                let (r, st2) = tracing_table_creation(pdpt, st, ans);
                match r {
                    Err(x) => (Err(x), st2),
                    Ok(pe) => match table_of_entry(pe, st2.0, masks) {
                        Err(x) => (Err(x), st2),
                        Ok(pdt) => {
                            let e = pdt.entry_at(0);
                            (Ok(e), (st2.0.insert(e.entry, page_paddr | trace_page_flags()), st2.1))
                        },
                    },
                }
            },
        },
    }
}

/// Finds the PDPT of the tracing tables of the owner of the PML4T
pub fn tracing_pdpt(pml4t: PageTable, mem: &PhysicalMemory, masks: &AddressMasks) -> (r: Result<PageTable, PagingError>)
    requires
        pml4t.fits(),
    ensures
        r == tracing_pdpt_of(pml4t, mem.view(), *masks),
{
    let entry = PageTableEntry::new(pml4t.base_address + TRACING_TABLES_PML4T_OFFSET, pml4t.table_type, pml4t.table_owner);
    PageTable::try_from_entry(entry, mem, masks)
}

/// The bounds of the tracing entries of a PDPT
fn pdpt_bounds(pdpt: PageTable) -> (r: (u64, u64))
    ensures
        r.0 == pdpt_start(pdpt),
        r.1 == pdpt_end(pdpt),
        r.0 == 0,
        r.1 <= 0xFF8,
        r.1 % 8 == 0,
{
    match PageTableEntryOffset::tracing(PageTableType::PageDirectoryPointerTable, pdpt.table_owner) {
        Ok(range) => (range.start, range.end),
        Err(_) => (0, 0),
    }
}

/// Finds the first entry of the PDT that is not present
fn find_free_pdt_entry(pdt: PageTable, mem: &PhysicalMemory) -> (r: Option<PageTableEntry>)
    requires
        pdt.fits(),
    ensures
        r == free_pdt_entry(pdt, 0, mem.view()),
{
    let mut o: u64 = 0;
    while o < LIMIT_ENTRY_OFFSET
        invariant
            o <= LIMIT_ENTRY_OFFSET,
            o % 8 == 0,
            pdt.fits(),
            free_pdt_entry(pdt, 0, mem.view()) == free_pdt_entry(pdt, o as int, mem.view()),
        decreases LIMIT_ENTRY_OFFSET - o,
    {
        let entry = PageTableEntry::new(pdt.base_address + o, pdt.table_type, pdt.table_owner);
        if !entry.bitmap(mem).present() {
            return Some(entry);
        }
        o = o + TABLE_OFFSET_INCREMENT_SIZE;
    }
    None
}

/// Finds the first free slot for a tracing page, as [`free_tracing_slot`] says
pub fn find_free_tracing_slot(pdpt: PageTable, mem: &PhysicalMemory, masks: &AddressMasks)
    -> (r: Result<Option<PageTableEntry>, PagingError>)
    requires
        pdpt.fits(),
        masks_ok(*masks),
    ensures
        r == free_tracing_slot(pdpt, pdpt_start(pdpt) as int, mem.view(), *masks),
{
    let (start, end) = pdpt_bounds(pdpt);
    let mut o: u64 = start;
    while o < end
        invariant
            start == pdpt_start(pdpt),
            end == pdpt_end(pdpt),
            start <= o <= end,
            o % 8 == 0,
            end <= 0xFF8,
            pdpt.fits(),
            masks_ok(*masks),
            free_tracing_slot(pdpt, start as int, mem.view(), *masks) == free_tracing_slot(pdpt, o as int, mem.view(), *masks),
        decreases end - o,
    {
        let entry = PageTableEntry::new(pdpt.base_address + o, pdpt.table_type, pdpt.table_owner);
        let bits = entry.bitmap(mem);
        if o > start && !bits.present() {
            return Ok(None);
        }
        let pdt = match PageTable::try_from_entry(entry, mem, masks) {
            Ok(t) => t,
            Err(x) => {
                return Err(x);
            },
        };
        proof { lemma_child_fits(bits@, *masks); }
        if let Some(slot) = find_free_pdt_entry(pdt, mem) {
            return Ok(Some(slot));
        }
        o = o + TABLE_OFFSET_INCREMENT_SIZE;
    }
    Ok(None)
}

/// Finds the first tracing entry of the PDPT that is not present
fn find_free_pdpt_entry(pdpt: PageTable, mem: &PhysicalMemory) -> (r: Option<PageTableEntry>)
    requires
        pdpt.fits(),
    ensures
        r == free_pdpt_entry(pdpt, pdpt_start(pdpt) as int, mem.view()),
{
    let (start, end) = pdpt_bounds(pdpt);
    let mut o: u64 = start;
    while o < end
        invariant
            start == pdpt_start(pdpt),
            end == pdpt_end(pdpt),
            start <= o <= end,
            o % 8 == 0,
            end <= 0xFF8,
            pdpt.fits(),
            free_pdpt_entry(pdpt, start as int, mem.view()) == free_pdpt_entry(pdpt, o as int, mem.view()),
        decreases end - o,
    {
        let entry = PageTableEntry::new(pdpt.base_address + o, pdpt.table_type, pdpt.table_owner);
        if !entry.bitmap(mem).present() {
            return Some(entry);
        }
        o = o + TABLE_OFFSET_INCREMENT_SIZE;
    }
    None
}

/// Where the walk through a tracing PDT from the offset `o` on meets the
/// tracing page at `page`: its entry, the end of the walk at an entry that is
/// not present, or the end of the table
pub open spec fn pdt_page_entry(pdt: PageTable, o: int, mem: Map<u64, u64>, masks: AddressMasks, page: u64)
    -> Option<Option<PageTableEntry>>
    decreases LIMIT_ENTRY_OFFSET + 8 - o,
{
    if o < 0 || o >= LIMIT_ENTRY_OFFSET {
        None
    } else {
        let e = pdt.entry_at(o as u64);
        if !(e.is_present(mem)) {
            Some(None)
        } else if e.bits(mem) & masks.mask_2m == page {
            Some(Some(e))
        } else {
            pdt_page_entry(pdt, o + 8, mem, masks, page)
        }
    }
}

/// The entry mapping the tracing page at `page`, walking the tracing pages
/// in order from the tracing entry of the PDPT at the offset `o` on, up to the
/// first entry that is not present
pub open spec fn tracing_page_entry(pdpt: PageTable, o: int, mem: Map<u64, u64>, masks: AddressMasks, page: u64)
    -> Result<Option<PageTableEntry>, PagingError>
    decreases pdpt_end(pdpt) + 8 - o,
{
    if o < pdpt_start(pdpt) || o >= pdpt_end(pdpt) {
        Ok(None)
    } else {
        let e = pdpt.entry_at(o as u64);
        if o > pdpt_start(pdpt) && !(e.is_present(mem)) {
            Ok(None)
        } else {
            match table_of_entry(e, mem, masks) {
                Err(x) => Err(x),
                Ok(pdt) => match pdt_page_entry(pdt, 0, mem, masks, page) {
                    Some(found) => Ok(found),
                    None => tracing_page_entry(pdpt, o + 8, mem, masks, page),
                },
            }
        }
    }
}

/// The outcome of deleting the tracing page at `page_paddr`: its frame is
/// given back and its entry cleared; the result and the state
pub open spec fn page_deletion(page_paddr: u64, pml4t: PageTable, st: TableState, ans: Seq<MapAnswer>, masks: AddressMasks)
    -> (Result<(), PagingError>, TableState)
{
    match tracing_pdpt_of(pml4t, st.0, masks) {
        Err(x) => (Err(x), st),
        Ok(pdpt) => match tracing_page_entry(pdpt, pdpt_start(pdpt) as int, st.0, masks, page_paddr) {
            Err(x) => (Err(x), st),
            Ok(None) => (Err(PagingError::PageFault), st),
            Ok(Some(e)) => {
                let (a, st1) = ask_for(st, ans, MapRequest::KernelReleaseRange(page_paddr, PageType::TwoMiB, 1));
                if a != MapAnswer::Yes {
                    (Err(PagingError::DeallocationFailure), st1)
                } else {
                    (Ok(()), (st1.0.insert(e.entry, 0), st1.1))
                }
            },
        },
    }
}

/// The outcome of creating a tracing page: its frame is asked for and taken,
/// then mapped as [`page_appended`] says, and given back if that fails; the
/// entry mapping the page, and the state
pub open spec fn page_creation(pml4t: PageTable, st: TableState, ans: Seq<MapAnswer>, masks: AddressMasks)
    -> (Result<PageTableEntry, PagingError>, TableState)
{
    let (a, st1) = ask_for(st, ans, MapRequest::FindRange(PageType::TwoMiB, 1));
    match a {
        MapAnswer::Found(p) => {
            let (a2, st2) = ask_for(st1, ans, MapRequest::KernelAcquireRange(p, PageType::TwoMiB, 1));
            if a2 != MapAnswer::Yes {
                (Err(PagingError::AllocationFailure), st2)
            } else {
                let (r, st3) = page_appended(p, pml4t, st2, ans, masks);
                match r {
                    Ok(e) => (Ok(e), st3),
                    Err(x) => {
                        let (a3, st4) = ask_for(st3, ans, MapRequest::KernelReleaseRange(p, PageType::TwoMiB, 1));
                        if a3 == MapAnswer::Yes { (Err(x), st4) } else { (Err(PagingError::DeallocationFailure), st4) }
                    },
                }
            }
        },
        _ => (Err(PagingError::NoSpaceAvailable), st1),
    }
}

/// Creates a tracing PDT, as [`tracing_table_creation`] says
pub fn create_tracing_table<F: Fn(MapRequest) -> MapAnswer>(
    pdpt: PageTable,
    mem: &mut PhysicalMemory,
    map: &F,
    Ghost(hist): Ghost<Seq<MapAnswer>>,
    Ghost(reqs): Ghost<Seq<MapRequest>>,
) -> (r: (Result<PageTableEntry, PagingError>, Ghost<Seq<MapAnswer>>, Ghost<Seq<MapRequest>>))
    requires
        pdpt.fits(),
        forall|q: MapRequest| map.requires((q,)),
        records(map, hist, reqs),
    ensures
        records(map, r.1@, r.2@),
        follows(hist, reqs, r.1@, r.2@),
        forall|ans: Seq<MapAnswer>| #![trigger begins(r.1@, ans)] begins(r.1@, ans) ==>
            tracing_table_creation(pdpt, (old(mem).view(), reqs), ans) == (r.0, (final(mem).view(), r.2@)),
{
    let (a, g1, g2) = ask_map(map, MapRequest::FindAvailable(PageType::FourKiB), Ghost(hist), Ghost(reqs));
    proof { assert(g1@[hist.len() as int] == a); }
    match a {
        MapAnswer::Found(p) => {
            if p > u64::MAX - LIMIT_ENTRY_OFFSET {
                return (Err(PagingError::NoSpaceAvailable), g1, g2);
            }
            let (a2, g3, g4) = ask_map(map, MapRequest::Acquire(p, PageType::FourKiB), g1, g2);
            proof {
                assert(g3@[hist.len() as int] == a);
                assert(g3@[g1@.len() as int] == a2);
                lemma_follows_trans(hist, reqs, g1@, g2@, g3@, g4@);
            }
            if a2 != MapAnswer::Yes {
                return (Err(PagingError::AllocationFailure), g3, g4);
            }
            zero_table(mem, p);
            match find_free_pdpt_entry(pdpt, mem) {
                Some(e) => {
                    e.set_bitmap(mem, Bitmap::from_bits(p).union(Bitmap::default_kernel()));
                    (Ok(e), g3, g4)
                },
                None => (Err(PagingError::NoSlotAvailable), g3, g4),
            }
        },
        _ => (Err(PagingError::NoSpaceAvailable), g1, g2),
    }
}

/// Maps the tracing page at `page_paddr`, as [`page_appended`] says
fn page_mapped<F: Fn(MapRequest) -> MapAnswer>(
    page_paddr: u64,
    pml4t: PageTable,
    mem: &mut PhysicalMemory,
    masks: &AddressMasks,
    map: &F,
    Ghost(hist): Ghost<Seq<MapAnswer>>,
    Ghost(reqs): Ghost<Seq<MapRequest>>,
) -> (r: (Result<PageTableEntry, PagingError>, Ghost<Seq<MapAnswer>>, Ghost<Seq<MapRequest>>))
    requires
        pml4t.fits(),
        masks_ok(*masks),
        forall|q: MapRequest| map.requires((q,)),
        records(map, hist, reqs),
    ensures
        records(map, r.1@, r.2@),
        follows(hist, reqs, r.1@, r.2@),
        forall|ans: Seq<MapAnswer>| #![trigger begins(r.1@, ans)] begins(r.1@, ans) ==>
            page_appended(page_paddr, pml4t, (old(mem).view(), reqs), ans, *masks) == (r.0, (final(mem).view(), r.2@)),
{
    let ghost m0 = mem.view();
    let pdpt = match tracing_pdpt(pml4t, mem, masks) {
        Ok(t) => t,
        Err(x) => {
            return (Err(x), Ghost(hist), Ghost(reqs));
        },
    };
    proof { lemma_child_fits(pml4t.entry_at(TRACING_TABLES_PML4T_OFFSET).bits(mem.view()), *masks); }
    match find_free_tracing_slot(pdpt, mem, masks) {
        Err(x) => (Err(x), Ghost(hist), Ghost(reqs)),
        Ok(Some(e)) => {
            e.set_bitmap(mem, Bitmap::from_bits(page_paddr).union(Bitmap::default_kernel().with_bits(PS_BIT)));
            (Ok(e), Ghost(hist), Ghost(reqs))
        },
        Ok(None) => {
            let (r, g1, g2) = create_tracing_table(pdpt, mem, map, Ghost(hist), Ghost(reqs));
            let ghost m2 = mem.view();
            let pe = match r {
                Ok(pe) => pe,
                Err(x) => {
                    return (Err(x), g1, g2);
                },
            };
            let pdt = match PageTable::try_from_entry(pe, mem, masks) {
                Ok(t) => t,
                Err(x) => {
                    return (Err(x), g1, g2);
                },
            };
            let e = PageTableEntry::new(pdt.base_address, pdt.table_type, pdt.table_owner);
            e.set_bitmap(mem, Bitmap::from_bits(page_paddr).union(Bitmap::default_kernel().with_bits(PS_BIT)));
            proof {
                assert(e == pdt.entry_at(0));
            }
            (Ok(e), g1, g2)
        },
    }
}

/// The mapping of the tracing page at `page_paddr` ended with the result `r`
/// and the memory `mem2`, the memory map having given the answers `ans`, each
/// to its request
pub open spec fn appended_done<F: Fn(MapRequest) -> MapAnswer>(map: &F, page_paddr: u64, pml4t: PageTable,
    mem: Map<u64, u64>, masks: AddressMasks, ans: Seq<MapAnswer>, r: Result<PageTableEntry, PagingError>, mem2: Map<u64, u64>)
    -> bool
{
    let (res, st) = page_appended(page_paddr, pml4t, (mem, Seq::empty()), ans, masks);
    &&& records(map, ans, st.1)
    &&& res == r
    &&& st.0 == mem2
}

/// The creation of a tracing page ended with the result `r` and the memory
/// `mem2`, the memory map having given the answers `ans`, each to its request
pub open spec fn created_done<F: Fn(MapRequest) -> MapAnswer>(map: &F, pml4t: PageTable, mem: Map<u64, u64>,
    masks: AddressMasks, ans: Seq<MapAnswer>, r: Result<PageTableEntry, PagingError>, mem2: Map<u64, u64>) -> bool
{
    let (res, st) = page_creation(pml4t, (mem, Seq::empty()), ans, masks);
    &&& records(map, ans, st.1)
    &&& res == r
    &&& st.0 == mem2
}

/// Maps the tracing page at `page_paddr` in the first free slot of the
/// tracing PDTs of the owner of the PML4T, creating a new tracing PDT when
/// there is none
///
/// Returns the entry mapping the page, or an [`Err`] if the tracing tables
/// cannot be reached, if no frame can be found or taken for a new table, or
/// if the tracing PDPT has no free entry left.
pub fn append_tracing_page<F: Fn(MapRequest) -> MapAnswer>(
    page_paddr: u64,
    pml4t: PageTable,
    mem: &mut PhysicalMemory,
    masks: &AddressMasks,
    map: &F,
) -> (r: Result<PageTableEntry, PagingError>)
    requires
        pml4t.fits(),
        masks_ok(*masks),
        forall|q: MapRequest| map.requires((q,)),
    ensures
        exists|ans: Seq<MapAnswer>| appended_done(map, page_paddr, pml4t, old(mem).view(), *masks, ans, r, final(mem).view()),
{
    let (r, g1, g2) = page_mapped(page_paddr, pml4t, mem, masks, map, Ghost(Seq::empty()), Ghost(Seq::empty()));
    proof {
        assert(begins(g1@, g1@));
        assert(appended_done(map, page_paddr, pml4t, old(mem).view(), *masks, g1@, r, mem.view()));
    }
    r
}

/// Creates a tracing page, as [`page_creation`] says, after the requests
/// `reqs` answered by `hist`
pub fn page_created<F: Fn(MapRequest) -> MapAnswer>(
    pml4t: PageTable,
    mem: &mut PhysicalMemory,
    masks: &AddressMasks,
    map: &F,
    Ghost(hist): Ghost<Seq<MapAnswer>>,
    Ghost(reqs): Ghost<Seq<MapRequest>>,
) -> (r: (Result<PageTableEntry, PagingError>, Ghost<Seq<MapAnswer>>, Ghost<Seq<MapRequest>>))
    requires
        pml4t.fits(),
        masks_ok(*masks),
        forall|q: MapRequest| map.requires((q,)),
        records(map, hist, reqs),
    ensures
        records(map, r.1@, r.2@),
        follows(hist, reqs, r.1@, r.2@),
        forall|ans: Seq<MapAnswer>| #![trigger begins(r.1@, ans)] begins(r.1@, ans) ==>
            page_creation(pml4t, (old(mem).view(), reqs), ans, *masks) == (r.0, (final(mem).view(), r.2@)),
{
    let (a, g1, g2) = ask_map(map, MapRequest::FindRange(PageType::TwoMiB, 1), Ghost(hist), Ghost(reqs));
    proof { assert(g1@[hist.len() as int] == a); }
    match a {
        MapAnswer::Found(p) => {
            let (a2, g3, g4) = ask_map(map, MapRequest::KernelAcquireRange(p, PageType::TwoMiB, 1), g1, g2);
            proof {
                assert(g3@[hist.len() as int] == a);
                assert(g3@[g1@.len() as int] == a2);
                lemma_follows_trans(hist, reqs, g1@, g2@, g3@, g4@);
            }
            if a2 != MapAnswer::Yes {
                return (Err(PagingError::AllocationFailure), g3, g4);
            }
            let ghost m1 = mem.view();
            let (r, g5, g6) = page_mapped(p, pml4t, mem, masks, map, g3, g4);
            proof {
                lemma_follows_trans(hist, reqs, g3@, g4@, g5@, g6@);
                assert forall|ans: Seq<MapAnswer>| #![trigger begins(g5@, ans)] begins(g5@, ans) implies begins(g3@, ans) by {
                    lemma_begins_trans(g3@, g5@, ans);
                }
            }
            match r {
                Ok(e) => (Ok(e), g5, g6),
                Err(x) => {
                    let (a3, g7, g8) = ask_map(map, MapRequest::KernelReleaseRange(p, PageType::TwoMiB, 1), g5, g6);
                    proof {
                        lemma_follows_trans(hist, reqs, g5@, g6@, g7@, g8@);
                        assert(g7@[g5@.len() as int] == a3);
                        assert forall|ans: Seq<MapAnswer>| #![trigger begins(g7@, ans)] begins(g7@, ans) implies begins(g5@, ans) && begins(g3@, ans) by {
                            lemma_begins_trans(g5@, g7@, ans);
                            lemma_begins_trans(g3@, g7@, ans);
                        }
                    }
                    if a3 == MapAnswer::Yes {
                        (Err(x), g7, g8)
                    } else {
                        (Err(PagingError::DeallocationFailure), g7, g8)
                    }
                },
            }
        },
        _ => (Err(PagingError::NoSpaceAvailable), g1, g2),
    }
}

/// Creates a new tracing page for the owner of the PML4T: a frame of 2 MiB
/// is found and taken for it, then mapped as [`append_tracing_page`] does;
/// the frame is given back if it cannot be mapped
///
/// Returns the entry mapping the page, or the error; a frame that cannot be
/// given back gives [`PagingError::DeallocationFailure`].
pub fn create_tracing_page<F: Fn(MapRequest) -> MapAnswer>(
    pml4t: PageTable,
    mem: &mut PhysicalMemory,
    masks: &AddressMasks,
    map: &F,
) -> (r: Result<PageTableEntry, PagingError>)
    requires
        pml4t.fits(),
        masks_ok(*masks),
        forall|q: MapRequest| map.requires((q,)),
    ensures
        exists|ans: Seq<MapAnswer>| created_done(map, pml4t, old(mem).view(), *masks, ans, r, final(mem).view()),
{
    let (r, g1, g2) = page_created(pml4t, mem, masks, map, Ghost(Seq::empty()), Ghost(Seq::empty()));
    proof {
        assert(begins(g1@, g1@));
        assert(created_done(map, pml4t, old(mem).view(), *masks, g1@, r, mem.view()));
    }
    r
}

/// Finds where the walk through the PDT meets the tracing page at `page`, as
/// [`pdt_page_entry`] says
fn find_page_in_pdt(pdt: PageTable, mem: &PhysicalMemory, masks: &AddressMasks, page: u64) -> (r: Option<Option<PageTableEntry>>)
    requires
        pdt.fits(),
    ensures
        r == pdt_page_entry(pdt, 0, mem.view(), *masks, page),
{
    let mut o: u64 = 0;
    while o < LIMIT_ENTRY_OFFSET
        invariant
            o <= LIMIT_ENTRY_OFFSET,
            o % 8 == 0,
            pdt.fits(),
            pdt_page_entry(pdt, 0, mem.view(), *masks, page) == pdt_page_entry(pdt, o as int, mem.view(), *masks, page),
        decreases LIMIT_ENTRY_OFFSET - o,
    {
        let entry = PageTableEntry::new(pdt.base_address + o, pdt.table_type, pdt.table_owner);
        let bits = entry.bitmap(mem);
        if !bits.present() {
            return Some(None);
        }
        if bits.address(PageType::TwoMiB, masks) == page {
            return Some(Some(entry));
        }
        o = o + TABLE_OFFSET_INCREMENT_SIZE;
    }
    None
}

/// Finds the entry mapping the tracing page at `page`, as
/// [`tracing_page_entry`] says
fn find_tracing_page(pdpt: PageTable, mem: &PhysicalMemory, masks: &AddressMasks, page: u64)
    -> (r: Result<Option<PageTableEntry>, PagingError>)
    requires
        pdpt.fits(),
        masks_ok(*masks),
    ensures
        r == tracing_page_entry(pdpt, pdpt_start(pdpt) as int, mem.view(), *masks, page),
{
    let (start, end) = pdpt_bounds(pdpt);
    let mut o: u64 = start;
    while o < end
        invariant
            start == pdpt_start(pdpt),
            end == pdpt_end(pdpt),
            start <= o <= end,
            o % 8 == 0,
            end <= 0xFF8,
            pdpt.fits(),
            masks_ok(*masks),
            tracing_page_entry(pdpt, start as int, mem.view(), *masks, page)
                == tracing_page_entry(pdpt, o as int, mem.view(), *masks, page),
        decreases end - o,
    {
        let entry = PageTableEntry::new(pdpt.base_address + o, pdpt.table_type, pdpt.table_owner);
        let bits = entry.bitmap(mem);
        if o > start && !bits.present() {
            return Ok(None);
        }
        let pdt = match PageTable::try_from_entry(entry, mem, masks) {
            Ok(t) => t,
            Err(x) => {
                return Err(x);
            },
        };
        proof { lemma_child_fits(bits@, *masks); }
        if let Some(found) = find_page_in_pdt(pdt, mem, masks, page) {
            return Ok(found);
        }
        o = o + TABLE_OFFSET_INCREMENT_SIZE;
    }
    Ok(None)
}

/// The deletion of the tracing page at `page_paddr` ended with the result `r`
/// and the memory `mem2`, the memory map having given the answers `ans`, each
/// to its request
pub open spec fn deleted_done<F: Fn(MapRequest) -> MapAnswer>(map: &F, page_paddr: u64, pml4t: PageTable,
    mem: Map<u64, u64>, masks: AddressMasks, ans: Seq<MapAnswer>, r: Result<(), PagingError>, mem2: Map<u64, u64>) -> bool
{
    let (res, st) = page_deletion(page_paddr, pml4t, (mem, Seq::empty()), ans, masks);
    &&& records(map, ans, st.1)
    &&& res == r
    &&& st.0 == mem2
}

/// Deletes the tracing page at `page_paddr` of the owner of the PML4T: its
/// frame is given back to the memory map and its entry cleared
///
/// Returns an [`Err`] if the tracing tables cannot be reached, if no tracing
/// page is found at that address, or if its frame cannot be given back.
pub fn delete_tracing_page<F: Fn(MapRequest) -> MapAnswer>(
    page_paddr: u64,
    pml4t: PageTable,
    mem: &mut PhysicalMemory,
    masks: &AddressMasks,
    map: &F,
) -> (r: Result<(), PagingError>)
    requires
        pml4t.fits(),
        masks_ok(*masks),
        forall|q: MapRequest| map.requires((q,)),
    ensures
        exists|ans: Seq<MapAnswer>| deleted_done(map, page_paddr, pml4t, old(mem).view(), *masks, ans, r, final(mem).view()),
{
    let pdpt = match tracing_pdpt(pml4t, mem, masks) {
        Ok(t) => t,
        Err(x) => {
            proof { assert(deleted_done(map, page_paddr, pml4t, old(mem).view(), *masks, Seq::empty(), Err(x), mem.view())); }
            return Err(x);
        },
    };
    proof { lemma_child_fits(pml4t.entry_at(TRACING_TABLES_PML4T_OFFSET).bits(mem.view()), *masks); }
    match find_tracing_page(pdpt, mem, masks, page_paddr) {
        Err(x) => {
            proof { assert(deleted_done(map, page_paddr, pml4t, old(mem).view(), *masks, Seq::empty(), Err(x), mem.view())); }
            Err(x)
        },
        Ok(None) => {
            proof {
                assert(deleted_done(map, page_paddr, pml4t, old(mem).view(), *masks, Seq::empty(),
                    Err(PagingError::PageFault), mem.view()));
            }
            Err(PagingError::PageFault)
        },
        Ok(Some(e)) => {
            let (a, g1, g2) = ask_map(map, MapRequest::KernelReleaseRange(page_paddr, PageType::TwoMiB, 1),
                Ghost(Seq::empty()), Ghost(Seq::empty()));
            proof { assert(g1@[0] == a); }
            if a != MapAnswer::Yes {
                proof {
                    assert(deleted_done(map, page_paddr, pml4t, old(mem).view(), *masks, g1@,
                        Err(PagingError::DeallocationFailure), mem.view()));
                }
                return Err(PagingError::DeallocationFailure);
            }
            e.set_bitmap(mem, Bitmap::new());
            proof { assert(deleted_done(map, page_paddr, pml4t, old(mem).view(), *masks, g1@, Ok(()), mem.view())); }
            Ok(())
        },
    }
}


/// The entries of a tracing PDT that map tracing pages, walked from the offset
/// `o` on, and whether the walk stopped at an entry that is not present
pub open spec fn pdt_page_entries(pdt: PageTable, o: int, mem: Map<u64, u64>) -> (Seq<PageTableEntry>, bool)
    decreases LIMIT_ENTRY_OFFSET + 8 - o,
{
    if o < 0 || o >= LIMIT_ENTRY_OFFSET {
        (Seq::empty(), false)
    } else {
        let e = pdt.entry_at(o as u64);
        if !(e.is_present(mem)) {
            (Seq::empty(), true)
        } else {
            let (r, stop) = pdt_page_entries(pdt, o + 8, mem);
            (seq![e] + r, stop)
        }
    }
}

/// The entries mapping the tracing pages, in the order in which the tracing
/// pages follow each other, walking the tracing PDTs from the tracing entry of
/// the PDPT at the offset `o` on, up to the first entry that is not present
pub open spec fn tracing_page_entries(pdpt: PageTable, o: int, mem: Map<u64, u64>, masks: AddressMasks)
    -> Result<Seq<PageTableEntry>, PagingError>
    decreases pdpt_end(pdpt) + 8 - o,
{
    if o < pdpt_start(pdpt) || o >= pdpt_end(pdpt) {
        Ok(Seq::empty())
    } else {
        let e = pdpt.entry_at(o as u64);
        if o > pdpt_start(pdpt) && !(e.is_present(mem)) {
            Ok(Seq::empty())
        } else {
            match table_of_entry(e, mem, masks) {
                Err(x) => Err(x),
                Ok(pdt) => {
                    let (r, stop) = pdt_page_entries(pdt, 0, mem);
                    if stop {
                        Ok(r)
                    } else {
                        match tracing_page_entries(pdpt, o + 8, mem, masks) {
                            Err(x) => Err(x),
                            Ok(r2) => Ok(r + r2),
                        }
                    }
                },
            }
        }
    }
}

/// The entries mapping the tracing pages of the owner of the PML4T, in order
pub open spec fn tracing_pages_of(pml4t: PageTable, mem: Map<u64, u64>, masks: AddressMasks)
    -> Result<Seq<PageTableEntry>, PagingError>
{
    match tracing_pdpt_of(pml4t, mem, masks) {
        Err(x) => Err(x),
        Ok(pdpt) => tracing_page_entries(pdpt, pdpt_start(pdpt) as int, mem, masks),
    }
}

/// The frames of the tracing pages mapped by the entries `es`
pub open spec fn frames_of(es: Seq<PageTableEntry>, mem: Map<u64, u64>, masks: AddressMasks) -> Seq<u64> {
    Seq::new(es.len(), |k: int| es[k].bits(mem) & masks.mask_2m)
}

/// The requests giving back the `n` frames from the `from`-th one on
pub open spec fn frame_releases(frames: Seq<u64>, from: int, n: int) -> Seq<MapRequest> {
    Seq::new(n as nat, |j: int| MapRequest::KernelReleaseRange(frames[from + j], PageType::TwoMiB, 1))
}

/// The outcome of giving back the frames of the tracing pages from the `k`-th
/// one on, the entry of each being cleared once its frame is given back; the
/// `i`-th answer of `ans` is the next one: the result, the memory and the
/// number of requests made
pub open spec fn frames_released(es: Seq<PageTableEntry>, k: int, mem: Map<u64, u64>, ans: Seq<MapAnswer>, i: int)
    -> (Result<(), PagingError>, Map<u64, u64>, int)
    decreases es.len() - k,
{
    if k < 0 || k >= es.len() {
        (Ok(()), mem, i)
    } else if ans[i] != MapAnswer::Yes {
        (Err(PagingError::DeallocationFailure), mem, i + 1)
    } else {
        frames_released(es, k + 1, mem.insert(es[k].entry, 0), ans, i + 1)
    }
}

/// The release of the tracing pages of the owner of the PML4T from the
/// `from`-th one on ended with the result `r` and the memory `mem2`, the
/// memory map having given the answers `ans`, each to its request
pub open spec fn released_done<F: Fn(MapRequest) -> MapAnswer>(map: &F, pml4t: PageTable, from: int,
    mem: Map<u64, u64>, masks: AddressMasks, ans: Seq<MapAnswer>, r: Result<(), PagingError>, mem2: Map<u64, u64>) -> bool
{
    match tracing_pages_of(pml4t, mem, masks) {
        Err(x) => r == Err::<(), PagingError>(x) && mem2 == mem && ans.len() == 0,
        Ok(es) => {
            let (res, m2, n) = frames_released(es, from, mem, ans, 0);
            &&& records(map, ans, frame_releases(frames_of(es, mem, masks), from, n - 0))
            &&& res == r
            &&& m2 == mem2
        },
    }
}

/// Collects the entries of the PDT that map tracing pages, as
/// [`pdt_page_entries`] says
fn collect_pdt_pages(pdt: PageTable, mem: &PhysicalMemory, acc: &mut Vec<PageTableEntry>) -> (stop: bool)
    requires
        pdt.fits(),
    ensures
        final(acc)@ == old(acc)@ + pdt_page_entries(pdt, 0, mem.view()).0,
        stop == pdt_page_entries(pdt, 0, mem.view()).1,
{
    let ghost a0 = acc@;
    let mut o: u64 = 0;
    while o < LIMIT_ENTRY_OFFSET
        invariant
            o <= LIMIT_ENTRY_OFFSET,
            o % 8 == 0,
            pdt.fits(),
            a0 == old(acc)@,
            a0 + pdt_page_entries(pdt, 0, mem.view()).0 == acc@ + pdt_page_entries(pdt, o as int, mem.view()).0,
            pdt_page_entries(pdt, 0, mem.view()).1 == pdt_page_entries(pdt, o as int, mem.view()).1,
        decreases LIMIT_ENTRY_OFFSET - o,
    {
        let entry = PageTableEntry::new(pdt.base_address + o, pdt.table_type, pdt.table_owner);
        if !entry.bitmap(mem).present() {
            proof { assert(acc@ + Seq::<PageTableEntry>::empty() =~= acc@); }
            return true;
        }
        let ghost before = acc@;
        acc.push(entry);
        proof {
            let rest = pdt_page_entries(pdt, o + 8, mem.view()).0;
            assert(before + (seq![entry] + rest) =~= acc@ + rest);
        }
        o = o + TABLE_OFFSET_INCREMENT_SIZE;
    }
    false
}

/// Collects the entries mapping the tracing pages of the owner of the PML4T,
/// as [`tracing_pages_of`] says
pub fn tracing_page_entries_of(pml4t: PageTable, mem: &PhysicalMemory, masks: &AddressMasks)
    -> (r: Result<Vec<PageTableEntry>, PagingError>)
    requires
        pml4t.fits(),
        masks_ok(*masks),
    ensures
        match r {
            Ok(v) => tracing_pages_of(pml4t, mem.view(), *masks) == Ok::<Seq<PageTableEntry>, PagingError>(v@),
            Err(x) => tracing_pages_of(pml4t, mem.view(), *masks) == Err::<Seq<PageTableEntry>, PagingError>(x),
        },
{
    let pdpt = match tracing_pdpt(pml4t, mem, masks) {
        Ok(t) => t,
        Err(x) => {
            return Err(x);
        },
    };
    proof { lemma_child_fits(pml4t.entry_at(TRACING_TABLES_PML4T_OFFSET).bits(mem.view()), *masks); }
    let (start, end) = pdpt_bounds(pdpt);
    let mut acc: Vec<PageTableEntry> = Vec::new();
    let mut o: u64 = start;
    while o < end
        invariant
            start == pdpt_start(pdpt),
            end == pdpt_end(pdpt),
            start <= o <= end,
            o % 8 == 0,
            end <= 0xFF8,
            pdpt.fits(),
            masks_ok(*masks),
            tracing_pages_of(pml4t, mem.view(), *masks) == (match tracing_page_entries(pdpt, o as int, mem.view(), *masks) {
                Ok(r2) => Ok::<Seq<PageTableEntry>, PagingError>(acc@ + r2),
                Err(x) => Err(x),
            }),
        decreases end - o,
    {
        let entry = PageTableEntry::new(pdpt.base_address + o, pdpt.table_type, pdpt.table_owner);
        let bits = entry.bitmap(mem);
        if o > start && !bits.present() {
            proof { assert(acc@ + Seq::<PageTableEntry>::empty() =~= acc@); }
            return Ok(acc);
        }
        let pdt = match PageTable::try_from_entry(entry, mem, masks) {
            Ok(t) => t,
            Err(x) => {
                return Err(x);
            },
        };
        proof { lemma_child_fits(bits@, *masks); }
        let ghost before = acc@;
        let stop = collect_pdt_pages(pdt, mem, &mut acc);
        if stop {
            return Ok(acc);
        }
        proof {
            let r = pdt_page_entries(pdt, 0, mem.view()).0;
            match tracing_page_entries(pdpt, o + 8, mem.view(), *masks) {
                Ok(r2) => { assert(before + (r + r2) =~= acc@ + r2); },
                Err(_) => {},
            }
        }
        o = o + TABLE_OFFSET_INCREMENT_SIZE;
    }
    proof { assert(acc@ + Seq::<PageTableEntry>::empty() =~= acc@); }
    Ok(acc)
}

/// Gives back the frames of the tracing pages of the owner of the PML4T from
/// the `from`-th one on, clearing the entry of each once its frame is given back
///
/// Returns an [`Err`] if the tracing tables cannot be walked, or
/// [`PagingError::DeallocationFailure`] at the first frame that cannot be given
/// back; the pages before it are gone, that one and the following ones stay.
pub fn release_tracing_pages_from<F: Fn(MapRequest) -> MapAnswer>(
    from: usize,
    pml4t: PageTable,
    mem: &mut PhysicalMemory,
    masks: &AddressMasks,
    map: &F,
) -> (r: Result<(), PagingError>)
    requires
        pml4t.fits(),
        masks_ok(*masks),
        forall|q: MapRequest| map.requires((q,)),
    ensures
        exists|ans: Seq<MapAnswer>| released_done(map, pml4t, from as int, old(mem).view(), *masks, ans, r, final(mem).view()),
{
    let es = match tracing_page_entries_of(pml4t, mem, masks) {
        Ok(v) => v,
        Err(x) => {
            proof { assert(released_done(map, pml4t, from as int, old(mem).view(), *masks, Seq::empty(), Err(x), mem.view())); }
            return Err(x);
        },
    };
    let ghost m0 = mem.view();
    let ghost frames = frames_of(es@, m0, *masks);
    let mut pages: Vec<u64> = Vec::new();
    let mut j: usize = 0;
    while j < es.len()
        invariant
            j <= es.len(),
            pages@.len() == j,
            mem.view() == m0,
            frames == frames_of(es@, m0, *masks),
            forall|i: int| #![trigger pages@[i]] 0 <= i < j ==> pages@[i] == frames[i],
        decreases es.len() - j,
    {
        let page = es[j].bitmap(mem).address(PageType::TwoMiB, masks);
        pages.push(page);
        j = j + 1;
    }
    let mut hist: Ghost<Seq<MapAnswer>> = Ghost(Seq::empty());
    let mut reqs: Ghost<Seq<MapRequest>> = Ghost(Seq::empty());
    let mut k: usize = from;
    if k >= es.len() {
        proof {
            assert(frame_releases(frames, from as int, 0) =~= Seq::<MapRequest>::empty());
            assert(released_done(map, pml4t, from as int, m0, *masks, hist@, Ok(()), mem.view()));
        }
        return Ok(());
    }
    proof { assert(frame_releases(frames, from as int, 0) =~= Seq::<MapRequest>::empty()); }
    while k < es.len()
        invariant
            m0 == old(mem).view(),
            from <= k <= es.len(),
            pages@.len() == es@.len(),
            forall|i: int| #![trigger pages@[i]] 0 <= i < es@.len() ==> pages@[i] == frames[i],
            frames == frames_of(es@, m0, *masks),
            tracing_pages_of(pml4t, m0, *masks) == Ok::<Seq<PageTableEntry>, PagingError>(es@),
            forall|q: MapRequest| map.requires((q,)),
            hist@.len() == k - from,
            records(map, hist@, reqs@),
            reqs@ == frame_releases(frames, from as int, k - from),
            forall|h: Seq<MapAnswer>| #![trigger begins(hist@, h)] begins(hist@, h) ==>
                frames_released(es@, from as int, m0, h, 0) == frames_released(es@, k as int, mem.view(), h, k - from),
        decreases es.len() - k,
    {
        let ghost m1 = mem.view();
        let ghost h0 = hist@;
        let q = MapRequest::KernelReleaseRange(pages[k], PageType::TwoMiB, 1);
        let (a, h1, q1) = ask_map(map, q, hist, reqs);
        proof {
            assert(h1@[k - from] == a);
            assert(reqs@.push(q) =~= frame_releases(frames, from as int, k - from + 1));
            assert forall|h: Seq<MapAnswer>| #![trigger begins(h1@, h)] begins(h1@, h) implies begins(h0, h) by {
                assert forall|i: int| #![trigger h0[i]] 0 <= i < h0.len() implies h[i] == h0[i] by {
                    assert(h1@[i] == h0[i]);
                }
            }
            assert forall|i: int| #![trigger h1@[i]] 0 <= i < h1@.len() implies call_ensures(map, (q1@[i],), h1@[i]) by {
                if i < h0.len() {
                    assert(h1@[i] == h0[i]);
                }
            }
        }
        hist = h1;
        reqs = q1;
        if a != MapAnswer::Yes {
            proof {
                assert(begins(hist@, hist@));
                assert(frames_released(es@, k as int, m1, hist@, k - from) == (Err::<(), PagingError>(PagingError::DeallocationFailure), m1, k - from + 1));
                assert(released_done(map, pml4t, from as int, m0, *masks, hist@, Err(PagingError::DeallocationFailure), mem.view()));
            }
            return Err(PagingError::DeallocationFailure);
        }
        es[k].set_bitmap(mem, Bitmap::new());
        k = k + 1;
    }
    proof {
        assert(begins(hist@, hist@));
        assert(released_done(map, pml4t, from as int, m0, *masks, hist@, Ok(()), mem.view()));
    }
    Ok(())
}

} // verus!
