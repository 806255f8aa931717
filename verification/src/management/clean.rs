//! Releasing the pages and the tables in which nothing is allocated anymore.
//!
//! The clean-up walks the allocation entries of the tables, from the last one
//! down, and asks the memory map whether each mapped page is free of
//! allocations. A free page is given back to the map, its space leaves the
//! tracing pages and its entry is cleared; a table whose pages were all given
//! back is cleared and given back too. The memory map is reached through a
//! function that answers each [`MapRequest`]; the outcome is stated for the
//! answers it gave, whatever they were.

use vstd::prelude::*;
use crate::allocations::{masks_ok, lemma_child_fits};
use crate::bitmap::{AddressMasks, Bitmap, has, P_BIT, PS_BIT};
use crate::errors::PagingError;
use crate::indexers::{PageTableEntryOffset, alloc_offset_start, alloc_offset_end, TABLE_OFFSET_INCREMENT_SIZE};
use crate::page::{PageType, page_size_of};
use crate::physmem::PhysicalMemory;
use crate::table::{PageTable, PageTableEntry, table_of_entry};
use crate::tracing::metadata::Metadata;
use crate::tracing::pages::{TracingPages, remove_refused, remove_space_outcome};
use crate::management::map::{MapRequest, MapAnswer, begins, records, follows, lemma_begins_trans, lemma_follows_trans, ask_map};
use crate::tracing::tables::{page_creation, page_created};

verus! {

/// The state of a clean-up: the memory, the tracing pages, whether something
/// failed so far, and the requests made to the memory map so far
pub type CleanState = (Map<u64, u64>, Seq<Seq<Metadata>>, bool, Seq<MapRequest>);

/// Makes the request `q`, whose answer is the next one of `ans`
pub open spec fn ask(st: CleanState, ans: Seq<MapAnswer>, q: MapRequest) -> (MapAnswer, CleanState) {
    (ans[st.3.len() as int], (st.0, st.1, st.2, st.3.push(q)))
}

/// The state with the failure recorded
pub open spec fn failing(st: CleanState) -> CleanState {
    (st.0, st.1, true, st.3)
}

/// The clean-up of the page of type `t` at `paddr`, mapped by the entry `e`:
/// whether the table holding the entry can still be cleaned, and the state
///
/// A page in which something is allocated keeps its table. A page given back
/// leaves the tracing pages and its entry is cleared; when the tracing pages
/// need a new page for what overflows, a tracing page is created for it as
/// [`page_creation`] says, and a failure there is recorded like the others,
/// the new page not being kept. A failure of the memory
/// map or of the tracing pages, a removal that they cannot serve included, is
/// recorded and the page is skipped: it stays mapped, and so its table is kept.
pub open spec fn page_cleanup(e: PageTableEntry, paddr: u64, t: PageType, clean: bool, st: CleanState, ans: Seq<MapAnswer>, pml4t: PageTable, masks: AddressMasks)
    -> (bool, CleanState)
{
    let (a, st1) = ask(st, ans, MapRequest::HasSpace(paddr, t));
    match a {
        MapAnswer::Yes => {
            let (a2, st2) = ask(st1, ans, MapRequest::Release(paddr, t));
            if a2 != MapAnswer::Yes {
                (false, failing(st2))
            } else if remove_refused(st2.1, paddr, page_size_of(t)) {
                (false, failing(st2))
            } else {
                let (rr, tr) = remove_space_outcome(st2.1, paddr, page_size_of(t));
                match rr {
                    Ok(()) => if tr.len() > st2.1.len() {
                        let (c, st3) = page_creation(pml4t, (st2.0, st2.3), ans, masks);
                        match c {
                            Ok(_) => (clean, (st3.0.insert(e.entry, 0), tr, st2.2, st3.1)),
                            Err(_) => (false, (st3.0, tr.take(st2.1.len() as int), true, st3.1)),
                        }
                    } else {
                        (clean, (st2.0.insert(e.entry, 0), tr, st2.2, st2.3))
                    },
                    Err(_) => (false, (st2.0, tr, true, st2.3)),
                }
            }
        },
        MapAnswer::No => (false, st1),
        _ => (false, failing(st1)),
    }
}

/// The offset of the entry visited at the position `c` of a reversed walk
/// through the allocation entries of the table: the walk goes from the last
/// allocation entry down to the first one
pub open spec fn reversed_offset(t: PageTable, c: int) -> u64 {
    (alloc_offset_start(t.table_type, t.table_owner) + alloc_offset_end(t.table_type, t.table_owner) - 8 - c) as u64
}

/// The clean-up of the PT `pt` from the position `c` of the reversed walk on:
/// whether every page of the table was given back, and the state
pub open spec fn pt_cleanup(pt: PageTable, c: int, clean: bool, st: CleanState, ans: Seq<MapAnswer>, masks: AddressMasks, pml4t: PageTable)
    -> (bool, CleanState)
    decreases alloc_offset_end(pt.table_type, pt.table_owner) + 8 - c,
{
    if c < alloc_offset_start(pt.table_type, pt.table_owner) || c >= alloc_offset_end(pt.table_type, pt.table_owner) {
        (clean, st)
    } else {
        let e = pt.entry_at(reversed_offset(pt, c));
        let b = e.bits(st.0);
        if !(has(b, P_BIT)) {
            pt_cleanup(pt, c + 8, clean, st, ans, masks, pml4t)
        } else {
            let (clean2, st2) = page_cleanup(e, b & masks.mask_4k, PageType::FourKiB, clean, st, ans, pml4t, masks);
            pt_cleanup(pt, c + 8, clean2, st2, ans, masks, pml4t)
        }
    }
}

/// Cleans the page of type `t` at `paddr`, mapped by the entry `e`, as
/// [`page_cleanup`] says
fn clean_page<F: Fn(MapRequest) -> MapAnswer>(
    e: PageTableEntry,
    paddr: u64,
    t: PageType,
    clean: bool,
    mem: &mut PhysicalMemory,
    tracing: &mut TracingPages,
    failed: &mut bool,
    pml4t: PageTable,
    masks: &AddressMasks,
    map: &F,
    Ghost(hist): Ghost<Seq<MapAnswer>>,
    Ghost(reqs): Ghost<Seq<MapRequest>>,
) -> (r: (bool, Ghost<Seq<MapAnswer>>, Ghost<Seq<MapRequest>>))
    requires
        old(tracing).wf(),
        pml4t.fits(),
        masks_ok(*masks),
        forall|q: MapRequest| map.requires((q,)),
        records(map, hist, reqs),
    ensures
        final(tracing).wf(),
        records(map, r.1@, r.2@),
        follows(hist, reqs, r.1@, r.2@),
        forall|ans: Seq<MapAnswer>| #![trigger begins(r.1@, ans)] begins(r.1@, ans) ==>
            page_cleanup(e, paddr, t, clean, (old(mem).view(), old(tracing).view(), *old(failed), reqs), ans, pml4t, *masks)
                == (r.0, (final(mem).view(), final(tracing).view(), *final(failed), r.2@)),
{
    let (a, g1, g2) = ask_map(map, MapRequest::HasSpace(paddr, t), Ghost(hist), Ghost(reqs));
    let ghost hist1 = g1@;
    let ghost reqs1 = g2@;
    proof { assert(hist1[hist.len() as int] == a); }
    match a {
        MapAnswer::Yes => {
            let (a2, g3, g4) = ask_map(map, MapRequest::Release(paddr, t), Ghost(hist1), Ghost(reqs1));
            let ghost hist2 = g3@;
            let ghost reqs2 = g4@;
            proof {
                assert(hist2[hist.len() as int] == a);
                assert(hist2[hist1.len() as int] == a2);
                assert(reqs2 == reqs.push(MapRequest::HasSpace(paddr, t)).push(MapRequest::Release(paddr, t)));
            }
            if a2 != MapAnswer::Yes {
                *failed = true;
                return (false, g3, g4);
            }
            let size = t.size();
            if tracing.cannot_remove_space(paddr, size) {
                *failed = true;
                return (false, g3, g4);
            }
            let n0 = tracing.pages.len();
            match tracing.remove_space(paddr, size) {
                Ok(()) => {
                    if tracing.pages.len() > n0 {
                        let (c, g5, g6) = page_created(pml4t, mem, masks, map, g3, g4);
                        proof {
                            lemma_follows_trans(hist, reqs, g3@, g4@, g5@, g6@);
                            assert forall|ans: Seq<MapAnswer>| #![trigger begins(g5@, ans)] begins(g5@, ans) implies begins(g3@, ans) by {
                                lemma_begins_trans(g3@, g5@, ans);
                            }
                        }
                        match c {
                            Ok(_) => {
                                e.set_bitmap(mem, Bitmap::new());
                                (clean, g5, g6)
                            },
                            Err(_) => {
                                tracing.keep_first_pages(n0);
                                *failed = true;
                                (false, g5, g6)
                            },
                        }
                    } else {
                        e.set_bitmap(mem, Bitmap::new());
                        (clean, g3, g4)
                    }
                },
                Err(_) => {
                    *failed = true;
                    (false, g3, g4)
                },
            }
        },
        MapAnswer::No => (false, g1, g2),
        _ => {
            *failed = true;
            (false, g1, g2)
        },
    }
}

/// The bounds of the allocation entries of a table, which are multiples of 8
/// and do not pass the end of the table
fn alloc_bounds(t: PageTable) -> (r: (u64, u64))
    ensures
        r.0 == alloc_offset_start(t.table_type, t.table_owner),
        r.1 == alloc_offset_end(t.table_type, t.table_owner),
        r.0 % 8 == 0,
        r.1 % 8 == 0,
        r.0 <= r.1 <= 0x1000,
{
    let range = PageTableEntryOffset::allocations(t.table_type, t.table_owner);
    (range.start, range.end)
}

/// Cleans the pages of the PT, as [`pt_cleanup`] says
pub fn cleanup_pt<F: Fn(MapRequest) -> MapAnswer>(
    pt: PageTable,
    mem: &mut PhysicalMemory,
    masks: &AddressMasks,
    tracing: &mut TracingPages,
    failed: &mut bool,
    pml4t: PageTable,
    map: &F,
    Ghost(hist): Ghost<Seq<MapAnswer>>,
    Ghost(reqs): Ghost<Seq<MapRequest>>,
) -> (r: (bool, Ghost<Seq<MapAnswer>>, Ghost<Seq<MapRequest>>))
    requires
        pml4t.fits(),
        masks_ok(*masks),
        pt.fits(),
        old(tracing).wf(),
        forall|q: MapRequest| map.requires((q,)),
        records(map, hist, reqs),
    ensures
        final(tracing).wf(),
        records(map, r.1@, r.2@),
        follows(hist, reqs, r.1@, r.2@),
        forall|ans: Seq<MapAnswer>| #![trigger begins(r.1@, ans)] begins(r.1@, ans) ==>
            pt_cleanup(pt, alloc_offset_start(pt.table_type, pt.table_owner) as int, true,
                (old(mem).view(), old(tracing).view(), *old(failed), reqs), ans, *masks, pml4t)
                == (r.0, (final(mem).view(), final(tracing).view(), *final(failed), r.2@)),
{
    let (start, end) = alloc_bounds(pt);
    let ghost st0 = (mem.view(), tracing.view(), *failed, reqs);
    let mut c: u64 = start;
    let mut clean = true;
    let mut gh = Ghost(hist);
    let mut gq = Ghost(reqs);
    while c < end
        invariant
            pml4t.fits(),
            masks_ok(*masks),
            start == alloc_offset_start(pt.table_type, pt.table_owner),
            end == alloc_offset_end(pt.table_type, pt.table_owner),
            start <= c <= end <= 0x1000,
            c % 8 == 0,
            end % 8 == 0,
            pt.fits(),
            tracing.wf(),
            forall|q: MapRequest| map.requires((q,)),
            records(map, gh@, gq@),
            follows(hist, reqs, gh@, gq@),
            st0 == (old(mem).view(), old(tracing).view(), *old(failed), reqs),
            forall|ans: Seq<MapAnswer>| #![trigger begins(gh@, ans)] begins(gh@, ans) ==>
                pt_cleanup(pt, start as int, true, st0, ans, *masks, pml4t)
                    == pt_cleanup(pt, c as int, clean, (mem.view(), tracing.view(), *failed, gq@), ans, *masks, pml4t),
        decreases end - c,
    {
        let entry = PageTableEntry::new(pt.base_address + (start + (end - 8 - c)), pt.table_type, pt.table_owner);
        let bits = entry.bitmap(mem);
        if bits.present() {
            let ghost h0 = gh@;
            let ghost q0 = gq@;
            let ghost before = (mem.view(), tracing.view(), *failed, gq@);
            let ghost clean0 = clean;
            let (clean2, g1, g2) = clean_page(entry, bits.address(PageType::FourKiB, masks), PageType::FourKiB, clean,
                mem, tracing, failed, pml4t, masks, map, gh, gq);
            clean = clean2;
            gh = g1;
            gq = g2;
            proof {
                assert forall|ans: Seq<MapAnswer>| #![trigger begins(gh@, ans)] begins(gh@, ans) implies
                    pt_cleanup(pt, start as int, true, st0, ans, *masks, pml4t)
                        == pt_cleanup(pt, c + 8, clean, (mem.view(), tracing.view(), *failed, gq@), ans, *masks, pml4t) by {
                    lemma_begins_trans(h0, gh@, ans);
                    assert(begins(h0, ans));
                    assert(pt_cleanup(pt, c as int, clean0, before, ans, *masks, pml4t)
                        == pt_cleanup(pt, c + 8, clean, (mem.view(), tracing.view(), *failed, gq@), ans, *masks, pml4t));
                }
                lemma_follows_trans(hist, reqs, h0, q0, gh@, gq@);
            }
        } else {
            proof {
                assert forall|ans: Seq<MapAnswer>| #![trigger begins(gh@, ans)] begins(gh@, ans) implies
                    pt_cleanup(pt, start as int, true, st0, ans, *masks, pml4t)
                        == pt_cleanup(pt, c + 8, clean, (mem.view(), tracing.view(), *failed, gq@), ans, *masks, pml4t) by {
                    assert(pt_cleanup(pt, c as int, clean, (mem.view(), tracing.view(), *failed, gq@), ans, *masks, pml4t)
                        == pt_cleanup(pt, c + 8, clean, (mem.view(), tracing.view(), *failed, gq@), ans, *masks, pml4t));
                }
            }
        }
        c = c + TABLE_OFFSET_INCREMENT_SIZE;
    }
    (clean, gh, gq)
}

/// The state after a cleaned child table of the entry `e` was cleared and
/// given back, at the address `paddr`
pub open spec fn child_release(e: PageTableEntry, paddr: u64, st: CleanState, ans: Seq<MapAnswer>) -> CleanState {
    let (a, st2) = ask((st.0.insert(e.entry, 0), st.1, st.2, st.3), ans, MapRequest::Release(paddr, PageType::FourKiB));
    if a == MapAnswer::Yes { st2 } else { failing(st2) }
}

/// The clean-up of the PDT `pdt` from the position `c` of the reversed walk
/// on: whether every page and table below it was given back, or the error of
/// the first entry whose table cannot be had, and the state
pub open spec fn pdt_cleanup(pdt: PageTable, c: int, clean: bool, st: CleanState, ans: Seq<MapAnswer>, masks: AddressMasks, pml4t: PageTable)
    -> (Result<bool, PagingError>, CleanState)
    decreases alloc_offset_end(pdt.table_type, pdt.table_owner) + 8 - c,
{
    if c < alloc_offset_start(pdt.table_type, pdt.table_owner) || c >= alloc_offset_end(pdt.table_type, pdt.table_owner) {
        (Ok(clean), st)
    } else {
        let e = pdt.entry_at(reversed_offset(pdt, c));
        let b = e.bits(st.0);
        if !(has(b, P_BIT)) {
            pdt_cleanup(pdt, c + 8, clean, st, ans, masks, pml4t)
        } else if has(b, PS_BIT) {
            let (clean2, st2) = page_cleanup(e, b & masks.mask_2m, PageType::TwoMiB, clean, st, ans, pml4t, masks);
            pdt_cleanup(pdt, c + 8, clean2, st2, ans, masks, pml4t)
        } else {
            match table_of_entry(e, st.0, masks) {
                Err(x) => (Err(x), st),
                Ok(pt) => {
                    let (sub, st2) = pt_cleanup(pt, alloc_offset_start(pt.table_type, pt.table_owner) as int, true, st, ans, masks, pml4t);
                    if sub {
                        pdt_cleanup(pdt, c + 8, clean, child_release(e, pt.base_address, st2, ans), ans, masks, pml4t)
                    } else {
                        pdt_cleanup(pdt, c + 8, false, st2, ans, masks, pml4t)
                    }
                },
            }
        }
    }
}

/// The clean-up of the PDPT `pdpt` from the position `c` of the reversed walk
/// on, as [`pdt_cleanup`] does one level below
pub open spec fn pdpt_cleanup(pdpt: PageTable, c: int, clean: bool, st: CleanState, ans: Seq<MapAnswer>, masks: AddressMasks, pml4t: PageTable)
    -> (Result<bool, PagingError>, CleanState)
    decreases alloc_offset_end(pdpt.table_type, pdpt.table_owner) + 8 - c,
{
    if c < alloc_offset_start(pdpt.table_type, pdpt.table_owner) || c >= alloc_offset_end(pdpt.table_type, pdpt.table_owner) {
        (Ok(clean), st)
    } else {
        let e = pdpt.entry_at(reversed_offset(pdpt, c));
        let b = e.bits(st.0);
        if !(has(b, P_BIT)) {
            pdpt_cleanup(pdpt, c + 8, clean, st, ans, masks, pml4t)
        } else if has(b, PS_BIT) {
            let (clean2, st2) = page_cleanup(e, b & masks.mask_1g, PageType::OneGiB, clean, st, ans, pml4t, masks);
            pdpt_cleanup(pdpt, c + 8, clean2, st2, ans, masks, pml4t)
        } else {
            match table_of_entry(e, st.0, masks) {
                Err(x) => (Err(x), st),
                Ok(pdt) => {
                    let (sub, st2) = pdt_cleanup(pdt, alloc_offset_start(pdt.table_type, pdt.table_owner) as int, true, st, ans, masks, pml4t);
                    match sub {
                        Err(x) => (Err(x), st2),
                        Ok(true) => pdpt_cleanup(pdpt, c + 8, clean, child_release(e, pdt.base_address, st2, ans), ans, masks, pml4t),
                        Ok(false) => pdpt_cleanup(pdpt, c + 8, false, st2, ans, masks, pml4t),
                    }
                },
            }
        }
    }
}

/// Clears the entry `e` of a cleaned child table and gives the table back
fn release_child<F: Fn(MapRequest) -> MapAnswer>(
    e: PageTableEntry,
    paddr: u64,
    mem: &mut PhysicalMemory,
    failed: &mut bool,
    map: &F,
    Ghost(hist): Ghost<Seq<MapAnswer>>,
    Ghost(reqs): Ghost<Seq<MapRequest>>,
) -> (r: (Ghost<Seq<MapAnswer>>, Ghost<Seq<MapRequest>>))
    requires
        forall|q: MapRequest| map.requires((q,)),
        records(map, hist, reqs),
    ensures
        records(map, r.0@, r.1@),
        follows(hist, reqs, r.0@, r.1@),
        forall|ans: Seq<MapAnswer>, tr: Seq<Seq<Metadata>>| #![trigger begins(r.0@, ans), child_release(e, paddr, (old(mem).view(), tr, *old(failed), reqs), ans)]
            begins(r.0@, ans) ==>
            child_release(e, paddr, (old(mem).view(), tr, *old(failed), reqs), ans) == (final(mem).view(), tr, *final(failed), r.1@),
{
    e.set_bitmap(mem, Bitmap::new());
    let (a, g1, g2) = ask_map(map, MapRequest::Release(paddr, PageType::FourKiB), Ghost(hist), Ghost(reqs));
    proof { assert(g1@[hist.len() as int] == a); }
    if a != MapAnswer::Yes {
        *failed = true;
    }
    (g1, g2)
}

/// Cleans the pages and tables below the PDT, as [`pdt_cleanup`] says
pub fn cleanup_pdt<F: Fn(MapRequest) -> MapAnswer>(
    pdt: PageTable,
    mem: &mut PhysicalMemory,
    masks: &AddressMasks,
    tracing: &mut TracingPages,
    failed: &mut bool,
    pml4t: PageTable,
    map: &F,
    Ghost(hist): Ghost<Seq<MapAnswer>>,
    Ghost(reqs): Ghost<Seq<MapRequest>>,
) -> (r: (Result<bool, PagingError>, Ghost<Seq<MapAnswer>>, Ghost<Seq<MapRequest>>))
    requires
        pml4t.fits(),
        masks_ok(*masks),
        pdt.fits(),
        masks_ok(*masks),
        old(tracing).wf(),
        forall|q: MapRequest| map.requires((q,)),
        records(map, hist, reqs),
    ensures
        final(tracing).wf(),
        records(map, r.1@, r.2@),
        follows(hist, reqs, r.1@, r.2@),
        forall|ans: Seq<MapAnswer>| #![trigger begins(r.1@, ans)] begins(r.1@, ans) ==>
            pdt_cleanup(pdt, alloc_offset_start(pdt.table_type, pdt.table_owner) as int, true,
                (old(mem).view(), old(tracing).view(), *old(failed), reqs), ans, *masks, pml4t)
                == (r.0, (final(mem).view(), final(tracing).view(), *final(failed), r.2@)),
{
    let (start, end) = alloc_bounds(pdt);
    let ghost st0 = (mem.view(), tracing.view(), *failed, reqs);
    let mut c: u64 = start;
    let mut clean = true;
    let mut gh = Ghost(hist);
    let mut gq = Ghost(reqs);
    while c < end
        invariant
            pml4t.fits(),
            masks_ok(*masks),
            start == alloc_offset_start(pdt.table_type, pdt.table_owner),
            end == alloc_offset_end(pdt.table_type, pdt.table_owner),
            start <= c <= end <= 0x1000,
            c % 8 == 0,
            end % 8 == 0,
            pdt.fits(),
            masks_ok(*masks),
            tracing.wf(),
            forall|q: MapRequest| map.requires((q,)),
            records(map, gh@, gq@),
            follows(hist, reqs, gh@, gq@),
            st0 == (old(mem).view(), old(tracing).view(), *old(failed), reqs),
            forall|ans: Seq<MapAnswer>| #![trigger begins(gh@, ans)] begins(gh@, ans) ==>
                pdt_cleanup(pdt, start as int, true, st0, ans, *masks, pml4t)
                    == pdt_cleanup(pdt, c as int, clean, (mem.view(), tracing.view(), *failed, gq@), ans, *masks, pml4t),
        decreases end - c,
    {
        let entry = PageTableEntry::new(pdt.base_address + (start + (end - 8 - c)), pdt.table_type, pdt.table_owner);
        let bits = entry.bitmap(mem);
        let ghost h0 = gh@;
        let ghost q0 = gq@;
        let ghost before = (mem.view(), tracing.view(), *failed, gq@);
        let ghost clean0 = clean;
        if !bits.present() {
        } else if bits.page_size() {
            let (clean2, g1, g2) = clean_page(entry, bits.address(PageType::TwoMiB, masks), PageType::TwoMiB, clean,
                mem, tracing, failed, pml4t, masks, map, gh, gq);
            clean = clean2;
            gh = g1;
            gq = g2;
            proof { lemma_follows_trans(hist, reqs, h0, q0, gh@, gq@); }
        } else {
            let child = match PageTable::try_from_entry(entry, mem, masks) {
                Ok(t) => t,
                Err(x) => {
                    return (Err(x), gh, gq);
                },
            };
            proof { lemma_child_fits(bits@, *masks); }
            let ghost mid_before = (mem.view(), tracing.view(), *failed, gq@);
            let (sub, g1, g2) = cleanup_pt(child, mem, masks, tracing, failed, pml4t, map, gh, gq);
            gh = g1;
            gq = g2;
            proof { lemma_follows_trans(hist, reqs, h0, q0, gh@, gq@); }
            let ghost h1 = gh@;
            let ghost q1 = gq@;
            let ghost mid = (mem.view(), tracing.view(), *failed, gq@);
            if sub {
                let (g3, g4) = release_child(entry, child.base_address, mem, failed, map, gh, gq);
                gh = g3;
                gq = g4;
                proof {
                    lemma_follows_trans(hist, reqs, h1, q1, gh@, gq@);
                    lemma_follows_trans(h0, q0, h1, q1, gh@, gq@);
                    assert forall|ans: Seq<MapAnswer>| #![trigger begins(gh@, ans)] begins(gh@, ans) implies
                        pt_cleanup(child, alloc_offset_start(child.table_type, child.table_owner) as int, true, mid_before, ans, *masks, pml4t)
                            == (true, mid)
                        && child_release(entry, child.base_address, mid, ans) == (mem.view(), tracing.view(), *failed, gq@) by {
                        lemma_begins_trans(h1, gh@, ans);
                    }
                }
            } else {
                clean = false;
            }
        }
        proof {
            assert forall|ans: Seq<MapAnswer>| #![trigger begins(gh@, ans)] begins(gh@, ans) implies
                pdt_cleanup(pdt, start as int, true, st0, ans, *masks, pml4t)
                    == pdt_cleanup(pdt, c + 8, clean, (mem.view(), tracing.view(), *failed, gq@), ans, *masks, pml4t) by {
                lemma_begins_trans(h0, gh@, ans);
                assert(pdt_cleanup(pdt, c as int, clean0, before, ans, *masks, pml4t)
                    == pdt_cleanup(pdt, c + 8, clean, (mem.view(), tracing.view(), *failed, gq@), ans, *masks, pml4t));
            }
        }
        c = c + TABLE_OFFSET_INCREMENT_SIZE;
    }
    (Ok(clean), gh, gq)
}

/// Cleans the pages and tables below the PDPT, as [`pdpt_cleanup`] says
pub fn cleanup_pdpt<F: Fn(MapRequest) -> MapAnswer>(
    pdpt: PageTable,
    mem: &mut PhysicalMemory,
    masks: &AddressMasks,
    tracing: &mut TracingPages,
    failed: &mut bool,
    pml4t: PageTable,
    map: &F,
    Ghost(hist): Ghost<Seq<MapAnswer>>,
    Ghost(reqs): Ghost<Seq<MapRequest>>,
) -> (r: (Result<bool, PagingError>, Ghost<Seq<MapAnswer>>, Ghost<Seq<MapRequest>>))
    requires
        pml4t.fits(),
        masks_ok(*masks),
        pdpt.fits(),
        masks_ok(*masks),
        old(tracing).wf(),
        forall|q: MapRequest| map.requires((q,)),
        records(map, hist, reqs),
    ensures
        final(tracing).wf(),
        records(map, r.1@, r.2@),
        follows(hist, reqs, r.1@, r.2@),
        forall|ans: Seq<MapAnswer>| #![trigger begins(r.1@, ans)] begins(r.1@, ans) ==>
            pdpt_cleanup(pdpt, alloc_offset_start(pdpt.table_type, pdpt.table_owner) as int, true,
                (old(mem).view(), old(tracing).view(), *old(failed), reqs), ans, *masks, pml4t)
                == (r.0, (final(mem).view(), final(tracing).view(), *final(failed), r.2@)),
{
    let (start, end) = alloc_bounds(pdpt);
    let ghost st0 = (mem.view(), tracing.view(), *failed, reqs);
    let mut c: u64 = start;
    let mut clean = true;
    let mut gh = Ghost(hist);
    let mut gq = Ghost(reqs);
    while c < end
        invariant
            pml4t.fits(),
            masks_ok(*masks),
            start == alloc_offset_start(pdpt.table_type, pdpt.table_owner),
            end == alloc_offset_end(pdpt.table_type, pdpt.table_owner),
            start <= c <= end <= 0x1000,
            c % 8 == 0,
            end % 8 == 0,
            pdpt.fits(),
            masks_ok(*masks),
            tracing.wf(),
            forall|q: MapRequest| map.requires((q,)),
            records(map, gh@, gq@),
            follows(hist, reqs, gh@, gq@),
            st0 == (old(mem).view(), old(tracing).view(), *old(failed), reqs),
            forall|ans: Seq<MapAnswer>| #![trigger begins(gh@, ans)] begins(gh@, ans) ==>
                pdpt_cleanup(pdpt, start as int, true, st0, ans, *masks, pml4t)
                    == pdpt_cleanup(pdpt, c as int, clean, (mem.view(), tracing.view(), *failed, gq@), ans, *masks, pml4t),
        decreases end - c,
    {
        let entry = PageTableEntry::new(pdpt.base_address + (start + (end - 8 - c)), pdpt.table_type, pdpt.table_owner);
        let bits = entry.bitmap(mem);
        let ghost h0 = gh@;
        let ghost q0 = gq@;
        let ghost before = (mem.view(), tracing.view(), *failed, gq@);
        let ghost clean0 = clean;
        if !bits.present() {
        } else if bits.page_size() {
            let (clean2, g1, g2) = clean_page(entry, bits.address(PageType::OneGiB, masks), PageType::OneGiB, clean,
                mem, tracing, failed, pml4t, masks, map, gh, gq);
            clean = clean2;
            gh = g1;
            gq = g2;
            proof { lemma_follows_trans(hist, reqs, h0, q0, gh@, gq@); }
        } else {
            let child = match PageTable::try_from_entry(entry, mem, masks) {
                Ok(t) => t,
                Err(x) => {
                    return (Err(x), gh, gq);
                },
            };
            proof { lemma_child_fits(bits@, *masks); }
            let ghost mid_before = (mem.view(), tracing.view(), *failed, gq@);
            let (sub, g1, g2) = cleanup_pdt(child, mem, masks, tracing, failed, pml4t, map, gh, gq);
            gh = g1;
            gq = g2;
            proof { lemma_follows_trans(hist, reqs, h0, q0, gh@, gq@); }
            let ghost h1 = gh@;
            let ghost q1 = gq@;
            let ghost mid = (mem.view(), tracing.view(), *failed, gq@);
            match sub {
                Err(x) => {
                    proof {
                        assert forall|ans: Seq<MapAnswer>| #![trigger begins(gh@, ans)] begins(gh@, ans) implies
                            pdpt_cleanup(pdpt, start as int, true, st0, ans, *masks, pml4t) == (Err::<bool, PagingError>(x), mid) by {
                            lemma_begins_trans(h0, gh@, ans);
                        }
                    }
                    return (Err(x), gh, gq);
                },
                Ok(true) => {
                    let (g3, g4) = release_child(entry, child.base_address, mem, failed, map, gh, gq);
                    gh = g3;
                    gq = g4;
                    proof {
                        lemma_follows_trans(hist, reqs, h1, q1, gh@, gq@);
                        lemma_follows_trans(h0, q0, h1, q1, gh@, gq@);
                        assert forall|ans: Seq<MapAnswer>| #![trigger begins(gh@, ans)] begins(gh@, ans) implies
                            pdt_cleanup(child, alloc_offset_start(child.table_type, child.table_owner) as int, true, mid_before, ans, *masks, pml4t)
                                == (Ok::<bool, PagingError>(true), mid)
                            && child_release(entry, child.base_address, mid, ans) == (mem.view(), tracing.view(), *failed, gq@) by {
                            lemma_begins_trans(h1, gh@, ans);
                        }
                    }
                },
                Ok(false) => {
                    clean = false;
                },
            }
        }
        proof {
            assert forall|ans: Seq<MapAnswer>| #![trigger begins(gh@, ans)] begins(gh@, ans) implies
                pdpt_cleanup(pdpt, start as int, true, st0, ans, *masks, pml4t)
                    == pdpt_cleanup(pdpt, c + 8, clean, (mem.view(), tracing.view(), *failed, gq@), ans, *masks, pml4t) by {
                lemma_begins_trans(h0, gh@, ans);
                assert(pdpt_cleanup(pdpt, c as int, clean0, before, ans, *masks, pml4t)
                    == pdpt_cleanup(pdpt, c + 8, clean, (mem.view(), tracing.view(), *failed, gq@), ans, *masks, pml4t));
            }
        }
        c = c + TABLE_OFFSET_INCREMENT_SIZE;
    }
    (Ok(clean), gh, gq)
}

/// The clean-up of the PML4T `pml4t` from the position `c` of the reversed
/// walk on: every present entry must point to a PDPT, which is cleaned, then
/// cleared and given back when nothing below it is left; the error of the
/// first entry whose table cannot be had, and the state
pub open spec fn pml4t_cleanup(pml4t: PageTable, c: int, st: CleanState, ans: Seq<MapAnswer>, masks: AddressMasks)
    -> (Result<(), PagingError>, CleanState)
    decreases alloc_offset_end(pml4t.table_type, pml4t.table_owner) + 8 - c,
{
    if c < alloc_offset_start(pml4t.table_type, pml4t.table_owner) || c >= alloc_offset_end(pml4t.table_type, pml4t.table_owner) {
        (Ok(()), st)
    } else {
        let e = pml4t.entry_at(reversed_offset(pml4t, c));
        if !(e.is_present(st.0)) {
            pml4t_cleanup(pml4t, c + 8, st, ans, masks)
        } else {
            match table_of_entry(e, st.0, masks) {
                Err(x) => (Err(x), st),
                Ok(pdpt) => {
                    let (sub, st2) = pdpt_cleanup(pdpt, alloc_offset_start(pdpt.table_type, pdpt.table_owner) as int, true, st, ans, masks, pml4t);
                    match sub {
                        Err(x) => (Err(x), st2),
                        Ok(true) => pml4t_cleanup(pml4t, c + 8, child_release(e, pdpt.base_address, st2, ans), ans, masks),
                        Ok(false) => pml4t_cleanup(pml4t, c + 8, st2, ans, masks),
                    }
                },
            }
        }
    }
}

/// The outcome of cleaning the paging structure of `pml4t`, the memory map
/// giving the answers `ans` in turn: the result, an error when a table cannot
/// be had or, after the whole walk, when something failed; and the state
pub open spec fn cleanup_outcome(pml4t: PageTable, mem: Map<u64, u64>, tracing: Seq<Seq<Metadata>>, masks: AddressMasks, ans: Seq<MapAnswer>)
    -> (Result<(), PagingError>, CleanState)
{
    let (r, st) = pml4t_cleanup(pml4t, alloc_offset_start(pml4t.table_type, pml4t.table_owner) as int,
        (mem, tracing, false, Seq::empty()), ans, masks);
    match r {
        Err(x) => (Err(x), st),
        Ok(()) => (if st.2 { Err(PagingError::CleanupFailure) } else { Ok(()) }, st),
    }
}

/// The clean-up of `pml4t` ended with the result `r`, the memory `mem2` and
/// the tracing pages `tracing2`, the memory map having given the answers
/// `ans`, each to its request
pub open spec fn cleanup_done<F: Fn(MapRequest) -> MapAnswer>(
    map: &F,
    pml4t: PageTable,
    mem: Map<u64, u64>,
    tracing: Seq<Seq<Metadata>>,
    masks: AddressMasks,
    ans: Seq<MapAnswer>,
    r: Result<(), PagingError>,
    mem2: Map<u64, u64>,
    tracing2: Seq<Seq<Metadata>>,
) -> bool {
    let (res, st) = cleanup_outcome(pml4t, mem, tracing, masks, ans);
    &&& records(map, ans, st.3)
    &&& res == r
    &&& st.0 == mem2
    &&& st.1 == tracing2
}

/// Cleans the pages and tables of the paging structure of the given PML4T
/// that nothing is allocated in anymore, from the last allocation entry down
///
/// Each mapped page that the memory map reports free is given back, removed
/// from the tracing pages and unmapped; each table whose pages and tables
/// were all given back is unmapped and given back too. A failure of the
/// memory map or of the tracing pages does not stop the clean-up: the page
/// concerned is skipped, and [`PagingError::CleanupFailure`] is returned at
/// the end. An entry whose table cannot be had stops the clean-up with its
/// error.
#[verifier::rlimit(80)]
pub fn cleanup_unused_pages<F: Fn(MapRequest) -> MapAnswer>(
    pml4t: PageTable,
    mem: &mut PhysicalMemory,
    masks: &AddressMasks,
    tracing: &mut TracingPages,
    map: &F,
) -> (r: Result<(), PagingError>)
    requires
        pml4t.fits(),
        masks_ok(*masks),
        old(tracing).wf(),
        forall|q: MapRequest| map.requires((q,)),
    ensures
        final(tracing).wf(),
        exists|ans: Seq<MapAnswer>| cleanup_done(map, pml4t, old(mem).view(), old(tracing).view(), *masks, ans,
            r, final(mem).view(), final(tracing).view()),
{
    let (start, end) = alloc_bounds(pml4t);
    let mut failed = false;
    let ghost st0 = (mem.view(), tracing.view(), false, Seq::<MapRequest>::empty());
    let mut c: u64 = start;
    let mut gh = Ghost(Seq::<MapAnswer>::empty());
    let mut gq = Ghost(Seq::<MapRequest>::empty());
    while c < end
        invariant
            start == alloc_offset_start(pml4t.table_type, pml4t.table_owner),
            end == alloc_offset_end(pml4t.table_type, pml4t.table_owner),
            start <= c <= end <= 0x1000,
            c % 8 == 0,
            end % 8 == 0,
            pml4t.fits(),
            masks_ok(*masks),
            tracing.wf(),
            forall|q: MapRequest| map.requires((q,)),
            records(map, gh@, gq@),
            st0 == (old(mem).view(), old(tracing).view(), false, Seq::<MapRequest>::empty()),
            forall|ans: Seq<MapAnswer>| #![trigger begins(gh@, ans)] begins(gh@, ans) ==>
                pml4t_cleanup(pml4t, start as int, st0, ans, *masks)
                    == pml4t_cleanup(pml4t, c as int, (mem.view(), tracing.view(), failed, gq@), ans, *masks),
        decreases end - c,
    {
        let entry = PageTableEntry::new(pml4t.base_address + (start + (end - 8 - c)), pml4t.table_type, pml4t.table_owner);
        let bits = entry.bitmap(mem);
        let ghost h0 = gh@;
        let ghost q0 = gq@;
        let ghost before = (mem.view(), tracing.view(), failed, gq@);
        if bits.present() {
            let pdpt = match PageTable::try_from_entry(entry, mem, masks) {
                Ok(t) => t,
                Err(x) => {
                    proof {
                        assert(begins(gh@, gh@));
                        assert(pml4t_cleanup(pml4t, start as int, st0, gh@, *masks) == (Err::<(), PagingError>(x), before));
                        assert(cleanup_done(map, pml4t, old(mem).view(), old(tracing).view(), *masks, gh@,
                            Err(x), mem.view(), tracing.view()));
                    }
                    return Err(x);
                },
            };
            proof { lemma_child_fits(bits@, *masks); }
            let ghost mid_before = (mem.view(), tracing.view(), failed, gq@);
            let (sub, g1, g2) = cleanup_pdpt(pdpt, mem, masks, tracing, &mut failed, pml4t, map, gh, gq);
            gh = g1;
            gq = g2;
            let ghost h1 = gh@;
            let ghost q1 = gq@;
            let ghost mid = (mem.view(), tracing.view(), failed, gq@);
            match sub {
                Err(x) => {
                    proof {
                        assert(begins(gh@, gh@));
                        lemma_begins_trans(h0, gh@, gh@);
                        assert(pml4t_cleanup(pml4t, start as int, st0, gh@, *masks) == (Err::<(), PagingError>(x), mid));
                        assert(cleanup_done(map, pml4t, old(mem).view(), old(tracing).view(), *masks, gh@,
                            Err(x), mem.view(), tracing.view()));
                    }
                    return Err(x);
                },
                Ok(true) => {
                    let (g3, g4) = release_child(entry, pdpt.base_address, mem, &mut failed, map, gh, gq);
                    gh = g3;
                    gq = g4;
                    proof {
                        lemma_follows_trans(h0, q0, h1, q1, gh@, gq@);
                        assert forall|ans: Seq<MapAnswer>| #![trigger begins(gh@, ans)] begins(gh@, ans) implies
                            pdpt_cleanup(pdpt, alloc_offset_start(pdpt.table_type, pdpt.table_owner) as int, true, mid_before, ans, *masks, pml4t)
                                == (Ok::<bool, PagingError>(true), mid)
                            && child_release(entry, pdpt.base_address, mid, ans) == (mem.view(), tracing.view(), failed, gq@) by {
                            lemma_begins_trans(h1, gh@, ans);
                        }
                    }
                },
                Ok(false) => {},
            }
        }
        proof {
            assert forall|ans: Seq<MapAnswer>| #![trigger begins(gh@, ans)] begins(gh@, ans) implies
                pml4t_cleanup(pml4t, start as int, st0, ans, *masks)
                    == pml4t_cleanup(pml4t, c + 8, (mem.view(), tracing.view(), failed, gq@), ans, *masks) by {
                lemma_begins_trans(h0, gh@, ans);
                assert(pml4t_cleanup(pml4t, c as int, before, ans, *masks)
                    == pml4t_cleanup(pml4t, c + 8, (mem.view(), tracing.view(), failed, gq@), ans, *masks));
            }
        }
        c = c + TABLE_OFFSET_INCREMENT_SIZE;
    }
    proof {
        assert(begins(gh@, gh@));
        assert(cleanup_done(map, pml4t, old(mem).view(), old(tracing).view(), *masks, gh@,
            if failed { Err(PagingError::CleanupFailure) } else { Ok(()) }, mem.view(), tracing.view()));
    }
    if failed {
        Err(PagingError::CleanupFailure)
    } else {
        Ok(())
    }
}

} // verus!
