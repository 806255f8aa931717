//! Tearing down a whole paging structure.
//!
//! The walk clears the entries of the tables and lists, in order, the frames
//! that the memory map must take back: the pages mapped by the tables and the
//! tables themselves.

use vstd::prelude::*;
use crate::allocations::{masks_ok, lemma_child_fits};
use crate::bitmap::{AddressMasks, Bitmap, has, P_BIT, PS_BIT};
use crate::errors::PagingError;
use crate::indexers::{LIMIT_ENTRY_OFFSET, TABLE_OFFSET_INCREMENT_SIZE};
use crate::page::PageType;
use crate::physmem::{PhysicalMemory, word_at};
use crate::table::{PageTable, PageTableEntry, table_of_entry};
use crate::management::map::{MapRequest, MapAnswer, records, ask_map};

verus! {

/// A frame to give back to the memory map: its physical address and its size
pub type Release = (u64, PageType);

/// The outcome of clearing the entries of the PT `pt` from the offset `o` on:
/// the frames to release after `rel` and the memory
pub open spec fn pt_deletion(pt: PageTable, o: int, rel: Seq<Release>, mem: Map<u64, u64>, masks: AddressMasks)
    -> (Seq<Release>, Map<u64, u64>)
    decreases LIMIT_ENTRY_OFFSET + 8 - o,
{
    if o < 0 || o >= LIMIT_ENTRY_OFFSET {
        (rel, mem)
    } else {
        let e = pt.entry_at(o as u64);
        let b = e.bits(mem);
        if !(has(b, P_BIT)) {
            pt_deletion(pt, o + 8, rel, mem, masks)
        } else {
            pt_deletion(pt, o + 8, rel.push((b & masks.mask_4k, PageType::FourKiB)), mem.insert(e.entry, 0), masks)
        }
    }
}

/// Clears the present entries of the PT, listing the pages they map
fn delete_pt(pt: PageTable, mem: &mut PhysicalMemory, masks: &AddressMasks, releases: &mut Vec<Release>)
    requires
        pt.fits(),
    ensures
        (final(releases)@, final(mem).view()) == pt_deletion(pt, 0, old(releases)@, old(mem).view(), *masks),
{
    let ghost goal = pt_deletion(pt, 0, releases@, mem.view(), *masks);
    let mut ofs: u64 = 0;
    while ofs < LIMIT_ENTRY_OFFSET
        invariant
            ofs <= LIMIT_ENTRY_OFFSET,
            ofs % 8 == 0,
            pt.fits(),
            goal == pt_deletion(pt, ofs as int, releases@, mem.view(), *masks),
        decreases LIMIT_ENTRY_OFFSET - ofs,
    {
        let entry = PageTableEntry::new(pt.base_address + ofs, pt.table_type, pt.table_owner);
        let bits = entry.bitmap(mem);
        if bits.present() {
            releases.push((bits.address(PageType::FourKiB, masks), PageType::FourKiB));
            entry.set_bitmap(mem, Bitmap::new());
        }
        ofs = ofs + TABLE_OFFSET_INCREMENT_SIZE;
    }
}

/// The outcome of clearing the entries of the PDT `pdt` from the offset `o`
/// on: the huge pages they map are listed, and the PTs they point to are
/// cleared and then listed; the result, the frames to release after `rel`
/// and the memory
pub open spec fn pdt_deletion(pdt: PageTable, o: int, rel: Seq<Release>, mem: Map<u64, u64>, masks: AddressMasks)
    -> (Result<(), PagingError>, Seq<Release>, Map<u64, u64>)
    decreases LIMIT_ENTRY_OFFSET + 8 - o,
{
    if o < 0 || o >= LIMIT_ENTRY_OFFSET {
        (Ok(()), rel, mem)
    } else {
        let e = pdt.entry_at(o as u64);
        let b = e.bits(mem);
        if !(has(b, P_BIT)) {
            pdt_deletion(pdt, o + 8, rel, mem, masks)
        } else if has(b, PS_BIT) {
            pdt_deletion(pdt, o + 8, rel.push((b & masks.mask_2m, PageType::TwoMiB)), mem, masks)
        } else {
            match table_of_entry(e, mem, masks) {
                Err(x) => (Err(x), rel, mem),
                Ok(pt) => {
                    let (rel2, mem2) = pt_deletion(pt, 0, rel, mem, masks);
                    pdt_deletion(pdt, o + 8, rel2.push((pt.base_address, PageType::FourKiB)), mem2.insert(e.entry, 0), masks)
                },
            }
        }
    }
}

/// Clears the present entries of the PDT and of the PTs it points to
fn delete_pdt(pdt: PageTable, mem: &mut PhysicalMemory, masks: &AddressMasks, releases: &mut Vec<Release>)
    -> (r: Result<(), PagingError>)
    requires
        pdt.fits(),
        masks_ok(*masks),
    ensures
        (r, final(releases)@, final(mem).view()) == pdt_deletion(pdt, 0, old(releases)@, old(mem).view(), *masks),
{
    let ghost goal = pdt_deletion(pdt, 0, releases@, mem.view(), *masks);
    let mut ofs: u64 = 0;
    while ofs < LIMIT_ENTRY_OFFSET
        invariant
            ofs <= LIMIT_ENTRY_OFFSET,
            ofs % 8 == 0,
            pdt.fits(),
            masks_ok(*masks),
            goal == pdt_deletion(pdt, 0, old(releases)@, old(mem).view(), *masks),
            goal == pdt_deletion(pdt, ofs as int, releases@, mem.view(), *masks),
        decreases LIMIT_ENTRY_OFFSET - ofs,
    {
        let entry = PageTableEntry::new(pdt.base_address + ofs, pdt.table_type, pdt.table_owner);
        let bits = entry.bitmap(mem);
        if bits.present() {
            if bits.page_size() {
                releases.push((bits.address(PageType::TwoMiB, masks), PageType::TwoMiB));
            } else {
                let pt = match PageTable::try_from_entry(entry, mem, masks) {
                    Ok(t) => t,
                    Err(x) => {
                        return Err(x);
                    },
                };
                proof { lemma_child_fits(bits@, *masks); }
                delete_pt(pt, mem, masks, releases);
                releases.push((pt.base_address, PageType::FourKiB));
                entry.set_bitmap(mem, Bitmap::new());
            }
        }
        ofs = ofs + TABLE_OFFSET_INCREMENT_SIZE;
    }
    Ok(())
}

/// The outcome of clearing the entries of the PDPT `pdpt` from the offset `o`
/// on, as [`pdt_deletion`] does one level below
pub open spec fn pdpt_deletion(pdpt: PageTable, o: int, rel: Seq<Release>, mem: Map<u64, u64>, masks: AddressMasks)
    -> (Result<(), PagingError>, Seq<Release>, Map<u64, u64>)
    decreases LIMIT_ENTRY_OFFSET + 8 - o,
{
    if o < 0 || o >= LIMIT_ENTRY_OFFSET {
        (Ok(()), rel, mem)
    } else {
        let e = pdpt.entry_at(o as u64);
        let b = e.bits(mem);
        if !(has(b, P_BIT)) {
            pdpt_deletion(pdpt, o + 8, rel, mem, masks)
        } else if has(b, PS_BIT) {
            pdpt_deletion(pdpt, o + 8, rel.push((b & masks.mask_1g, PageType::OneGiB)), mem, masks)
        } else {
            match table_of_entry(e, mem, masks) {
                Err(x) => (Err(x), rel, mem),
                Ok(pdt) => {
                    let (r2, rel2, mem2) = pdt_deletion(pdt, 0, rel, mem, masks);
                    match r2 {
                        Err(x) => (Err(x), rel2, mem2),
                        Ok(()) => pdpt_deletion(pdpt, o + 8, rel2.push((pdt.base_address, PageType::FourKiB)),
                            mem2.insert(e.entry, 0), masks),
                    }
                },
            }
        }
    }
}

/// Clears the present entries of the PDPT and of the tables below it
fn delete_pdpt(pdpt: PageTable, mem: &mut PhysicalMemory, masks: &AddressMasks, releases: &mut Vec<Release>)
    -> (r: Result<(), PagingError>)
    requires
        pdpt.fits(),
        masks_ok(*masks),
    ensures
        (r, final(releases)@, final(mem).view()) == pdpt_deletion(pdpt, 0, old(releases)@, old(mem).view(), *masks),
{
    let ghost goal = pdpt_deletion(pdpt, 0, releases@, mem.view(), *masks);
    let mut ofs: u64 = 0;
    while ofs < LIMIT_ENTRY_OFFSET
        invariant
            ofs <= LIMIT_ENTRY_OFFSET,
            ofs % 8 == 0,
            pdpt.fits(),
            masks_ok(*masks),
            goal == pdpt_deletion(pdpt, 0, old(releases)@, old(mem).view(), *masks),
            goal == pdpt_deletion(pdpt, ofs as int, releases@, mem.view(), *masks),
        decreases LIMIT_ENTRY_OFFSET - ofs,
    {
        let entry = PageTableEntry::new(pdpt.base_address + ofs, pdpt.table_type, pdpt.table_owner);
        let bits = entry.bitmap(mem);
        if bits.present() {
            if bits.page_size() {
                releases.push((bits.address(PageType::OneGiB, masks), PageType::OneGiB));
            } else {
                let pdt = match PageTable::try_from_entry(entry, mem, masks) {
                    Ok(t) => t,
                    Err(x) => {
                        return Err(x);
                    },
                };
                proof { lemma_child_fits(bits@, *masks); }
                match delete_pdt(pdt, mem, masks, releases) {
                    Ok(()) => {},
                    Err(x) => {
                        return Err(x);
                    },
                }
                releases.push((pdt.base_address, PageType::FourKiB));
                entry.set_bitmap(mem, Bitmap::new());
            }
        }
        ofs = ofs + TABLE_OFFSET_INCREMENT_SIZE;
    }
    Ok(())
}

/// The outcome of clearing the entries of the PML4T `pml4t` from the offset
/// `o` on: every present entry must point to a PDPT, which is cleared and
/// then listed
pub open spec fn pml4t_deletion(pml4t: PageTable, o: int, rel: Seq<Release>, mem: Map<u64, u64>, masks: AddressMasks)
    -> (Result<(), PagingError>, Seq<Release>, Map<u64, u64>)
    decreases LIMIT_ENTRY_OFFSET + 8 - o,
{
    if o < 0 || o >= LIMIT_ENTRY_OFFSET {
        (Ok(()), rel, mem)
    } else {
        let e = pml4t.entry_at(o as u64);
        if !(e.is_present(mem)) {
            pml4t_deletion(pml4t, o + 8, rel, mem, masks)
        } else {
            match table_of_entry(e, mem, masks) {
                Err(x) => (Err(x), rel, mem),
                Ok(pdpt) => {
                    let (r2, rel2, mem2) = pdpt_deletion(pdpt, 0, rel, mem, masks);
                    match r2 {
                        Err(x) => (Err(x), rel2, mem2),
                        Ok(()) => pml4t_deletion(pml4t, o + 8, rel2.push((pdpt.base_address, PageType::FourKiB)),
                            mem2.insert(e.entry, 0), masks),
                    }
                },
            }
        }
    }
}

/// The outcome of tearing down the paging structure of the PML4T `pml4t`:
/// the result, the frames to release in order, ending with the PML4T itself
/// when every table could be reached, and the memory
pub open spec fn structure_deletion(pml4t: PageTable, mem: Map<u64, u64>, masks: AddressMasks)
    -> (Result<(), PagingError>, Seq<Release>, Map<u64, u64>)
{
    let (r, rel, m) = pml4t_deletion(pml4t, 0, Seq::empty(), mem, masks);
    match r {
        Ok(()) => (Ok(()), rel.push((pml4t.base_address, PageType::FourKiB)), m),
        Err(x) => (Err(x), rel, m),
    }
}

/// Tears down the whole paging structure of the given PML4T, tracing pages
/// included: the entries of every table are cleared, and the pages they map
/// are listed, then each table once its entries are cleared, the PML4T last
///
/// Huge pages are listed but their entries are left as they are. The walk
/// stops at the first entry whose table cannot be had, returning its error
/// with the frames listed so far, which must still be released. Returns the
/// frames in the order in which the memory map must take them back.
pub fn tear_down_paging_structure(pml4t: PageTable, mem: &mut PhysicalMemory, masks: &AddressMasks)
    -> (r: (Result<(), PagingError>, Vec<Release>))
    requires
        pml4t.fits(),
        masks_ok(*masks),
    ensures
        (r.0, r.1@, final(mem).view()) == structure_deletion(pml4t, old(mem).view(), *masks),
{
    let mut releases: Vec<Release> = Vec::new();
    let ghost goal = pml4t_deletion(pml4t, 0, releases@, mem.view(), *masks);
    let mut ofs: u64 = 0;
    while ofs < LIMIT_ENTRY_OFFSET
        invariant
            ofs <= LIMIT_ENTRY_OFFSET,
            ofs % 8 == 0,
            pml4t.fits(),
            masks_ok(*masks),
            goal == pml4t_deletion(pml4t, 0, Seq::empty(), old(mem).view(), *masks),
            goal == pml4t_deletion(pml4t, ofs as int, releases@, mem.view(), *masks),
        decreases LIMIT_ENTRY_OFFSET - ofs,
    {
        let entry = PageTableEntry::new(pml4t.base_address + ofs, pml4t.table_type, pml4t.table_owner);
        let bits = entry.bitmap(mem);
        if bits.present() {
            let pdpt = match PageTable::try_from_entry(entry, mem, masks) {
                Ok(t) => t,
                Err(x) => {
                    return (Err(x), releases);
                },
            };
            proof { lemma_child_fits(bits@, *masks); }
            match delete_pdpt(pdpt, mem, masks, &mut releases) {
                Ok(()) => {},
                Err(x) => {
                    return (Err(x), releases);
                },
            }
            releases.push((pdpt.base_address, PageType::FourKiB));
            entry.set_bitmap(mem, Bitmap::new());
        }
        ofs = ofs + TABLE_OFFSET_INCREMENT_SIZE;
    }
    releases.push((pml4t.base_address, PageType::FourKiB));
    (Ok(()), releases)
}

/// Every word of `m2` is the one of `m` or zero
pub open spec fn only_zeroed(m: Map<u64, u64>, m2: Map<u64, u64>) -> bool {
    forall|a: u64| #![trigger word_at(m2, a)] word_at(m2, a) == word_at(m, a) || word_at(m2, a) == 0
}

/// Zeroing words after zeroing words only zeroes words
proof fn lemma_only_zeroed_trans(m1: Map<u64, u64>, m2: Map<u64, u64>, m3: Map<u64, u64>)
    requires
        only_zeroed(m1, m2),
        only_zeroed(m2, m3),
    ensures
        only_zeroed(m1, m3),
{
    assert forall|a: u64| #![trigger word_at(m3, a)] word_at(m3, a) == word_at(m1, a) || word_at(m3, a) == 0 by {
        assert(word_at(m2, a) == word_at(m1, a) || word_at(m2, a) == 0);
    }
}

/// Writing a zero only zeroes a word
proof fn lemma_only_zeroed_insert(m: Map<u64, u64>, a: u64)
    ensures
        only_zeroed(m, m.insert(a, 0)),
{
    assert forall|b: u64| #![trigger word_at(m.insert(a, 0), b)]
        word_at(m.insert(a, 0), b) == word_at(m, b) || word_at(m.insert(a, 0), b) == 0 by {
        if b != a {
            assert(word_at(m.insert(a, 0), b) == word_at(m, b));
        }
    }
}

/// The walk through a PT only zeroes words
proof fn lemma_pt_deletion_zeroes(pt: PageTable, o: int, rel: Seq<Release>, mem: Map<u64, u64>, masks: AddressMasks)
    ensures
        only_zeroed(mem, pt_deletion(pt, o, rel, mem, masks).1),
    decreases LIMIT_ENTRY_OFFSET + 8 - o,
{
    if o < 0 || o >= LIMIT_ENTRY_OFFSET {
    } else {
        let e = pt.entry_at(o as u64);
        let b = e.bits(mem);
        if !(has(b, P_BIT)) {
            lemma_pt_deletion_zeroes(pt, o + 8, rel, mem, masks);
        } else {
            let m2 = mem.insert(e.entry, 0);
            lemma_only_zeroed_insert(mem, e.entry);
            lemma_pt_deletion_zeroes(pt, o + 8, rel.push((b & masks.mask_4k, PageType::FourKiB)), m2, masks);
            lemma_only_zeroed_trans(mem, m2, pt_deletion(pt, o, rel, mem, masks).1);
        }
    }
}

/// The walk through a PDT only zeroes words
proof fn lemma_pdt_deletion_zeroes(pdt: PageTable, o: int, rel: Seq<Release>, mem: Map<u64, u64>, masks: AddressMasks)
    ensures
        only_zeroed(mem, pdt_deletion(pdt, o, rel, mem, masks).2),
    decreases LIMIT_ENTRY_OFFSET + 8 - o,
{
    if o < 0 || o >= LIMIT_ENTRY_OFFSET {
    } else {
        let e = pdt.entry_at(o as u64);
        let b = e.bits(mem);
        if !(has(b, P_BIT)) {
            lemma_pdt_deletion_zeroes(pdt, o + 8, rel, mem, masks);
        } else if has(b, PS_BIT) {
            lemma_pdt_deletion_zeroes(pdt, o + 8, rel.push((b & masks.mask_2m, PageType::TwoMiB)), mem, masks);
        } else {
            match table_of_entry(e, mem, masks) {
                Err(x) => {},
                Ok(pt) => {
                    let (rel2, mem2) = pt_deletion(pt, 0, rel, mem, masks);
                    lemma_pt_deletion_zeroes(pt, 0, rel, mem, masks);
                    let m3 = mem2.insert(e.entry, 0);
                    lemma_only_zeroed_insert(mem2, e.entry);
                    lemma_only_zeroed_trans(mem, mem2, m3);
                    lemma_pdt_deletion_zeroes(pdt, o + 8, rel2.push((pt.base_address, PageType::FourKiB)), m3, masks);
                    lemma_only_zeroed_trans(mem, m3, pdt_deletion(pdt, o, rel, mem, masks).2);
                },
            }
        }
    }
}

/// The walk through a PDPT only zeroes words
proof fn lemma_pdpt_deletion_zeroes(pdpt: PageTable, o: int, rel: Seq<Release>, mem: Map<u64, u64>, masks: AddressMasks)
    ensures
        only_zeroed(mem, pdpt_deletion(pdpt, o, rel, mem, masks).2),
    decreases LIMIT_ENTRY_OFFSET + 8 - o,
{
    if o < 0 || o >= LIMIT_ENTRY_OFFSET {
    } else {
        let e = pdpt.entry_at(o as u64);
        let b = e.bits(mem);
        if !(has(b, P_BIT)) {
            lemma_pdpt_deletion_zeroes(pdpt, o + 8, rel, mem, masks);
        } else if has(b, PS_BIT) {
            lemma_pdpt_deletion_zeroes(pdpt, o + 8, rel.push((b & masks.mask_1g, PageType::OneGiB)), mem, masks);
        } else {
            match table_of_entry(e, mem, masks) {
                Err(x) => {},
                Ok(pdt) => {
                    let (r2, rel2, mem2) = pdt_deletion(pdt, 0, rel, mem, masks);
                    lemma_pdt_deletion_zeroes(pdt, 0, rel, mem, masks);
                    match r2 {
                        Err(x) => {},
                        Ok(()) => {
                            let m3 = mem2.insert(e.entry, 0);
                            lemma_only_zeroed_insert(mem2, e.entry);
                            lemma_only_zeroed_trans(mem, mem2, m3);
                            lemma_pdpt_deletion_zeroes(pdpt, o + 8, rel2.push((pdt.base_address, PageType::FourKiB)), m3, masks);
                            lemma_only_zeroed_trans(mem, m3, pdpt_deletion(pdpt, o, rel, mem, masks).2);
                        },
                    }
                },
            }
        }
    }
}

/// A zero word does not have the *Present* bit
proof fn lemma_zero_not_present()
    ensures
        !(has(0, P_BIT)),
{
    assert(0u64 & 1u64 == 0u64) by (bit_vector);
}

/// When the walk through the PML4T from the offset `o` on succeeds, no entry
/// from `o` on is left present, and only zeroes were written
proof fn lemma_pml4t_deletion_unmaps(pml4t: PageTable, o: int, rel: Seq<Release>, mem: Map<u64, u64>, masks: AddressMasks)
    requires
        o >= 0,
        o % 8 == 0,
    ensures
        only_zeroed(mem, pml4t_deletion(pml4t, o, rel, mem, masks).2),
        pml4t_deletion(pml4t, o, rel, mem, masks).0 is Ok ==>
            forall|o2: u64| #![trigger pml4t.entry_at(o2)] o <= o2 < LIMIT_ENTRY_OFFSET && o2 % 8 == 0
                ==> !(pml4t.entry_at(o2).is_present(pml4t_deletion(pml4t, o, rel, mem, masks).2)),
    decreases LIMIT_ENTRY_OFFSET + 8 - o,
{
    lemma_zero_not_present();
    let out = pml4t_deletion(pml4t, o, rel, mem, masks);
    if o >= LIMIT_ENTRY_OFFSET {
    } else {
        let e = pml4t.entry_at(o as u64);
        if !(e.is_present(mem)) {
            lemma_pml4t_deletion_unmaps(pml4t, o + 8, rel, mem, masks);
            assert(word_at(out.2, e.entry) == word_at(mem, e.entry) || word_at(out.2, e.entry) == 0);
        } else {
            match table_of_entry(e, mem, masks) {
                Err(x) => {},
                Ok(pdpt) => {
                    let (r2, rel2, mem2) = pdpt_deletion(pdpt, 0, rel, mem, masks);
                    lemma_pdpt_deletion_zeroes(pdpt, 0, rel, mem, masks);
                    match r2 {
                        Err(x) => {},
                        Ok(()) => {
                            let m3 = mem2.insert(e.entry, 0);
                            lemma_only_zeroed_insert(mem2, e.entry);
                            lemma_only_zeroed_trans(mem, mem2, m3);
                            lemma_pml4t_deletion_unmaps(pml4t, o + 8, rel2.push((pdpt.base_address, PageType::FourKiB)), m3, masks);
                            lemma_only_zeroed_trans(mem, m3, out.2);
                            assert(word_at(m3, e.entry) == 0);
                            assert(word_at(out.2, e.entry) == word_at(m3, e.entry) || word_at(out.2, e.entry) == 0);
                        },
                    }
                },
            }
        }
    }
}

/// Once the paging structure of a PML4T has been torn down without error, no
/// entry of the PML4T is present anymore, only zeroes were written in memory,
/// and the PML4T itself is the last frame to give back
pub proof fn lemma_deletion_unmaps_everything(pml4t: PageTable, mem: Map<u64, u64>, masks: AddressMasks)
    ensures
        only_zeroed(mem, structure_deletion(pml4t, mem, masks).2),
        structure_deletion(pml4t, mem, masks).0 is Ok ==> {
            &&& forall|o: u64| #![trigger pml4t.entry_at(o)] o < LIMIT_ENTRY_OFFSET && o % 8 == 0
                ==> !(pml4t.entry_at(o).is_present(structure_deletion(pml4t, mem, masks).2))
            &&& structure_deletion(pml4t, mem, masks).1.last() == (pml4t.base_address, PageType::FourKiB)
        },
{
    lemma_pml4t_deletion_unmaps(pml4t, 0, Seq::empty(), mem, masks);
}

/// The requests that give back the frames `rel` to the memory map, in order
pub open spec fn release_requests(rel: Seq<Release>) -> Seq<MapRequest> {
    rel.map_values(|x: Release| MapRequest::Release(x.0, x.1))
}

/// Some of the first `n` answers is not a success
pub open spec fn some_refused(ans: Seq<MapAnswer>, n: int) -> bool {
    exists|i: int| #![trigger ans[i]] 0 <= i < n && ans[i] != MapAnswer::Yes
}

/// The outcome of deleting the paging structure of the PML4T `pml4t`, given
/// the answers `ans` of the memory map: the result, the memory, and the
/// requests made
///
/// Every frame listed by the teardown is given back, even when the walk stopped
/// on an error, which is then returned; otherwise a frame that the memory map
/// did not take back gives [`PagingError::DeallocationFailure`].
pub open spec fn deletion_outcome(pml4t: PageTable, mem: Map<u64, u64>, masks: AddressMasks, ans: Seq<MapAnswer>)
    -> (Result<(), PagingError>, Map<u64, u64>, Seq<MapRequest>)
{
    let (r, rel, m) = structure_deletion(pml4t, mem, masks);
    let res = match r {
        Err(x) => Err(x),
        Ok(()) => if some_refused(ans, rel.len() as int) { Err(PagingError::DeallocationFailure) } else { Ok(()) },
    };
    (res, m, release_requests(rel))
}

/// The paging structure was deleted as [`deletion_outcome`] says for the
/// answers `ans` of the memory map, each to its request: the result `r`, and
/// the memory `mem2` after `mem`
pub open spec fn deletion_done<F: Fn(MapRequest) -> MapAnswer>(
    map: &F,
    pml4t: PageTable,
    mem: Map<u64, u64>,
    masks: AddressMasks,
    ans: Seq<MapAnswer>,
    r: Result<(), PagingError>,
    mem2: Map<u64, u64>,
) -> bool {
    let (res, m, reqs) = deletion_outcome(pml4t, mem, masks, ans);
    &&& records(map, ans, reqs)
    &&& res == r
    &&& m == mem2
}

/// De-allocates and de-initializes the whole paging structure of the given
/// PML4T, tracing pages included, as [`tear_down_paging_structure`] does,
/// giving back to the memory map every frame listed
///
/// Returns the error of a table that cannot be reached, or
/// [`PagingError::DeallocationFailure`] if a frame was not taken back.
pub fn delete_paging_structure<F: Fn(MapRequest) -> MapAnswer>(
    pml4t: PageTable,
    mem: &mut PhysicalMemory,
    masks: &AddressMasks,
    map: &F,
) -> (r: Result<(), PagingError>)
    requires
        pml4t.fits(),
        masks_ok(*masks),
        forall|q: MapRequest| map.requires((q,)),
    ensures
        exists|ans: Seq<MapAnswer>| deletion_done(map, pml4t, old(mem).view(), *masks, ans, r, final(mem).view()),
{
    let (walk, releases) = tear_down_paging_structure(pml4t, mem, masks);
    let ghost rel = releases@;
    let mut failed = false;
    let mut h = Ghost(Seq::<MapAnswer>::empty());
    let mut q = Ghost(Seq::<MapRequest>::empty());
    let mut i: usize = 0;
    proof { assert(release_requests(rel.take(0)) =~= Seq::<MapRequest>::empty()); }
    while i < releases.len()
        invariant
            rel == releases@,
            i <= rel.len(),
            forall|x: MapRequest| map.requires((x,)),
            records(map, h@, q@),
            h@.len() == i,
            q@ == release_requests(rel.take(i as int)),
            failed == some_refused(h@, i as int),
        decreases rel.len() - i,
    {
        let (paddr, page_type) = releases[i];
        let (a, h2, q2) = ask_map(map, MapRequest::Release(paddr, page_type), h, q);
        proof {
            assert(release_requests(rel.take(i + 1)) =~= release_requests(rel.take(i as int)).push(MapRequest::Release(paddr, page_type)));
            if a != MapAnswer::Yes {
                assert(h2@[i as int] != MapAnswer::Yes);
            }
            if some_refused(h@, i as int) {
                let j = choose|j: int| #![trigger h@[j]] 0 <= j < i && h@[j] != MapAnswer::Yes;
                assert(h2@[j] == h@[j]);
            }
            if some_refused(h2@, i + 1) {
                let j = choose|j: int| #![trigger h2@[j]] 0 <= j < i + 1 && h2@[j] != MapAnswer::Yes;
                if j < i {
                    assert(h@[j] == h2@[j]);
                }
            }
        }
        if a != MapAnswer::Yes {
            failed = true;
        }
        h = h2;
        q = q2;
        i = i + 1;
    }
    proof { assert(rel.take(rel.len() as int) =~= rel); }
    let r = match walk {
        Err(x) => Err(x),
        Ok(()) => if failed { Err(PagingError::DeallocationFailure) } else { Ok(()) },
    };
    assert(deletion_done(map, pml4t, old(mem).view(), *masks, h@, r, mem.view()));
    r
}

} // verus!
