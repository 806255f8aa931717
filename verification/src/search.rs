//! Searching the tables used to allocate memory for free slots where pages
//! can be inserted.

use vstd::prelude::*;
use crate::allocations::{
    AllocationsIterator, AllocationsPml4tIterator, AllocationsPdptIterator, AllocationsPdtIterator,
    AllocationsPtIterator, alloc_iter, pdpt_from, pdt_from, pt_from, pdpt_step, pdt_step, pt_step,
    pdpt_measure, pdt_measure, pt_measure, lemma_pdpt_step, lemma_pdt_step, lemma_pt_step,
    lemma_table_step, masks_ok, advance_iter, remaining, table_weight, table_step,
};
use crate::bitmap::AddressMasks;
use crate::page::PageType;
use crate::physmem::PhysicalMemory;
use crate::table::PageTable;
use crate::tables::PageTableIterator;
use crate::table_type::PageTableType;

verus! {

/// Bound on the weight of the offsets left to any allocations iterator
pub open spec fn measure_bound() -> int {
    0x8000_0000_0000_0000
}

/// The first run of `n` contiguous entries that are not present, walking the
/// PDPTs from `it`: `cand` is where the current run began and `count` how many
/// entries it holds so far; the result is an iterator whose next entry is the
/// first of the run
pub open spec fn pdpt_slots(
    it: AllocationsPdptIterator,
    cand: AllocationsPdptIterator,
    count: nat,
    n: u64,
    mem: Map<u64, u64>,
    masks: AddressMasks,
) -> Option<AllocationsPdptIterator>
    decreases pdpt_measure(it),
{
    if !(it.wf() && masks_ok(masks)) {
        None
    } else {
        let (o, it2) = pdpt_step(it, mem, masks);
        match o {
            None => None,
            Some((c, e)) => {
                proof { lemma_pdpt_step(it, mem, masks); }
                if !c || e.is_present(mem) {
                    pdpt_slots(it2, AllocationsPdptIterator { pdpt_iter: advance_iter(it2.pdpt_iter), ..it2 }, 0, n, mem, masks)
                } else if count + 1 == n {
                    Some(cand)
                } else {
                    pdpt_slots(it2, cand, count + 1, n, mem, masks)
                }
            },
        }
    }
}

/// Same as [`pdpt_slots`], walking the PDTs
pub open spec fn pdt_slots(
    it: AllocationsPdtIterator,
    cand: AllocationsPdtIterator,
    count: nat,
    n: u64,
    mem: Map<u64, u64>,
    masks: AddressMasks,
) -> Option<AllocationsPdtIterator>
    decreases pdt_measure(it),
{
    if !(it.wf() && masks_ok(masks)) {
        None
    } else {
        let (o, it2) = pdt_step(it, mem, masks);
        match o {
            None => None,
            Some((c, e)) => {
                proof { lemma_pdt_step(it, mem, masks); }
                if !c || e.is_present(mem) {
                    pdt_slots(it2, AllocationsPdtIterator { pdt_iter: advance_iter(it2.pdt_iter), ..it2 }, 0, n, mem, masks)
                } else if count + 1 == n {
                    Some(cand)
                } else {
                    pdt_slots(it2, cand, count + 1, n, mem, masks)
                }
            },
        }
    }
}

/// Same as [`pdpt_slots`], walking the PTs
pub open spec fn pt_slots(
    it: AllocationsPtIterator,
    cand: AllocationsPtIterator,
    count: nat,
    n: u64,
    mem: Map<u64, u64>,
    masks: AddressMasks,
) -> Option<AllocationsPtIterator>
    decreases pt_measure(it),
{
    if !(it.wf() && masks_ok(masks)) {
        None
    } else {
        let (o, it2) = pt_step(it, mem, masks);
        match o {
            None => None,
            Some((c, e)) => {
                proof { lemma_pt_step(it, mem, masks); }
                if !c || e.is_present(mem) {
                    pt_slots(it2, AllocationsPtIterator { pt_iter: advance_iter(it2.pt_iter), ..it2 }, 0, n, mem, masks)
                } else if count + 1 == n {
                    Some(cand)
                } else {
                    pt_slots(it2, cand, count + 1, n, mem, masks)
                }
            },
        }
    }
}

pub proof fn lemma_measures_bounded(it: AllocationsPtIterator)
    requires
        it.wf(),
    ensures
        pdpt_measure(it.pdt_iter.pdpt_iter) <= 4096 * table_weight() + 4096,
        pdt_measure(it.pdt_iter) <= (4096 * table_weight() + 4096) * table_weight() + 4096,
        pt_measure(it) < measure_bound(),
{
    lemma_table_step(it.pt_iter);
    lemma_table_step(it.pdt_iter.pdt_iter);
    lemma_table_step(it.pdt_iter.pdpt_iter.pdpt_iter);
    lemma_table_step(it.pdt_iter.pdpt_iter.pml4t_iter.pml4t_iter);
    let a = remaining(it.pdt_iter.pdpt_iter.pml4t_iter.pml4t_iter);
    let b = remaining(it.pdt_iter.pdpt_iter.pdpt_iter);
    let c = remaining(it.pdt_iter.pdt_iter);
    let d = remaining(it.pt_iter);
    assert(pdpt_measure(it.pdt_iter.pdpt_iter) == a * 8192 + b);
    assert(pt_measure(it) == ((a * 8192 + b) * 8192 + c) * 8192 + d);
    assert(((a * 8192 + b) * 8192 + c) * 8192 + d < 0x8000_0000_0000_0000) by (nonlinear_arith)
        requires 0 <= a <= 4096, 0 <= b <= 4096, 0 <= c <= 4096, 0 <= d <= 4096;
    assert((a * 8192 + b) * 8192 + c <= (4096 * 8192 + 4096) * 8192 + 4096) by (nonlinear_arith)
        requires 0 <= a <= 4096, 0 <= b <= 4096, 0 <= c <= 4096;
}

pub proof fn lemma_pdt_measure_bounded(it: AllocationsPdtIterator)
    requires
        it.wf(),
    ensures
        pdt_measure(it) < measure_bound(),
{
    lemma_table_step(it.pdt_iter);
    lemma_table_step(it.pdpt_iter.pdpt_iter);
    lemma_table_step(it.pdpt_iter.pml4t_iter.pml4t_iter);
    let a = remaining(it.pdpt_iter.pml4t_iter.pml4t_iter);
    let b = remaining(it.pdpt_iter.pdpt_iter);
    let c = remaining(it.pdt_iter);
    assert((a * 8192 + b) * 8192 + c < 0x8000_0000_0000_0000) by (nonlinear_arith)
        requires 0 <= a <= 4096, 0 <= b <= 4096, 0 <= c <= 4096;
}

pub proof fn lemma_pdpt_measure_bounded(it: AllocationsPdptIterator)
    requires
        it.wf(),
    ensures
        pdpt_measure(it) < measure_bound(),
{
    lemma_table_step(it.pdpt_iter);
    lemma_table_step(it.pml4t_iter.pml4t_iter);
}

/// Searches the PDPTs for `n_pages` contiguous free slots for pages of 1 GiB
///
/// Returns [`None`] if there is no such run of slots, otherwise an iterator
/// whose next entry is the first slot of the run.
pub fn find_1gib_pages_slots(n_pages: u64, pml4t: PageTable, mem: &PhysicalMemory, masks: &AddressMasks) -> (r: Option<AllocationsIterator>)
    requires
        pml4t.table_type == PageTableType::PageMapLevel4Table,
        pml4t.fits(),
        masks_ok(*masks),
    ensures
        r == (match pdpt_from(AllocationsPml4tIterator { pml4t_iter: alloc_iter(pml4t) }, None, mem.view(), *masks) {
            Some(it) => match pdpt_slots(it, it, 0, n_pages, mem.view(), *masks) {
                Some(c) => Some(AllocationsIterator::Pdpt(c)),
                None => None,
            },
            None => None,
        }),
        r matches Some(it) ==> it.wf(),
{
    if let Some(mut pdpt_iterator) = AllocationsPdptIterator::new(pml4t, mem, masks) {
        let ghost start = pdpt_iterator;
        let mut count: u64 = 0;
        let mut iter = pdpt_iterator.duplicate();
        proof { lemma_pdpt_measure_bounded(pdpt_iterator); }
        loop
            invariant
                pdpt_iterator.wf(),
                iter.wf(),
                pdpt_from(AllocationsPml4tIterator { pml4t_iter: alloc_iter(pml4t) }, None, mem.view(), *masks) == Some(start),
                masks_ok(*masks),
                pdpt_slots(start, start, 0, n_pages, mem.view(), *masks) == pdpt_slots(pdpt_iterator, iter, count as nat, n_pages, mem.view(), *masks),
                count + pdpt_measure(pdpt_iterator) < measure_bound(),
                count < n_pages || n_pages == 0,
            decreases pdpt_measure(pdpt_iterator),
        {
            proof { lemma_pdpt_step(pdpt_iterator, mem.view(), *masks); }
            match pdpt_iterator.next(mem, masks) {
                None => {
                    return None;
                },
                Some((contiguous, pdpt_entry)) => {
                    if !contiguous || pdpt_entry.bitmap(mem).present() {
                        iter = pdpt_iterator.duplicate_and_advance();
                        proof { lemma_table_step(pdpt_iterator.pdpt_iter); }
                        count = 0;
                        continue;
                    }
                    count = count + 1;
                    if count == n_pages {
                        return Some(AllocationsIterator::Pdpt(iter));
                    }
                },
            }
        }
    }
    None
}

/// Searches the PDTs for `n_pages` contiguous free slots for pages of 2 MiB
///
/// Returns [`None`] if there is no such run of slots, otherwise an iterator
/// whose next entry is the first slot of the run.
pub fn find_2mib_pages_slots(n_pages: u64, pml4t: PageTable, mem: &PhysicalMemory, masks: &AddressMasks) -> (r: Option<AllocationsIterator>)
    requires
        pml4t.table_type == PageTableType::PageMapLevel4Table,
        pml4t.fits(),
        masks_ok(*masks),
    ensures
        r == (match pdpt_from(AllocationsPml4tIterator { pml4t_iter: alloc_iter(pml4t) }, None, mem.view(), *masks) {
            Some(p) => match pdt_from(p, None, mem.view(), *masks) {
                Some(it) => match pdt_slots(it, it, 0, n_pages, mem.view(), *masks) {
                    Some(c) => Some(AllocationsIterator::Pdt(c)),
                    None => None,
                },
                None => None,
            },
            None => None,
        }),
        r matches Some(it) ==> it.wf(),
{
    if let Some(mut pdt_iterator) = AllocationsPdtIterator::new(pml4t, mem, masks) {
        let ghost start = pdt_iterator;
        let mut count: u64 = 0;
        let mut iter = pdt_iterator.duplicate();
        proof { lemma_pdt_measure_bounded(pdt_iterator); }
        loop
            invariant
                pdt_iterator.wf(),
                iter.wf(),
                pdpt_from(AllocationsPml4tIterator { pml4t_iter: alloc_iter(pml4t) }, None, mem.view(), *masks) matches Some(p)
                    && pdt_from(p, None, mem.view(), *masks) == Some(start),
                masks_ok(*masks),
                pdt_slots(start, start, 0, n_pages, mem.view(), *masks) == pdt_slots(pdt_iterator, iter, count as nat, n_pages, mem.view(), *masks),
                count + pdt_measure(pdt_iterator) < measure_bound(),
                count < n_pages || n_pages == 0,
            decreases pdt_measure(pdt_iterator),
        {
            proof { lemma_pdt_step(pdt_iterator, mem.view(), *masks); }
            match pdt_iterator.next(mem, masks) {
                None => {
                    return None;
                },
                Some((contiguous, pdt_entry)) => {
                    if !contiguous || pdt_entry.bitmap(mem).present() {
                        iter = pdt_iterator.duplicate_and_advance();
                        proof { lemma_table_step(pdt_iterator.pdt_iter); }
                        count = 0;
                        continue;
                    }
                    count = count + 1;
                    if count == n_pages {
                        return Some(AllocationsIterator::Pdt(iter));
                    }
                },
            }
        }
    }
    None
}

/// Searches the PTs for `n_pages` contiguous free slots for pages of 4 KiB
///
/// Returns [`None`] if there is no such run of slots, otherwise an iterator
/// whose next entry is the first slot of the run.
pub fn find_4kib_pages_slots(n_pages: u64, pml4t: PageTable, mem: &PhysicalMemory, masks: &AddressMasks) -> (r: Option<AllocationsIterator>)
    requires
        pml4t.table_type == PageTableType::PageMapLevel4Table,
        pml4t.fits(),
        masks_ok(*masks),
    ensures
        r == (match pdpt_from(AllocationsPml4tIterator { pml4t_iter: alloc_iter(pml4t) }, None, mem.view(), *masks) {
            Some(p) => match pdt_from(p, None, mem.view(), *masks) {
                Some(q) => match pt_from(q, None, mem.view(), *masks) {
                    Some(it) => match pt_slots(it, it, 0, n_pages, mem.view(), *masks) {
                        Some(c) => Some(AllocationsIterator::Pt(c)),
                        None => None,
                    },
                    None => None,
                },
                None => None,
            },
            None => None,
        }),
        r matches Some(it) ==> it.wf(),
{
    if let Some(mut pt_iterator) = AllocationsPtIterator::new(pml4t, mem, masks) {
        let ghost start = pt_iterator;
        let mut count: u64 = 0;
        let mut iter = pt_iterator.duplicate();
        proof { lemma_measures_bounded(pt_iterator); }
        loop
            invariant
                pt_iterator.wf(),
                iter.wf(),
                pdpt_from(AllocationsPml4tIterator { pml4t_iter: alloc_iter(pml4t) }, None, mem.view(), *masks) matches Some(p)
                    && pdt_from(p, None, mem.view(), *masks) matches Some(q) && pt_from(q, None, mem.view(), *masks) == Some(start),
                masks_ok(*masks),
                pt_slots(start, start, 0, n_pages, mem.view(), *masks) == pt_slots(pt_iterator, iter, count as nat, n_pages, mem.view(), *masks),
                count + pt_measure(pt_iterator) < measure_bound(),
                count < n_pages || n_pages == 0,
            decreases pt_measure(pt_iterator),
        {
            proof { lemma_pt_step(pt_iterator, mem.view(), *masks); }
            match pt_iterator.next(mem, masks) {
                None => {
                    return None;
                },
                Some((contiguous, pt_entry)) => {
                    if !contiguous || pt_entry.bitmap(mem).present() {
                        iter = pt_iterator.duplicate_and_advance();
                        proof { lemma_table_step(pt_iterator.pt_iter); }
                        count = 0;
                        continue;
                    }
                    count = count + 1;
                    if count == n_pages {
                        return Some(AllocationsIterator::Pt(iter));
                    }
                },
            }
        }
    }
    None
}

/// The search for slots for pages of the given type, as [`find_pages_slots`] does it
pub open spec fn pages_slots(page_type: PageType, n_pages: u64, pml4t: PageTable, mem: Map<u64, u64>, masks: AddressMasks)
    -> Option<AllocationsIterator>
{
    match pdpt_from(AllocationsPml4tIterator { pml4t_iter: alloc_iter(pml4t) }, None, mem, masks) {
        None => None,
        Some(p) => match page_type {
            PageType::OneGiB => match pdpt_slots(p, p, 0, n_pages, mem, masks) {
                Some(c) => Some(AllocationsIterator::Pdpt(c)),
                None => None,
            },
            _ => match pdt_from(p, None, mem, masks) {
                None => None,
                Some(q) => match page_type {
                    PageType::TwoMiB => match pdt_slots(q, q, 0, n_pages, mem, masks) {
                        Some(c) => Some(AllocationsIterator::Pdt(c)),
                        None => None,
                    },
                    _ => match pt_from(q, None, mem, masks) {
                        None => None,
                        Some(t) => match pt_slots(t, t, 0, n_pages, mem, masks) {
                            Some(c) => Some(AllocationsIterator::Pt(c)),
                            None => None,
                        },
                    },
                },
            },
        },
    }
}

/// An iterator whose current offset is moved to its next one yields the same
/// entries as before
proof fn lemma_advanced_same_step(t: PageTableIterator)
    ensures
        table_step(advance_iter(t)) == table_step(t),
{
    assert(advance_iter(t).entry_offset.spec_advanced() == t.entry_offset.spec_advanced());
}

/// The iterator after `k` entries were taken from `it`
pub open spec fn pdpt_walk(it: AllocationsPdptIterator, k: nat, mem: Map<u64, u64>, masks: AddressMasks) -> AllocationsPdptIterator
    decreases k,
{
    if k == 0 { it } else { pdpt_walk(pdpt_step(it, mem, masks).1, (k - 1) as nat, mem, masks) }
}

/// The next `k` entries that `it` yields exist, follow each other without a
/// gap, and none of them is present
pub open spec fn pdpt_free_run(it: AllocationsPdptIterator, k: nat, mem: Map<u64, u64>, masks: AddressMasks) -> bool
    decreases k,
{
    if k == 0 {
        true
    } else {
        match pdpt_step(it, mem, masks).0 {
            Some((c, e)) => c && !e.is_present(mem) && pdpt_free_run(pdpt_step(it, mem, masks).1, (k - 1) as nat, mem, masks),
            None => false,
        }
    }
}

/// A run of free entries followed by one more free entry is a longer run
proof fn lemma_pdpt_free_run_extend(it: AllocationsPdptIterator, k: nat, mem: Map<u64, u64>, masks: AddressMasks)
    requires
        pdpt_free_run(it, k, mem, masks),
        pdpt_step(pdpt_walk(it, k, mem, masks), mem, masks).0 matches Some((c, e)) && c && !e.is_present(mem),
    ensures
        pdpt_free_run(it, k + 1, mem, masks),
        pdpt_walk(it, k + 1, mem, masks) == pdpt_step(pdpt_walk(it, k, mem, masks), mem, masks).1,
    decreases k,
{
    if k > 0 {
        let it1 = pdpt_step(it, mem, masks).1;
        assert(pdpt_walk(it, k, mem, masks) == pdpt_walk(it1, (k - 1) as nat, mem, masks));
        lemma_pdpt_free_run_extend(it1, (k - 1) as nat, mem, masks);
        assert(pdpt_walk(it, k + 1, mem, masks) == pdpt_walk(it1, k, mem, masks));
        assert((pdpt_free_run(it1, k, mem, masks)));
    } else {
        reveal_with_fuel(pdpt_free_run, 2);
        reveal_with_fuel(pdpt_walk, 2);
    }
}

/// The search from `it` keeps, in `cand`, an iterator whose next `count`
/// entries are free and lead to `it`; what it returns yields `n` free entries
proof fn lemma_pdpt_slots_free(it: AllocationsPdptIterator, cand: AllocationsPdptIterator, count: nat, n: u64, mem: Map<u64, u64>, masks: AddressMasks)
    requires
        pdpt_free_run(cand, count, mem, masks),
        pdpt_step(pdpt_walk(cand, count, mem, masks), mem, masks) == pdpt_step(it, mem, masks),
    ensures
        pdpt_slots(it, cand, count, n, mem, masks) matches Some(r) ==> pdpt_free_run(r, n as nat, mem, masks),
    decreases pdpt_measure(it),
{
    if it.wf() && masks_ok(masks) {
        let (o, it2) = pdpt_step(it, mem, masks);
        if let Some((c, e)) = o {
            lemma_pdpt_step(it, mem, masks);
            if !c || e.is_present(mem) {
                let cand2 = AllocationsPdptIterator { pdpt_iter: advance_iter(it2.pdpt_iter), ..it2 };
                lemma_advanced_same_step(it2.pdpt_iter);
                assert(pdpt_step(cand2, mem, masks) == pdpt_step(it2, mem, masks));
                lemma_pdpt_slots_free(it2, cand2, 0, n, mem, masks);
            } else {
                lemma_pdpt_free_run_extend(cand, count, mem, masks);
                if count + 1 != n {
                    lemma_pdpt_slots_free(it2, cand, count + 1, n, mem, masks);
                }
            }
        }
    }
}

/// The iterator after `k` entries were taken from `it`
pub open spec fn pdt_walk(it: AllocationsPdtIterator, k: nat, mem: Map<u64, u64>, masks: AddressMasks) -> AllocationsPdtIterator
    decreases k,
{
    if k == 0 { it } else { pdt_walk(pdt_step(it, mem, masks).1, (k - 1) as nat, mem, masks) }
}

/// The next `k` entries that `it` yields exist, follow each other without a
/// gap, and none of them is present
pub open spec fn pdt_free_run(it: AllocationsPdtIterator, k: nat, mem: Map<u64, u64>, masks: AddressMasks) -> bool
    decreases k,
{
    if k == 0 {
        true
    } else {
        match pdt_step(it, mem, masks).0 {
            Some((c, e)) => c && !e.is_present(mem) && pdt_free_run(pdt_step(it, mem, masks).1, (k - 1) as nat, mem, masks),
            None => false,
        }
    }
}

/// A run of free entries followed by one more free entry is a longer run
proof fn lemma_pdt_free_run_extend(it: AllocationsPdtIterator, k: nat, mem: Map<u64, u64>, masks: AddressMasks)
    requires
        pdt_free_run(it, k, mem, masks),
        pdt_step(pdt_walk(it, k, mem, masks), mem, masks).0 matches Some((c, e)) && c && !e.is_present(mem),
    ensures
        pdt_free_run(it, k + 1, mem, masks),
        pdt_walk(it, k + 1, mem, masks) == pdt_step(pdt_walk(it, k, mem, masks), mem, masks).1,
    decreases k,
{
    if k > 0 {
        let it1 = pdt_step(it, mem, masks).1;
        assert(pdt_walk(it, k, mem, masks) == pdt_walk(it1, (k - 1) as nat, mem, masks));
        lemma_pdt_free_run_extend(it1, (k - 1) as nat, mem, masks);
        assert(pdt_walk(it, k + 1, mem, masks) == pdt_walk(it1, k, mem, masks));
        assert((pdt_free_run(it1, k, mem, masks)));
    } else {
        reveal_with_fuel(pdt_free_run, 2);
        reveal_with_fuel(pdt_walk, 2);
    }
}

/// The search from `it` keeps, in `cand`, an iterator whose next `count`
/// entries are free and lead to `it`; what it returns yields `n` free entries
proof fn lemma_pdt_slots_free(it: AllocationsPdtIterator, cand: AllocationsPdtIterator, count: nat, n: u64, mem: Map<u64, u64>, masks: AddressMasks)
    requires
        pdt_free_run(cand, count, mem, masks),
        pdt_step(pdt_walk(cand, count, mem, masks), mem, masks) == pdt_step(it, mem, masks),
    ensures
        pdt_slots(it, cand, count, n, mem, masks) matches Some(r) ==> pdt_free_run(r, n as nat, mem, masks),
    decreases pdt_measure(it),
{
    if it.wf() && masks_ok(masks) {
        let (o, it2) = pdt_step(it, mem, masks);
        if let Some((c, e)) = o {
            lemma_pdt_step(it, mem, masks);
            if !c || e.is_present(mem) {
                let cand2 = AllocationsPdtIterator { pdt_iter: advance_iter(it2.pdt_iter), ..it2 };
                lemma_advanced_same_step(it2.pdt_iter);
                assert(pdt_step(cand2, mem, masks) == pdt_step(it2, mem, masks));
                lemma_pdt_slots_free(it2, cand2, 0, n, mem, masks);
            } else {
                lemma_pdt_free_run_extend(cand, count, mem, masks);
                if count + 1 != n {
                    lemma_pdt_slots_free(it2, cand, count + 1, n, mem, masks);
                }
            }
        }
    }
}

/// The iterator after `k` entries were taken from `it`
pub open spec fn pt_walk(it: AllocationsPtIterator, k: nat, mem: Map<u64, u64>, masks: AddressMasks) -> AllocationsPtIterator
    decreases k,
{
    if k == 0 { it } else { pt_walk(pt_step(it, mem, masks).1, (k - 1) as nat, mem, masks) }
}

/// The next `k` entries that `it` yields exist, follow each other without a
/// gap, and none of them is present
pub open spec fn pt_free_run(it: AllocationsPtIterator, k: nat, mem: Map<u64, u64>, masks: AddressMasks) -> bool
    decreases k,
{
    if k == 0 {
        true
    } else {
        match pt_step(it, mem, masks).0 {
            Some((c, e)) => c && !e.is_present(mem) && pt_free_run(pt_step(it, mem, masks).1, (k - 1) as nat, mem, masks),
            None => false,
        }
    }
}

/// A run of free entries followed by one more free entry is a longer run
proof fn lemma_pt_free_run_extend(it: AllocationsPtIterator, k: nat, mem: Map<u64, u64>, masks: AddressMasks)
    requires
        pt_free_run(it, k, mem, masks),
        pt_step(pt_walk(it, k, mem, masks), mem, masks).0 matches Some((c, e)) && c && !e.is_present(mem),
    ensures
        pt_free_run(it, k + 1, mem, masks),
        pt_walk(it, k + 1, mem, masks) == pt_step(pt_walk(it, k, mem, masks), mem, masks).1,
    decreases k,
{
    if k > 0 {
        let it1 = pt_step(it, mem, masks).1;
        assert(pt_walk(it, k, mem, masks) == pt_walk(it1, (k - 1) as nat, mem, masks));
        lemma_pt_free_run_extend(it1, (k - 1) as nat, mem, masks);
        assert(pt_walk(it, k + 1, mem, masks) == pt_walk(it1, k, mem, masks));
        assert((pt_free_run(it1, k, mem, masks)));
    } else {
        reveal_with_fuel(pt_free_run, 2);
        reveal_with_fuel(pt_walk, 2);
    }
}

/// The search from `it` keeps, in `cand`, an iterator whose next `count`
/// entries are free and lead to `it`; what it returns yields `n` free entries
proof fn lemma_pt_slots_free(it: AllocationsPtIterator, cand: AllocationsPtIterator, count: nat, n: u64, mem: Map<u64, u64>, masks: AddressMasks)
    requires
        pt_free_run(cand, count, mem, masks),
        pt_step(pt_walk(cand, count, mem, masks), mem, masks) == pt_step(it, mem, masks),
    ensures
        pt_slots(it, cand, count, n, mem, masks) matches Some(r) ==> pt_free_run(r, n as nat, mem, masks),
    decreases pt_measure(it),
{
    if it.wf() && masks_ok(masks) {
        let (o, it2) = pt_step(it, mem, masks);
        if let Some((c, e)) = o {
            lemma_pt_step(it, mem, masks);
            if !c || e.is_present(mem) {
                let cand2 = AllocationsPtIterator { pt_iter: advance_iter(it2.pt_iter), ..it2 };
                lemma_advanced_same_step(it2.pt_iter);
                assert(pt_step(cand2, mem, masks) == pt_step(it2, mem, masks));
                lemma_pt_slots_free(it2, cand2, 0, n, mem, masks);
            } else {
                lemma_pt_free_run_extend(cand, count, mem, masks);
                if count + 1 != n {
                    lemma_pt_slots_free(it2, cand, count + 1, n, mem, masks);
                }
            }
        }
    }
}

/// When the search finds slots for `n_pages` pages, the iterator it returns
/// yields next `n_pages` entries that follow each other without a gap and
/// none of which is present: inserting the pages there overwrites no mapping
pub proof fn lemma_found_slots_are_free(page_type: PageType, n_pages: u64, pml4t: PageTable, mem: Map<u64, u64>, masks: AddressMasks)
    ensures
        pages_slots(page_type, n_pages, pml4t, mem, masks) matches Some(AllocationsIterator::Pdpt(it))
            ==> pdpt_free_run(it, n_pages as nat, mem, masks),
        pages_slots(page_type, n_pages, pml4t, mem, masks) matches Some(AllocationsIterator::Pdt(it))
            ==> pdt_free_run(it, n_pages as nat, mem, masks),
        pages_slots(page_type, n_pages, pml4t, mem, masks) matches Some(AllocationsIterator::Pt(it))
            ==> pt_free_run(it, n_pages as nat, mem, masks),
{
    match pdpt_from(AllocationsPml4tIterator { pml4t_iter: alloc_iter(pml4t) }, None, mem, masks) {
        None => {},
        Some(p) => {
            lemma_pdpt_slots_free(p, p, 0, n_pages, mem, masks);
            match pdt_from(p, None, mem, masks) {
                None => {},
                Some(q) => {
                    lemma_pdt_slots_free(q, q, 0, n_pages, mem, masks);
                    match pt_from(q, None, mem, masks) {
                        None => {},
                        Some(t) => {
                            lemma_pt_slots_free(t, t, 0, n_pages, mem, masks);
                        },
                    }
                },
            }
        },
    }
}

/// Searches for a table that can host the given number of pages of the
/// given type in contiguous free slots
///
/// Returns [`None`] if no table has enough contiguous free slots, otherwise
/// an iterator whose next entry is the first slot.
pub fn find_pages_slots(page_type: PageType, n_pages: u64, pml4t: PageTable, mem: &PhysicalMemory, masks: &AddressMasks) -> (r: Option<AllocationsIterator>)
    requires
        pml4t.table_type == PageTableType::PageMapLevel4Table,
        pml4t.fits(),
        masks_ok(*masks),
    ensures
        r == pages_slots(page_type, n_pages, pml4t, mem.view(), *masks),
        r matches Some(it) ==> it.wf(),
{
    match page_type {
        PageType::OneGiB => find_1gib_pages_slots(n_pages, pml4t, mem, masks),
        PageType::TwoMiB => find_2mib_pages_slots(n_pages, pml4t, mem, masks),
        PageType::FourKiB => find_4kib_pages_slots(n_pages, pml4t, mem, masks),
    }
}

/// Searches for a table that can host one page of the given type, as
/// [`find_pages_slots`] does
pub fn find_page_slot(page_type: PageType, pml4t: PageTable, mem: &PhysicalMemory, masks: &AddressMasks) -> (r: Option<AllocationsIterator>)
    requires
        pml4t.table_type == PageTableType::PageMapLevel4Table,
        pml4t.fits(),
        masks_ok(*masks),
    ensures
        r == pages_slots(page_type, 1, pml4t, mem.view(), *masks),
        r matches Some(it) ==> it.wf(),
{
    find_pages_slots(page_type, 1, pml4t, mem, masks)
}

} // verus!
