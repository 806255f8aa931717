//! Inserting tables and pages in the tables used to allocate memory.

use vstd::prelude::*;
use crate::allocations::{
    AllocationsIterator, AllocationsIteratorOffsets, AllocationsPml4tIterator, AllocationsPdptIterator,
    AllocationsPdtIterator, alloc_iter, alloc_measure, alloc_step, iter_from_offsets, lemma_alloc_step,
    lemma_pdpt_step, lemma_pdt_step, lemma_table_step, masks_ok, offset_ok, pdpt_from, pdpt_measure,
    pdpt_step, pdt_from, pdt_measure, pdt_step, pml4t_step, remaining, repeated,
};
use crate::bitmap::{AddressMasks, Bitmap, has, P_BIT};
use crate::errors::PagingError;
use crate::indexers::{PageTableEntryOffset, alloc_offset_start, alloc_offset_end, LIMIT_ENTRY_OFFSET};
use crate::page::{PageType, page_size_of};
use crate::physmem::{PhysicalMemory, word_at};
use crate::search::{lemma_pdpt_measure_bounded, lemma_pdt_measure_bounded};
use crate::table::{PageTable, PageTableEntry};
use crate::table_type::PageTableType;
use crate::tracing::metadata::{Info, Metadata};
use crate::tracing::pages::{TracingPages, insert_entry_outcome, insert_fits, insert_refused};

verus! {

/// The indexer of the allocation entries of a table of the given type
pub open spec fn alloc_offsets_of(t: PageTableType, table: PageTable) -> PageTableEntryOffset {
    PageTableEntryOffset::spec_range(alloc_offset_start(t, table.table_owner), alloc_offset_end(t, table.table_owner))
}

/// The first entry that is not present, walking the PML4T from `it`, and the
/// iterator after returning it
pub open spec fn pml4t_free_slot(it: AllocationsPml4tIterator, mem: Map<u64, u64>) -> Option<(PageTableEntry, AllocationsPml4tIterator)>
    decreases remaining(it.pml4t_iter),
{
    if !it.wf() {
        None
    } else {
        let (o, it2) = pml4t_step(it);
        match o {
            None => None,
            Some((_, e)) => {
                proof { lemma_table_step(it.pml4t_iter); }
                if e.is_present(mem) { pml4t_free_slot(it2, mem) } else { Some((e, it2)) }
            },
        }
    }
}

/// The first entry that is not present, walking the PDPTs from `it`, and the
/// iterator after returning it
pub open spec fn pdpt_free_slot(it: AllocationsPdptIterator, mem: Map<u64, u64>, masks: AddressMasks)
    -> Option<(PageTableEntry, AllocationsPdptIterator)>
    decreases pdpt_measure(it),
{
    if !(it.wf() && masks_ok(masks)) {
        None
    } else {
        let (o, it2) = pdpt_step(it, mem, masks);
        match o {
            None => None,
            Some((_, e)) => {
                proof { lemma_pdpt_step(it, mem, masks); }
                if e.is_present(mem) { pdpt_free_slot(it2, mem, masks) } else { Some((e, it2)) }
            },
        }
    }
}

/// The first entry that is not present, walking the PDTs from `it`, and the
/// iterator after returning it
pub open spec fn pdt_free_slot(it: AllocationsPdtIterator, mem: Map<u64, u64>, masks: AddressMasks)
    -> Option<(PageTableEntry, AllocationsPdtIterator)>
    decreases pdt_measure(it),
{
    if !(it.wf() && masks_ok(masks)) {
        None
    } else {
        let (o, it2) = pdt_step(it, mem, masks);
        match o {
            None => None,
            Some((_, e)) => {
                proof { lemma_pdt_step(it, mem, masks); }
                if e.is_present(mem) { pdt_free_slot(it2, mem, masks) } else { Some((e, it2)) }
            },
        }
    }
}

/// The outcome of writing `bitmap` in the free slot found, if any, and of
/// making an iterator over the new table from the offsets of the parent
/// iterator: the iterator and the memory
pub open spec fn table_inserted(
    slot: Option<(PageTableEntry, AllocationsIteratorOffsets)>,
    child: PageTableType,
    bitmap: u64,
    pml4t: PageTable,
    mem: Map<u64, u64>,
    masks: AddressMasks,
) -> (Option<AllocationsIterator>, Map<u64, u64>) {
    match slot {
        None => (None, mem),
        Some((e, offsets)) => {
            let m2 = mem.insert(e.entry, bitmap);
            (iter_from_offsets(offsets_with(offsets, alloc_offsets_of(child, pml4t)), pml4t, m2, masks), m2)
        },
    }
}

/// The offsets with the offset of a child table added
pub open spec fn offsets_with(offsets: AllocationsIteratorOffsets, rhs: PageTableEntryOffset) -> AllocationsIteratorOffsets {
    match offsets {
        AllocationsIteratorOffsets::Pml4t(a) => AllocationsIteratorOffsets::Pdpt(a, rhs),
        AllocationsIteratorOffsets::Pdpt(a, b) => AllocationsIteratorOffsets::Pdt(a, b, rhs),
        AllocationsIteratorOffsets::Pdt(a, b, c) => AllocationsIteratorOffsets::Pt(a, b, c, rhs),
        AllocationsIteratorOffsets::Pt(a, b, c, d) => AllocationsIteratorOffsets::Pt(a, b, c, d),
    }
}

/// The slot of the PML4T where a new PDPT goes, with the offsets of the parent iterator
pub open spec fn pdpt_table_slot(pml4t: PageTable, mem: Map<u64, u64>) -> Option<(PageTableEntry, AllocationsIteratorOffsets)> {
    match pml4t_free_slot(AllocationsPml4tIterator { pml4t_iter: alloc_iter(pml4t) }, mem) {
        None => None,
        Some((e, it)) => Some((e, AllocationsIteratorOffsets::Pml4t(repeated(it.pml4t_iter.entry_offset)))),
    }
}

/// The slot of the PDPTs where a new PDT goes, with the offsets of the parent iterator
pub open spec fn pdt_table_slot(pml4t: PageTable, mem: Map<u64, u64>, masks: AddressMasks) -> Option<(PageTableEntry, AllocationsIteratorOffsets)> {
    match pdpt_from(AllocationsPml4tIterator { pml4t_iter: alloc_iter(pml4t) }, None, mem, masks) {
        None => None,
        Some(p) => match pdpt_free_slot(p, mem, masks) {
            None => None,
            Some((e, it)) => Some((e, AllocationsIteratorOffsets::Pdpt(
                repeated(it.pml4t_iter.pml4t_iter.entry_offset), repeated(it.pdpt_iter.entry_offset)))),
        },
    }
}

/// The slot of the PDTs where a new PT goes, with the offsets of the parent iterator
pub open spec fn pt_table_slot(pml4t: PageTable, mem: Map<u64, u64>, masks: AddressMasks) -> Option<(PageTableEntry, AllocationsIteratorOffsets)> {
    match pdpt_from(AllocationsPml4tIterator { pml4t_iter: alloc_iter(pml4t) }, None, mem, masks) {
        None => None,
        Some(p) => match pdt_from(p, None, mem, masks) {
            None => None,
            Some(q) => match pdt_free_slot(q, mem, masks) {
                None => None,
                Some((e, it)) => Some((e, AllocationsIteratorOffsets::Pdt(
                    repeated(it.pdpt_iter.pml4t_iter.pml4t_iter.entry_offset), repeated(it.pdpt_iter.pdpt_iter.entry_offset),
                    repeated(it.pdt_iter.entry_offset)))),
            },
        },
    }
}

/// The indexers of the iterators over the tables stay within their tables
proof fn lemma_iters_offsets_ok(it: AllocationsPdtIterator)
    requires
        it.wf(),
    ensures
        offset_ok(repeated(it.pdpt_iter.pml4t_iter.pml4t_iter.entry_offset)),
        offset_ok(repeated(it.pdpt_iter.pdpt_iter.entry_offset)),
        offset_ok(repeated(it.pdt_iter.entry_offset)),
{
}

/// Writes the given bitmap in the first entry of the PML4T that is not present
/// and returns an iterator over the new PDPT, or [`None`] if no entry is free
pub fn insert_table_pdpt(bitmap: Bitmap, pml4t: PageTable, mem: &mut PhysicalMemory, masks: &AddressMasks) -> (r: Option<AllocationsIterator>)
    requires
        pml4t.table_type == PageTableType::PageMapLevel4Table,
        pml4t.fits(),
        masks_ok(*masks),
    ensures
        (r, final(mem).view()) == table_inserted(pdpt_table_slot(pml4t, old(mem).view()), PageTableType::PageDirectoryPointerTable,
            bitmap@, pml4t, old(mem).view(), *masks),
        r matches Some(it) ==> it.wf(),
{
    if let Some(mut pml4t_iterator) = AllocationsPml4tIterator::new(pml4t) {
        let ghost start = pml4t_iterator;
        loop
            invariant
                pml4t_iterator.wf(),
                masks_ok(*masks),
                pml4t.table_type == PageTableType::PageMapLevel4Table,
                pml4t.fits(),
                start == (AllocationsPml4tIterator { pml4t_iter: alloc_iter(pml4t) }),
                mem.view() == old(mem).view(),
                pml4t_free_slot(start, mem.view()) == pml4t_free_slot(pml4t_iterator, mem.view()),
            decreases remaining(pml4t_iterator.pml4t_iter),
        {
            proof { lemma_table_step(pml4t_iterator.pml4t_iter); }
            match pml4t_iterator.next() {
                None => {
                    return None;
                },
                Some((_, pml4t_entry)) => {
                    if pml4t_entry.bitmap(mem).present() {
                        continue;
                    }
                    pml4t_entry.set_bitmap(mem, bitmap);
                    let parent_offsets = pml4t_iterator.offsets();
                    let pdpt_offset = PageTableEntryOffset::allocations(PageTableType::PageDirectoryPointerTable, pml4t.table_owner);
                    return AllocationsIterator::from_offsets(parent_offsets.add(pdpt_offset), pml4t, mem, masks);
                },
            }
        }
    }
    None
}

/// Writes the given bitmap in the first entry of the PDPTs that is not present
/// and returns an iterator over the new PDT, or [`None`] if no entry is free
pub fn insert_table_pdt(bitmap: Bitmap, pml4t: PageTable, mem: &mut PhysicalMemory, masks: &AddressMasks) -> (r: Option<AllocationsIterator>)
    requires
        pml4t.table_type == PageTableType::PageMapLevel4Table,
        pml4t.fits(),
        masks_ok(*masks),
    ensures
        (r, final(mem).view()) == table_inserted(pdt_table_slot(pml4t, old(mem).view(), *masks), PageTableType::PageDirectoryTable,
            bitmap@, pml4t, old(mem).view(), *masks),
        r matches Some(it) ==> it.wf(),
{
    if let Some(mut pdpt_iterator) = AllocationsPdptIterator::new(pml4t, mem, masks) {
        let ghost start = pdpt_iterator;
        loop
            invariant
                pdpt_iterator.wf(),
                masks_ok(*masks),
                pml4t.table_type == PageTableType::PageMapLevel4Table,
                pml4t.fits(),
                pdpt_from(AllocationsPml4tIterator { pml4t_iter: alloc_iter(pml4t) }, None, old(mem).view(), *masks) == Some(start),
                mem.view() == old(mem).view(),
                pdpt_free_slot(start, mem.view(), *masks) == pdpt_free_slot(pdpt_iterator, mem.view(), *masks),
            decreases pdpt_measure(pdpt_iterator),
        {
            proof { lemma_pdpt_step(pdpt_iterator, mem.view(), *masks); }
            match pdpt_iterator.next(mem, masks) {
                None => {
                    return None;
                },
                Some((_, pdpt_entry)) => {
                    if pdpt_entry.bitmap(mem).present() {
                        continue;
                    }
                    pdpt_entry.set_bitmap(mem, bitmap);
                    let parent_offsets = pdpt_iterator.offsets();
                    let pdt_offset = PageTableEntryOffset::allocations(PageTableType::PageDirectoryTable, pml4t.table_owner);
                    return AllocationsIterator::from_offsets(parent_offsets.add(pdt_offset), pml4t, mem, masks);
                },
            }
        }
    }
    None
}

/// Writes the given bitmap in the first entry of the PDTs that is not present
/// and returns an iterator over the new PT, or [`None`] if no entry is free
pub fn insert_table_pt(bitmap: Bitmap, pml4t: PageTable, mem: &mut PhysicalMemory, masks: &AddressMasks) -> (r: Option<AllocationsIterator>)
    requires
        pml4t.table_type == PageTableType::PageMapLevel4Table,
        pml4t.fits(),
        masks_ok(*masks),
    ensures
        (r, final(mem).view()) == table_inserted(pt_table_slot(pml4t, old(mem).view(), *masks), PageTableType::PageTable,
            bitmap@, pml4t, old(mem).view(), *masks),
        r matches Some(it) ==> it.wf(),
{
    if let Some(mut pdt_iterator) = AllocationsPdtIterator::new(pml4t, mem, masks) {
        let ghost start = pdt_iterator;
        loop
            invariant
                pdt_iterator.wf(),
                masks_ok(*masks),
                pml4t.table_type == PageTableType::PageMapLevel4Table,
                pml4t.fits(),
                pdpt_from(AllocationsPml4tIterator { pml4t_iter: alloc_iter(pml4t) }, None, old(mem).view(), *masks) matches Some(p)
                    && pdt_from(p, None, old(mem).view(), *masks) == Some(start),
                mem.view() == old(mem).view(),
                pdt_free_slot(start, mem.view(), *masks) == pdt_free_slot(pdt_iterator, mem.view(), *masks),
            decreases pdt_measure(pdt_iterator),
        {
            proof { lemma_pdt_step(pdt_iterator, mem.view(), *masks); }
            match pdt_iterator.next(mem, masks) {
                None => {
                    return None;
                },
                Some((_, pdt_entry)) => {
                    if pdt_entry.bitmap(mem).present() {
                        continue;
                    }
                    pdt_entry.set_bitmap(mem, bitmap);
                    proof { lemma_iters_offsets_ok(pdt_iterator); }
                    let parent_offsets = pdt_iterator.offsets();
                    let pt_offset = PageTableEntryOffset::allocations(PageTableType::PageTable, pml4t.table_owner);
                    return AllocationsIterator::from_offsets(parent_offsets.add(pt_offset), pml4t, mem, masks);
                },
            }
        }
    }
    None
}


/// The address is that of one of the entries of the table at `base`
pub open spec fn in_table(base: u64, a: u64) -> bool {
    base <= a < base + LIMIT_ENTRY_OFFSET && (a - base) % 8 == 0
}

/// The memory with all the entries of the table at `base` set to zero
pub open spec fn zeroed(m: Map<u64, u64>, base: u64) -> Map<u64, u64> {
    Map::new(|a: u64| m.contains_key(a) || in_table(base, a), |a: u64| if in_table(base, a) { 0 } else { m[a] })
}

/// The memory with the entries of the table at `base` below offset `8 * i` set to zero
pub open spec fn zeroed_upto(m: Map<u64, u64>, base: u64, i: int) -> Map<u64, u64> {
    Map::new(
        |a: u64| m.contains_key(a) || (in_table(base, a) && a < base + 8 * i),
        |a: u64| if in_table(base, a) && a < base + 8 * i { 0 } else { m[a] },
    )
}

/// Sets to zero all the entries of the table at the given address
pub fn zero_table(mem: &mut PhysicalMemory, base: u64)
    requires
        base + LIMIT_ENTRY_OFFSET <= u64::MAX,
    ensures
        final(mem).view() == zeroed(old(mem).view(), base),
{
    let ghost m = mem.view();
    let mut i: u64 = 0;
    assert(mem.view() =~= zeroed_upto(m, base, 0));
    while i < 512
        invariant
            base + LIMIT_ENTRY_OFFSET <= u64::MAX,
            i <= 512,
            mem.view() == zeroed_upto(m, base, i as int),
        decreases 512 - i,
    {
        mem.write(base + 8 * i, 0);
        proof {
            assert forall|a: u64| (in_table(base, a) && a < base + 8 * (i + 1)) <==> ((in_table(base, a) && a < base + 8 * i) || a == base + 8 * i) by {
                if in_table(base, a) && a < base + 8 * (i + 1) && !(a < base + 8 * i) {
                    assert(a == base + 8 * i);
                }
            }
            assert(mem.view() =~= zeroed_upto(m, base, i + 1));
        }
        i = i + 1;
    }
    assert(mem.view() =~= zeroed(m, base));
}

/// The outcome of inserting a new table of the given type, at the address
/// the memory map may have found for it: the result and the memory
pub open spec fn table_insertion(
    table_type: PageTableType,
    flags: u64,
    table_paddr: Option<u64>,
    pml4t: PageTable,
    mem: Map<u64, u64>,
    masks: AddressMasks,
) -> (Result<Option<AllocationsIterator>, PagingError>, Map<u64, u64>) {
    match table_paddr {
        None => (Err(PagingError::NoSpaceAvailable), mem),
        Some(p) => {
            let bitmap = p | flags;
            let (o, m2) = match table_type {
                PageTableType::PageMapLevel4Table => (None, mem),
                PageTableType::PageDirectoryPointerTable => table_inserted(pdpt_table_slot(pml4t, mem),
                    PageTableType::PageDirectoryPointerTable, bitmap, pml4t, mem, masks),
                PageTableType::PageDirectoryTable => table_inserted(pdt_table_slot(pml4t, mem, masks),
                    PageTableType::PageDirectoryTable, bitmap, pml4t, mem, masks),
                PageTableType::PageTable => table_inserted(pt_table_slot(pml4t, mem, masks),
                    PageTableType::PageTable, bitmap, pml4t, mem, masks),
            };
            if table_type == PageTableType::PageMapLevel4Table {
                (Err(PagingError::IncompatibleTable), mem)
            } else {
                match o {
                    None => (Ok(None), m2),
                    Some(it) => (Ok(Some(it)), zeroed(m2, p)),
                }
            }
        },
    }
}

/// The slot found walking the PML4T is an entry that is not present
proof fn lemma_pml4t_free_slot_not_present(it: AllocationsPml4tIterator, mem: Map<u64, u64>)
    ensures
        pml4t_free_slot(it, mem) matches Some((e, _)) ==> !e.is_present(mem),
    decreases remaining(it.pml4t_iter),
{
    if it.wf() {
        let (o, it2) = pml4t_step(it);
        if let Some((_, e)) = o {
            lemma_table_step(it.pml4t_iter);
            lemma_pml4t_free_slot_not_present(it2, mem);
        }
    }
}

/// The slot found walking the PDPTs is an entry that is not present
proof fn lemma_pdpt_free_slot_not_present(it: AllocationsPdptIterator, mem: Map<u64, u64>, masks: AddressMasks)
    ensures
        pdpt_free_slot(it, mem, masks) matches Some((e, _)) ==> !e.is_present(mem),
    decreases pdpt_measure(it),
{
    if it.wf() && masks_ok(masks) {
        let (o, it2) = pdpt_step(it, mem, masks);
        if let Some((_, e)) = o {
            lemma_pdpt_step(it, mem, masks);
            lemma_pdpt_free_slot_not_present(it2, mem, masks);
        }
    }
}

/// The slot found walking the PDTs is an entry that is not present
proof fn lemma_pdt_free_slot_not_present(it: AllocationsPdtIterator, mem: Map<u64, u64>, masks: AddressMasks)
    ensures
        pdt_free_slot(it, mem, masks) matches Some((e, _)) ==> !e.is_present(mem),
    decreases pdt_measure(it),
{
    if it.wf() && masks_ok(masks) {
        let (o, it2) = pdt_step(it, mem, masks);
        if let Some((_, e)) = o {
            lemma_pdt_step(it, mem, masks);
            lemma_pdt_free_slot_not_present(it2, mem, masks);
        }
    }
}

/// Writing a bitmap in an entry that is not present, then zeroing the table
/// at `p`, keeps every present word outside that table
proof fn lemma_written_keeps_present(mem: Map<u64, u64>, a0: u64, bitmap: u64, p: u64)
    requires
        !(has(word_at(mem, a0), P_BIT)),
    ensures
        forall|a: u64| #![trigger word_at(mem, a)] has(word_at(mem, a), P_BIT) && !(p <= a < p + LIMIT_ENTRY_OFFSET) ==>
            word_at(zeroed(mem.insert(a0, bitmap), p), a) == word_at(mem, a)
            && word_at(mem.insert(a0, bitmap), a) == word_at(mem, a),
{
    assert forall|a: u64| #![trigger word_at(mem, a)] has(word_at(mem, a), P_BIT) && !(p <= a < p + LIMIT_ENTRY_OFFSET) implies
        word_at(zeroed(mem.insert(a0, bitmap), p), a) == word_at(mem, a)
        && word_at(mem.insert(a0, bitmap), a) == word_at(mem, a) by {
        assert(a != a0);
        assert(!in_table(p, a));
    }
}

/// Inserting a table writes no entry that was present: every present word of
/// the memory keeps its value, but those of the new table itself, which is
/// set to zero
pub proof fn lemma_table_insertion_keeps_present_entries(table_type: PageTableType, flags: u64, table_paddr: Option<u64>,
    pml4t: PageTable, mem: Map<u64, u64>, masks: AddressMasks)
    ensures
        forall|a: u64| #![trigger word_at(mem, a)]
            has(word_at(mem, a), P_BIT) && !(table_paddr matches Some(p) && p <= a < p + LIMIT_ENTRY_OFFSET) ==>
                word_at(table_insertion(table_type, flags, table_paddr, pml4t, mem, masks).1, a) == word_at(mem, a),
{
    if let Some(p) = table_paddr {
        let bitmap = p | flags;
        let slot = match table_type {
            PageTableType::PageMapLevel4Table => None,
            PageTableType::PageDirectoryPointerTable => pdpt_table_slot(pml4t, mem),
            PageTableType::PageDirectoryTable => pdt_table_slot(pml4t, mem, masks),
            PageTableType::PageTable => pt_table_slot(pml4t, mem, masks),
        };
        lemma_pml4t_free_slot_not_present(AllocationsPml4tIterator { pml4t_iter: alloc_iter(pml4t) }, mem);
        match pdpt_from(AllocationsPml4tIterator { pml4t_iter: alloc_iter(pml4t) }, None, mem, masks) {
            None => {},
            Some(pp) => {
                lemma_pdpt_free_slot_not_present(pp, mem, masks);
                match pdt_from(pp, None, mem, masks) {
                    None => {},
                    Some(q) => {
                        lemma_pdt_free_slot_not_present(q, mem, masks);
                    },
                }
            },
        }
        if let Some((e, _)) = slot {
            assert(!e.is_present(mem));
            lemma_written_keeps_present(mem, e.entry, bitmap, p);
        }
    }
}

/// Inserting a table in the next slot of an iterator writes no entry that was
/// present: every present word of the memory keeps its value, but those of
/// the new table itself, which is set to zero
pub proof fn lemma_table_insertion_into_keeps_present_entries(it: AllocationsIterator, table_type: PageTableType, flags: u64,
    table_paddr: Option<u64>, pml4t: PageTable, mem: Map<u64, u64>, masks: AddressMasks)
    ensures
        forall|a: u64| #![trigger word_at(mem, a)]
            has(word_at(mem, a), P_BIT) && !(table_paddr matches Some(p) && p <= a < p + LIMIT_ENTRY_OFFSET) ==>
                word_at(table_insertion_into(it, table_type, flags, table_paddr, pml4t, mem, masks).1, a) == word_at(mem, a),
{
    let (o, it2) = alloc_step(it, mem, masks);
    if let Some((_, e)) = o {
        if !e.is_present(mem) {
            if let Some(p) = table_paddr {
                lemma_written_keeps_present(mem, e.entry, p | flags, p);
            }
        }
    }
}

/// Creates a new table of the given type, at the address that the memory map
/// found for it, if a compatible parent table has a free slot for it
///
/// The table is zeroed once its entry is written; the memory map must then
/// acquire it. Returns an [`Err`] if no address was found or the table is a
/// PML4T, [`None`] if no parent table has a free slot, otherwise an iterator
/// over the new table.
pub fn insert_table(
    table_type: PageTableType,
    flags: Bitmap,
    table_paddr: Option<u64>,
    pml4t: PageTable,
    mem: &mut PhysicalMemory,
    masks: &AddressMasks,
) -> (r: Result<Option<AllocationsIterator>, PagingError>)
    requires
        pml4t.table_type == PageTableType::PageMapLevel4Table,
        pml4t.fits(),
        masks_ok(*masks),
        table_paddr matches Some(p) ==> p + LIMIT_ENTRY_OFFSET <= u64::MAX,
    ensures
        (r, final(mem).view()) == table_insertion(table_type, flags@, table_paddr, pml4t, old(mem).view(), *masks),
        r matches Ok(Some(it)) ==> it.wf(),
{
    let table_paddr = match table_paddr {
        Some(p) => p,
        None => {
            return Err(PagingError::NoSpaceAvailable);
        },
    };
    let bitmap = Bitmap::from_bits(table_paddr).union(flags);
    let table_iter_opt = match table_type {
        PageTableType::PageMapLevel4Table => {
            return Err(PagingError::IncompatibleTable);
        },
        PageTableType::PageDirectoryPointerTable => insert_table_pdpt(bitmap, pml4t, mem, masks),
        PageTableType::PageDirectoryTable => insert_table_pdt(bitmap, pml4t, mem, masks),
        PageTableType::PageTable => insert_table_pt(bitmap, pml4t, mem, masks),
    };
    match table_iter_opt {
        None => Ok(None),
        Some(table_iter) => {
            zero_table(mem, table_paddr);
            Ok(Some(table_iter))
        },
    }
}

/// The outcome of inserting a new table of the given type in the next slot
/// of `it`, at the address the memory map may have found for it: the result
/// and the memory
pub open spec fn table_insertion_into(
    it: AllocationsIterator,
    table_type: PageTableType,
    flags: u64,
    table_paddr: Option<u64>,
    pml4t: PageTable,
    mem: Map<u64, u64>,
    masks: AddressMasks,
) -> (Result<Option<AllocationsIterator>, PagingError>, Map<u64, u64>) {
    let (o, it2) = alloc_step(it, mem, masks);
    match o {
        None => (Err(PagingError::InternalFailure), mem),
        Some((_, e)) => {
            if e.is_present(mem) {
                (Err(PagingError::InternalFailure), mem)
            } else {
                match table_paddr {
                    None => (Err(PagingError::NoSpaceAvailable), mem),
                    Some(p) => {
                        let m2 = mem.insert(e.entry, p | flags);
                        let offsets = offsets_with(offsets_of_iter(it2), alloc_offsets_of(table_type, pml4t));
                        match iter_from_offsets(offsets, pml4t, m2, masks) {
                            Some(t) => (Ok(Some(t)), zeroed(m2, p)),
                            None => (Err(PagingError::InternalFailure), m2),
                        }
                    },
                }
            }
        },
    }
}

/// The offsets of the wrapped iterator, as [`AllocationsIterator::offsets`] gives them
pub open spec fn offsets_of_iter(it: AllocationsIterator) -> AllocationsIteratorOffsets {
    match it {
        AllocationsIterator::Pml4t(i) => AllocationsIteratorOffsets::Pml4t(repeated(i.pml4t_iter.entry_offset)),
        AllocationsIterator::Pdpt(i) => AllocationsIteratorOffsets::Pdpt(
            repeated(i.pml4t_iter.pml4t_iter.entry_offset), repeated(i.pdpt_iter.entry_offset)),
        AllocationsIterator::Pdt(i) => AllocationsIteratorOffsets::Pdt(
            repeated(i.pdpt_iter.pml4t_iter.pml4t_iter.entry_offset), repeated(i.pdpt_iter.pdpt_iter.entry_offset),
            repeated(i.pdt_iter.entry_offset)),
        AllocationsIterator::Pt(i) => AllocationsIteratorOffsets::Pt(
            repeated(i.pdt_iter.pdpt_iter.pml4t_iter.pml4t_iter.entry_offset), repeated(i.pdt_iter.pdpt_iter.pdpt_iter.entry_offset),
            repeated(i.pdt_iter.pdt_iter.entry_offset), repeated(i.pt_iter.entry_offset)),
    }
}

/// Creates a new table of the given type in the next slot of the given
/// iterator over its parent tables, at the address that the memory map found
/// for it
///
/// The table is zeroed once its entry is written; the memory map must then
/// acquire it. Returns an [`Err`] if the iterator has no next slot or it is
/// taken, or if no address was found; otherwise an iterator over the new table.
#[verifier::rlimit(60)]
pub fn insert_table_into(
    iterator: AllocationsIterator,
    table_type: PageTableType,
    flags: Bitmap,
    table_paddr: Option<u64>,
    pml4t: PageTable,
    mem: &mut PhysicalMemory,
    masks: &AddressMasks,
) -> (r: Result<Option<AllocationsIterator>, PagingError>)
    requires
        pml4t.table_type == PageTableType::PageMapLevel4Table,
        pml4t.fits(),
        masks_ok(*masks),
        iterator.wf(),
        !(iterator is Pt),
        table_paddr matches Some(p) ==> p + LIMIT_ENTRY_OFFSET <= u64::MAX,
    ensures
        (r, final(mem).view()) == table_insertion_into(iterator, table_type, flags@, table_paddr, pml4t, old(mem).view(), *masks),
        r matches Ok(Some(it)) ==> it.wf(),
{
    let mut iterator = iterator;
    let ghost it0 = iterator;
    let ghost m0 = mem.view();
    proof { lemma_alloc_step(iterator, mem.view(), *masks); }
    let next = iterator.next(mem, masks);
    let ghost it2 = iterator;
    proof {
        assert((next, it2) == alloc_step(it0, m0, *masks));
    }
    if let Some((_, parent_table_entry)) = next {
        if parent_table_entry.bitmap(mem).present() {
            return Err(PagingError::InternalFailure);
        }
        let table_paddr = match table_paddr {
            Some(p) => p,
            None => {
                return Err(PagingError::NoSpaceAvailable);
            },
        };
        parent_table_entry.set_bitmap(mem, Bitmap::from_bits(table_paddr).union(flags));
        let parent_offsets = iterator.offsets();
        let table_offset = PageTableEntryOffset::allocations(table_type, pml4t.table_owner);
        if let Some(table_iter) = AllocationsIterator::from_offsets(parent_offsets.add(table_offset), pml4t, mem, masks) {
            zero_table(mem, table_paddr);
            return Ok(Some(table_iter));
        }
    }
    Err(PagingError::InternalFailure)
}


/// The outcome of writing `n` pages of `size` Bytes, starting at `paddr`, in
/// the next slots of `it`, `count` of them being written already: the result
/// and the memory
pub open spec fn pages_written(
    it: AllocationsIterator,
    paddr: u64,
    count: nat,
    n: u64,
    flags: u64,
    size: u64,
    mem: Map<u64, u64>,
    masks: AddressMasks,
) -> (Result<(), PagingError>, Map<u64, u64>)
    decreases alloc_measure(it),
{
    if !(it.wf() && masks_ok(masks)) {
        (Err(PagingError::InternalFailure), mem)
    } else {
        let (o, it2) = alloc_step(it, mem, masks);
        match o {
            None => (if count < n { Err(PagingError::InternalFailure) } else { Ok(()) }, mem),
            Some((c, e)) => {
                if !c {
                    (Err(PagingError::InternalFailure), mem)
                } else {
                    let m2 = mem.insert(e.entry, flags | paddr);
                    if count + 1 == n {
                        (Ok(()), m2)
                    } else {
                        proof { lemma_alloc_step(it, mem, masks); }
                        pages_written(it2, (paddr + size) as u64, count + 1, n, flags, size, m2, masks)
                    }
                }
            },
        }
    }
}


/// Writes `n_pages` pages of `page_size` Bytes, starting at `base_paddr`, in
/// the next slots of the given iterator, which must be contiguous
fn write_pages(
    start: AllocationsIterator,
    base_paddr: u64,
    n_pages: u64,
    flags: Bitmap,
    page_size: u64,
    mem: &mut PhysicalMemory,
    masks: &AddressMasks,
) -> (r: Result<(), PagingError>)
    requires
        start.wf(),
        masks_ok(*masks),
        n_pages > 0,
        base_paddr + page_size * n_pages <= u64::MAX,
    ensures
        (r, final(mem).view()) == pages_written(start, base_paddr, 0, n_pages, flags@, page_size, old(mem).view(), *masks),
{
    let mut iterator = start;
    let ghost it0 = iterator;
    let ghost m0 = mem.view();
    let mut page_paddr = base_paddr;
    let mut count: u64 = 0;
    loop
        invariant
            iterator.wf(),
            masks_ok(*masks),
            n_pages > 0,
            count < n_pages,
            page_paddr == base_paddr + page_size * count,
            base_paddr + page_size * n_pages <= u64::MAX,
            m0 == old(mem).view(),
            it0 == start,
            pages_written(it0, base_paddr, 0, n_pages, flags@, page_size, m0, *masks)
                == pages_written(iterator, page_paddr, count as nat, n_pages, flags@, page_size, mem.view(), *masks),
        decreases alloc_measure(iterator),
    {
        proof { lemma_alloc_step(iterator, mem.view(), *masks); }
        match iterator.next(mem, masks) {
            None => {
                return Err(PagingError::InternalFailure);
            },
            Some((contiguous, entry)) => {
                if !contiguous {
                    return Err(PagingError::InternalFailure);
                }
                entry.set_bitmap(mem, flags.with_bits(page_paddr));
                proof {
                    assert(page_size * (count + 1) <= page_size * n_pages) by (nonlinear_arith)
                        requires count + 1 <= n_pages;
                    assert(page_size * (count + 1) == page_size * count + page_size) by (nonlinear_arith);
                }
                count = count + 1;
                if count == n_pages {
                    return Ok(());
                }
                page_paddr = page_paddr + page_size;
            },
        }
    }
}

/// The free entry made of the inserted pages
pub open spec fn pages_entry(paddr: u64, laddr: u64, page_type: PageType, n_pages: u64) -> Metadata {
    Metadata { paddr, laddr, info: Info::Free((page_size_of(page_type) * n_pages) as u64) }
}

/// The outcome of inserting `n_pages` pages of the given type in the next
/// slots of `it`, at the physical address that the memory map may have found
/// for them: the result, with the physical and logical addresses of the
/// first page, the memory and the tracing pages
pub open spec fn pages_insertion(
    it: AllocationsIterator,
    page_type: PageType,
    n_pages: u64,
    flags: u64,
    base_paddr: Option<u64>,
    mem: Map<u64, u64>,
    masks: AddressMasks,
    tv: Seq<Seq<Metadata>>,
) -> (Result<(u64, u64), PagingError>, Map<u64, u64>, Seq<Seq<Metadata>>) {
    match base_paddr {
        None => (Err(PagingError::NoSpaceAvailable), mem, tv),
        Some(b) => {
            let laddr = it.spec_build_laddr(0);
            let (w, m2) = pages_written(it, b, 0, n_pages, flags, page_size_of(page_type), mem, masks);
            match w {
                Err(e) => (Err(e), m2, tv),
                Ok(_) => {
                    let (t, tv2) = insert_entry_outcome(tv, pages_entry(b, laddr, page_type, n_pages));
                    match t {
                        Err(e) => (Err(e), m2, tv2),
                        Ok(_) => (Ok((b, laddr)), m2, tv2),
                    }
                },
            }
        },
    }
}

/// Inserts the new pages as free space in the tracing pages
///
/// A tracing page added to hold what overflows is added to the tracing pages
/// only; no frame is asked for it here; the forced insertion of pages, which
/// holds the memory map, creates its tracing page.
pub fn update_tracing_table(tracing: &mut TracingPages, page_paddr: u64, page_laddr: u64, page_type: PageType, n_pages: u64)
    -> (r: Result<(), PagingError>)
    requires
        old(tracing).wf(),
        page_size_of(page_type) * n_pages <= u64::MAX,
        page_paddr + page_size_of(page_type) * n_pages <= u64::MAX,
        page_laddr + page_size_of(page_type) * n_pages <= u64::MAX,
        !insert_refused(old(tracing).view(), pages_entry(page_paddr, page_laddr, page_type, n_pages)),
    ensures
        (r, final(tracing).view()) == insert_entry_outcome(old(tracing).view(), pages_entry(page_paddr, page_laddr, page_type, n_pages)),
        insert_fits(old(tracing).view(), pages_entry(page_paddr, page_laddr, page_type, n_pages)) ==> final(tracing).wf(),
{
    let page_size = page_type.size();
    let total_size = page_size * n_pages;
    tracing.insert_available_space(page_paddr, page_laddr, total_size)
}

/// Inserts `n_pages` pages of the given type in the next slots of the given
/// iterator, at the physical address that the memory map found and acquired
/// for them, then inserts their space in the tracing pages
///
/// Returns an [`Err`] if no address was found, if the slots run out or are not
/// contiguous, or if the tracing pages refuse the space; otherwise the physical
/// and logical addresses of the first page. A tracing page needed for the
/// space is added as [`update_tracing_table`] says, without a frame.
pub fn insert_pages_into(
    iterator: AllocationsIterator,
    page_type: PageType,
    n_pages: u64,
    flags: Bitmap,
    base_paddr: Option<u64>,
    pml4t: PageTable,
    mem: &mut PhysicalMemory,
    masks: &AddressMasks,
    tracing: &mut TracingPages,
) -> (r: Result<(u64, u64), PagingError>)
    requires
        iterator.wf(),
        masks_ok(*masks),
        n_pages > 0,
        old(tracing).wf(),
        page_size_of(page_type) * n_pages <= u64::MAX,
        base_paddr matches Some(b) ==> ({
            &&& b + page_size_of(page_type) * n_pages <= u64::MAX
            &&& iterator.spec_build_laddr(0) + page_size_of(page_type) * n_pages <= u64::MAX
            &&& !insert_refused(old(tracing).view(), pages_entry(b, iterator.spec_build_laddr(0), page_type, n_pages))
        }),
    ensures
        (r, final(mem).view(), final(tracing).view()) == pages_insertion(iterator, page_type, n_pages, flags@, base_paddr,
            old(mem).view(), *masks, old(tracing).view()),
        base_paddr matches Some(b) && insert_fits(old(tracing).view(), pages_entry(b, iterator.spec_build_laddr(0), page_type, n_pages))
            ==> final(tracing).wf(),
        base_paddr is None ==> final(tracing).wf(),
{
    let page_size = page_type.size();
    let base_paddr = match base_paddr {
        Some(b) => b,
        None => {
            return Err(PagingError::NoSpaceAvailable);
        },
    };
    let base_laddr = iterator.build_laddr(0);
    write_pages(iterator, base_paddr, n_pages, flags, page_size, mem, masks)?;
    update_tracing_table(tracing, base_paddr, base_laddr, page_type, n_pages)?;
    Ok((base_paddr, base_laddr))
}

} // verus!
