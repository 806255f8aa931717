//! Iterators over the entries of the tables used to allocate memory, walking
//! the whole hierarchy of tables below the PML4T.

use vstd::prelude::*;
use crate::bitmap::AddressMasks;
use crate::indexers::{PageTableEntryOffset, LIMIT_ENTRY_OFFSET};
use crate::physmem::PhysicalMemory;
use crate::table::{PageTable, PageTableEntry, table_of_entry};
use crate::errors::PagingError;
use crate::table_type::{PageTableType, child_of};
use crate::tables::PageTableIterator;

verus! {

/// Bound on the number of Bytes of offsets left to a single table iterator,
/// used to weigh the iterators of the parent tables
pub open spec fn table_weight() -> int {
    8192
}

/// The masks give addresses of tables that leave room for all their entries
pub open spec fn masks_ok(masks: AddressMasks) -> bool {
    masks.mask_4k + LIMIT_ENTRY_OFFSET <= u64::MAX
}

/// The entry returned by one step of a table iterator and the iterator after it
pub open spec fn table_step(t: PageTableIterator) -> (Option<PageTableEntry>, PageTableIterator) {
    if t.entry_offset.next_offset < t.entry_offset.end {
        (
            Some(t.page_table.entry_at(t.entry_offset.spec_advanced().spec_get())),
            PageTableIterator { entry_offset: t.entry_offset.spec_advanced(), ..t },
        )
    } else {
        (
            None,
            PageTableIterator {
                entry_offset: PageTableEntryOffset { current_offset: t.entry_offset.next_offset, ..t.entry_offset },
                ..t
            },
        )
    }
}

/// The Bytes of offsets left to a table iterator
pub open spec fn remaining(t: PageTableIterator) -> int {
    if t.entry_offset.next_offset < t.entry_offset.end {
        t.entry_offset.end - t.entry_offset.next_offset
    } else {
        0
    }
}

/// The table iterator restarted on the given table
pub open spec fn restarted(t: PageTableIterator, table: PageTable) -> PageTableIterator {
    PageTableIterator {
        page_table: table,
        entry_offset: PageTableEntryOffset {
            current_offset: t.entry_offset.start,
            next_offset: t.entry_offset.start,
            ..t.entry_offset
        },
    }
}

/// The indexer stays within the entries of a table
pub open spec fn offset_ok(o: PageTableEntryOffset) -> bool {
    &&& o.end <= LIMIT_ENTRY_OFFSET
    &&& o.start <= o.end
    &&& !o.reversed
}

/// The table iterator can compute the address of every entry it reaches
pub open spec fn table_iter_ok(t: PageTableIterator) -> bool {
    t.wf() && offset_ok(t.entry_offset)
}

pub proof fn lemma_table_step(t: PageTableIterator)
    requires
        table_iter_ok(t),
    ensures
        table_iter_ok(table_step(t).1),
        table_step(t).0 is Some ==> remaining(table_step(t).1) < remaining(t),
        table_step(t).0 is None ==> remaining(table_step(t).1) == 0 && remaining(t) == 0,
        remaining(t) <= LIMIT_ENTRY_OFFSET,
        table_step(t).1.page_table == t.page_table,
{
}

/// Iterates the entries of the PML4T used to allocate memory
#[derive(Clone, Copy, Debug)]
pub struct AllocationsPml4tIterator {
    /// The iterator over the PML4T
    pub pml4t_iter: PageTableIterator,
}

/// One step of an iterator over the PML4T: every entry is contiguous to the
/// previous one
pub open spec fn pml4t_step(it: AllocationsPml4tIterator) -> (Option<(bool, PageTableEntry)>, AllocationsPml4tIterator) {
    let (e, t) = table_step(it.pml4t_iter);
    (
        match e {
            Some(e) => Some((true, e)),
            None => None,
        },
        AllocationsPml4tIterator { pml4t_iter: t },
    )
}

impl AllocationsPml4tIterator {
    pub open spec fn wf(&self) -> bool {
        &&& table_iter_ok(self.pml4t_iter)
        &&& self.pml4t_iter.page_table.table_type == PageTableType::PageMapLevel4Table
    }

    /// Creates a new iterator over the allocation entries of the given PML4T
    pub fn new(pml4t: PageTable) -> (r: Option<Self>)
        ensures
            r == Some(AllocationsPml4tIterator { pml4t_iter: PageTableIterator {
                page_table: pml4t,
                entry_offset: PageTableEntryOffset::spec_range(
                    crate::indexers::alloc_offset_start(pml4t.table_type, pml4t.table_owner),
                    crate::indexers::alloc_offset_end(pml4t.table_type, pml4t.table_owner)),
            } }),
    {
        let pml4t_iter = PageTableIterator::allocations(pml4t);
        Some(Self { pml4t_iter })
    }

    /// Creates a new iterator over the given PML4T using the given offset
    pub fn new_with_offsets(pml4t_ofs: PageTableEntryOffset, pml4t: PageTable) -> (r: Option<Self>)
        ensures
            r == Some(AllocationsPml4tIterator { pml4t_iter: PageTableIterator { page_table: pml4t, entry_offset: pml4t_ofs } }),
    {
        let pml4t_iter = PageTableIterator::allocations_with_offset(pml4t, pml4t_ofs);
        Some(Self { pml4t_iter })
    }

    /// Returns the current offset of the iterator
    pub fn offsets(&self) -> (r: AllocationsIteratorOffsets)
        ensures
            r == AllocationsIteratorOffsets::Pml4t(repeated(self.pml4t_iter.entry_offset)),
    {
        AllocationsIteratorOffsets::Pml4t(self.pml4t_iter.offset())
    }

    /// Builds a logical address from the current index of the iterator
    pub fn build_laddr(&self, laddr: u64) -> (r: u64)
        ensures
            r == with_index(laddr, (self.pml4t_iter.entry_offset.current_offset / 8) as u64, PML4T_SHIFT),
    {
        with_pml4t_index(laddr, self.pml4t_iter.table_index())
    }

    /// Duplicates the iterator as is
    pub fn duplicate(&self) -> (r: Self)
        ensures
            r == *self,
    {
        Self { pml4t_iter: self.pml4t_iter.duplicate() }
    }

    /// Duplicates the iterator so that the next entry returned is the current one
    pub fn duplicate_and_repeat(&self) -> (r: Self)
        ensures
            r.pml4t_iter == repeat_iter(self.pml4t_iter),
    {
        Self { pml4t_iter: self.pml4t_iter.duplicate_and_repeat() }
    }

    /// Duplicates the iterator so that the next entry returned is the next one
    pub fn duplicate_and_advance(&self) -> (r: Self)
        ensures
            r.pml4t_iter == advance_iter(self.pml4t_iter),
    {
        Self { pml4t_iter: self.pml4t_iter.duplicate_and_advance() }
    }

    /// Returns the next entry, always contiguous to the previous one
    pub fn next(&mut self) -> (r: Option<(bool, PageTableEntry)>)
        requires
            old(self).wf(),
        ensures
            final(self).wf(),
            (r, *final(self)) == pml4t_step(*old(self)),
    {
        proof { lemma_table_step(self.pml4t_iter); }
        match self.pml4t_iter.next() {
            Some(e) => Some((true, e)),
            None => None,
        }
    }
}


/// The table pointed to by an entry leaves room for all its entries
pub proof fn lemma_child_fits(bits: u64, masks: AddressMasks)
    requires
        masks_ok(masks),
    ensures
        (bits & masks.mask_4k) + LIMIT_ENTRY_OFFSET <= u64::MAX,
{
    let m = masks.mask_4k;
    assert((bits & m) <= m) by (bit_vector);
}

/// The iterator over the allocation entries of a table
pub open spec fn alloc_iter(t: PageTable) -> PageTableIterator {
    PageTableIterator {
        page_table: t,
        entry_offset: PageTableEntryOffset::spec_range(
            crate::indexers::alloc_offset_start(t.table_type, t.table_owner),
            crate::indexers::alloc_offset_end(t.table_type, t.table_owner)),
    }
}

/// Iterates the entries of all the PDPTs used to allocate memory, moving to the
/// next PDPT pointed to by the PML4T when one is exhausted
#[derive(Clone, Copy, Debug)]
pub struct AllocationsPdptIterator {
    /// The iterator over the parent PML4T
    pub pml4t_iter: AllocationsPml4tIterator,
    /// The iterator over the current PDPT
    pub pdpt_iter: PageTableIterator,
}

/// Looks in the PML4T for the next present entry and restarts the PDPT
/// iterator `cur` on the table it points to; the entry returned is contiguous
/// to the previous one if `cont` holds and no entry of the PML4T was skipped
pub open spec fn pdpt_scan(
    parent: AllocationsPml4tIterator,
    cur: PageTableIterator,
    cont: bool,
    mem: Map<u64, u64>,
    masks: AddressMasks,
) -> (Option<(bool, PageTableEntry)>, AllocationsPdptIterator)
    decreases remaining(parent.pml4t_iter),
{
    let (o, p2) = pml4t_step(parent);
    match o {
        None => (None, AllocationsPdptIterator { pml4t_iter: p2, pdpt_iter: cur }),
        Some((_, e)) => {
            if parent.pml4t_iter.entry_offset.end > LIMIT_ENTRY_OFFSET {
                (None, AllocationsPdptIterator { pml4t_iter: p2, pdpt_iter: cur })
            } else if !e.is_present(mem) {
                pdpt_scan(p2, cur, false, mem, masks)
            } else {
                let (o2, t2) = table_step(restarted(cur, e.spec_child_table(mem, masks)));
                (
                    match o2 {
                        Some(x) => Some((cont, x)),
                        None => None,
                    },
                    AllocationsPdptIterator { pml4t_iter: p2, pdpt_iter: t2 },
                )
            }
        },
    }
}

/// One step of an iterator over the PDPTs
pub open spec fn pdpt_step(it: AllocationsPdptIterator, mem: Map<u64, u64>, masks: AddressMasks)
    -> (Option<(bool, PageTableEntry)>, AllocationsPdptIterator)
{
    let (o, t) = table_step(it.pdpt_iter);
    match o {
        Some(e) => (Some((true, e)), AllocationsPdptIterator { pdpt_iter: t, ..it }),
        None => pdpt_scan(it.pml4t_iter, t, true, mem, masks),
    }
}

/// The iterator over the PDPTs made from an iterator over the PML4T, and the
/// indexer of the first PDPT
///
/// With an indexer, the next entry of the PML4T must give the PDPT. Without
/// one, the entries of the PML4T that do not point to a table are passed
/// over, and the first PDPT is the first table found.
pub open spec fn pdpt_from(parent: AllocationsPml4tIterator, ofs: Option<PageTableEntryOffset>, mem: Map<u64, u64>, masks: AddressMasks)
    -> Option<AllocationsPdptIterator>
    decreases remaining(parent.pml4t_iter),
{
    let (o, p2) = pml4t_step(parent);
    match o {
        None => None,
        Some((_, e)) => match table_of_entry(e, mem, masks) {
            Err(_) => if ofs is None && parent.pml4t_iter.entry_offset.end <= LIMIT_ENTRY_OFFSET {
                pdpt_from(p2, None, mem, masks)
            } else {
                None
            },
            Ok(t) => Some(AllocationsPdptIterator {
                pml4t_iter: p2,
                pdpt_iter: match ofs {
                    Some(o) => PageTableIterator { page_table: t, entry_offset: o },
                    None => alloc_iter(t),
                },
            }),
        },
    }
}

impl AllocationsPdptIterator {
    pub open spec fn wf(&self) -> bool {
        &&& self.pml4t_iter.wf()
        &&& table_iter_ok(self.pdpt_iter)
        &&& self.pdpt_iter.page_table.table_type == PageTableType::PageDirectoryPointerTable
    }

    /// Builds the iterator from an iterator over the PML4T whose next entry
    /// points to the first PDPT
    fn from_parent(
        parent: AllocationsPml4tIterator,
        ofs: Option<PageTableEntryOffset>,
        mem: &PhysicalMemory,
        masks: &AddressMasks,
    ) -> (r: Option<Self>)
        requires
            parent.wf(),
            masks_ok(*masks),
            ofs matches Some(o) ==> offset_ok(o),
        ensures
            r == pdpt_from(parent, ofs, mem.view(), *masks),
            r matches Some(it) ==> it.wf(),
    {
        let mut cur = parent;
        loop
            invariant
                cur.wf(),
                masks_ok(*masks),
                ofs matches Some(o) ==> offset_ok(o),
                pdpt_from(parent, ofs, mem.view(), *masks) == pdpt_from(cur, ofs, mem.view(), *masks),
            decreases remaining(cur.pml4t_iter),
        {
            proof { lemma_table_step(cur.pml4t_iter); }
            let ghost before = cur;
            match cur.next() {
                None => {
                    proof { assert(pdpt_from(before, ofs, mem.view(), *masks) is None); }
                    return None;
                },
                Some((_, entry)) => {
                    match PageTable::try_from_entry(entry, mem, masks) {
                        Ok(pdpt) => {
                            proof { lemma_child_fits(entry.bits(mem.view()), *masks); }
                            let pdpt_iter = match ofs {
                                Some(o) => PageTableIterator::allocations_with_offset(pdpt, o),
                                None => PageTableIterator::allocations(pdpt),
                            };
                            let r = Self { pml4t_iter: cur, pdpt_iter };
                            proof { assert(pdpt_from(before, ofs, mem.view(), *masks) == Some(r)); }
                            return Some(r);
                        },
                        Err(_) => {
                            if ofs.is_some() {
                                return None;
                            }
                            proof {
                                assert(pdpt_from(before, ofs, mem.view(), *masks) == pdpt_from(cur, ofs, mem.view(), *masks));
                            }
                        },
                    }
                },
            }
        }
    }

    /// Creates a new iterator over the PDPTs of the given PML4T, starting from
    /// the first PDPT pointed to by its allocation entries
    ///
    /// Returns [`None`] if none of these entries points to a table.
    pub fn new(pml4t: PageTable, mem: &PhysicalMemory, masks: &AddressMasks) -> (r: Option<Self>)
        requires
            pml4t.table_type == PageTableType::PageMapLevel4Table,
            pml4t.fits(),
            masks_ok(*masks),
        ensures
            r == pdpt_from(AllocationsPml4tIterator { pml4t_iter: alloc_iter(pml4t) }, None, mem.view(), *masks),
            r matches Some(it) ==> it.wf(),
    {
        match AllocationsPml4tIterator::new(pml4t) {
            Some(parent) => Self::from_parent(parent, None, mem, masks),
            None => None,
        }
    }

    /// Creates a new iterator over the PDPTs of the given PML4T using the given offsets
    ///
    /// Returns [`None`] if the entry at the offset of the PML4T does not point to a table.
    pub fn new_with_offsets(
        pml4t_ofs: PageTableEntryOffset,
        pdpt_ofs: PageTableEntryOffset,
        pml4t: PageTable,
        mem: &PhysicalMemory,
        masks: &AddressMasks,
    ) -> (r: Option<Self>)
        requires
            pml4t.table_type == PageTableType::PageMapLevel4Table,
            pml4t.fits(),
            offset_ok(pml4t_ofs),
            offset_ok(pdpt_ofs),
            masks_ok(*masks),
        ensures
            r == pdpt_from(AllocationsPml4tIterator { pml4t_iter: PageTableIterator { page_table: pml4t, entry_offset: pml4t_ofs } },
                Some(pdpt_ofs), mem.view(), *masks),
            r matches Some(it) ==> it.wf(),
    {
        match AllocationsPml4tIterator::new_with_offsets(pml4t_ofs, pml4t) {
            Some(parent) => Self::from_parent(parent, Some(pdpt_ofs), mem, masks),
            None => None,
        }
    }

    /// Returns the current offsets of the iterators
    pub fn offsets(&self) -> (r: AllocationsIteratorOffsets)
        ensures
            r == AllocationsIteratorOffsets::Pdpt(repeated(self.pml4t_iter.pml4t_iter.entry_offset), repeated(self.pdpt_iter.entry_offset)),
    {
        self.pml4t_iter.offsets().add(self.pdpt_iter.offset())
    }

    /// Builds a logical address from the current indexes of the iterators
    pub fn build_laddr(&self, laddr: u64) -> (r: u64)
        ensures
            r == with_index(
                with_index(laddr, (self.pml4t_iter.pml4t_iter.entry_offset.current_offset / 8) as u64, PML4T_SHIFT),
                (self.pdpt_iter.entry_offset.current_offset / 8) as u64, PDPT_SHIFT),
    {
        with_pdpt_index(self.pml4t_iter.build_laddr(laddr), self.pdpt_iter.table_index())
    }

    /// Duplicates the iterator as is
    pub fn duplicate(&self) -> (r: Self)
        ensures
            r == *self,
    {
        Self { pml4t_iter: self.pml4t_iter.duplicate(), pdpt_iter: self.pdpt_iter.duplicate() }
    }

    /// Duplicates the iterator so that the next entry returned is the current one
    pub fn duplicate_and_repeat(&self) -> (r: Self)
        ensures
            r == (AllocationsPdptIterator { pdpt_iter: repeat_iter(self.pdpt_iter), ..*self }),
    {
        Self { pml4t_iter: self.pml4t_iter.duplicate(), pdpt_iter: self.pdpt_iter.duplicate_and_repeat() }
    }

    /// Duplicates the iterator so that the next entry returned is the next one
    pub fn duplicate_and_advance(&self) -> (r: Self)
        ensures
            r == (AllocationsPdptIterator { pdpt_iter: advance_iter(self.pdpt_iter), ..*self }),
    {
        Self { pml4t_iter: self.pml4t_iter.duplicate(), pdpt_iter: self.pdpt_iter.duplicate_and_advance() }
    }

    /// Returns the next entry of the PDPTs, with whether it is contiguous to
    /// the previous one
    pub fn next(&mut self, mem: &PhysicalMemory, masks: &AddressMasks) -> (r: Option<(bool, PageTableEntry)>)
        requires
            old(self).wf(),
            masks_ok(*masks),
        ensures
            final(self).wf(),
            (r, *final(self)) == pdpt_step(*old(self), mem.view(), *masks),
    {
        let mut contiguous = true;
        proof { lemma_table_step(self.pdpt_iter); }
        if let Some(e) = self.pdpt_iter.next() {
            return Some((contiguous, e));
        }
        loop
            invariant
                self.wf(),
                masks_ok(*masks),
                pdpt_step(*old(self), mem.view(), *masks) == pdpt_scan(self.pml4t_iter, self.pdpt_iter, contiguous, mem.view(), *masks),
            decreases remaining(self.pml4t_iter.pml4t_iter),
        {
            proof { lemma_table_step(self.pml4t_iter.pml4t_iter); }
            match self.pml4t_iter.next() {
                None => {
                    return None;
                },
                Some((_, pml4t_entry)) => {
                    let bits = pml4t_entry.bitmap(mem);
                    if !bits.present() {
                        contiguous = false;
                        continue;
                    }
                    let table = pml4t_entry.into_table(mem, masks);
                    proof { lemma_child_fits(pml4t_entry.bits(mem.view()), *masks); }
                    self.pdpt_iter.reset(table);
                    proof { lemma_table_step(self.pdpt_iter); }
                    return match self.pdpt_iter.next() {
                        Some(e) => Some((contiguous, e)),
                        None => None,
                    };
                },
            }
        }
    }
}


/// The weight of the offsets left to an iterator over the PDPTs
pub open spec fn pdpt_measure(it: AllocationsPdptIterator) -> int {
    remaining(it.pml4t_iter.pml4t_iter) * table_weight() + remaining(it.pdpt_iter)
}

pub proof fn lemma_pdpt_scan(parent: AllocationsPml4tIterator, cur: PageTableIterator, cont: bool, mem: Map<u64, u64>, masks: AddressMasks)
    requires
        parent.wf(),
        table_iter_ok(cur),
        cur.page_table.table_type == PageTableType::PageDirectoryPointerTable,
        masks_ok(masks),
    ensures
        pdpt_scan(parent, cur, cont, mem, masks).1.wf(),
        pdpt_scan(parent, cur, cont, mem, masks).0 is Some ==>
            pdpt_measure(pdpt_scan(parent, cur, cont, mem, masks).1) < remaining(parent.pml4t_iter) * table_weight(),
        pdpt_scan(parent, cur, cont, mem, masks).0 matches Some((_, e)) ==> e.table_type == PageTableType::PageDirectoryPointerTable,
    decreases remaining(parent.pml4t_iter),
{
    lemma_table_step(parent.pml4t_iter);
    let (o, p2) = pml4t_step(parent);
    if let Some((_, e)) = o {
        if !e.is_present(mem) {
            lemma_pdpt_scan(p2, cur, false, mem, masks);
        } else {
            lemma_child_fits(e.bits(mem), masks);
            let r = restarted(cur, e.spec_child_table(mem, masks));
            lemma_table_step(r);
        }
    }
}

pub proof fn lemma_pdpt_step(it: AllocationsPdptIterator, mem: Map<u64, u64>, masks: AddressMasks)
    requires
        it.wf(),
        masks_ok(masks),
    ensures
        pdpt_step(it, mem, masks).1.wf(),
        pdpt_step(it, mem, masks).0 is Some ==> pdpt_measure(pdpt_step(it, mem, masks).1) < pdpt_measure(it),
        pdpt_step(it, mem, masks).0 matches Some((_, e)) ==> e.table_type == PageTableType::PageDirectoryPointerTable,
{
    lemma_table_step(it.pdpt_iter);
    let (o, t) = table_step(it.pdpt_iter);
    if o is None {
        lemma_pdpt_scan(it.pml4t_iter, t, true, mem, masks);
    }
}

/// Iterates the entries of all the PDTs used to allocate memory, moving to the
/// next PDT pointed to by the PDPTs when one is exhausted
#[derive(Clone, Copy, Debug)]
pub struct AllocationsPdtIterator {
    /// The iterator over the parent PDPTs
    pub pdpt_iter: AllocationsPdptIterator,
    /// The iterator over the current PDT
    pub pdt_iter: PageTableIterator,
}

/// Looks in the PDPTs for the next entry pointing to a table and restarts
/// the PDT iterator `cur` on that table; the entry returned is contiguous to
/// the previous one if `cont` holds, no entry of the PDPTs was skipped and
/// the entry of the PDPTs is contiguous to the previous one
pub open spec fn pdt_scan(
    parent: AllocationsPdptIterator,
    cur: PageTableIterator,
    cont: bool,
    mem: Map<u64, u64>,
    masks: AddressMasks,
) -> (Option<(bool, PageTableEntry)>, AllocationsPdtIterator)
    decreases pdpt_measure(parent),
{
    let (o, p2) = pdpt_step(parent, mem, masks);
    match o {
        None => (None, AllocationsPdtIterator { pdpt_iter: p2, pdt_iter: cur }),
        Some((c, e)) => {
            if !(parent.wf() && masks_ok(masks)) {
                (None, AllocationsPdtIterator { pdpt_iter: p2, pdt_iter: cur })
            } else if !e.is_present(mem) || e.is_huge(mem) {
                proof { lemma_pdpt_step(parent, mem, masks); }
                pdt_scan(p2, cur, false, mem, masks)
            } else {
                let (o2, t2) = table_step(restarted(cur, e.spec_child_table(mem, masks)));
                (
                    match o2 {
                        Some(x) => Some((cont && c, x)),
                        None => None,
                    },
                    AllocationsPdtIterator { pdpt_iter: p2, pdt_iter: t2 },
                )
            }
        },
    }
}

/// One step of an iterator over the PDTs
pub open spec fn pdt_step(it: AllocationsPdtIterator, mem: Map<u64, u64>, masks: AddressMasks)
    -> (Option<(bool, PageTableEntry)>, AllocationsPdtIterator)
{
    let (o, t) = table_step(it.pdt_iter);
    match o {
        Some(e) => (Some((true, e)), AllocationsPdtIterator { pdt_iter: t, ..it }),
        None => pdt_scan(it.pdpt_iter, t, true, mem, masks),
    }
}

/// The iterator over the PDTs made from an iterator over the PDPTs, and the
/// indexer of the first PDT
///
/// With an indexer, the next entry of the PDPTs must give the PDT. Without
/// one, the entries of the PDPTs that do not point to a table are passed
/// over, and the first PDT is the first table found.
pub open spec fn pdt_from(parent: AllocationsPdptIterator, ofs: Option<PageTableEntryOffset>, mem: Map<u64, u64>, masks: AddressMasks)
    -> Option<AllocationsPdtIterator>
    decreases pdpt_measure(parent),
{
    let (o, p2) = pdpt_step(parent, mem, masks);
    match o {
        None => None,
        Some((_, e)) => match table_of_entry(e, mem, masks) {
            Err(_) => if ofs is None && parent.wf() && masks_ok(masks) {
                proof { lemma_pdpt_step(parent, mem, masks); }
                pdt_from(p2, None, mem, masks)
            } else {
                None
            },
            Ok(t) => Some(AllocationsPdtIterator {
                pdpt_iter: p2,
                pdt_iter: match ofs {
                    Some(o) => PageTableIterator { page_table: t, entry_offset: o },
                    None => alloc_iter(t),
                },
            }),
        },
    }
}

/// The weight of the offsets left to an iterator over the PDTs
pub open spec fn pdt_measure(it: AllocationsPdtIterator) -> int {
    pdpt_measure(it.pdpt_iter) * table_weight() + remaining(it.pdt_iter)
}

pub proof fn lemma_pdt_scan(parent: AllocationsPdptIterator, cur: PageTableIterator, cont: bool, mem: Map<u64, u64>, masks: AddressMasks)
    requires
        parent.wf(),
        table_iter_ok(cur),
        cur.page_table.table_type == PageTableType::PageDirectoryTable,
        masks_ok(masks),
    ensures
        pdt_scan(parent, cur, cont, mem, masks).1.wf(),
        pdt_scan(parent, cur, cont, mem, masks).0 is Some ==>
            pdt_measure(pdt_scan(parent, cur, cont, mem, masks).1) < pdpt_measure(parent) * table_weight(),
        pdt_scan(parent, cur, cont, mem, masks).0 matches Some((_, e)) ==> e.table_type == PageTableType::PageDirectoryTable,
    decreases pdpt_measure(parent),
{
    lemma_pdpt_step(parent, mem, masks);
    let (o, p2) = pdpt_step(parent, mem, masks);
    if let Some((_, e)) = o {
        if !e.is_present(mem) || e.is_huge(mem) {
            lemma_pdt_scan(p2, cur, false, mem, masks);
        } else {
            lemma_child_fits(e.bits(mem), masks);
            let r = restarted(cur, e.spec_child_table(mem, masks));
            lemma_table_step(r);
        }
    }
}

pub proof fn lemma_pdt_step(it: AllocationsPdtIterator, mem: Map<u64, u64>, masks: AddressMasks)
    requires
        it.wf(),
        masks_ok(masks),
    ensures
        pdt_step(it, mem, masks).1.wf(),
        pdt_step(it, mem, masks).0 is Some ==> pdt_measure(pdt_step(it, mem, masks).1) < pdt_measure(it),
        pdt_step(it, mem, masks).0 matches Some((_, e)) ==> e.table_type == PageTableType::PageDirectoryTable,
{
    lemma_table_step(it.pdt_iter);
    let (o, t) = table_step(it.pdt_iter);
    if o is None {
        lemma_pdt_scan(it.pdpt_iter, t, true, mem, masks);
    }
}

impl AllocationsPdtIterator {
    pub open spec fn wf(&self) -> bool {
        &&& self.pdpt_iter.wf()
        &&& table_iter_ok(self.pdt_iter)
        &&& self.pdt_iter.page_table.table_type == PageTableType::PageDirectoryTable
    }

    /// Builds the iterator from an iterator over the PDPTs whose next entry
    /// points to the first PDT
    fn from_parent(
        parent: AllocationsPdptIterator,
        ofs: Option<PageTableEntryOffset>,
        mem: &PhysicalMemory,
        masks: &AddressMasks,
    ) -> (r: Option<Self>)
        requires
            parent.wf(),
            masks_ok(*masks),
            ofs matches Some(o) ==> offset_ok(o),
        ensures
            r == pdt_from(parent, ofs, mem.view(), *masks),
            r matches Some(it) ==> it.wf(),
    {
        let mut cur = parent;
        loop
            invariant
                cur.wf(),
                masks_ok(*masks),
                ofs matches Some(o) ==> offset_ok(o),
                pdt_from(parent, ofs, mem.view(), *masks) == pdt_from(cur, ofs, mem.view(), *masks),
            decreases pdpt_measure(cur),
        {
            proof { lemma_pdpt_step(cur, mem.view(), *masks); }
            let ghost before = cur;
            match cur.next(mem, masks) {
                None => {
                    proof { assert(pdt_from(before, ofs, mem.view(), *masks) is None); }
                    return None;
                },
                Some((_, entry)) => {
                    match PageTable::try_from_entry(entry, mem, masks) {
                        Ok(pdt) => {
                            proof { lemma_child_fits(entry.bits(mem.view()), *masks); }
                            let pdt_iter = match ofs {
                                Some(o) => PageTableIterator::allocations_with_offset(pdt, o),
                                None => PageTableIterator::allocations(pdt),
                            };
                            let r = Self { pdpt_iter: cur, pdt_iter };
                            proof { assert(pdt_from(before, ofs, mem.view(), *masks) == Some(r)); }
                            return Some(r);
                        },
                        Err(_) => {
                            if ofs.is_some() {
                                return None;
                            }
                            proof {
                                assert(pdt_from(before, ofs, mem.view(), *masks) == pdt_from(cur, ofs, mem.view(), *masks));
                            }
                        },
                    }
                },
            }
        }
    }

    /// Creates a new iterator over the PDTs below the given PML4T, starting
    /// from the first PDT pointed to by the allocation entries of the PDPTs
    ///
    /// Returns [`None`] if there is no such PDT.
    pub fn new(pml4t: PageTable, mem: &PhysicalMemory, masks: &AddressMasks) -> (r: Option<Self>)
        requires
            pml4t.table_type == PageTableType::PageMapLevel4Table,
            pml4t.fits(),
            masks_ok(*masks),
        ensures
            r == (match pdpt_from(AllocationsPml4tIterator { pml4t_iter: alloc_iter(pml4t) }, None, mem.view(), *masks) {
                Some(p) => pdt_from(p, None, mem.view(), *masks),
                None => None,
            }),
            r matches Some(it) ==> it.wf(),
    {
        match AllocationsPdptIterator::new(pml4t, mem, masks) {
            Some(parent) => Self::from_parent(parent, None, mem, masks),
            None => None,
        }
    }

    /// Creates a new iterator over the PDTs below the given PML4T using the
    /// given offsets
    ///
    /// Returns [`None`] if the entries at the offsets do not point to tables.
    pub fn new_with_offsets(
        pml4t_ofs: PageTableEntryOffset,
        pdpt_ofs: PageTableEntryOffset,
        pdt_ofs: PageTableEntryOffset,
        pml4t: PageTable,
        mem: &PhysicalMemory,
        masks: &AddressMasks,
    ) -> (r: Option<Self>)
        requires
            pml4t.table_type == PageTableType::PageMapLevel4Table,
            pml4t.fits(),
            offset_ok(pml4t_ofs),
            offset_ok(pdpt_ofs),
            offset_ok(pdt_ofs),
            masks_ok(*masks),
        ensures
            r == (match pdpt_from(AllocationsPml4tIterator { pml4t_iter: PageTableIterator { page_table: pml4t, entry_offset: pml4t_ofs } },
                Some(pdpt_ofs), mem.view(), *masks) {
                Some(p) => pdt_from(p, Some(pdt_ofs), mem.view(), *masks),
                None => None,
            }),
            r matches Some(it) ==> it.wf(),
    {
        match AllocationsPdptIterator::new_with_offsets(pml4t_ofs, pdpt_ofs, pml4t, mem, masks) {
            Some(parent) => Self::from_parent(parent, Some(pdt_ofs), mem, masks),
            None => None,
        }
    }

    /// Returns the current offsets of the iterators
    pub fn offsets(&self) -> (r: AllocationsIteratorOffsets)
        ensures
            r == AllocationsIteratorOffsets::Pdt(
                repeated(self.pdpt_iter.pml4t_iter.pml4t_iter.entry_offset),
                repeated(self.pdpt_iter.pdpt_iter.entry_offset),
                repeated(self.pdt_iter.entry_offset)),
    {
        self.pdpt_iter.offsets().add(self.pdt_iter.offset())
    }

    /// Builds a logical address from the current indexes of the iterators
    pub fn build_laddr(&self, laddr: u64) -> (r: u64)
        ensures
            r == with_index(with_index(
                with_index(laddr, (self.pdpt_iter.pml4t_iter.pml4t_iter.entry_offset.current_offset / 8) as u64, PML4T_SHIFT),
                (self.pdpt_iter.pdpt_iter.entry_offset.current_offset / 8) as u64, PDPT_SHIFT),
                (self.pdt_iter.entry_offset.current_offset / 8) as u64, PDT_SHIFT),
    {
        with_pdt_index(self.pdpt_iter.build_laddr(laddr), self.pdt_iter.table_index())
    }

    /// Duplicates the iterator as is
    pub fn duplicate(&self) -> (r: Self)
        ensures
            r == *self,
    {
        Self { pdpt_iter: self.pdpt_iter.duplicate(), pdt_iter: self.pdt_iter.duplicate() }
    }

    /// Duplicates the iterator so that the next entry returned is the current one
    pub fn duplicate_and_repeat(&self) -> (r: Self)
        ensures
            r == (AllocationsPdtIterator { pdt_iter: repeat_iter(self.pdt_iter), ..*self }),
    {
        Self { pdpt_iter: self.pdpt_iter.duplicate(), pdt_iter: self.pdt_iter.duplicate_and_repeat() }
    }

    /// Duplicates the iterator so that the next entry returned is the next one
    pub fn duplicate_and_advance(&self) -> (r: Self)
        ensures
            r == (AllocationsPdtIterator { pdt_iter: advance_iter(self.pdt_iter), ..*self }),
    {
        Self { pdpt_iter: self.pdpt_iter.duplicate(), pdt_iter: self.pdt_iter.duplicate_and_advance() }
    }

    /// Returns the next entry of the PDTs, with whether it is contiguous to
    /// the previous one
    pub fn next(&mut self, mem: &PhysicalMemory, masks: &AddressMasks) -> (r: Option<(bool, PageTableEntry)>)
        requires
            old(self).wf(),
            masks_ok(*masks),
        ensures
            final(self).wf(),
            (r, *final(self)) == pdt_step(*old(self), mem.view(), *masks),
    {
        let mut contiguous = true;
        proof { lemma_table_step(self.pdt_iter); }
        if let Some(e) = self.pdt_iter.next() {
            return Some((contiguous, e));
        }
        loop
            invariant
                self.wf(),
                masks_ok(*masks),
                pdt_step(*old(self), mem.view(), *masks) == pdt_scan(self.pdpt_iter, self.pdt_iter, contiguous, mem.view(), *masks),
            decreases pdpt_measure(self.pdpt_iter),
        {
            proof { lemma_pdpt_step(self.pdpt_iter, mem.view(), *masks); }
            match self.pdpt_iter.next(mem, masks) {
                None => {
                    return None;
                },
                Some((cont, pdpt_entry)) => {
                    let bits = pdpt_entry.bitmap(mem);
                    if !bits.present() || bits.page_size() {
                        contiguous = false;
                        continue;
                    }
                    contiguous = contiguous && cont;
                    let table = pdpt_entry.into_table(mem, masks);
                    proof { lemma_child_fits(pdpt_entry.bits(mem.view()), *masks); }
                    self.pdt_iter.reset(table);
                    proof { lemma_table_step(self.pdt_iter); }
                    return match self.pdt_iter.next() {
                        Some(e) => Some((contiguous, e)),
                        None => None,
                    };
                },
            }
        }
    }
}

/// Iterates the entries of all the PTs used to allocate memory, moving to the
/// next PDT pointed to by the PDTs when one is exhausted
#[derive(Clone, Copy, Debug)]
pub struct AllocationsPtIterator {
    /// The iterator over the parent PDTs
    pub pdt_iter: AllocationsPdtIterator,
    /// The iterator over the current PDT
    pub pt_iter: PageTableIterator,
}

/// Looks in the PDTs for the next entry pointing to a table and restarts
/// the PT iterator `cur` on that table; the entry returned is contiguous to
/// the previous one if `cont` holds, no entry of the PDTs was skipped and
/// the entry of the PDTs is contiguous to the previous one
pub open spec fn pt_scan(
    parent: AllocationsPdtIterator,
    cur: PageTableIterator,
    cont: bool,
    mem: Map<u64, u64>,
    masks: AddressMasks,
) -> (Option<(bool, PageTableEntry)>, AllocationsPtIterator)
    decreases pdt_measure(parent),
{
    let (o, p2) = pdt_step(parent, mem, masks);
    match o {
        None => (None, AllocationsPtIterator { pdt_iter: p2, pt_iter: cur }),
        Some((c, e)) => {
            if !(parent.wf() && masks_ok(masks)) {
                (None, AllocationsPtIterator { pdt_iter: p2, pt_iter: cur })
            } else if !e.is_present(mem) || e.is_huge(mem) {
                proof { lemma_pdt_step(parent, mem, masks); }
                pt_scan(p2, cur, false, mem, masks)
            } else {
                let (o2, t2) = table_step(restarted(cur, e.spec_child_table(mem, masks)));
                (
                    match o2 {
                        Some(x) => Some((cont && c, x)),
                        None => None,
                    },
                    AllocationsPtIterator { pdt_iter: p2, pt_iter: t2 },
                )
            }
        },
    }
}

/// One step of an iterator over the PTs
pub open spec fn pt_step(it: AllocationsPtIterator, mem: Map<u64, u64>, masks: AddressMasks)
    -> (Option<(bool, PageTableEntry)>, AllocationsPtIterator)
{
    let (o, t) = table_step(it.pt_iter);
    match o {
        Some(e) => (Some((true, e)), AllocationsPtIterator { pt_iter: t, ..it }),
        None => pt_scan(it.pdt_iter, t, true, mem, masks),
    }
}

/// The iterator over the PTs made from an iterator over the PDTs, and the
/// indexer of the first PT
///
/// With an indexer, the next entry of the PDTs must give the PT. Without
/// one, the entries of the PDTs that do not point to a table are passed
/// over, and the first PT is the first table found.
pub open spec fn pt_from(parent: AllocationsPdtIterator, ofs: Option<PageTableEntryOffset>, mem: Map<u64, u64>, masks: AddressMasks)
    -> Option<AllocationsPtIterator>
    decreases pdt_measure(parent),
{
    let (o, p2) = pdt_step(parent, mem, masks);
    match o {
        None => None,
        Some((_, e)) => match table_of_entry(e, mem, masks) {
            Err(_) => if ofs is None && parent.wf() && masks_ok(masks) {
                proof { lemma_pdt_step(parent, mem, masks); }
                pt_from(p2, None, mem, masks)
            } else {
                None
            },
            Ok(t) => Some(AllocationsPtIterator {
                pdt_iter: p2,
                pt_iter: match ofs {
                    Some(o) => PageTableIterator { page_table: t, entry_offset: o },
                    None => alloc_iter(t),
                },
            }),
        },
    }
}

/// The weight of the offsets left to an iterator over the PTs
pub open spec fn pt_measure(it: AllocationsPtIterator) -> int {
    pdt_measure(it.pdt_iter) * table_weight() + remaining(it.pt_iter)
}

pub proof fn lemma_pt_scan(parent: AllocationsPdtIterator, cur: PageTableIterator, cont: bool, mem: Map<u64, u64>, masks: AddressMasks)
    requires
        parent.wf(),
        table_iter_ok(cur),
        cur.page_table.table_type == PageTableType::PageTable,
        masks_ok(masks),
    ensures
        pt_scan(parent, cur, cont, mem, masks).1.wf(),
        pt_scan(parent, cur, cont, mem, masks).0 is Some ==>
            pt_measure(pt_scan(parent, cur, cont, mem, masks).1) < pdt_measure(parent) * table_weight(),
        pt_scan(parent, cur, cont, mem, masks).0 matches Some((_, e)) ==> e.table_type == PageTableType::PageTable,
    decreases pdt_measure(parent),
{
    lemma_pdt_step(parent, mem, masks);
    let (o, p2) = pdt_step(parent, mem, masks);
    if let Some((_, e)) = o {
        if !e.is_present(mem) || e.is_huge(mem) {
            lemma_pt_scan(p2, cur, false, mem, masks);
        } else {
            lemma_child_fits(e.bits(mem), masks);
            let r = restarted(cur, e.spec_child_table(mem, masks));
            lemma_table_step(r);
        }
    }
}

pub proof fn lemma_pt_step(it: AllocationsPtIterator, mem: Map<u64, u64>, masks: AddressMasks)
    requires
        it.wf(),
        masks_ok(masks),
    ensures
        pt_step(it, mem, masks).1.wf(),
        pt_step(it, mem, masks).0 is Some ==> pt_measure(pt_step(it, mem, masks).1) < pt_measure(it),
        pt_step(it, mem, masks).0 matches Some((_, e)) ==> e.table_type == PageTableType::PageTable,
{
    lemma_table_step(it.pt_iter);
    let (o, t) = table_step(it.pt_iter);
    if o is None {
        lemma_pt_scan(it.pdt_iter, t, true, mem, masks);
    }
}

impl AllocationsPtIterator {
    pub open spec fn wf(&self) -> bool {
        &&& self.pdt_iter.wf()
        &&& table_iter_ok(self.pt_iter)
        &&& self.pt_iter.page_table.table_type == PageTableType::PageTable
    }

    /// Builds the iterator from an iterator over the PDTs whose next entry
    /// points to the first PT
    fn from_parent(
        parent: AllocationsPdtIterator,
        ofs: Option<PageTableEntryOffset>,
        mem: &PhysicalMemory,
        masks: &AddressMasks,
    ) -> (r: Option<Self>)
        requires
            parent.wf(),
            masks_ok(*masks),
            ofs matches Some(o) ==> offset_ok(o),
        ensures
            r == pt_from(parent, ofs, mem.view(), *masks),
            r matches Some(it) ==> it.wf(),
    {
        let mut cur = parent;
        loop
            invariant
                cur.wf(),
                masks_ok(*masks),
                ofs matches Some(o) ==> offset_ok(o),
                pt_from(parent, ofs, mem.view(), *masks) == pt_from(cur, ofs, mem.view(), *masks),
            decreases pdt_measure(cur),
        {
            proof { lemma_pdt_step(cur, mem.view(), *masks); }
            let ghost before = cur;
            match cur.next(mem, masks) {
                None => {
                    proof { assert(pt_from(before, ofs, mem.view(), *masks) is None); }
                    return None;
                },
                Some((_, entry)) => {
                    match PageTable::try_from_entry(entry, mem, masks) {
                        Ok(pdt) => {
                            proof { lemma_child_fits(entry.bits(mem.view()), *masks); }
                            let pt_iter = match ofs {
                                Some(o) => PageTableIterator::allocations_with_offset(pdt, o),
                                None => PageTableIterator::allocations(pdt),
                            };
                            let r = Self { pdt_iter: cur, pt_iter };
                            proof { assert(pt_from(before, ofs, mem.view(), *masks) == Some(r)); }
                            return Some(r);
                        },
                        Err(_) => {
                            if ofs.is_some() {
                                return None;
                            }
                            proof {
                                assert(pt_from(before, ofs, mem.view(), *masks) == pt_from(cur, ofs, mem.view(), *masks));
                            }
                        },
                    }
                },
            }
        }
    }

    /// Creates a new iterator over the PTs below the given PML4T, starting
    /// from the first PT pointed to by the allocation entries of the PDTs
    ///
    /// Returns [`None`] if there is no such PT.
    pub fn new(pml4t: PageTable, mem: &PhysicalMemory, masks: &AddressMasks) -> (r: Option<Self>)
        requires
            pml4t.table_type == PageTableType::PageMapLevel4Table,
            pml4t.fits(),
            masks_ok(*masks),
        ensures
            r == (match pdpt_from(AllocationsPml4tIterator { pml4t_iter: alloc_iter(pml4t) }, None, mem.view(), *masks) {
                Some(p) => match pdt_from(p, None, mem.view(), *masks) {
                    Some(q) => pt_from(q, None, mem.view(), *masks),
                    None => None,
                },
                None => None,
            }),
            r matches Some(it) ==> it.wf(),
    {
        match AllocationsPdtIterator::new(pml4t, mem, masks) {
            Some(parent) => Self::from_parent(parent, None, mem, masks),
            None => None,
        }
    }

    /// Creates a new iterator over the PTs below the given PML4T using the
    /// given offsets
    ///
    /// Returns [`None`] if the entries at the offsets do not point to tables.
    pub fn new_with_offsets(
        pml4t_ofs: PageTableEntryOffset,
        pdpt_ofs: PageTableEntryOffset,
        pdt_ofs: PageTableEntryOffset,
        pt_ofs: PageTableEntryOffset,
        pml4t: PageTable,
        mem: &PhysicalMemory,
        masks: &AddressMasks,
    ) -> (r: Option<Self>)
        requires
            pml4t.table_type == PageTableType::PageMapLevel4Table,
            pml4t.fits(),
            offset_ok(pml4t_ofs),
            offset_ok(pdpt_ofs),
            offset_ok(pdt_ofs),
            offset_ok(pt_ofs),
            masks_ok(*masks),
        ensures
            r == (match pdpt_from(AllocationsPml4tIterator { pml4t_iter: PageTableIterator { page_table: pml4t, entry_offset: pml4t_ofs } },
                Some(pdpt_ofs), mem.view(), *masks) {
                Some(p) => match pdt_from(p, Some(pdt_ofs), mem.view(), *masks) {
                    Some(q) => pt_from(q, Some(pt_ofs), mem.view(), *masks),
                    None => None,
                },
                None => None,
            }),
            r matches Some(it) ==> it.wf(),
    {
        match AllocationsPdtIterator::new_with_offsets(pml4t_ofs, pdpt_ofs, pdt_ofs, pml4t, mem, masks) {
            Some(parent) => Self::from_parent(parent, Some(pt_ofs), mem, masks),
            None => None,
        }
    }

    /// Returns the current offsets of the iterators
    pub fn offsets(&self) -> (r: AllocationsIteratorOffsets)
        ensures
            r == AllocationsIteratorOffsets::Pt(
                repeated(self.pdt_iter.pdpt_iter.pml4t_iter.pml4t_iter.entry_offset),
                repeated(self.pdt_iter.pdpt_iter.pdpt_iter.entry_offset),
                repeated(self.pdt_iter.pdt_iter.entry_offset),
                repeated(self.pt_iter.entry_offset)),
    {
        self.pdt_iter.offsets().add(self.pt_iter.offset())
    }

    /// Builds a logical address from the current indexes of the iterators
    pub fn build_laddr(&self, laddr: u64) -> (r: u64)
        ensures
            r == with_index(with_index(with_index(
                with_index(laddr, (self.pdt_iter.pdpt_iter.pml4t_iter.pml4t_iter.entry_offset.current_offset / 8) as u64, PML4T_SHIFT),
                (self.pdt_iter.pdpt_iter.pdpt_iter.entry_offset.current_offset / 8) as u64, PDPT_SHIFT),
                (self.pdt_iter.pdt_iter.entry_offset.current_offset / 8) as u64, PDT_SHIFT),
                (self.pt_iter.entry_offset.current_offset / 8) as u64, PT_SHIFT),
    {
        with_pt_index(self.pdt_iter.build_laddr(laddr), self.pt_iter.table_index())
    }

    /// Duplicates the iterator as is
    pub fn duplicate(&self) -> (r: Self)
        ensures
            r == *self,
    {
        Self { pdt_iter: self.pdt_iter.duplicate(), pt_iter: self.pt_iter.duplicate() }
    }

    /// Duplicates the iterator so that the next entry returned is the current one
    pub fn duplicate_and_repeat(&self) -> (r: Self)
        ensures
            r == (AllocationsPtIterator { pt_iter: repeat_iter(self.pt_iter), ..*self }),
    {
        Self { pdt_iter: self.pdt_iter.duplicate(), pt_iter: self.pt_iter.duplicate_and_repeat() }
    }

    /// Duplicates the iterator so that the next entry returned is the next one
    pub fn duplicate_and_advance(&self) -> (r: Self)
        ensures
            r == (AllocationsPtIterator { pt_iter: advance_iter(self.pt_iter), ..*self }),
    {
        Self { pdt_iter: self.pdt_iter.duplicate(), pt_iter: self.pt_iter.duplicate_and_advance() }
    }

    /// Returns the next entry of the PTs, with whether it is contiguous to
    /// the previous one
    pub fn next(&mut self, mem: &PhysicalMemory, masks: &AddressMasks) -> (r: Option<(bool, PageTableEntry)>)
        requires
            old(self).wf(),
            masks_ok(*masks),
        ensures
            final(self).wf(),
            (r, *final(self)) == pt_step(*old(self), mem.view(), *masks),
    {
        let mut contiguous = true;
        proof { lemma_table_step(self.pt_iter); }
        if let Some(e) = self.pt_iter.next() {
            return Some((contiguous, e));
        }
        loop
            invariant
                self.wf(),
                masks_ok(*masks),
                pt_step(*old(self), mem.view(), *masks) == pt_scan(self.pdt_iter, self.pt_iter, contiguous, mem.view(), *masks),
            decreases pdt_measure(self.pdt_iter),
        {
            proof { lemma_pdt_step(self.pdt_iter, mem.view(), *masks); }
            match self.pdt_iter.next(mem, masks) {
                None => {
                    return None;
                },
                Some((cont, pdt_entry)) => {
                    let bits = pdt_entry.bitmap(mem);
                    if !bits.present() || bits.page_size() {
                        contiguous = false;
                        continue;
                    }
                    contiguous = contiguous && cont;
                    let table = pdt_entry.into_table(mem, masks);
                    proof { lemma_child_fits(pdt_entry.bits(mem.view()), *masks); }
                    self.pt_iter.reset(table);
                    proof { lemma_table_step(self.pt_iter); }
                    return match self.pt_iter.next() {
                        Some(e) => Some((contiguous, e)),
                        None => None,
                    };
                },
            }
        }
    }
}


/// Wraps the iterators over the tables of each level
#[derive(Clone, Copy, Debug)]
pub enum AllocationsIterator {
    /// Wraps an [`AllocationsPml4tIterator`]
    Pml4t(AllocationsPml4tIterator),
    /// Wraps an [`AllocationsPdptIterator`]
    Pdpt(AllocationsPdptIterator),
    /// Wraps an [`AllocationsPdtIterator`]
    Pdt(AllocationsPdtIterator),
    /// Wraps an [`AllocationsPtIterator`]
    Pt(AllocationsPtIterator),
}

/// One step of the wrapped iterator
pub open spec fn alloc_step(it: AllocationsIterator, mem: Map<u64, u64>, masks: AddressMasks)
    -> (Option<(bool, PageTableEntry)>, AllocationsIterator)
{
    match it {
        AllocationsIterator::Pml4t(i) => { let (o, j) = pml4t_step(i); (o, AllocationsIterator::Pml4t(j)) },
        AllocationsIterator::Pdpt(i) => { let (o, j) = pdpt_step(i, mem, masks); (o, AllocationsIterator::Pdpt(j)) },
        AllocationsIterator::Pdt(i) => { let (o, j) = pdt_step(i, mem, masks); (o, AllocationsIterator::Pdt(j)) },
        AllocationsIterator::Pt(i) => { let (o, j) = pt_step(i, mem, masks); (o, AllocationsIterator::Pt(j)) },
    }
}

/// All the offsets stay within the entries of a table
pub open spec fn offsets_ok(offsets: AllocationsIteratorOffsets) -> bool {
    match offsets {
        AllocationsIteratorOffsets::Pml4t(a) => offset_ok(a),
        AllocationsIteratorOffsets::Pdpt(a, b) => offset_ok(a) && offset_ok(b),
        AllocationsIteratorOffsets::Pdt(a, b, c) => offset_ok(a) && offset_ok(b) && offset_ok(c),
        AllocationsIteratorOffsets::Pt(a, b, c, d) => offset_ok(a) && offset_ok(b) && offset_ok(c) && offset_ok(d),
    }
}

/// The iterator made from the given offsets, below the given PML4T
pub open spec fn iter_from_offsets(offsets: AllocationsIteratorOffsets, pml4t: PageTable, mem: Map<u64, u64>, masks: AddressMasks)
    -> Option<AllocationsIterator>
{
    match offsets {
        AllocationsIteratorOffsets::Pml4t(a) => Some(AllocationsIterator::Pml4t(AllocationsPml4tIterator {
            pml4t_iter: PageTableIterator { page_table: pml4t, entry_offset: a },
        })),
        AllocationsIteratorOffsets::Pdpt(a, b) => match pdpt_from(AllocationsPml4tIterator {
            pml4t_iter: PageTableIterator { page_table: pml4t, entry_offset: a } }, Some(b), mem, masks) {
            Some(p) => Some(AllocationsIterator::Pdpt(p)),
            None => None,
        },
        AllocationsIteratorOffsets::Pdt(a, b, c) => match pdpt_from(AllocationsPml4tIterator {
            pml4t_iter: PageTableIterator { page_table: pml4t, entry_offset: a } }, Some(b), mem, masks) {
            Some(p) => match pdt_from(p, Some(c), mem, masks) {
                Some(q) => Some(AllocationsIterator::Pdt(q)),
                None => None,
            },
            None => None,
        },
        AllocationsIteratorOffsets::Pt(a, b, c, d) => match pdpt_from(AllocationsPml4tIterator {
            pml4t_iter: PageTableIterator { page_table: pml4t, entry_offset: a } }, Some(b), mem, masks) {
            Some(p) => match pdt_from(p, Some(c), mem, masks) {
                Some(q) => match pt_from(q, Some(d), mem, masks) {
                    Some(t) => Some(AllocationsIterator::Pt(t)),
                    None => None,
                },
                None => None,
            },
            None => None,
        },
    }
}

impl AllocationsIterator {
    pub open spec fn wf(&self) -> bool {
        match self {
            AllocationsIterator::Pml4t(i) => i.wf(),
            AllocationsIterator::Pdpt(i) => i.wf(),
            AllocationsIterator::Pdt(i) => i.wf(),
            AllocationsIterator::Pt(i) => i.wf(),
        }
    }

    /// Creates the iterator from the given offsets
    ///
    /// Returns [`None`] if the entries at the offsets do not point to tables.
    pub fn from_offsets(offsets: AllocationsIteratorOffsets, pml4t: PageTable, mem: &PhysicalMemory, masks: &AddressMasks) -> (r: Option<Self>)
        requires
            pml4t.table_type == PageTableType::PageMapLevel4Table,
            pml4t.fits(),
            offsets_ok(offsets),
            masks_ok(*masks),
        ensures
            r == iter_from_offsets(offsets, pml4t, mem.view(), *masks),
            r matches Some(it) ==> it.wf(),
    {
        match offsets {
            AllocationsIteratorOffsets::Pml4t(a) => match AllocationsPml4tIterator::new_with_offsets(a, pml4t) {
                Some(it) => Some(AllocationsIterator::Pml4t(it)),
                None => None,
            },
            AllocationsIteratorOffsets::Pdpt(a, b) => match AllocationsPdptIterator::new_with_offsets(a, b, pml4t, mem, masks) {
                Some(it) => Some(AllocationsIterator::Pdpt(it)),
                None => None,
            },
            AllocationsIteratorOffsets::Pdt(a, b, c) => match AllocationsPdtIterator::new_with_offsets(a, b, c, pml4t, mem, masks) {
                Some(it) => Some(AllocationsIterator::Pdt(it)),
                None => None,
            },
            AllocationsIteratorOffsets::Pt(a, b, c, d) => match AllocationsPtIterator::new_with_offsets(a, b, c, d, pml4t, mem, masks) {
                Some(it) => Some(AllocationsIterator::Pt(it)),
                None => None,
            },
        }
    }

    /// Returns the offsets of the wrapped iterator
    pub fn offsets(&self) -> (r: AllocationsIteratorOffsets)
        ensures
            r == (match *self {
                AllocationsIterator::Pml4t(i) => AllocationsIteratorOffsets::Pml4t(repeated(i.pml4t_iter.entry_offset)),
                AllocationsIterator::Pdpt(i) => AllocationsIteratorOffsets::Pdpt(
                    repeated(i.pml4t_iter.pml4t_iter.entry_offset), repeated(i.pdpt_iter.entry_offset)),
                AllocationsIterator::Pdt(i) => AllocationsIteratorOffsets::Pdt(
                    repeated(i.pdpt_iter.pml4t_iter.pml4t_iter.entry_offset), repeated(i.pdpt_iter.pdpt_iter.entry_offset),
                    repeated(i.pdt_iter.entry_offset)),
                AllocationsIterator::Pt(i) => AllocationsIteratorOffsets::Pt(
                    repeated(i.pdt_iter.pdpt_iter.pml4t_iter.pml4t_iter.entry_offset), repeated(i.pdt_iter.pdpt_iter.pdpt_iter.entry_offset),
                    repeated(i.pdt_iter.pdt_iter.entry_offset), repeated(i.pt_iter.entry_offset)),
            }),
    {
        match self {
            AllocationsIterator::Pml4t(it) => it.offsets(),
            AllocationsIterator::Pdpt(it) => it.offsets(),
            AllocationsIterator::Pdt(it) => it.offsets(),
            AllocationsIterator::Pt(it) => it.offsets(),
        }
    }

    /// The logical address made of the current indexes of the wrapped iterators
    pub open spec fn spec_build_laddr(self, laddr: u64) -> u64 {
        match self {
            AllocationsIterator::Pml4t(i) => with_index(laddr, (i.pml4t_iter.entry_offset.current_offset / 8) as u64, PML4T_SHIFT),
            AllocationsIterator::Pdpt(i) => with_index(
                with_index(laddr, (i.pml4t_iter.pml4t_iter.entry_offset.current_offset / 8) as u64, PML4T_SHIFT),
                (i.pdpt_iter.entry_offset.current_offset / 8) as u64, PDPT_SHIFT),
            AllocationsIterator::Pdt(i) => with_index(with_index(
                with_index(laddr, (i.pdpt_iter.pml4t_iter.pml4t_iter.entry_offset.current_offset / 8) as u64, PML4T_SHIFT),
                (i.pdpt_iter.pdpt_iter.entry_offset.current_offset / 8) as u64, PDPT_SHIFT),
                (i.pdt_iter.entry_offset.current_offset / 8) as u64, PDT_SHIFT),
            AllocationsIterator::Pt(i) => with_index(with_index(with_index(
                with_index(laddr, (i.pdt_iter.pdpt_iter.pml4t_iter.pml4t_iter.entry_offset.current_offset / 8) as u64, PML4T_SHIFT),
                (i.pdt_iter.pdpt_iter.pdpt_iter.entry_offset.current_offset / 8) as u64, PDPT_SHIFT),
                (i.pdt_iter.pdt_iter.entry_offset.current_offset / 8) as u64, PDT_SHIFT),
                (i.pt_iter.entry_offset.current_offset / 8) as u64, PT_SHIFT),
        }
    }

    /// Builds a logical address from the current indexes of the parent
    /// iterators and of the wrapped one
    pub fn build_laddr(&self, laddr: u64) -> (r: u64)
        ensures
            r == self.spec_build_laddr(laddr),
    {
        match self {
            AllocationsIterator::Pml4t(it) => it.build_laddr(laddr),
            AllocationsIterator::Pdpt(it) => it.build_laddr(laddr),
            AllocationsIterator::Pdt(it) => it.build_laddr(laddr),
            AllocationsIterator::Pt(it) => it.build_laddr(laddr),
        }
    }

    /// Returns the next entry of the wrapped iterator
    pub fn next(&mut self, mem: &PhysicalMemory, masks: &AddressMasks) -> (r: Option<(bool, PageTableEntry)>)
        requires
            old(self).wf(),
            masks_ok(*masks),
        ensures
            final(self).wf(),
            (r, *final(self)) == alloc_step(*old(self), mem.view(), *masks),
    {
        match self {
            AllocationsIterator::Pml4t(it) => it.next(),
            AllocationsIterator::Pdpt(it) => it.next(mem, masks),
            AllocationsIterator::Pdt(it) => it.next(mem, masks),
            AllocationsIterator::Pt(it) => it.next(mem, masks),
        }
    }
}


/// The weight of the offsets left to the wrapped iterator
pub open spec fn alloc_measure(it: AllocationsIterator) -> int {
    match it {
        AllocationsIterator::Pml4t(i) => remaining(i.pml4t_iter),
        AllocationsIterator::Pdpt(i) => pdpt_measure(i),
        AllocationsIterator::Pdt(i) => pdt_measure(i),
        AllocationsIterator::Pt(i) => pt_measure(i),
    }
}

pub proof fn lemma_alloc_step(it: AllocationsIterator, mem: Map<u64, u64>, masks: AddressMasks)
    requires
        it.wf(),
        masks_ok(masks),
    ensures
        alloc_step(it, mem, masks).1.wf(),
        alloc_step(it, mem, masks).0 is Some ==> alloc_measure(alloc_step(it, mem, masks).1) < alloc_measure(it),
        0 <= alloc_measure(it) < 0x8000_0000_0000_0000,
{
    match it {
        AllocationsIterator::Pml4t(i) => { lemma_table_step(i.pml4t_iter); },
        AllocationsIterator::Pdpt(i) => {
            lemma_pdpt_step(i, mem, masks);
            lemma_table_step(i.pdpt_iter);
            lemma_table_step(i.pml4t_iter.pml4t_iter);
        },
        AllocationsIterator::Pdt(i) => {
            lemma_pdt_step(i, mem, masks);
            lemma_table_step(i.pdt_iter);
            lemma_table_step(i.pdpt_iter.pdpt_iter);
            lemma_table_step(i.pdpt_iter.pml4t_iter.pml4t_iter);
            let a = remaining(i.pdpt_iter.pml4t_iter.pml4t_iter);
            let b = remaining(i.pdpt_iter.pdpt_iter);
            let c = remaining(i.pdt_iter);
            assert((a * 8192 + b) * 8192 + c < 0x8000_0000_0000_0000) by (nonlinear_arith)
                requires 0 <= a <= 4096, 0 <= b <= 4096, 0 <= c <= 4096;
        },
        AllocationsIterator::Pt(i) => {
            lemma_pt_step(i, mem, masks);
            lemma_table_step(i.pt_iter);
            lemma_table_step(i.pdt_iter.pdt_iter);
            lemma_table_step(i.pdt_iter.pdpt_iter.pdpt_iter);
            lemma_table_step(i.pdt_iter.pdpt_iter.pml4t_iter.pml4t_iter);
            let a = remaining(i.pdt_iter.pdpt_iter.pml4t_iter.pml4t_iter);
            let b = remaining(i.pdt_iter.pdpt_iter.pdpt_iter);
            let c = remaining(i.pdt_iter.pdt_iter);
            let d = remaining(i.pt_iter);
            assert(((a * 8192 + b) * 8192 + c) * 8192 + d < 0x8000_0000_0000_0000) by (nonlinear_arith)
                requires 0 <= a <= 4096, 0 <= b <= 4096, 0 <= c <= 4096, 0 <= d <= 4096;
        },
    }
}

/// The indexer with its current offset repeated by the next step
pub open spec fn repeated(o: PageTableEntryOffset) -> PageTableEntryOffset {
    PageTableEntryOffset { next_offset: o.current_offset, ..o }
}

/// The table iterator whose next step returns its current entry
pub open spec fn repeat_iter(t: PageTableIterator) -> PageTableIterator {
    PageTableIterator { entry_offset: repeated(t.entry_offset), ..t }
}

/// The table iterator whose current offset is its next one
pub open spec fn advance_iter(t: PageTableIterator) -> PageTableIterator {
    PageTableIterator { entry_offset: PageTableEntryOffset { current_offset: t.entry_offset.next_offset, ..t.entry_offset }, ..t }
}

/// The position of the index of the PML4T in a logical address
pub const PML4T_SHIFT: u64 = 39;
/// The position of the index of the PDPT in a logical address
pub const PDPT_SHIFT: u64 = 30;
/// The position of the index of the PDT in a logical address
pub const PDT_SHIFT: u64 = 21;
/// The position of the index of the PT in a logical address
pub const PT_SHIFT: u64 = 12;

/// The logical address with the given table index added at the given position
pub open spec fn with_index(laddr: u64, index: u64, shift: u64) -> u64 {
    laddr | ((index & 0x1FF) << shift)
}

/// Adds the index of an entry of the PML4T to a logical address
pub fn with_pml4t_index(laddr: u64, index: u64) -> (r: u64)
    ensures
        r == with_index(laddr, index, PML4T_SHIFT),
{
    laddr | ((index & 0x1FF) << PML4T_SHIFT)
}

/// Adds the index of an entry of a PDPT to a logical address
pub fn with_pdpt_index(laddr: u64, index: u64) -> (r: u64)
    ensures
        r == with_index(laddr, index, PDPT_SHIFT),
{
    laddr | ((index & 0x1FF) << PDPT_SHIFT)
}

/// Adds the index of an entry of a PDT to a logical address
pub fn with_pdt_index(laddr: u64, index: u64) -> (r: u64)
    ensures
        r == with_index(laddr, index, PDT_SHIFT),
{
    laddr | ((index & 0x1FF) << PDT_SHIFT)
}

/// Adds the index of an entry of a PT to a logical address
pub fn with_pt_index(laddr: u64, index: u64) -> (r: u64)
    ensures
        r == with_index(laddr, index, PT_SHIFT),
{
    laddr | ((index & 0x1FF) << PT_SHIFT)
}

/// The index of the entry of a table at the given position of a logical address
pub open spec fn index_at(laddr: u64, shift: u64) -> u64 {
    (laddr >> shift) & 0x1FF
}

/// Returns the index of the PML4T entry mapping a logical address
pub fn pml4t_index(laddr: u64) -> (r: u64)
    ensures
        r == index_at(laddr, PML4T_SHIFT),
        r < 512,
{
    let r = (laddr >> PML4T_SHIFT) & 0x1FF;
    assert(((laddr >> PML4T_SHIFT) & 0x1FF) < 512) by (bit_vector);
    r
}

/// Returns the index of the PDPT entry mapping a logical address
pub fn pdpt_index(laddr: u64) -> (r: u64)
    ensures
        r == index_at(laddr, PDPT_SHIFT),
        r < 512,
{
    let r = (laddr >> PDPT_SHIFT) & 0x1FF;
    assert(((laddr >> PDPT_SHIFT) & 0x1FF) < 512) by (bit_vector);
    r
}

/// Returns the index of the PDT entry mapping a logical address
pub fn pdt_index(laddr: u64) -> (r: u64)
    ensures
        r == index_at(laddr, PDT_SHIFT),
        r < 512,
{
    let r = (laddr >> PDT_SHIFT) & 0x1FF;
    assert(((laddr >> PDT_SHIFT) & 0x1FF) < 512) by (bit_vector);
    r
}

/// Returns the index of the PT entry mapping a logical address
pub fn pt_index(laddr: u64) -> (r: u64)
    ensures
        r == index_at(laddr, PT_SHIFT),
        r < 512,
{
    let r = (laddr >> PT_SHIFT) & 0x1FF;
    assert(((laddr >> PT_SHIFT) & 0x1FF) < 512) by (bit_vector);
    r
}

/// The offsets of the iterators of an [`AllocationsIterator`], from the PML4T down
#[derive(Clone, Copy, Debug)]
pub enum AllocationsIteratorOffsets {
    /// The offset of an [`AllocationsPml4tIterator`]
    Pml4t(PageTableEntryOffset),
    /// The offsets of an [`AllocationsPdptIterator`]
    Pdpt(PageTableEntryOffset, PageTableEntryOffset),
    /// The offsets of an [`AllocationsPdtIterator`]
    Pdt(PageTableEntryOffset, PageTableEntryOffset, PageTableEntryOffset),
    /// The offsets of an [`AllocationsPtIterator`]
    Pt(PageTableEntryOffset, PageTableEntryOffset, PageTableEntryOffset, PageTableEntryOffset),
}

impl AllocationsIteratorOffsets {
    /// Adds the offset of a child table to the offsets, which must not be
    /// those of a PT iterator
    pub fn add(self, rhs: PageTableEntryOffset) -> (r: Self)
        requires
            !(self is Pt),
        ensures
            r == (match self {
                AllocationsIteratorOffsets::Pml4t(a) => AllocationsIteratorOffsets::Pdpt(a, rhs),
                AllocationsIteratorOffsets::Pdpt(a, b) => AllocationsIteratorOffsets::Pdt(a, b, rhs),
                AllocationsIteratorOffsets::Pdt(a, b, c) => AllocationsIteratorOffsets::Pt(a, b, c, rhs),
                AllocationsIteratorOffsets::Pt(a, b, c, d) => AllocationsIteratorOffsets::Pt(a, b, c, d),
            }),
    {
        match self {
            AllocationsIteratorOffsets::Pml4t(a) => AllocationsIteratorOffsets::Pdpt(a, rhs),
            AllocationsIteratorOffsets::Pdpt(a, b) => AllocationsIteratorOffsets::Pdt(a, b, rhs),
            AllocationsIteratorOffsets::Pdt(a, b, c) => AllocationsIteratorOffsets::Pt(a, b, c, rhs),
            AllocationsIteratorOffsets::Pt(a, b, c, d) => AllocationsIteratorOffsets::Pt(a, b, c, d),
        }
    }
}

} // verus!
