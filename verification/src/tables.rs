//! Iterators over the entries of a single page table.

use vstd::prelude::*;
use crate::bitmap::AddressMasks;
use crate::errors::PagingError;
use crate::indexers::{PageTableEntryIndex, PageTableEntryOffset, LIMIT_ENTRY_OFFSET, alloc_offset_start, alloc_offset_end};
use crate::physmem::PhysicalMemory;
use crate::table::{PageTable, PageTableEntry};
use crate::table_type::{PageTableType, child_of};

verus! {

/// The index indexer that walks the same entries as the given offset indexer
pub open spec fn index_of(o: PageTableEntryOffset) -> PageTableEntryIndex {
    PageTableEntryIndex {
        current_index: o.current_offset / 8,
        next_index: o.next_offset / 8,
        start: o.start / 8,
        end: o.end / 8,
        reversed: o.reversed,
    }
}

/// The index indexer walks the same entries as the offset indexer, whatever
/// its current position
pub open spec fn in_sync(i: PageTableEntryIndex, o: PageTableEntryOffset) -> bool {
    i == (PageTableEntryIndex { current_index: i.current_index, ..index_of(o) })
}

pub proof fn lemma_index_of_advanced(i: PageTableEntryIndex, o: PageTableEntryOffset)
    requires
        in_sync(i, o),
        o.next_offset < o.end <= LIMIT_ENTRY_OFFSET,
    ensures
        i.next_index <= i.end,
        in_sync(i.spec_advanced(), o.spec_advanced()),
        i.next_index + 1 <= u64::MAX,
{
    assert((o.next_offset + 8) / 8 == o.next_offset / 8 + 1) by (nonlinear_arith);
    assert(o.next_offset / 8 <= o.end / 8) by (nonlinear_arith)
        requires o.next_offset < o.end;
}

/// Iterates the entries of a page table in the range defined by its indexer
#[derive(Clone, Copy, Debug)]
pub struct PageTableIterator {
    /// The page table being iterated
    pub page_table: PageTable,
    /// The indexer to use for the iteration
    pub entry_offset: PageTableEntryOffset,
}

/// Same as [`PageTableIterator`], used on a borrowed table
#[derive(Clone, Copy, Debug)]
pub struct PageTableRefIterator {
    /// The page table being iterated
    pub page_table: PageTable,
    /// The indexer to use for the iteration
    pub entry_offset: PageTableEntryOffset,
}

/// Same as [`PageTableIterator`], but iterates all the entries of the table
#[derive(Clone, Copy, Debug)]
pub struct UnboundedPageTableIterator {
    /// The page table being iterated
    pub page_table: PageTable,
    /// The indexer to use for the iteration
    pub entry_offset: PageTableEntryOffset,
}

impl PageTableIterator {
    /// Creates a new iterator upon the given table and indexer
    pub fn new(page_table: PageTable, entry_offset: PageTableEntryOffset) -> (r: Self)
        ensures
            r.page_table == page_table,
            r.entry_offset == entry_offset,
    {
        Self { page_table, entry_offset }
    }

    /// Creates a new iterator upon the given table, bounded to the allocation entries
    pub fn allocations(page_table: PageTable) -> (r: Self)
        ensures
            r.page_table == page_table,
            r.entry_offset == PageTableEntryOffset::spec_range(
                alloc_offset_start(page_table.table_type, page_table.table_owner),
                alloc_offset_end(page_table.table_type, page_table.table_owner)),
    {
        let entry_offset = PageTableEntryOffset::allocations(page_table.table_type, page_table.table_owner);
        Self::new(page_table, entry_offset)
    }

    /// Creates a new iterator upon the given table and with the given offset
    pub fn allocations_with_offset(page_table: PageTable, entry_offset: PageTableEntryOffset) -> (r: Self)
        ensures
            r.page_table == page_table,
            r.entry_offset == entry_offset,
    {
        Self::new(page_table, entry_offset)
    }

    /// Creates a new iterator upon the given table and with the given index
    pub fn allocations_with_index(page_table: PageTable, entry_index: PageTableEntryIndex) -> (r: Self)
        requires
            entry_index.current_index * 8 <= u64::MAX,
            entry_index.next_index * 8 <= u64::MAX,
            entry_index.start * 8 <= u64::MAX,
            entry_index.end * 8 <= u64::MAX,
        ensures
            r.page_table == page_table,
            r.entry_offset == (PageTableEntryOffset {
                current_offset: (entry_index.current_index * 8) as u64,
                next_offset: (entry_index.next_index * 8) as u64,
                start: (entry_index.start * 8) as u64,
                end: (entry_index.end * 8) as u64,
                reversed: entry_index.reversed,
            }),
    {
        Self::new(page_table, PageTableEntryOffset::from_index(entry_index))
    }

    /// Creates a new iterator upon the given table, bounded to the tracing entries
    ///
    /// Returns an [`Err`] if the table is a PT.
    pub fn tracing(page_table: PageTable) -> (r: Result<Self, PagingError>)
        ensures
            page_table.table_type == PageTableType::PageTable ==> r == Err::<Self, _>(PagingError::InvalidRequest),
            page_table.table_type != PageTableType::PageTable ==> r is Ok
                && r->Ok_0.page_table == page_table
                && Ok::<_, PagingError>(r->Ok_0.entry_offset) == PageTableEntryOffset::tracing_spec(
                    page_table.table_type, page_table.table_owner),
    {
        let entry_offset = match PageTableEntryOffset::tracing(page_table.table_type, page_table.table_owner) {
            Ok(o) => o,
            Err(e) => return Err(e),
        };
        Ok(Self::new(page_table, entry_offset))
    }

    /// Creates a new iterator upon the given table and with the given offset
    pub fn tracing_with_offset(page_table: PageTable, entry_offset: PageTableEntryOffset) -> (r: Self)
        ensures
            r.page_table == page_table,
            r.entry_offset == entry_offset,
    {
        Self::new(page_table, entry_offset)
    }

    /// Reverses the iteration order
    pub fn reversed(self) -> (r: Self)
        ensures
            r.page_table == self.page_table,
            r.entry_offset == (PageTableEntryOffset { reversed: !self.entry_offset.reversed, ..self.entry_offset }),
    {
        let mut s = self;
        s.entry_offset.reverse();
        s
    }

    /// Replaces the table with the given one and restarts the indexer
    pub fn reset(&mut self, new_table: PageTable)
        ensures
            final(self).page_table == new_table,
            final(self).entry_offset == (PageTableEntryOffset {
                current_offset: old(self).entry_offset.start,
                next_offset: old(self).entry_offset.start,
                ..old(self).entry_offset }),
    {
        self.page_table = new_table;
        self.entry_offset.restart();
    }

    /// Sets the iterator to a state such that it cannot iterate further
    pub fn terminate(&mut self)
        ensures
            final(self).page_table == old(self).page_table,
            final(self).entry_offset == (PageTableEntryOffset {
                current_offset: old(self).entry_offset.end,
                next_offset: old(self).entry_offset.end,
                ..old(self).entry_offset }),
    {
        self.entry_offset.terminate()
    }

    /// Returns the table pointed to by the entry at the current offset,
    /// without any check
    pub fn get_unchecked(&self, mem: &PhysicalMemory, masks: &AddressMasks) -> (r: PageTable)
        requires
            self.entry_offset.reversed ==> self.entry_offset.start <= self.entry_offset.current_offset
                && self.entry_offset.current_offset + 8 <= self.entry_offset.end,
            self.page_table.base_address + self.entry_offset.spec_get() <= u64::MAX,
            child_of(self.page_table.table_type) is Some,
        ensures
            r == self.page_table.entry_at(self.entry_offset.spec_get()).spec_child_table(mem.view(), *masks),
    {
        self.page_table.at_offset_unchecked(&self.entry_offset).into_table(mem, masks)
    }

    /// Checks whether the iterator cannot iterate further
    pub fn cannot_iterate_further(&self) -> (r: bool)
        ensures
            r == !(self.entry_offset.next_offset < self.entry_offset.end),
    {
        !self.entry_offset.has_next()
    }

    /// Returns the current index
    pub fn table_index(&self) -> (r: u64)
        ensures
            r == self.entry_offset.current_offset / 8,
    {
        self.entry_offset.index()
    }

    /// Returns a copy of the indexer with the current offset repeated
    pub fn offset(&self) -> (r: PageTableEntryOffset)
        ensures
            r == (PageTableEntryOffset { next_offset: self.entry_offset.current_offset, ..self.entry_offset }),
    {
        self.entry_offset.duplicate_and_repeat()
    }

    /// Duplicates the iterator as is
    pub fn duplicate(&self) -> (r: Self)
        ensures
            r.page_table == self.page_table,
            r.entry_offset == self.entry_offset,
    {
        Self { page_table: self.page_table, entry_offset: self.entry_offset.duplicate() }
    }

    /// Duplicates the iterator so that the next entry returned is the current one
    pub fn duplicate_and_repeat(&self) -> (r: Self)
        ensures
            r.page_table == self.page_table,
            r.entry_offset == (PageTableEntryOffset { next_offset: self.entry_offset.current_offset, ..self.entry_offset }),
    {
        Self { page_table: self.page_table, entry_offset: self.entry_offset.duplicate_and_repeat() }
    }

    /// Duplicates the iterator so that the next entry returned is the next one
    pub fn duplicate_and_advance(&self) -> (r: Self)
        ensures
            r.page_table == self.page_table,
            r.entry_offset == (PageTableEntryOffset { current_offset: self.entry_offset.next_offset, ..self.entry_offset }),
    {
        Self { page_table: self.page_table, entry_offset: self.entry_offset.duplicate_and_advance() }
    }
}

impl PageTableRefIterator {
    /// Creates a new iterator upon the given table, bounded to the allocation entries
    pub fn allocations(page_table: &PageTable) -> (r: Self)
        ensures
            r.page_table == *page_table,
            r.entry_offset == PageTableEntryOffset::spec_range(
                alloc_offset_start(page_table.table_type, page_table.table_owner),
                alloc_offset_end(page_table.table_type, page_table.table_owner)),
    {
        let entry_offset = PageTableEntryOffset::allocations(page_table.table_type, page_table.table_owner);
        Self { page_table: *page_table, entry_offset }
    }

    /// Creates a new iterator upon the given table and with the given offset
    pub fn allocations_with_offset(page_table: &PageTable, entry_offset: PageTableEntryOffset) -> (r: Self)
        ensures
            r.page_table == *page_table,
            r.entry_offset == entry_offset,
    {
        Self { page_table: *page_table, entry_offset }
    }
}

impl UnboundedPageTableIterator {
    /// Creates a new iterator upon the given table, without any bounds
    pub fn new(table: PageTable) -> (r: Self)
        ensures
            r.page_table == table,
            r.entry_offset == PageTableEntryOffset::spec_range(0, LIMIT_ENTRY_OFFSET),
    {
        Self { page_table: table, entry_offset: PageTableEntryOffset::unbounded() }
    }
}

/// A reversed walk starts within the range and on an entry of it, so that
/// every position it gives back is an entry of the range
pub open spec fn reversal_ok(o: PageTableEntryOffset) -> bool {
    o.reversed ==> o.start <= o.next_offset && (o.end - o.next_offset) % 8 == 0
}

impl PageTableIterator {
    /// The iterator can compute the address of every entry it reaches
    pub open spec fn wf(&self) -> bool {
        &&& self.page_table.fits()
        &&& self.entry_offset.end <= LIMIT_ENTRY_OFFSET
        &&& reversal_ok(self.entry_offset)
    }

    /// Returns the next entry of the table, if any
    pub fn next(&mut self) -> (r: Option<PageTableEntry>)
        requires
            old(self).wf(),
        ensures
            final(self).wf(),
            final(self).page_table == old(self).page_table,
            old(self).entry_offset.next_offset < old(self).entry_offset.end ==>
                r == Some(old(self).page_table.entry_at(old(self).entry_offset.spec_advanced().spec_get()))
                && final(self).entry_offset == old(self).entry_offset.spec_advanced(),
            old(self).entry_offset.next_offset >= old(self).entry_offset.end ==> r is None
                && final(self).entry_offset == (PageTableEntryOffset {
                    current_offset: old(self).entry_offset.next_offset, ..old(self).entry_offset }),
    {
        if let Some(offset) = self.entry_offset.next() {
            let entry_paddr = self.page_table.base_address + offset;
            return Some(PageTableEntry::new(entry_paddr, self.page_table.table_type, self.page_table.table_owner));
        }
        None
    }
}

impl PageTableRefIterator {
    /// The iterator can compute the address of every entry it reaches
    pub open spec fn wf(&self) -> bool {
        &&& self.page_table.fits()
        &&& self.entry_offset.end <= LIMIT_ENTRY_OFFSET
        &&& reversal_ok(self.entry_offset)
    }

    /// Returns the next entry of the table, if any
    pub fn next(&mut self) -> (r: Option<PageTableEntry>)
        requires
            old(self).wf(),
        ensures
            final(self).wf(),
            final(self).page_table == old(self).page_table,
            old(self).entry_offset.next_offset < old(self).entry_offset.end ==>
                r == Some(old(self).page_table.entry_at(old(self).entry_offset.spec_advanced().spec_get()))
                && final(self).entry_offset == old(self).entry_offset.spec_advanced(),
            old(self).entry_offset.next_offset >= old(self).entry_offset.end ==> r is None
                && final(self).entry_offset == (PageTableEntryOffset {
                    current_offset: old(self).entry_offset.next_offset, ..old(self).entry_offset }),
    {
        if let Some(offset) = self.entry_offset.next() {
            let entry_paddr = self.page_table.base_address + offset;
            return Some(PageTableEntry::new(entry_paddr, self.page_table.table_type, self.page_table.table_owner));
        }
        None
    }
}

impl UnboundedPageTableIterator {
    /// The iterator can compute the address of every entry it reaches
    pub open spec fn wf(&self) -> bool {
        &&& self.page_table.fits()
        &&& self.entry_offset.end <= LIMIT_ENTRY_OFFSET
        &&& reversal_ok(self.entry_offset)
    }

    /// Returns the next entry of the table, if any
    pub fn next(&mut self) -> (r: Option<PageTableEntry>)
        requires
            old(self).wf(),
        ensures
            final(self).wf(),
            final(self).page_table == old(self).page_table,
            old(self).entry_offset.next_offset < old(self).entry_offset.end ==>
                r == Some(old(self).page_table.entry_at(old(self).entry_offset.spec_advanced().spec_get()))
                && final(self).entry_offset == old(self).entry_offset.spec_advanced(),
            old(self).entry_offset.next_offset >= old(self).entry_offset.end ==> r is None
                && final(self).entry_offset == (PageTableEntryOffset {
                    current_offset: old(self).entry_offset.next_offset, ..old(self).entry_offset }),
    {
        if let Some(offset) = self.entry_offset.next() {
            let entry_paddr = self.page_table.base_address + offset;
            return Some(PageTableEntry::new(entry_paddr, self.page_table.table_type, self.page_table.table_owner));
        }
        None
    }
}

/// Enumerates the entries of a page table in the range defined by its indexer
#[derive(Clone, Copy, Debug)]
pub struct PageTableEnumerator {
    /// The iterator over the table
    pub table_iter: PageTableIterator,
    /// The indexer used to provide enumeration indexes
    pub entry_index: PageTableEntryIndex,
}

/// Same as [`PageTableEnumerator`], used on a borrowed table
#[derive(Clone, Copy, Debug)]
pub struct PageTableRefEnumerator {
    /// The iterator over the table
    pub table_iter: PageTableRefIterator,
    /// The indexer used to provide enumeration indexes
    pub entry_index: PageTableEntryIndex,
}

/// Same as [`PageTableEnumerator`], but enumerates all the entries of the table
#[derive(Clone, Copy, Debug)]
pub struct UnboundedPageTableEnumerator {
    /// The iterator over the table
    pub table_iter: UnboundedPageTableIterator,
    /// The indexer used to provide enumeration indexes
    pub entry_index: PageTableEntryIndex,
}

impl PageTableEnumerator {
    /// Creates a new enumerator upon the given table, bounded to the allocation entries
    pub fn allocations(page_table: PageTable) -> (r: Self)
        ensures
            r.table_iter.page_table == page_table,
            r.table_iter.entry_offset == PageTableEntryOffset::spec_range(
                alloc_offset_start(page_table.table_type, page_table.table_owner),
                alloc_offset_end(page_table.table_type, page_table.table_owner)),
            r.entry_index == index_of(r.table_iter.entry_offset),
    {
        let entry_index = PageTableEntryIndex::allocations(page_table.table_type, page_table.table_owner);
        let table_iter = PageTableIterator::allocations(page_table);
        Self { table_iter, entry_index }
    }

    /// Creates a new enumerator upon the given iterator
    pub fn from_iter(table_iter: PageTableIterator) -> (r: Self)
        ensures
            r.table_iter == table_iter,
            r.entry_index == index_of(table_iter.entry_offset),
    {
        let entry_index = PageTableEntryIndex::from_offset(table_iter.entry_offset.duplicate());
        Self { table_iter, entry_index }
    }
}

impl PageTableRefEnumerator {
    /// Creates a new enumerator upon the given table, bounded to the allocation entries
    pub fn allocations(page_table: &PageTable) -> (r: Self)
        ensures
            r.table_iter.page_table == *page_table,
            r.table_iter.entry_offset == PageTableEntryOffset::spec_range(
                alloc_offset_start(page_table.table_type, page_table.table_owner),
                alloc_offset_end(page_table.table_type, page_table.table_owner)),
            r.entry_index == index_of(r.table_iter.entry_offset),
    {
        let entry_index = PageTableEntryIndex::allocations(page_table.table_type, page_table.table_owner);
        let table_iter = PageTableRefIterator::allocations(page_table);
        Self { table_iter, entry_index }
    }

    /// Creates a new enumerator upon the given iterator
    pub fn from_iter(table_iter: PageTableRefIterator) -> (r: Self)
        ensures
            r.table_iter == table_iter,
            r.entry_index == index_of(table_iter.entry_offset),
    {
        let entry_index = PageTableEntryIndex::from_offset(table_iter.entry_offset.duplicate());
        Self { table_iter, entry_index }
    }
}

impl UnboundedPageTableEnumerator {
    /// Creates a new enumerator upon the given table, without any bounds
    pub fn new(table: PageTable) -> (r: Self)
        ensures
            r.table_iter.page_table == table,
            r.table_iter.entry_offset == PageTableEntryOffset::spec_range(0, LIMIT_ENTRY_OFFSET),
            r.entry_index == index_of(r.table_iter.entry_offset),
    {
        Self { table_iter: UnboundedPageTableIterator::new(table), entry_index: PageTableEntryIndex::unbounded() }
    }

    /// Creates a new enumerator upon the given iterator
    pub fn from_iter(table_iter: UnboundedPageTableIterator) -> (r: Self)
        ensures
            r.table_iter == table_iter,
            r.entry_index == index_of(table_iter.entry_offset),
    {
        let entry_index = PageTableEntryIndex::from_offset(table_iter.entry_offset.duplicate());
        Self { table_iter, entry_index }
    }
}

impl PageTableEnumerator {
    /// The enumeration indexes follow the entries returned
    pub open spec fn wf(&self) -> bool {
        self.table_iter.wf() && in_sync(self.entry_index, self.table_iter.entry_offset)
    }

    /// Returns the next entry of the table together with its index, if any
    pub fn next(&mut self) -> (r: Option<(u64, PageTableEntry)>)
        requires
            old(self).wf(),
        ensures
            final(self).wf(),
            final(self).table_iter.page_table == old(self).table_iter.page_table,
            old(self).table_iter.entry_offset.next_offset < old(self).table_iter.entry_offset.end ==> r == Some((
                old(self).entry_index.spec_advanced().spec_get(),
                old(self).table_iter.page_table.entry_at(old(self).table_iter.entry_offset.spec_advanced().spec_get()),
            )),
            old(self).table_iter.entry_offset.next_offset >= old(self).table_iter.entry_offset.end ==> r is None,
    {
        proof {
            if old(self).table_iter.entry_offset.next_offset < old(self).table_iter.entry_offset.end {
                lemma_index_of_advanced(old(self).entry_index, old(self).table_iter.entry_offset);
            }
        }
        if let Some(entry) = self.table_iter.next() {
            let idx = self.entry_index.next_unchecked();
            return Some((idx, entry));
        }
        None
    }
}

impl PageTableRefEnumerator {
    /// The enumeration indexes follow the entries returned
    pub open spec fn wf(&self) -> bool {
        self.table_iter.wf() && in_sync(self.entry_index, self.table_iter.entry_offset)
    }

    /// Returns the next entry of the table together with its index, if any
    pub fn next(&mut self) -> (r: Option<(u64, PageTableEntry)>)
        requires
            old(self).wf(),
        ensures
            final(self).wf(),
            final(self).table_iter.page_table == old(self).table_iter.page_table,
            old(self).table_iter.entry_offset.next_offset < old(self).table_iter.entry_offset.end ==> r == Some((
                old(self).entry_index.spec_advanced().spec_get(),
                old(self).table_iter.page_table.entry_at(old(self).table_iter.entry_offset.spec_advanced().spec_get()),
            )),
            old(self).table_iter.entry_offset.next_offset >= old(self).table_iter.entry_offset.end ==> r is None,
    {
        proof {
            if old(self).table_iter.entry_offset.next_offset < old(self).table_iter.entry_offset.end {
                lemma_index_of_advanced(old(self).entry_index, old(self).table_iter.entry_offset);
            }
        }
        if let Some(entry) = self.table_iter.next() {
            let idx = self.entry_index.next_unchecked();
            return Some((idx, entry));
        }
        None
    }
}

impl UnboundedPageTableEnumerator {
    /// The enumeration indexes follow the entries returned
    pub open spec fn wf(&self) -> bool {
        self.table_iter.wf() && in_sync(self.entry_index, self.table_iter.entry_offset)
    }

    /// Returns the next entry of the table together with its index, if any
    pub fn next(&mut self) -> (r: Option<(u64, PageTableEntry)>)
        requires
            old(self).wf(),
        ensures
            final(self).wf(),
            final(self).table_iter.page_table == old(self).table_iter.page_table,
            old(self).table_iter.entry_offset.next_offset < old(self).table_iter.entry_offset.end ==> r == Some((
                old(self).entry_index.spec_advanced().spec_get(),
                old(self).table_iter.page_table.entry_at(old(self).table_iter.entry_offset.spec_advanced().spec_get()),
            )),
            old(self).table_iter.entry_offset.next_offset >= old(self).table_iter.entry_offset.end ==> r is None,
    {
        proof {
            if old(self).table_iter.entry_offset.next_offset < old(self).table_iter.entry_offset.end {
                lemma_index_of_advanced(old(self).entry_index, old(self).table_iter.entry_offset);
            }
        }
        if let Some(entry) = self.table_iter.next() {
            let idx = self.entry_index.next_unchecked();
            return Some((idx, entry));
        }
        None
    }
}


/// The `k`-th entry visited among the allocation entries of a table
pub open spec fn alloc_entry(t: PageTable, k: int) -> PageTableEntry {
    t.entry_at((alloc_offset_start(t.table_type, t.table_owner) + 8 * k) as u64)
}

/// The `k`-th entry visited exists among the allocation entries of a table
pub open spec fn alloc_entry_exists(t: PageTable, k: int) -> bool {
    0 <= k && alloc_offset_start(t.table_type, t.table_owner) + 8 * k < alloc_offset_end(t.table_type, t.table_owner)
}

/// The `k`-th allocation entry is the first one without the *Present* bit
pub open spec fn is_first_available(t: PageTable, mem: &PhysicalMemory, k: int) -> bool {
    &&& alloc_entry_exists(t, k)
    &&& !alloc_entry(t, k).is_present(mem.view())
    &&& forall|j: int| #![trigger alloc_entry(t, j)] 0 <= j < k ==> alloc_entry(t, j).is_present(mem.view())
}

impl PageTable {
    /// Creates an iterator upon the table, bounded to the allocation entries
    pub fn iterate_allocations(self) -> (r: PageTableIterator)
        ensures
            r.page_table == self,
            r.entry_offset == PageTableEntryOffset::spec_range(
                alloc_offset_start(self.table_type, self.table_owner),
                alloc_offset_end(self.table_type, self.table_owner)),
    {
        PageTableIterator::allocations(self)
    }

    /// Creates an iterator upon the borrowed table, bounded to the allocation entries
    pub fn iterate_allocations_ref(&self) -> (r: PageTableRefIterator)
        ensures
            r.page_table == *self,
            r.entry_offset == PageTableEntryOffset::spec_range(
                alloc_offset_start(self.table_type, self.table_owner),
                alloc_offset_end(self.table_type, self.table_owner)),
    {
        PageTableRefIterator::allocations(self)
    }

    /// Creates an iterator upon all the entries of the table
    pub fn iterate_unbounded(self) -> (r: UnboundedPageTableIterator)
        ensures
            r.page_table == self,
            r.entry_offset == PageTableEntryOffset::spec_range(0, LIMIT_ENTRY_OFFSET),
    {
        UnboundedPageTableIterator::new(self)
    }

    /// Creates an enumerator upon the table, bounded to the allocation entries
    pub fn enumerate_allocations(self) -> (r: PageTableEnumerator)
        ensures
            r.table_iter.page_table == self,
            r.table_iter.entry_offset == PageTableEntryOffset::spec_range(
                alloc_offset_start(self.table_type, self.table_owner),
                alloc_offset_end(self.table_type, self.table_owner)),
            r.entry_index == index_of(r.table_iter.entry_offset),
    {
        PageTableEnumerator::from_iter(self.iterate_allocations())
    }

    /// Creates an enumerator upon the borrowed table, bounded to the allocation entries
    pub fn enumerate_allocations_ref(&self) -> (r: PageTableRefEnumerator)
        ensures
            r.table_iter.page_table == *self,
            r.table_iter.entry_offset == PageTableEntryOffset::spec_range(
                alloc_offset_start(self.table_type, self.table_owner),
                alloc_offset_end(self.table_type, self.table_owner)),
            r.entry_index == index_of(r.table_iter.entry_offset),
    {
        PageTableRefEnumerator::from_iter(self.iterate_allocations_ref())
    }

    /// Creates an enumerator upon all the entries of the table
    pub fn enumerate_unbounded(self) -> (r: UnboundedPageTableEnumerator)
        ensures
            r.table_iter.page_table == self,
            r.table_iter.entry_offset == PageTableEntryOffset::spec_range(0, LIMIT_ENTRY_OFFSET),
            r.entry_index == index_of(r.table_iter.entry_offset),
    {
        UnboundedPageTableEnumerator::new(self)
    }

    /// Returns the first allocation entry of the table which is not marked as present
    pub fn find_available_allocation_entry(&self, mem: &PhysicalMemory) -> (r: Option<PageTableEntry>)
        requires
            self.fits(),
        ensures
            r is None ==> forall|k: int| #![trigger alloc_entry(*self, k)] alloc_entry_exists(*self, k)
                ==> alloc_entry(*self, k).is_present(mem.view()),
            r matches Some(e) ==> exists|k: int| #![trigger alloc_entry(*self, k)]
                is_first_available(*self, mem, k) && e == alloc_entry(*self, k),
    {
        let mut iter = self.iterate_allocations_ref();
        let ghost start = iter.entry_offset.start as int;
        let ghost mut k: int = 0;
        loop
            invariant_except_break
                iter.wf(),
                iter.page_table == *self,
                iter.entry_offset.start == start,
                start == alloc_offset_start(self.table_type, self.table_owner),
                iter.entry_offset.end == alloc_offset_end(self.table_type, self.table_owner),
                !iter.entry_offset.reversed,
                k >= 0,
                iter.entry_offset.next_offset == start + 8 * k,
                forall|j: int| #![trigger alloc_entry(*self, j)] 0 <= j < k ==> alloc_entry(*self, j).is_present(mem.view()),
            ensures
                forall|j: int| #![trigger alloc_entry(*self, j)] alloc_entry_exists(*self, j)
                    ==> alloc_entry(*self, j).is_present(mem.view()),
            decreases iter.entry_offset.end - iter.entry_offset.next_offset,
        {
            let ghost before = iter.entry_offset;
            match iter.next() {
                Some(entry) => {
                    proof {
                        assert(entry == alloc_entry(*self, k));
                    }
                    if !entry.bitmap(mem).present() {
                        proof {
                            assert(is_first_available(*self, mem, k));
                        }
                        return Some(entry);
                    }
                    proof { k = k + 1; }
                },
                None => {
                    proof {
                        assert forall|j: int| #![trigger alloc_entry(*self, j)] alloc_entry_exists(*self, j)
                            implies alloc_entry(*self, j).is_present(mem.view()) by {
                            assert(j < k);
                        }
                    }
                    break;
                },
            }
        }
        None
    }
}

} // verus!
