//! Indexers used to walk the entries of a page table, by index or by offset.

use vstd::prelude::*;
use crate::errors::PagingError;
use crate::memory::MemoryOwner;
use crate::table_type::PageTableType;

verus! {

/// The index of the first entry in a page table
pub const FIRST_ENTRY_INDEX: u64 = 0;

/// The index of the entry in the middle of a page table
pub const MIDDLE_ENTRY_INDEX: u64 = 127;

/// The index of the last entry in a page table
pub const LAST_ENTRY_INDEX: u64 = 511;

/// The limit for the indexes of a page table
pub const LIMIT_ENTRY_INDEX: u64 = 512;

/// The offset of the first entry in a page table
pub const FIRST_ENTRY_OFFSET: u64 = 0x000;

/// The offset of the entry in the middle of a page table
pub const MIDDLE_ENTRY_OFFSET: u64 = 0x800;

/// The offset of the last entry in a page table
pub const LAST_ENTRY_OFFSET: u64 = 0xFF8;

/// The limit for the offsets of a page table
pub const LIMIT_ENTRY_OFFSET: u64 = 0x1000;

/// The offset, in the kernel's PDPT, of the entry of the kernel's code tables
pub const KERNEL_CODE_TABLES_PDPT_OFFSET: u64 = 0xFF0;

/// The offset, in the PML4T, of the entry of the tracing tables
pub const TRACING_TABLES_PML4T_OFFSET: u64 = LAST_ENTRY_OFFSET;

pub const KERNEL_ALLOCATIONS_PML4T_FIRST_INDEX: u64 = 1;
pub const KERNEL_ALLOCATIONS_PML4T_LIMIT_INDEX: u64 = 510;
pub const KERNEL_ALLOCATIONS_PML4T_FIRST_OFFSET: u64 = 0x008;
pub const KERNEL_ALLOCATIONS_PML4T_LIMIT_OFFSET: u64 = 0xFF0;
pub const USER_ALLOCATIONS_PML4T_FIRST_INDEX: u64 = 0;
pub const USER_ALLOCATIONS_PML4T_LIMIT_INDEX: u64 = 511;
pub const USER_ALLOCATIONS_PML4T_FIRST_OFFSET: u64 = 0x000;
pub const USER_ALLOCATIONS_PML4T_LIMIT_OFFSET: u64 = 0xFF8;

/// The size of an offset increment needed to reach the next entry in a page table
pub const TABLE_OFFSET_INCREMENT_SIZE: u64 = 0x008;

/// The size of an index increment needed to reach the next entry in a page table
pub const TABLE_INDEX_INCREMENT_SIZE: u64 = 1;

/// The first index of the allocation entries of a table
pub open spec fn alloc_index_start(t: PageTableType, owner: MemoryOwner) -> u64 {
    match t {
        PageTableType::PageMapLevel4Table => match owner {
            MemoryOwner::Kernel => KERNEL_ALLOCATIONS_PML4T_FIRST_INDEX,
            MemoryOwner::User => USER_ALLOCATIONS_PML4T_FIRST_INDEX,
        },
        _ => FIRST_ENTRY_INDEX,
    }
}

/// The limit index of the allocation entries of a table
pub open spec fn alloc_index_end(t: PageTableType, owner: MemoryOwner) -> u64 {
    match t {
        PageTableType::PageMapLevel4Table => match owner {
            MemoryOwner::Kernel => KERNEL_ALLOCATIONS_PML4T_LIMIT_INDEX,
            MemoryOwner::User => USER_ALLOCATIONS_PML4T_LIMIT_INDEX,
        },
        _ => LIMIT_ENTRY_INDEX,
    }
}

/// The first offset of the allocation entries of a table
pub open spec fn alloc_offset_start(t: PageTableType, owner: MemoryOwner) -> u64 {
    match t {
        PageTableType::PageMapLevel4Table => match owner {
            MemoryOwner::Kernel => KERNEL_ALLOCATIONS_PML4T_FIRST_OFFSET,
            MemoryOwner::User => USER_ALLOCATIONS_PML4T_FIRST_OFFSET,
        },
        _ => FIRST_ENTRY_OFFSET,
    }
}

/// The limit offset of the allocation entries of a table
pub open spec fn alloc_offset_end(t: PageTableType, owner: MemoryOwner) -> u64 {
    match t {
        PageTableType::PageMapLevel4Table => match owner {
            MemoryOwner::Kernel => KERNEL_ALLOCATIONS_PML4T_LIMIT_OFFSET,
            MemoryOwner::User => USER_ALLOCATIONS_PML4T_LIMIT_OFFSET,
        },
        _ => LIMIT_ENTRY_OFFSET,
    }
}

/// The first offset of the tracing entries of a table (meaningless for a PT)
pub open spec fn tracing_start(t: PageTableType, owner: MemoryOwner) -> u64 {
    match t {
        PageTableType::PageMapLevel4Table => TRACING_TABLES_PML4T_OFFSET,
        _ => FIRST_ENTRY_OFFSET,
    }
}

/// The limit of the tracing entries of a table (meaningless for a PT), where
/// `limit` bounds a whole table
pub open spec fn tracing_end(t: PageTableType, owner: MemoryOwner, limit: u64) -> u64 {
    match t {
        PageTableType::PageMapLevel4Table => LIMIT_ENTRY_OFFSET,
        PageTableType::PageDirectoryPointerTable => match owner {
            MemoryOwner::Kernel => KERNEL_CODE_TABLES_PDPT_OFFSET,
            MemoryOwner::User => LAST_ENTRY_OFFSET,
        },
        _ => limit,
    }
}

/// Used to iterate through the entries of a page table using indexes
///
/// The range of valid indexes is `[start, end)`.
#[derive(Clone, Copy, PartialEq, Eq, Structural, Debug)]
pub struct PageTableEntryIndex {
    /// The current index
    pub current_index: u64,
    /// The next index
    pub next_index: u64,
    pub start: u64,
    pub end: u64,
    /// Whether the iteration is in reverse order
    pub reversed: bool,
}

/// Used to iterate through the entries of a page table using offsets
///
/// The range of valid offsets is `[start, end)`.
#[derive(Clone, Copy, PartialEq, Eq, Structural, Debug)]
pub struct PageTableEntryOffset {
    /// The current offset
    pub current_offset: u64,
    /// The next offset
    pub next_offset: u64,
    pub start: u64,
    pub end: u64,
    /// Whether the iteration is in reverse order
    pub reversed: bool,
}

impl PageTableEntryIndex {
    /// The fresh indexer over the range `[start, end)`
    pub open spec fn spec_range(start: u64, end: u64) -> Self {
        PageTableEntryIndex { current_index: start, next_index: start, start, end, reversed: false }
    }

    /// Creates an indexer limited to the range `[start, end)`
    pub fn range(start: u64, end: u64) -> (r: Self)
        ensures
            r == (PageTableEntryIndex { current_index: start, next_index: start, start, end, reversed: false }),
    {
        PageTableEntryIndex { current_index: start, next_index: start, start, end, reversed: false }
    }

    /// Creates an un-bounded indexer
    pub fn unbounded() -> (r: Self)
        ensures
            r == (PageTableEntryIndex { current_index: FIRST_ENTRY_INDEX, next_index: FIRST_ENTRY_INDEX, start: FIRST_ENTRY_INDEX, end: LIMIT_ENTRY_INDEX, reversed: false }),
    {
        Self::range(FIRST_ENTRY_INDEX, LIMIT_ENTRY_INDEX)
    }

    /// Creates an un-bounded indexer, with the position set to `entry`
    pub fn unbounded_with_index(entry: u64) -> (r: Self)
        ensures
            r == (PageTableEntryIndex { current_index: entry, next_index: entry, start: FIRST_ENTRY_INDEX, end: LIMIT_ENTRY_INDEX, reversed: false }),
    {
        Self::unbounded().with_index(entry)
    }

    /// Creates an indexer for the allocation tables only, limited by the
    /// bounds defined by the given table type and owner
    pub fn allocations(table_type: PageTableType, owner: MemoryOwner) -> (r: Self)
        ensures
            r == PageTableEntryIndex::spec_range(alloc_index_start(table_type, owner), alloc_index_end(table_type, owner)),
    {
        match table_type {
            PageTableType::PageMapLevel4Table => match owner {
                MemoryOwner::Kernel => Self::range(KERNEL_ALLOCATIONS_PML4T_FIRST_INDEX, KERNEL_ALLOCATIONS_PML4T_LIMIT_INDEX),
                MemoryOwner::User => Self::range(USER_ALLOCATIONS_PML4T_FIRST_INDEX, USER_ALLOCATIONS_PML4T_LIMIT_INDEX),
            },
            _ => Self::unbounded(),
        }
    }

    /// Creates an indexer for the allocation tables only, limited by the
    /// bounds defined by the given table type and owner, with the position
    /// set to `entry`
    pub fn allocations_with_index(entry: u64, table_type: PageTableType, owner: MemoryOwner) -> (r: Self)
        ensures
            r == (PageTableEntryIndex {
                current_index: entry,
                next_index: entry,
                start: alloc_index_start(table_type, owner),
                end: alloc_index_end(table_type, owner),
                reversed: false,
            }),
    {
        Self::allocations(table_type, owner).with_index(entry)
    }

    /// Creates an indexer for the tracing tables only, limited by the bounds
    /// defined by the given table type and owner
    ///
    /// Returns an [`Err`] for a PT, which holds no tracing entries.
    pub fn tracing(table_type: PageTableType, owner: MemoryOwner) -> (r: Result<Self, PagingError>)
        ensures
            table_type == PageTableType::PageTable ==> r == Err::<Self, _>(PagingError::InvalidRequest),
            table_type != PageTableType::PageTable ==> r == Ok::<Self, PagingError>(
                PageTableEntryIndex::spec_range(tracing_start(table_type, owner), tracing_end(table_type, owner, LIMIT_ENTRY_INDEX))),
    {
        match table_type {
            PageTableType::PageMapLevel4Table => Ok(Self::range(TRACING_TABLES_PML4T_OFFSET, LIMIT_ENTRY_OFFSET)),
            PageTableType::PageDirectoryPointerTable => match owner {
                MemoryOwner::Kernel => Ok(Self::range(FIRST_ENTRY_OFFSET, KERNEL_CODE_TABLES_PDPT_OFFSET)),
                MemoryOwner::User => Ok(Self::range(FIRST_ENTRY_OFFSET, LAST_ENTRY_OFFSET)),
            },
            PageTableType::PageDirectoryTable => Ok(Self::unbounded()),
            PageTableType::PageTable => Err(PagingError::InvalidRequest),
        }
    }

    /// Sets the position to `entry`: the next call to `next()` returns it
    pub fn with_index(self, entry: u64) -> (r: Self)
        ensures
            r == (PageTableEntryIndex { current_index: entry, next_index: entry, ..self }),
    {
        let mut s = self;
        s.current_index = entry;
        s.next_index = entry;
        s
    }

    /// Checks whether the given position is inside the bounds defined by the range
    pub fn check_bounds_of(&self, pos: u64) -> (r: bool)
        ensures
            r == (pos < self.end),
    {
        pos < self.end
    }

    /// Sets the iteration to proceed in reverse order
    pub fn reverse(&mut self)
        ensures
            *final(self) == (PageTableEntryIndex { reversed: !old(self).reversed, ..*old(self) }),
    {
        self.reversed = !self.reversed;
    }

    /// Restarts the position, setting it to the start of the range
    pub fn restart(&mut self)
        ensures
            *final(self) == (PageTableEntryIndex { current_index: old(self).start, next_index: old(self).start, ..*old(self) }),
    {
        self.current_index = self.start;
        self.next_index = self.start;
    }

    /// Terminates the position, setting it to the end of the range
    pub fn terminate(&mut self)
        ensures
            *final(self) == (PageTableEntryIndex { current_index: old(self).end, next_index: old(self).end, ..*old(self) }),
    {
        self.current_index = self.end;
        self.next_index = self.end;
    }

    /// Advances the position by one entry
    pub fn increment(&mut self)
        requires
            old(self).next_index + TABLE_INDEX_INCREMENT_SIZE <= u64::MAX,
        ensures
            *final(self) == (PageTableEntryIndex { current_index: old(self).next_index, next_index: (old(self).next_index + TABLE_INDEX_INCREMENT_SIZE) as u64, ..*old(self) }),
    {
        self.current_index = self.next_index;
        self.next_index = self.next_index + TABLE_INDEX_INCREMENT_SIZE;
    }

    /// Checks whether the current position is inside the range
    pub fn is_inside_bounds(&self) -> (r: bool)
        ensures
            r == (self.current_index < self.end),
    {
        self.check_bounds_of(self.current_index)
    }

    /// Checks whether the next position will be inside the range
    pub fn has_next(&self) -> (r: bool)
        ensures
            r == (self.next_index < self.end),
    {
        self.check_bounds_of(self.next_index)
    }

    /// The position returned for the current state: when the iteration is
    /// reversed, the positions of the range are given from the last down to the first
    pub open spec fn spec_get(self) -> u64 {
        if self.reversed { (self.start + self.end - 1 - self.current_index) as u64 } else { self.current_index }
    }

    /// Returns the current position, if inside the range
    pub fn get(&self) -> (r: Option<u64>)
        requires
            self.reversed && self.current_index < self.end ==> self.start <= self.current_index,
        ensures
            r == (if self.current_index < self.end { Some(self.spec_get()) } else { None }),
    {
        match self.is_inside_bounds() {
            true => Some(self.get_unchecked()),
            false => None,
        }
    }

    /// Returns the current position, without checking the bounds
    pub fn get_unchecked(&self) -> (r: u64)
        requires
            self.reversed ==> self.start <= self.current_index < self.end,
        ensures
            r == self.spec_get(),
    {
        match self.reversed {
            false => self.current_index,
            true => self.start + (self.end - 1 - self.current_index),
        }
    }

    /// Returns the next position in the range, if any
    pub fn next(&mut self) -> (r: Option<u64>)
        requires
            old(self).next_index < old(self).end ==> old(self).next_index + TABLE_INDEX_INCREMENT_SIZE <= u64::MAX,
            old(self).reversed && old(self).next_index < old(self).end ==> old(self).start <= old(self).next_index,
        ensures
            old(self).next_index < old(self).end ==> r == Some(old(self).spec_advanced().spec_get())
                && *final(self) == old(self).spec_advanced(),
            old(self).next_index >= old(self).end ==> r is None
                && *final(self) == (PageTableEntryIndex { current_index: old(self).next_index, ..*old(self) }),
    {
        if self.has_next() {
            return Some(self.next_unchecked());
        }
        self.current_index = self.next_index;
        None
    }

    /// The state after advancing by one entry
    pub open spec fn spec_advanced(self) -> Self {
        PageTableEntryIndex { current_index: self.next_index, next_index: (self.next_index + TABLE_INDEX_INCREMENT_SIZE) as u64, ..self }
    }

    /// Returns the next position, without checking the bounds
    pub fn next_unchecked(&mut self) -> (r: u64)
        requires
            old(self).next_index + TABLE_INDEX_INCREMENT_SIZE <= u64::MAX,
            old(self).reversed ==> old(self).start <= old(self).next_index < old(self).end,
        ensures
            *final(self) == old(self).spec_advanced(),
            r == old(self).spec_advanced().spec_get(),
    {
        self.increment();
        match self.reversed {
            false => self.current_index,
            true => self.start + (self.end - 1 - self.current_index),
        }
    }

    /// Duplicates the indexer as is
    pub fn duplicate(&self) -> (r: Self)
        ensures
            r == *self,
    {
        PageTableEntryIndex { current_index: self.current_index, next_index: self.next_index, start: self.start, end: self.end, reversed: self.reversed }
    }

    /// Duplicates the indexer so that the next call to `next()` returns the
    /// current position again
    pub fn duplicate_and_repeat(&self) -> (r: Self)
        ensures
            r == (PageTableEntryIndex { next_index: self.current_index, ..*self }),
    {
        PageTableEntryIndex { current_index: self.current_index, next_index: self.current_index, start: self.start, end: self.end, reversed: self.reversed }
    }

    /// Duplicates the indexer so that the next call to `next()` returns the
    /// next position
    pub fn duplicate_and_advance(&self) -> (r: Self)
        ensures
            r == (PageTableEntryIndex { current_index: self.next_index, ..*self }),
    {
        PageTableEntryIndex { current_index: self.next_index, next_index: self.next_index, start: self.start, end: self.end, reversed: self.reversed }
    }
}

impl PageTableEntryOffset {
    /// The fresh indexer over the range `[start, end)`
    pub open spec fn spec_range(start: u64, end: u64) -> Self {
        PageTableEntryOffset { current_offset: start, next_offset: start, start, end, reversed: false }
    }

    /// Creates an indexer limited to the range `[start, end)`
    pub fn range(start: u64, end: u64) -> (r: Self)
        ensures
            r == (PageTableEntryOffset { current_offset: start, next_offset: start, start, end, reversed: false }),
    {
        PageTableEntryOffset { current_offset: start, next_offset: start, start, end, reversed: false }
    }

    /// Creates an un-bounded indexer
    pub fn unbounded() -> (r: Self)
        ensures
            r == (PageTableEntryOffset { current_offset: FIRST_ENTRY_OFFSET, next_offset: FIRST_ENTRY_OFFSET, start: FIRST_ENTRY_OFFSET, end: LIMIT_ENTRY_OFFSET, reversed: false }),
    {
        Self::range(FIRST_ENTRY_OFFSET, LIMIT_ENTRY_OFFSET)
    }

    /// Creates an un-bounded indexer, with the position set to `entry`
    pub fn unbounded_with_offset(entry: u64) -> (r: Self)
        ensures
            r == (PageTableEntryOffset { current_offset: entry, next_offset: entry, start: FIRST_ENTRY_OFFSET, end: LIMIT_ENTRY_OFFSET, reversed: false }),
    {
        Self::unbounded().with_offset(entry)
    }

    /// Creates an indexer for the allocation tables only, limited by the
    /// bounds defined by the given table type and owner
    pub fn allocations(table_type: PageTableType, owner: MemoryOwner) -> (r: Self)
        ensures
            r == PageTableEntryOffset::spec_range(alloc_offset_start(table_type, owner), alloc_offset_end(table_type, owner)),
    {
        match table_type {
            PageTableType::PageMapLevel4Table => match owner {
                MemoryOwner::Kernel => Self::range(KERNEL_ALLOCATIONS_PML4T_FIRST_OFFSET, KERNEL_ALLOCATIONS_PML4T_LIMIT_OFFSET),
                MemoryOwner::User => Self::range(USER_ALLOCATIONS_PML4T_FIRST_OFFSET, USER_ALLOCATIONS_PML4T_LIMIT_OFFSET),
            },
            _ => Self::unbounded(),
        }
    }

    /// Creates an indexer for the allocation tables only, limited by the
    /// bounds defined by the given table type and owner, with the position
    /// set to `entry`
    pub fn allocations_with_offset(entry: u64, table_type: PageTableType, owner: MemoryOwner) -> (r: Self)
        ensures
            r == (PageTableEntryOffset {
                current_offset: entry,
                next_offset: entry,
                start: alloc_offset_start(table_type, owner),
                end: alloc_offset_end(table_type, owner),
                reversed: false,
            }),
    {
        Self::allocations(table_type, owner).with_offset(entry)
    }

    /// Creates an indexer for the tracing tables only, limited by the bounds
    /// defined by the given table type and owner
    ///
    /// Returns an [`Err`] for a PT, which holds no tracing entries.
    pub fn tracing(table_type: PageTableType, owner: MemoryOwner) -> (r: Result<Self, PagingError>)
        ensures
            table_type == PageTableType::PageTable ==> r == Err::<Self, _>(PagingError::InvalidRequest),
            table_type != PageTableType::PageTable ==> r == Ok::<Self, PagingError>(
                PageTableEntryOffset::spec_range(tracing_start(table_type, owner), tracing_end(table_type, owner, LIMIT_ENTRY_OFFSET))),
    {
        match table_type {
            PageTableType::PageMapLevel4Table => Ok(Self::range(TRACING_TABLES_PML4T_OFFSET, LIMIT_ENTRY_OFFSET)),
            PageTableType::PageDirectoryPointerTable => match owner {
                MemoryOwner::Kernel => Ok(Self::range(FIRST_ENTRY_OFFSET, KERNEL_CODE_TABLES_PDPT_OFFSET)),
                MemoryOwner::User => Ok(Self::range(FIRST_ENTRY_OFFSET, LAST_ENTRY_OFFSET)),
            },
            PageTableType::PageDirectoryTable => Ok(Self::unbounded()),
            PageTableType::PageTable => Err(PagingError::InvalidRequest),
        }
    }

    /// Sets the position to `entry`: the next call to `next()` returns it
    pub fn with_offset(self, entry: u64) -> (r: Self)
        ensures
            r == (PageTableEntryOffset { current_offset: entry, next_offset: entry, ..self }),
    {
        let mut s = self;
        s.current_offset = entry;
        s.next_offset = entry;
        s
    }

    /// Checks whether the given position is inside the bounds defined by the range
    pub fn check_bounds_of(&self, pos: u64) -> (r: bool)
        ensures
            r == (pos < self.end),
    {
        pos < self.end
    }

    /// Sets the iteration to proceed in reverse order
    pub fn reverse(&mut self)
        ensures
            *final(self) == (PageTableEntryOffset { reversed: !old(self).reversed, ..*old(self) }),
    {
        self.reversed = !self.reversed;
    }

    /// Restarts the position, setting it to the start of the range
    pub fn restart(&mut self)
        ensures
            *final(self) == (PageTableEntryOffset { current_offset: old(self).start, next_offset: old(self).start, ..*old(self) }),
    {
        self.current_offset = self.start;
        self.next_offset = self.start;
    }

    /// Terminates the position, setting it to the end of the range
    pub fn terminate(&mut self)
        ensures
            *final(self) == (PageTableEntryOffset { current_offset: old(self).end, next_offset: old(self).end, ..*old(self) }),
    {
        self.current_offset = self.end;
        self.next_offset = self.end;
    }

    /// Advances the position by one entry
    pub fn increment(&mut self)
        requires
            old(self).next_offset + TABLE_OFFSET_INCREMENT_SIZE <= u64::MAX,
        ensures
            *final(self) == (PageTableEntryOffset { current_offset: old(self).next_offset, next_offset: (old(self).next_offset + TABLE_OFFSET_INCREMENT_SIZE) as u64, ..*old(self) }),
    {
        self.current_offset = self.next_offset;
        self.next_offset = self.next_offset + TABLE_OFFSET_INCREMENT_SIZE;
    }

    /// Checks whether the current position is inside the range
    pub fn is_inside_bounds(&self) -> (r: bool)
        ensures
            r == (self.current_offset < self.end),
    {
        self.check_bounds_of(self.current_offset)
    }

    /// Checks whether the next position will be inside the range
    pub fn has_next(&self) -> (r: bool)
        ensures
            r == (self.next_offset < self.end),
    {
        self.check_bounds_of(self.next_offset)
    }

    /// The position returned for the current state: when the iteration is
    /// reversed, the positions of the range are given from the last down to the first
    pub open spec fn spec_get(self) -> u64 {
        if self.reversed { (self.start + self.end - 8 - self.current_offset) as u64 } else { self.current_offset }
    }

    /// Returns the current position, if inside the range
    pub fn get(&self) -> (r: Option<u64>)
        requires
            self.reversed && self.current_offset < self.end ==> self.start <= self.current_offset
                && self.current_offset + TABLE_OFFSET_INCREMENT_SIZE <= self.end,
        ensures
            r == (if self.current_offset < self.end { Some(self.spec_get()) } else { None }),
    {
        match self.is_inside_bounds() {
            true => Some(self.get_unchecked()),
            false => None,
        }
    }

    /// Returns the current position, without checking the bounds
    pub fn get_unchecked(&self) -> (r: u64)
        requires
            self.reversed ==> self.start <= self.current_offset && self.current_offset + TABLE_OFFSET_INCREMENT_SIZE <= self.end,
        ensures
            r == self.spec_get(),
    {
        match self.reversed {
            false => self.current_offset,
            true => self.start + (self.end - TABLE_OFFSET_INCREMENT_SIZE - self.current_offset),
        }
    }

    /// Returns the next position in the range, if any
    pub fn next(&mut self) -> (r: Option<u64>)
        requires
            old(self).next_offset < old(self).end ==> old(self).next_offset + TABLE_OFFSET_INCREMENT_SIZE <= u64::MAX,
            old(self).reversed && old(self).next_offset < old(self).end ==> old(self).start <= old(self).next_offset
                && old(self).next_offset + TABLE_OFFSET_INCREMENT_SIZE <= old(self).end,
        ensures
            old(self).next_offset < old(self).end ==> r == Some(old(self).spec_advanced().spec_get())
                && *final(self) == old(self).spec_advanced(),
            old(self).next_offset >= old(self).end ==> r is None
                && *final(self) == (PageTableEntryOffset { current_offset: old(self).next_offset, ..*old(self) }),
    {
        if self.has_next() {
            return Some(self.next_unchecked());
        }
        self.current_offset = self.next_offset;
        None
    }

    /// The state after advancing by one entry
    pub open spec fn spec_advanced(self) -> Self {
        PageTableEntryOffset { current_offset: self.next_offset, next_offset: (self.next_offset + TABLE_OFFSET_INCREMENT_SIZE) as u64, ..self }
    }

    /// Returns the next position, without checking the bounds
    pub fn next_unchecked(&mut self) -> (r: u64)
        requires
            old(self).next_offset + TABLE_OFFSET_INCREMENT_SIZE <= u64::MAX,
            old(self).reversed ==> old(self).start <= old(self).next_offset
                && old(self).next_offset + TABLE_OFFSET_INCREMENT_SIZE <= old(self).end,
        ensures
            *final(self) == old(self).spec_advanced(),
            r == old(self).spec_advanced().spec_get(),
    {
        self.increment();
        match self.reversed {
            false => self.current_offset,
            true => self.start + (self.end - TABLE_OFFSET_INCREMENT_SIZE - self.current_offset),
        }
    }

    /// Duplicates the indexer as is
    pub fn duplicate(&self) -> (r: Self)
        ensures
            r == *self,
    {
        PageTableEntryOffset { current_offset: self.current_offset, next_offset: self.next_offset, start: self.start, end: self.end, reversed: self.reversed }
    }

    /// Duplicates the indexer so that the next call to `next()` returns the
    /// current position again
    pub fn duplicate_and_repeat(&self) -> (r: Self)
        ensures
            r == (PageTableEntryOffset { next_offset: self.current_offset, ..*self }),
    {
        PageTableEntryOffset { current_offset: self.current_offset, next_offset: self.current_offset, start: self.start, end: self.end, reversed: self.reversed }
    }

    /// Duplicates the indexer so that the next call to `next()` returns the
    /// next position
    pub fn duplicate_and_advance(&self) -> (r: Self)
        ensures
            r == (PageTableEntryOffset { current_offset: self.next_offset, ..*self }),
    {
        PageTableEntryOffset { current_offset: self.next_offset, next_offset: self.next_offset, start: self.start, end: self.end, reversed: self.reversed }
    }
}

impl PageTableEntryIndex {
    /// Returns the current index, without bound checking
    pub fn index(&self) -> (r: u64)
        ensures
            r == self.current_index,
    {
        self.current_index
    }

    /// Returns the current index converted to an offset, without bound checking
    pub fn offset(&self) -> (r: u64)
        requires
            self.current_index * TABLE_OFFSET_INCREMENT_SIZE <= u64::MAX,
        ensures
            r == self.current_index * TABLE_OFFSET_INCREMENT_SIZE,
    {
        self.current_index * TABLE_OFFSET_INCREMENT_SIZE
    }

    /// Converts an offset indexer into an index indexer
    pub fn from_offset(offset: PageTableEntryOffset) -> (r: Self)
        ensures
            r == (PageTableEntryIndex {
                current_index: offset.current_offset / TABLE_OFFSET_INCREMENT_SIZE,
                next_index: offset.next_offset / TABLE_OFFSET_INCREMENT_SIZE,
                start: offset.start / TABLE_OFFSET_INCREMENT_SIZE,
                end: offset.end / TABLE_OFFSET_INCREMENT_SIZE,
                reversed: offset.reversed,
            }),
    {
        PageTableEntryIndex {
            current_index: offset.current_offset / TABLE_OFFSET_INCREMENT_SIZE,
            next_index: offset.next_offset / TABLE_OFFSET_INCREMENT_SIZE,
            start: offset.start / TABLE_OFFSET_INCREMENT_SIZE,
            end: offset.end / TABLE_OFFSET_INCREMENT_SIZE,
            reversed: offset.reversed,
        }
    }
}

impl PageTableEntryOffset {
    /// The result of [`PageTableEntryOffset::tracing()`]
    pub open spec fn tracing_spec(table_type: PageTableType, owner: MemoryOwner) -> Result<Self, PagingError> {
        if table_type == PageTableType::PageTable {
            Err(PagingError::InvalidRequest)
        } else {
            Ok(PageTableEntryOffset::spec_range(tracing_start(table_type, owner), tracing_end(table_type, owner, LIMIT_ENTRY_OFFSET)))
        }
    }

    /// Returns the current offset, without bound checking
    pub fn offset(&self) -> (r: u64)
        ensures
            r == self.current_offset,
    {
        self.current_offset
    }

    /// Returns the current offset converted to an index, without bound checking
    pub fn index(&self) -> (r: u64)
        ensures
            r == self.current_offset / TABLE_OFFSET_INCREMENT_SIZE,
    {
        self.current_offset / TABLE_OFFSET_INCREMENT_SIZE
    }

    /// Converts an index indexer into an offset indexer
    pub fn from_index(index: PageTableEntryIndex) -> (r: Self)
        requires
            index.current_index * TABLE_OFFSET_INCREMENT_SIZE <= u64::MAX,
            index.next_index * TABLE_OFFSET_INCREMENT_SIZE <= u64::MAX,
            index.start * TABLE_OFFSET_INCREMENT_SIZE <= u64::MAX,
            index.end * TABLE_OFFSET_INCREMENT_SIZE <= u64::MAX,
        ensures
            r == (PageTableEntryOffset {
                current_offset: (index.current_index * TABLE_OFFSET_INCREMENT_SIZE) as u64,
                next_offset: (index.next_index * TABLE_OFFSET_INCREMENT_SIZE) as u64,
                start: (index.start * TABLE_OFFSET_INCREMENT_SIZE) as u64,
                end: (index.end * TABLE_OFFSET_INCREMENT_SIZE) as u64,
                reversed: index.reversed,
            }),
    {
        PageTableEntryOffset {
            current_offset: index.current_index * TABLE_OFFSET_INCREMENT_SIZE,
            next_offset: index.next_index * TABLE_OFFSET_INCREMENT_SIZE,
            start: index.start * TABLE_OFFSET_INCREMENT_SIZE,
            end: index.end * TABLE_OFFSET_INCREMENT_SIZE,
            reversed: index.reversed,
        }
    }
}

/// Converting an indexer to offsets and back gives the same indexer
pub proof fn lemma_index_offset_roundtrip(index: PageTableEntryIndex)
    requires
        index.current_index * 8 <= u64::MAX,
        index.next_index * 8 <= u64::MAX,
        index.start * 8 <= u64::MAX,
        index.end * 8 <= u64::MAX,
    ensures
        ({
            let o = PageTableEntryOffset {
                current_offset: (index.current_index * 8) as u64,
                next_offset: (index.next_index * 8) as u64,
                start: (index.start * 8) as u64,
                end: (index.end * 8) as u64,
                reversed: index.reversed,
            };
            PageTableEntryIndex {
                current_index: o.current_offset / 8,
                next_index: o.next_offset / 8,
                start: o.start / 8,
                end: o.end / 8,
                reversed: o.reversed,
            } == index
        }),
{
}

} // verus!
