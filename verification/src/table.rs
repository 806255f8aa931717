//! Page tables and their entries, held in physical memory.

use vstd::prelude::*;
use crate::bitmap::{AddressMasks, Bitmap, has, P_BIT, PS_BIT};
use crate::errors::{AddressError, PagingError};
use crate::indexers::{PageTableEntryIndex, PageTableEntryOffset, TABLE_OFFSET_INCREMENT_SIZE, LIMIT_ENTRY_OFFSET};
use crate::memory::MemoryOwner;
use crate::page::PageType;
use crate::physmem::{PhysicalMemory, word_at};
use crate::table_type::{PageTableType, child_of};

verus! {

/// Expresses the compatibility between a table entry and a page type
#[derive(Clone, Copy, PartialEq, Eq, Structural, Debug)]
pub enum Compatibility {
    Compatible,
    TooSmall,
    TooBig,
}

/// How a page of the given type fits in a table of the given type
pub open spec fn compatibility_of(t: PageTableType, p: PageType) -> Compatibility {
    match t {
        PageTableType::PageMapLevel4Table => Compatibility::TooBig,
        PageTableType::PageDirectoryPointerTable => match p {
            PageType::OneGiB => Compatibility::Compatible,
            _ => Compatibility::TooBig,
        },
        PageTableType::PageDirectoryTable => match p {
            PageType::OneGiB => Compatibility::TooSmall,
            PageType::TwoMiB => Compatibility::Compatible,
            PageType::FourKiB => Compatibility::TooBig,
        },
        PageTableType::PageTable => match p {
            PageType::FourKiB => Compatibility::Compatible,
            _ => Compatibility::TooSmall,
        },
    }
}

/// Represents an entry of a page table
#[derive(Clone, Copy, PartialEq, Eq, Structural, Debug)]
pub struct PageTableEntry {
    /// The physical address of the entry: the address of its table plus its offset
    pub entry: u64,
    /// The type of table this entry belongs to
    pub table_type: PageTableType,
    /// The owner of the table
    pub table_owner: MemoryOwner,
}

impl PageTableEntry {
    /// The bits stored in the entry
    pub open spec fn bits(self, mem: Map<u64, u64>) -> u64 {
        word_at(mem, self.entry)
    }

    /// Whether the entry has the *Present* bit
    pub open spec fn is_present(self, mem: Map<u64, u64>) -> bool {
        has(self.bits(mem), P_BIT)
    }

    /// Whether the entry has the *Page Size* bit
    pub open spec fn is_huge(self, mem: Map<u64, u64>) -> bool {
        has(self.bits(mem), PS_BIT)
    }

    /// Creates a new entry with the given data
    pub fn new(entry: u64, table_type: PageTableType, table_owner: MemoryOwner) -> (r: Self)
        ensures
            r == (PageTableEntry { entry, table_type, table_owner }),
    {
        Self { entry, table_type, table_owner }
    }

    /// Returns the physical address of the entry in the parent table
    pub fn address_in_table(&self) -> (r: u64)
        ensures
            r == self.entry,
    {
        self.entry
    }

    /// Returns the bitmap held by the entry
    pub fn bitmap(&self, mem: &PhysicalMemory) -> (r: Bitmap)
        ensures
            r@ == self.bits(mem.view()),
    {
        Bitmap::from_bits(mem.read(self.entry))
    }

    /// Writes the given bitmap in the entry
    pub fn set_bitmap(&self, mem: &mut PhysicalMemory, bitmap: Bitmap)
        ensures
            final(mem).view() == old(mem).view().insert(self.entry, bitmap@),
    {
        mem.write(self.entry, bitmap.bits())
    }

    /// Checks the compatibility of this table entry with the given page type
    ///
    /// Returns [`Compatibility::TooBig`] if the table indexes bigger entries than
    /// the page, [`Compatibility::Compatible`] if it indexes pages of that type,
    /// or [`Compatibility::TooSmall`] if it indexes smaller entries.
    pub fn is_compatible(&self, page_type: PageType) -> (r: Compatibility)
        ensures
            r == compatibility_of(self.table_type, page_type),
    {
        match self.table_type {
            PageTableType::PageMapLevel4Table => Compatibility::TooBig,
            PageTableType::PageDirectoryPointerTable => match page_type {
                PageType::OneGiB => Compatibility::Compatible,
                _ => Compatibility::TooBig,
            },
            PageTableType::PageDirectoryTable => match page_type {
                PageType::OneGiB => Compatibility::TooSmall,
                PageType::TwoMiB => Compatibility::Compatible,
                PageType::FourKiB => Compatibility::TooBig,
            },
            PageTableType::PageTable => match page_type {
                PageType::FourKiB => Compatibility::Compatible,
                _ => Compatibility::TooSmall,
            },
        }
    }

    /// The table pointed to by the entry, without any check
    pub open spec fn spec_child_table(self, mem: Map<u64, u64>, masks: AddressMasks) -> PageTable {
        PageTable {
            base_address: self.bits(mem) & masks.mask_4k,
            table_type: child_of(self.table_type).unwrap(),
            table_owner: self.table_owner,
        }
    }

    /// Returns the table pointed to by the entry, whose table must be able to
    /// have child tables
    pub fn into_table(&self, mem: &PhysicalMemory, masks: &AddressMasks) -> (r: PageTable)
        requires
            child_of(self.table_type) is Some,
        ensures
            r == self.spec_child_table(mem.view(), *masks),
    {
        PageTable {
            base_address: self.bitmap(mem).address(PageType::FourKiB, masks),
            table_type: self.table_type.child_table_type_or_panic(),
            table_owner: self.table_owner,
        }
    }
}

/// The table pointed to by an entry, or why it cannot be had: the entry
/// is null, not present or huge, its address is null, or its table cannot
/// have child tables
pub open spec fn table_of_entry(entry: PageTableEntry, mem: Map<u64, u64>, masks: AddressMasks) -> Result<PageTable, PagingError> {
    if entry.entry == 0 {
        Err(PagingError::AddressError(AddressError::NullAddress))
    } else if !entry.is_present(mem) {
        Err(PagingError::TableNotPresent)
    } else if entry.is_huge(mem) {
        Err(PagingError::InvalidRequest)
    } else if entry.bits(mem) & masks.mask_4k == 0 {
        Err(PagingError::AddressError(AddressError::NullAddress))
    } else if child_of(entry.table_type) is None {
        Err(PagingError::IncompatibleTable)
    } else {
        Ok(entry.spec_child_table(mem, masks))
    }
}

/// Represents a page table: a PML4T, a PDPT, a PDT or a PT
#[derive(Clone, Copy, PartialEq, Eq, Structural, Debug)]
pub struct PageTable {
    /// The physical address of the table
    pub base_address: u64,
    /// The type of table
    pub table_type: PageTableType,
    /// The owner of the table
    pub table_owner: MemoryOwner,
}

impl PageTable {
    /// The entry at the given offset
    pub open spec fn entry_at(self, offset: u64) -> PageTableEntry {
        PageTableEntry {
            entry: (self.base_address + offset) as u64,
            table_type: self.table_type,
            table_owner: self.table_owner,
        }
    }

    /// All the offsets of the table can be added to its address
    pub open spec fn fits(self) -> bool {
        self.base_address + LIMIT_ENTRY_OFFSET <= u64::MAX
    }

    /// Creates a new table with the given data
    pub fn new(base_address: u64, table_type: PageTableType, table_owner: MemoryOwner) -> (r: Self)
        ensures
            r == (PageTable { base_address, table_type, table_owner }),
    {
        Self { base_address, table_type, table_owner }
    }

    /// Returns the `Page Map Level 4 Table` whose address is stored in the
    /// `CR3` register, which must not be null
    pub fn pml4t(cr3: u64, table_owner: MemoryOwner) -> (r: Self)
        requires
            cr3 != 0,
        ensures
            r == (PageTable { base_address: cr3, table_type: PageTableType::PageMapLevel4Table, table_owner }),
    {
        Self::new(cr3, PageTableType::PageMapLevel4Table, table_owner)
    }

    /// Returns the entry at the given index, or [`None`] if the index is out
    /// of the bounds of the indexer
    pub fn at_index(&self, index: &PageTableEntryIndex) -> (r: Option<PageTableEntry>)
        requires
            index.reversed && index.current_index < index.end ==> index.start <= index.current_index,
            self.base_address + index.end * 8 <= u64::MAX,
        ensures
            r == (if index.current_index < index.end {
                Some(self.entry_at((index.spec_get() * 8) as u64))
            } else {
                None
            }),
    {
        if let Some(idx) = index.get() {
            let entry_paddr = self.base_address + (idx * 8);
            return Some(PageTableEntry::new(entry_paddr, self.table_type, self.table_owner));
        }
        None
    }

    /// Returns the entry at the given offset, or [`None`] if the offset is out
    /// of the bounds of the indexer
    pub fn at_offset(&self, offset: &PageTableEntryOffset) -> (r: Option<PageTableEntry>)
        requires
            offset.reversed && offset.current_offset < offset.end ==> offset.start <= offset.current_offset
                && offset.current_offset + 8 <= offset.end,
            self.base_address + offset.end <= u64::MAX,
        ensures
            r == (if offset.current_offset < offset.end {
                Some(self.entry_at(offset.spec_get()))
            } else {
                None
            }),
    {
        if let Some(ofs) = offset.get() {
            let entry = self.base_address + ofs;
            return Some(PageTableEntry::new(entry, self.table_type, self.table_owner));
        }
        None
    }

    /// Returns the entry at the given offset, without checking the bounds
    pub fn at_offset_unchecked(&self, offset: &PageTableEntryOffset) -> (r: PageTableEntry)
        requires
            offset.reversed ==> offset.start <= offset.current_offset && offset.current_offset + 8 <= offset.end,
            self.base_address + offset.spec_get() <= u64::MAX,
        ensures
            r == self.entry_at(offset.spec_get()),
    {
        let entry = self.base_address + offset.get_unchecked();
        PageTableEntry::new(entry, self.table_type, self.table_owner)
    }

    /// Returns the table pointed to by the given entry
    ///
    /// Returns an [`Err`] if the address of the entry is null, if the entry
    /// does not have the *Present* bit, if it has the *Page Size* bit, if the
    /// address it holds is null, or if its table cannot have child tables.
    pub fn try_from_entry(entry: PageTableEntry, mem: &PhysicalMemory, masks: &AddressMasks) -> (r: Result<PageTable, PagingError>)
        ensures
            r == table_of_entry(entry, mem.view(), *masks),
    {
        if entry.address_in_table() == 0 {
            return Err(PagingError::AddressError(AddressError::NullAddress));
        }
        let entry_bitmap = entry.bitmap(mem);
        if !entry_bitmap.present() {
            return Err(PagingError::TableNotPresent);
        } else if entry_bitmap.page_size() {
            return Err(PagingError::InvalidRequest);
        }
        let table_address = entry_bitmap.address(PageType::FourKiB, masks);
        if table_address == 0 {
            return Err(PagingError::AddressError(AddressError::NullAddress));
        }
        let table_type = match entry.table_type.child_table_type() {
            Ok(t) => t,
            Err(e) => return Err(e),
        };
        Ok(PageTable { base_address: table_address, table_type, table_owner: entry.table_owner })
    }
}

} // verus!
