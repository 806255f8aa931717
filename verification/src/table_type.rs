//! The types of page tables and their relations.

use vstd::prelude::*;
use crate::errors::PagingError;
use crate::page::PageType;

verus! {

/// Defines the type of a page table
#[derive(Clone, Copy, PartialEq, Eq, Structural, Debug)]
pub enum PageTableType {
    PageMapLevel4Table,
    PageDirectoryPointerTable,
    PageDirectoryTable,
    PageTable,
}

/// The parent table type, if the table can have one
pub open spec fn parent_of(t: PageTableType) -> Option<PageTableType> {
    match t {
        PageTableType::PageMapLevel4Table => None,
        PageTableType::PageDirectoryPointerTable => Some(PageTableType::PageMapLevel4Table),
        PageTableType::PageDirectoryTable => Some(PageTableType::PageDirectoryPointerTable),
        PageTableType::PageTable => Some(PageTableType::PageDirectoryTable),
    }
}

/// The child table type, if the table can have one
pub open spec fn child_of(t: PageTableType) -> Option<PageTableType> {
    match t {
        PageTableType::PageMapLevel4Table => Some(PageTableType::PageDirectoryPointerTable),
        PageTableType::PageDirectoryPointerTable => Some(PageTableType::PageDirectoryTable),
        PageTableType::PageDirectoryTable => Some(PageTableType::PageTable),
        PageTableType::PageTable => None,
    }
}

/// The table type that directly indexes pages of the given type
pub open spec fn table_of_page(p: PageType) -> PageTableType {
    match p {
        PageType::OneGiB => PageTableType::PageDirectoryPointerTable,
        PageType::TwoMiB => PageTableType::PageDirectoryTable,
        PageType::FourKiB => PageTableType::PageTable,
    }
}

/// The page type directly indexed by the given table type, if any
pub open spec fn page_of_table(t: PageTableType) -> Option<PageType> {
    match t {
        PageTableType::PageMapLevel4Table => None,
        PageTableType::PageDirectoryPointerTable => Some(PageType::OneGiB),
        PageTableType::PageDirectoryTable => Some(PageType::TwoMiB),
        PageTableType::PageTable => Some(PageType::FourKiB),
    }
}

impl PageTableType {
    /// Returns the parent table type
    ///
    /// Returns an [`Err`] if the table cannot have parent tables
    pub fn parent_table_type(&self) -> (r: Result<Self, PagingError>)
        ensures
            r == (match parent_of(*self) {
                Some(t) => Ok(t),
                None => Err(PagingError::IncompatibleTable),
            }),
    {
        match self {
            PageTableType::PageMapLevel4Table => Err(PagingError::IncompatibleTable),
            PageTableType::PageDirectoryPointerTable => Ok(PageTableType::PageMapLevel4Table),
            PageTableType::PageDirectoryTable => Ok(PageTableType::PageDirectoryPointerTable),
            PageTableType::PageTable => Ok(PageTableType::PageDirectoryTable),
        }
    }

    /// Returns the parent table type of a table that has one
    pub fn parent_table_type_or_panic(&self) -> (r: Self)
        requires
            parent_of(*self) is Some,
        ensures
            parent_of(*self) == Some(r),
    {
        match self {
            PageTableType::PageDirectoryPointerTable => PageTableType::PageMapLevel4Table,
            PageTableType::PageDirectoryTable => PageTableType::PageDirectoryPointerTable,
            _ => PageTableType::PageDirectoryTable,
        }
    }

    /// Returns the child table type
    ///
    /// Returns an [`Err`] if the table cannot have child tables
    pub fn child_table_type(&self) -> (r: Result<Self, PagingError>)
        ensures
            r == (match child_of(*self) {
                Some(t) => Ok(t),
                None => Err(PagingError::IncompatibleTable),
            }),
    {
        match self {
            PageTableType::PageMapLevel4Table => Ok(PageTableType::PageDirectoryPointerTable),
            PageTableType::PageDirectoryPointerTable => Ok(PageTableType::PageDirectoryTable),
            PageTableType::PageDirectoryTable => Ok(PageTableType::PageTable),
            PageTableType::PageTable => Err(PagingError::IncompatibleTable),
        }
    }

    /// Returns the child table type of a table that has one
    pub fn child_table_type_or_panic(&self) -> (r: Self)
        requires
            child_of(*self) is Some,
        ensures
            child_of(*self) == Some(r),
    {
        match self {
            PageTableType::PageMapLevel4Table => PageTableType::PageDirectoryPointerTable,
            PageTableType::PageDirectoryPointerTable => PageTableType::PageDirectoryTable,
            _ => PageTableType::PageTable,
        }
    }

    /// Returns the table type that directly indexes pages of the given type
    pub fn from_page_type(child_page_type: PageType) -> (r: Self)
        ensures
            r == table_of_page(child_page_type),
    {
        match child_page_type {
            PageType::OneGiB => PageTableType::PageDirectoryPointerTable,
            PageType::TwoMiB => PageTableType::PageDirectoryTable,
            PageType::FourKiB => PageTableType::PageTable,
        }
    }
}

impl PageType {
    /// Returns the page type that can be directly indexed in the given table type
    ///
    /// Returns an [`Err`] if the table cannot directly store pages.
    pub fn try_from_table_type(table_type: PageTableType) -> (r: Result<PageType, PagingError>)
        ensures
            r == (match page_of_table(table_type) {
                Some(p) => Ok(p),
                None => Err(PagingError::IncompatiblePage),
            }),
    {
        match table_type {
            PageTableType::PageMapLevel4Table => Err(PagingError::IncompatiblePage),
            PageTableType::PageDirectoryPointerTable => Ok(PageType::OneGiB),
            PageTableType::PageDirectoryTable => Ok(PageType::TwoMiB),
            PageTableType::PageTable => Ok(PageType::FourKiB),
        }
    }
}

/// Proves that the parent and the child table types are inverse of each other
pub proof fn lemma_parent_child_inverse(t: PageTableType)
    ensures
        child_of(t) matches Some(c) ==> parent_of(c) == Some(t),
        parent_of(t) matches Some(p) ==> child_of(p) == Some(t),
{
}

} // verus!
