//! Errors raised while handling pages, tables and tracing pages.

use vstd::prelude::*;

verus! {

/// Describes an error regarding addresses
#[derive(Clone, Copy, PartialEq, Eq, Structural, Debug)]
pub enum AddressError {
    /// The address is null
    NullAddress,
}

/// Describes an error occured while handling a single tracing page
#[derive(Clone, Copy, PartialEq, Eq, Structural, Debug)]
pub enum TracingPageError {
    EntryIsNone,
    EntryIsFree,
    EntryIsTaken,
    EntrySizeMismatch,
    LeftShiftPreconditions,
    RightShiftPreconditions,
    SplitPreconditions,
    MergePreconditions,
    PushPreconditions,
    AppendPreconditions,
    PopPreconditions,
    ExtractPreconditions,
    RemovePreconditions,
    DropPreconditions,
    ResizePreconditions,
    InvalidRequest,
    InternalFailure,
    NotFound,
}

/// Describes an error occured while handling the tracing pages of an owner
#[derive(Clone, Copy, PartialEq, Eq, Structural, Debug)]
pub enum TracingError {
    CleanupPreconditions,
    NotFound,
    InternalFailure,
    TracingPageError(TracingPageError),
    InvalidRequest,
}

/// Describes an error occured while handling pages
#[derive(Clone, Copy, PartialEq, Eq, Structural, Debug)]
pub enum PagingError {
    /// Something deadly wrong happened while processing
    InternalFailure,
    /// An entry index or offset is out of the bounds of a page or an iterator
    OutOfBounds,
    /// A page cannot be reached
    PageFault,
    /// The entry corresponding to the table does not have the present bit set
    TableNotPresent,
    /// The entry corresponding to the page does not have the present bit set
    PageNotPresent,
    /// The entry corresponding to the page does not have the page-size bit set
    PageNotHuge,
    /// Requested to insert a page which size is not compatible with the choosen table
    IncompatiblePage,
    /// Requested to insert a table which size is not compatible with the choosen table
    IncompatibleTable,
    /// Requested to insert an entry in a table which does not have any free slot
    NoSlotAvailable,
    /// Requested to allocate space for an entry, but there is no space available
    NoSpaceAvailable,
    /// Resolving the physical address of a logical one failed during page allocation
    AddressTranslationFailed,
    /// Something failed while allocating memory for a new page or table
    AllocationFailure,
    /// Something failed while deallocating memory for a new page or table
    DeallocationFailure,
    /// Something wrong happened while cleaning up unused pages
    CleanupFailure,
    /// Something wrong happened while dealing with the tracing tables
    TracingError(TracingError),
    /// Error regarding pages addresses
    AddressError(AddressError),
    /// The request is not valid (to be only used when no other variant better applies)
    InvalidRequest,
}

impl TracingError {
    /// Wraps a [`TracingPageError`]
    pub fn from_page_error(e: TracingPageError) -> (r: Self)
        ensures
            r == TracingError::TracingPageError(e),
    {
        TracingError::TracingPageError(e)
    }
}

impl PagingError {
    /// Wraps a [`TracingError`]
    pub fn from_tracing_error(e: TracingError) -> (r: Self)
        ensures
            r == PagingError::TracingError(e),
    {
        PagingError::TracingError(e)
    }

    /// Wraps a [`TracingPageError`], through a [`TracingError`]
    pub fn from_page_error(e: TracingPageError) -> (r: Self)
        ensures
            r == PagingError::TracingError(TracingError::TracingPageError(e)),
    {
        Self::from_tracing_error(TracingError::from_page_error(e))
    }

    /// Wraps an [`AddressError`]
    pub fn from_address_error(e: AddressError) -> (r: Self)
        ensures
            r == PagingError::AddressError(e),
    {
        PagingError::AddressError(e)
    }
}

/// The message the kernel prints when it stops on a paging error
pub open spec fn paging_error_message(e: PagingError) -> Seq<char> {
    match e {
        PagingError::InternalFailure => "PagingError: InternalFailure"@,
        PagingError::OutOfBounds => "PagingError: OutOfBounds"@,
        PagingError::PageFault => "PagingError: PageFault"@,
        PagingError::TableNotPresent => "PagingError: TableNotPresent"@,
        PagingError::PageNotPresent => "PagingError: PageNotPresent"@,
        PagingError::PageNotHuge => "PagingError: PageNotHuge"@,
        PagingError::IncompatiblePage => "PagingError: IncompatiblePage"@,
        PagingError::IncompatibleTable => "PagingError: IncompatibleTable"@,
        PagingError::NoSlotAvailable => "PagingError: NoSlotAvailable"@,
        PagingError::NoSpaceAvailable => "PagingError: NoSpaceAvailable"@,
        PagingError::AddressTranslationFailed => "PagingError: AddressTranslationFailed"@,
        PagingError::AllocationFailure => "PagingError: AllocationFailure"@,
        PagingError::DeallocationFailure => "PagingError: DeallocationFailure"@,
        PagingError::CleanupFailure => "PagingError: CleanupFailure"@,
        PagingError::TracingError(_) => "PagingError: TracingError"@,
        PagingError::AddressError(_) => "PagingError: AddressError"@,
        PagingError::InvalidRequest => "PagingError: InvalidRequest"@,
    }
}

impl PagingError {
    /// The message the kernel prints when it stops on this error
    pub fn panic_message(&self) -> (r: &'static str)
        ensures
            r@ == paging_error_message(*self),
    {
        match self {
            PagingError::InternalFailure => "PagingError: InternalFailure",
            PagingError::OutOfBounds => "PagingError: OutOfBounds",
            PagingError::PageFault => "PagingError: PageFault",
            PagingError::TableNotPresent => "PagingError: TableNotPresent",
            PagingError::PageNotPresent => "PagingError: PageNotPresent",
            PagingError::PageNotHuge => "PagingError: PageNotHuge",
            PagingError::IncompatiblePage => "PagingError: IncompatiblePage",
            PagingError::IncompatibleTable => "PagingError: IncompatibleTable",
            PagingError::NoSlotAvailable => "PagingError: NoSlotAvailable",
            PagingError::NoSpaceAvailable => "PagingError: NoSpaceAvailable",
            PagingError::AddressTranslationFailed => "PagingError: AddressTranslationFailed",
            PagingError::AllocationFailure => "PagingError: AllocationFailure",
            PagingError::DeallocationFailure => "PagingError: DeallocationFailure",
            PagingError::CleanupFailure => "PagingError: CleanupFailure",
            PagingError::TracingError(_) => "PagingError: TracingError",
            PagingError::AddressError(_) => "PagingError: AddressError",
            PagingError::InvalidRequest => "PagingError: InvalidRequest",
        }
    }
}

/// The message the kernel prints when it stops on an error of the tracing pages
pub open spec fn tracing_error_message(e: TracingError) -> Seq<char> {
    match e {
        TracingError::CleanupPreconditions => "TracingError: CleanupPreconditions"@,
        TracingError::NotFound => "TracingError: NotFound"@,
        TracingError::InternalFailure => "TracingError: InternalFailure"@,
        TracingError::TracingPageError(_) => "TracingError: TracingPageError"@,
        TracingError::InvalidRequest => "TracingError: InvalidRequest"@,
    }
}

impl TracingError {
    /// The message the kernel prints when it stops on this error
    pub fn panic_message(&self) -> (r: &'static str)
        ensures
            r@ == tracing_error_message(*self),
    {
        match self {
            TracingError::CleanupPreconditions => "TracingError: CleanupPreconditions",
            TracingError::NotFound => "TracingError: NotFound",
            TracingError::InternalFailure => "TracingError: InternalFailure",
            TracingError::TracingPageError(_) => "TracingError: TracingPageError",
            TracingError::InvalidRequest => "TracingError: InvalidRequest",
        }
    }
}

/// The message the kernel prints when it stops on an error of a tracing page
pub open spec fn tracing_page_error_message(e: TracingPageError) -> Seq<char> {
    match e {
        TracingPageError::EntryIsNone => "TracingPageError: EntryIsNone"@,
        TracingPageError::EntryIsFree => "TracingPageError: EntryIsFree"@,
        TracingPageError::EntryIsTaken => "TracingPageError: EntryIsTaken"@,
        TracingPageError::EntrySizeMismatch => "TracingPageError: EntrySizeMismatch"@,
        TracingPageError::LeftShiftPreconditions => "TracingPageError: LeftShiftPreconditions"@,
        TracingPageError::RightShiftPreconditions => "TracingPageError: RightShiftPreconditions"@,
        TracingPageError::SplitPreconditions => "TracingPageError: SplitPreconditions"@,
        TracingPageError::MergePreconditions => "TracingPageError: MergePreconditions"@,
        TracingPageError::PushPreconditions => "TracingPageError: PushPreconditions"@,
        TracingPageError::AppendPreconditions => "TracingPageError: AppendPreconditions"@,
        TracingPageError::PopPreconditions => "TracingPageError: PopPreconditions"@,
        TracingPageError::ExtractPreconditions => "TracingPageError: ExtractPreconditions"@,
        TracingPageError::RemovePreconditions => "TracingPageError: RemovePreconditions"@,
        TracingPageError::DropPreconditions => "TracingPageError: DropPreconditions"@,
        TracingPageError::ResizePreconditions => "TracingPageError: ResizePreconditions"@,
        TracingPageError::InvalidRequest => "TracingPageError: InvalidRequest"@,
        TracingPageError::InternalFailure => "TracingPageError: InternalFailure"@,
        TracingPageError::NotFound => "TracingPageError: NotFound"@,
    }
}

impl TracingPageError {
    /// The message the kernel prints when it stops on this error
    pub fn panic_message(&self) -> (r: &'static str)
        ensures
            r@ == tracing_page_error_message(*self),
    {
        match self {
            TracingPageError::EntryIsNone => "TracingPageError: EntryIsNone",
            TracingPageError::EntryIsFree => "TracingPageError: EntryIsFree",
            TracingPageError::EntryIsTaken => "TracingPageError: EntryIsTaken",
            TracingPageError::EntrySizeMismatch => "TracingPageError: EntrySizeMismatch",
            TracingPageError::LeftShiftPreconditions => "TracingPageError: LeftShiftPreconditions",
            TracingPageError::RightShiftPreconditions => "TracingPageError: RightShiftPreconditions",
            TracingPageError::SplitPreconditions => "TracingPageError: SplitPreconditions",
            TracingPageError::MergePreconditions => "TracingPageError: MergePreconditions",
            TracingPageError::PushPreconditions => "TracingPageError: PushPreconditions",
            TracingPageError::AppendPreconditions => "TracingPageError: AppendPreconditions",
            TracingPageError::PopPreconditions => "TracingPageError: PopPreconditions",
            TracingPageError::ExtractPreconditions => "TracingPageError: ExtractPreconditions",
            TracingPageError::RemovePreconditions => "TracingPageError: RemovePreconditions",
            TracingPageError::DropPreconditions => "TracingPageError: DropPreconditions",
            TracingPageError::ResizePreconditions => "TracingPageError: ResizePreconditions",
            TracingPageError::InvalidRequest => "TracingPageError: InvalidRequest",
            TracingPageError::InternalFailure => "TracingPageError: InternalFailure",
            TracingPageError::NotFound => "TracingPageError: NotFound",
        }
    }
}

} // verus!
