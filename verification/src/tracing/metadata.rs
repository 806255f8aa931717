//! The entries stored in a tracing page.

use vstd::prelude::*;
use crate::errors::TracingPageError;
use core::cmp::Ordering;

verus! {

/// The kind and size of a portion of memory
#[derive(Clone, Copy, PartialEq, Eq, Structural, Debug)]
pub enum Info {
    /// Represents a portion of memory with something allocated in it
    Taken(u64),
    /// Represents a portion of memory that is free for allocation
    Free(u64),
    /// Placeholder for an uninitialized [`Metadata`] entry, with a null address and no size
    Uninit,
}

impl Info {
    /// The size of the entry, `0` for the none type
    pub open spec fn spec_size(self) -> u64 {
        match self {
            Info::Taken(s) => s,
            Info::Free(s) => s,
            Info::Uninit => 0,
        }
    }

    /// The same kind of entry with the given size
    pub open spec fn spec_with_size(self, s: u64) -> Info {
        match self {
            Info::Taken(_) => Info::Taken(s),
            Info::Free(_) => Info::Free(s),
            Info::Uninit => Info::Uninit,
        }
    }

    /// The entry marked as free, if it was taken
    pub open spec fn spec_freed(self) -> Info {
        match self {
            Info::Taken(s) => Info::Free(s),
            _ => self,
        }
    }

    /// The entry marked as taken, if it was free
    pub open spec fn spec_taken(self) -> Info {
        match self {
            Info::Free(s) => Info::Taken(s),
            _ => self,
        }
    }

    /// Tells whether an entry is not initialized
    pub fn is_none(&self) -> (r: bool)
        ensures
            r == (*self is Uninit),
    {
        match self {
            Info::Uninit => true,
            _ => false,
        }
    }

    /// Tells whether an entry is marked as free
    pub fn is_free(&self) -> (r: bool)
        ensures
            r == (*self is Free),
    {
        match self {
            Info::Free(_) => true,
            _ => false,
        }
    }

    /// Marks the entry as free
    pub fn set_free(&mut self)
        ensures
            *final(self) == old(self).spec_freed(),
    {
        match *self {
            Info::Taken(s) => *self = Info::Free(s),
            _ => (),
        }
    }

    /// Tells whether an entry is marked as taken
    pub fn is_taken(&self) -> (r: bool)
        ensures
            r == (*self is Taken),
    {
        match self {
            Info::Taken(_) => true,
            _ => false,
        }
    }

    /// Marks the entry as taken
    pub fn set_taken(&mut self)
        ensures
            *final(self) == old(self).spec_taken(),
    {
        match *self {
            Info::Free(s) => *self = Info::Taken(s),
            _ => (),
        }
    }

    /// Returns the size of an entry (if any)
    pub fn size(&self) -> (r: u64)
        ensures
            r == self.spec_size(),
    {
        match self {
            Info::Free(s) => *s,
            Info::Taken(s) => *s,
            _ => 0u64,
        }
    }

    /// Sets the given size to the entry
    ///
    /// Returns an [`Err`] if the entry is of none type.
    pub fn set_size(&mut self, size: u64) -> (r: Result<(), TracingPageError>)
        ensures
            *final(self) == old(self).spec_with_size(size),
            r == (if *old(self) is Uninit { Err(TracingPageError::EntryIsNone) } else { Ok(()) }),
    {
        match *self {
            Info::Free(_) => {
                *self = Info::Free(size);
                Ok(())
            },
            Info::Taken(_) => {
                *self = Info::Taken(size);
                Ok(())
            },
            Info::Uninit => Err(TracingPageError::EntryIsNone),
        }
    }

    /// Whether the given `size` equals the size of the entry, regardless of its type
    ///
    /// An entry of none type equals no size.
    pub fn eq_size(&self, size: u64) -> (r: bool)
        ensures
            r == (!(*self is Uninit) && self.spec_size() == size),
    {
        match self {
            Info::Free(s) => *s == size,
            Info::Taken(s) => *s == size,
            _ => false,
        }
    }

    /// Compares the size of the entry with the given `size`, regardless of its type
    ///
    /// Returns [`None`] for an entry of none type.
    pub fn partial_cmp_size(&self, size: u64) -> (r: Option<Ordering>)
        ensures
            *self is Uninit ==> r is None,
            !(*self is Uninit) ==> r == Some(
                if self.spec_size() == size {
                    Ordering::Equal
                } else if self.spec_size() < size {
                    Ordering::Less
                } else {
                    Ordering::Greater
                },
            ),
    {
        match self {
            Info::Free(s) | Info::Taken(s) => if *s == size {
                Some(Ordering::Equal)
            } else if *s < size {
                Some(Ordering::Less)
            } else {
                Some(Ordering::Greater)
            },
            _ => None,
        }
    }

    /// Increases the size of the entry by the given value
    pub fn add_size(&mut self, rhs: u64)
        requires
            old(self).spec_size() + rhs <= u64::MAX,
        ensures
            *final(self) == old(self).spec_with_size((old(self).spec_size() + rhs) as u64),
    {
        match *self {
            Info::Free(s) => *self = Info::Free(s + rhs),
            Info::Taken(s) => *self = Info::Taken(s + rhs),
            _ => (),
        }
    }

    /// Reduces the size of the entry by the given value
    pub fn sub_size(&mut self, rhs: u64)
        requires
            *old(self) is Uninit || old(self).spec_size() >= rhs,
        ensures
            *final(self) == old(self).spec_with_size((old(self).spec_size() - rhs) as u64),
    {
        match *self {
            Info::Free(s) => *self = Info::Free(s - rhs),
            Info::Taken(s) => *self = Info::Taken(s - rhs),
            _ => (),
        }
    }

    /// Returns the entry with its size reduced by the given value
    pub fn minus(self, rhs: u64) -> (r: Info)
        requires
            self is Uninit || self.spec_size() >= rhs,
        ensures
            r == self.spec_with_size((self.spec_size() - rhs) as u64),
    {
        match self {
            Info::Free(s) => Info::Free(s - rhs),
            Info::Taken(s) => Info::Taken(s - rhs),
            _ => self,
        }
    }
}

/// Used to indicate from which side an entry is expanded or reduced
#[derive(Clone, Copy, PartialEq, Eq, Structural, Debug)]
pub enum Side {
    Left,
    Right,
}

/// Stores information about a slice of dynamic memory
#[derive(Clone, Copy, PartialEq, Eq, Structural, Debug)]
pub struct Metadata {
    /// The physical address at which the memory slice begins
    pub paddr: u64,
    /// The logical address at which the memory slice begins
    pub laddr: u64,
    /// The information about the size and type of the slice
    pub info: Info,
}

/// The uninitialized entry: null addresses and none type
pub open spec fn none_md() -> Metadata {
    Metadata { paddr: 0, laddr: 0, info: Info::Uninit }
}

impl Metadata {
    pub open spec fn sz(self) -> u64 {
        self.info.spec_size()
    }

    /// The physical address one Byte off the end of the entry
    pub open spec fn hi(self) -> int {
        self.paddr + self.sz()
    }

    /// The logical address one Byte off the end of the entry
    pub open spec fn hi_l(self) -> int {
        self.laddr + self.sz()
    }

    /// Both ends of the entry are representable addresses
    pub open spec fn fits(self) -> bool {
        self.hi() <= u64::MAX && self.hi_l() <= u64::MAX
    }

    pub open spec fn spec_is_free(self) -> bool {
        self.info is Free
    }

    pub open spec fn spec_is_taken(self) -> bool {
        self.info is Taken
    }

    pub open spec fn spec_is_none(self) -> bool {
        self.info is Uninit
    }

    pub open spec fn spec_contains(self, paddr: u64) -> bool {
        self.paddr <= paddr && paddr < self.hi()
    }

    /// This entry starts, physically and logically, where `other` ends
    pub open spec fn spec_contiguous_to(self, other: Metadata) -> bool {
        self.paddr == other.hi() && self.laddr == other.hi_l()
    }

    pub open spec fn spec_with_size(self, s: u64) -> Metadata {
        Metadata { info: self.info.spec_with_size(s), ..self }
    }

    pub open spec fn spec_freed(self) -> Metadata {
        Metadata { info: self.info.spec_freed(), ..self }
    }

    pub open spec fn spec_taken(self) -> Metadata {
        Metadata { info: self.info.spec_taken(), ..self }
    }

    /// The entry expanded by `size` Bytes toward the given side
    pub open spec fn spec_grown(self, size: u64, side: Side) -> Metadata {
        let info = self.info.spec_with_size((self.sz() + size) as u64);
        match side {
            Side::Left => Metadata {
                paddr: (self.paddr - size) as u64,
                laddr: (self.laddr - size) as u64,
                info,
            },
            Side::Right => Metadata { info, ..self },
        }
    }

    /// The entry reduced by `size` Bytes from the given side
    pub open spec fn spec_shrunk(self, size: u64, side: Side) -> Metadata {
        let info = self.info.spec_with_size((self.sz() - size) as u64);
        match side {
            Side::Left => Metadata {
                paddr: (self.paddr + size) as u64,
                laddr: (self.laddr + size) as u64,
                info,
            },
            Side::Right => Metadata { info, ..self },
        }
    }

    /// The entry with both its addresses moved by `delta` Bytes
    pub open spec fn spec_moved(self, delta: int) -> Metadata {
        Metadata {
            paddr: (self.paddr + delta) as u64,
            laddr: (self.laddr + delta) as u64,
            ..self
        }
    }

    /// Creates a new entry with the given data and marks it as free
    pub fn new_free(pa: u64, la: u64, sz: u64) -> (r: Self)
        ensures
            r == (Metadata { paddr: pa, laddr: la, info: Info::Free(sz) }),
    {
        Self { paddr: pa, laddr: la, info: Info::Free(sz) }
    }

    /// Creates a new entry with the given data and marks it as taken
    pub fn new_taken(pa: u64, la: u64, sz: u64) -> (r: Self)
        ensures
            r == (Metadata { paddr: pa, laddr: la, info: Info::Taken(sz) }),
    {
        Self { paddr: pa, laddr: la, info: Info::Taken(sz) }
    }

    /// Returns the size of the entry
    pub fn size(&self) -> (r: u64)
        ensures
            r == self.sz(),
    {
        self.info.size()
    }

    /// Replaces the size of an entry with the given size
    ///
    /// The addresses are not updated. Returns an [`Err`] if the entry is of none type.
    pub fn set_size(&mut self, new_size: u64) -> (r: Result<(), TracingPageError>)
        ensures
            *final(self) == old(self).spec_with_size(new_size),
            r == (if old(self).spec_is_none() { Err(TracingPageError::EntryIsNone) } else { Ok(()) }),
    {
        self.info.set_size(new_size)
    }

    /// Tells whether an entry is not initialized
    pub fn is_none(&self) -> (r: bool)
        ensures
            r == self.spec_is_none(),
    {
        self.info.is_none()
    }

    /// Tells whether an entry is marked as free
    pub fn is_free(&self) -> (r: bool)
        ensures
            r == self.spec_is_free(),
    {
        self.info.is_free()
    }

    /// Marks the entry as free
    ///
    /// Has no effect if the entry is not marked as taken
    pub fn set_free(&mut self)
        ensures
            *final(self) == old(self).spec_freed(),
    {
        self.info.set_free();
    }

    /// Tells whether an entry is marked as taken
    pub fn is_taken(&self) -> (r: bool)
        ensures
            r == self.spec_is_taken(),
    {
        self.info.is_taken()
    }

    /// Marks the entry as taken
    ///
    /// Has no effect if the entry is not marked as free
    pub fn set_taken(&mut self)
        ensures
            *final(self) == old(self).spec_taken(),
    {
        self.info.set_taken();
    }

    /// Returns the physical address at which the entry starts
    pub fn lower_paddr(&self) -> (r: u64)
        ensures
            r == self.paddr,
    {
        self.paddr
    }

    /// Returns the physical address that is `1 B` off the end of the entry
    pub fn higher_paddr(&self) -> (r: u64)
        requires
            self.hi() <= u64::MAX,
        ensures
            r == self.hi(),
    {
        self.paddr + self.info.size()
    }

    /// Returns the logical address at which the entry starts
    pub fn lower_laddr(&self) -> (r: u64)
        ensures
            r == self.laddr,
    {
        self.laddr
    }

    /// Returns the logical address that is `1 B` off the end of the entry
    pub fn higher_laddr(&self) -> (r: u64)
        requires
            self.hi_l() <= u64::MAX,
        ensures
            r == self.hi_l(),
    {
        self.laddr + self.info.size()
    }

    /// Checks whether the given physical address is contained in the entry
    pub fn contains(&self, paddr: u64) -> (r: bool)
        requires
            self.hi() <= u64::MAX,
        ensures
            r == self.spec_contains(paddr),
    {
        self.lower_paddr() <= paddr && paddr < self.higher_paddr()
    }

    /// Checks whether the beginning of the entry is contiguous to the end of another
    ///
    /// Returns `true` if this entry is physically and logically contiguous to
    /// the other entry (starts at the end of it), otherwise returns `false`.
    pub fn is_contiguous_to(&self, other: &Metadata) -> (r: bool)
        requires
            other.fits(),
        ensures
            r == self.spec_contiguous_to(*other),
    {
        self.lower_paddr() == other.higher_paddr() && self.lower_laddr() == other.higher_laddr()
    }

    /// Increases the size and moves the addresses toward the given side
    pub fn grow(&mut self, size: u64, side: Side)
        requires
            old(self).sz() + size <= u64::MAX,
            side == Side::Left ==> old(self).paddr >= size && old(self).laddr >= size,
        ensures
            *final(self) == old(self).spec_grown(size, side),
    {
        self.info.add_size(size);
        match side {
            Side::Left => {
                self.paddr = self.paddr - size;
                self.laddr = self.laddr - size;
            },
            Side::Right => (),
        }
    }

    /// Decreases the size and moves the addresses toward the given side
    pub fn shrink(&mut self, size: u64, side: Side)
        requires
            old(self).spec_is_none() || old(self).sz() >= size,
            side == Side::Left ==> old(self).paddr + size <= u64::MAX && old(self).laddr + size <= u64::MAX,
        ensures
            *final(self) == old(self).spec_shrunk(size, side),
    {
        self.info.sub_size(size);
        match side {
            Side::Left => {
                self.paddr = self.paddr + size;
                self.laddr = self.laddr + size;
            },
            Side::Right => (),
        }
    }

    /// Returns the entry with decreased size and updated addresses
    pub fn shrunk(self, size: u64, side: Side) -> (r: Metadata)
        requires
            self.spec_is_none() || self.sz() >= size,
            side == Side::Left ==> self.paddr + size <= u64::MAX && self.laddr + size <= u64::MAX,
        ensures
            r == self.spec_shrunk(size, side),
    {
        let mut md = self;
        md.shrink(size, side);
        md
    }

    /// Shifts the addresses toward the left by the given amount of Bytes
    pub fn shift_down(&mut self, size: u64)
        requires
            old(self).paddr >= size,
            old(self).laddr >= size,
        ensures
            *final(self) == old(self).spec_moved(-size),
    {
        self.paddr = self.paddr - size;
        self.laddr = self.laddr - size;
    }

    /// Shifts the addresses toward the right by the given amount of Bytes
    pub fn shift_up(&mut self, size: u64)
        requires
            old(self).paddr + size <= u64::MAX,
            old(self).laddr + size <= u64::MAX,
        ensures
            *final(self) == old(self).spec_moved(size as int),
    {
        self.paddr = self.paddr + size;
        self.laddr = self.laddr + size;
    }
}

impl Default for Metadata {
    /// Creates an uninitialized entry of type none
    fn default() -> (r: Self)
        ensures
            r == none_md(),
    {
        Metadata { paddr: 0, laddr: 0, info: Info::Uninit }
    }
}

} // verus!
