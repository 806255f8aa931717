//! Entries and amounts of memory that overflow from a tracing page to the next.

use vstd::prelude::*;
use crate::tracing::metadata::Metadata;

verus! {

/// Holds up to two [`Metadata`] that need to be moved to the next page
///
/// Follows the principles of an ordered queue: elements are popped from the
/// front and pushed to the back, and shall be inserted in another array in
/// the same order they already are.
#[derive(Clone, Copy, Debug)]
pub struct Excess {
    pub size: usize,
    pub first: Metadata,
    pub second: Metadata,
}

impl View for Excess {
    type V = Seq<Metadata>;

    /// The elements held, in order
    open spec fn view(&self) -> Seq<Metadata> {
        seq![self.first, self.second].take(self.size as int)
    }
}

impl Excess {
    pub open spec fn wf(&self) -> bool {
        self.size <= 2
    }

    /// Returns an empty [`Excess`]
    pub fn none() -> (r: Self)
        ensures
            r.wf(),
            r@ == Seq::<Metadata>::empty(),
    {
        Self { size: 0, first: Metadata::default(), second: Metadata::default() }
    }

    /// Returns an [`Excess`] containing the given element
    pub fn single(md: Metadata) -> (r: Self)
        ensures
            r.wf(),
            r@ == seq![md],
    {
        Self { size: 1, first: md, second: Metadata::default() }
    }

    /// Returns an [`Excess`] containing the given elements, in the same order
    pub fn double(md1: Metadata, md2: Metadata) -> (r: Self)
        ensures
            r.wf(),
            r@ == seq![md1, md2],
    {
        Self { size: 2, first: md1, second: md2 }
    }

    /// Returns an [`Excess`] holding the element, if any
    pub fn from_option(md_opt: Option<Metadata>) -> (r: Self)
        ensures
            r.wf(),
            r@ == (match md_opt {
                Some(md) => seq![md],
                None => Seq::<Metadata>::empty(),
            }),
    {
        match md_opt {
            Some(md) => Self::single(md),
            None => Self::none(),
        }
    }

    /// Checks whether the [`Excess`] is empty
    pub fn is_none(&self) -> (r: bool)
        requires
            self.wf(),
        ensures
            r == (self@.len() == 0),
    {
        self.size == 0
    }

    /// Returns the number of elements stored
    pub fn size(&self) -> (r: usize)
        requires
            self.wf(),
        ensures
            r == self@.len(),
    {
        self.size
    }

    /// Pushes an element on the back side
    ///
    /// The [`Excess`] must hold at most one element.
    pub fn push(&mut self, md: Metadata)
        requires
            old(self).wf(),
            old(self)@.len() < 2,
        ensures
            final(self).wf(),
            final(self)@ == old(self)@.push(md),
    {
        self.push_unchecked(md);
    }

    /// Pushes an element on the back side, without checking
    pub fn push_unchecked(&mut self, md: Metadata)
        requires
            old(self).wf(),
            old(self)@.len() < 2,
        ensures
            final(self).wf(),
            final(self)@ == old(self)@.push(md),
    {
        if self.size == 0 {
            self.first = md;
        } else {
            self.second = md;
        }
        self.size = self.size + 1;
        assert(self@ =~= old(self)@.push(md));
    }

    /// Pops an element from the front side
    pub fn pop(&mut self) -> (r: Option<Metadata>)
        requires
            old(self).wf(),
        ensures
            final(self).wf(),
            old(self)@.len() == 0 ==> r is None && final(self)@ == old(self)@,
            old(self)@.len() > 0 ==> r == Some(old(self)@[0]) && final(self)@ == old(self)@.drop_first(),
    {
        if self.size == 0 {
            return None;
        }
        Some(self.pop_unchecked())
    }

    /// Pops an element from the front side, without checking
    pub fn pop_unchecked(&mut self) -> (r: Metadata)
        requires
            old(self).wf(),
            old(self)@.len() > 0,
        ensures
            final(self).wf(),
            r == old(self)@[0],
            final(self)@ == old(self)@.drop_first(),
    {
        let first = self.first;
        self.first = self.second;
        self.second = Metadata::default();
        self.size = self.size - 1;
        assert(self@ =~= old(self)@.drop_first());
        first
    }
}

impl Default for Excess {
    fn default() -> (r: Self)
        ensures
            r.wf(),
            r@ == Seq::<Metadata>::empty(),
    {
        Self::none()
    }
}

/// Holds some [`Metadata`] that need to be somehow inserted in or removed from
/// the following page
#[derive(Clone, Copy, PartialEq, Eq, Structural, Debug)]
pub enum Reminder {
    /// This [`Metadata`] needs to be summed to the first entry of the next page
    Positive(Metadata),
    /// This [`Metadata`] needs to be subtracted from the first entry of the next page
    Negative(Metadata),
    /// Nothing to do
    Zero,
}

impl Reminder {
    /// Returns a [`Reminder::Zero`]
    pub fn zero() -> (r: Self)
        ensures
            r == Reminder::Zero,
    {
        Reminder::Zero
    }

    /// Returns a [`Reminder::Positive`] containing the given entry, or a
    /// [`Reminder::Zero`] if the entry has no size
    pub fn positive(md: Metadata) -> (r: Self)
        ensures
            r == (if md.sz() == 0 { Reminder::Zero } else { Reminder::Positive(md) }),
    {
        match md.info.size() {
            0 => Reminder::Zero,
            _ => Reminder::Positive(md),
        }
    }

    /// Returns a [`Reminder::Negative`] containing the given entry, or a
    /// [`Reminder::Zero`] if the entry has no size
    pub fn negative(md: Metadata) -> (r: Self)
        ensures
            r == (if md.sz() == 0 { Reminder::Zero } else { Reminder::Negative(md) }),
    {
        match md.info.size() {
            0 => Reminder::Zero,
            _ => Reminder::Negative(md),
        }
    }

    /// Checks whether the reminder is a [`Reminder::Zero`] or not
    pub fn is_zero(&self) -> (r: bool)
        ensures
            r == (*self is Zero),
    {
        match self {
            Reminder::Zero => true,
            _ => false,
        }
    }
}

} // verus!
