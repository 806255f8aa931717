//! A tracing page: a sorted array of [`Metadata`] entries describing the
//! dynamic memory of one owner.

use vstd::prelude::*;
use crate::tracing::pages::{normalized, page_take, lemma_take_normalized, lemma_drop_normalized, lemma_insert_normalized, lemma_remove_normalized, lemma_entry_resize_normalized,
    lemma_push_fit_normalized, lemma_append_fit_normalized};
use crate::errors::TracingPageError;
use crate::tracing::metadata::{Info, Metadata, Side, none_md};
use crate::tracing::excess::{Excess, Reminder};

verus! {

/// The number of [`Metadata`] entries held by a [`TracingPage`]
///
/// A tracing page takes 2 MiB: a counter of 8 Bytes followed by entries of 32 Bytes.
pub const METADATA_ARRAY_SIZE: usize = 65535;

/// Entries are initialized, fit in the address space and are sorted by
/// physical address without overlapping
pub open spec fn entries_ok(s: Seq<Metadata>) -> bool {
    &&& forall|i: int| #![trigger s[i]] 0 <= i < s.len() ==> !s[i].spec_is_none() && s[i].fits()
    &&& sorted(s)
}

/// Each entry ends before the following ones begin
pub open spec fn sorted(s: Seq<Metadata>) -> bool {
    forall|i: int, j: int| #![trigger s[i], s[j]] 0 <= i < j < s.len() ==> s[i].hi() <= s[j].paddr
}

/// The part of a sequence of entries that fits in a page
pub open spec fn fit(c: Seq<Metadata>) -> Seq<Metadata> {
    if c.len() > METADATA_ARRAY_SIZE { c.take(METADATA_ARRAY_SIZE as int) } else { c }
}

/// The part of a sequence of entries that does not fit in a page
pub open spec fn overflow(c: Seq<Metadata>) -> Seq<Metadata> {
    if c.len() > METADATA_ARRAY_SIZE { c.skip(METADATA_ARRAY_SIZE as int) } else { Seq::empty() }
}

/// The first entry of a sequence of entries that does not fit in a page, if any
pub open spec fn overflow_opt(c: Seq<Metadata>) -> Option<Metadata> {
    if c.len() > METADATA_ARRAY_SIZE { Some(c[METADATA_ARRAY_SIZE as int]) } else { None }
}

/// Whether both entries are free and `upper` starts where `lower` ends
pub open spec fn mergeable(lower: Metadata, upper: Metadata) -> bool {
    lower.spec_is_free() && upper.spec_is_free() && upper.spec_contiguous_to(lower)
}

/// The entries after pushing `md` in front of `s`
pub open spec fn push_combined(s: Seq<Metadata>, md: Metadata) -> Seq<Metadata> {
    if s.len() == 0 {
        seq![md]
    } else if mergeable(md, s[0]) {
        s.update(0, s[0].spec_grown(md.sz(), Side::Left))
    } else {
        seq![md] + s
    }
}

/// The entries after appending `md` at the back of `s`
pub open spec fn append_combined(s: Seq<Metadata>, md: Metadata) -> Seq<Metadata> {
    if s.len() > 0 && mergeable(s.last(), md) {
        s.update(s.len() - 1, s.last().spec_grown(md.sz(), Side::Right))
    } else {
        s.push(md)
    }
}

/// `i` is the first index of an entry ending at or after `p`
pub open spec fn is_first_hi_ge(s: Seq<Metadata>, p: u64, i: int) -> bool {
    &&& 0 <= i < s.len()
    &&& s[i].hi() >= p
    &&& forall|k: int| #![trigger s[k]] 0 <= k < i ==> s[k].hi() < p
}

/// The first index of an entry ending at or after `p`
pub open spec fn first_hi_ge(s: Seq<Metadata>, p: u64) -> int {
    choose|i: int| is_first_hi_ge(s, p, i)
}

/// The position at which `insert` places a new entry that is neither appended
/// nor pushed: after the first entry reaching its address if that entry ends
/// exactly where the new one begins, before it otherwise
pub open spec fn insert_between_pos(s: Seq<Metadata>, md: Metadata) -> int {
    let i = first_hi_ge(s, md.paddr);
    if s[i].hi() == md.paddr { i + 1 } else { i }
}

/// The new entry goes after all the entries
pub open spec fn insert_appends(s: Seq<Metadata>, md: Metadata) -> bool {
    s.len() == 0 || s.last().hi() <= md.paddr
}

/// The new entry goes before all the entries
pub open spec fn insert_pushes(s: Seq<Metadata>, md: Metadata) -> bool {
    md.hi() <= s[0].paddr
}

/// The entries after inserting `md` in `s` where it belongs: a free entry is
/// merged with the free entries it is strictly contiguous to, on either side
pub open spec fn insert_combined(s: Seq<Metadata>, md: Metadata) -> Seq<Metadata> {
    if insert_appends(s, md) {
        append_combined(s, md)
    } else if insert_pushes(s, md) {
        push_combined(s, md)
    } else {
        let i = first_hi_ge(s, md.paddr);
        if mergeable(s[i], md) {
            if i + 1 < s.len() && mergeable(md, s[i + 1]) {
                s.update(i, s[i].spec_grown((md.sz() + s[i + 1].sz()) as u64, Side::Right)).remove(i + 1)
            } else {
                s.update(i, s[i].spec_grown(md.sz(), Side::Right))
            }
        } else if mergeable(md, s[i]) {
            s.update(i, s[i].spec_grown(md.sz(), Side::Left))
        } else if merges_after_first(s, md) {
            s.update(i + 1, s[i + 1].spec_grown(md.sz(), Side::Left))
        } else {
            s.insert(insert_between_pos(s, md), md)
        }
    }
}

/// The new entry begins where the first entry reaching its address ends, and
/// merges with the free entry right after that one
pub open spec fn merges_after_first(s: Seq<Metadata>, md: Metadata) -> bool {
    let i = first_hi_ge(s, md.paddr);
    s[i].hi() == md.paddr && i + 1 < s.len() && mergeable(md, s[i + 1])
}

/// The position of `md` among the entries of `s`, as `insert` sees it
pub open spec fn insert_pos(s: Seq<Metadata>, md: Metadata) -> int {
    if insert_appends(s, md) {
        s.len() as int
    } else if insert_pushes(s, md) {
        0
    } else {
        insert_between_pos(s, md)
    }
}

/// Inserting in a full page an entry that goes right before the last one
/// cannot be done by `insert`
pub open spec fn insert_unsupported(s: Seq<Metadata>, md: Metadata) -> bool {
    &&& s.len() == METADATA_ARRAY_SIZE
    &&& !insert_appends(s, md)
    &&& !insert_pushes(s, md)
    &&& !mergeable(s[first_hi_ge(s, md.paddr)], md)
    &&& !mergeable(md, s[first_hi_ge(s, md.paddr)])
    &&& !merges_after_first(s, md)
    &&& insert_between_pos(s, md) == s.len() - 1
}

/// `i` is the first index of an entry containing the physical address `p`
pub open spec fn is_first_containing(s: Seq<Metadata>, p: u64, i: int) -> bool {
    &&& 0 <= i < s.len()
    &&& s[i].spec_contains(p)
    &&& forall|k: int| #![trigger s[k]] 0 <= k < i ==> !s[k].spec_contains(p)
}

/// Some entry contains the physical address `p`
pub open spec fn has_containing(s: Seq<Metadata>, p: u64) -> bool {
    exists|i: int| #![trigger s[i]] 0 <= i < s.len() && s[i].spec_contains(p)
}

/// The first index of an entry containing the physical address `p`
pub open spec fn first_containing(s: Seq<Metadata>, p: u64) -> int {
    choose|i: int| is_first_containing(s, p, i)
}

/// The entry at `idx` merges with the previous one when freed
pub open spec fn merges_with_prev(s: Seq<Metadata>, idx: int) -> bool {
    idx > 0 && s[idx - 1].spec_is_free() && s[idx].spec_contiguous_to(s[idx - 1])
}

/// The entry at `idx` merges with the next one when freed
pub open spec fn merges_with_next(s: Seq<Metadata>, idx: int) -> bool {
    idx + 1 < s.len() && s[idx + 1].spec_is_free() && s[idx + 1].spec_contiguous_to(s[idx])
}

/// The first index of the entries merged when the entry at `idx` is freed
pub open spec fn merge_low(s: Seq<Metadata>, idx: int) -> int {
    if merges_with_prev(s, idx) { idx - 1 } else { idx }
}

/// The last index of the entries merged when the entry at `idx` is freed
pub open spec fn merge_high(s: Seq<Metadata>, idx: int) -> int {
    if merges_with_next(s, idx) { idx + 1 } else { idx }
}

/// The total size of the entries from `lo` to `hi`, both included
pub open spec fn sizes_between(s: Seq<Metadata>, lo: int, hi: int) -> int
    decreases hi - lo + 1,
{
    if hi < lo { 0 } else { s[hi].sz() + sizes_between(s, lo, hi - 1) }
}

/// The entries after freeing the entry at `idx` and merging it with the free
/// entries strictly contiguous to it
pub open spec fn free_merge_combined(s: Seq<Metadata>, idx: int) -> Seq<Metadata> {
    let lo = merge_low(s, idx);
    let hi = merge_high(s, idx);
    let merged = Metadata {
        paddr: s[lo].paddr,
        laddr: s[lo].laddr,
        info: Info::Free(sizes_between(s, lo, hi) as u64),
    };
    s.take(lo) + seq![merged] + s.skip(hi + 1)
}

/// The two entries resulting from splitting `m` after `k` Bytes
pub open spec fn split_pieces(m: Metadata, k: u64) -> Seq<Metadata> {
    seq![m.spec_with_size(k), m.spec_shrunk(k, Side::Left)]
}

/// The entries after replacing the entry at `i` with `pieces`
pub open spec fn replace_with(s: Seq<Metadata>, i: int, pieces: Seq<Metadata>) -> Seq<Metadata> {
    s.take(i) + pieces + s.skip(i + 1)
}

/// Taking the lower `size` Bytes of the free entry `m`
pub open spec fn take_pieces_lower(m: Metadata, size: u64) -> Seq<Metadata> {
    seq![m.spec_with_size(size).spec_taken(), m.spec_shrunk(size, Side::Left)]
}

/// Taking the higher `size` Bytes of the free entry `m`
pub open spec fn take_pieces_higher(m: Metadata, size: u64) -> Seq<Metadata> {
    seq![m.spec_shrunk(size, Side::Right), m.spec_shrunk((m.sz() - size) as u64, Side::Left).spec_taken()]
}

/// Taking `size` Bytes from `paddr` in the middle of the free entry `m`
pub open spec fn take_pieces_middle(m: Metadata, paddr: u64, size: u64) -> Seq<Metadata> {
    let d = (paddr - m.paddr) as u64;
    seq![
        m.spec_with_size(d),
        m.spec_shrunk(d, Side::Left).spec_with_size(size).spec_taken(),
        m.spec_shrunk((d + size) as u64, Side::Left),
    ]
}

/// The entries `c` split at `k`: the first `k` stay in the page
pub open spec fn keep_upto(c: Seq<Metadata>, k: int) -> Seq<Metadata> {
    if c.len() > k { c.take(k) } else { c }
}

/// The entries `c` split at `k`: the ones from `k` on leave the page
pub open spec fn move_from(c: Seq<Metadata>, k: int) -> Seq<Metadata> {
    if c.len() > k { c.skip(k) } else { Seq::empty() }
}

/// Where the entries are split after taking the middle part of the entry at `i`
/// among `n` entries: a page missing a single entry keeps only `n` of them
/// when the entry is not among the last two
pub open spec fn middle_split(n: int, i: int) -> int {
    if n == METADATA_ARRAY_SIZE - 1 && i + 2 < n { n } else { METADATA_ARRAY_SIZE as int }
}

/// Taking a part of an entry, the requested size is larger than what is left
/// after the address, or the entry must be split in two on a full page right
/// before its last entry: `take` cannot serve these requests
pub open spec fn take_unsupported(s: Seq<Metadata>, paddr: u64, size: u64) -> bool {
    has_containing(s, paddr) && ({
        let i = first_containing(s, paddr);
        let m = s[i];
        &&& m.spec_is_free()
        &&& m.sz() > size
        &&& (paddr + size > m.hi() || (s.len() == METADATA_ARRAY_SIZE && i + 2 == s.len()
            && (m.paddr == paddr || m.hi() == paddr + size)))
    })
}

/// The reminder carrying an entry to be added to the next page, if it has a size
pub open spec fn positive_of(md: Metadata) -> Reminder {
    if md.sz() == 0 { Reminder::Zero } else { Reminder::Positive(md) }
}

/// The reminder carrying an entry to be removed from the next page, if it has a size
pub open spec fn negative_of(md: Metadata) -> Reminder {
    if md.sz() == 0 { Reminder::Zero } else { Reminder::Negative(md) }
}

/// The reminder carrying the entry that does not fit in the page, if any
pub open spec fn positive_overflow(c: Seq<Metadata>) -> Reminder {
    match overflow_opt(c) {
        Some(md) => positive_of(md),
        None => Reminder::Zero,
    }
}

/// The free part released when the taken entry `m` shrinks to `new_size` Bytes
pub open spec fn shrink_release(m: Metadata, new_size: u64) -> Metadata {
    m.spec_shrunk(new_size, Side::Left).spec_freed()
}

/// The part missing from the next page when the last entry `m` of a full page
/// grows to `new_size` Bytes
pub open spec fn expand_missing(m: Metadata, new_size: u64) -> Metadata {
    let diff = (new_size - m.sz()) as u64;
    m.spec_grown(diff, Side::Right).spec_moved(diff as int).spec_with_size(diff).spec_freed()
}

/// Resizing the entry: shrinking it in a full page when it is right before
/// the last entry and the released part cannot be merged, or growing the last
/// entry of a full page beyond the address space, cannot be served by `resize`
pub open spec fn resize_unsupported(s: Seq<Metadata>, paddr: u64, new_size: u64) -> bool {
    has_containing(s, paddr) && ({
        let i = first_containing(s, paddr);
        let m = s[i];
        &&& m.paddr == paddr
        &&& m.spec_is_taken()
        &&& s.len() == METADATA_ARRAY_SIZE
        &&& ((m.sz() > new_size && i + 2 == s.len()
                && !(s[i + 1].spec_is_free() && s[i + 1].spec_contiguous_to(m)))
            || (m.sz() < new_size && i + 1 == s.len()
                && (m.paddr + new_size > u64::MAX || m.laddr + new_size > u64::MAX)))
    })
}

/// The entries after pushing the entries `e`, in order, in front of `s`
pub open spec fn push_excess_combined(s: Seq<Metadata>, e: Seq<Metadata>) -> Seq<Metadata> {
    if e.len() == 0 {
        s
    } else if e.len() == 1 {
        push_combined(s, e[0])
    } else if s.len() == 0 {
        e
    } else if mergeable(e[1], s[0]) {
        seq![e[0]] + s.update(0, s[0].spec_grown(e[1].sz(), Side::Left))
    } else {
        e + s
    }
}

/// The outcome of removing `rem` Bytes starting at the beginning of the entry
/// at index `k`, after the entries from `i0` up to `k` (excluded) have been
/// removed entirely: the result and the entries of the page
pub open spec fn remove_chain(s: Seq<Metadata>, i0: int, k: int, rem: int)
    -> (Result<Reminder, TracingPageError>, Seq<Metadata>)
    decreases s.len() - k,
{
    if k < 0 || k >= s.len() {
        (Err(TracingPageError::NotFound), s)
    } else {
        let m = s[k];
        if m.sz() == 0 {
            (Err(TracingPageError::InternalFailure), s)
        } else if m.sz() == rem {
            (Ok(Reminder::Zero), s.take(i0) + s.skip(k + 1))
        } else if m.sz() > rem {
            if m.spec_is_taken() {
                (Err(TracingPageError::InvalidRequest), s)
            } else {
                (Ok(Reminder::Zero), s.take(i0) + seq![m.spec_shrunk(rem as u64, Side::Left)] + s.skip(k + 1))
            }
        } else if k + 1 < s.len() && !s[k + 1].spec_contiguous_to(m) {
            (Err(TracingPageError::InvalidRequest), s)
        } else if k + 1 == s.len() {
            (Ok(negative_of(Metadata {
                paddr: m.hi() as u64,
                laddr: m.hi_l() as u64,
                info: m.info.spec_with_size((rem - m.sz()) as u64),
            })), s.take(i0))
        } else {
            remove_chain(s, i0, k + 1, rem - m.sz())
        }
    }
}

/// A removal that fails leaves the entries as they were
pub proof fn lemma_remove_chain_err(s: Seq<Metadata>, i0: int, k: int, rem: int)
    ensures
        remove_chain(s, i0, k, rem).0 is Err ==> remove_chain(s, i0, k, rem).1 == s,
    decreases s.len() - k,
{
    if 0 <= k < s.len() && s[k].sz() != 0 && s[k].sz() < rem && !(k + 1 < s.len() && !s[k + 1].spec_contiguous_to(s[k]))
        && k + 1 != s.len() {
        lemma_remove_chain_err(s, i0, k + 1, rem - s[k].sz());
    }
}

/// The pieces left when removing `size` Bytes from `paddr` in the middle of `m`
pub open spec fn remove_pieces_middle(m: Metadata, paddr: u64, size: u64) -> Seq<Metadata> {
    let d = (paddr - m.paddr) as u64;
    seq![m.spec_with_size(d), m.spec_shrunk((d + size) as u64, Side::Left)]
}

/// The outcome of removing `size` Bytes starting at `paddr`: the result and
/// the entries of the page
pub open spec fn remove_outcome(s: Seq<Metadata>, paddr: u64, size: u64)
    -> (Result<Reminder, TracingPageError>, Seq<Metadata>)
{
    if !has_containing(s, paddr) {
        (Err(TracingPageError::NotFound), s)
    } else {
        let i0 = first_containing(s, paddr);
        let m = s[i0];
        if m.paddr == paddr {
            remove_chain(s, i0, i0, size as int)
        } else if m.sz() > size {
            if m.spec_is_taken() {
                (Err(TracingPageError::InvalidRequest), s)
            } else if m.hi() == paddr + size {
                (Ok(Reminder::Zero), s.update(i0, m.spec_shrunk(size, Side::Right)))
            } else {
                let c = replace_with(s, i0, remove_pieces_middle(m, paddr, size));
                (Ok(positive_overflow(c)), fit(c))
            }
        } else if i0 + 1 < s.len() && !s[i0 + 1].spec_contiguous_to(m) {
            (Err(TracingPageError::InvalidRequest), s)
        } else if m.spec_is_taken() {
            (Err(TracingPageError::InvalidRequest), s)
        } else {
            let cut = (m.hi() - paddr) as u64;
            let s1 = s.update(i0, m.spec_shrunk(cut, Side::Right));
            if i0 + 1 == s.len() {
                (Ok(negative_of(Metadata {
                    paddr: m.hi() as u64,
                    laddr: m.hi_l() as u64,
                    info: m.info.spec_with_size((size - cut) as u64),
                })), s1)
            } else {
                remove_chain(s1, i0 + 1, i0 + 1, size - cut)
            }
        }
    }
}

/// Removing a middle part of a free entry that is larger than what follows
/// the address, or that needs a new entry in a full page right before its
/// last entry, cannot be served by `remove`
pub open spec fn remove_unsupported(s: Seq<Metadata>, paddr: u64, size: u64) -> bool {
    has_containing(s, paddr) && ({
        let i0 = first_containing(s, paddr);
        let m = s[i0];
        &&& m.paddr != paddr
        &&& m.sz() > size
        &&& m.spec_is_free()
        &&& m.hi() != paddr + size
        &&& (paddr + size > m.hi() || (s.len() == METADATA_ARRAY_SIZE && i0 + 2 == s.len()))
    })
}

/// Stores information about the dynamic memory associated to a single process
///
/// The entries below `size` are initialized and sorted by physical address,
/// increasingly; the entries from `size` on are uninitialized.
pub struct TracingPage {
    /// The number of initialized entries in the array
    pub size: usize,
    /// The array of [`Metadata`] entries
    pub metadata: Vec<Metadata>,
}

impl TracingPage {
    /// The initialized entries of the page
    pub open spec fn entries(&self) -> Seq<Metadata> {
        self.metadata@.take(self.size as int)
    }

    /// The array has its full length and the entries past `size` are uninitialized
    pub open spec fn wf_shape(&self) -> bool {
        &&& self.metadata@.len() == METADATA_ARRAY_SIZE
        &&& self.size <= METADATA_ARRAY_SIZE
        &&& forall|i: int| #![trigger self.metadata@[i]] self.size <= i < METADATA_ARRAY_SIZE ==> self.metadata@[i] == none_md()
    }

    pub open spec fn wf(&self) -> bool {
        &&& self.wf_shape()
        &&& entries_ok(self.entries())
    }

    /// Creates an empty page
    pub fn new() -> (r: Self)
        ensures
            r.wf(),
            r.entries() == Seq::<Metadata>::empty(),
    {
        let mut metadata: Vec<Metadata> = Vec::new();
        let mut i: usize = 0;
        while i < METADATA_ARRAY_SIZE
            invariant
                i <= METADATA_ARRAY_SIZE,
                metadata@.len() == i,
                forall|k: int| #![trigger metadata@[k]] 0 <= k < i ==> metadata@[k] == none_md(),
            decreases METADATA_ARRAY_SIZE - i,
        {
            metadata.push(Metadata::default());
            i = i + 1;
        }
        let r = TracingPage { size: 0, metadata };
        assert(r.entries() =~= Seq::<Metadata>::empty());
        r
    }

    /// Removes all the entries of the page
    pub fn clear(&mut self)
        requires
            old(self).wf_shape(),
        ensures
            final(self).wf(),
            final(self).entries() == Seq::<Metadata>::empty(),
    {
        self.shrink(0);
    }

    /// Returns the entries of the page, in order
    pub fn iterate(&self) -> (r: Vec<Metadata>)
        requires
            self.wf_shape(),
        ensures
            r@ == self.entries(),
    {
        let mut r: Vec<Metadata> = Vec::new();
        let mut i: usize = 0;
        while i < self.size
            invariant
                self.wf_shape(),
                i <= self.size,
                r@ == self.entries().take(i as int),
            decreases self.size - i,
        {
            r.push(self.metadata[i]);
            proof { assert(r@ =~= self.entries().take(i + 1)); }
            i = i + 1;
        }
        proof { assert(r@ =~= self.entries()); }
        r
    }

    /// Fills the whole page with taken entries of `md_size` Bytes, contiguous
    /// to each other from the given addresses
    pub fn fill_taken(&mut self, paddr: u64, laddr: u64, md_size: u64)
        requires
            old(self).wf_shape(),
            paddr + md_size * METADATA_ARRAY_SIZE <= u64::MAX,
            laddr + md_size * METADATA_ARRAY_SIZE <= u64::MAX,
        ensures
            final(self).wf_shape(),
            final(self).entries().len() == METADATA_ARRAY_SIZE,
            forall|i: int| #![trigger final(self).entries()[i]] 0 <= i < METADATA_ARRAY_SIZE ==>
                final(self).entries()[i] == (Metadata {
                    paddr: (paddr + md_size * i) as u64,
                    laddr: (laddr + md_size * i) as u64,
                    info: Info::Taken(md_size),
                }),
    {
        self.fill(paddr, laddr, md_size, false)
    }

    /// Fills the whole page with entries of `md_size` Bytes, contiguous to
    /// each other from the given addresses, alternately taken and free
    pub fn fill_alternate(&mut self, paddr: u64, laddr: u64, md_size: u64)
        requires
            old(self).wf_shape(),
            paddr + md_size * METADATA_ARRAY_SIZE <= u64::MAX,
            laddr + md_size * METADATA_ARRAY_SIZE <= u64::MAX,
        ensures
            final(self).wf_shape(),
            final(self).entries().len() == METADATA_ARRAY_SIZE,
            forall|i: int| #![trigger final(self).entries()[i]] 0 <= i < METADATA_ARRAY_SIZE ==>
                final(self).entries()[i] == (Metadata {
                    paddr: (paddr + md_size * i) as u64,
                    laddr: (laddr + md_size * i) as u64,
                    info: if i % 2 == 0 { Info::Taken(md_size) } else { Info::Free(md_size) },
                }),
    {
        self.fill(paddr, laddr, md_size, true)
    }

    /// Fills the whole page with contiguous entries, alternately taken and
    /// free or all taken
    fn fill(&mut self, paddr: u64, laddr: u64, md_size: u64, alternate: bool)
        requires
            old(self).wf_shape(),
            paddr + md_size * METADATA_ARRAY_SIZE <= u64::MAX,
            laddr + md_size * METADATA_ARRAY_SIZE <= u64::MAX,
        ensures
            final(self).wf_shape(),
            final(self).entries().len() == METADATA_ARRAY_SIZE,
            forall|i: int| #![trigger final(self).entries()[i]] 0 <= i < METADATA_ARRAY_SIZE ==>
                final(self).entries()[i] == (Metadata {
                    paddr: (paddr + md_size * i) as u64,
                    laddr: (laddr + md_size * i) as u64,
                    info: if alternate && i % 2 == 1 { Info::Free(md_size) } else { Info::Taken(md_size) },
                }),
    {
        let mut i: usize = 0;
        let mut pa = paddr;
        let mut la = laddr;
        while i < METADATA_ARRAY_SIZE
            invariant
                self.metadata@.len() == METADATA_ARRAY_SIZE,
                i <= METADATA_ARRAY_SIZE,
                pa == paddr + md_size * i,
                la == laddr + md_size * i,
                paddr + md_size * METADATA_ARRAY_SIZE <= u64::MAX,
                laddr + md_size * METADATA_ARRAY_SIZE <= u64::MAX,
                forall|k: int| #![trigger self.metadata@[k]] 0 <= k < i ==>
                    self.metadata@[k] == (Metadata {
                        paddr: (paddr + md_size * k) as u64,
                        laddr: (laddr + md_size * k) as u64,
                        info: if alternate && k % 2 == 1 { Info::Free(md_size) } else { Info::Taken(md_size) },
                    }),
            decreases METADATA_ARRAY_SIZE - i,
        {
            let md = if alternate && i % 2 == 1 {
                Metadata::new_free(pa, la, md_size)
            } else {
                Metadata::new_taken(pa, la, md_size)
            };
            self.metadata.set(i, md);
            proof {
                assert(md_size * (i + 1) <= md_size * METADATA_ARRAY_SIZE) by (nonlinear_arith)
                    requires i + 1 <= METADATA_ARRAY_SIZE;
                assert(md_size * (i + 1) == md_size * i + md_size) by (nonlinear_arith);
            }
            pa = pa + md_size;
            la = la + md_size;
            i = i + 1;
        }
        self.size = METADATA_ARRAY_SIZE;
        proof { assert(self.entries() =~= self.metadata@); }
    }

    /// Returns the entry at the given index of the array
    pub fn entry_at(&self, idx: usize) -> (r: Metadata)
        requires
            self.wf_shape(),
            idx < METADATA_ARRAY_SIZE,
        ensures
            r == self.metadata@[idx as int],
    {
        self.metadata[idx]
    }

    /// Returns the number of entries in the page
    pub fn size(&self) -> (r: usize)
        requires
            self.wf_shape(),
        ensures
            r == self.entries().len(),
    {
        self.size
    }

    /// Returns the number of unused entries in the page
    pub fn unused_size(&self) -> (r: usize)
        requires
            self.wf_shape(),
        ensures
            r == METADATA_ARRAY_SIZE - self.entries().len(),
    {
        METADATA_ARRAY_SIZE - self.size
    }

    /// Checks whether the page contains any valid [`Metadata`] or not
    pub fn is_empty(&self) -> (r: bool)
        requires
            self.wf_shape(),
        ensures
            r == (self.entries().len() == 0),
    {
        self.size == 0
    }

    /// Checks whether the array has reached its maximum size or not
    pub fn is_full(&self) -> (r: bool)
        requires
            self.wf_shape(),
        ensures
            r == (self.entries().len() == METADATA_ARRAY_SIZE),
    {
        self.size == METADATA_ARRAY_SIZE
    }

    /// The index of the last entry, or `0` if the page is empty
    pub open spec fn spec_last_index(&self) -> int {
        if self.size == 0 { 0 } else { self.size - 1 }
    }

    /// Returns the index of the last valid entry of the array, or `0`
    /// if the array is empty
    pub fn last_index(&self) -> (r: usize)
        requires
            self.wf_shape(),
        ensures
            r == self.spec_last_index(),
    {
        match self.is_empty() {
            true => self.size,
            false => self.size - 1,
        }
    }

    /// Checks whether the given index is the last index
    pub fn is_last_index(&self, idx: usize) -> (r: bool)
        requires
            self.wf_shape(),
        ensures
            r == (idx == self.spec_last_index()),
    {
        idx == self.last_index()
    }

    /// Returns the lower physical address of the array, the one of the
    /// first entry (null if the page is empty)
    pub fn lower_paddr(&self) -> (r: u64)
        requires
            self.wf_shape(),
        ensures
            r == self.metadata@[0].paddr,
            self.entries().len() == 0 ==> r == 0,
    {
        self.metadata[0].lower_paddr()
    }

    /// The physical address one Byte off the end of the last entry
    pub open spec fn spec_higher_paddr(&self) -> int {
        self.metadata@[self.spec_last_index()].hi()
    }

    /// Returns the higher physical address of the array, the end of the last
    /// entry (null if the page is empty)
    pub fn higher_paddr(&self) -> (r: u64)
        requires
            self.wf(),
        ensures
            r == self.spec_higher_paddr(),
            self.entries().len() > 0 ==> r == self.entries().last().hi(),
            self.entries().len() == 0 ==> r == 0,
    {
        let last = self.last_index();
        proof {
            if self.size > 0 {
                assert(self.entries()[last as int] == self.metadata@[last as int]);
            }
        }
        self.metadata[last].higher_paddr()
    }

    /// Checks whether the given physical address is inside the range of addresses
    /// of the whole array, from the beginning of the first entry to the end of
    /// the last entry, both included
    pub fn contains_paddr(&self, paddr: u64) -> (r: bool)
        requires
            self.wf(),
        ensures
            r == (self.entries().len() > 0 && self.entries()[0].paddr <= paddr
                && paddr <= self.entries().last().hi()),
    {
        if self.is_empty() {
            return false;
        }
        proof { assert(self.entries()[0] == self.metadata@[0]); }
        self.lower_paddr() <= paddr && paddr <= self.higher_paddr()
    }

    /// Checks whether the given physical address is strictly inside the range
    /// of addresses of the array, from the beginning of the first entry (included)
    /// to the end of the last entry (excluded)
    pub fn contains_paddr_strict(&self, paddr: u64) -> (r: bool)
        requires
            self.wf(),
        ensures
            r == (self.entries().len() > 0 && self.entries()[0].paddr <= paddr
                && paddr < self.entries().last().hi()),
    {
        if self.is_empty() {
            return false;
        }
        proof { assert(self.entries()[0] == self.metadata@[0]); }
        self.lower_paddr() <= paddr && paddr < self.higher_paddr()
    }

    /// Copies all the entries from `src_idx` up to the end of the page toward
    /// the left by `n_shifts` positions, without shrinking the page
    ///
    /// Returns an [`Err`] if `n_shifts` is greater than `src_idx` or `src_idx`
    /// is not the index of an entry.
    pub fn shift_left(&mut self, src_idx: usize, n_shifts: usize) -> (r: Result<(), TracingPageError>)
        requires
            old(self).wf_shape(),
        ensures
            final(self).wf_shape(),
            final(self).size == old(self).size,
            r is Err <==> (src_idx < n_shifts || src_idx >= old(self).size),
            r is Err ==> r == Err::<(), _>(TracingPageError::LeftShiftPreconditions)
                && final(self).metadata@ == old(self).metadata@,
            r is Ok ==> final(self).metadata@ == old(self).metadata@.take(src_idx - n_shifts)
                + old(self).metadata@.subrange(src_idx as int, old(self).size as int)
                + old(self).metadata@.skip(old(self).size - n_shifts),
    {
        if src_idx < n_shifts || src_idx >= self.size {
            return Err(TracingPageError::LeftShiftPreconditions);
        }
        let dst_idx = src_idx - n_shifts;
        let count = self.size - src_idx;
        let ghost old_md = self.metadata@;
        let mut k: usize = 0;
        while k < count
            invariant
                dst_idx + n_shifts == src_idx,
                src_idx + count == self.size,
                self.size == old(self).size,
                self.size <= METADATA_ARRAY_SIZE,
                old_md.len() == METADATA_ARRAY_SIZE,
                k <= count,
                self.metadata@ == old_md.take(dst_idx as int) + old_md.subrange(src_idx as int, src_idx + k)
                    + old_md.skip(dst_idx + k),
            decreases count - k,
        {
            let md = self.metadata[src_idx + k];
            assert(md == old_md[src_idx + k]);
            self.metadata.set(dst_idx + k, md);
            k = k + 1;
            assert(self.metadata@ =~= old_md.take(dst_idx as int) + old_md.subrange(src_idx as int, src_idx + k)
                + old_md.skip(dst_idx + k));
        }
        Ok(())
    }

    /// Copies all the entries from `src_idx` up to the end of the page toward
    /// the right by `n_shifts` positions, growing the page accordingly
    ///
    /// Returns an [`Err`] if `src_idx` is not the index of an entry, or if the
    /// grown page would exceed its maximum size.
    pub fn shift_right(&mut self, src_idx: usize, n_shifts: usize) -> (r: Result<(), TracingPageError>)
        requires
            old(self).metadata@.len() == METADATA_ARRAY_SIZE,
            old(self).size <= METADATA_ARRAY_SIZE,
            old(self).size + n_shifts <= usize::MAX,
        ensures
            final(self).metadata@.len() == METADATA_ARRAY_SIZE,
            final(self).size <= METADATA_ARRAY_SIZE,
            old(self).wf_shape() ==> final(self).wf_shape(),
            r is Ok && old(self).size + n_shifts == METADATA_ARRAY_SIZE ==> final(self).wf_shape(),
            r is Err <==> (src_idx >= old(self).size || old(self).size + n_shifts > METADATA_ARRAY_SIZE),
            r is Err ==> r == Err::<(), _>(TracingPageError::RightShiftPreconditions)
                && *final(self) == *old(self),
            r is Ok ==> final(self).size == old(self).size + n_shifts
                && final(self).metadata@ == old(self).metadata@.take(src_idx + n_shifts)
                + old(self).metadata@.subrange(src_idx as int, old(self).size as int)
                + old(self).metadata@.skip(old(self).size + n_shifts),
    {
        if src_idx >= self.size || self.size + n_shifts > METADATA_ARRAY_SIZE {
            return Err(TracingPageError::RightShiftPreconditions);
        }
        let ghost old_md = self.metadata@;
        let size = self.size;
        let mut k: usize = size - src_idx;
        while k > 0
            invariant
                src_idx < size,
                size == old(self).size,
                size + n_shifts <= METADATA_ARRAY_SIZE,
                old_md.len() == METADATA_ARRAY_SIZE,
                k <= size - src_idx,
                self.size == size,
                self.metadata@ == old_md.take(src_idx + n_shifts + k) + old_md.subrange(src_idx + k, size as int)
                    + old_md.skip(size + n_shifts),
            decreases k,
        {
            let md = self.metadata[src_idx + k - 1];
            assert(md == old_md[src_idx + k - 1]);
            self.metadata.set(src_idx + n_shifts + k - 1, md);
            k = k - 1;
            assert(self.metadata@ =~= old_md.take(src_idx + n_shifts + k) + old_md.subrange(src_idx + k, size as int)
                + old_md.skip(size + n_shifts));
        }
        self.size = self.size + n_shifts;
        Ok(())
    }

    /// Shrinks the number of valid entries in the array to the given number
    /// and resets all the exceeding entries to the default
    pub fn shrink(&mut self, to_size: usize)
        requires
            old(self).wf_shape(),
            to_size <= old(self).size,
        ensures
            final(self).wf_shape(),
            final(self).size == to_size,
            final(self).entries() == old(self).entries().take(to_size as int),
            final(self).metadata@.take(to_size as int) == old(self).metadata@.take(to_size as int),
    {
        let ghost old_md = self.metadata@;
        let mut k: usize = to_size;
        while k < self.size
            invariant
                to_size <= k <= self.size,
                self.size == old(self).size,
                self.size <= METADATA_ARRAY_SIZE,
                self.metadata@.len() == METADATA_ARRAY_SIZE,
                old_md.len() == METADATA_ARRAY_SIZE,
                forall|i: int| #![trigger self.metadata@[i]] 0 <= i < to_size ==> self.metadata@[i] == old_md[i],
                forall|i: int| #![trigger self.metadata@[i]] to_size <= i < k ==> self.metadata@[i] == none_md(),
                forall|i: int| #![trigger self.metadata@[i]] k <= i < METADATA_ARRAY_SIZE ==> self.metadata@[i] == old_md[i],
                forall|i: int| #![trigger old_md[i]] old(self).size <= i < METADATA_ARRAY_SIZE ==> old_md[i] == none_md(),
            decreases self.size - k,
        {
            self.metadata.set(k, Metadata::default());
            k = k + 1;
        }
        self.size = to_size;
        assert(self.metadata@.take(to_size as int) =~= old_md.take(to_size as int));
        assert(self.entries() =~= old(self).entries().take(to_size as int));
        assert forall|i: int| #![trigger self.metadata@[i]] self.size <= i < METADATA_ARRAY_SIZE implies self.metadata@[i] == none_md() by {
            if i >= old(self).size {
                assert(self.metadata@[i] == old_md[i]);
            }
        }
    }

    /// Removes the last entry from the array and returns it, without checking
    /// whether the array is empty
    pub fn pop_unchecked(&mut self) -> (r: Metadata)
        requires
            old(self).wf_shape(),
            old(self).size > 0,
        ensures
            final(self).wf_shape(),
            final(self).size == old(self).size - 1,
            r == old(self).entries().last(),
            final(self).entries() == old(self).entries().drop_last(),
            old(self).wf() ==> final(self).wf(),
    {
        self.size = self.size - 1;
        let md = self.metadata[self.size];
        self.metadata.set(self.size, Metadata::default());
        proof {
            assert(self.entries() =~= old(self).entries().drop_last());
            if old(self).wf() {
                lemma_entries_ok_subrange(old(self).entries(), 0, self.size as int);
                assert(old(self).entries().subrange(0, self.size as int) =~= self.entries());
            }
        }
        md
    }

    /// Removes the last entry from the array and returns it
    ///
    /// Returns an [`Err`] if the array is empty.
    pub fn try_pop(&mut self) -> (r: Result<Metadata, TracingPageError>)
        requires
            old(self).wf(),
        ensures
            final(self).wf(),
            old(self).entries().len() == 0 ==> r == Err::<Metadata, _>(TracingPageError::PopPreconditions)
                && *final(self) == *old(self),
            old(self).entries().len() > 0 ==> r == Ok::<_, TracingPageError>(old(self).entries().last())
                && final(self).entries() == old(self).entries().drop_last(),
    {
        if self.is_empty() {
            return Err(TracingPageError::PopPreconditions);
        }
        Ok(self.pop_unchecked())
    }

    /// Inserts the given entry at the last position of the array, without checking
    /// the order of the entries nor whether it could be merged
    pub fn append_unchecked(&mut self, md: Metadata)
        requires
            old(self).wf_shape(),
            old(self).size < METADATA_ARRAY_SIZE,
        ensures
            final(self).wf_shape(),
            final(self).size == old(self).size + 1,
            final(self).entries() == old(self).entries().push(md),
    {
        self.metadata.set(self.size, md);
        self.size = self.size + 1;
        assert(self.entries() =~= old(self).entries().push(md));
    }

    /// Inserts the given entry at the given index of the array, moving the
    /// following entries one position toward the right, without checking the
    /// order of the entries nor whether it could be merged
    pub fn insert_unchecked(&mut self, idx: usize, md: Metadata)
        requires
            old(self).wf_shape(),
            idx < old(self).size,
            old(self).size < METADATA_ARRAY_SIZE,
        ensures
            final(self).wf_shape(),
            final(self).size == old(self).size + 1,
            final(self).entries() == old(self).entries().insert(idx as int, md),
    {
        let r = self.shift_right(idx, 1);
        assert(r is Ok);
        self.metadata.set(idx, md);
        assert(self.entries() =~= old(self).entries().insert(idx as int, md));
    }

    /// Checks whether the entry at the given index exists in the array
    pub fn can_extract(&self, idx: usize) -> (r: bool)
        requires
            self.wf_shape(),
        ensures
            r == (idx < self.entries().len()),
    {
        idx < self.size
    }

    /// Removes the entry at the given index from the array and returns it
    ///
    /// Returns an [`Err`] if `idx` is out-of-bounds.
    pub fn try_extract(&mut self, idx: usize) -> (r: Result<Metadata, TracingPageError>)
        requires
            old(self).wf(),
        ensures
            final(self).wf(),
            idx >= old(self).entries().len() ==> r == Err::<Metadata, _>(TracingPageError::ExtractPreconditions)
                && *final(self) == *old(self),
            idx < old(self).entries().len() ==> r == Ok::<_, TracingPageError>(old(self).entries()[idx as int])
                && final(self).entries() == old(self).entries().remove(idx as int),
    {
        if !self.can_extract(idx) {
            return Err(TracingPageError::ExtractPreconditions);
        }
        Ok(self.extract(idx))
    }

    /// Removes the entry at the given index from the array and returns it
    pub fn extract(&mut self, idx: usize) -> (r: Metadata)
        requires
            old(self).wf_shape(),
            idx < old(self).size,
        ensures
            final(self).wf_shape(),
            r == old(self).entries()[idx as int],
            final(self).entries() == old(self).entries().remove(idx as int),
            old(self).wf() ==> final(self).wf(),
    {
        if self.is_last_index(idx) {
            let r = self.pop_unchecked();
            assert(self.entries() =~= old(self).entries().remove(idx as int));
            r
        } else {
            self.extract_unchecked(idx)
        }
    }

    /// Removes the entry at the given index from the array and returns it,
    /// the index must not be the last one
    pub fn extract_unchecked(&mut self, idx: usize) -> (r: Metadata)
        requires
            old(self).wf_shape(),
            idx + 1 < old(self).size,
        ensures
            final(self).wf_shape(),
            r == old(self).entries()[idx as int],
            final(self).entries() == old(self).entries().remove(idx as int),
            old(self).wf() ==> final(self).wf(),
    {
        let md = self.metadata[idx];
        let r = self.shift_left(idx + 1, 1);
        assert(r is Ok);
        self.size = self.size - 1;
        self.metadata.set(self.size, Metadata::default());
        proof {
            assert(self.entries() =~= old(self).entries().remove(idx as int));
            if old(self).wf() {
                lemma_entries_ok_remove(old(self).entries(), idx as int);
            }
        }
        md
    }

    /// Removes the entry at the given index from the array
    pub fn remove_entry_unchecked(&mut self, idx: usize)
        requires
            old(self).wf_shape(),
            idx < old(self).size,
        ensures
            final(self).wf_shape(),
            final(self).entries() == old(self).entries().remove(idx as int),
            old(self).wf() ==> final(self).wf(),
    {
        let next_idx = idx + 1;
        if next_idx < self.size {
            let r = self.shift_left(next_idx, 1);
            assert(r is Ok);
        }
        self.size = self.size - 1;
        self.metadata.set(self.size, Metadata::default());
        proof {
            assert(self.entries() =~= old(self).entries().remove(idx as int));
            if old(self).wf() {
                lemma_entries_ok_remove(old(self).entries(), idx as int);
            }
        }
    }

    /// Whether an entry can be pushed in front of the array respecting the order
    pub open spec fn spec_can_push(&self, md: Metadata) -> bool {
        self.entries().len() == 0 || md.hi() <= self.entries()[0].paddr
    }

    /// Checks whether the given entry can be pushed to the array
    ///
    /// Returns `false` if pushing would not respect the order of the entries,
    /// `true` otherwise.
    pub fn can_push(&self, md: &Metadata) -> (r: bool)
        requires
            self.wf(),
            md.fits(),
        ensures
            r == self.spec_can_push(*md),
    {
        if self.is_empty() {
            return true;
        }
        proof { assert(self.entries()[0] == self.metadata@[0]); }
        md.higher_paddr() <= self.lower_paddr()
    }

    /// Inserts the given entry at the first position of the array
    ///
    /// The new entry is merged with the first entry, if they're both free and
    /// strictly contiguous to each other, otherwise it is inserted and the
    /// following entries move one position toward the right: if the array was
    /// full, its last entry is returned.
    pub fn push(&mut self, md: Metadata) -> (r: Option<Metadata>)
        requires
            old(self).wf(),
            !md.spec_is_none(),
            md.fits(),
        ensures
            final(self).wf_shape(),
            final(self).entries() == fit(push_combined(old(self).entries(), md)),
            r == overflow_opt(push_combined(old(self).entries(), md)),
            old(self).spec_can_push(md) ==> final(self).wf(),
            normalized(old(self).entries()) ==> normalized(final(self).entries()),
    {
        let ghost s = self.entries();
        proof {
            if normalized(s) {
                lemma_push_fit_normalized(s, md);
            }
        }
        if self.is_empty() {
            self.append_unchecked(md);
            assert(self.entries() =~= seq![md]);
            return None;
        }
        proof { assert(s[0] == self.metadata@[0]); }
        let both_free = md.is_free() && self.metadata[0].is_free();
        if both_free && self.metadata[0].is_contiguous_to(&md) {
            let mut first = self.metadata[0];
            first.grow(md.size(), Side::Left);
            self.metadata.set(0, first);
            proof {
                assert(self.entries() =~= s.update(0, s[0].spec_grown(md.sz(), Side::Left)));
                if self.spec_can_push(md) || true {
                    lemma_entries_ok_replace_first(s, s[0].spec_grown(md.sz(), Side::Left));
                }
            }
            return None;
        }
        let exceeding_md = match self.is_full() {
            true => Some(self.pop_unchecked()),
            false => None,
        };
        self.insert_unchecked(0, md);
        proof {
            let c = seq![md] + s;
            assert(c == push_combined(s, md));
            if s.len() == METADATA_ARRAY_SIZE {
                assert(self.entries() =~= c.take(METADATA_ARRAY_SIZE as int));
            } else {
                assert(self.entries() =~= c);
            }
            if md.hi() <= s[0].paddr {
                lemma_entries_ok_prepend(s, md);
                lemma_entries_ok_subrange(c, 0, self.entries().len() as int);
                assert(c.subrange(0, self.entries().len() as int) =~= self.entries());
            }
        }
        exceeding_md
    }

    /// Inserts the given entry at the first position of the array, as
    /// [`TracingPage::push()`] does
    ///
    /// Returns an [`Err`] if pushing would not respect the order of the entries.
    pub fn try_push(&mut self, md: Metadata) -> (r: Result<Option<Metadata>, TracingPageError>)
        requires
            old(self).wf(),
            !md.spec_is_none(),
            md.fits(),
        ensures
            final(self).wf(),
            !old(self).spec_can_push(md) ==> r == Err::<Option<Metadata>, _>(TracingPageError::PushPreconditions)
                && *final(self) == *old(self),
            old(self).spec_can_push(md) ==> r == Ok::<_, TracingPageError>(overflow_opt(push_combined(old(self).entries(), md)))
                && final(self).entries() == fit(push_combined(old(self).entries(), md)),
            normalized(old(self).entries()) ==> normalized(final(self).entries()),
    {
        if !self.can_push(&md) {
            return Err(TracingPageError::PushPreconditions);
        }
        Ok(self.push(md))
    }

    /// Whether an entry can be appended at the back of the array respecting the order
    pub open spec fn spec_can_append(&self, md: Metadata) -> bool {
        self.entries().len() == 0 || self.entries().last().hi() <= md.paddr
    }

    /// Checks whether the given entry can be appended to the array
    ///
    /// Returns `false` if appending would not respect the order of the entries,
    /// `true` otherwise.
    pub fn can_append(&self, md: &Metadata) -> (r: bool)
        requires
            self.wf(),
        ensures
            r == self.spec_can_append(*md),
    {
        self.is_empty() || self.higher_paddr() <= md.lower_paddr()
    }

    /// Inserts the given entry at the last position of the array
    ///
    /// The new entry is merged with the last entry, if they're both free and
    /// strictly contiguous to each other; otherwise it is appended, unless the
    /// array is full, in which case the entry itself is returned.
    pub fn append(&mut self, md: Metadata) -> (r: Option<Metadata>)
        requires
            old(self).wf(),
            !md.spec_is_none(),
            md.fits(),
        ensures
            final(self).wf_shape(),
            final(self).entries() == fit(append_combined(old(self).entries(), md)),
            r == overflow_opt(append_combined(old(self).entries(), md)),
            old(self).spec_can_append(md) ==> final(self).wf(),
            normalized(old(self).entries()) ==> normalized(final(self).entries()),
    {
        let ghost s = self.entries();
        proof {
            if normalized(s) {
                lemma_append_fit_normalized(s, md);
            }
        }
        if !self.is_empty() {
            let last = self.last_index();
            proof { assert(s[last as int] == self.metadata@[last as int]); }
            let both_free = md.is_free() && self.metadata[last].is_free();
            if both_free && md.is_contiguous_to(&self.metadata[last]) {
                let mut last_md = self.metadata[last];
                last_md.grow(md.size(), Side::Right);
                self.metadata.set(last, last_md);
                proof {
                    assert(self.entries() =~= s.update(s.len() - 1, s.last().spec_grown(md.sz(), Side::Right)));
                    lemma_entries_ok_replace_last(s, s.last().spec_grown(md.sz(), Side::Right));
                }
                return None;
            } else if self.is_full() {
                assert(append_combined(s, md) == s.push(md));
                assert(s.push(md).take(METADATA_ARRAY_SIZE as int) =~= s);
                return Some(md);
            }
        }
        self.append_unchecked(md);
        proof {
            if old(self).spec_can_append(md) {
                lemma_entries_ok_append(s, md);
            }
        }
        None
    }

    /// Inserts the given entry at the last position of the array, as
    /// [`TracingPage::append()`] does
    ///
    /// Returns an [`Err`] if appending would not respect the order of the entries.
    pub fn try_append(&mut self, md: Metadata) -> (r: Result<Option<Metadata>, TracingPageError>)
        requires
            old(self).wf(),
            !md.spec_is_none(),
            md.fits(),
        ensures
            final(self).wf(),
            !old(self).spec_can_append(md) ==> r == Err::<Option<Metadata>, _>(TracingPageError::AppendPreconditions)
                && *final(self) == *old(self),
            old(self).spec_can_append(md) ==> r == Ok::<_, TracingPageError>(overflow_opt(append_combined(old(self).entries(), md)))
                && final(self).entries() == fit(append_combined(old(self).entries(), md)),
    {
        if !self.can_append(&md) {
            return Err(TracingPageError::AppendPreconditions);
        }
        Ok(self.append(md))
    }

    /// Inserts the given entry in the array, respecting the order of the entries
    ///
    /// The entry, if it is free, is merged with the free entries it is strictly
    /// contiguous to, on either side; otherwise it is inserted. Returns an [`Excess`] holding the entry
    /// that does not fit in the page anymore, if any.
    #[verifier::rlimit(40)]
    pub fn insert(&mut self, md: Metadata) -> (r: Result<Excess, TracingPageError>)
        requires
            old(self).wf(),
            !md.spec_is_none(),
            md.fits(),
            !insert_unsupported(old(self).entries(), md),
        ensures
            final(self).wf_shape(),
            r is Ok,
            r->Ok_0.wf(),
            final(self).entries() == fit(insert_combined(old(self).entries(), md)),
            r->Ok_0@ == overflow(insert_combined(old(self).entries(), md)),
            sorted(old(self).entries().insert(insert_pos(old(self).entries(), md), md)) ==> final(self).wf(),
            normalized(old(self).entries()) && sorted(old(self).entries().insert(insert_pos(old(self).entries(), md), md))
                ==> normalized(final(self).entries()) && normalized(r->Ok_0@),
    {
        let ghost s = self.entries();
        proof {
            if normalized(s) && sorted(s.insert(insert_pos(s, md), md)) {
                lemma_insert_normalized(s, md);
            }
        }
        if self.can_append(&md) {
            let o = self.append(md);
            proof {
                let c = append_combined(s, md);
                assert(overflow(c) =~= match o { Some(m) => seq![m], None => Seq::<Metadata>::empty() });
                if sorted(s.insert(s.len() as int, md)) {
                    if s.len() > 0 {
                        assert(s.insert(s.len() as int, md)[s.len() - 1] == s.last());
                        assert(s.insert(s.len() as int, md)[s.len() as int] == md);
                    }
                }
            }
            return Ok(Excess::from_option(o));
        } else if self.can_push(&md) {
            let o = self.push(md);
            proof {
                let c = push_combined(s, md);
                assert(overflow(c) =~= match o { Some(m) => seq![m], None => Seq::<Metadata>::empty() });
            }
            return Ok(Excess::from_option(o));
        }
        let md_lower_paddr = md.lower_paddr();
        let mut i: usize = 0;
        while i < self.size
            invariant
                self.wf(),
                self.entries() == s,
                s == old(self).entries(),
                !md.spec_is_none(),
                md.fits(),
                md_lower_paddr == md.paddr,
                s.len() > 0,
                s.last().hi() > md.paddr,
                !insert_appends(s, md),
                !insert_pushes(s, md),
                !insert_unsupported(s, md),
                i <= s.len(),
                forall|k: int| #![trigger s[k]] 0 <= k < i ==> s[k].hi() < md.paddr,
                normalized(s) && sorted(s.insert(insert_pos(s, md), md))
                    ==> normalized(fit(insert_combined(s, md))) && normalized(overflow(insert_combined(s, md))),
            decreases self.size - i,
        {
            proof { assert(s[i as int] == self.metadata@[i as int]); }
            let curr_md_higher_paddr = self.metadata[i].higher_paddr();
            if curr_md_higher_paddr < md_lower_paddr {
                i = i + 1;
                continue;
            }
            proof {
                assert(is_first_hi_ge(s, md.paddr, i as int));
                lemma_first_hi_ge_unique(s, md.paddr, i as int);
            }
            if md.is_free() && self.metadata[i].is_free() {
                if md.is_contiguous_to(&self.metadata[i]) {
                    if i + 1 < self.size {
                        proof { assert(s[i + 1] == self.metadata@[i + 1]); }
                        let next = self.metadata[i + 1];
                        if next.is_free() && next.is_contiguous_to(&md) {
                            let mut cur = self.metadata[i];
                            proof { assert(s[i as int].hi() + md.sz() + next.sz() == next.hi()); }
                            cur.grow(md.size() + next.size(), Side::Right);
                            self.metadata.set(i, cur);
                            proof {
                                let c = s.update(i as int, s[i as int].spec_grown((md.sz() + s[i + 1].sz()) as u64, Side::Right));
                                assert(self.entries() =~= c);
                                lemma_entries_ok_absorb_next(s, i as int, c[i as int]);
                            }
                            self.remove_entry_unchecked(i + 1);
                            proof {
                                let c = s.update(i as int, s[i as int].spec_grown((md.sz() + s[i + 1].sz()) as u64, Side::Right)).remove(i + 1);
                                assert(mergeable(s[i as int], md));
                                assert(mergeable(md, s[i + 1]));
                                assert(insert_combined(s, md) == c);
                                assert(fit(c) == c);
                                assert(overflow(c) =~= Seq::<Metadata>::empty());
                            }
                            return Ok(Excess::none());
                        }
                    }
                    let mut cur = self.metadata[i];
                    cur.grow(md.size(), Side::Right);
                    self.metadata.set(i, cur);
                    proof {
                        let c = s.update(i as int, s[i as int].spec_grown(md.sz(), Side::Right));
                        assert(self.entries() =~= c);
                        assert(mergeable(s[i as int], md));
                        assert(insert_combined(s, md) == c);
                        assert(fit(c) == c);
                        assert(overflow(c) =~= Seq::<Metadata>::empty());
                        if sorted(s.insert(i + 1, md)) {
                            lemma_merge_right_ok(s, md, i as int);
                        }
                    }
                    return Ok(Excess::none());
                } else if self.metadata[i].is_contiguous_to(&md) {
                    let mut cur = self.metadata[i];
                    cur.grow(md.size(), Side::Left);
                    self.metadata.set(i, cur);
                    proof {
                        let c = s.update(i as int, s[i as int].spec_grown(md.sz(), Side::Left));
                        assert(self.entries() =~= c);
                        assert(mergeable(md, s[i as int]));
                        assert(insert_combined(s, md) == c);
                        assert(fit(c) == c);
                        assert(overflow(c) =~= Seq::<Metadata>::empty());
                        if sorted(s.insert(insert_pos(s, md), md)) {
                            lemma_merge_left_ok(s, md, i as int, insert_pos(s, md));
                        }
                    }
                    return Ok(Excess::none());
                }
            }
            if md.is_free() && curr_md_higher_paddr == md_lower_paddr && i + 1 < self.size {
                proof { assert(s[i + 1] == self.metadata@[i + 1]); }
                if self.metadata[i + 1].is_free() && self.metadata[i + 1].is_contiguous_to(&md) {
                    let mut nxt = self.metadata[i + 1];
                    nxt.grow(md.size(), Side::Left);
                    self.metadata.set(i + 1, nxt);
                    proof {
                        let c = s.update(i + 1, s[i + 1].spec_grown(md.sz(), Side::Left));
                        assert(self.entries() =~= c);
                        assert(!mergeable(s[i as int], md));
                        assert(!mergeable(md, s[i as int]));
                        assert(merges_after_first(s, md));
                        assert(insert_combined(s, md) == c);
                        assert(fit(c) == c);
                        assert(overflow(c) =~= Seq::<Metadata>::empty());
                        assert(insert_pos(s, md) == i + 1);
                        if sorted(s.insert(insert_pos(s, md), md)) {
                            lemma_merge_left_ok(s, md, i + 1, i + 1);
                        }
                    }
                    return Ok(Excess::none());
                }
            }
            let ghost first = i as int;
            let i = match curr_md_higher_paddr == md_lower_paddr {
                true => i + 1,
                false => i,
            };
            proof {
                assert(!mergeable(s[first], md));
                assert(!mergeable(md, s[first]));
                assert(!merges_after_first(s, md));
                assert(insert_between_pos(s, md) == i);
                if i == s.len() {
                    assert(s.last() == s[first]);
                }
                assert(i < s.len());
                assert(s.len() == METADATA_ARRAY_SIZE ==> i < s.len() - 1);
            }
            let excess = match self.is_full() {
                true => Excess::single(self.pop_unchecked()),
                false => Excess::none(),
            };
            assert(self.wf_shape());
            assert(self.entries().len() == self.size);
            assert(self.size < METADATA_ARRAY_SIZE);
            assert(i < self.size);
            self.insert_unchecked(i, md);
            proof {
                let c = s.insert(i as int, md);
                if s.len() == METADATA_ARRAY_SIZE {
                    assert(self.entries() =~= c.take(METADATA_ARRAY_SIZE as int));
                    assert(excess@ =~= c.skip(METADATA_ARRAY_SIZE as int));
                } else {
                    assert(self.entries() =~= c);
                    assert(excess@ =~= Seq::<Metadata>::empty());
                }
                if sorted(c) {
                    lemma_entries_ok_insert(s, md, i as int);
                    lemma_entries_ok_subrange(c, 0, self.entries().len() as int);
                    assert(c.subrange(0, self.entries().len() as int) =~= self.entries());
                }
            }
            return Ok(excess);
        }
        proof {
            assert(s[s.len() - 1].hi() < md.paddr);
        }
        Err(TracingPageError::NotFound)
    }

    /// Replaces the entries from `dst_idx` to `src_idx`, both included, with
    /// the given entry
    fn collapse(&mut self, dst_idx: usize, src_idx: usize, md: Metadata)
        requires
            old(self).wf_shape(),
            dst_idx <= src_idx < old(self).size,
        ensures
            final(self).wf_shape(),
            final(self).entries() == old(self).entries().take(dst_idx as int) + seq![md]
                + old(self).entries().skip(src_idx + 1),
    {
        let ghost s = self.entries();
        let n_shifts = src_idx - dst_idx;
        if n_shifts > 0 {
            let ghost m0 = self.metadata@;
            let r = self.shift_left(src_idx, n_shifts);
            assert(r is Ok);
            let ghost m1 = self.metadata@;
            self.shrink(self.size - n_shifts);
            assert(self.entries() =~= s.take(dst_idx as int) + s.skip(src_idx as int));
        }
        let ghost s2 = self.entries();
        self.metadata.set(dst_idx, md);
        assert(self.entries() =~= s2.update(dst_idx as int, md));
        assert(self.entries() =~= s.take(dst_idx as int) + seq![md] + s.skip(src_idx + 1));
    }

    /// Marks the entry at the given index as free and merges it with the
    /// previous and the next entries, if they're free and strictly contiguous to it
    ///
    /// Returns an [`Err`] if `merge_idx` is out-of-bounds.
    pub fn free_and_try_merge(&mut self, merge_idx: usize) -> (r: Result<(), TracingPageError>)
        requires
            old(self).wf(),
            merge_idx < METADATA_ARRAY_SIZE,
        ensures
            final(self).wf(),
            merge_idx >= old(self).entries().len() ==> r == Err::<(), _>(TracingPageError::MergePreconditions)
                && *final(self) == *old(self),
            merge_idx < old(self).entries().len() ==> r is Ok
                && final(self).entries() == free_merge_combined(old(self).entries(), merge_idx as int),
    {
        let ghost s = self.entries();
        if merge_idx >= self.size || self.metadata[merge_idx].is_none() {
            proof {
                if merge_idx < self.size {
                    assert(s[merge_idx as int] == self.metadata@[merge_idx as int]);
                }
            }
            return Err(TracingPageError::MergePreconditions);
        }
        proof { assert(s[merge_idx as int] == self.metadata@[merge_idx as int]); }
        let mut md = self.metadata[merge_idx];
        md.set_free();
        let mut src_idx = merge_idx;
        let mut dst_idx = merge_idx;
        if merge_idx > 0 {
            let prev_idx = merge_idx - 1;
            proof { assert(s[prev_idx as int] == self.metadata@[prev_idx as int]); }
            let pmd = self.metadata[prev_idx];
            if pmd.is_free() && md.is_contiguous_to(&pmd) {
                md.paddr = pmd.paddr;
                md.laddr = pmd.laddr;
                md.info.add_size(pmd.size());
                dst_idx = dst_idx - 1;
            }
        }
        let next_idx = merge_idx + 1;
        if next_idx < self.size {
            proof { assert(s[next_idx as int] == self.metadata@[next_idx as int]); }
            let nmd = self.metadata[next_idx];
            if nmd.is_free() && nmd.is_contiguous_to(&md) {
                md.info.add_size(nmd.size());
                src_idx = src_idx + 1;
            }
        }
        let ghost merged = Metadata {
            paddr: s[merge_low(s, merge_idx as int)].paddr,
            laddr: s[merge_low(s, merge_idx as int)].laddr,
            info: Info::Free(sizes_between(s, merge_low(s, merge_idx as int), merge_high(s, merge_idx as int)) as u64),
        };
        proof {
            let lo = merge_low(s, merge_idx as int);
            let hi = merge_high(s, merge_idx as int);
            assert(lo == dst_idx && hi == src_idx);
            assert(sizes_between(s, lo, lo - 1) == 0);
            assert(sizes_between(s, lo, lo) == s[lo].sz());
            if hi == lo + 1 {
                assert(sizes_between(s, lo, lo + 1) == s[lo + 1].sz() + s[lo].sz());
            }
            if hi == lo + 2 {
                assert(sizes_between(s, lo, lo + 1) == s[lo + 1].sz() + s[lo].sz());
                assert(sizes_between(s, lo, lo + 2) == s[lo + 2].sz() + s[lo + 1].sz() + s[lo].sz());
            }
            assert(md == merged);
        }
        if src_idx == dst_idx {
            let mut cur = self.metadata[merge_idx];
            cur.set_free();
            self.metadata.set(merge_idx, cur);
            proof {
                assert(self.entries() =~= free_merge_combined(s, merge_idx as int));
                lemma_entries_ok_replace(s, merge_idx as int, merged);
                assert(s.update(merge_idx as int, merged) =~= self.entries());
            }
            return Ok(());
        }
        self.collapse(dst_idx, src_idx, md);
        proof {
            assert(free_merge_combined(s, merge_idx as int) == s.take(dst_idx as int) + seq![merged] + s.skip(src_idx + 1));
            lemma_entries_ok_merge(s, dst_idx as int, src_idx as int, merged);
        }
        Ok(())
    }

    /// Marks the entry starting at the given physical address as free, merging
    /// it with the free entries strictly contiguous to it
    ///
    /// Returns an [`Err`] if no entry contains the address, if the address is not
    /// the beginning of its entry, or if the entry is already free. Otherwise
    /// returns an [`Ok`] containing the size of the entry.
    pub fn drop(&mut self, paddr: u64) -> (r: Result<u64, TracingPageError>)
        requires
            old(self).wf(),
        ensures
            final(self).wf(),
            normalized(old(self).entries()) ==> normalized(final(self).entries()),
            !has_containing(old(self).entries(), paddr) ==> r == Err::<u64, _>(TracingPageError::NotFound)
                && *final(self) == *old(self),
            has_containing(old(self).entries(), paddr) ==> ({
                let s = old(self).entries();
                let i = first_containing(s, paddr);
                &&& s[i].paddr != paddr ==> r == Err::<u64, _>(TracingPageError::DropPreconditions)
                    && *final(self) == *old(self)
                &&& s[i].paddr == paddr && s[i].spec_is_free() ==> r == Err::<u64, _>(TracingPageError::EntryIsFree)
                    && *final(self) == *old(self)
                &&& s[i].paddr == paddr && !s[i].spec_is_free() ==> r == Ok::<u64, TracingPageError>(s[i].sz())
                    && final(self).entries() == free_merge_combined(s, i)
            }),
    {
        let ghost s = self.entries();
        let mut i: usize = 0;
        while i < self.size
            invariant
                self.wf(),
                self.entries() == s,
                s == old(self).entries(),
                *self == *old(self),
                i <= s.len(),
                forall|k: int| #![trigger s[k]] 0 <= k < i ==> !s[k].spec_contains(paddr),
            decreases self.size - i,
        {
            proof { assert(s[i as int] == self.metadata@[i as int]); }
            if self.metadata[i].contains(paddr) {
                proof {
                    assert(is_first_containing(s, paddr, i as int));
                    lemma_first_containing_unique(s, paddr, i as int);
                }
                if self.metadata[i].lower_paddr() != paddr {
                    return Err(TracingPageError::DropPreconditions);
                } else if self.metadata[i].is_free() {
                    return Err(TracingPageError::EntryIsFree);
                }
                let size = self.metadata[i].size();
                let r = self.free_and_try_merge(i);
                assert(r is Ok);
                proof {
                    if normalized(s) {
                        lemma_drop_normalized(s, i as int);
                    }
                }
                return Ok(size);
            }
            i = i + 1;
        }
        Err(TracingPageError::NotFound)
    }

    /// Splits the entry at the given index into two entries, the first one
    /// `split_size` Bytes long, both keeping their type
    ///
    /// Returns an [`Err`] if `split_idx` is out-of-bounds or `split_size` is
    /// bigger than the entry. Otherwise returns an [`Ok`] containing the entry
    /// that must be moved to the next page, if the array is full: the last
    /// entry, or the upper part of the split entry when that was the last one.
    pub fn split(&mut self, split_idx: usize, split_size: u64) -> (r: Result<Option<Metadata>, TracingPageError>)
        requires
            old(self).wf(),
        ensures
            final(self).wf(),
            ({
                let s = old(self).entries();
                let n = s.len();
                let i = split_idx as int;
                &&& i >= n ==> r == Err::<Option<Metadata>, _>(TracingPageError::SplitPreconditions)
                    && *final(self) == *old(self)
                &&& i < n && s[i].sz() < split_size ==> r == Err::<Option<Metadata>, _>(TracingPageError::EntrySizeMismatch)
                    && *final(self) == *old(self)
                &&& i < n && s[i].sz() == split_size ==> r == Ok::<_, TracingPageError>(None::<Metadata>)
                    && *final(self) == *old(self)
                &&& i < n && s[i].sz() > split_size ==> ({
                    let c = replace_with(s, i, split_pieces(s[i], split_size));
                    &&& r == Ok::<_, TracingPageError>(overflow_opt(c))
                    &&& final(self).entries() == fit(c)
                })
            }),
    {
        let ghost s = self.entries();
        if split_idx >= self.size || self.metadata[split_idx].is_none() {
            proof {
                if split_idx < self.size {
                    assert(s[split_idx as int] == self.metadata@[split_idx as int]);
                }
            }
            return Err(TracingPageError::SplitPreconditions);
        }
        proof { assert(s[split_idx as int] == self.metadata@[split_idx as int]); }
        let entry_size = self.metadata[split_idx].size();
        if entry_size < split_size {
            return Err(TracingPageError::EntrySizeMismatch);
        } else if entry_size == split_size {
            return Ok(None);
        }
        let mut md = self.metadata[split_idx];
        let mut lower = self.metadata[split_idx];
        let _ = lower.set_size(split_size);
        self.metadata.set(split_idx, lower);
        md.shrink(split_size, Side::Left);
        let ghost pieces = split_pieces(s[split_idx as int], split_size);
        let ghost c = replace_with(s, split_idx as int, pieces);
        let ghost s1 = s.update(split_idx as int, lower);
        proof {
            assert(self.entries() =~= s1);
            lemma_split_pieces_ok(s, split_idx as int, split_size);
        }
        let next_idx = split_idx + 1;
        if next_idx == self.size {
            if self.is_full() {
                proof {
                    assert(c.take(METADATA_ARRAY_SIZE as int) =~= s1);
                    lemma_entries_ok_subrange(c, 0, s1.len() as int);
                    assert(c.subrange(0, s1.len() as int) =~= s1);
                }
                return Ok(Some(md));
            } else {
                self.append_unchecked(md);
                proof { assert(self.entries() =~= c); }
                return Ok(None);
            }
        } else {
            let excess_md = match self.is_full() {
                true => Some(self.pop_unchecked()),
                false => None,
            };
            proof {
                lemma_entries_ok_replace(s, split_idx as int, lower);
                if excess_md is Some {
                    assert(self.entries() =~= s1.drop_last());
                    lemma_entries_ok_subrange(s1, 0, s1.len() - 1);
                    assert(s1.subrange(0, s1.len() - 1) =~= s1.drop_last());
                }
            }
            let ghost s2 = self.entries();
            if next_idx == self.size {
                proof {
                    lemma_split_pieces_ok(s, split_idx as int, split_size);
                    assert(c.take(METADATA_ARRAY_SIZE as int) =~= s2.push(md));
                    lemma_entries_ok_subrange(c, 0, METADATA_ARRAY_SIZE as int);
                }
                self.append_unchecked(md);
                proof {
                    assert(self.entries() =~= c.take(METADATA_ARRAY_SIZE as int));
                }
                return Ok(excess_md);
            }
            let r = self.shift_right(next_idx, 1);
            assert(r is Ok);
            self.metadata.set(next_idx, md);
            proof {
                assert(self.entries() =~= s2.take(next_idx as int) + seq![md] + s2.skip(next_idx as int));
                if s.len() == METADATA_ARRAY_SIZE {
                    assert(self.entries() =~= c.take(METADATA_ARRAY_SIZE as int));
                    lemma_entries_ok_subrange(c, 0, METADATA_ARRAY_SIZE as int);
                } else {
                    assert(self.entries() =~= c);
                }
            }
            return Ok(excess_md);
        }
    }

    /// Splits the entry at the given index into two entries, the first one
    /// `split_size` Bytes long, both keeping their type, without checking
    pub fn split_unchecked(&mut self, split_idx: usize, split_size: u64)
        requires
            old(self).wf(),
            split_idx < old(self).size,
            old(self).size < METADATA_ARRAY_SIZE,
            split_size <= old(self).entries()[split_idx as int].sz(),
        ensures
            final(self).wf(),
            final(self).entries() == replace_with(old(self).entries(), split_idx as int,
                split_pieces(old(self).entries()[split_idx as int], split_size)),
    {
        let ghost s = self.entries();
        proof { assert(s[split_idx as int] == self.metadata@[split_idx as int]); }
        let mut lower_md = self.metadata[split_idx];
        let _ = lower_md.set_size(split_size);
        let mut upper = self.metadata[split_idx];
        upper.shrink(split_size, Side::Left);
        self.metadata.set(split_idx, upper);
        let r = self.shift_right(split_idx, 1);
        assert(r is Ok);
        self.metadata.set(split_idx, lower_md);
        proof {
            let c = replace_with(s, split_idx as int, split_pieces(s[split_idx as int], split_size));
            assert(self.entries() =~= c);
            lemma_split_pieces_ok(s, split_idx as int, split_size);
        }
    }

    /// Marks the portion of memory of `size` Bytes starting at the given physical
    /// address as taken, splitting the free entry containing it if needed
    ///
    /// Returns an [`Err`] if no entry contains the address, if the entry is taken
    /// or if it is smaller than `size`. Otherwise returns an [`Ok`] containing an
    /// [`Excess`] with the entries which must be moved to the next page.
    pub fn take(&mut self, paddr: u64, size: u64) -> (r: Result<Excess, TracingPageError>)
        requires
            old(self).wf(),
            !take_unsupported(old(self).entries(), paddr, size),
        ensures
            final(self).wf(),
            normalized(old(self).entries()) ==> normalized(final(self).entries()),
            r is Ok ==> r->Ok_0.wf(),
            !has_containing(old(self).entries(), paddr) ==> r == Err::<Excess, _>(TracingPageError::NotFound)
                && *final(self) == *old(self),
            has_containing(old(self).entries(), paddr) ==> ({
                let s = old(self).entries();
                let n = s.len() as int;
                let i = first_containing(s, paddr);
                let m = s[i];
                &&& m.spec_is_taken() ==> r == Err::<Excess, _>(TracingPageError::EntryIsTaken)
                    && *final(self) == *old(self)
                &&& m.spec_is_free() && m.sz() < size ==> r == Err::<Excess, _>(TracingPageError::EntrySizeMismatch)
                    && *final(self) == *old(self)
                &&& m.spec_is_free() && m.sz() == size ==> r is Ok && r->Ok_0@ == Seq::<Metadata>::empty()
                    && final(self).entries() == s.update(i, m.spec_taken())
                &&& m.spec_is_free() && m.sz() > size && m.paddr == paddr ==> r is Ok
                    && final(self).entries() == fit(replace_with(s, i, take_pieces_lower(m, size)))
                    && r->Ok_0@ == overflow(replace_with(s, i, take_pieces_lower(m, size)))
                &&& m.spec_is_free() && m.sz() > size && m.paddr != paddr && m.hi() == paddr + size ==> r is Ok
                    && final(self).entries() == fit(replace_with(s, i, take_pieces_higher(m, size)))
                    && r->Ok_0@ == overflow(replace_with(s, i, take_pieces_higher(m, size)))
                &&& m.spec_is_free() && m.sz() > size && m.paddr != paddr && m.hi() != paddr + size ==> ({
                    let c = replace_with(s, i, take_pieces_middle(m, paddr, size));
                    &&& r is Ok
                    &&& final(self).entries() == keep_upto(c, middle_split(n, i))
                    &&& r->Ok_0@ == move_from(c, middle_split(n, i))
                })
            }),
    {
        let ghost s = self.entries();
        let mut i: usize = 0;
        while i < self.size
            invariant
                self.wf(),
                self.entries() == s,
                s == old(self).entries(),
                *self == *old(self),
                i <= s.len(),
                !take_unsupported(s, paddr, size),
                forall|k: int| #![trigger s[k]] 0 <= k < i ==> !s[k].spec_contains(paddr),
            decreases self.size - i,
        {
            proof { assert(s[i as int] == self.metadata@[i as int]); }
            if !self.metadata[i].contains(paddr) {
                i = i + 1;
                continue;
            }
            proof {
                assert(is_first_containing(s, paddr, i as int));
                lemma_first_containing_unique(s, paddr, i as int);
            }
            if self.metadata[i].is_taken() {
                return Err(TracingPageError::EntryIsTaken);
            }
            let entry_size = self.metadata[i].size();
            if entry_size < size {
                return Err(TracingPageError::EntrySizeMismatch);
            } else if entry_size == size {
                let mut cur = self.metadata[i];
                cur.set_taken();
                self.metadata.set(i, cur);
                proof {
                    assert(self.entries() =~= s.update(i as int, s[i as int].spec_taken()));
                    lemma_entries_ok_replace(s, i as int, s[i as int].spec_taken());
                    assert(self.entries() == page_take(s, paddr, size).1);
                    if normalized(s) {
                        lemma_take_normalized(s, paddr, size);
                    }
                }
                return Ok(Excess::none());
            } else {
                proof {
                    assert(!take_unsupported(s, paddr, size));
                    assert(s[i as int].spec_is_free() && s[i as int].sz() > size);
                    assert(paddr + size <= s[i as int].hi());
                }
                let r = if self.metadata[i].lower_paddr() == paddr {
                    self.take_entry_lower_higher(i, paddr, size, Side::Left)
                } else if self.metadata[i].higher_paddr() == paddr + size {
                    self.take_entry_lower_higher(i, paddr, size, Side::Right)
                } else {
                    self.take_entry_middle(i, paddr, size)
                };
                proof {
                    assert(self.entries() == page_take(s, paddr, size).1);
                    if normalized(s) {
                        lemma_take_normalized(s, paddr, size);
                    }
                }
                return r;
            }
        }
        Err(TracingPageError::NotFound)
    }

    /// Takes the lower or the higher part of the free entry at the given index
    fn take_entry_lower_higher(&mut self, i: usize, paddr: u64, size: u64, side: Side) -> (r: Result<Excess, TracingPageError>)
        requires
            old(self).wf(),
            i < old(self).size,
            old(self).entries()[i as int].spec_is_free(),
            old(self).entries()[i as int].sz() > size,
            side == Side::Left ==> old(self).entries()[i as int].paddr == paddr,
            side == Side::Right ==> old(self).entries()[i as int].hi() == paddr + size,
            !(old(self).size == METADATA_ARRAY_SIZE && i + 2 == old(self).size),
        ensures
            final(self).wf(),
            r is Ok,
            r->Ok_0.wf(),
            ({
                let s = old(self).entries();
                let m = s[i as int];
                let c = replace_with(s, i as int, match side {
                    Side::Left => take_pieces_lower(m, size),
                    Side::Right => take_pieces_higher(m, size),
                });
                &&& final(self).entries() == fit(c)
                &&& r->Ok_0@ == overflow(c)
            }),
    {
        let ghost s = self.entries();
        proof { assert(s[i as int] == self.metadata@[i as int]); }
        let mut cur = self.metadata[i];
        let excess_md = match side {
            Side::Left => {
                let mut higher_md = cur;
                let _ = cur.set_size(size);
                cur.set_taken();
                higher_md.shrink(size, Side::Left);
                higher_md
            },
            Side::Right => {
                let mut higher_md = cur;
                cur.shrink(size, Side::Right);
                higher_md.shrink(cur.size(), Side::Left);
                higher_md.set_taken();
                higher_md
            },
        };
        self.metadata.set(i, cur);
        assert(self.size == old(self).size);
        assert(self.metadata@.len() == METADATA_ARRAY_SIZE);
        let ghost pieces = seq![cur, excess_md];
        let ghost c = replace_with(s, i as int, pieces);
        let ghost s1 = s.update(i as int, cur);
        proof {
            assert(self.entries() =~= s1);
            lemma_entries_ok_replace_with(s, i as int, pieces);
            lemma_entries_ok_subrange(c, 0, i + 1);
            assert(c.subrange(0, i + 1) =~= s1.take(i + 1));
        }
        let next_i = i + 1;
        if self.is_full() {
            if next_i == self.size {
                proof {
                    assert(c.take(METADATA_ARRAY_SIZE as int) =~= s1);
                    assert(c.skip(METADATA_ARRAY_SIZE as int) =~= seq![excess_md]);
                }
                return Ok(Excess::single(excess_md));
            } else {
                assert(next_i + 1 < self.size);
                let popped = self.pop_unchecked();
                let excess = Excess::single(popped);
                assert(self.entries().len() == self.size);
                assert(next_i < self.size);
                self.insert_unchecked(next_i, excess_md);
                proof {
                    assert(self.entries() =~= c.take(METADATA_ARRAY_SIZE as int));
                    assert(excess@ =~= c.skip(METADATA_ARRAY_SIZE as int));
                    lemma_entries_ok_subrange(c, 0, METADATA_ARRAY_SIZE as int);
                }
                return Ok(excess);
            }
        } else {
            if next_i == self.size {
                self.append_unchecked(excess_md);
            } else {
                self.insert_unchecked(next_i, excess_md);
            }
            proof {
                assert(self.entries() =~= c);
            }
            return Ok(Excess::none());
        }
    }

    /// Takes the middle part of the free entry at the given index
    #[verifier::rlimit(50)]
    fn take_entry_middle(&mut self, i: usize, paddr: u64, size: u64) -> (r: Result<Excess, TracingPageError>)
        requires
            old(self).wf(),
            i < old(self).size,
            old(self).entries()[i as int].spec_is_free(),
            old(self).entries()[i as int].paddr < paddr,
            paddr + size < old(self).entries()[i as int].hi(),
        ensures
            final(self).wf(),
            r is Ok ==> r->Ok_0.wf(),
            ({
                let s = old(self).entries();
                let n = s.len() as int;
                let m = s[i as int];
                let c = replace_with(s, i as int, take_pieces_middle(m, paddr, size));
                &&& r is Ok
                &&& final(self).entries() == keep_upto(c, middle_split(n, i as int))
                &&& r->Ok_0@ == move_from(c, middle_split(n, i as int))
            }),
    {
        let ghost s = self.entries();
        let ghost n = s.len() as int;
        proof { assert(s[i as int] == self.metadata@[i as int]); }
        let lower_diff = paddr - self.metadata[i].lower_paddr();
        let mut middle_md = self.metadata[i];
        middle_md.shrink(lower_diff, Side::Left);
        let _ = middle_md.set_size(size);
        middle_md.set_taken();
        let mut higher_md = self.metadata[i];
        higher_md.shrink(lower_diff + size, Side::Left);
        let mut lower_md = self.metadata[i];
        let _ = lower_md.set_size(lower_diff);
        self.metadata.set(i, lower_md);
        let ghost pieces = seq![lower_md, middle_md, higher_md];
        let ghost c = replace_with(s, i as int, pieces);
        let ghost s1 = s.update(i as int, lower_md);
        proof {
            assert(pieces == take_pieces_middle(s[i as int], paddr, size));
            assert(self.entries() =~= s1);
            lemma_entries_ok_replace_with(s, i as int, pieces);
            lemma_entries_ok_replace(s, i as int, lower_md);
        }
        let next_i = i + 1;
        let unused_size = self.unused_size();
        if unused_size == 0 {
            if next_i == self.size {
                proof {
                    assert(c.take(METADATA_ARRAY_SIZE as int) =~= s1);
                    assert(c.skip(METADATA_ARRAY_SIZE as int) =~= seq![middle_md, higher_md]);
                }
                return Ok(Excess::double(middle_md, higher_md));
            } else if self.is_last_index(next_i) {
                let excess_md = self.metadata[next_i];
                self.metadata.set(next_i, middle_md);
                proof {
                    assert(excess_md == s[n - 1]);
                    assert(self.entries() =~= c.take(METADATA_ARRAY_SIZE as int));
                    assert(c.skip(METADATA_ARRAY_SIZE as int) =~= seq![higher_md, excess_md]);
                    lemma_entries_ok_subrange(c, 0, METADATA_ARRAY_SIZE as int);
                }
                return Ok(Excess::double(higher_md, excess_md));
            } else {
                let md = self.pop_unchecked();
                assert(self.entries().len() == self.size);
                let md0 = self.pop_unchecked();
                let excess = Excess::double(md0, md);
                proof {
                    assert(self.entries() =~= s1.take(n - 2));
                    lemma_entries_ok_subrange(s1, 0, n - 2);
                    assert(s1.subrange(0, n - 2) =~= s1.take(n - 2));
                }
                let ghost s2 = self.entries();
                if next_i == self.size {
                    self.append_unchecked(middle_md);
                    self.append_unchecked(higher_md);
                } else {
                    let r = self.shift_right(next_i, 2);
                    assert(r is Ok);
                    self.metadata.set(next_i, middle_md);
                    self.metadata.set(next_i + 1, higher_md);
                }
                proof {
                    assert(self.entries() =~= s2.take(next_i as int) + seq![middle_md, higher_md] + s2.skip(next_i as int));
                    assert(self.entries() =~= c.take(METADATA_ARRAY_SIZE as int));
                    assert(excess@ =~= c.skip(METADATA_ARRAY_SIZE as int));
                    lemma_entries_ok_subrange(c, 0, METADATA_ARRAY_SIZE as int);
                }
                return Ok(excess);
            }
        } else if unused_size == 1 {
            if next_i == self.size {
                self.append_unchecked(middle_md);
                proof {
                    assert(self.entries() =~= c.take(METADATA_ARRAY_SIZE as int));
                    assert(c.skip(METADATA_ARRAY_SIZE as int) =~= seq![higher_md]);
                    lemma_entries_ok_subrange(c, 0, METADATA_ARRAY_SIZE as int);
                }
                return Ok(Excess::single(higher_md));
            } else if self.is_last_index(next_i) {
                let excess_md = self.metadata[next_i];
                self.metadata.set(next_i, middle_md);
                assert(self.size + 1 == METADATA_ARRAY_SIZE);
                self.append_unchecked(higher_md);
                proof {
                    assert(excess_md == s[n - 1]);
                    assert(self.entries() =~= c.take(METADATA_ARRAY_SIZE as int));
                    assert(c.skip(METADATA_ARRAY_SIZE as int) =~= seq![excess_md]);
                    lemma_entries_ok_subrange(c, 0, METADATA_ARRAY_SIZE as int);
                }
                return Ok(Excess::single(excess_md));
            } else {
                let md = self.pop_unchecked();
                assert(self.entries().len() == self.size);
                let md0 = self.pop_unchecked();
                let excess = Excess::double(md0, md);
                proof {
                    assert(self.entries() =~= s1.take(n - 2));
                    lemma_entries_ok_subrange(s1, 0, n - 2);
                    assert(s1.subrange(0, n - 2) =~= s1.take(n - 2));
                }
                let ghost s2 = self.entries();
                if next_i == self.size {
                    self.append_unchecked(middle_md);
                    self.append_unchecked(higher_md);
                } else {
                    let r = self.shift_right(next_i, 2);
                    assert(r is Ok);
                    self.metadata.set(next_i, middle_md);
                    self.metadata.set(next_i + 1, higher_md);
                }
                proof {
                    assert(self.entries() =~= s2.take(next_i as int) + seq![middle_md, higher_md] + s2.skip(next_i as int));
                    assert(self.entries() =~= c.take(n));
                    assert(excess@ =~= c.skip(n));
                    lemma_entries_ok_subrange(c, 0, n);
                }
                return Ok(excess);
            }
        } else {
            if next_i == self.size {
                assert(self.size + 2 <= METADATA_ARRAY_SIZE);
                self.append_unchecked(middle_md);
                assert(self.entries().len() == self.size);
                self.append_unchecked(higher_md);
            } else {
                let r = self.shift_right(next_i, 2);
                assert(r is Ok);
                self.metadata.set(next_i, middle_md);
                self.metadata.set(next_i + 1, higher_md);
            }
            proof {
                assert(self.entries() =~= c);
            }
            return Ok(Excess::none());
        }
    }

    /// Resizes the taken entry starting at the given physical address to
    /// `new_size` Bytes
    ///
    /// Returns an [`Err`] if no entry contains the address, if the address is
    /// not the beginning of its entry or if the entry is free, or if the entry
    /// cannot grow. Otherwise returns an [`Ok`] containing a [`Reminder`] with
    /// what must be added to or removed from the next page.
    pub fn resize(&mut self, paddr: u64, new_size: u64) -> (r: Result<Reminder, TracingPageError>)
        requires
            old(self).wf(),
            !resize_unsupported(old(self).entries(), paddr, new_size),
        ensures
            final(self).wf(),
            !has_containing(old(self).entries(), paddr) ==> r == Err::<Reminder, _>(TracingPageError::NotFound)
                && *final(self) == *old(self),
            has_containing(old(self).entries(), paddr) ==> ({
                let s = old(self).entries();
                let i = first_containing(s, paddr);
                &&& s[i].paddr != paddr ==> r == Err::<Reminder, _>(TracingPageError::ResizePreconditions)
                    && *final(self) == *old(self)
                &&& s[i].paddr == paddr && s[i].spec_is_free() ==> r == Err::<Reminder, _>(TracingPageError::EntryIsFree)
                    && *final(self) == *old(self)
                &&& s[i].paddr == paddr && !s[i].spec_is_free() ==> old(self).resized(*final(self), i, new_size, r)
            }),
            normalized(old(self).entries()) ==> normalized(final(self).entries()),
    {
        let ghost s = self.entries();
        let mut i: usize = 0;
        while i < self.size
            invariant
                self.wf(),
                self.entries() == s,
                s == old(self).entries(),
                *self == *old(self),
                !resize_unsupported(s, paddr, new_size),
                i <= s.len(),
                forall|k: int| #![trigger s[k]] 0 <= k < i ==> !s[k].spec_contains(paddr),
            decreases self.size - i,
        {
            proof { assert(s[i as int] == self.metadata@[i as int]); }
            if self.metadata[i].contains(paddr) {
                proof {
                    assert(is_first_containing(s, paddr, i as int));
                    lemma_first_containing_unique(s, paddr, i as int);
                }
                if self.metadata[i].lower_paddr() != paddr {
                    return Err(TracingPageError::ResizePreconditions);
                } else if self.metadata[i].is_free() {
                    return Err(TracingPageError::EntryIsFree);
                }
                proof {
                    if normalized(s) {
                        lemma_entry_resize_normalized(s, i as int, new_size);
                    }
                }
                return self.resize_entry(i, new_size);
            }
            i = i + 1;
        }
        Err(TracingPageError::NotFound)
    }

    /// The outcome of resizing the taken entry at index `i` of this page to
    /// `new_size` Bytes is the page `after` and the result `r`
    pub open spec fn resized(&self, after: TracingPage, i: int, new_size: u64, r: Result<Reminder, TracingPageError>) -> bool {
        let s = self.entries();
        let n = s.len();
        let m = s[i];
        let next = i + 1;
        if m.sz() > new_size {
            let cur = m.spec_with_size(new_size);
            let higher = shrink_release(m, new_size);
            if next < n && s[next].spec_is_free() && s[next].spec_contiguous_to(m) {
                &&& r == Ok::<Reminder, TracingPageError>(Reminder::Zero)
                &&& after.entries() == s.update(i, cur).update(next, s[next].spec_grown(higher.sz(), Side::Left))
            } else {
                let c = replace_with(s, i, seq![cur, higher]);
                &&& r == Ok::<Reminder, TracingPageError>(positive_overflow(c))
                &&& after.entries() == fit(c)
            }
        } else if m.sz() < new_size {
            let diff = (new_size - m.sz()) as u64;
            let cur = m.spec_grown(diff, Side::Right);
            if next == n {
                if n < METADATA_ARRAY_SIZE {
                    &&& r == Err::<Reminder, _>(TracingPageError::ResizePreconditions)
                    &&& after == *self
                } else {
                    &&& r == Ok::<Reminder, TracingPageError>(Reminder::Negative(expand_missing(m, new_size)))
                    &&& after.entries() == s.update(i, cur)
                }
            } else if s[next].spec_is_taken() || !s[next].spec_contiguous_to(m) {
                &&& r == Err::<Reminder, _>(TracingPageError::ResizePreconditions)
                &&& after == *self
            } else if s[next].sz() < diff {
                &&& r == Err::<Reminder, _>(TracingPageError::EntrySizeMismatch)
                &&& after == *self
            } else if s[next].sz() > diff {
                &&& r == Ok::<Reminder, TracingPageError>(Reminder::Zero)
                &&& after.entries() == s.update(i, cur).update(next, s[next].spec_shrunk(diff, Side::Left))
            } else {
                &&& r == Ok::<Reminder, TracingPageError>(Reminder::Zero)
                &&& after.entries() == s.update(i, cur).remove(next)
            }
        } else {
            &&& r == Ok::<Reminder, TracingPageError>(Reminder::Zero)
            &&& after == *self
        }
    }

    /// Resizes the taken entry at the given index
    fn resize_entry(&mut self, i: usize, new_size: u64) -> (r: Result<Reminder, TracingPageError>)
        requires
            old(self).wf(),
            i < old(self).size,
            old(self).entries()[i as int].spec_is_taken(),
            !resize_unsupported(old(self).entries(), old(self).entries()[i as int].paddr, new_size),
            first_containing(old(self).entries(), old(self).entries()[i as int].paddr) == i,
            has_containing(old(self).entries(), old(self).entries()[i as int].paddr),
        ensures
            final(self).wf(),
            old(self).resized(*final(self), i as int, new_size, r),
    {
        proof { assert(self.entries()[i as int] == self.metadata@[i as int]); }
        let old_size = self.metadata[i].size();
        if old_size > new_size {
            return self.resize_entry_shrink(i, new_size);
        } else if old_size < new_size {
            return self.resize_entry_expand(i, old_size, new_size);
        } else {
            return Ok(Reminder::zero());
        }
    }

    /// Resizes the taken entry at the given index by shrinking it
    fn resize_entry_shrink(&mut self, i: usize, new_size: u64) -> (r: Result<Reminder, TracingPageError>)
        requires
            old(self).wf(),
            i < old(self).size,
            old(self).entries()[i as int].spec_is_taken(),
            old(self).entries()[i as int].sz() > new_size,
            !(old(self).size == METADATA_ARRAY_SIZE && i + 2 == old(self).size
                && !(old(self).entries()[i + 1].spec_is_free()
                    && old(self).entries()[i + 1].spec_contiguous_to(old(self).entries()[i as int]))),
        ensures
            final(self).wf(),
            old(self).resized(*final(self), i as int, new_size, r),
    {
        let ghost s = self.entries();
        let ghost n = s.len() as int;
        proof { assert(s[i as int] == self.metadata@[i as int]); }
        let next_i = i + 1;
        let mut higher_md = self.metadata[i];
        higher_md.shrink(new_size, Side::Left);
        higher_md.set_free();
        let mut cur = self.metadata[i];
        cur.shrink(higher_md.size(), Side::Right);
        self.metadata.set(i, cur);
        let ghost c = replace_with(s, i as int, seq![cur, higher_md]);
        let ghost s1 = s.update(i as int, cur);
        proof {
            assert(higher_md.hi() == s[i as int].hi() && higher_md.hi_l() == s[i as int].hi_l());
            assert(cur == s[i as int].spec_with_size(new_size));
            assert(self.entries() =~= s1);
            assert(self.size == old(self).size);
            lemma_entries_ok_replace_with(s, i as int, seq![cur, higher_md]);
            lemma_entries_ok_replace(s, i as int, cur);
        }
        if next_i == self.size {
            if self.is_full() {
                proof {
                    assert(c.take(METADATA_ARRAY_SIZE as int) =~= s1);
                    assert(overflow_opt(c) == Some(higher_md));
                }
                return Ok(Reminder::positive(higher_md));
            } else {
                self.append_unchecked(higher_md);
                proof { assert(self.entries() =~= c); }
                return Ok(Reminder::zero());
            }
        }
        proof { assert(s[next_i as int] == self.metadata@[next_i as int]); }
        if self.metadata[next_i].is_free() && self.metadata[next_i].is_contiguous_to(&higher_md) {
            let mut next_md = self.metadata[next_i];
            next_md.grow(higher_md.size(), Side::Left);
            self.metadata.set(next_i, next_md);
            proof {
                let t = s1.update(next_i as int, next_md);
                assert(self.entries() =~= t);
                assert(next_md.paddr == cur.hi());
                lemma_entries_ok_shift_boundary(s, i as int, cur, next_md);
            }
            return Ok(Reminder::zero());
        } else {
            proof {
                assert(!(s[next_i as int].spec_is_free() && s[next_i as int].spec_contiguous_to(s[i as int])));
                assert(self.size == n);
                assert(self.size == METADATA_ARRAY_SIZE ==> next_i + 1 < self.size);
            }
            let excess_md = match self.is_full() {
                true => Some(self.pop_unchecked()),
                false => None,
            };
            assert(self.entries().len() == self.size);
            self.insert_unchecked(next_i, higher_md);
            proof {
                if n == METADATA_ARRAY_SIZE {
                    assert(self.entries() =~= c.take(METADATA_ARRAY_SIZE as int));
                    assert(overflow_opt(c) == Some(s[n - 1]));
                    lemma_entries_ok_subrange(c, 0, METADATA_ARRAY_SIZE as int);
                } else {
                    assert(self.entries() =~= c);
                }
            }
            return match excess_md {
                Some(md) => Ok(Reminder::positive(md)),
                None => Ok(Reminder::zero()),
            };
        }
    }

    /// Resizes the taken entry at the given index by expanding it
    fn resize_entry_expand(&mut self, i: usize, old_size: u64, new_size: u64) -> (r: Result<Reminder, TracingPageError>)
        requires
            old(self).wf(),
            i < old(self).size,
            old(self).entries()[i as int].spec_is_taken(),
            old(self).entries()[i as int].sz() == old_size,
            old_size < new_size,
            i + 1 == old(self).size && old(self).size == METADATA_ARRAY_SIZE ==>
                old(self).entries()[i as int].paddr + new_size <= u64::MAX
                && old(self).entries()[i as int].laddr + new_size <= u64::MAX,
        ensures
            final(self).wf(),
            old(self).resized(*final(self), i as int, new_size, r),
    {
        let ghost s = self.entries();
        proof { assert(s[i as int] == self.metadata@[i as int]); }
        let next_i = i + 1;
        if next_i == self.size {
            if !self.is_full() {
                return Err(TracingPageError::ResizePreconditions);
            }
        } else {
            proof { assert(s[next_i as int] == self.metadata@[next_i as int]); }
            if self.metadata[next_i].is_taken() || !self.metadata[next_i].is_contiguous_to(&self.metadata[i]) {
                return Err(TracingPageError::ResizePreconditions);
            }
        }
        let diff_size = new_size - old_size;
        if next_i == self.size {
            let mut cur = self.metadata[i];
            cur.grow(diff_size, Side::Right);
            self.metadata.set(i, cur);
            let mut missing_md = cur;
            missing_md.shift_up(diff_size);
            let _ = missing_md.set_size(diff_size);
            missing_md.set_free();
            proof {
                assert(self.entries() =~= s.update(i as int, cur));
                lemma_entries_ok_replace_last(s, cur);
            }
            return Ok(Reminder::negative(missing_md));
        } else {
            let next_md_size = self.metadata[next_i].size();
            if next_md_size < diff_size {
                return Err(TracingPageError::EntrySizeMismatch);
            }
            let mut cur = self.metadata[i];
            cur.grow(diff_size, Side::Right);
            self.metadata.set(i, cur);
            let ghost s1 = s.update(i as int, cur);
            if next_md_size > diff_size {
                let mut next_md = self.metadata[next_i];
                next_md.shrink(diff_size, Side::Left);
                self.metadata.set(next_i, next_md);
                proof {
                    assert(self.entries() =~= s1.update(next_i as int, next_md));
                    lemma_entries_ok_shift_boundary(s, i as int, cur, next_md);
                }
                return Ok(Reminder::zero());
            } else {
                proof {
                    assert(self.entries() =~= s1);
                }
                self.remove_entry_unchecked(next_i);
                proof {
                    lemma_entries_ok_absorb_next(s, i as int, cur);
                }
                return Ok(Reminder::zero());
            }
        }
    }

    /// Whether all the entries of an [`Excess`] can be pushed in front of the array
    pub open spec fn spec_can_push_excess(&self, exc: Seq<Metadata>) -> bool {
        forall|k: int| #![trigger exc[k]] 0 <= k < exc.len() ==> self.spec_can_push(exc[k])
    }

    /// Checks whether the entries of the given [`Excess`] can be pushed to the array
    ///
    /// Returns `false` if pushing would not respect the order of the entries,
    /// `true` otherwise.
    pub fn can_push_excess(&self, exc: &Excess) -> (r: bool)
        requires
            self.wf(),
            exc.wf(),
            entries_ok(exc@),
        ensures
            r == self.spec_can_push_excess(exc@),
    {
        proof {
            if exc.size >= 1 { assert(exc@[0] == exc.first); }
            if exc.size == 2 { assert(exc@[1] == exc.second); }
        }
        match exc.size {
            1 => self.can_push(&exc.first),
            2 => self.can_push(&exc.first) && self.can_push(&exc.second),
            _ => true,
        }
    }

    /// Pushes the entries of the given [`Excess`] in front of the array, in order
    ///
    /// Returns an [`Err`] if pushing would not respect the order of the entries,
    /// or if two entries that cannot be merged are pushed to a page missing a
    /// single entry. Otherwise returns an [`Ok`] containing an [`Excess`] with
    /// the entries that must be moved to the next page.
    pub fn try_push_excess(&mut self, exc: Excess) -> (r: Result<Excess, TracingPageError>)
        requires
            old(self).wf(),
            exc.wf(),
            entries_ok(exc@),
        ensures
            final(self).wf_shape(),
            final(self).wf(),
            r is Ok ==> r->Ok_0.wf(),
            !old(self).spec_can_push_excess(exc@) ==> r == Err::<Excess, _>(TracingPageError::PushPreconditions)
                && *final(self) == *old(self),
            old(self).spec_can_push_excess(exc@) ==> ({
                let s = old(self).entries();
                let c = push_excess_combined(s, exc@);
                if exc@.len() == 2 && s.len() + 1 == METADATA_ARRAY_SIZE && !mergeable(exc@[1], s[0]) {
                    &&& r == Err::<Excess, _>(TracingPageError::RightShiftPreconditions)
                    &&& *final(self) == *old(self)
                } else {
                    &&& r is Ok
                    &&& final(self).entries() == fit(c)
                    &&& r->Ok_0@ == overflow(c)
                    &&& final(self).wf()
                }
            }),
    {
        let ghost s = self.entries();
        if !self.can_push_excess(&exc) {
            return Err(TracingPageError::PushPreconditions);
        }
        proof {
            if exc.size >= 1 { assert(exc@[0] == exc.first); }
            if exc.size == 2 { assert(exc@[1] == exc.second); }
        }
        match exc.size {
            0 => {
                proof { assert(overflow(s) =~= Seq::<Metadata>::empty()); }
                Ok(Excess::none())
            },
            1 => {
                let o = self.push(exc.first);
                proof {
                    let c = push_combined(s, exc.first);
                    assert(overflow(c) =~= match o { Some(m) => seq![m], None => Seq::<Metadata>::empty() });
                }
                Ok(Excess::from_option(o))
            },
            2 => {
                if self.is_empty() {
                    self.metadata.set(0, exc.first);
                    self.metadata.set(1, exc.second);
                    self.size = self.size + 2;
                    proof {
                        assert(self.entries() =~= exc@);
                        assert(overflow(exc@) =~= Seq::<Metadata>::empty());
                    }
                    return Ok(Excess::none());
                }
                proof { assert(s[0] == self.metadata@[0]); }
                let both_free = exc.second.is_free() && self.metadata[0].is_free();
                if both_free && self.metadata[0].is_contiguous_to(&exc.second) {
                    let mut first = self.metadata[0];
                    first.grow(exc.second.size(), Side::Left);
                    self.metadata.set(0, first);
                    let ghost s1 = s.update(0, first);
                    proof {
                        assert(self.entries() =~= s1);
                        lemma_entries_ok_replace_first(s, first);
                    }
                    let excess = match self.is_full() {
                        true => Excess::single(self.pop_unchecked()),
                        false => Excess::none(),
                    };
                    self.insert_unchecked(0, exc.first);
                    proof {
                        let c = seq![exc.first] + s1;
                        lemma_entries_ok_prepend(s1, exc.first);
                        if s.len() == METADATA_ARRAY_SIZE {
                            assert(self.entries() =~= c.take(METADATA_ARRAY_SIZE as int));
                            assert(excess@ =~= c.skip(METADATA_ARRAY_SIZE as int));
                            lemma_entries_ok_subrange(c, 0, METADATA_ARRAY_SIZE as int);
                        } else {
                            assert(self.entries() =~= c);
                            assert(excess@ =~= Seq::<Metadata>::empty());
                        }
                    }
                    return Ok(excess);
                } else {
                    let ghost full = self.size == METADATA_ARRAY_SIZE;
                    let excess = match self.is_full() {
                        false => Excess::none(),
                        true => {
                            let aux = Excess::double(self.metadata[self.size - 2], self.metadata[self.size - 1]);
                            self.size = self.size - 2;
                            aux
                        },
                    };
                    let r = self.shift_right(0, 2);
                    if r.is_err() {
                        return Err(TracingPageError::RightShiftPreconditions);
                    }
                    self.metadata.set(0, exc.first);
                    self.metadata.set(1, exc.second);
                    proof {
                        let c = exc@ + s;
                        lemma_entries_ok_prepend(s, exc.second);
                        lemma_entries_ok_prepend(seq![exc.second] + s, exc.first);
                        assert(seq![exc.first] + (seq![exc.second] + s) =~= c);
                        if full {
                            assert(excess@ =~= c.skip(METADATA_ARRAY_SIZE as int));
                            assert(self.entries() =~= c.take(METADATA_ARRAY_SIZE as int));
                            lemma_entries_ok_subrange(c, 0, METADATA_ARRAY_SIZE as int);
                        } else {
                            assert(self.entries() =~= c);
                            assert(excess@ =~= Seq::<Metadata>::empty());
                        }
                    }
                    return Ok(excess);
                }
            },
            _ => Err(TracingPageError::InternalFailure),
        }
    }

    /// Removes the entries from `lo` (included) to `hi` (excluded)
    fn remove_range(&mut self, lo: usize, hi: usize)
        requires
            old(self).wf_shape(),
            lo <= hi <= old(self).size,
        ensures
            final(self).wf_shape(),
            final(self).entries() == old(self).entries().take(lo as int) + old(self).entries().skip(hi as int),
            old(self).wf() ==> final(self).wf(),
    {
        let ghost s = self.entries();
        let n_shifts = hi - lo;
        if hi < self.size {
            let r = self.shift_left(hi, n_shifts);
            assert(r is Ok);
        }
        self.shrink(self.size - n_shifts);
        proof {
            assert(self.entries() =~= s.take(lo as int) + s.skip(hi as int));
            if old(self).wf() {
                lemma_entries_ok_cut(s, lo as int, hi as int);
            }
        }
    }

    /// Checks whether an undefined amount of space starting at the given
    /// physical address is contained in the array
    pub fn can_remove(&self, paddr: u64) -> (r: bool)
        requires
            self.wf(),
        ensures
            r == (self.entries().len() > 0 && self.entries()[0].paddr <= paddr
                && paddr < self.entries().last().hi()),
    {
        self.contains_paddr_strict(paddr)
    }

    /// Checks whether inserting `md` is a request that [`TracingPage::insert()`]
    /// cannot serve
    pub fn cannot_insert(&self, md: &Metadata) -> (r: bool)
        requires
            self.wf(),
            md.fits(),
        ensures
            r == insert_unsupported(self.entries(), *md),
    {
        let ghost s = self.entries();
        if self.size != METADATA_ARRAY_SIZE {
            return false;
        }
        proof {
            assert(s[0] == self.metadata@[0]);
            assert(s.last() == self.metadata@[self.size - 1]);
        }
        let last = self.metadata[self.size - 1];
        if last.higher_paddr() <= md.lower_paddr() || md.higher_paddr() <= self.metadata[0].lower_paddr() {
            return false;
        }
        let mut i: usize = 0;
        while i < self.size
            invariant
                self.wf(),
                self.entries() == s,
                s.len() == METADATA_ARRAY_SIZE,
                s.last().hi() > md.paddr,
                md.fits(),
                i <= s.len(),
                forall|k: int| #![trigger s[k]] 0 <= k < i ==> s[k].hi() < md.paddr,
            decreases self.size - i,
        {
            proof { assert(s[i as int] == self.metadata@[i as int]); }
            let m = self.metadata[i];
            if m.higher_paddr() >= md.lower_paddr() {
                proof {
                    assert(is_first_hi_ge(s, md.paddr, i as int));
                    lemma_first_hi_ge_unique(s, md.paddr, i as int);
                }
                let merges = (m.is_free() && md.is_free() && md.is_contiguous_to(&m))
                    || (md.is_free() && m.is_free() && m.is_contiguous_to(md));
                let pos = if m.higher_paddr() == md.lower_paddr() { i + 1 } else { i };
                let merges_next = if m.higher_paddr() == md.lower_paddr() && i + 1 < self.size {
                    proof { assert(s[i + 1] == self.metadata@[i + 1]); }
                    let next = self.metadata[i + 1];
                    md.is_free() && next.is_free() && next.is_contiguous_to(md)
                } else {
                    false
                };
                return !merges && !merges_next && pos == self.size - 1;
            }
            i = i + 1;
        }
        proof { assert(s[s.len() - 1].hi() < md.paddr); }
        false
    }

    /// Checks whether taking `size` Bytes from `paddr` is a request that
    /// [`TracingPage::take()`] cannot serve
    pub fn cannot_take(&self, paddr: u64, size: u64) -> (r: bool)
        requires
            self.wf(),
        ensures
            r == take_unsupported(self.entries(), paddr, size),
    {
        let ghost s = self.entries();
        let mut i: usize = 0;
        while i < self.size
            invariant
                self.wf(),
                self.entries() == s,
                i <= s.len(),
                forall|k: int| #![trigger s[k]] 0 <= k < i ==> !s[k].spec_contains(paddr),
            decreases self.size - i,
        {
            proof { assert(s[i as int] == self.metadata@[i as int]); }
            if self.metadata[i].contains(paddr) {
                proof {
                    assert(is_first_containing(s, paddr, i as int));
                    lemma_first_containing_unique(s, paddr, i as int);
                }
                let m = self.metadata[i];
                let hi = m.higher_paddr();
                let before_last_of_full = self.size == METADATA_ARRAY_SIZE && i + 2 == self.size;
                return m.is_free() && m.size() > size
                    && (size > hi - paddr || (before_last_of_full && (m.lower_paddr() == paddr || hi - paddr == size)));
            }
            i = i + 1;
        }
        false
    }

    /// Checks whether removing `size` Bytes from `paddr` is a request that
    /// [`TracingPage::remove()`] cannot serve
    pub fn cannot_remove(&self, paddr: u64, size: u64) -> (r: bool)
        requires
            self.wf(),
        ensures
            r == remove_unsupported(self.entries(), paddr, size),
    {
        let ghost s = self.entries();
        let mut i: usize = 0;
        while i < self.size
            invariant
                self.wf(),
                self.entries() == s,
                i <= s.len(),
                forall|k: int| #![trigger s[k]] 0 <= k < i ==> !s[k].spec_contains(paddr),
            decreases self.size - i,
        {
            proof { assert(s[i as int] == self.metadata@[i as int]); }
            if self.metadata[i].contains(paddr) {
                proof {
                    assert(is_first_containing(s, paddr, i as int));
                    lemma_first_containing_unique(s, paddr, i as int);
                }
                let m = self.metadata[i];
                let hi = m.higher_paddr();
                let before_last_of_full = self.size == METADATA_ARRAY_SIZE && i + 2 == self.size;
                return m.lower_paddr() != paddr && m.size() > size && m.is_free() && hi - paddr != size
                    && (size > hi - paddr || before_last_of_full);
            }
            i = i + 1;
        }
        false
    }

    /// Removes `size` Bytes starting at the given physical address from the array,
    /// as [`TracingPage::remove()`] does
    ///
    /// Returns an [`Err`] if the address is not strictly inside the range of
    /// addresses of the array.
    pub fn try_remove(&mut self, paddr: u64, size: u64) -> (r: Result<Reminder, TracingPageError>)
        requires
            old(self).wf(),
            !remove_unsupported(old(self).entries(), paddr, size),
        ensures
            final(self).wf(),
            !(old(self).entries().len() > 0 && old(self).entries()[0].paddr <= paddr
                && paddr < old(self).entries().last().hi()) ==>
                r == Err::<Reminder, _>(TracingPageError::RemovePreconditions) && *final(self) == *old(self),
            (old(self).entries().len() > 0 && old(self).entries()[0].paddr <= paddr
                && paddr < old(self).entries().last().hi()) ==>
                (r, final(self).entries()) == remove_outcome(old(self).entries(), paddr, size),
            normalized(old(self).entries()) && size > 0 ==> normalized(final(self).entries()),
    {
        if !self.can_remove(paddr) {
            return Err(TracingPageError::RemovePreconditions);
        }
        self.remove(paddr, size)
    }

    /// Removes `size` Bytes starting at the given physical address, which may
    /// span several contiguous entries
    ///
    /// Returns an [`Err`] if the space overlaps a taken entry without entirely
    /// removing it, or if the entries are not contiguous. Otherwise returns an
    /// [`Ok`] with a [`Reminder`] holding what must be removed from, or added to,
    /// the next page.
    pub fn remove(&mut self, paddr: u64, size: u64) -> (r: Result<Reminder, TracingPageError>)
        requires
            old(self).wf(),
            !remove_unsupported(old(self).entries(), paddr, size),
        ensures
            final(self).wf(),
            (r, final(self).entries()) == remove_outcome(old(self).entries(), paddr, size),
            r is Err && remove_outcome(old(self).entries(), paddr, size).1 == old(self).entries()
                ==> *final(self) == *old(self),
            normalized(old(self).entries()) && size > 0 ==> normalized(final(self).entries()),
    {
        let ghost s = self.entries();
        proof {
            if normalized(s) && size > 0 {
                lemma_remove_normalized(s, paddr, size);
            }
        }
        let mut i: usize = 0;
        while i < self.size
            invariant
                self.wf(),
                self.entries() == s,
                s == old(self).entries(),
                *self == *old(self),
                !remove_unsupported(s, paddr, size),
                normalized(s) && size > 0 ==> normalized(remove_outcome(s, paddr, size).1),
                i <= s.len(),
                forall|k: int| #![trigger s[k]] 0 <= k < i ==> !s[k].spec_contains(paddr),
            decreases self.size - i,
        {
            proof { assert(s[i as int] == self.metadata@[i as int]); }
            if !self.metadata[i].contains(paddr) {
                i = i + 1;
                continue;
            }
            proof {
                assert(is_first_containing(s, paddr, i as int));
                lemma_first_containing_unique(s, paddr, i as int);
            }
            if self.metadata[i].lower_paddr() == paddr {
                return self.remove_chain(i, paddr, size);
            }
            return self.remove_inside(i, paddr, size);
        }
        Err(TracingPageError::NotFound)
    }

    /// Removes `size` Bytes starting at `paddr`, inside the entry at index `i0`
    /// but not at its beginning
    fn remove_inside(&mut self, i0: usize, paddr: u64, size: u64) -> (r: Result<Reminder, TracingPageError>)
        requires
            old(self).wf(),
            is_first_containing(old(self).entries(), paddr, i0 as int),
            old(self).entries()[i0 as int].paddr != paddr,
            !remove_unsupported(old(self).entries(), paddr, size),
        ensures
            final(self).wf(),
            (r, final(self).entries()) == remove_outcome(old(self).entries(), paddr, size),
            r is Err && remove_outcome(old(self).entries(), paddr, size).1 == old(self).entries()
                ==> *final(self) == *old(self),
    {
        let ghost s = self.entries();
        let ghost n = s.len() as int;
        proof {
            lemma_first_containing_unique(s, paddr, i0 as int);
            assert(s[i0 as int] == self.metadata@[i0 as int]);
        }
        let m = self.metadata[i0];
        let entry_size = m.size();
        let next_i = i0 + 1;
        if entry_size > size {
            if m.is_taken() {
                return Err(TracingPageError::InvalidRequest);
            }
            if m.higher_paddr() == paddr + size {
                let cur = m.shrunk(size, Side::Right);
                self.metadata.set(i0, cur);
                proof {
                    assert(self.entries() =~= s.update(i0 as int, cur));
                    lemma_entries_ok_replace(s, i0 as int, cur);
                }
                return Ok(Reminder::zero());
            }
            let lower_diff = paddr - m.lower_paddr();
            let upper_md = m.shrunk(lower_diff + size, Side::Left);
            let mut lower = m;
            let _ = lower.set_size(lower_diff);
            self.metadata.set(i0, lower);
            let ghost c = replace_with(s, i0 as int, seq![lower, upper_md]);
            let ghost s1 = s.update(i0 as int, lower);
            proof {
                assert(seq![lower, upper_md] == remove_pieces_middle(m, paddr, size));
                assert(self.entries() =~= s1);
                assert(self.size == n);
                lemma_entries_ok_replace_with(s, i0 as int, seq![lower, upper_md]);
                lemma_entries_ok_replace(s, i0 as int, lower);
            }
            if next_i == self.size {
                if self.is_full() {
                    proof {
                        assert(c.take(METADATA_ARRAY_SIZE as int) =~= s1);
                        assert(overflow_opt(c) == Some(upper_md));
                    }
                    return Ok(Reminder::positive(upper_md));
                }
                self.append_unchecked(upper_md);
                proof { assert(self.entries() =~= c); }
                return Ok(Reminder::zero());
            }
            let rem = match self.is_full() {
                true => Reminder::positive(self.pop_unchecked()),
                false => Reminder::zero(),
            };
            assert(self.entries().len() == self.size);
            self.insert_unchecked(next_i, upper_md);
            proof {
                if n == METADATA_ARRAY_SIZE {
                    assert(self.entries() =~= c.take(METADATA_ARRAY_SIZE as int));
                    assert(overflow_opt(c) == Some(s[n - 1]));
                    lemma_entries_ok_subrange(c, 0, METADATA_ARRAY_SIZE as int);
                } else {
                    assert(self.entries() =~= c);
                }
            }
            return Ok(rem);
        } else {
            if next_i < self.size {
                proof { assert(s[next_i as int] == self.metadata@[next_i as int]); }
                if !self.metadata[next_i].is_contiguous_to(&self.metadata[i0]) {
                    return Err(TracingPageError::InvalidRequest);
                }
            }
            if m.is_taken() {
                return Err(TracingPageError::InvalidRequest);
            }
            let m_hi = m.higher_paddr();
            let cut = m_hi - paddr;
            let rest = size - cut;
            let cur = m.shrunk(cut, Side::Right);
            self.metadata.set(i0, cur);
            proof {
                assert(self.entries() =~= s.update(i0 as int, cur));
                lemma_entries_ok_replace(s, i0 as int, cur);
            }
            if next_i < self.size {
                proof { assert(self.entries()[next_i as int] == self.metadata@[next_i as int]); }
                if self.metadata[next_i].size() == 0 {
                    proof { assert(self.entries()[i0 as int] != s[i0 as int]); }
                    return Err(TracingPageError::InternalFailure);
                }
                proof {
                    lemma_remove_chain_err(self.entries(), next_i as int, next_i as int, rest as int);
                    assert(self.entries()[i0 as int] != s[i0 as int]);
                }
                return self.remove_chain(next_i, m_hi, rest);
            }
            return Ok(Reminder::negative(Metadata::new_free(m_hi, m.higher_laddr(), rest)));
        }
    }

    /// Removes `rem` Bytes starting at the beginning of the entry at index `i0`
    /// and continuing on the following contiguous entries
    fn remove_chain(&mut self, i0: usize, paddr: u64, size: u64) -> (r: Result<Reminder, TracingPageError>)
        requires
            old(self).wf(),
            i0 < old(self).size,
            old(self).entries()[i0 as int].spec_contains(paddr),
            old(self).entries()[i0 as int].paddr == paddr,
        ensures
            final(self).wf(),
            (r, final(self).entries()) == remove_chain(old(self).entries(), i0 as int, i0 as int, size as int),
            r is Err && remove_chain(old(self).entries(), i0 as int, i0 as int, size as int).1 == old(self).entries()
                ==> *final(self) == *old(self),
    {
        let ghost s = self.entries();
        let ghost n = s.len() as int;
        let mut k: usize = i0;
        let mut cur: u64 = paddr;
        let mut rem: u64 = size;
        while k < self.size
            invariant
                self.wf(),
                self.entries() == s,
                s == old(self).entries(),
                *self == *old(self),
                n == s.len(),
                i0 <= k < n,
                s[k as int].paddr == cur,
                k > i0 ==> rem > 0,
                remove_chain(s, i0 as int, k as int, rem as int) == remove_chain(s, i0 as int, i0 as int, size as int),
            decreases self.size - k,
        {
            proof { assert(s[k as int] == self.metadata@[k as int]); }
            let m = self.metadata[k];
            if !m.contains(cur) {
                return Err(TracingPageError::InternalFailure);
            }
            let cur_size = m.size();
            let next_k = k + 1;
            if cur_size == rem {
                self.remove_range(i0, next_k);
                return Ok(Reminder::zero());
            } else if cur_size > rem {
                if m.is_taken() {
                    return Err(TracingPageError::InvalidRequest);
                }
                let md = m.shrunk(rem, Side::Left);
                proof {
                    lemma_entries_ok_merge(s, i0 as int, k as int, md);
                }
                self.collapse(i0, k, md);
                return Ok(Reminder::zero());
            } else {
                if next_k < self.size {
                    proof { assert(s[next_k as int] == self.metadata@[next_k as int]); }
                    if !self.metadata[next_k].is_contiguous_to(&self.metadata[k]) {
                        return Err(TracingPageError::InvalidRequest);
                    }
                }
                cur = cur + cur_size;
                rem = rem - cur_size;
                if next_k == self.size {
                    let mut md = self.pop_unchecked();
                    md.shrink(cur_size, Side::Left);
                    let _ = md.set_size(rem);
                    let ghost s1 = self.entries();
                    self.remove_range(i0, k);
                    proof {
                        assert(s1 == s.drop_last());
                        assert(self.entries() =~= s.take(i0 as int));
                    }
                    return Ok(Reminder::negative(md));
                }
                k = next_k;
            }
        }
        Err(TracingPageError::NotFound)
    }
}


pub proof fn lemma_entries_ok_subrange(s: Seq<Metadata>, a: int, b: int)
    requires
        entries_ok(s),
        0 <= a <= b <= s.len(),
    ensures
        entries_ok(s.subrange(a, b)),
{
    let t = s.subrange(a, b);
    assert forall|i: int, j: int| #![trigger t[i], t[j]] 0 <= i < j < t.len() implies t[i].hi() <= t[j].paddr by {
        assert(t[i] == s[a + i] && t[j] == s[a + j]);
    }
}

pub proof fn lemma_entries_ok_remove(s: Seq<Metadata>, k: int)
    requires
        entries_ok(s),
        0 <= k < s.len(),
    ensures
        entries_ok(s.remove(k)),
{
    let t = s.remove(k);
    assert forall|i: int, j: int| #![trigger t[i], t[j]] 0 <= i < j < t.len() implies t[i].hi() <= t[j].paddr by {
        let ii = if i < k { i } else { i + 1 };
        let jj = if j < k { j } else { j + 1 };
        assert(t[i] == s[ii] && t[j] == s[jj]);
    }
    assert forall|i: int| #![trigger t[i]] 0 <= i < t.len() implies !t[i].spec_is_none() && t[i].fits() by {
        let ii = if i < k { i } else { i + 1 };
        assert(t[i] == s[ii]);
    }
}

pub proof fn lemma_entries_ok_prepend(s: Seq<Metadata>, md: Metadata)
    requires
        entries_ok(s),
        !md.spec_is_none(),
        md.fits(),
        s.len() == 0 || md.hi() <= s[0].paddr,
    ensures
        entries_ok(seq![md] + s),
{
    let t = seq![md] + s;
    assert forall|i: int, j: int| #![trigger t[i], t[j]] 0 <= i < j < t.len() implies t[i].hi() <= t[j].paddr by {
        if i == 0 {
            assert(t[j] == s[j - 1]);
            if j > 1 {
                assert(s[0].hi() <= s[j - 1].paddr);
            }
        } else {
            assert(t[i] == s[i - 1] && t[j] == s[j - 1]);
        }
    }
    assert forall|i: int| #![trigger t[i]] 0 <= i < t.len() implies !t[i].spec_is_none() && t[i].fits() by {
        if i > 0 {
            assert(t[i] == s[i - 1]);
        }
    }
}

pub proof fn lemma_entries_ok_append(s: Seq<Metadata>, md: Metadata)
    requires
        entries_ok(s),
        !md.spec_is_none(),
        md.fits(),
        s.len() == 0 || s.last().hi() <= md.paddr,
    ensures
        entries_ok(s.push(md)),
{
    let t = s.push(md);
    assert forall|i: int, j: int| #![trigger t[i], t[j]] 0 <= i < j < t.len() implies t[i].hi() <= t[j].paddr by {
        assert(t[i] == s[i]);
        if j == s.len() {
            if i < s.len() - 1 {
                assert(s[i].hi() <= s[s.len() - 1].paddr);
            }
        } else {
            assert(t[j] == s[j]);
        }
    }
    assert forall|i: int| #![trigger t[i]] 0 <= i < t.len() implies !t[i].spec_is_none() && t[i].fits() by {
        if i < s.len() {
            assert(t[i] == s[i]);
        }
    }
}

pub proof fn lemma_entries_ok_replace_first(s: Seq<Metadata>, md: Metadata)
    requires
        entries_ok(s),
        s.len() > 0,
        !md.spec_is_none(),
        md.fits(),
        md.hi() == s[0].hi(),
    ensures
        entries_ok(s.update(0, md)),
{
    let t = s.update(0, md);
    assert forall|i: int, j: int| #![trigger t[i], t[j]] 0 <= i < j < t.len() implies t[i].hi() <= t[j].paddr by {
        assert(s[i].hi() <= s[j].paddr);
    }
}

pub proof fn lemma_entries_ok_replace_last(s: Seq<Metadata>, md: Metadata)
    requires
        entries_ok(s),
        s.len() > 0,
        !md.spec_is_none(),
        md.fits(),
        md.paddr == s.last().paddr,
    ensures
        entries_ok(s.update(s.len() - 1, md)),
{
    let t = s.update(s.len() - 1, md);
    assert forall|i: int, j: int| #![trigger t[i], t[j]] 0 <= i < j < t.len() implies t[i].hi() <= t[j].paddr by {
        assert(s[i].hi() <= s[j].paddr);
    }
}


pub proof fn lemma_first_hi_ge_unique(s: Seq<Metadata>, p: u64, i: int)
    requires
        is_first_hi_ge(s, p, i),
    ensures
        first_hi_ge(s, p) == i,
{
    let j = first_hi_ge(s, p);
    assert(is_first_hi_ge(s, p, j));
    if j < i {
        assert(s[j].hi() < p);
    } else if i < j {
        assert(s[i].hi() < p);
    }
}

pub proof fn lemma_entries_ok_insert(s: Seq<Metadata>, md: Metadata, k: int)
    requires
        entries_ok(s),
        !md.spec_is_none(),
        md.fits(),
        0 <= k <= s.len(),
        sorted(s.insert(k, md)),
    ensures
        entries_ok(s.insert(k, md)),
{
    let t = s.insert(k, md);
    assert forall|i: int| #![trigger t[i]] 0 <= i < t.len() implies !t[i].spec_is_none() && t[i].fits() by {
        if i < k {
            assert(t[i] == s[i]);
        } else if i > k {
            assert(t[i] == s[i - 1]);
        }
    }
}

pub proof fn lemma_merge_right_ok(s: Seq<Metadata>, md: Metadata, i: int)
    requires
        entries_ok(s),
        !md.spec_is_none(),
        md.fits(),
        0 <= i < s.len(),
        mergeable(s[i], md),
        sorted(s.insert(i + 1, md)),
    ensures
        entries_ok(s.update(i, s[i].spec_grown(md.sz(), Side::Right))),
{
    let g = s[i].spec_grown(md.sz(), Side::Right);
    let t = s.update(i, g);
    let u = s.insert(i + 1, md);
    assert(g.hi() == md.hi() && g.paddr == s[i].paddr);
    assert forall|a: int, b: int| #![trigger t[a], t[b]] 0 <= a < b < t.len() implies t[a].hi() <= t[b].paddr by {
        if a == i {
            assert(u[i + 1] == md && u[b + 1] == s[b]);
        } else if b == i {
            assert(s[a].hi() <= s[i].paddr);
        } else {
            assert(s[a].hi() <= s[b].paddr);
        }
    }
    assert forall|a: int| #![trigger t[a]] 0 <= a < t.len() implies !t[a].spec_is_none() && t[a].fits() by {
        if a != i {
            assert(t[a] == s[a]);
        }
    }
}

pub proof fn lemma_merge_left_ok(s: Seq<Metadata>, md: Metadata, i: int, pos: int)
    requires
        entries_ok(s),
        !md.spec_is_none(),
        md.fits(),
        0 <= i < s.len(),
        mergeable(md, s[i]),
        0 <= pos <= s.len(),
        pos == i || pos == i + 1,
        sorted(s.insert(pos, md)),
    ensures
        entries_ok(s.update(i, s[i].spec_grown(md.sz(), Side::Left))),
{
    let g = s[i].spec_grown(md.sz(), Side::Left);
    let t = s.update(i, g);
    let u = s.insert(pos, md);
    assert(g.paddr == md.paddr && g.hi() == s[i].hi());
    assert forall|a: int, b: int| #![trigger t[a], t[b]] 0 <= a < b < t.len() implies t[a].hi() <= t[b].paddr by {
        if b == i {
            assert(u[a] == s[a]);
            assert(u[pos] == md);
            if pos == i + 1 {
                assert(s[a].hi() <= s[i].paddr);
            }
        } else if a == i {
            assert(s[i].hi() <= s[b].paddr);
        } else {
            assert(s[a].hi() <= s[b].paddr);
        }
    }
    assert forall|a: int| #![trigger t[a]] 0 <= a < t.len() implies !t[a].spec_is_none() && t[a].fits() by {
        if a != i {
            assert(t[a] == s[a]);
        }
    }
}


pub proof fn lemma_first_containing_unique(s: Seq<Metadata>, p: u64, i: int)
    requires
        is_first_containing(s, p, i),
    ensures
        has_containing(s, p),
        first_containing(s, p) == i,
{
    assert(s[i].spec_contains(p));
    let j = first_containing(s, p);
    assert(is_first_containing(s, p, j));
    if j < i {
        assert(!s[j].spec_contains(p));
    } else if i < j {
        assert(!s[i].spec_contains(p));
    }
}

pub proof fn lemma_entries_ok_replace(s: Seq<Metadata>, i: int, md: Metadata)
    requires
        entries_ok(s),
        0 <= i < s.len(),
        !md.spec_is_none(),
        md.fits(),
        md.paddr >= s[i].paddr,
        md.hi() <= s[i].hi(),
    ensures
        entries_ok(s.update(i, md)),
{
    let t = s.update(i, md);
    assert forall|a: int, b: int| #![trigger t[a], t[b]] 0 <= a < b < t.len() implies t[a].hi() <= t[b].paddr by {
        assert(s[a].hi() <= s[b].paddr);
    }
    assert forall|a: int| #![trigger t[a]] 0 <= a < t.len() implies !t[a].spec_is_none() && t[a].fits() by {
        if a != i {
            assert(t[a] == s[a]);
        }
    }
}

pub proof fn lemma_entries_ok_merge(s: Seq<Metadata>, lo: int, hi: int, md: Metadata)
    requires
        entries_ok(s),
        0 <= lo <= hi < s.len(),
        !md.spec_is_none(),
        md.fits(),
        md.paddr >= s[lo].paddr,
        md.hi() <= s[hi].hi(),
    ensures
        entries_ok(s.take(lo) + seq![md] + s.skip(hi + 1)),
{
    let t = s.take(lo) + seq![md] + s.skip(hi + 1);
    assert forall|a: int| #![trigger t[a]] 0 <= a < t.len() implies !t[a].spec_is_none() && t[a].fits() by {
        if a < lo {
            assert(t[a] == s[a]);
        } else if a > lo {
            assert(t[a] == s[a - lo + hi]);
        }
    }
    assert forall|a: int, b: int| #![trigger t[a], t[b]] 0 <= a < b < t.len() implies t[a].hi() <= t[b].paddr by {
        if b < lo {
            assert(t[a] == s[a] && t[b] == s[b]);
        } else if b == lo {
            assert(t[a] == s[a]);
            assert(s[a].hi() <= s[lo].paddr);
        } else if a < lo {
            assert(t[a] == s[a] && t[b] == s[b - lo + hi]);
            assert(s[a].hi() <= s[b - lo + hi].paddr);
        } else if a == lo {
            assert(t[b] == s[b - lo + hi]);
            assert(s[hi].hi() <= s[b - lo + hi].paddr);
        } else {
            assert(t[a] == s[a - lo + hi] && t[b] == s[b - lo + hi]);
            assert(s[a - lo + hi].hi() <= s[b - lo + hi].paddr);
        }
    }
}

pub proof fn lemma_split_pieces_ok(s: Seq<Metadata>, i: int, k: u64)
    requires
        entries_ok(s),
        0 <= i < s.len(),
        k <= s[i].sz(),
    ensures
        entries_ok(replace_with(s, i, split_pieces(s[i], k))),
{
    let m = s[i];
    let t = replace_with(s, i, split_pieces(m, k));
    assert(t.len() == s.len() + 1);
    assert forall|a: int| #![trigger t[a]] 0 <= a < t.len() implies !t[a].spec_is_none() && t[a].fits() by {
        if a < i {
            assert(t[a] == s[a]);
        } else if a > i + 1 {
            assert(t[a] == s[a - 1]);
        }
    }
    assert forall|a: int, b: int| #![trigger t[a], t[b]] 0 <= a < b < t.len() implies t[a].hi() <= t[b].paddr by {
        let sa = if a <= i { a } else { a - 1 };
        let sb = if b <= i { b } else { b - 1 };
        if a < i {
            assert(t[a] == s[a]);
        }
        if b > i + 1 {
            assert(t[b] == s[b - 1]);
        }
        if sa < sb {
            assert(s[sa].hi() <= s[sb].paddr);
        }
    }
}


pub proof fn lemma_entries_ok_replace_with(s: Seq<Metadata>, i: int, pieces: Seq<Metadata>)
    requires
        entries_ok(s),
        0 <= i < s.len(),
        entries_ok(pieces),
        pieces.len() > 0,
        pieces[0].paddr >= s[i].paddr,
        pieces.last().hi() <= s[i].hi(),
    ensures
        entries_ok(replace_with(s, i, pieces)),
{
    let t = replace_with(s, i, pieces);
    let p = pieces.len() as int;
    assert(t.len() == s.len() + p - 1);
    assert forall|a: int| #![trigger t[a]] 0 <= a < t.len() implies !t[a].spec_is_none() && t[a].fits() by {
        if a < i {
            assert(t[a] == s[a]);
        } else if a < i + p {
            assert(t[a] == pieces[a - i]);
        } else {
            assert(t[a] == s[a - p + 1]);
        }
    }
    assert forall|a: int, b: int| #![trigger t[a], t[b]] 0 <= a < b < t.len() implies t[a].hi() <= t[b].paddr by {
        if a < i {
            assert(t[a] == s[a]);
            if b < i {
                assert(t[b] == s[b]);
                assert(s[a].hi() <= s[b].paddr);
            } else if b < i + p {
                assert(t[b] == pieces[b - i]);
                assert(s[a].hi() <= s[i].paddr);
                if b - i > 0 {
                    assert(pieces[0].hi() <= pieces[b - i].paddr);
                }
            } else {
                assert(t[b] == s[b - p + 1]);
                assert(s[a].hi() <= s[b - p + 1].paddr);
            }
        } else if a < i + p {
            assert(t[a] == pieces[a - i]);
            if b < i + p {
                assert(t[b] == pieces[b - i]);
            } else {
                assert(t[b] == s[b - p + 1]);
                assert(s[i].hi() <= s[b - p + 1].paddr);
                if a - i < p - 1 {
                    assert(pieces[a - i].hi() <= pieces[p - 1].paddr);
                }
            }
        } else {
            assert(t[a] == s[a - p + 1] && t[b] == s[b - p + 1]);
            assert(s[a - p + 1].hi() <= s[b - p + 1].paddr);
        }
    }
}


pub proof fn lemma_entries_ok_shift_boundary(s: Seq<Metadata>, i: int, cur: Metadata, next_md: Metadata)
    requires
        entries_ok(s),
        0 <= i && i + 1 < s.len(),
        !cur.spec_is_none() && cur.fits(),
        !next_md.spec_is_none() && next_md.fits(),
        cur.paddr == s[i].paddr,
        cur.hi() == next_md.paddr,
        next_md.hi() == s[i + 1].hi(),
    ensures
        entries_ok(s.update(i, cur).update(i + 1, next_md)),
{
    let t = s.update(i, cur).update(i + 1, next_md);
    assert forall|a: int, b: int| #![trigger t[a], t[b]] 0 <= a < b < t.len() implies t[a].hi() <= t[b].paddr by {
        if a == i && b > i + 1 {
            assert(s[i + 1].hi() <= s[b].paddr);
        } else if a == i + 1 {
            assert(s[i + 1].hi() <= s[b].paddr);
        } else if a < i && b == i + 1 {
            assert(s[a].hi() <= s[i].paddr);
        } else if a < i && b == i {
            assert(s[a].hi() <= s[i].paddr);
        } else if a != i && b != i + 1 {
            assert(s[a].hi() <= s[b].paddr);
        }
    }
    assert forall|a: int| #![trigger t[a]] 0 <= a < t.len() implies !t[a].spec_is_none() && t[a].fits() by {
        if a != i && a != i + 1 {
            assert(t[a] == s[a]);
        }
    }
}

pub proof fn lemma_entries_ok_absorb_next(s: Seq<Metadata>, i: int, cur: Metadata)
    requires
        entries_ok(s),
        0 <= i && i + 1 < s.len(),
        !cur.spec_is_none() && cur.fits(),
        cur.paddr == s[i].paddr,
        cur.hi() == s[i + 1].hi(),
    ensures
        entries_ok(s.update(i, cur).remove(i + 1)),
{
    lemma_entries_ok_merge(s, i, i + 1, cur);
    assert(s.take(i) + seq![cur] + s.skip(i + 2) =~= s.update(i, cur).remove(i + 1));
}


pub proof fn lemma_entries_ok_cut(s: Seq<Metadata>, lo: int, hi: int)
    requires
        entries_ok(s),
        0 <= lo <= hi <= s.len(),
    ensures
        entries_ok(s.take(lo) + s.skip(hi)),
{
    let t = s.take(lo) + s.skip(hi);
    let d = hi - lo;
    assert forall|a: int| #![trigger t[a]] 0 <= a < t.len() implies !t[a].spec_is_none() && t[a].fits() by {
        if a < lo {
            assert(t[a] == s[a]);
        } else {
            assert(t[a] == s[a + d]);
        }
    }
    assert forall|a: int, b: int| #![trigger t[a], t[b]] 0 <= a < b < t.len() implies t[a].hi() <= t[b].paddr by {
        let sa = if a < lo { a } else { a + d };
        let sb = if b < lo { b } else { b + d };
        assert(t[a] == s[sa] && t[b] == s[sb]);
        assert(s[sa].hi() <= s[sb].paddr);
    }
}

} // verus!
