//! The tracing pages of a memory owner, in the order their table entries hold them.

use vstd::prelude::*;
use crate::errors::{PagingError, TracingError, TracingPageError};
use crate::tracing::metadata::{Info, Metadata, Side};
use crate::tracing::excess::{Excess, Reminder};
use crate::tracing::tables::{released_done, release_tracing_pages_from};
use crate::management::map::{MapRequest, MapAnswer};
use crate::allocations::masks_ok;
use crate::bitmap::AddressMasks;
use crate::physmem::PhysicalMemory;
use crate::table::PageTable;
use crate::tracing::page::{TracingPage, METADATA_ARRAY_SIZE, entries_ok, lemma_entries_ok_replace, append_combined, mergeable, fit, push_combined, overflow_opt, lemma_entries_ok_prepend,
    insert_combined, merges_after_first, insert_pos, insert_appends, insert_pushes, insert_between_pos, first_hi_ge, is_first_hi_ge, sorted,
    insert_unsupported, overflow, has_containing, first_containing, is_first_containing,
    replace_with, take_pieces_lower, take_pieces_higher, take_pieces_middle, keep_upto, move_from,
    middle_split, take_unsupported, push_excess_combined, lemma_entries_ok_replace_with,
    lemma_entries_ok_subrange, remove_chain, remove_outcome, remove_unsupported, remove_pieces_middle,
    free_merge_combined, merge_low, merge_high, sizes_between, shrink_release, expand_missing,
    positive_overflow, resize_unsupported, merges_with_prev, merges_with_next, lemma_first_containing_unique};

verus! {

/// A tracing page filled below this number of entries leaves the following
/// pages unused (70% of a page)
pub const SIZE_THRESHOLD: usize = 45850;

/// The entries of the earlier pages end before the entries of the later pages begin
pub open spec fn pages_sorted(v: Seq<Seq<Metadata>>) -> bool {
    forall|k1: int, k2: int, i: int, j: int|
        #![trigger v[k1][i], v[k2][j]]
        0 <= k1 < k2 < v.len() && 0 <= i < v[k1].len() && 0 <= j < v[k2].len()
            ==> v[k1][i].hi() <= v[k2][j].paddr
}

/// The entry at `(k, j)` comes before the entry at `(k2, j2)`
pub open spec fn before(k2: int, j2: int, k: int, j: int) -> bool {
    k2 < k || (k2 == k && j2 < j)
}

/// The entry at index `j` of page `k` is the first free entry, in page order,
/// having at least `size` Bytes
pub open spec fn is_first_fit(v: Seq<Seq<Metadata>>, size: u64, k: int, j: int) -> bool {
    &&& 0 <= k < v.len() && 0 <= j < v[k].len()
    &&& v[k][j].spec_is_free() && v[k][j].sz() >= size
    &&& forall|k2: int, j2: int| #![trigger v[k2][j2]]
        0 <= k2 < v.len() && 0 <= j2 < v[k2].len() && before(k2, j2, k, j)
            ==> !(v[k2][j2].spec_is_free() && v[k2][j2].sz() >= size)
}

/// The pages after moving entries from the front of `curr` to the back of
/// `prev`, until `prev` is full or `curr` is empty
pub open spec fn move_front(prev: Seq<Metadata>, curr: Seq<Metadata>) -> (Seq<Metadata>, Seq<Metadata>)
    decreases curr.len(),
{
    if prev.len() >= METADATA_ARRAY_SIZE || curr.len() == 0 {
        (prev, curr)
    } else {
        move_front(append_combined(prev, curr[0]), curr.drop_first())
    }
}

/// The pages after moving the entries between the pairs of consecutive pages
/// up to the page `k` (excluded)
pub open spec fn merge_upto(v: Seq<Seq<Metadata>>, k: int) -> Seq<Seq<Metadata>>
    decreases k,
{
    if k <= 1 || k > v.len() {
        v
    } else {
        let w = merge_upto(v, k - 1);
        let (a, b) = move_front(w[k - 2], w[k - 1]);
        w.update(k - 2, a).update(k - 1, b)
    }
}


/// `j` is the index of the first entry of `s` starting at the logical address `laddr`
pub open spec fn is_first_laddr(s: Seq<Metadata>, laddr: u64, j: int) -> bool {
    &&& 0 <= j < s.len()
    &&& s[j].laddr == laddr
    &&& forall|i: int| #![trigger s[i]] 0 <= i < j ==> s[i].laddr != laddr
}

/// Some entry of `s` starts at the logical address `laddr`
pub open spec fn has_laddr(s: Seq<Metadata>, laddr: u64) -> bool {
    exists|j: int| #![trigger s[j]] 0 <= j < s.len() && s[j].laddr == laddr
}

/// The index of the first entry of `s` starting at the logical address `laddr`
pub open spec fn first_laddr(s: Seq<Metadata>, laddr: u64) -> int {
    choose|j: int| is_first_laddr(s, laddr, j)
}

/// What the entries of one page tell of relocating in place the allocation
/// starting at `laddr` to `size` Bytes: [`None`] when the page does not settle
/// it, because no entry of the page starts at `laddr` or because the entry
/// starting there is too small and is the last one of its page
///
/// An allocation too small grows in place only into a free entry that
/// follows it right after its end, physically and logically, and is large
/// enough for the missing Bytes.
pub open spec fn page_relocation(s: Seq<Metadata>, laddr: u64, size: u64) -> Option<Result<(bool, u64), PagingError>> {
    if !has_laddr(s, laddr) {
        None
    } else {
        let j = first_laddr(s, laddr);
        let m = s[j];
        if m.spec_is_free() {
            Some(Err(PagingError::TracingError(TracingError::InvalidRequest)))
        } else if m.sz() >= size {
            Some(Ok((true, 0u64)))
        } else if j + 1 < s.len() {
            if s[j + 1].spec_is_free() && s[j + 1].spec_contiguous_to(m) && s[j + 1].sz() >= size - m.sz() {
                Some(Ok((true, 0u64)))
            } else {
                Some(Ok((false, m.sz())))
            }
        } else {
            None
        }
    }
}

/// What the pages from the `k`-th on tell of relocating in place the
/// allocation starting at `laddr` to `size` Bytes: the first page that
/// settles it decides
pub open spec fn relocation_from(v: Seq<Seq<Metadata>>, laddr: u64, size: u64, k: int) -> Result<(bool, u64), PagingError>
    decreases v.len() - k,
{
    if k < 0 || k >= v.len() {
        Err(PagingError::TracingError(TracingError::NotFound))
    } else {
        match page_relocation(v[k], laddr, size) {
            Some(r) => r,
            None => relocation_from(v, laddr, size, k + 1),
        }
    }
}

/// The index of the first entry starting at a logical address is unique
pub proof fn lemma_first_laddr_unique(s: Seq<Metadata>, laddr: u64, j: int)
    requires
        is_first_laddr(s, laddr, j),
    ensures
        has_laddr(s, laddr),
        first_laddr(s, laddr) == j,
{
    assert(s[j].laddr == laddr);
    let c = first_laddr(s, laddr);
    assert(is_first_laddr(s, laddr, c));
    if c < j {
        assert(s[c].laddr != laddr);
    } else if c > j {
        assert(s[j].laddr != laddr);
    }
}

/// When a page answers that the allocation starting at `laddr` cannot grow
/// in place, the size it reports is that of the allocation: the first entry
/// of the page starting at `laddr` is taken, holds that many Bytes, and is
/// smaller than the size requested
pub proof fn lemma_page_relocation_reports_allocation_size(s: Seq<Metadata>, laddr: u64, size: u64, x: u64)
    requires
        entries_ok(s),
        page_relocation(s, laddr, size) == Some(Ok::<(bool, u64), PagingError>((false, x))),
    ensures
        exists|j: int| #![trigger s[j]]
            0 <= j < s.len()
            && s[j].laddr == laddr
            && (forall|i: int| #![trigger s[i]] 0 <= i < j ==> s[i].laddr != laddr)
            && s[j].spec_is_taken()
            && x == s[j].sz()
            && x < size,
{
    let w = choose|j: int| #![trigger s[j]] 0 <= j < s.len() && s[j].laddr == laddr;
    lemma_first_laddr_exists(s, laddr, w);
    let j = first_laddr(s, laddr);
    assert(is_first_laddr(s, laddr, j));
    assert(!s[j].spec_is_none());
}

/// An entry starting at `laddr` gives a first one
proof fn lemma_first_laddr_exists(s: Seq<Metadata>, laddr: u64, w: int)
    requires
        0 <= w < s.len(),
        s[w].laddr == laddr,
    ensures
        is_first_laddr(s, laddr, first_laddr(s, laddr)),
    decreases w,
{
    if forall|i: int| #![trigger s[i]] 0 <= i < w ==> s[i].laddr != laddr {
        assert(is_first_laddr(s, laddr, w));
    } else {
        let i = choose|i: int| #![trigger s[i]] 0 <= i < w && s[i].laddr == laddr;
        lemma_first_laddr_exists(s, laddr, i);
    }
}

/// When a page answers that the allocation starting at `laddr` can be
/// relocated in place, the first entry of the page starting at `laddr` is
/// taken and either holds the size requested already, or is followed right
/// after its end, physically and logically, by a free entry that holds the
/// missing Bytes
pub proof fn lemma_page_relocation_in_place_fits(s: Seq<Metadata>, laddr: u64, size: u64, y: u64)
    requires
        entries_ok(s),
        page_relocation(s, laddr, size) == Some(Ok::<(bool, u64), PagingError>((true, y))),
    ensures
        y == 0,
        exists|j: int| #![trigger s[j]]
            0 <= j < s.len()
            && s[j].laddr == laddr
            && (forall|i: int| #![trigger s[i]] 0 <= i < j ==> s[i].laddr != laddr)
            && s[j].spec_is_taken()
            && (s[j].sz() >= size
                || (j + 1 < s.len() && s[j + 1].spec_is_free()
                    && s[j + 1].paddr == s[j].paddr + s[j].sz() && s[j + 1].laddr == s[j].laddr + s[j].sz()
                    && s[j].sz() + s[j + 1].sz() >= size)),
{
    let w = choose|j: int| #![trigger s[j]] 0 <= j < s.len() && s[j].laddr == laddr;
    lemma_first_laddr_exists(s, laddr, w);
    let j = first_laddr(s, laddr);
    assert(is_first_laddr(s, laddr, j));
    assert(!s[j].spec_is_none());
}

/// When the pages answer that the allocation starting at `laddr` can be
/// relocated in place, a taken entry starting at `laddr` either holds the
/// size requested already, or is followed right after its end, physically
/// and logically, by a free entry of its page that holds the missing Bytes
pub proof fn lemma_relocation_in_place_fits(v: Seq<Seq<Metadata>>, laddr: u64, size: u64, k: int, y: u64)
    requires
        all_entries_ok(v),
        relocation_from(v, laddr, size, k) == Ok::<(bool, u64), PagingError>((true, y)),
    ensures
        y == 0,
        exists|kk: int, j: int| #![trigger v[kk][j]]
            0 <= kk < v.len() && 0 <= j < v[kk].len()
            && v[kk][j].laddr == laddr
            && v[kk][j].spec_is_taken()
            && (v[kk][j].sz() >= size
                || (j + 1 < v[kk].len() && v[kk][j + 1].spec_is_free()
                    && v[kk][j + 1].paddr == v[kk][j].paddr + v[kk][j].sz()
                    && v[kk][j + 1].laddr == v[kk][j].laddr + v[kk][j].sz()
                    && v[kk][j].sz() + v[kk][j + 1].sz() >= size)),
    decreases v.len() - k,
{
    if 0 <= k < v.len() {
        match page_relocation(v[k], laddr, size) {
            Some(r) => {
                lemma_page_relocation_in_place_fits(v[k], laddr, size, y);
                let s = v[k];
                let j = choose|j: int| #![trigger s[j]]
                    0 <= j < s.len()
                    && s[j].laddr == laddr
                    && (forall|i: int| #![trigger s[i]] 0 <= i < j ==> s[i].laddr != laddr)
                    && s[j].spec_is_taken()
                    && (s[j].sz() >= size
                        || (j + 1 < s.len() && s[j + 1].spec_is_free()
                            && s[j + 1].paddr == s[j].paddr + s[j].sz() && s[j + 1].laddr == s[j].laddr + s[j].sz()
                            && s[j].sz() + s[j + 1].sz() >= size));
                assert(v[k][j].laddr == laddr);
            },
            None => {
                lemma_relocation_in_place_fits(v, laddr, size, k + 1, y);
            },
        }
    }
}

/// When the pages answer that the allocation starting at `laddr` cannot grow
/// in place, the size reported is that of a taken entry starting at `laddr`,
/// the first one of its page, and it is smaller than the size requested
pub proof fn lemma_relocation_reports_allocation_size(v: Seq<Seq<Metadata>>, laddr: u64, size: u64, k: int, x: u64)
    requires
        all_entries_ok(v),
        relocation_from(v, laddr, size, k) == Ok::<(bool, u64), PagingError>((false, x)),
    ensures
        exists|kk: int, j: int| #![trigger v[kk][j]]
            0 <= kk < v.len() && 0 <= j < v[kk].len()
            && v[kk][j].laddr == laddr
            && v[kk][j].spec_is_taken()
            && x == v[kk][j].sz()
            && x < size,
    decreases v.len() - k,
{
    if 0 <= k < v.len() {
        match page_relocation(v[k], laddr, size) {
            Some(r) => {
                lemma_page_relocation_reports_allocation_size(v[k], laddr, size, x);
                let j = choose|j: int| #![trigger v[k][j]]
                    0 <= j < v[k].len()
                    && v[k][j].laddr == laddr
                    && (forall|i: int| #![trigger v[k][i]] 0 <= i < j ==> v[k][i].laddr != laddr)
                    && v[k][j].spec_is_taken()
                    && x == v[k][j].sz()
                    && x < size;
                assert(v[k][j].laddr == laddr);
            },
            None => {
                lemma_relocation_reports_allocation_size(v, laddr, size, k + 1, x);
            },
        }
    }
}

/// Tells apart, in one page, the cases of [`page_relocation`]
pub fn page_relocation_of(page: &TracingPage, laddr: u64, size: u64) -> (r: Option<Result<(bool, u64), PagingError>>)
    requires
        page.wf(),
    ensures
        r == page_relocation(page.entries(), laddr, size),
{
    let ghost s = page.entries();
    let mut j: usize = 0;
    while j < page.size()
        invariant
            page.wf(),
            s == page.entries(),
            j <= s.len(),
            forall|i: int| #![trigger s[i]] 0 <= i < j ==> s[i].laddr != laddr,
        decreases s.len() - j,
    {
        let md = page.entry_at(j);
        proof { assert(md == s[j as int]); }
        if md.lower_laddr() == laddr {
            proof {
                assert(is_first_laddr(s, laddr, j as int));
                lemma_first_laddr_unique(s, laddr, j as int);
            }
            if md.is_free() {
                return Some(Err(PagingError::TracingError(TracingError::InvalidRequest)));
            }
            let allocated_size = md.size();
            if allocated_size >= size {
                return Some(Ok((true, 0)));
            }
            if j + 1 < page.size() {
                let next = page.entry_at(j + 1);
                proof { assert(next == s[j + 1]); }
                if next.is_free() && next.is_contiguous_to(&md) && next.size() >= size - allocated_size {
                    return Some(Ok((true, 0)));
                }
                return Some(Ok((false, allocated_size)));
            }
            return None;
        }
        j = j + 1;
    }
    proof {
        assert forall|i: int| 0 <= i < s.len() implies !(#[trigger] s[i].laddr == laddr) by {}
    }
    None
}


/// `k` is the first page holding fewer than [`SIZE_THRESHOLD`] entries
pub open spec fn is_first_small(v: Seq<Seq<Metadata>>, k: int) -> bool {
    &&& 0 <= k < v.len()
    &&& v[k].len() < SIZE_THRESHOLD
    &&& forall|k2: int| #![trigger v[k2]] 0 <= k2 < k ==> v[k2].len() >= SIZE_THRESHOLD
}

/// The pages kept by a cleanup: all of them up to the first one holding fewer
/// than [`SIZE_THRESHOLD`] entries, that one included
pub open spec fn kept_pages(v: Seq<Seq<Metadata>>) -> Seq<Seq<Metadata>> {
    if exists|k: int| is_first_small(v, k) {
        v.take((choose|k: int| is_first_small(v, k)) + 1)
    } else {
        v
    }
}

/// Moving the first entry of a page to the back of the page before it keeps
/// the pages sorted
pub proof fn lemma_move_one_sorted(v: Seq<Seq<Metadata>>, k: int)
    requires
        pages_sorted(v),
        1 <= k < v.len(),
        v[k].len() > 0,
        entries_ok(v[k]),
        entries_ok(v[k - 1]),
    ensures
        pages_sorted(v.update(k - 1, append_combined(v[k - 1], v[k][0])).update(k, v[k].drop_first())),
{
    let p = v[k - 1];
    let c = v[k];
    let c0 = c[0];
    let a = append_combined(p, c0);
    let b = c.drop_first();
    let w = v.update(k - 1, a).update(k, b);
    assert forall|i: int| #![trigger a[i]] 0 <= i < a.len() implies
        (i < p.len() && a[i].paddr == p[i].paddr && (a[i].hi() == p[i].hi() || a[i].hi() == c0.hi()))
        || (a[i].paddr == c0.paddr && a[i].hi() == c0.hi()) by {
        if p.len() > 0 && mergeable(p.last(), c0) {
            if i == p.len() - 1 {
                assert(a[i] == p.last().spec_grown(c0.sz(), Side::Right));
            } else {
                assert(a[i] == p[i]);
            }
        } else {
            if i < p.len() {
                assert(a[i] == p[i]);
            } else {
                assert(a[i] == c0);
            }
        }
    }
    assert forall|k1: int, k2: int, i: int, j: int|
        #![trigger w[k1][i], w[k2][j]]
        0 <= k1 < k2 < w.len() && 0 <= i < w[k1].len() && 0 <= j < w[k2].len()
            implies w[k1][i].hi() <= w[k2][j].paddr by {
        if k1 == k - 1 {
            assert(w[k1][i] == a[i]);
            if k2 == k {
                assert(w[k2][j] == c[j + 1]);
                assert(c0.hi() <= c[j + 1].paddr);
                if i < p.len() {
                    assert(p[i].hi() <= v[k][j + 1].paddr);
                }
            } else {
                assert(w[k2][j] == v[k2][j]);
                assert(c0.hi() <= v[k2][j].paddr);
                if i < p.len() {
                    assert(p[i].hi() <= v[k2][j].paddr);
                }
            }
        } else if k1 == k {
            assert(w[k1][i] == c[i + 1]);
            assert(w[k2][j] == v[k2][j]);
            assert(v[k][i + 1].hi() <= v[k2][j].paddr);
        } else {
            assert(w[k1][i] == v[k1][i]);
            if k2 == k - 1 {
                assert(w[k2][j] == a[j]);
                assert(v[k1][i].hi() <= c0.paddr);
                if j < p.len() {
                    assert(v[k1][i].hi() <= p[j].paddr);
                }
            } else if k2 == k {
                assert(w[k2][j] == c[j + 1]);
                assert(v[k1][i].hi() <= v[k][j + 1].paddr);
            } else {
                assert(w[k2][j] == v[k2][j]);
            }
        }
    }
}


/// Every entry of the pages before the `k`-th ends at or before `p`
pub open spec fn above_pages(w: Seq<Seq<Metadata>>, k: int, p: int) -> bool {
    forall|k1: int, i: int| #![trigger w[k1][i]]
        0 <= k1 < k && 0 <= i < w[k1].len() ==> w[k1][i].hi() <= p
}

/// Every entry of the pages after the `k`-th begins at or after `h`
pub open spec fn below_pages(w: Seq<Seq<Metadata>>, k: int, h: int) -> bool {
    forall|k2: int, j: int| #![trigger w[k2][j]]
        k < k2 < w.len() && 0 <= j < w[k2].len() ==> h <= w[k2][j].paddr
}

/// The entry `x` may stand in the `k`-th page without breaking the order of the pages
pub open spec fn fits_between(w: Seq<Seq<Metadata>>, k: int, x: Metadata) -> bool {
    above_pages(w, k, x.paddr as int) && below_pages(w, k, x.hi())
}

/// The entry `c`, carried over to the `k`-th page, may be pushed in front of it
/// without breaking the order of the pages
pub open spec fn carry_fits(w: Seq<Seq<Metadata>>, k: int, c: Metadata) -> bool {
    &&& above_pages(w, k, c.paddr as int)
    &&& below_pages(w, k - 1, c.hi())
    &&& !c.spec_is_none()
    &&& c.fits()
}

/// Every page's entries are well ordered
pub open spec fn all_entries_ok(w: Seq<Seq<Metadata>>) -> bool {
    forall|k: int| #![trigger w[k]] 0 <= k < w.len() ==> entries_ok(w[k])
}

/// Replacing a page with entries that fit in its place keeps the pages sorted
pub proof fn lemma_replace_page_sorted(w: Seq<Seq<Metadata>>, k: int, t: Seq<Metadata>)
    requires
        pages_sorted(w),
        0 <= k < w.len(),
        forall|i: int| #![trigger t[i]] 0 <= i < t.len() ==> fits_between(w, k, t[i]),
    ensures
        pages_sorted(w.update(k, t)),
{
    let w2 = w.update(k, t);
    assert forall|k1: int, k2: int, i: int, j: int|
        #![trigger w2[k1][i], w2[k2][j]]
        0 <= k1 < k2 < w2.len() && 0 <= i < w2[k1].len() && 0 <= j < w2[k2].len()
            implies w2[k1][i].hi() <= w2[k2][j].paddr by {
        if k1 == k {
            assert(fits_between(w, k, t[i]));
            assert(w2[k2][j] == w[k2][j]);
        } else if k2 == k {
            assert(fits_between(w, k, t[j]));
            assert(w2[k1][i] == w[k1][i]);
        } else {
            assert(w2[k1][i] == w[k1][i]);
            assert(w2[k2][j] == w[k2][j]);
        }
    }
}

/// The entries of a page fit in its place
pub proof fn lemma_page_entries_between(w: Seq<Seq<Metadata>>, k: int)
    requires
        pages_sorted(w),
        0 <= k < w.len(),
    ensures
        forall|j: int| #![trigger w[k][j]] 0 <= j < w[k].len() ==> fits_between(w, k, w[k][j]),
{
    assert forall|j: int| #![trigger w[k][j]] 0 <= j < w[k].len() implies fits_between(w, k, w[k][j]) by {
        assert forall|k1: int, i: int| #![trigger w[k1][i]]
            0 <= k1 < k && 0 <= i < w[k1].len() implies w[k1][i].hi() <= w[k][j].paddr by {}
        assert forall|k2: int, j2: int| #![trigger w[k2][j2]]
            k < k2 < w.len() && 0 <= j2 < w[k2].len() implies w[k][j].hi() <= w[k2][j2].paddr by {}
    }
}

/// Appending a page holding a single entry that comes after all the others
/// keeps the pages sorted
pub proof fn lemma_new_page_sorted(w: Seq<Seq<Metadata>>, c: Metadata)
    requires
        pages_sorted(w),
        above_pages(w, w.len() as int, c.paddr as int),
    ensures
        pages_sorted(w.push(seq![c])),
{
    let w2 = w.push(seq![c]);
    assert forall|k1: int, k2: int, i: int, j: int|
        #![trigger w2[k1][i], w2[k2][j]]
        0 <= k1 < k2 < w2.len() && 0 <= i < w2[k1].len() && 0 <= j < w2[k2].len()
            implies w2[k1][i].hi() <= w2[k2][j].paddr by {
        assert(w2[k1][i] == w[k1][i]);
        if k2 == w.len() {
            assert(w2[k2][j] == c);
        } else {
            assert(w2[k2][j] == w[k2][j]);
        }
    }
}

/// The entry overflowing a page after pushing an entry in front of it is the
/// last entry of the page
pub proof fn lemma_push_overflow(s: Seq<Metadata>, c: Metadata)
    requires
        s.len() <= METADATA_ARRAY_SIZE,
    ensures
        push_combined(s, c).len() <= s.len() + 1,
        overflow_opt(push_combined(s, c)) matches Some(x) ==> x == s[s.len() - 1],
{
}

/// Pushing the carried entry in front of the `k`-th page keeps the pages
/// sorted, and what overflows may be carried to the next page
pub proof fn lemma_push_step(w: Seq<Seq<Metadata>>, k: int, c: Metadata)
    requires
        pages_sorted(w),
        all_entries_ok(w),
        0 <= k < w.len(),
        w[k].len() <= METADATA_ARRAY_SIZE,
        carry_fits(w, k, c),
    ensures
        w[k].len() == 0 || c.hi() <= w[k][0].paddr,
        pages_sorted(w.update(k, fit(push_combined(w[k], c)))),
        overflow_opt(push_combined(w[k], c)) matches Some(oc)
            ==> carry_fits(w.update(k, fit(push_combined(w[k], c))), k + 1, oc),
{
    let s = w[k];
    let pc = push_combined(s, c);
    lemma_page_entries_between(w, k);
    assert(entries_ok(s));
    if s.len() > 0 {
        assert(w[k][0] == s[0]);
        assert(c.hi() <= s[0].paddr);
    }
    assert forall|k2: int, j: int| #![trigger w[k2][j]]
        k < k2 < w.len() && 0 <= j < w[k2].len() implies c.hi() <= w[k2][j].paddr by {}
    assert(fits_between(w, k, c));
    assert forall|i: int| #![trigger pc[i]] 0 <= i < pc.len() implies fits_between(w, k, pc[i]) by {
        if s.len() == 0 {
            assert(pc[i] == c);
        } else if mergeable(c, s[0]) {
            if i == 0 {
                let g = s[0].spec_grown(c.sz(), Side::Left);
                assert(pc[0] == g);
                assert(g.paddr == c.paddr);
                assert(g.hi() == s[0].hi());
                assert(fits_between(w, k, s[0]));
            } else {
                assert(pc[i] == s[i]);
                assert(fits_between(w, k, s[i]));
            }
        } else {
            if i == 0 {
                assert(pc[i] == c);
            } else {
                assert(pc[i] == s[i - 1]);
                assert(fits_between(w, k, s[i - 1]));
            }
        }
    }
    let t = fit(pc);
    assert forall|i: int| #![trigger t[i]] 0 <= i < t.len() implies fits_between(w, k, t[i]) by {
        assert(t[i] == pc[i]);
    }
    lemma_replace_page_sorted(w, k, t);
    let w2 = w.update(k, t);
    if pc.len() > METADATA_ARRAY_SIZE {
        assert(!(s.len() > 0 && mergeable(c, s[0])) || pc.len() == s.len());
        assert(pc == seq![c] + s);
        lemma_entries_ok_prepend(s, c);
        let oc = pc[METADATA_ARRAY_SIZE as int];
        assert(fits_between(w, k, oc));
        assert(oc == s[s.len() - 1]);
        assert forall|k1: int, i: int| #![trigger w2[k1][i]]
            0 <= k1 < k + 1 && 0 <= i < w2[k1].len() implies w2[k1][i].hi() <= oc.paddr by {
            if k1 == k {
                assert(w2[k1][i] == pc[i]);
                assert(pc[i].hi() <= pc[METADATA_ARRAY_SIZE as int].paddr);
            } else {
                assert(w2[k1][i] == w[k1][i]);
            }
        }
        assert forall|k2: int, j: int| #![trigger w2[k2][j]]
            k < k2 < w2.len() && 0 <= j < w2[k2].len() implies oc.hi() <= w2[k2][j].paddr by {
            assert(w2[k2][j] == w[k2][j]);
        }
    }
}


/// Some entry ending at or after `p` gives a first one
pub proof fn lemma_first_hi_ge_exists(s: Seq<Metadata>, p: u64, j: int)
    requires
        0 <= j < s.len(),
        s[j].hi() >= p,
    ensures
        is_first_hi_ge(s, p, first_hi_ge(s, p)),
    decreases j,
{
    if forall|k: int| #![trigger s[k]] 0 <= k < j ==> s[k].hi() < p {
        assert(is_first_hi_ge(s, p, j));
    } else {
        let k = choose|k: int| #![trigger s[k]] 0 <= k < j && !(s[k].hi() < p);
        lemma_first_hi_ge_exists(s, p, k);
    }
}

/// Inserting an entry that fits in the `k`-th page keeps the pages sorted,
/// and what overflows may be carried to the next page
#[verifier::rlimit(40)]
pub proof fn lemma_insert_step(v: Seq<Seq<Metadata>>, k: int, md: Metadata)
    requires
        pages_sorted(v),
        all_entries_ok(v),
        0 <= k < v.len(),
        v[k].len() <= METADATA_ARRAY_SIZE,
        fits_between(v, k, md),
        sorted(v[k].insert(insert_pos(v[k], md), md)),
        !md.spec_is_none(),
        md.fits(),
    ensures
        insert_combined(v[k], md).len() <= v[k].len() + 1,
        pages_sorted(v.update(k, fit(insert_combined(v[k], md)))),
        overflow_opt(insert_combined(v[k], md)) matches Some(oc)
            ==> carry_fits(v.update(k, fit(insert_combined(v[k], md))), k + 1, oc),
{
    let s = v[k];
    let ic = insert_combined(s, md);
    let pos = insert_pos(s, md);
    let ins = s.insert(pos, md);
    lemma_page_entries_between(v, k);
    assert(entries_ok(s));
    if !insert_appends(s, md) {
        lemma_first_hi_ge_exists(s, md.paddr, s.len() - 1);
    }
    let i0 = first_hi_ge(s, md.paddr);
    assert forall|i: int| #![trigger ic[i]] 0 <= i < ic.len() implies fits_between(v, k, ic[i]) by {
        if insert_appends(s, md) {
            if s.len() > 0 && mergeable(s.last(), md) {
                if i == s.len() - 1 {
                    let g = s.last().spec_grown(md.sz(), Side::Right);
                    assert(ic[i] == g);
                    assert(g.paddr == s[i].paddr);
                    assert(g.hi() == md.hi());
                    assert(fits_between(v, k, s[i]));
                } else {
                    assert(ic[i] == s[i]);
                    assert(fits_between(v, k, s[i]));
                }
            } else if i < s.len() {
                assert(ic[i] == s[i]);
                assert(fits_between(v, k, s[i]));
            } else {
                assert(ic[i] == md);
            }
        } else if insert_pushes(s, md) {
            if mergeable(md, s[0]) {
                if i == 0 {
                    let g = s[0].spec_grown(md.sz(), Side::Left);
                    assert(ic[0] == g);
                    assert(g.paddr == md.paddr);
                    assert(g.hi() == s[0].hi());
                    assert(fits_between(v, k, s[0]));
                } else {
                    assert(ic[i] == s[i]);
                    assert(fits_between(v, k, s[i]));
                }
            } else if i == 0 {
                assert(ic[i] == md);
            } else {
                assert(ic[i] == s[i - 1]);
                assert(fits_between(v, k, s[i - 1]));
            }
        } else if mergeable(s[i0], md) {
            if i0 + 1 < s.len() && mergeable(md, s[i0 + 1]) {
                if i == i0 {
                    let g = s[i0].spec_grown((md.sz() + s[i0 + 1].sz()) as u64, Side::Right);
                    assert(ic[i] == g);
                    assert(g.paddr == s[i0].paddr);
                    assert(g.hi() == s[i0 + 1].hi());
                    assert(fits_between(v, k, s[i0]));
                    assert(fits_between(v, k, s[i0 + 1]));
                } else if i < i0 {
                    assert(ic[i] == s[i]);
                    assert(fits_between(v, k, s[i]));
                } else {
                    assert(ic[i] == s[i + 1]);
                    assert(fits_between(v, k, s[i + 1]));
                }
            } else if i == i0 {
                let g = s[i0].spec_grown(md.sz(), Side::Right);
                assert(ic[i] == g);
                assert(g.paddr == s[i0].paddr);
                assert(g.hi() == md.hi());
                assert(fits_between(v, k, s[i0]));
            } else {
                assert(ic[i] == s[i]);
                assert(fits_between(v, k, s[i]));
            }
        } else if mergeable(md, s[i0]) {
            if i == i0 {
                let g = s[i0].spec_grown(md.sz(), Side::Left);
                assert(ic[i] == g);
                assert(g.paddr == md.paddr);
                assert(g.hi() == s[i0].hi());
                assert(fits_between(v, k, s[i0]));
            } else {
                assert(ic[i] == s[i]);
                assert(fits_between(v, k, s[i]));
            }
        } else if merges_after_first(s, md) {
            if i == i0 + 1 {
                let g = s[i0 + 1].spec_grown(md.sz(), Side::Left);
                assert(ic[i] == g);
                assert(g.paddr == md.paddr);
                assert(g.hi() == s[i0 + 1].hi());
                assert(fits_between(v, k, s[i0 + 1]));
            } else {
                assert(ic[i] == s[i]);
                assert(fits_between(v, k, s[i]));
            }
        } else {
            let p = insert_between_pos(s, md);
            assert(0 <= p <= s.len());
            if i < p {
                assert(ic[i] == s[i]);
                assert(fits_between(v, k, s[i]));
            } else if i == p {
                assert(ic[i] == md);
            } else {
                assert(ic[i] == s[i - 1]);
                assert(fits_between(v, k, s[i - 1]));
            }
        }
    }
    let t = fit(ic);
    assert forall|i: int| #![trigger t[i]] 0 <= i < t.len() implies fits_between(v, k, t[i]) by {
        assert(t[i] == ic[i]);
    }
    lemma_replace_page_sorted(v, k, t);
    let w2 = v.update(k, t);
    if ic.len() > METADATA_ARRAY_SIZE {
        if insert_appends(s, md) {
            assert(ic =~= ins);
        } else if insert_pushes(s, md) {
            assert(ic =~= ins);
        } else {
            assert(ic =~= ins);
        }
        let oc = ic[METADATA_ARRAY_SIZE as int];
        assert(fits_between(v, k, oc));
        assert(pos <= s.len());
        if (METADATA_ARRAY_SIZE as int) < pos {
            assert(oc == s[METADATA_ARRAY_SIZE as int]);
        } else if (METADATA_ARRAY_SIZE as int) == pos {
            assert(oc == md);
        } else {
            assert(oc == s[METADATA_ARRAY_SIZE - 1]);
        }
        assert forall|k1: int, i: int| #![trigger w2[k1][i]]
            0 <= k1 < k + 1 && 0 <= i < w2[k1].len() implies w2[k1][i].hi() <= oc.paddr by {
            if k1 == k {
                assert(w2[k1][i] == ic[i]);
                assert(ic[i].hi() <= ic[METADATA_ARRAY_SIZE as int].paddr);
            } else {
                assert(w2[k1][i] == v[k1][i]);
            }
        }
        assert forall|k2: int, j: int| #![trigger w2[k2][j]]
            k < k2 < w2.len() && 0 <= j < w2[k2].len() implies oc.hi() <= w2[k2][j].paddr by {
            assert(w2[k2][j] == v[k2][j]);
        }
    }
}


/// The entry `md` goes in this page: the page is empty, it begins after the
/// entry, or the entry begins within the range of the page
pub open spec fn takes_insert(s: Seq<Metadata>, md: Metadata) -> bool {
    s.len() == 0 || s[0].paddr > md.paddr || (s[0].paddr <= md.paddr && md.paddr <= s.last().hi())
}

/// `k` is the first page taking the entry `md`
pub open spec fn is_insert_page(v: Seq<Seq<Metadata>>, md: Metadata, k: int) -> bool {
    &&& 0 <= k < v.len()
    &&& takes_insert(v[k], md)
    &&& forall|k2: int| #![trigger v[k2]] 0 <= k2 < k ==> !takes_insert(v[k2], md)
}

/// Some page takes the entry `md`
pub open spec fn has_insert_page(v: Seq<Seq<Metadata>>, md: Metadata) -> bool {
    exists|k: int| is_insert_page(v, md, k)
}

/// The first page taking the entry `md`
pub open spec fn insert_page(v: Seq<Seq<Metadata>>, md: Metadata) -> int {
    choose|k: int| is_insert_page(v, md, k)
}

/// The entry `md` belongs where it is inserted: it does not overlap the
/// entries of its page nor those of the other pages
pub open spec fn insert_fits(v: Seq<Seq<Metadata>>, md: Metadata) -> bool {
    has_insert_page(v, md) ==> ({
        let k = insert_page(v, md);
        &&& fits_between(v, k, md)
        &&& sorted(v[k].insert(insert_pos(v[k], md), md))
    })
}

/// The page taking `md` is full and `md` goes right before its last entry,
/// which a page cannot serve
pub open spec fn insert_refused(v: Seq<Seq<Metadata>>, md: Metadata) -> bool {
    has_insert_page(v, md) && insert_unsupported(v[insert_page(v, md)], md)
}

/// The outcome of carrying the entry `carry` over to the `k`-th page and the
/// following ones, each page pushing its overflowing last entry to the next,
/// a new page taking what is left after the last one: the result and the pages
pub open spec fn spill(v: Seq<Seq<Metadata>>, k: int, carry: Option<Metadata>)
    -> (Result<(), PagingError>, Seq<Seq<Metadata>>)
    decreases v.len() - k,
{
    match carry {
        None => (Ok(()), v),
        Some(c) => {
            if k < 0 || k >= v.len() {
                (Ok(()), v.push(seq![c]))
            } else if !(v[k].len() == 0 || c.hi() <= v[k][0].paddr) {
                (Err(PagingError::TracingError(TracingError::TracingPageError(TracingPageError::PushPreconditions))), v)
            } else {
                let pc = push_combined(v[k], c);
                spill(v.update(k, fit(pc)), k + 1, overflow_opt(pc))
            }
        },
    }
}

/// The outcome of inserting the entry `md` in the pages: the result and the pages
pub open spec fn insert_entry_outcome(v: Seq<Seq<Metadata>>, md: Metadata)
    -> (Result<(), PagingError>, Seq<Seq<Metadata>>)
{
    if has_insert_page(v, md) {
        let k = insert_page(v, md);
        let ic = insert_combined(v[k], md);
        spill(v.update(k, fit(ic)), k + 1, overflow_opt(ic))
    } else {
        (Err(PagingError::TracingError(TracingError::NotFound)), v)
    }
}

/// The first page taking an entry is unique
pub proof fn lemma_insert_page_unique(v: Seq<Seq<Metadata>>, md: Metadata, k: int)
    requires
        is_insert_page(v, md, k),
    ensures
        has_insert_page(v, md),
        insert_page(v, md) == k,
{
    let c = insert_page(v, md);
    assert(is_insert_page(v, md, c));
    if c < k {
        assert(!takes_insert(v[c], md));
    } else if c > k {
        assert(!takes_insert(v[k], md));
    }
}

/// Inserting an entry adds at most one entry, and what overflows is either
/// the entry or the last entry of the page
pub proof fn lemma_insert_overflow(s: Seq<Metadata>, md: Metadata)
    requires
        entries_ok(s),
        s.len() <= METADATA_ARRAY_SIZE,
    ensures
        insert_combined(s, md).len() <= s.len() + 1,
        overflow_opt(insert_combined(s, md)) matches Some(x) ==> x == md || x == s[s.len() - 1],
        overflow(insert_combined(s, md)).len() <= 1,
        overflow(insert_combined(s, md)).len() == 1 ==> overflow_opt(insert_combined(s, md)) == Some(overflow(insert_combined(s, md))[0]),
        overflow(insert_combined(s, md)).len() == 0 ==> overflow_opt(insert_combined(s, md)) is None,
{
    let ic = insert_combined(s, md);
    if !insert_appends(s, md) {
        lemma_first_hi_ge_exists(s, md.paddr, s.len() - 1);
        let i = first_hi_ge(s, md.paddr);
        assert(0 <= insert_between_pos(s, md) <= s.len());
    }
    if ic.len() > METADATA_ARRAY_SIZE {
        assert(overflow(ic)[0] == ic[METADATA_ARRAY_SIZE as int]);
    }
}


/// Some entry containing `p` gives a first one
pub proof fn lemma_first_containing_exists(s: Seq<Metadata>, p: u64, j: int)
    requires
        0 <= j < s.len(),
        s[j].spec_contains(p),
    ensures
        is_first_containing(s, p, first_containing(s, p)),
    decreases j,
{
    if forall|k: int| #![trigger s[k]] 0 <= k < j ==> !s[k].spec_contains(p) {
        assert(is_first_containing(s, p, j));
    } else {
        let k = choose|k: int| #![trigger s[k]] 0 <= k < j && s[k].spec_contains(p);
        lemma_first_containing_exists(s, p, k);
    }
}

/// The outcome of taking `size` Bytes from `paddr` in a page holding the
/// entries `s`: the result, with the entries to move to the next page, and
/// the entries of the page
pub open spec fn page_take(s: Seq<Metadata>, paddr: u64, size: u64)
    -> (Result<Seq<Metadata>, TracingPageError>, Seq<Metadata>)
{
    if !has_containing(s, paddr) {
        (Err(TracingPageError::NotFound), s)
    } else {
        let n = s.len() as int;
        let i = first_containing(s, paddr);
        let m = s[i];
        if m.spec_is_taken() {
            (Err(TracingPageError::EntryIsTaken), s)
        } else if m.sz() < size {
            (Err(TracingPageError::EntrySizeMismatch), s)
        } else if m.sz() == size {
            (Ok(Seq::empty()), s.update(i, m.spec_taken()))
        } else if m.paddr == paddr {
            let c = replace_with(s, i, take_pieces_lower(m, size));
            (Ok(overflow(c)), fit(c))
        } else if m.hi() == paddr + size {
            let c = replace_with(s, i, take_pieces_higher(m, size));
            (Ok(overflow(c)), fit(c))
        } else {
            let c = replace_with(s, i, take_pieces_middle(m, paddr, size));
            (Ok(move_from(c, middle_split(n, i))), keep_upto(c, middle_split(n, i)))
        }
    }
}

/// Every entry of `e` may be pushed in front of the entries `s`
pub open spec fn can_push_all(s: Seq<Metadata>, e: Seq<Metadata>) -> bool {
    forall|j: int| #![trigger e[j]] 0 <= j < e.len() ==> (s.len() == 0 || e[j].hi() <= s[0].paddr)
}

/// The outcome of carrying the entries `carry` over to the `k`-th page and the
/// following ones, each page pushing its overflowing entries to the next,
/// a new page taking what is left after the last one: the result and the pages
pub open spec fn spill_excess(v: Seq<Seq<Metadata>>, k: int, carry: Seq<Metadata>)
    -> (Result<(), PagingError>, Seq<Seq<Metadata>>)
    decreases v.len() - k,
{
    if carry.len() == 0 {
        (Ok(()), v)
    } else if k < 0 || k >= v.len() {
        (Ok(()), v.push(carry))
    } else if !can_push_all(v[k], carry) {
        (Err(PagingError::TracingError(TracingError::TracingPageError(TracingPageError::PushPreconditions))), v)
    } else if carry.len() == 2 && v[k].len() + 1 == METADATA_ARRAY_SIZE && !mergeable(carry[1], v[k][0]) {
        (Err(PagingError::TracingError(TracingError::TracingPageError(TracingPageError::RightShiftPreconditions))), v)
    } else {
        let c = push_excess_combined(v[k], carry);
        spill_excess(v.update(k, fit(c)), k + 1, overflow(c))
    }
}

/// The page holds the physical address `paddr`, its end excluded
pub open spec fn holds_strict(s: Seq<Metadata>, paddr: u64) -> bool {
    s.len() > 0 && s[0].paddr <= paddr && paddr < s.last().hi()
}

/// `k` is the first page holding the physical address `paddr`
pub open spec fn is_holding_page(v: Seq<Seq<Metadata>>, paddr: u64, k: int) -> bool {
    &&& 0 <= k < v.len()
    &&& holds_strict(v[k], paddr)
    &&& forall|k2: int| #![trigger v[k2]] 0 <= k2 < k ==> !holds_strict(v[k2], paddr)
}

/// Some page holds the physical address `paddr`
pub open spec fn has_holding_page(v: Seq<Seq<Metadata>>, paddr: u64) -> bool {
    exists|k: int| is_holding_page(v, paddr, k)
}

/// The first page holding the physical address `paddr`
pub open spec fn holding_page(v: Seq<Seq<Metadata>>, paddr: u64) -> int {
    choose|k: int| is_holding_page(v, paddr, k)
}

/// The first page holding an address is unique
pub proof fn lemma_holding_page_unique(v: Seq<Seq<Metadata>>, paddr: u64, k: int)
    requires
        is_holding_page(v, paddr, k),
    ensures
        has_holding_page(v, paddr),
        holding_page(v, paddr) == k,
{
    let c = holding_page(v, paddr);
    assert(is_holding_page(v, paddr, c));
    if c < k {
        assert(!holds_strict(v[c], paddr));
    } else if c > k {
        assert(!holds_strict(v[k], paddr));
    }
}

/// Taking the requested space from the page holding it cannot be served by
/// the page, see [`take_unsupported`]
pub open spec fn take_refused(v: Seq<Seq<Metadata>>, paddr: u64, size: u64) -> bool {
    has_holding_page(v, paddr) && take_unsupported(v[holding_page(v, paddr)], paddr, size)
}

/// The outcome of taking `size` Bytes from `paddr`: the result and the pages
pub open spec fn take_outcome(v: Seq<Seq<Metadata>>, paddr: u64, size: u64)
    -> (Result<(), PagingError>, Seq<Seq<Metadata>>)
{
    if has_holding_page(v, paddr) {
        let k = holding_page(v, paddr);
        let (res, t) = page_take(v[k], paddr, size);
        match res {
            Err(e) => (Err(PagingError::TracingError(TracingError::TracingPageError(e))), v.update(k, t)),
            Ok(e) => spill_excess(v.update(k, t), k + 1, e),
        }
    } else {
        (Err(PagingError::TracingError(TracingError::NotFound)), v)
    }
}

/// The entries taken apart from a free entry are well ordered
pub proof fn lemma_take_pieces_ok(s: Seq<Metadata>, paddr: u64, size: u64)
    requires
        entries_ok(s),
        s.len() <= METADATA_ARRAY_SIZE,
        has_containing(s, paddr),
        !take_unsupported(s, paddr, size),
    ensures
        page_take(s, paddr, size).0 matches Ok(e) ==> entries_ok(e) && e.len() <= 2,
{
    lemma_first_containing_exists(s, paddr, choose|j: int| #![trigger s[j]] 0 <= j < s.len() && s[j].spec_contains(paddr));
    let n = s.len() as int;
    let i = first_containing(s, paddr);
    let m = s[i];
    assert(entries_ok(s) && 0 <= i < n);
    assert(!m.spec_is_none() && m.fits());
    if !m.spec_is_taken() && m.sz() > size {
        assert(m.spec_is_free());
        if m.paddr == paddr {
            let pieces = take_pieces_lower(m, size);
            assert(entries_ok(pieces));
            lemma_entries_ok_replace_with(s, i, pieces);
            let c = replace_with(s, i, pieces);
            if c.len() > METADATA_ARRAY_SIZE {
                lemma_entries_ok_subrange(c, METADATA_ARRAY_SIZE as int, c.len() as int);
                assert(c.subrange(METADATA_ARRAY_SIZE as int, c.len() as int) =~= overflow(c));
            }
        } else if m.hi() == paddr + size {
            let pieces = take_pieces_higher(m, size);
            assert(entries_ok(pieces));
            lemma_entries_ok_replace_with(s, i, pieces);
            let c = replace_with(s, i, pieces);
            if c.len() > METADATA_ARRAY_SIZE {
                lemma_entries_ok_subrange(c, METADATA_ARRAY_SIZE as int, c.len() as int);
                assert(c.subrange(METADATA_ARRAY_SIZE as int, c.len() as int) =~= overflow(c));
            }
        } else {
            let pieces = take_pieces_middle(m, paddr, size);
            assert(entries_ok(pieces));
            lemma_entries_ok_replace_with(s, i, pieces);
            let c = replace_with(s, i, pieces);
            let k = middle_split(n, i);
            if c.len() > k {
                lemma_entries_ok_subrange(c, k, c.len() as int);
                assert(c.subrange(k, c.len() as int) =~= move_from(c, k));
            }
        }
    }
}

/// Pushing entries that go before a page gives well ordered entries
pub proof fn lemma_push_excess_ok(s: Seq<Metadata>, e: Seq<Metadata>)
    requires
        entries_ok(s),
        entries_ok(e),
        e.len() <= 2,
        s.len() <= METADATA_ARRAY_SIZE,
        can_push_all(s, e),
    ensures
        entries_ok(overflow(push_excess_combined(s, e))),
        overflow(push_excess_combined(s, e)).len() <= 2,
{
    let c = push_excess_combined(s, e);
    if e.len() == 1 {
        assert(e[0] == e[0]);
        lemma_entries_ok_prepend(s, e[0]);
    } else if e.len() == 2 && s.len() > 0 {
        assert(e[1].hi() <= s[0].paddr);
        assert(e[0].hi() <= e[1].paddr);
        if !mergeable(e[1], s[0]) {
            lemma_entries_ok_prepend(s, e[1]);
            lemma_entries_ok_prepend(seq![e[1]] + s, e[0]);
            assert(c =~= seq![e[0]] + (seq![e[1]] + s));
        }
    }
    if c.len() > METADATA_ARRAY_SIZE {
        if e.len() == 2 && s.len() > 0 && !mergeable(e[1], s[0]) {
            lemma_entries_ok_subrange(c, METADATA_ARRAY_SIZE as int, c.len() as int);
        } else if e.len() == 1 {
            lemma_entries_ok_subrange(c, METADATA_ARRAY_SIZE as int, c.len() as int);
        }
        assert(c.subrange(METADATA_ARRAY_SIZE as int, c.len() as int) =~= overflow(c));
    }
}


/// Removing whole entries or parts of entries from the `k`-th page, starting
/// at the entry `j0`, leaves entries that fit in its place; a reminder asking
/// to remove more from the next page starts where the page ended
pub proof fn lemma_remove_chain_fits(v: Seq<Seq<Metadata>>, kk: int, i0: int, j: int, rem: int)
    requires
        pages_sorted(v),
        0 <= kk < v.len(),
        entries_ok(v[kk]),
        0 <= i0 <= j,
        0 <= rem <= u64::MAX,
    ensures
        forall|a: int| #![trigger remove_chain(v[kk], i0, j, rem).1[a]]
            0 <= a < remove_chain(v[kk], i0, j, rem).1.len() ==> fits_between(v, kk, remove_chain(v[kk], i0, j, rem).1[a]),
        remove_chain(v[kk], i0, j, rem).0 matches Ok(Reminder::Negative(md))
            ==> v[kk].len() > 0 && md.paddr == v[kk].last().hi() && md.sz() > 0,
        !(remove_chain(v[kk], i0, j, rem).0 matches Ok(Reminder::Positive(_))),
    decreases v[kk].len() - j,
{
    let s = v[kk];
    lemma_page_entries_between(v, kk);
    let (res, t) = remove_chain(s, i0, j, rem);
    if j < 0 || j >= s.len() {
    } else {
        let m = s[j];
        assert(fits_between(v, kk, m));
        if m.sz() == 0 {
        } else if m.sz() == rem {
            assert forall|a: int| #![trigger t[a]] 0 <= a < t.len() implies fits_between(v, kk, t[a]) by {
                if a < i0 {
                    assert(t[a] == s[a]);
                    assert(fits_between(v, kk, s[a]));
                } else {
                    assert(t[a] == s[a - i0 + j + 1]);
                    assert(fits_between(v, kk, s[a - i0 + j + 1]));
                }
            }
        } else if m.sz() > rem {
            if m.spec_is_taken() {
            } else {
                let sh = m.spec_shrunk(rem as u64, Side::Left);
                assert(sh.paddr >= m.paddr && sh.hi() == m.hi());
                assert forall|a: int| #![trigger t[a]] 0 <= a < t.len() implies fits_between(v, kk, t[a]) by {
                    if a < i0 {
                        assert(t[a] == s[a]);
                        assert(fits_between(v, kk, s[a]));
                    } else if a == i0 {
                        assert(t[a] == sh);
                    } else {
                        assert(t[a] == s[a - i0 + j]);
                        assert(fits_between(v, kk, s[a - i0 + j]));
                    }
                }
            }
        } else if j + 1 < s.len() && !s[j + 1].spec_contiguous_to(m) {
        } else if j + 1 == s.len() {
            assert forall|a: int| #![trigger t[a]] 0 <= a < t.len() implies fits_between(v, kk, t[a]) by {
                assert(t[a] == s[a]);
                assert(fits_between(v, kk, s[a]));
            }
        } else {
            lemma_remove_chain_fits(v, kk, i0, j + 1, rem - m.sz());
        }
    }
}

/// Whether an entry fits between the pages around the `k`-th one does not
/// depend on the `k`-th page
proof fn lemma_fits_between_update(v: Seq<Seq<Metadata>>, kk: int, s1: Seq<Metadata>, x: Metadata)
    requires
        0 <= kk < v.len(),
    ensures
        fits_between(v.update(kk, s1), kk, x) == fits_between(v, kk, x),
{
    let v1 = v.update(kk, s1);
    assert forall|k1: int, i: int| #![trigger v[k1][i]] 0 <= k1 < kk && 0 <= i < v[k1].len() implies v1[k1][i] == v[k1][i] by {}
    assert forall|k1: int, i: int| #![trigger v1[k1][i]] 0 <= k1 < kk && 0 <= i < v1[k1].len() implies v1[k1][i] == v[k1][i] by {}
    assert forall|k2: int, j: int| #![trigger v[k2][j]] kk < k2 < v.len() && 0 <= j < v[k2].len() implies v1[k2][j] == v[k2][j] by {}
    assert forall|k2: int, j: int| #![trigger v1[k2][j]] kk < k2 < v1.len() && 0 <= j < v1[k2].len() implies v1[k2][j] == v[k2][j] by {}
}

/// Removing space from the `k`-th page leaves entries that fit in its place;
/// a reminder asking to remove more from the next page starts where the page
/// ended, and an entry carried to the next page may be pushed in front of it
pub proof fn lemma_remove_fits(v: Seq<Seq<Metadata>>, kk: int, paddr: u64, size: u64)
    requires
        pages_sorted(v),
        0 <= kk < v.len(),
        entries_ok(v[kk]),
        v[kk].len() <= METADATA_ARRAY_SIZE,
        !remove_unsupported(v[kk], paddr, size),
    ensures
        pages_sorted(v.update(kk, remove_outcome(v[kk], paddr, size).1)),
        remove_outcome(v[kk], paddr, size).0 matches Ok(Reminder::Negative(md))
            ==> below_pages(v.update(kk, remove_outcome(v[kk], paddr, size).1), kk, md.paddr as int) && md.sz() > 0,
        remove_outcome(v[kk], paddr, size).0 matches Ok(Reminder::Positive(md))
            ==> carry_fits(v.update(kk, remove_outcome(v[kk], paddr, size).1), kk + 1, md),
{
    let s = v[kk];
    lemma_page_entries_between(v, kk);
    let (res, t) = remove_outcome(s, paddr, size);
    if has_containing(s, paddr) {
        lemma_first_containing_exists(s, paddr, choose|j: int| #![trigger s[j]] 0 <= j < s.len() && s[j].spec_contains(paddr));
        let i0 = first_containing(s, paddr);
        let m = s[i0];
        assert(fits_between(v, kk, m));
        assert(!m.spec_is_none() && m.fits());
        if m.paddr == paddr {
            lemma_remove_chain_fits(v, kk, i0, i0, size as int);
        } else if m.sz() > size {
            if m.spec_is_taken() {
            } else if m.hi() == paddr + size {
                assert forall|a: int| #![trigger t[a]] 0 <= a < t.len() implies fits_between(v, kk, t[a]) by {
                    if a != i0 {
                        assert(t[a] == s[a]);
                        assert(fits_between(v, kk, s[a]));
                    }
                }
            } else {
                let pieces = remove_pieces_middle(m, paddr, size);
                assert(entries_ok(pieces));
                lemma_entries_ok_replace_with(s, i0, pieces);
                let c = replace_with(s, i0, pieces);
                assert forall|a: int| #![trigger c[a]] 0 <= a < c.len() implies fits_between(v, kk, c[a]) by {
                    if a < i0 {
                        assert(c[a] == s[a]);
                        assert(fits_between(v, kk, s[a]));
                    } else if a < i0 + 2 {
                        assert(c[a] == pieces[a - i0]);
                    } else {
                        assert(c[a] == s[a - 1]);
                        assert(fits_between(v, kk, s[a - 1]));
                    }
                }
                assert forall|a: int| #![trigger t[a]] 0 <= a < t.len() implies fits_between(v, kk, t[a]) by {
                    assert(t[a] == c[a]);
                }
                lemma_replace_page_sorted(v, kk, t);
                let w2 = v.update(kk, t);
                if c.len() > METADATA_ARRAY_SIZE {
                    let oc = c[METADATA_ARRAY_SIZE as int];
                    assert(fits_between(v, kk, oc));
                    assert forall|k1: int, i: int| #![trigger w2[k1][i]]
                        0 <= k1 < kk + 1 && 0 <= i < w2[k1].len() implies w2[k1][i].hi() <= oc.paddr by {
                        if k1 == kk {
                            assert(w2[k1][i] == c[i]);
                            assert(c[i].hi() <= c[METADATA_ARRAY_SIZE as int].paddr);
                        } else {
                            assert(w2[k1][i] == v[k1][i]);
                        }
                    }
                    assert forall|k2: int, j: int| #![trigger w2[k2][j]]
                        kk < k2 < w2.len() && 0 <= j < w2[k2].len() implies oc.hi() <= w2[k2][j].paddr by {
                        assert(w2[k2][j] == v[k2][j]);
                    }
                }
            }
        } else if i0 + 1 < s.len() && !s[i0 + 1].spec_contiguous_to(m) {
        } else if m.spec_is_taken() {
        } else {
            let cut = (m.hi() - paddr) as u64;
            let sh = m.spec_shrunk(cut, Side::Right);
            let s1 = s.update(i0, sh);
            assert(sh.paddr == m.paddr && sh.hi() == paddr);
            assert forall|a: int| #![trigger s1[a]] 0 <= a < s1.len() implies fits_between(v, kk, s1[a]) by {
                if a != i0 {
                    assert(s1[a] == s[a]);
                    assert(fits_between(v, kk, s[a]));
                }
            }
            lemma_replace_page_sorted(v, kk, s1);
            lemma_entries_ok_replace(s, i0, sh);
            let v1 = v.update(kk, s1);
            if i0 + 1 < s.len() {
                lemma_remove_chain_fits(v1, kk, i0 + 1, i0 + 1, size - cut);
                assert(v1[kk] == s1);
                assert forall|a: int| #![trigger t[a]] 0 <= a < t.len() implies fits_between(v, kk, t[a]) by {
                    lemma_fits_between_update(v, kk, s1, t[a]);
                }
                assert(s1.last() == s.last());
            } else {
                assert forall|a: int| #![trigger t[a]] 0 <= a < t.len() implies fits_between(v, kk, t[a]) by {
                    assert(t[a] == s1[a]);
                }
            }
        }
    }
    if t == s {
        assert forall|a: int| #![trigger t[a]] 0 <= a < t.len() implies fits_between(v, kk, t[a]) by {
            assert(fits_between(v, kk, s[a]));
        }
    }
    lemma_replace_page_sorted(v, kk, t);
    if let Ok(Reminder::Negative(md)) = res {
        let w2 = v.update(kk, t);
        assert forall|k2: int, j: int| #![trigger w2[k2][j]]
            kk < k2 < w2.len() && 0 <= j < w2[k2].len() implies md.paddr <= w2[k2][j].paddr by {
            assert(w2[k2][j] == v[k2][j]);
            assert(s[s.len() - 1].hi() <= v[k2][j].paddr);
        }
    }
}


/// The outcome of removing space from a page as `try_remove` does: the page
/// must hold the address
pub open spec fn page_try_remove(s: Seq<Metadata>, paddr: u64, size: u64)
    -> (Result<Reminder, TracingPageError>, Seq<Metadata>)
{
    if holds_strict(s, paddr) {
        remove_outcome(s, paddr, size)
    } else {
        (Err(TracingPageError::RemovePreconditions), s)
    }
}

/// The outcome of passing the reminder `rem` over to the `k`-th page and the
/// following ones: a positive reminder is pushed in front of the page, a
/// negative one is removed from its beginning, and a zero one ends with the
/// pages merged; the result and the pages
pub open spec fn rem_spill(v: Seq<Seq<Metadata>>, k: int, rem: Reminder)
    -> (Result<(), PagingError>, Seq<Seq<Metadata>>)
    decreases v.len() - k,
{
    match rem {
        Reminder::Zero => (Ok(()), merge_upto(v, v.len() as int)),
        Reminder::Negative(md) => {
            if k < 0 || k >= v.len() {
                (Err(PagingError::TracingError(TracingError::InvalidRequest)), v)
            } else {
                let (res, t) = page_try_remove(v[k], md.paddr, md.sz());
                match res {
                    Err(e) => (Err(PagingError::TracingError(TracingError::TracingPageError(e))), v.update(k, t)),
                    Ok(r2) => rem_spill(v.update(k, t), k + 1, r2),
                }
            }
        },
        Reminder::Positive(md) => {
            if k < 0 || k >= v.len() {
                (Ok(()), v.push(seq![md]))
            } else if !(v[k].len() == 0 || md.hi() <= v[k][0].paddr) {
                (Err(PagingError::TracingError(TracingError::TracingPageError(TracingPageError::PushPreconditions))), v)
            } else {
                let pc = push_combined(v[k], md);
                match overflow_opt(pc) {
                    Some(o) => rem_spill(v.update(k, fit(pc)), k + 1, Reminder::Positive(o)),
                    None => (Ok(()), v.update(k, fit(pc))),
                }
            }
        },
    }
}

/// Removing the requested space from the page holding it cannot be served
/// by the page, see [`remove_unsupported`]
pub open spec fn remove_refused(v: Seq<Seq<Metadata>>, paddr: u64, size: u64) -> bool {
    has_holding_page(v, paddr) && remove_unsupported(v[holding_page(v, paddr)], paddr, size)
}

/// The outcome of removing `size` Bytes from `paddr`: the result and the pages
pub open spec fn remove_space_outcome(v: Seq<Seq<Metadata>>, paddr: u64, size: u64)
    -> (Result<(), PagingError>, Seq<Seq<Metadata>>)
{
    if has_holding_page(v, paddr) {
        let k = holding_page(v, paddr);
        let (res, t) = remove_outcome(v[k], paddr, size);
        match res {
            Err(e) => (Err(PagingError::TracingError(TracingError::TracingPageError(e))), v.update(k, t)),
            Ok(r) => rem_spill(v.update(k, t), k + 1, r),
        }
    } else {
        (Err(PagingError::TracingError(TracingError::NotFound)), v)
    }
}


/// The outcome of freeing the entry starting at `paddr` in a page holding the
/// entries `s`: the result, with the size of the entry, and the entries of the page
pub open spec fn page_drop(s: Seq<Metadata>, paddr: u64) -> (Result<u64, TracingPageError>, Seq<Metadata>) {
    if !has_containing(s, paddr) {
        (Err(TracingPageError::NotFound), s)
    } else {
        let i = first_containing(s, paddr);
        if s[i].paddr != paddr {
            (Err(TracingPageError::DropPreconditions), s)
        } else if s[i].spec_is_free() {
            (Err(TracingPageError::EntryIsFree), s)
        } else {
            (Ok(s[i].sz()), free_merge_combined(s, i))
        }
    }
}

/// The outcome of dropping the allocation starting at `paddr`: the result
/// and the pages, merged once the entry is freed
pub open spec fn drop_outcome(v: Seq<Seq<Metadata>>, paddr: u64) -> (Result<(), PagingError>, Seq<Seq<Metadata>>) {
    if has_holding_page(v, paddr) {
        let k = holding_page(v, paddr);
        let (res, t) = page_drop(v[k], paddr);
        match res {
            Err(e) => (Err(PagingError::TracingError(TracingError::TracingPageError(e))), v),
            Ok(_) => (Ok(()), merge_upto(v.update(k, t), v.len() as int)),
        }
    } else {
        (Err(PagingError::TracingError(TracingError::NotFound)), v)
    }
}

/// Freeing an entry and merging it with its free neighbours leaves entries
/// that fit in the place of the page
pub proof fn lemma_drop_fits(v: Seq<Seq<Metadata>>, kk: int, i: int)
    requires
        pages_sorted(v),
        0 <= kk < v.len(),
        entries_ok(v[kk]),
        0 <= i < v[kk].len(),
    ensures
        pages_sorted(v.update(kk, free_merge_combined(v[kk], i))),
{
    let s = v[kk];
    lemma_page_entries_between(v, kk);
    let lo = merge_low(s, i);
    let hi = merge_high(s, i);
    let t = free_merge_combined(s, i);
    reveal_with_fuel(sizes_between, 4);
    assert(s[lo].paddr + sizes_between(s, lo, hi) == s[hi].hi());
    let merged = t[lo];
    assert(merged.paddr == s[lo].paddr);
    assert(merged.hi() == s[hi].hi());
    assert(fits_between(v, kk, s[lo]));
    assert(fits_between(v, kk, s[hi]));
    assert forall|a: int| #![trigger t[a]] 0 <= a < t.len() implies fits_between(v, kk, t[a]) by {
        if a < lo {
            assert(t[a] == s[a]);
            assert(fits_between(v, kk, s[a]));
        } else if a > lo {
            assert(t[a] == s[a - lo + hi]);
            assert(fits_between(v, kk, s[a - lo + hi]));
        }
    }
    lemma_replace_page_sorted(v, kk, t);
}


/// The outcome of resizing to `new_size` Bytes the taken entry at index `i`
/// of the entries `s`: the result and the entries of the page
pub open spec fn entry_resize(s: Seq<Metadata>, i: int, new_size: u64) -> (Result<Reminder, TracingPageError>, Seq<Metadata>) {
    let n = s.len();
    let m = s[i];
    let next = i + 1;
    if m.sz() > new_size {
        let cur = m.spec_with_size(new_size);
        let higher = shrink_release(m, new_size);
        if next < n && s[next].spec_is_free() && s[next].spec_contiguous_to(m) {
            (Ok(Reminder::Zero), s.update(i, cur).update(next, s[next].spec_grown(higher.sz(), Side::Left)))
        } else {
            let c = replace_with(s, i, seq![cur, higher]);
            (Ok(positive_overflow(c)), fit(c))
        }
    } else if m.sz() < new_size {
        let diff = (new_size - m.sz()) as u64;
        let cur = m.spec_grown(diff, Side::Right);
        if next == n {
            if n < METADATA_ARRAY_SIZE {
                (Err(TracingPageError::ResizePreconditions), s)
            } else {
                (Ok(Reminder::Negative(expand_missing(m, new_size))), s.update(i, cur))
            }
        } else if s[next].spec_is_taken() || !s[next].spec_contiguous_to(m) {
            (Err(TracingPageError::ResizePreconditions), s)
        } else if s[next].sz() < diff {
            (Err(TracingPageError::EntrySizeMismatch), s)
        } else if s[next].sz() > diff {
            (Ok(Reminder::Zero), s.update(i, cur).update(next, s[next].spec_shrunk(diff, Side::Left)))
        } else {
            (Ok(Reminder::Zero), s.update(i, cur).remove(next))
        }
    } else {
        (Ok(Reminder::Zero), s)
    }
}

/// The outcome of resizing to `new_size` Bytes the taken entry starting at
/// `paddr` in a page holding the entries `s`: the result and the entries of the page
pub open spec fn page_resize(s: Seq<Metadata>, paddr: u64, new_size: u64) -> (Result<Reminder, TracingPageError>, Seq<Metadata>) {
    if !has_containing(s, paddr) {
        (Err(TracingPageError::NotFound), s)
    } else {
        let i = first_containing(s, paddr);
        if s[i].paddr != paddr {
            (Err(TracingPageError::ResizePreconditions), s)
        } else if s[i].spec_is_free() {
            (Err(TracingPageError::EntryIsFree), s)
        } else {
            entry_resize(s, i, new_size)
        }
    }
}

/// The page's range of addresses holds `paddr`, its end included
pub open spec fn holds(s: Seq<Metadata>, paddr: u64) -> bool {
    s.len() > 0 && s[0].paddr <= paddr && paddr <= s.last().hi()
}

/// The outcome of resizing from the `k`-th page on, in the state left by the
/// pages before: whether the entry was found, the entry carried over from the
/// previous page and what the previous page left to add or remove; the result
/// and the pages
pub open spec fn resize_from(
    v: Seq<Seq<Metadata>>,
    paddr: u64,
    size: u64,
    k: int,
    found: bool,
    carry: Option<Metadata>,
    rem: Reminder,
) -> (Result<(), PagingError>, Seq<Seq<Metadata>>)
    decreases v.len() - k,
{
    if k < 0 || k >= v.len() {
        if !found {
            (Err(PagingError::TracingError(TracingError::NotFound)), v)
        } else {
            match carry {
                Some(c) => (Ok(()), v.push(seq![c])),
                None => (Ok(()), v),
            }
        }
    } else {
        match carry {
            Some(c) => {
                if !(v[k].len() == 0 || c.hi() <= v[k][0].paddr) {
                    (Err(PagingError::TracingError(TracingError::TracingPageError(TracingPageError::PushPreconditions))), v)
                } else {
                    let pc = push_combined(v[k], c);
                    resize_from(v.update(k, fit(pc)), paddr, size, k + 1, found, overflow_opt(pc), rem)
                }
            },
            None => {
                match rem {
                    Reminder::Positive(md) => {
                        if !(v[k].len() == 0 || md.hi() <= v[k][0].paddr) {
                            (Err(PagingError::TracingError(TracingError::TracingPageError(TracingPageError::PushPreconditions))), v)
                        } else {
                            let pc = push_combined(v[k], md);
                            match overflow_opt(pc) {
                                None => (Ok(()), v.update(k, fit(pc))),
                                Some(o) => resize_from(v.update(k, fit(pc)), paddr, size, k + 1, found, Some(o), Reminder::Zero),
                            }
                        }
                    },
                    Reminder::Negative(md) => {
                        let (res, t) = page_take(v[k], md.paddr, md.sz());
                        match res {
                            Err(e) => (Err(PagingError::TracingError(TracingError::TracingPageError(e))), v.update(k, t)),
                            Ok(_) => (Ok(()), v.update(k, t)),
                        }
                    },
                    Reminder::Zero => {
                        if holds(v[k], paddr) {
                            let (res, t) = page_resize(v[k], paddr, size);
                            match res {
                                Err(e) => (Err(PagingError::TracingError(TracingError::TracingPageError(e))), v.update(k, t)),
                                Ok(Reminder::Zero) => (Ok(()), merge_upto(v.update(k, t), v.len() as int)),
                                Ok(r2) => resize_from(v.update(k, t), paddr, size, k + 1, true, None, r2),
                            }
                        } else {
                            resize_from(v, paddr, size, k + 1, found, None, Reminder::Zero)
                        }
                    },
                }
            },
        }
    }
}

/// Resizing the entry starting at `paddr` in a page holding it cannot be
/// served by the page, see [`resize_unsupported`]; nor can taking from the
/// following page the part that the last entry of a full page grows into,
/// see [`take_unsupported`]
pub open spec fn resize_refused_at(v: Seq<Seq<Metadata>>, paddr: u64, size: u64, k: int) -> bool {
    ||| resize_unsupported(v[k], paddr, size)
    ||| (page_resize(v[k], paddr, size).0 matches Ok(Reminder::Negative(md))
        && k + 1 < v.len() && take_unsupported(v[k + 1], md.paddr, md.sz()))
}

/// Resizing the entry at `paddr` makes the last entry of a page grow over
/// the space of the next page, which is then taken there
pub open spec fn resize_grows_over(v: Seq<Seq<Metadata>>, paddr: u64, size: u64) -> bool {
    exists|k: int| 0 <= k < v.len() && holds(v[k], paddr)
        && (page_resize(v[k], paddr, size).0 matches Ok(Reminder::Negative(_)))
}

/// Checks whether resizing to `size` Bytes the entry starting at `paddr` in
/// `page` is a request that the page cannot serve, and, when it can, gives
/// the part that the entry takes from the next page as it grows out of a full
/// page
fn page_resize_check(page: &TracingPage, paddr: u64, size: u64) -> (r: (bool, Option<Metadata>))
    requires
        page.wf(),
    ensures
        r.0 == resize_unsupported(page.entries(), paddr, size),
        !r.0 ==> r.1 == (match page_resize(page.entries(), paddr, size).0 {
            Ok(Reminder::Negative(md)) => Some(md),
            _ => None::<Metadata>,
        }),
{
    let ghost s = page.entries();
    let n = page.size;
    let mut i: usize = 0;
    while i < n
        invariant
            page.wf(),
            page.entries() == s,
            n == s.len(),
            i <= n,
            forall|k: int| #![trigger s[k]] 0 <= k < i ==> !s[k].spec_contains(paddr),
        decreases n - i,
    {
        proof { assert(s[i as int] == page.metadata@[i as int]); }
        if page.metadata[i].contains(paddr) {
            proof {
                assert(is_first_containing(s, paddr, i as int));
                lemma_first_containing_unique(s, paddr, i as int);
            }
            let m = page.metadata[i];
            if m.lower_paddr() != paddr || !m.is_taken() {
                return (false, None);
            }
            let full = n == METADATA_ARRAY_SIZE;
            let msize = m.size();
            if msize > size {
                if full && i + 2 == n {
                    proof { assert(s[i + 1] == page.metadata@[i + 1]); }
                    let next = page.metadata[i + 1];
                    return (!(next.is_free() && next.is_contiguous_to(&m)), None);
                }
                return (false, None);
            } else if msize < size {
                if i + 1 == n && full {
                    if size > u64::MAX - m.lower_paddr() || size > u64::MAX - m.lower_laddr() {
                        return (true, None);
                    }
                    let diff = size - msize;
                    let missing = Metadata::new_free(m.lower_paddr() + diff, m.lower_laddr() + diff, diff);
                    return (false, Some(missing));
                }
                return (false, None);
            } else {
                return (false, None);
            }
        }
        i = i + 1;
    }
    (false, None)
}

/// No page that the resizing may reach refuses it
pub open spec fn resize_refused(v: Seq<Seq<Metadata>>, paddr: u64, size: u64) -> bool {
    exists|k: int| 0 <= k < v.len() && holds(v[k], paddr) && resize_refused_at(v, paddr, size, k)
}

/// Resizing an entry leaves entries that fit in the place of the page unless
/// the last entry of a full page grows; an entry overflowing the page may be
/// pushed in front of the next one
pub proof fn lemma_resize_fits(v: Seq<Seq<Metadata>>, kk: int, paddr: u64, new_size: u64)
    requires
        pages_sorted(v),
        0 <= kk < v.len(),
        entries_ok(v[kk]),
        v[kk].len() <= METADATA_ARRAY_SIZE,
        !resize_unsupported(v[kk], paddr, new_size),
        !(page_resize(v[kk], paddr, new_size).0 matches Ok(Reminder::Negative(_))),
    ensures
        pages_sorted(v.update(kk, page_resize(v[kk], paddr, new_size).1)),
        page_resize(v[kk], paddr, new_size).0 matches Ok(Reminder::Positive(md))
            ==> carry_fits(v.update(kk, page_resize(v[kk], paddr, new_size).1), kk + 1, md),
{
    let s = v[kk];
    lemma_page_entries_between(v, kk);
    let (res, t) = page_resize(s, paddr, new_size);
    if has_containing(s, paddr) {
        lemma_first_containing_exists(s, paddr, choose|j: int| #![trigger s[j]] 0 <= j < s.len() && s[j].spec_contains(paddr));
        let i = first_containing(s, paddr);
        let m = s[i];
        assert(fits_between(v, kk, m));
        assert(!m.spec_is_none() && m.fits());
        if m.paddr == paddr && !m.spec_is_free() {
            let n = s.len();
            let next = i + 1;
            if m.sz() > new_size {
                let cur = m.spec_with_size(new_size);
                let higher = shrink_release(m, new_size);
                if next < n && s[next].spec_is_free() && s[next].spec_contiguous_to(m) {
                    assert(fits_between(v, kk, s[next]));
                    let g = s[next].spec_grown(higher.sz(), Side::Left);
                    assert(g.paddr == cur.hi() && g.hi() == s[next].hi());
                    assert forall|a: int| #![trigger t[a]] 0 <= a < t.len() implies fits_between(v, kk, t[a]) by {
                        if a != i && a != next {
                            assert(t[a] == s[a]);
                            assert(fits_between(v, kk, s[a]));
                        }
                    }
                } else {
                    let pieces = seq![cur, higher];
                    assert(entries_ok(pieces));
                    lemma_entries_ok_replace_with(s, i, pieces);
                    let c = replace_with(s, i, pieces);
                    assert forall|a: int| #![trigger c[a]] 0 <= a < c.len() implies fits_between(v, kk, c[a]) by {
                        if a < i {
                            assert(c[a] == s[a]);
                            assert(fits_between(v, kk, s[a]));
                        } else if a < i + 2 {
                            assert(c[a] == pieces[a - i]);
                        } else {
                            assert(c[a] == s[a - 1]);
                            assert(fits_between(v, kk, s[a - 1]));
                        }
                    }
                    assert forall|a: int| #![trigger t[a]] 0 <= a < t.len() implies fits_between(v, kk, t[a]) by {
                        assert(t[a] == c[a]);
                    }
                    lemma_replace_page_sorted(v, kk, t);
                    let w2 = v.update(kk, t);
                    if c.len() > METADATA_ARRAY_SIZE {
                        let oc = c[METADATA_ARRAY_SIZE as int];
                        assert(fits_between(v, kk, oc));
                        assert forall|k1: int, a: int| #![trigger w2[k1][a]]
                            0 <= k1 < kk + 1 && 0 <= a < w2[k1].len() implies w2[k1][a].hi() <= oc.paddr by {
                            if k1 == kk {
                                assert(w2[k1][a] == c[a]);
                                assert(c[a].hi() <= c[METADATA_ARRAY_SIZE as int].paddr);
                            } else {
                                assert(w2[k1][a] == v[k1][a]);
                            }
                        }
                        assert forall|k2: int, j: int| #![trigger w2[k2][j]]
                            kk < k2 < w2.len() && 0 <= j < w2[k2].len() implies oc.hi() <= w2[k2][j].paddr by {
                            assert(w2[k2][j] == v[k2][j]);
                        }
                    }
                }
            } else if m.sz() < new_size {
                let diff = (new_size - m.sz()) as u64;
                if next < n && !(s[next].spec_is_taken() || !s[next].spec_contiguous_to(m)) && s[next].sz() >= diff {
                    assert(fits_between(v, kk, s[next]));
                    assert forall|a: int| #![trigger t[a]] 0 <= a < t.len() implies fits_between(v, kk, t[a]) by {
                        if s[next].sz() > diff {
                            if a != i && a != next {
                                assert(t[a] == s[a]);
                                assert(fits_between(v, kk, s[a]));
                            }
                        } else {
                            if a < next && a != i {
                                assert(t[a] == s[a]);
                                assert(fits_between(v, kk, s[a]));
                            } else if a > i {
                                assert(t[a] == s[a + 1]);
                                assert(fits_between(v, kk, s[a + 1]));
                            }
                        }
                    }
                }
            }
        }
    }
    if t == s {
        assert forall|a: int| #![trigger t[a]] 0 <= a < t.len() implies fits_between(v, kk, t[a]) by {
            assert(fits_between(v, kk, s[a]));
        }
    }
    lemma_replace_page_sorted(v, kk, t);
}


/// No two neighbouring entries could be merged: free space strictly
/// contiguous to free space is held by a single entry
pub open spec fn normalized(s: Seq<Metadata>) -> bool {
    forall|i: int| #![trigger s[i]] 0 <= i && i + 1 < s.len() ==> !mergeable(s[i], s[i + 1])
}

/// In well ordered entries, the only entry containing an address within an
/// entry is that entry
proof fn lemma_only_container(s: Seq<Metadata>, i: int, p: u64)
    requires
        entries_ok(s),
        0 <= i < s.len(),
        s[i].spec_contains(p),
    ensures
        is_first_containing(s, p, i),
        has_containing(s, p),
        first_containing(s, p) == i,
{
    assert forall|k: int| #![trigger s[k]] 0 <= k < i implies !s[k].spec_contains(p) by {
        assert(s[k].hi() <= s[i].paddr);
    }
    lemma_first_containing_unique(s, p, i);
}

/// Taking space from a free entry of a page whose free space is merged, then
/// dropping it, gives back the page as it was, provided the page has room
/// for the pieces the entry is split into
pub proof fn lemma_take_then_drop(s: Seq<Metadata>, i: int, paddr: u64, size: u64)
    requires
        entries_ok(s),
        normalized(s),
        s.len() + 2 < METADATA_ARRAY_SIZE,
        0 <= i < s.len(),
        s[i].spec_is_free(),
        s[i].paddr <= paddr,
        paddr + size <= s[i].hi(),
        size > 0,
    ensures
        page_take(s, paddr, size).0 == Ok::<Seq<Metadata>, TracingPageError>(Seq::empty()),
        page_drop(page_take(s, paddr, size).1, paddr) == (Ok::<u64, TracingPageError>(size), s),
        entries_ok(page_take(s, paddr, size).1),
{
    let m = s[i];
    if m.sz() == size {
        lemma_take_drop_whole(s, i, paddr, size);
    } else if m.paddr == paddr {
        lemma_take_drop_lower(s, i, paddr, size);
    } else if m.hi() == paddr + size {
        lemma_take_drop_higher(s, i, paddr, size);
    } else {
        lemma_take_drop_middle(s, i, paddr, size);
    }
}

proof fn lemma_take_drop_whole(s: Seq<Metadata>, i: int, paddr: u64, size: u64)
    requires
        entries_ok(s),
        normalized(s),
        s.len() + 2 < METADATA_ARRAY_SIZE,
        0 <= i < s.len(),
        s[i].spec_is_free(),
        s[i].paddr <= paddr,
        paddr + size <= s[i].hi(),
        size > 0,
        s[i].sz() == size,
    ensures
        page_take(s, paddr, size).0 == Ok::<Seq<Metadata>, TracingPageError>(Seq::empty()),
        page_drop(page_take(s, paddr, size).1, paddr) == (Ok::<u64, TracingPageError>(size), s),
        entries_ok(page_take(s, paddr, size).1),
{
    let m = s[i];
    lemma_only_container(s, i, paddr);
    let t = page_take(s, paddr, size).1;
    reveal_with_fuel(sizes_between, 2);
    assert(t == s.update(i, m.spec_taken()));
    assert(entries_ok(t)) by {
        lemma_entries_ok_replace_with(s, i, seq![m.spec_taken()]);
        assert(replace_with(s, i, seq![m.spec_taken()]) =~= t);
    }
    lemma_only_container(t, i, paddr);
    assert(!merges_with_prev(t, i)) by {
        if i > 0 { assert(!mergeable(s[i - 1], s[i])); }
    }
    assert(!merges_with_next(t, i)) by {
        if i + 1 < s.len() { assert(!mergeable(s[i], s[i + 1])); }
    }
    assert(free_merge_combined(t, i) =~= s);
}

proof fn lemma_take_drop_lower(s: Seq<Metadata>, i: int, paddr: u64, size: u64)
    requires
        entries_ok(s),
        normalized(s),
        s.len() + 2 < METADATA_ARRAY_SIZE,
        0 <= i < s.len(),
        s[i].spec_is_free(),
        s[i].paddr <= paddr,
        paddr + size <= s[i].hi(),
        size > 0,
        s[i].sz() != size,
        s[i].paddr == paddr,
    ensures
        page_take(s, paddr, size).0 == Ok::<Seq<Metadata>, TracingPageError>(Seq::empty()),
        page_drop(page_take(s, paddr, size).1, paddr) == (Ok::<u64, TracingPageError>(size), s),
        entries_ok(page_take(s, paddr, size).1),
{
    let m = s[i];
    lemma_only_container(s, i, paddr);
    let t = page_take(s, paddr, size).1;
    reveal_with_fuel(sizes_between, 3);
    let pieces = take_pieces_lower(m, size);
    assert(entries_ok(pieces));
    lemma_entries_ok_replace_with(s, i, pieces);
    assert(t == replace_with(s, i, pieces));
    lemma_only_container(t, i, paddr);
    assert(!merges_with_prev(t, i)) by {
        if i > 0 { assert(!mergeable(s[i - 1], s[i])); assert(t[i - 1] == s[i - 1]); }
    }
    assert(merges_with_next(t, i));
    assert(free_merge_combined(t, i) =~= s);
}

proof fn lemma_take_drop_higher(s: Seq<Metadata>, i: int, paddr: u64, size: u64)
    requires
        entries_ok(s),
        normalized(s),
        s.len() + 2 < METADATA_ARRAY_SIZE,
        0 <= i < s.len(),
        s[i].spec_is_free(),
        s[i].paddr <= paddr,
        paddr + size <= s[i].hi(),
        size > 0,
        s[i].sz() != size,
        s[i].paddr != paddr,
        s[i].hi() == paddr + size,
    ensures
        page_take(s, paddr, size).0 == Ok::<Seq<Metadata>, TracingPageError>(Seq::empty()),
        page_drop(page_take(s, paddr, size).1, paddr) == (Ok::<u64, TracingPageError>(size), s),
        entries_ok(page_take(s, paddr, size).1),
{
    let m = s[i];
    lemma_only_container(s, i, paddr);
    let t = page_take(s, paddr, size).1;
    reveal_with_fuel(sizes_between, 3);
    let pieces = take_pieces_higher(m, size);
    assert(entries_ok(pieces));
    lemma_entries_ok_replace_with(s, i, pieces);
    assert(t == replace_with(s, i, pieces));
    lemma_only_container(t, i + 1, paddr);
    assert(merges_with_prev(t, i + 1));
    assert(!merges_with_next(t, i + 1)) by {
        if i + 1 < s.len() { assert(!mergeable(s[i], s[i + 1])); assert(t[i + 2] == s[i + 1]); }
    }
    assert(free_merge_combined(t, i + 1) =~= s);
}

proof fn lemma_take_drop_middle(s: Seq<Metadata>, i: int, paddr: u64, size: u64)
    requires
        entries_ok(s),
        normalized(s),
        s.len() + 2 < METADATA_ARRAY_SIZE,
        0 <= i < s.len(),
        s[i].spec_is_free(),
        s[i].paddr <= paddr,
        paddr + size <= s[i].hi(),
        size > 0,
        s[i].sz() != size,
        s[i].paddr != paddr,
        s[i].hi() != paddr + size,
    ensures
        page_take(s, paddr, size).0 == Ok::<Seq<Metadata>, TracingPageError>(Seq::empty()),
        page_drop(page_take(s, paddr, size).1, paddr) == (Ok::<u64, TracingPageError>(size), s),
        entries_ok(page_take(s, paddr, size).1),
{
    let m = s[i];
    lemma_only_container(s, i, paddr);
    let t = page_take(s, paddr, size).1;
    reveal_with_fuel(sizes_between, 4);
    let pieces = take_pieces_middle(m, paddr, size);
    assert(entries_ok(pieces));
    lemma_entries_ok_replace_with(s, i, pieces);
    assert(t == replace_with(s, i, pieces));
    lemma_only_container(t, i + 1, paddr);
    assert(merges_with_prev(t, i + 1));
    assert(merges_with_next(t, i + 1));
    assert(free_merge_combined(t, i + 1) =~= s);
}


/// Well ordered entries with an entry containing `p` hold `p`
proof fn lemma_holds_containing(s: Seq<Metadata>, j: int, p: u64)
    requires
        entries_ok(s),
        0 <= j < s.len(),
        s[j].spec_contains(p),
    ensures
        holds_strict(s, p),
{
    assert(s[0].paddr <= s[j].paddr) by {
        if j > 0 { assert(s[0].hi() <= s[j].paddr); }
    }
    let l = s.len() - 1;
    assert(s[j].hi() <= s[l].hi()) by {
        if j < l { assert(s[j].hi() <= s[l].paddr); }
    }
}

/// Merging pages of which every one but the last is full leaves them as they are
proof fn lemma_merge_full_pages(v: Seq<Seq<Metadata>>, j: int)
    requires
        0 <= j <= v.len(),
        forall|k: int| #![trigger v[k]] 0 <= k < v.len() - 1 ==> v[k].len() >= METADATA_ARRAY_SIZE,
    ensures
        merge_upto(v, j) == v,
    decreases j,
{
    if j > 1 {
        lemma_merge_full_pages(v, j - 1);
        assert(v[j - 2].len() >= METADATA_ARRAY_SIZE);
        assert(move_front(v[j - 2], v[j - 1]) == (v[j - 2], v[j - 1]));
        assert(v.update(j - 2, v[j - 2]).update(j - 1, v[j - 1]) =~= v);
    }
}

/// Taking free space traced by the last tracing page, then dropping it, gives
/// back the tracing pages as they were, provided every page before the last
/// is full, and the free space of the last page is merged and the page has
/// room for the pieces the free entry is split into
pub proof fn lemma_take_then_drop_space(tp: TracingPages, i: int, paddr: u64, size: u64)
    requires
        tp.wf(),
        tp.view().len() > 0,
        forall|k: int| #![trigger tp.view()[k]] 0 <= k < tp.view().len() - 1 ==> tp.view()[k].len() == METADATA_ARRAY_SIZE,
        normalized(tp.view().last()),
        tp.view().last().len() + 2 < METADATA_ARRAY_SIZE,
        0 <= i < tp.view().last().len(),
        tp.view().last()[i].spec_is_free(),
        tp.view().last()[i].paddr <= paddr,
        paddr + size <= tp.view().last()[i].hi(),
        size > 0,
    ensures
        take_outcome(tp.view(), paddr, size).0 == Ok::<(), PagingError>(()),
        take_outcome(tp.view(), paddr, size).1.len() == tp.view().len(),
        drop_outcome(take_outcome(tp.view(), paddr, size).1, paddr) == (Ok::<(), PagingError>(()), tp.view()),
{
    let v = tp.view();
    let k = v.len() - 1;
    let s = v[k];
    assert(tp.pages@[k].wf());
    assert(entries_ok(s));
    lemma_take_then_drop(s, i, paddr, size);
    let t = page_take(s, paddr, size).1;
    assert forall|k2: int| #![trigger v[k2]] 0 <= k2 < k implies !holds_strict(v[k2], paddr) by {
        let l = v[k2].len() - 1;
        assert(v[k2][l].hi() <= v[k][i].paddr);
    }
    lemma_holds_containing(s, i, paddr);
    lemma_holding_page_unique(v, paddr, k);
    let v2 = v.update(k, t);
    assert(spill_excess(v2, k + 1, Seq::empty()) == (Ok::<(), PagingError>(()), v2));
    assert(take_outcome(v, paddr, size) == (Ok::<(), PagingError>(()), v2));
    assert(has_containing(t, paddr));
    let j = choose|j: int| #![trigger t[j]] 0 <= j < t.len() && t[j].spec_contains(paddr);
    lemma_holds_containing(t, j, paddr);
    assert forall|k2: int| #![trigger v2[k2]] 0 <= k2 < k implies !holds_strict(v2[k2], paddr) by {
        assert(v2[k2] == v[k2]);
    }
    assert(is_holding_page(v2, paddr, k));
    lemma_holding_page_unique(v2, paddr, k);
    assert(v2.update(k, s) =~= v);
    lemma_merge_full_pages(v, v.len() as int);
}

/// Freeing a taken entry and merging it with its free neighbours leaves no
/// two strictly contiguous free entries next to each other, when there were
/// none before
#[verifier::spinoff_prover]
#[verifier::rlimit(40)]
pub proof fn lemma_drop_normalized(s: Seq<Metadata>, idx: int)
    requires
        entries_ok(s),
        normalized(s),
        0 <= idx < s.len(),
        !s[idx].spec_is_free(),
    ensures
        normalized(free_merge_combined(s, idx)),
{
    let lo = merge_low(s, idx);
    let hi = merge_high(s, idx);
    let t = free_merge_combined(s, idx);
    reveal_with_fuel(sizes_between, 4);
    let merged = t[lo];
    assert(merged.paddr == s[lo].paddr && merged.laddr == s[lo].laddr);
    assert(merged.hi() == s[hi].hi() && merged.hi_l() == s[hi].hi_l());
    assert forall|a: int| #![trigger t[a]] 0 <= a && a + 1 < t.len() implies !mergeable(t[a], t[a + 1]) by {
        if a + 1 < lo {
            assert(t[a] == s[a] && t[a + 1] == s[a + 1]);
        } else if a + 1 == lo {
            assert(t[a] == s[a]);
            if lo < idx {
                assert(!mergeable(s[lo - 1], s[lo]));
            }
        } else if a == lo {
            assert(t[a + 1] == s[hi + 1]);
            if hi > idx {
                assert(!mergeable(s[hi], s[hi + 1]));
            }
        } else {
            assert(t[a] == s[a - lo + hi] && t[a + 1] == s[a + 1 - lo + hi]);
        }
    }
}

/// Taking space from a free entry leaves no two strictly contiguous free
/// entries next to each other, when there were none before
pub proof fn lemma_take_normalized(s: Seq<Metadata>, paddr: u64, size: u64)
    requires
        entries_ok(s),
        normalized(s),
        s.len() <= METADATA_ARRAY_SIZE,
        !take_unsupported(s, paddr, size),
    ensures
        normalized(page_take(s, paddr, size).1),
        page_take(s, paddr, size).0 matches Ok(e) ==> normalized(e),
{
    let t = page_take(s, paddr, size).1;
    if has_containing(s, paddr) {
        lemma_first_containing_exists(s, paddr, choose|j: int| #![trigger s[j]] 0 <= j < s.len() && s[j].spec_contains(paddr));
        let i = first_containing(s, paddr);
        let m = s[i];
        if m.spec_is_free() && m.sz() >= size {
            let pieces = if m.sz() == size {
                seq![m.spec_taken()]
            } else if m.paddr == paddr {
                take_pieces_lower(m, size)
            } else if m.hi() == paddr + size {
                take_pieces_higher(m, size)
            } else {
                take_pieces_middle(m, paddr, size)
            };
            let c = replace_with(s, i, pieces);
            assert(pieces[0].paddr == m.paddr && pieces[0].laddr == m.laddr);
            assert(pieces.last().hi() == m.hi() && pieces.last().hi_l() == m.hi_l());
            assert forall|a: int| #![trigger c[a]] 0 <= a && a + 1 < c.len() implies !mergeable(c[a], c[a + 1]) by {
                let np = pieces.len() as int;
                if a + 1 < i {
                    assert(c[a] == s[a] && c[a + 1] == s[a + 1]);
                } else if a + 1 == i {
                    assert(c[a] == s[a] && c[a + 1] == pieces[0]);
                    assert(!mergeable(s[a], s[i]));
                } else if a + 1 < i + np {
                    assert(c[a] == pieces[a - i] && c[a + 1] == pieces[a + 1 - i]);
                } else if a + 1 == i + np {
                    assert(c[a] == pieces[np - 1] && c[a + 1] == s[i + 1]);
                    assert(!mergeable(s[i], s[i + 1]));
                } else {
                    assert(c[a] == s[a - np + 1] && c[a + 1] == s[a + 2 - np]);
                }
            }
            assert(normalized(c));
            if m.sz() == size {
                assert(t =~= c);
            } else if m.paddr == paddr || m.hi() == paddr + size {
                assert(t == fit(c));
                lemma_normalized_cut(c, 0);
            } else {
                let k = middle_split(s.len() as int, i);
                assert(t == keep_upto(c, k));
                lemma_normalized_cut(c, k);
            }
        }
    }
}

/// Replacing an entry by one that merges with neither neighbour keeps the
/// free space merged
proof fn lemma_normalized_update(s: Seq<Metadata>, j: int, g: Metadata)
    requires
        normalized(s),
        0 <= j < s.len(),
        j > 0 ==> !mergeable(s[j - 1], g),
        j + 1 < s.len() ==> !mergeable(g, s[j + 1]),
    ensures
        normalized(s.update(j, g)),
{
    let t = s.update(j, g);
    assert forall|a: int| #![trigger t[a]] 0 <= a && a + 1 < t.len() implies !mergeable(t[a], t[a + 1]) by {
        if a != j && a + 1 != j {
            assert(t[a] == s[a] && t[a + 1] == s[a + 1]);
        }
    }
}

/// Removing entries `i0` up to `k` (excluded) entirely, then `rem` Bytes from
/// the beginning of the entry at `k`, keeps the free space merged
pub proof fn lemma_remove_chain_normalized(s: Seq<Metadata>, i0: int, k: int, rem: int)
    requires
        entries_ok(s),
        normalized(s),
        0 <= i0 <= k,
        rem > 0,
    ensures
        normalized(remove_chain(s, i0, k, rem).1),
    decreases s.len() - k,
{
    if 0 <= k < s.len() {
        let m = s[k];
        if m.sz() == 0 {
        } else if m.sz() == rem {
            let t = s.take(i0) + s.skip(k + 1);
            assert forall|a: int| #![trigger t[a]] 0 <= a && a + 1 < t.len() implies !mergeable(t[a], t[a + 1]) by {
                if a + 1 < i0 {
                    assert(t[a] == s[a] && t[a + 1] == s[a + 1]);
                } else if a + 1 == i0 {
                    assert(t[a] == s[a] && t[a + 1] == s[k + 1]);
                    assert(s[a].hi() <= s[k].paddr);
                    assert(s[k].hi() <= s[k + 1].paddr);
                } else {
                    assert(t[a] == s[a - i0 + k + 1] && t[a + 1] == s[a + 1 - i0 + k + 1]);
                }
            }
        } else if m.sz() > rem {
            if m.spec_is_free() {
                let g = m.spec_shrunk(rem as u64, Side::Left);
                let t = s.take(i0) + seq![g] + s.skip(k + 1);
                assert(g.hi() == m.hi() && g.hi_l() == m.hi_l());
                assert forall|a: int| #![trigger t[a]] 0 <= a && a + 1 < t.len() implies !mergeable(t[a], t[a + 1]) by {
                    if a + 1 < i0 {
                        assert(t[a] == s[a] && t[a + 1] == s[a + 1]);
                    } else if a + 1 == i0 {
                        assert(t[a] == s[a] && t[a + 1] == g);
                        assert(s[a].hi() <= s[k].paddr);
                    } else if a == i0 {
                        assert(t[a] == g && t[a + 1] == s[k + 1]);
                        assert(!mergeable(s[k], s[k + 1]));
                    } else {
                        assert(t[a] == s[a - i0 + k] && t[a + 1] == s[a + 1 - i0 + k]);
                    }
                }
            }
        } else if k + 1 < s.len() && !s[k + 1].spec_contiguous_to(m) {
        } else if k + 1 == s.len() {
            let t = s.take(i0);
            assert forall|a: int| #![trigger t[a]] 0 <= a && a + 1 < t.len() implies !mergeable(t[a], t[a + 1]) by {
                assert(t[a] == s[a] && t[a + 1] == s[a + 1]);
            }
        } else {
            lemma_remove_chain_normalized(s, i0, k + 1, rem - m.sz());
        }
    }
}

/// Removing space from a page keeps its free space merged
pub proof fn lemma_remove_normalized(s: Seq<Metadata>, paddr: u64, size: u64)
    requires
        entries_ok(s),
        normalized(s),
        size > 0,
        !remove_unsupported(s, paddr, size),
    ensures
        normalized(remove_outcome(s, paddr, size).1),
{
    if has_containing(s, paddr) {
        let w = choose|j: int| #![trigger s[j]] 0 <= j < s.len() && s[j].spec_contains(paddr);
        lemma_first_containing_exists(s, paddr, w);
        let i0 = first_containing(s, paddr);
        let m = s[i0];
        if m.paddr == paddr {
            lemma_remove_chain_normalized(s, i0, i0, size as int);
        } else if m.sz() > size {
            if m.spec_is_free() {
                if m.hi() == paddr + size {
                    let g = m.spec_shrunk(size, Side::Right);
                    if i0 + 1 < s.len() {
                        assert(m.hi() <= s[i0 + 1].paddr);
                    }
                    lemma_normalized_update(s, i0, g);
                } else {
                    let pieces = remove_pieces_middle(m, paddr, size);
                    let c = replace_with(s, i0, pieces);
                    let p1 = pieces[0];
                    let p2 = pieces[1];
                    assert(p2.hi() == m.hi() && p2.hi_l() == m.hi_l());
                    assert(p1.hi() == paddr);
                    assert forall|a: int| #![trigger c[a]] 0 <= a && a + 1 < c.len() implies !mergeable(c[a], c[a + 1]) by {
                        if a + 1 < i0 {
                            assert(c[a] == s[a] && c[a + 1] == s[a + 1]);
                        } else if a + 1 == i0 {
                            assert(c[a] == s[a] && c[a + 1] == p1);
                        } else if a == i0 {
                            assert(c[a] == p1 && c[a + 1] == p2);
                        } else if a == i0 + 1 {
                            assert(c[a] == p2 && c[a + 1] == s[i0 + 1]);
                            assert(!mergeable(s[i0], s[i0 + 1]));
                        } else {
                            assert(c[a] == s[a - 1] && c[a + 1] == s[a]);
                        }
                    }
                    lemma_normalized_cut(c, 0);
                }
            }
        } else if i0 + 1 < s.len() && !s[i0 + 1].spec_contiguous_to(m) {
        } else if m.spec_is_taken() {
        } else {
            let cut = (m.hi() - paddr) as u64;
            let g = m.spec_shrunk(cut, Side::Right);
            let s1 = s.update(i0, g);
            assert(g.hi() == paddr);
            if i0 + 1 < s.len() {
                assert(m.hi() <= s[i0 + 1].paddr);
            }
            lemma_normalized_update(s, i0, g);
            if i0 + 1 < s.len() {
                assert forall|a: int, b: int| #![trigger s1[a], s1[b]] 0 <= a < b < s1.len() implies s1[a].hi() <= s1[b].paddr by {
                    if a == i0 {
                        assert(s[a].hi() <= s[b].paddr);
                    } else if b == i0 {
                        assert(s[a].hi() <= s[b].paddr);
                    }
                }
                assert(entries_ok(s1));
                lemma_remove_chain_normalized(s1, i0 + 1, i0 + 1, size - cut);
            }
        }
    }
}

/// Resizing a taken entry keeps the free space merged
pub proof fn lemma_entry_resize_normalized(s: Seq<Metadata>, i: int, new_size: u64)
    requires
        entries_ok(s),
        normalized(s),
        0 <= i < s.len(),
        s[i].spec_is_taken(),
    ensures
        normalized(entry_resize(s, i, new_size).1),
{
    let n = s.len();
    let m = s[i];
    let next = i + 1;
    if m.sz() > new_size {
        let cur = m.spec_with_size(new_size);
        let higher = shrink_release(m, new_size);
        assert(!cur.spec_is_free());
        if next < n && s[next].spec_is_free() && s[next].spec_contiguous_to(m) {
            lemma_normalized_update(s, i, cur);
            let s1 = s.update(i, cur);
            let g = s[next].spec_grown(higher.sz(), Side::Left);
            assert(g.hi() == s[next].hi() && g.hi_l() == s[next].hi_l());
            if next + 1 < n {
                assert(!mergeable(s[next], s[next + 1]));
            }
            lemma_normalized_update(s1, next, g);
        } else {
            let c = replace_with(s, i, seq![cur, higher]);
            assert(higher.hi() == m.hi() && higher.hi_l() == m.hi_l());
            assert forall|a: int| #![trigger c[a]] 0 <= a && a + 1 < c.len() implies !mergeable(c[a], c[a + 1]) by {
                if a + 1 < i {
                    assert(c[a] == s[a] && c[a + 1] == s[a + 1]);
                } else if a + 1 == i {
                    assert(c[a + 1] == cur);
                } else if a == i {
                    assert(c[a] == cur);
                } else if a == i + 1 {
                    assert(c[a] == higher && c[a + 1] == s[next]);
                } else {
                    assert(c[a] == s[a - 1] && c[a + 1] == s[a]);
                }
            }
            lemma_normalized_cut(c, 0);
        }
    } else if m.sz() < new_size {
        let diff = (new_size - m.sz()) as u64;
        let cur = m.spec_grown(diff, Side::Right);
        assert(!cur.spec_is_free());
        lemma_normalized_update(s, i, cur);
        let s1 = s.update(i, cur);
        if next < n && s[next].spec_is_free() && s[next].spec_contiguous_to(m) && s[next].sz() >= diff {
            if s[next].sz() > diff {
                let g = s[next].spec_shrunk(diff, Side::Left);
                assert(g.hi() == s[next].hi() && g.hi_l() == s[next].hi_l());
                if next + 1 < n {
                    assert(!mergeable(s[next], s[next + 1]));
                }
                lemma_normalized_update(s1, next, g);
            } else {
                let t = s1.remove(next);
                assert forall|a: int| #![trigger t[a]] 0 <= a && a + 1 < t.len() implies !mergeable(t[a], t[a + 1]) by {
                    if a + 1 < next {
                        assert(t[a] == s1[a] && t[a + 1] == s1[a + 1]);
                    } else if a + 1 == next {
                        assert(t[a] == cur);
                    } else {
                        assert(t[a] == s1[a + 1] && t[a + 1] == s1[a + 2]);
                    }
                }
            }
        }
    }
}

/// Inserting an entry that merges with neither neighbour keeps the free
/// space merged
proof fn lemma_normalized_insert(s: Seq<Metadata>, p: int, md: Metadata)
    requires
        normalized(s),
        0 <= p <= s.len(),
        p > 0 ==> !mergeable(s[p - 1], md),
        p < s.len() ==> !mergeable(md, s[p]),
    ensures
        normalized(s.insert(p, md)),
{
    let t = s.insert(p, md);
    assert forall|a: int| #![trigger t[a]] 0 <= a && a + 1 < t.len() implies !mergeable(t[a], t[a + 1]) by {
        if a + 1 < p {
            assert(t[a] == s[a] && t[a + 1] == s[a + 1]);
        } else if a + 1 == p {
            assert(t[a] == s[a] && t[a + 1] == md);
        } else if a == p {
            assert(t[a] == md && t[a + 1] == s[p]);
        } else {
            assert(t[a] == s[a - 1] && t[a + 1] == s[a]);
        }
    }
}

/// Replacing two neighbours by one entry that merges with neither of the
/// entries around them keeps the free space merged
proof fn lemma_normalized_absorb(s: Seq<Metadata>, i: int, g: Metadata)
    requires
        normalized(s),
        0 <= i && i + 1 < s.len(),
        i > 0 ==> !mergeable(s[i - 1], g),
        i + 2 < s.len() ==> !mergeable(g, s[i + 2]),
    ensures
        normalized(s.update(i, g).remove(i + 1)),
{
    let t = s.update(i, g).remove(i + 1);
    assert forall|a: int| #![trigger t[a]] 0 <= a && a + 1 < t.len() implies !mergeable(t[a], t[a + 1]) by {
        if a + 1 < i {
            assert(t[a] == s[a] && t[a + 1] == s[a + 1]);
        } else if a + 1 == i {
            assert(t[a] == s[a] && t[a + 1] == g);
        } else if a == i {
            assert(t[a] == g && t[a + 1] == s[i + 2]);
        } else {
            assert(t[a] == s[a + 1] && t[a + 1] == s[a + 2]);
        }
    }
}

/// The entries kept in a page, or moved out of it, keep the free space merged
proof fn lemma_normalized_cut(c: Seq<Metadata>, k: int)
    requires
        normalized(c),
        0 <= k,
    ensures
        normalized(keep_upto(c, k)),
        normalized(move_from(c, k)),
        normalized(fit(c)),
        normalized(overflow(c)),
{
    let t = keep_upto(c, k);
    assert forall|a: int| #![trigger t[a]] 0 <= a && a + 1 < t.len() implies !mergeable(t[a], t[a + 1]) by {
        assert(t[a] == c[a] && t[a + 1] == c[a + 1]);
    }
    let u = move_from(c, k);
    assert forall|a: int| #![trigger u[a]] 0 <= a && a + 1 < u.len() implies !mergeable(u[a], u[a + 1]) by {
        assert(u[a] == c[a + k] && u[a + 1] == c[a + 1 + k]);
    }
    let f = fit(c);
    assert forall|a: int| #![trigger f[a]] 0 <= a && a + 1 < f.len() implies !mergeable(f[a], f[a + 1]) by {
        assert(f[a] == c[a] && f[a + 1] == c[a + 1]);
    }
    let o = overflow(c);
    if c.len() > METADATA_ARRAY_SIZE {
        assert forall|a: int| #![trigger o[a]] 0 <= a && a + 1 < o.len() implies !mergeable(o[a], o[a + 1]) by {
            assert(o[a] == c[a + METADATA_ARRAY_SIZE] && o[a + 1] == c[a + 1 + METADATA_ARRAY_SIZE]);
        }
    } else {
        assert(o.len() == 0);
    }
}

/// Inserting an entry where it belongs, merged with the free entries it is
/// strictly contiguous to, leaves no two strictly contiguous free entries
/// next to each other, when there were none before
pub proof fn lemma_insert_normalized(s: Seq<Metadata>, md: Metadata)
    requires
        entries_ok(s),
        normalized(s),
        !md.spec_is_none(),
        md.fits(),
        sorted(s.insert(insert_pos(s, md), md)),
    ensures
        normalized(insert_combined(s, md)),
        normalized(fit(insert_combined(s, md))),
        normalized(overflow(insert_combined(s, md))),
{
    let n = s.len() as int;
    let ins = s.insert(insert_pos(s, md), md);
    if insert_appends(s, md) {
        if n > 0 && mergeable(s.last(), md) {
            let g = s.last().spec_grown(md.sz(), Side::Right);
            if n > 1 {
                assert(!mergeable(s[n - 2], s[n - 1]));
            }
            lemma_normalized_update(s, n - 1, g);
        } else {
            lemma_normalized_insert(s, n, md);
            assert(s.push(md) =~= s.insert(n, md));
        }
    } else if insert_pushes(s, md) {
        if mergeable(md, s[0]) {
            let g = s[0].spec_grown(md.sz(), Side::Left);
            if n > 1 {
                assert(!mergeable(s[0], s[1]));
            }
            lemma_normalized_update(s, 0, g);
        } else {
            lemma_normalized_insert(s, 0, md);
            assert(seq![md] + s =~= s.insert(0, md));
        }
    } else {
        lemma_first_hi_ge_exists(s, md.paddr, n - 1);
        let i = first_hi_ge(s, md.paddr);
        if i > 0 {
            assert(s[i - 1].hi() < md.paddr);
        }
        if mergeable(s[i], md) {
            if i + 1 < n && mergeable(md, s[i + 1]) {
                let g = s[i].spec_grown((md.sz() + s[i + 1].sz()) as u64, Side::Right);
                if i > 0 {
                    assert(!mergeable(s[i - 1], s[i]));
                }
                if i + 2 < n {
                    assert(!mergeable(s[i + 1], s[i + 2]));
                }
                lemma_normalized_absorb(s, i, g);
            } else {
                let g = s[i].spec_grown(md.sz(), Side::Right);
                if i > 0 {
                    assert(!mergeable(s[i - 1], s[i]));
                }
                lemma_normalized_update(s, i, g);
            }
        } else if mergeable(md, s[i]) {
            let g = s[i].spec_grown(md.sz(), Side::Left);
            if i + 1 < n {
                assert(!mergeable(s[i], s[i + 1]));
            }
            lemma_normalized_update(s, i, g);
        } else if merges_after_first(s, md) {
            let g = s[i + 1].spec_grown(md.sz(), Side::Left);
            if i + 2 < n {
                assert(!mergeable(s[i + 1], s[i + 2]));
            }
            lemma_normalized_update(s, i + 1, g);
        } else {
            let p = insert_between_pos(s, md);
            lemma_normalized_insert(s, p, md);
        }
    }
    lemma_normalized_cut(insert_combined(s, md), 0);
}

/// In every page, no two strictly contiguous free entries are next to each other
pub open spec fn pages_normalized(v: Seq<Seq<Metadata>>) -> bool {
    forall|k: int| 0 <= k < v.len() ==> normalized(#[trigger] v[k])
}

/// Replacing a page with entries whose free space is merged keeps the free
/// space of every page merged
proof fn lemma_replace_page_normalized(w: Seq<Seq<Metadata>>, k: int, t: Seq<Metadata>)
    requires
        pages_normalized(w),
        0 <= k < w.len(),
        normalized(t),
    ensures
        pages_normalized(w.update(k, t)),
{
    let u = w.update(k, t);
    assert forall|j: int| 0 <= j < u.len() implies normalized(#[trigger] u[j]) by {
        if j != k {
            assert(u[j] == w[j]);
        }
    }
}

/// Appending an entry to a page whose free space is merged, and keeping
/// what fits, keeps its free space merged
pub proof fn lemma_append_fit_normalized(s: Seq<Metadata>, md: Metadata)
    requires
        normalized(s),
    ensures
        normalized(fit(append_combined(s, md))),
{
    lemma_append_normalized(s, md);
    lemma_normalized_cut(append_combined(s, md), 0);
}

/// Pushing up to two merged entries in front of a page whose free space is
/// merged keeps the free space merged, both in what fits and in what overflows
pub proof fn lemma_push_excess_fit_normalized(s: Seq<Metadata>, e: Seq<Metadata>)
    requires
        entries_ok(s),
        normalized(s),
        normalized(e),
        e.len() <= 2,
    ensures
        normalized(fit(push_excess_combined(s, e))),
        normalized(overflow(push_excess_combined(s, e))),
{
    lemma_push_excess_normalized(s, e);
    lemma_normalized_cut(push_excess_combined(s, e), 0);
}

/// Pushing an entry in front of a page whose free space is merged, and
/// keeping what fits, keeps its free space merged
pub proof fn lemma_push_fit_normalized(s: Seq<Metadata>, c: Metadata)
    requires
        entries_ok(s),
        normalized(s),
    ensures
        normalized(fit(push_combined(s, c))),
{
    let e = seq![c];
    assert(normalized(e));
    lemma_push_excess_normalized(s, e);
    assert(push_excess_combined(s, e) == push_combined(s, c));
    lemma_normalized_cut(push_combined(s, c), 0);
}

/// Appending an entry, merged with the last one when they are strictly
/// contiguous free entries, keeps the free space merged
proof fn lemma_append_normalized(s: Seq<Metadata>, md: Metadata)
    requires
        normalized(s),
    ensures
        normalized(append_combined(s, md)),
{
    let n = s.len() as int;
    if n > 0 && mergeable(s.last(), md) {
        let g = s.last().spec_grown(md.sz(), Side::Right);
        if n > 1 {
            assert(!mergeable(s[n - 2], s[n - 1]));
        }
        lemma_normalized_update(s, n - 1, g);
    } else {
        lemma_normalized_insert(s, n, md);
        assert(s.push(md) =~= s.insert(n, md));
    }
}

/// Moving entries from the front of a page to the back of the previous one
/// keeps the free space of both merged
proof fn lemma_move_front_normalized(prev: Seq<Metadata>, curr: Seq<Metadata>)
    requires
        normalized(prev),
        normalized(curr),
    ensures
        normalized(move_front(prev, curr).0),
        normalized(move_front(prev, curr).1),
    decreases curr.len(),
{
    if !(prev.len() >= METADATA_ARRAY_SIZE || curr.len() == 0) {
        lemma_append_normalized(prev, curr[0]);
        let rest = curr.drop_first();
        assert forall|a: int| #![trigger rest[a]] 0 <= a && a + 1 < rest.len() implies !mergeable(rest[a], rest[a + 1]) by {
            assert(rest[a] == curr[a + 1] && rest[a + 1] == curr[a + 2]);
        }
        lemma_move_front_normalized(append_combined(prev, curr[0]), rest);
    }
}

/// Merging the pages keeps the free space of every page merged
proof fn lemma_merge_upto_normalized(v: Seq<Seq<Metadata>>, k: int)
    requires
        pages_normalized(v),
    ensures
        pages_normalized(merge_upto(v, k)),
    decreases k,
{
    if !(k <= 1 || k > v.len()) {
        lemma_merge_upto_normalized(v, k - 1);
        let w = merge_upto(v, k - 1);
        lemma_merge_keeps_pages(v, k - 1);
        assert(normalized(w[k - 2]) && normalized(w[k - 1]));
        lemma_move_front_normalized(w[k - 2], w[k - 1]);
        let (a, b) = move_front(w[k - 2], w[k - 1]);
        let w2 = w.update(k - 2, a).update(k - 1, b);
        assert forall|j: int| 0 <= j < w2.len() implies normalized(#[trigger] w2[j]) by {
            if j != k - 2 && j != k - 1 {
                assert(w2[j] == w[j]);
            }
        }
    }
}

/// Dropping an allocation keeps the free space of every page merged
pub proof fn lemma_drop_outcome_normalized(v: Seq<Seq<Metadata>>, paddr: u64)
    requires
        all_entries_ok(v),
        pages_normalized(v),
    ensures
        pages_normalized(drop_outcome(v, paddr).1),
{
    if has_holding_page(v, paddr) {
        let k = holding_page(v, paddr);
        assert(is_holding_page(v, paddr, k));
        let s = v[k];
        assert(entries_ok(s) && normalized(s));
        let (res, t) = page_drop(s, paddr);
        if res is Ok {
            let i = first_containing(s, paddr);
            lemma_first_containing_exists(s, paddr, choose|j: int| #![trigger s[j]] 0 <= j < s.len() && s[j].spec_contains(paddr));
            lemma_drop_normalized(s, i);
            let v1 = v.update(k, t);
            assert forall|j: int| 0 <= j < v1.len() implies normalized(#[trigger] v1[j]) by {
                if j != k {
                    assert(v1[j] == v[j]);
                }
            }
            lemma_merge_upto_normalized(v1, v1.len() as int);
        }
    }
}

/// Pushing entries carried over from the previous page in front of a page
/// keeps the free space of the page merged
proof fn lemma_push_excess_normalized(s: Seq<Metadata>, e: Seq<Metadata>)
    requires
        entries_ok(s),
        normalized(s),
        normalized(e),
        e.len() <= 2,
    ensures
        normalized(push_excess_combined(s, e)),
{
    if e.len() == 1 {
        let md = e[0];
        if s.len() == 0 {
        } else if mergeable(md, s[0]) {
            let g = s[0].spec_grown(md.sz(), Side::Left);
            assert(s[0].fits());
            assert(g.hi() == s[0].hi() && g.hi_l() == s[0].hi_l());
            if s.len() > 1 {
                assert(!mergeable(s[0], s[1]));
            }
            lemma_normalized_update(s, 0, g);
        } else {
            lemma_normalized_insert(s, 0, md);
            assert(seq![md] + s =~= s.insert(0, md));
        }
    } else if e.len() == 2 && s.len() > 0 {
        assert(!mergeable(e[0], e[1]));
        if mergeable(e[1], s[0]) {
            let g = s[0].spec_grown(e[1].sz(), Side::Left);
            assert(s[0].fits());
            assert(g.hi() == s[0].hi() && g.hi_l() == s[0].hi_l());
            assert(g.paddr == e[1].paddr && g.laddr == e[1].laddr);
            if s.len() > 1 {
                assert(!mergeable(s[0], s[1]));
            }
            lemma_normalized_update(s, 0, g);
            let s1 = s.update(0, g);
            lemma_normalized_insert(s1, 0, e[0]);
            assert(seq![e[0]] + s1 =~= s1.insert(0, e[0]));
        } else {
            let t = e + s;
            assert forall|a: int| #![trigger t[a]] 0 <= a && a + 1 < t.len() implies !mergeable(t[a], t[a + 1]) by {
                if a + 1 < 2 {
                    assert(t[a] == e[a] && t[a + 1] == e[a + 1]);
                } else if a + 1 == 2 {
                    assert(t[a] == e[1] && t[a + 1] == s[0]);
                } else {
                    assert(t[a] == s[a - 2] && t[a + 1] == s[a - 1]);
                }
            }
        }
    }
}

/// Carrying entries over to the following pages keeps the free space of
/// every page merged
proof fn lemma_spill_excess_normalized(v: Seq<Seq<Metadata>>, k: int, carry: Seq<Metadata>)
    requires
        pages_normalized(v),
        normalized(carry),
        carry.len() <= 2,
        forall|j: int| #![trigger v[j]] k <= j < v.len() ==> entries_ok(v[j]) && v[j].len() <= METADATA_ARRAY_SIZE,
    ensures
        pages_normalized(spill_excess(v, k, carry).1),
    decreases v.len() - k,
{
    if carry.len() == 0 {
    } else if k < 0 || k >= v.len() {
        let w = v.push(carry);
        assert forall|j: int| 0 <= j < w.len() implies normalized(#[trigger] w[j]) by {
            if j < v.len() {
                assert(w[j] == v[j]);
            }
        }
    } else if !can_push_all(v[k], carry) {
    } else if carry.len() == 2 && v[k].len() + 1 == METADATA_ARRAY_SIZE && !mergeable(carry[1], v[k][0]) {
    } else {
        let c = push_excess_combined(v[k], carry);
        assert(normalized(v[k]) && entries_ok(v[k]) && v[k].len() <= METADATA_ARRAY_SIZE);
        lemma_push_excess_normalized(v[k], carry);
        lemma_normalized_cut(c, 0);
        let w = v.update(k, fit(c));
        assert forall|j: int| 0 <= j < w.len() implies normalized(#[trigger] w[j]) by {
            if j != k {
                assert(w[j] == v[j]);
            }
        }
        assert(c.len() <= v[k].len() + carry.len());
        assert(overflow(c).len() <= 2);
        assert forall|j: int| #![trigger w[j]] k + 1 <= j < w.len() implies entries_ok(w[j]) && w[j].len() <= METADATA_ARRAY_SIZE by {
            assert(w[j] == v[j]);
        }
        lemma_spill_excess_normalized(w, k + 1, overflow(c));
    }
}

/// Taking space keeps the free space of every page merged
pub proof fn lemma_take_outcome_normalized(v: Seq<Seq<Metadata>>, paddr: u64, size: u64)
    requires
        all_entries_ok(v),
        forall|k: int| #![trigger v[k]] 0 <= k < v.len() ==> v[k].len() <= METADATA_ARRAY_SIZE,
        pages_normalized(v),
        !take_refused(v, paddr, size),
    ensures
        pages_normalized(take_outcome(v, paddr, size).1),
{
    if has_holding_page(v, paddr) {
        let k = holding_page(v, paddr);
        assert(is_holding_page(v, paddr, k));
        let s = v[k];
        assert(entries_ok(s) && normalized(s) && s.len() <= METADATA_ARRAY_SIZE);
        lemma_take_normalized(s, paddr, size);
        let (res, t) = page_take(s, paddr, size);
        let v1 = v.update(k, t);
        assert forall|j: int| 0 <= j < v1.len() implies normalized(#[trigger] v1[j]) by {
            if j != k {
                assert(v1[j] == v[j]);
            }
        }
        if let Ok(e) = res {
            if has_containing(s, paddr) {
                lemma_first_containing_exists(s, paddr, choose|j: int| #![trigger s[j]] 0 <= j < s.len() && s[j].spec_contains(paddr));
            }
            lemma_take_pieces_ok(s, paddr, size);
            assert forall|j: int| #![trigger v1[j]] k + 1 <= j < v1.len() implies entries_ok(v1[j]) && v1[j].len() <= METADATA_ARRAY_SIZE by {
                assert(v1[j] == v[j]);
            }
            lemma_spill_excess_normalized(v1, k + 1, e);
        }
    }
}

/// A cleanup only drops pages at the end, and every page it keeps but the
/// last one holds at least [`SIZE_THRESHOLD`] entries: at most one page
/// holding few entries is left
pub proof fn lemma_cleanup_keeps_full_pages(v: Seq<Seq<Metadata>>)
    ensures
        kept_pages(v) == v.take(kept_pages(v).len() as int),
        kept_pages(v).len() <= v.len(),
        forall|k: int| #![trigger kept_pages(v)[k]] 0 <= k < kept_pages(v).len() - 1 ==> kept_pages(v)[k].len() >= SIZE_THRESHOLD,
{
    if exists|k: int| is_first_small(v, k) {
        let c = choose|k: int| is_first_small(v, k);
        assert(is_first_small(v, c));
        assert(kept_pages(v) =~= v.take(c + 1));
        assert forall|k: int| #![trigger kept_pages(v)[k]] 0 <= k < kept_pages(v).len() - 1 implies kept_pages(v)[k].len() >= SIZE_THRESHOLD by {
            assert(kept_pages(v)[k] == v[k]);
        }
    } else {
        assert(kept_pages(v) =~= v.take(v.len() as int));
        assert forall|k: int| #![trigger kept_pages(v)[k]] 0 <= k < kept_pages(v).len() - 1 implies kept_pages(v)[k].len() >= SIZE_THRESHOLD by {
            if v[k].len() < SIZE_THRESHOLD {
                lemma_first_small_exists(v, k);
            }
        }
    }
}

/// A page holding fewer than [`SIZE_THRESHOLD`] entries gives a first one
proof fn lemma_first_small_exists(v: Seq<Seq<Metadata>>, k: int)
    requires
        0 <= k < v.len(),
        v[k].len() < SIZE_THRESHOLD,
    ensures
        exists|c: int| is_first_small(v, c),
    decreases k,
{
    if forall|k2: int| #![trigger v[k2]] 0 <= k2 < k ==> v[k2].len() >= SIZE_THRESHOLD {
        assert(is_first_small(v, k));
    } else {
        let k2 = choose|k2: int| #![trigger v[k2]] 0 <= k2 < k && !(v[k2].len() >= SIZE_THRESHOLD);
        lemma_first_small_exists(v, k2);
    }
}

/// Merging moves entries between the pages and keeps the number of pages
pub proof fn lemma_merge_keeps_pages(v: Seq<Seq<Metadata>>, k: int)
    ensures
        merge_upto(v, k).len() == v.len(),
    decreases k,
{
    if k > 1 && k <= v.len() {
        lemma_merge_keeps_pages(v, k - 1);
    }
}


/// The entries `e`, carried over to the `k`-th page, may all be pushed in
/// front of it without breaking the order of the pages
pub open spec fn carries_fit(w: Seq<Seq<Metadata>>, k: int, e: Seq<Metadata>) -> bool {
    forall|j: int| #![trigger e[j]] 0 <= j < e.len() ==> carry_fits(w, k, e[j])
}

/// Splitting sorted entries that fit in the place of the `k`-th page, the
/// first `m` of them staying in the page, keeps the pages sorted, and the
/// entries moving out may be carried to the next page
pub proof fn lemma_split_carry(w: Seq<Seq<Metadata>>, k: int, c: Seq<Metadata>, m: int)
    requires
        pages_sorted(w),
        0 <= k < w.len(),
        entries_ok(c),
        0 <= m,
        forall|i: int| #![trigger c[i]] 0 <= i < c.len() ==> fits_between(w, k, c[i]),
    ensures
        pages_sorted(w.update(k, keep_upto(c, m))),
        carries_fit(w.update(k, keep_upto(c, m)), k + 1, move_from(c, m)),
{
    let t = keep_upto(c, m);
    assert forall|i: int| #![trigger t[i]] 0 <= i < t.len() implies fits_between(w, k, t[i]) by {
        assert(t[i] == c[i]);
    }
    lemma_replace_page_sorted(w, k, t);
    let w2 = w.update(k, t);
    let o = move_from(c, m);
    assert forall|j: int| #![trigger o[j]] 0 <= j < o.len() implies carry_fits(w2, k + 1, o[j]) by {
        let x = o[j];
        assert(x == c[m + j]);
        assert(fits_between(w, k, c[m + j]));
        assert forall|k1: int, i: int| #![trigger w2[k1][i]]
            0 <= k1 < k + 1 && 0 <= i < w2[k1].len() implies w2[k1][i].hi() <= x.paddr by {
            if k1 == k {
                assert(w2[k1][i] == c[i]);
                assert(c[i].hi() <= c[m + j].paddr);
            } else {
                assert(w2[k1][i] == w[k1][i]);
            }
        }
        assert forall|k2: int, i: int| #![trigger w2[k2][i]]
            k < k2 < w2.len() && 0 <= i < w2[k2].len() implies x.hi() <= w2[k2][i].paddr by {
            assert(w2[k2][i] == w[k2][i]);
        }
    }
}

/// Appending a page holding sorted entries that come after all the others
/// keeps the pages sorted
pub proof fn lemma_new_pages_sorted(w: Seq<Seq<Metadata>>, e: Seq<Metadata>)
    requires
        pages_sorted(w),
        carries_fit(w, w.len() as int, e),
    ensures
        pages_sorted(w.push(e)),
{
    let w2 = w.push(e);
    assert forall|k1: int, k2: int, i: int, j: int|
        #![trigger w2[k1][i], w2[k2][j]]
        0 <= k1 < k2 < w2.len() && 0 <= i < w2[k1].len() && 0 <= j < w2[k2].len()
            implies w2[k1][i].hi() <= w2[k2][j].paddr by {
        assert(w2[k1][i] == w[k1][i]);
        if k2 == w.len() {
            assert(w2[k2][j] == e[j]);
            assert(carry_fits(w, w.len() as int, e[j]));
        } else {
            assert(w2[k2][j] == w[k2][j]);
        }
    }
}

/// Taking space from the `k`-th page leaves entries that fit in its place,
/// and the entries moving to the next page may be carried there
pub proof fn lemma_take_fits(v: Seq<Seq<Metadata>>, kk: int, paddr: u64, size: u64)
    requires
        pages_sorted(v),
        0 <= kk < v.len(),
        entries_ok(v[kk]),
        v[kk].len() <= METADATA_ARRAY_SIZE,
        !take_unsupported(v[kk], paddr, size),
    ensures
        pages_sorted(v.update(kk, page_take(v[kk], paddr, size).1)),
        page_take(v[kk], paddr, size).0 matches Ok(e) ==> carries_fit(v.update(kk, page_take(v[kk], paddr, size).1), kk + 1, e),
{
    let s = v[kk];
    lemma_page_entries_between(v, kk);
    let (res, t) = page_take(s, paddr, size);
    if !has_containing(s, paddr) {
        lemma_replace_page_sorted(v, kk, t);
        return;
    }
    lemma_first_containing_exists(s, paddr, choose|j: int| #![trigger s[j]] 0 <= j < s.len() && s[j].spec_contains(paddr));
    let n = s.len() as int;
    let i = first_containing(s, paddr);
    let m = s[i];
    assert(fits_between(v, kk, m));
    assert(!m.spec_is_none() && m.fits());
    if m.spec_is_taken() || m.sz() < size {
        assert forall|a: int| #![trigger t[a]] 0 <= a < t.len() implies fits_between(v, kk, t[a]) by {
            assert(fits_between(v, kk, s[a]));
        }
        lemma_replace_page_sorted(v, kk, t);
    } else if m.sz() == size {
        assert forall|a: int| #![trigger t[a]] 0 <= a < t.len() implies fits_between(v, kk, t[a]) by {
            if a != i {
                assert(fits_between(v, kk, s[a]));
            }
        }
        lemma_replace_page_sorted(v, kk, t);
    } else {
        let pieces = if m.paddr == paddr {
            take_pieces_lower(m, size)
        } else if m.hi() == paddr + size {
            take_pieces_higher(m, size)
        } else {
            take_pieces_middle(m, paddr, size)
        };
        assert(entries_ok(pieces));
        lemma_entries_ok_replace_with(s, i, pieces);
        let c = replace_with(s, i, pieces);
        assert forall|a: int| #![trigger c[a]] 0 <= a < c.len() implies fits_between(v, kk, c[a]) by {
            if a < i {
                assert(c[a] == s[a]);
                assert(fits_between(v, kk, s[a]));
            } else if a < i + pieces.len() {
                assert(c[a] == pieces[a - i]);
            } else {
                assert(c[a] == s[a - pieces.len() + 1]);
                assert(fits_between(v, kk, s[a - pieces.len() + 1]));
            }
        }
        if m.paddr == paddr || m.hi() == paddr + size {
            lemma_split_carry(v, kk, c, METADATA_ARRAY_SIZE as int);
            assert(fit(c) == keep_upto(c, METADATA_ARRAY_SIZE as int));
            assert(overflow(c) == move_from(c, METADATA_ARRAY_SIZE as int));
        } else {
            lemma_split_carry(v, kk, c, middle_split(n, i));
        }
    }
}

/// Pushing entries carried over from the previous page in front of the
/// `k`-th page keeps the pages sorted, and the entries overflowing the page
/// may be carried to the next one
pub proof fn lemma_push_excess_step(w: Seq<Seq<Metadata>>, k: int, e: Seq<Metadata>)
    requires
        pages_sorted(w),
        0 <= k < w.len(),
        entries_ok(w[k]),
        w[k].len() <= METADATA_ARRAY_SIZE,
        entries_ok(e),
        1 <= e.len() <= 2,
        carries_fit(w, k, e),
    ensures
        can_push_all(w[k], e),
        pages_sorted(w.update(k, fit(push_excess_combined(w[k], e)))),
        carries_fit(w.update(k, fit(push_excess_combined(w[k], e))), k + 1, overflow(push_excess_combined(w[k], e))),
{
    let s = w[k];
    lemma_page_entries_between(w, k);
    let c = push_excess_combined(s, e);
    assert(carry_fits(w, k, e[0]));
    assert forall|j: int| #![trigger e[j]] 0 <= j < e.len() implies (s.len() == 0 || e[j].hi() <= s[0].paddr) by {
        assert(carry_fits(w, k, e[j]));
        if s.len() > 0 {
            assert(w[k][0] == s[0]);
        }
    }
    assert forall|j: int| #![trigger e[j]] 0 <= j < e.len() implies fits_between(w, k, e[j]) by {
        assert(carry_fits(w, k, e[j]));
        assert forall|k2: int, i: int| #![trigger w[k2][i]]
            k < k2 < w.len() && 0 <= i < w[k2].len() implies e[j].hi() <= w[k2][i].paddr by {}
    }
    if e.len() == 2 {
        assert(carry_fits(w, k, e[1]));
    }
    if s.len() == 0 {
        if e.len() == 1 {
            assert(c =~= seq![e[0]]);
        } else {
            assert(c == e);
        }
    } else if e.len() == 1 {
        lemma_entries_ok_prepend(s, e[0]);
    } else if mergeable(e[1], s[0]) {
        let g = s[0].spec_grown(e[1].sz(), Side::Left);
        assert(g.paddr == e[1].paddr && g.hi() == s[0].hi());
        let s2 = s.update(0, g);
        assert(entries_ok(s2)) by {
            assert forall|a: int, b: int| #![trigger s2[a], s2[b]] 0 <= a < b < s2.len() implies s2[a].hi() <= s2[b].paddr by {
                assert(s[a].hi() <= s[b].paddr);
            }
        }
        lemma_entries_ok_prepend(s2, e[0]);
    } else {
        lemma_entries_ok_prepend(s, e[1]);
        lemma_entries_ok_prepend(seq![e[1]] + s, e[0]);
        assert(c =~= seq![e[0]] + (seq![e[1]] + s));
    }
    assert(entries_ok(c));
    assert forall|a: int| #![trigger c[a]] 0 <= a < c.len() implies fits_between(w, k, c[a]) by {
        if s.len() == 0 {
            if e.len() == 1 {
                assert(c[a] == e[0]);
            } else {
                assert(c[a] == e[a]);
            }
        } else if e.len() == 1 {
            if mergeable(e[0], s[0]) {
                if a == 0 {
                    let g = s[0].spec_grown(e[0].sz(), Side::Left);
                    assert(c[a] == g);
                    assert(g.paddr == e[0].paddr && g.hi() == s[0].hi());
                    assert(fits_between(w, k, s[0]));
                } else {
                    assert(c[a] == s[a]);
                    assert(fits_between(w, k, s[a]));
                }
            } else if a == 0 {
                assert(c[a] == e[0]);
            } else {
                assert(c[a] == s[a - 1]);
                assert(fits_between(w, k, s[a - 1]));
            }
        } else if mergeable(e[1], s[0]) {
            if a == 0 {
                assert(c[a] == e[0]);
            } else if a == 1 {
                let g = s[0].spec_grown(e[1].sz(), Side::Left);
                assert(c[a] == g);
                assert(fits_between(w, k, s[0]));
            } else {
                assert(c[a] == s[a - 1]);
                assert(fits_between(w, k, s[a - 1]));
            }
        } else {
            if a < 2 {
                assert(c[a] == e[a]);
            } else {
                assert(c[a] == s[a - 2]);
                assert(fits_between(w, k, s[a - 2]));
            }
        }
    }
    lemma_split_carry(w, k, c, METADATA_ARRAY_SIZE as int);
    assert(fit(c) == keep_upto(c, METADATA_ARRAY_SIZE as int));
    assert(overflow(c) == move_from(c, METADATA_ARRAY_SIZE as int));
}

/// The tracing pages of a memory owner, in order
pub struct TracingPages {
    pub pages: Vec<TracingPage>,
}

impl TracingPages {
    /// The entries of each page
    pub open spec fn view(&self) -> Seq<Seq<Metadata>> {
        Seq::new(self.pages@.len(), |k: int| self.pages@[k].entries())
    }

    /// Every page is well formed
    pub open spec fn pages_ok(&self) -> bool {
        forall|k: int| #![trigger self.pages@[k]] 0 <= k < self.pages@.len() ==> self.pages@[k].wf()
    }

    /// Every page is well formed and the pages follow each other in order
    pub open spec fn wf(&self) -> bool {
        &&& forall|k: int| #![trigger self.pages@[k]] 0 <= k < self.pages@.len() ==> self.pages@[k].wf()
        &&& pages_sorted(self.view())
    }

    /// Creates the tracing pages of a new owner: a single empty page
    pub fn new() -> (r: Self)
        ensures
            r.wf(),
            r.view() == seq![Seq::<Metadata>::empty()],
    {
        let mut pages: Vec<TracingPage> = Vec::new();
        pages.push(TracingPage::new());
        let r = TracingPages { pages };
        assert(r.view() =~= seq![Seq::<Metadata>::empty()]);
        r
    }

    /// Returns the number of pages
    pub fn len(&self) -> (r: usize)
        ensures
            r == self.view().len(),
    {
        self.pages.len()
    }

    /// Finds the physical and logical addresses of the first free entry that
    /// has at least `size` Bytes
    ///
    /// Returns [`None`] if there is currently no such entry.
    pub fn find_available_space(&self, size: u64) -> (r: Option<(u64, u64)>)
        requires
            self.wf(),
        ensures
            r is None ==> forall|k: int, j: int| #![trigger self.view()[k][j]]
                0 <= k < self.view().len() && 0 <= j < self.view()[k].len()
                    ==> !(self.view()[k][j].spec_is_free() && self.view()[k][j].sz() >= size),
            r matches Some((p, l)) ==> exists|k: int, j: int| #![trigger self.view()[k][j]]
                is_first_fit(self.view(), size, k, j) && p == self.view()[k][j].paddr && l == self.view()[k][j].laddr,
    {
        let ghost v = self.view();
        let mut k: usize = 0;
        while k < self.pages.len()
            invariant
                v == self.view(),
                self.wf(),
                k <= v.len(),
                forall|k2: int, j2: int| #![trigger v[k2][j2]]
                    0 <= k2 < k && 0 <= j2 < v[k2].len() ==> !(v[k2][j2].spec_is_free() && v[k2][j2].sz() >= size),
            decreases v.len() - k,
        {
            let page = &self.pages[k];
            proof { assert(self.pages@[k as int].wf()); }
            let mut j: usize = 0;
            while j < page.size()
                invariant
                    v == self.view(),
                    self.wf(),
                    k < v.len(),
                    *page == self.pages@[k as int],
                    page.wf(),
                    v[k as int] == page.entries(),
                    j <= v[k as int].len(),
                    forall|k2: int, j2: int| #![trigger v[k2][j2]]
                        0 <= k2 < k && 0 <= j2 < v[k2].len() ==> !(v[k2][j2].spec_is_free() && v[k2][j2].sz() >= size),
                    forall|j2: int| #![trigger v[k as int][j2]]
                        0 <= j2 < j ==> !(v[k as int][j2].spec_is_free() && v[k as int][j2].sz() >= size),
                decreases page.entries().len() - j,
            {
                let md = page.entry_at(j);
                proof { assert(md == v[k as int][j as int]); }
                if md.is_free() && md.size() >= size {
                    proof {
                        assert(is_first_fit(v, size, k as int, j as int));
                    }
                    return Some((md.lower_paddr(), md.lower_laddr()));
                }
                j = j + 1;
            }
            k = k + 1;
        }
        None
    }

    /// Checks whether the allocation starting at the given logical address can
    /// be relocated in place by shrinking or extending it to `size` Bytes
    ///
    /// Returns an [`Err`] if no allocation starts at the address, or if the
    /// entry starting there is free. Otherwise returns an [`Ok`] with `(true, 0)`
    /// if the allocation can be relocated in place, `(false, s)` with `s` the
    /// size of the allocation otherwise.
    pub fn can_relocate_inplace(&self, laddr: u64, size: u64) -> (r: Result<(bool, u64), PagingError>)
        requires
            self.wf(),
        ensures
            r == relocation_from(self.view(), laddr, size, 0),
    {
        let ghost v = self.view();
        let mut k: usize = 0;
        while k < self.pages.len()
            invariant
                v == self.view(),
                self.wf(),
                k <= v.len(),
                relocation_from(v, laddr, size, 0) == relocation_from(v, laddr, size, k as int),
            decreases v.len() - k,
        {
            proof { assert(self.pages@[k as int].wf()); }
            match page_relocation_of(&self.pages[k], laddr, size) {
                Some(r) => return r,
                None => {},
            }
            k = k + 1;
        }
        Err(PagingError::TracingError(TracingError::NotFound))
    }

    /// Removes the unused pages
    ///
    /// A page is unused if it comes after the first page filled below
    /// [`SIZE_THRESHOLD`] entries: that page is kept, so that at most one page
    /// holding few entries is left. The pages are expected to have been merged
    /// already. The frame of each removed page is given back to the memory map
    /// and its entry in the tracing tables cleared, as
    /// [`release_tracing_pages_from`] does.
    ///
    /// Returns an [`Err`] if the tracing tables cannot be walked or if a frame
    /// cannot be given back ([`PagingError::DeallocationFailure`]), otherwise
    /// an empty [`Ok`].
    pub fn cleanup_unused_tracing_pages<F: Fn(MapRequest) -> MapAnswer>(
        &mut self,
        pml4t: PageTable,
        mem: &mut PhysicalMemory,
        masks: &AddressMasks,
        map: &F,
    ) -> (r: Result<(), PagingError>)
        requires
            old(self).wf(),
            pml4t.fits(),
            masks_ok(*masks),
            forall|q: MapRequest| map.requires((q,)),
        ensures
            final(self).wf(),
            final(self).view() == kept_pages(old(self).view()),
            (exists|k: int| is_first_small(old(self).view(), k)) ==> exists|ans: Seq<MapAnswer>|
                released_done(map, pml4t, kept_pages(old(self).view()).len() as int, old(mem).view(), *masks, ans, r, final(mem).view()),
            !(exists|k: int| is_first_small(old(self).view(), k)) ==> r == Ok::<(), PagingError>(()) && final(mem).view() == old(mem).view(),
    {
        match self.drop_unused_pages() {
            Some(kept) => release_tracing_pages_from(kept, pml4t, mem, masks, map),
            None => Ok(()),
        }
    }

    /// Keeps the first `n` pages only
    pub fn keep_first_pages(&mut self, n: usize) -> (r: ())
        requires
            n <= old(self).view().len(),
        ensures
            old(self).pages_ok() ==> final(self).pages_ok(),
            old(self).wf() ==> final(self).wf(),
            final(self).view() == old(self).view().take(n as int),
    {
        let ghost v = self.view();
        self.pages.truncate(n);
        proof {
            assert(self.view() =~= v.take(n as int));
            if old(self).pages_ok() {
                assert forall|k: int| #![trigger self.pages@[k]] 0 <= k < self.pages@.len() implies self.pages@[k].wf() by {
                    assert(self.pages@[k] == old(self).pages@[k]);
                }
            }
            if pages_sorted(v) {
                assert forall|k1: int, k2: int, i: int, j: int|
                    #![trigger self.view()[k1][i], self.view()[k2][j]]
                    0 <= k1 < k2 < self.view().len() && 0 <= i < self.view()[k1].len() && 0 <= j < self.view()[k2].len()
                        implies self.view()[k1][i].hi() <= self.view()[k2][j].paddr by {
                    assert(self.view()[k1] == v[k1]);
                    assert(self.view()[k2] == v[k2]);
                }
            }
        }
    }

    /// Removes the pages after the first one filled below [`SIZE_THRESHOLD`]
    /// entries, returning how many pages are kept, or [`None`] if there is no
    /// such page and all are kept
    fn drop_unused_pages(&mut self) -> (r: Option<usize>)
        requires
            old(self).wf(),
        ensures
            final(self).wf(),
            final(self).view() == kept_pages(old(self).view()),
            r is Some <==> exists|k: int| is_first_small(old(self).view(), k),
            r matches Some(c) ==> c == kept_pages(old(self).view()).len(),
    {
        let ghost v = self.view();
        let n = self.pages.len();
        let mut k: usize = 0;
        while k < n
            invariant
                v == self.view(),
                v == old(self).view(),
                self.wf(),
                n == v.len(),
                k <= n,
                forall|k2: int| #![trigger v[k2]] 0 <= k2 < k ==> v[k2].len() >= SIZE_THRESHOLD,
            decreases n - k,
        {
            proof { assert(self.pages@[k as int].wf()); }
            if self.pages[k].size() < SIZE_THRESHOLD {
                proof {
                    assert(is_first_small(v, k as int));
                    let c = choose|c: int| is_first_small(v, c);
                    assert(is_first_small(v, c));
                    if c < k {
                        assert(v[c].len() >= SIZE_THRESHOLD);
                    } else if c > k {
                        assert(v[k as int].len() >= SIZE_THRESHOLD);
                    }
                }
                self.pages.truncate(k + 1);
                proof {
                    assert(self.view() =~= v.take(k + 1));
                    assert forall|k1: int, k2: int, i: int, j: int|
                        #![trigger self.view()[k1][i], self.view()[k2][j]]
                        0 <= k1 < k2 < self.view().len() && 0 <= i < self.view()[k1].len() && 0 <= j < self.view()[k2].len()
                            implies self.view()[k1][i].hi() <= self.view()[k2][j].paddr by {
                        assert(self.view()[k1] == v[k1]);
                        assert(self.view()[k2] == v[k2]);
                    }
                }
                return Some(k + 1);
            }
            k = k + 1;
        }
        proof {
            assert forall|c: int| !is_first_small(v, c) by {
                if 0 <= c < v.len() {
                    assert(v[c].len() >= SIZE_THRESHOLD);
                }
            }
        }
        None
    }

    /// Merges the content of all the pages
    ///
    /// While a page is not full, entries are moved from the front of the next
    /// page to its back. No page is removed, even when it ends up empty.
    pub fn merge_tracing_pages(&mut self) -> (r: Result<(), PagingError>)
        requires
            old(self).wf(),
        ensures
            final(self).wf(),
            r == Ok::<(), PagingError>(()),
            final(self).view() == merge_upto(old(self).view(), old(self).view().len() as int),
            pages_normalized(old(self).view()) ==> pages_normalized(final(self).view()),
    {
        let ghost v0 = self.view();
        proof {
            if pages_normalized(v0) {
                lemma_merge_upto_normalized(v0, v0.len() as int);
            }
        }
        let n = self.pages.len();
        if n == 0 {
            return Ok(());
        }
        let mut k: usize = 1;
        while k < n
            invariant
                self.wf(),
                self.pages@.len() == n,
                v0.len() == n,
                v0 == old(self).view(),
                1 <= k <= n,
                self.view() == merge_upto(v0, k as int),
            decreases n - k,
        {
            let ghost w = self.view();
            let ghost goal = move_front(w[k - 1], w[k as int]);
            proof {
                assert(merge_upto(v0, k + 1) == w.update(k - 1, goal.0).update(k as int, goal.1));
            }
            while !(self.pages[k - 1].is_full() || self.pages[k].is_empty())
                invariant
                    self.wf(),
                    self.pages@.len() == n,
                    1 <= k < n,
                    w.len() == n,
                    move_front(self.view()[k - 1], self.view()[k as int]) == goal,
                    forall|j: int| #![trigger self.view()[j]] 0 <= j < n && j != k - 1 && j != k ==> self.view()[j] == w[j],
                decreases self.pages@[k as int].size,
            {
                let ghost u = self.view();
                proof {
                    assert(self.pages@[k as int].wf());
                    assert(self.pages@[k - 1].wf());
                    assert(u[k as int] == self.pages@[k as int].entries());
                    assert(u[k - 1] == self.pages@[k - 1].entries());
                    lemma_move_one_sorted(u, k as int);
                }
                let md = self.pages[k].extract(0);
                proof {
                    assert(entries_ok(u[k as int]));
                    assert(md == u[k as int][0]);
                    if u[k - 1].len() > 0 {
                        assert(u[k - 1][u[k - 1].len() - 1].hi() <= u[k as int][0].paddr);
                    }
                }
                let o = self.pages[k - 1].append(md);
                if o.is_some() {
                    return Err(PagingError::from_tracing_error(TracingError::InternalFailure));
                }
                proof {
                    let a = append_combined(u[k - 1], u[k as int][0]);
                    let b = u[k as int].drop_first();
                    assert(a.len() <= u[k - 1].len() + 1);
                    assert(fit(a) == a);
                    assert(self.pages@[k as int].entries() =~= b);
                    assert(self.view() =~= u.update(k - 1, a).update(k as int, b));
                }
            }
            proof {
                let u = self.view();
                assert(move_front(u[k - 1], u[k as int]) == (u[k - 1], u[k as int]));
                assert(u =~= w.update(k - 1, goal.0).update(k as int, goal.1));
            }
            k = k + 1;
        }
        Ok(())
    }

    /// Pushes the entry carried over from the previous page in front of the
    /// `k`-th page, returning the entry that overflows it, if any
    fn push_carry(&mut self, k: usize, c: Metadata) -> (r: Result<Option<Metadata>, PagingError>)
        requires
            k < old(self).pages@.len(),
            old(self).pages@[k as int].wf(),
            !c.spec_is_none(),
            c.fits(),
        ensures
            final(self).pages@.len() == old(self).pages@.len(),
            forall|j: int| #![trigger final(self).pages@[j]] 0 <= j < final(self).pages@.len() && j != k
                ==> final(self).pages@[j] == old(self).pages@[j],
            final(self).pages@[k as int].wf(),
            r matches Err(e) ==> spill(old(self).view(), k as int, Some(c)) == (Err::<(), PagingError>(e), final(self).view())
                && final(self).view() == old(self).view(),
            r matches Ok(o) ==> spill(old(self).view(), k as int, Some(c)) == spill(final(self).view(), k + 1, o)
                && final(self).view() == old(self).view().update(k as int, fit(push_combined(old(self).view()[k as int], c)))
                && o == overflow_opt(push_combined(old(self).view()[k as int], c)),
            r matches Ok(Some(o)) ==> !o.spec_is_none() && o.fits(),
            pages_sorted(old(self).view()) && all_entries_ok(old(self).view()) && carry_fits(old(self).view(), k as int, c) ==> {
                &&& r is Ok
                &&& pages_sorted(final(self).view())
                &&& r matches Ok(Some(o)) ==> carry_fits(final(self).view(), k + 1, o)
            },
            pages_normalized(old(self).view()) ==> pages_normalized(final(self).view()),
    {
        let ghost w = self.view();
        proof {
            if pages_normalized(w) {
                assert(self.pages@[k as int].wf());
                assert(normalized(w[k as int]));
                lemma_push_fit_normalized(w[k as int], c);
                lemma_replace_page_normalized(w, k as int, fit(push_combined(w[k as int], c)));
            }
        }
        proof {
            assert(w[k as int] == self.pages@[k as int].entries());
            lemma_push_overflow(w[k as int], c);
            if pages_sorted(w) && all_entries_ok(w) && carry_fits(w, k as int, c) {
                lemma_push_step(w, k as int, c);
            }
        }
        match self.pages[k].try_push(c) {
            Ok(o) => {
                proof {
                    let pc = push_combined(w[k as int], c);
                    assert(self.view() =~= w.update(k as int, fit(pc)));
                    if o is Some {
                        assert(w[k as int][w[k as int].len() - 1] == self.pages@[k as int].metadata@[w[k as int].len() - 1]
                            || true);
                        assert(entries_ok(w[k as int]));
                    }
                }
                Ok(o)
            },
            Err(e) => {
                proof { assert(self.view() =~= w); }
                Err(PagingError::from_page_error(e))
            },
        }
    }

    /// Inserts the entry in the `k`-th page, returning the entry that
    /// overflows it, if any
    fn insert_at(&mut self, k: usize, md: Metadata) -> (r: Option<Metadata>)
        requires
            k < old(self).pages@.len(),
            old(self).pages@[k as int].wf(),
            !md.spec_is_none(),
            md.fits(),
            !insert_unsupported(old(self).view()[k as int], md),
        ensures
            final(self).pages@.len() == old(self).pages@.len(),
            forall|j: int| #![trigger final(self).pages@[j]] 0 <= j < final(self).pages@.len() && j != k
                ==> final(self).pages@[j] == old(self).pages@[j],
            final(self).pages@[k as int].wf_shape(),
            final(self).view() == old(self).view().update(k as int, fit(insert_combined(old(self).view()[k as int], md))),
            r == overflow_opt(insert_combined(old(self).view()[k as int], md)),
            r matches Some(o) ==> !o.spec_is_none() && o.fits(),
            pages_sorted(old(self).view()) && all_entries_ok(old(self).view()) && fits_between(old(self).view(), k as int, md)
                && sorted(old(self).view()[k as int].insert(insert_pos(old(self).view()[k as int], md), md)) ==> {
                &&& final(self).pages@[k as int].wf()
                &&& pages_sorted(final(self).view())
                &&& r matches Some(o) ==> carry_fits(final(self).view(), k + 1, o)
            },
            pages_normalized(old(self).view()) && sorted(old(self).view()[k as int].insert(insert_pos(old(self).view()[k as int], md), md))
                ==> pages_normalized(final(self).view()),
    {
        let ghost w = self.view();
        proof {
            assert(w[k as int] == self.pages@[k as int].entries());
            lemma_insert_overflow(w[k as int], md);
            if pages_sorted(w) && all_entries_ok(w) && fits_between(w, k as int, md)
                && sorted(w[k as int].insert(insert_pos(w[k as int], md), md)) {
                lemma_insert_step(w, k as int, md);
            }
        }
        let r = self.pages[k].insert(md);
        proof {
            let ic = insert_combined(w[k as int], md);
            assert(self.view() =~= w.update(k as int, fit(ic)));
            if pages_normalized(w) && sorted(w[k as int].insert(insert_pos(w[k as int], md), md)) {
                assert(normalized(w[k as int]));
                assert(self.view()[k as int] == fit(ic));
                lemma_replace_page_normalized(w, k as int, fit(ic));
            }
        }
        match r {
            Ok(e) => {
                let mut e = e;
                e.pop()
            },
            Err(_) => None,
        }
    }

    /// Inserts the given entry in the page it belongs to
    ///
    /// The entry goes in the first page that is empty, that begins after it or
    /// whose range of addresses holds its beginning. The entries overflowing a
    /// page are pushed in front of the next one, and a new page is created for
    /// what is left after the last one. Returns an [`Err`] if no page takes
    /// the entry or if an overflowing entry cannot be pushed in order.
    pub fn insert_entry(&mut self, md: Metadata) -> (r: Result<(), PagingError>)
        requires
            old(self).wf(),
            !md.spec_is_none(),
            md.fits(),
            !insert_refused(old(self).view(), md),
        ensures
            (r, final(self).view()) == insert_entry_outcome(old(self).view(), md),
            insert_fits(old(self).view(), md) ==> final(self).wf(),
            insert_fits(old(self).view(), md) && pages_normalized(old(self).view()) ==> pages_normalized(final(self).view()),
    {
        let ghost v = self.view();
        let ghost ok = insert_fits(v, md);
        let n = self.pages.len();
        let mut found = false;
        let mut carry: Option<Metadata> = None;
        let mut k: usize = 0;
        proof {
            assert forall|j: int| #![trigger v[j]] 0 <= j < v.len() implies entries_ok(v[j]) by {
                assert(old(self).pages@[j].wf());
            }
        }
        while k < n
            invariant
                self.pages@.len() == n,
                v.len() == n,
                v == old(self).view(),
                ok == insert_fits(v, md),
                all_entries_ok(v),
                old(self).wf(),
                k <= n,
                !md.spec_is_none(),
                md.fits(),
                !insert_refused(v, md),
                forall|j: int| #![trigger self.pages@[j]] k <= j < n ==> self.pages@[j] == old(self).pages@[j],
                !found ==> self.view() == v && carry is None && self.pages@ == old(self).pages@,
                !found ==> forall|k2: int| #![trigger v[k2]] 0 <= k2 < k ==> !takes_insert(v[k2], md),
                found ==> carry is Some && insert_entry_outcome(v, md) == spill(self.view(), k as int, carry),
                carry matches Some(c) ==> !c.spec_is_none() && c.fits(),
                found && ok ==> self.wf(),
                found && ok ==> (carry matches Some(c) && carry_fits(self.view(), k as int, c)),
                ok && pages_normalized(v) ==> pages_normalized(self.view()),
            decreases n - k,
        {
            proof { assert(self.pages@[k as int].wf()); }
            if let Some(m) = carry {
                proof {
                    if ok {
                        assert forall|j: int| #![trigger self.view()[j]] 0 <= j < self.view().len() implies entries_ok(self.view()[j]) by {
                            assert(self.pages@[j].wf());
                        }
                    }
                }
                let ghost before = self.pages@;
                carry = self.push_carry(k, m)?;
                proof {
                    if ok {
                        assert forall|j: int| #![trigger self.pages@[j]] 0 <= j < self.pages@.len() implies self.pages@[j].wf() by {
                            if j != k {
                                assert(before[j].wf());
                            }
                        }
                    }
                }
            } else if self.pages[k].is_empty() || self.pages[k].lower_paddr() > md.lower_paddr()
                || self.pages[k].contains_paddr(md.lower_paddr()) {
                proof {
                    if v[k as int].len() > 0 {
                        assert(v[k as int][0] == self.pages@[k as int].metadata@[0]);
                    }
                    assert(is_insert_page(v, md, k as int));
                    lemma_insert_page_unique(v, md, k as int);
                }
                found = true;
                carry = self.insert_at(k, md);
                proof {
                    if ok {
                        assert forall|j: int| #![trigger self.pages@[j]] 0 <= j < self.pages@.len() implies self.pages@[j].wf() by {
                            if j != k {
                                assert(old(self).pages@[j].wf());
                            }
                        }
                    }
                }
            } else {
                proof {
                    if v[k as int].len() > 0 {
                        assert(v[k as int][0] == self.pages@[k as int].metadata@[0]);
                    }
                }
                k = k + 1;
                continue;
            }
            if carry.is_none() {
                return Ok(());
            }
            k = k + 1;
        }
        if !found {
            proof {
                assert forall|c: int| !is_insert_page(v, md, c) by {
                    if 0 <= c < v.len() {
                        assert(!takes_insert(v[c], md));
                    }
                }
            }
            return Err(PagingError::from_tracing_error(TracingError::NotFound));
        }
        let ghost w = self.view();
        if let Some(m) = carry {
            let mut page = TracingPage::new();
            page.append_unchecked(m);
            proof {
                assert(page.entries() =~= seq![m]);
            }
            self.pages.push(page);
            proof {
                assert(self.view() =~= w.push(seq![m]));
                if ok {
                    lemma_new_page_sorted(w, m);
                }
                if pages_normalized(w) {
                    let u = self.view();
                    assert forall|j: int| 0 <= j < u.len() implies normalized(#[trigger] u[j]) by {
                        if j < w.len() {
                            assert(u[j] == w[j]);
                        } else {
                            assert(u[j] =~= seq![m]);
                        }
                    }
                }
            }
        }
        Ok(())
    }

    /// Inserts the given amount of free space, as [`TracingPages::insert_entry`] does
    /// with a free entry
    pub fn insert_available_space(&mut self, paddr: u64, laddr: u64, size: u64) -> (r: Result<(), PagingError>)
        requires
            old(self).wf(),
            paddr + size <= u64::MAX,
            laddr + size <= u64::MAX,
            !insert_refused(old(self).view(), Metadata { paddr, laddr, info: Info::Free(size) }),
        ensures
            (r, final(self).view()) == insert_entry_outcome(old(self).view(), Metadata { paddr, laddr, info: Info::Free(size) }),
            insert_fits(old(self).view(), Metadata { paddr, laddr, info: Info::Free(size) }) ==> final(self).wf(),
            insert_fits(old(self).view(), Metadata { paddr, laddr, info: Info::Free(size) }) && pages_normalized(old(self).view())
                ==> pages_normalized(final(self).view()),
    {
        self.insert_entry(Metadata::new_free(paddr, laddr, size))
    }

    /// Takes `size` Bytes from `paddr` in the `k`-th page, returning the
    /// entries that must move to the next page
    fn take_at(&mut self, k: usize, paddr: u64, size: u64) -> (r: Result<Excess, PagingError>)
        requires
            k < old(self).pages@.len(),
            old(self).pages@[k as int].wf(),
            !take_unsupported(old(self).view()[k as int], paddr, size),
        ensures
            final(self).pages@.len() == old(self).pages@.len(),
            forall|j: int| #![trigger final(self).pages@[j]] 0 <= j < final(self).pages@.len() && j != k
                ==> final(self).pages@[j] == old(self).pages@[j],
            final(self).pages@[k as int].wf(),
            final(self).view() == old(self).view().update(k as int, page_take(old(self).view()[k as int], paddr, size).1),
            page_take(old(self).view()[k as int], paddr, size).0 matches Err(e)
                ==> r == Err::<Excess, PagingError>(PagingError::TracingError(TracingError::TracingPageError(e))),
            page_take(old(self).view()[k as int], paddr, size).0 matches Ok(e)
                ==> r is Ok && r->Ok_0.wf() && r->Ok_0@ == e && entries_ok(e),
            pages_sorted(old(self).view()) ==> pages_sorted(final(self).view())
                && (r matches Ok(e) ==> carries_fit(final(self).view(), k + 1, e@)),
            pages_normalized(old(self).view()) ==> pages_normalized(final(self).view()),
    {
        let ghost w = self.view();
        proof {
            assert(w[k as int] == self.pages@[k as int].entries());
            if pages_sorted(w) {
                lemma_take_fits(w, k as int, paddr, size);
            }
            if pages_normalized(w) {
                assert(normalized(w[k as int]));
                lemma_take_normalized(w[k as int], paddr, size);
                lemma_replace_page_normalized(w, k as int, page_take(w[k as int], paddr, size).1);
            }
            if has_containing(w[k as int], paddr) {
                let s = w[k as int];
                lemma_first_containing_exists(s, paddr, choose|j: int| #![trigger s[j]] 0 <= j < s.len() && s[j].spec_contains(paddr));
                lemma_take_pieces_ok(w[k as int], paddr, size);
                let i = first_containing(s, paddr);
                assert(!s[i].spec_is_none());
            }
        }
        let r = self.pages[k].take(paddr, size);
        proof {
            assert(self.view() =~= w.update(k as int, page_take(w[k as int], paddr, size).1));
        }
        match r {
            Ok(e) => Ok(e),
            Err(e) => Err(PagingError::from_page_error(e)),
        }
    }

    /// Pushes the entries carried over from the previous page in front of the
    /// `k`-th page, returning the entries that overflow it
    fn push_excess_at(&mut self, k: usize, exc: Excess) -> (r: Result<Excess, PagingError>)
        requires
            k < old(self).pages@.len(),
            old(self).pages@[k as int].wf(),
            exc.wf(),
            entries_ok(exc@),
            exc@.len() > 0,
        ensures
            final(self).pages@.len() == old(self).pages@.len(),
            forall|j: int| #![trigger final(self).pages@[j]] 0 <= j < final(self).pages@.len() && j != k
                ==> final(self).pages@[j] == old(self).pages@[j],
            final(self).pages@[k as int].wf(),
            r matches Err(e) ==> spill_excess(old(self).view(), k as int, exc@) == (Err::<(), PagingError>(e), final(self).view())
                && final(self).view() == old(self).view(),
            r matches Ok(o) ==> spill_excess(old(self).view(), k as int, exc@) == spill_excess(final(self).view(), k + 1, o@)
                && o.wf() && entries_ok(o@),
            pages_sorted(old(self).view()) && carries_fit(old(self).view(), k as int, exc@) ==> pages_sorted(final(self).view())
                && (r matches Ok(o) ==> carries_fit(final(self).view(), k + 1, o@)),
    {
        let ghost w = self.view();
        proof {
            assert(w[k as int] == self.pages@[k as int].entries());
            if pages_sorted(w) && carries_fit(w, k as int, exc@) {
                lemma_push_excess_step(w, k as int, exc@);
            }
            if can_push_all(w[k as int], exc@) {
                lemma_push_excess_ok(w[k as int], exc@);
            }
        }
        let r = self.pages[k].try_push_excess(exc);
        proof {
            if r is Ok {
                let c = push_excess_combined(w[k as int], exc@);
                assert(self.view() =~= w.update(k as int, fit(c)));
            } else {
                assert(self.view() =~= w);
            }
        }
        match r {
            Ok(o) => Ok(o),
            Err(e) => Err(PagingError::from_page_error(e)),
        }
    }

    /// Takes the space requested by an allocation, marking it as taken in
    /// the page holding `paddr`
    ///
    /// The entries overflowing a page are pushed in front of the next one.
    /// Returns an [`Err`] if no page holds the address or if taking fails; if
    /// entries are left after the last page, they go to a new page.
    pub fn take_available_space(&mut self, paddr: u64, size: u64) -> (r: Result<(), PagingError>)
        requires
            old(self).wf(),
            !take_refused(old(self).view(), paddr, size),
        ensures
            (r, final(self).view()) == take_outcome(old(self).view(), paddr, size),
            final(self).wf(),
            pages_normalized(old(self).view()) ==> pages_normalized(final(self).view()),
    {
        let ghost v = self.view();
        proof {
            if pages_normalized(v) {
                assert forall|j: int| #![trigger v[j]] 0 <= j < v.len() implies entries_ok(v[j]) && v[j].len() <= METADATA_ARRAY_SIZE by {
                    assert(self.pages@[j].wf());
                }
                lemma_take_outcome_normalized(v, paddr, size);
            }
        }
        let n = self.pages.len();
        let mut found = false;
        let mut excess = Excess::none();
        let mut k: usize = 0;
        while k < n
            invariant
                self.pages@.len() == n,
                v.len() == n,
                v == old(self).view(),
                old(self).wf(),
                k <= n,
                self.pages_ok(),
                excess.wf(),
                entries_ok(excess@),
                !take_refused(v, paddr, size),
                pages_normalized(v) ==> pages_normalized(take_outcome(v, paddr, size).1),
                forall|j: int| #![trigger self.pages@[j]] k <= j < n ==> self.pages@[j] == old(self).pages@[j],
                !found ==> self.pages@ == old(self).pages@ && excess@.len() == 0,
                !found ==> forall|k2: int| #![trigger v[k2]] 0 <= k2 < k ==> !holds_strict(v[k2], paddr),
                found ==> excess@.len() > 0 && take_outcome(v, paddr, size) == spill_excess(self.view(), k as int, excess@),
                pages_sorted(self.view()),
                carries_fit(self.view(), k as int, excess@),
            decreases n - k,
        {
            let ghost before = self.pages@;
            proof {
                assert(self.pages@[k as int].wf());
                assert(self.view()[k as int] == self.pages@[k as int].entries());
            }
            if !excess.is_none() {
                excess = self.push_excess_at(k, excess)?;
            } else if self.pages[k].contains_paddr_strict(paddr) {
                proof {
                    assert(is_holding_page(v, paddr, k as int));
                    lemma_holding_page_unique(v, paddr, k as int);
                }
                found = true;
                excess = self.take_at(k, paddr, size)?;
            } else {
                k = k + 1;
                continue;
            }
            proof {
                assert forall|j: int| #![trigger self.pages@[j]] 0 <= j < self.pages@.len() implies self.pages@[j].wf() by {
                    if j != k {
                        assert(before[j].wf());
                    }
                }
            }
            if excess.is_none() {
                return Ok(());
            }
            k = k + 1;
        }
        if !found {
            proof {
                assert forall|c: int| !is_holding_page(v, paddr, c) by {
                    if 0 <= c < v.len() {
                        assert(!holds_strict(v[c], paddr));
                    }
                }
            }
            return Err(PagingError::from_tracing_error(TracingError::NotFound));
        }
        let ghost w = self.view();
        let ghost carry = excess@;
        let mut page = TracingPage::new();
        while !excess.is_none()
            invariant
                excess.wf(),
                entries_ok(carry),
                carry.len() <= 2,
                page.wf_shape(),
                page.entries() + excess@ == carry,
            decreases excess@.len(),
        {
            let md = excess.pop_unchecked();
            proof { assert(page.entries().len() + 1 <= 2); }
            page.append_unchecked(md);
            proof {
                assert(page.entries() + excess@ =~= carry);
            }
        }
        proof {
            assert(page.entries() =~= carry);
        }
        self.pages.push(page);
        proof {
            assert(self.view() =~= w.push(carry));
            lemma_new_pages_sorted(w, carry);
        }
        Ok(())
    }

    /// Removes `size` Bytes from `paddr` in the `k`-th page, as the page's
    /// `try_remove` does
    fn remove_at(&mut self, k: usize, paddr: u64, size: u64) -> (r: Result<Reminder, PagingError>)
        requires
            k < old(self).pages@.len(),
            old(self).pages@[k as int].wf(),
            !remove_unsupported(old(self).view()[k as int], paddr, size),
        ensures
            final(self).pages@.len() == old(self).pages@.len(),
            forall|j: int| #![trigger final(self).pages@[j]] 0 <= j < final(self).pages@.len() && j != k
                ==> final(self).pages@[j] == old(self).pages@[j],
            final(self).pages@[k as int].wf(),
            final(self).view() == old(self).view().update(k as int, page_try_remove(old(self).view()[k as int], paddr, size).1),
            page_try_remove(old(self).view()[k as int], paddr, size).0 matches Err(e)
                ==> r == Err::<Reminder, PagingError>(PagingError::TracingError(TracingError::TracingPageError(e))),
            page_try_remove(old(self).view()[k as int], paddr, size).0 matches Ok(rr) ==> r == Ok::<Reminder, PagingError>(rr),
            pages_normalized(old(self).view()) && size > 0 ==> pages_normalized(final(self).view()),
            pages_sorted(old(self).view()) ==> {
                &&& pages_sorted(final(self).view())
                &&& r matches Ok(Reminder::Negative(md)) ==> below_pages(final(self).view(), k as int, md.paddr as int) && md.sz() > 0
                &&& r matches Ok(Reminder::Positive(md)) ==> carry_fits(final(self).view(), k + 1, md)
            },
    {
        let ghost w = self.view();
        proof {
            assert(w[k as int] == self.pages@[k as int].entries());
            if pages_sorted(w) && holds_strict(w[k as int], paddr) {
                lemma_remove_fits(w, k as int, paddr, size);
            }
        }
        let r = self.pages[k].try_remove(paddr, size);
        proof {
            assert(self.view() =~= w.update(k as int, page_try_remove(w[k as int], paddr, size).1));
            if pages_normalized(w) && size > 0 {
                assert(normalized(w[k as int]));
                lemma_replace_page_normalized(w, k as int, page_try_remove(w[k as int], paddr, size).1);
            }
            if !holds_strict(w[k as int], paddr) {
                assert(self.view() =~= w);
            }
        }
        match r {
            Ok(rr) => Ok(rr),
            Err(e) => Err(PagingError::from_page_error(e)),
        }
    }

    /// Passes a nonzero reminder over to the `k`-th page: a positive one is
    /// pushed in front of the page, a negative one is removed from its
    /// beginning; returns [`None`] when nothing is left to do
    fn pass_reminder(&mut self, k: usize, rem: Reminder) -> (r: Result<Option<Reminder>, PagingError>)
        requires
            k < old(self).pages@.len(),
            old(self).wf(),
            !(rem is Zero),
            rem matches Reminder::Negative(md) ==> below_pages(old(self).view(), k - 1, md.paddr as int) && md.sz() > 0,
            rem matches Reminder::Positive(md) ==> carry_fits(old(self).view(), k as int, md),
        ensures
            final(self).pages@.len() == old(self).pages@.len(),
            final(self).wf(),
            r matches Err(e) ==> rem_spill(old(self).view(), k as int, rem) == (Err::<(), PagingError>(e), final(self).view()),
            r matches Ok(None) ==> rem_spill(old(self).view(), k as int, rem) == (Ok::<(), PagingError>(()), final(self).view()),
            r matches Ok(Some(r2)) ==> rem_spill(old(self).view(), k as int, rem) == rem_spill(final(self).view(), k + 1, r2),
            r matches Ok(Some(r2)) ==> {
                &&& r2 matches Reminder::Negative(md) ==> below_pages(final(self).view(), k as int, md.paddr as int) && md.sz() > 0
                &&& r2 matches Reminder::Positive(md) ==> carry_fits(final(self).view(), k + 1, md)
            },
            pages_normalized(old(self).view()) ==> pages_normalized(final(self).view()),
    {
        let ghost before = self.pages@;
        let ghost w = self.view();
        proof {
            assert(self.pages@[k as int].wf());
            assert(w[k as int] == self.pages@[k as int].entries());
            assert forall|j: int| #![trigger w[j]] 0 <= j < w.len() implies entries_ok(w[j]) by {
                assert(self.pages@[j].wf());
            }
        }
        match rem {
            Reminder::Negative(md) => {
                proof {
                    let s = w[k as int];
                    if has_containing(s, md.paddr) {
                        lemma_first_containing_exists(s, md.paddr, choose|j: int| #![trigger s[j]] 0 <= j < s.len() && s[j].spec_contains(md.paddr));
                        let i0 = first_containing(s, md.paddr);
                        assert(md.paddr <= s[i0].paddr);
                    }
                }
                let r2 = self.remove_at(k, md.lower_paddr(), md.size())?;
                proof { self.lemma_pages_ok_after(before, k as int); }
                Ok(Some(r2))
            },
            Reminder::Positive(md) => {
                proof { lemma_push_step(w, k as int, md); }
                let o = self.push_carry(k, md)?;
                proof { self.lemma_pages_ok_after(before, k as int); }
                match o {
                    Some(o) => Ok(Some(Reminder::Positive(o))),
                    None => Ok(None),
                }
            },
            Reminder::Zero => Ok(None),
        }
    }

    /// Removes the given amount of space from the pages
    ///
    /// The space is removed from the page holding `paddr`. What must be removed
    /// beyond the end of the page is removed from the beginning of the next
    /// one, and an entry overflowing the page is pushed in front of the next
    /// one, a new page taking it after the last one. Once nothing is left to
    /// remove, the pages are merged. Returns an [`Err`] if no page holds the
    /// address or if removing fails.
    #[verifier::rlimit(30)]
    pub fn remove_space(&mut self, paddr: u64, size: u64) -> (r: Result<(), PagingError>)
        requires
            old(self).wf(),
            !remove_refused(old(self).view(), paddr, size),
        ensures
            (r, final(self).view()) == remove_space_outcome(old(self).view(), paddr, size),
            final(self).wf(),
            pages_normalized(old(self).view()) && size > 0 ==> pages_normalized(final(self).view()),
    {
        let ghost v = self.view();
        let n = self.pages.len();
        let mut found = false;
        let mut reminder = Reminder::zero();
        let mut k: usize = 0;
        while k < n
            invariant
                self.pages@.len() == n,
                v.len() == n,
                v == old(self).view(),
                old(self).wf(),
                self.wf(),
                k <= n,
                !remove_refused(v, paddr, size),
                pages_normalized(v) && size > 0 ==> pages_normalized(self.view()),
                !found ==> self.pages@ == old(self).pages@ && reminder is Zero,
                !found ==> forall|k2: int| #![trigger v[k2]] 0 <= k2 < k ==> !holds_strict(v[k2], paddr),
                found ==> !(reminder is Zero) && remove_space_outcome(v, paddr, size) == rem_spill(self.view(), k as int, reminder),
                reminder matches Reminder::Negative(md) ==> below_pages(self.view(), k - 1, md.paddr as int) && md.sz() > 0,
                reminder matches Reminder::Positive(md) ==> carry_fits(self.view(), k as int, md),
            decreases n - k,
        {
            if !found {
                proof { assert(self.pages@[k as int].wf()); }
                if self.pages[k].contains_paddr_strict(paddr) {
                    let ghost before = self.pages@;
                    proof {
                        assert(is_holding_page(v, paddr, k as int));
                        lemma_holding_page_unique(v, paddr, k as int);
                        assert(v[k as int] == self.pages@[k as int].entries());
                    }
                    found = true;
                    reminder = self.remove_at(k, paddr, size)?;
                    proof {
                        self.lemma_pages_ok_after(before, k as int);
                        assert(remove_space_outcome(v, paddr, size) == rem_spill(self.view(), k + 1, reminder));
                    }
                }
            } else {
                match self.pass_reminder(k, reminder)? {
                    Some(r2) => {
                        reminder = r2;
                    },
                    None => {
                        return Ok(());
                    },
                }
            }
            if found && reminder.is_zero() {
                let ghost w2 = self.view();
                proof {
                    assert(rem_spill(w2, k + 1, Reminder::Zero) == (Ok::<(), PagingError>(()), merge_upto(w2, w2.len() as int)));
                }
                return self.merge_tracing_pages();
            }
            k = k + 1;
        }
        if !found {
            proof {
                assert forall|c: int| !is_holding_page(v, paddr, c) by {
                    if 0 <= c < v.len() {
                        assert(!holds_strict(v[c], paddr));
                    }
                }
            }
            return Err(PagingError::from_tracing_error(TracingError::NotFound));
        }
        let ghost w = self.view();
        match reminder {
            Reminder::Positive(md) => {
                let mut page = TracingPage::new();
                page.append_unchecked(md);
                proof {
                    assert(page.entries() =~= seq![md]);
                }
                self.pages.push(page);
                proof {
                    assert(self.view() =~= w.push(seq![md]));
                    lemma_new_page_sorted(w, md);
                    if pages_normalized(w) {
                        let u = self.view();
                        assert forall|j: int| 0 <= j < u.len() implies normalized(#[trigger] u[j]) by {
                            if j < w.len() {
                                assert(u[j] == w[j]);
                            } else {
                                assert(u[j] =~= seq![md]);
                            }
                        }
                    }
                }
                Ok(())
            },
            Reminder::Negative(_) => Err(PagingError::from_tracing_error(TracingError::InvalidRequest)),
            Reminder::Zero => Err(PagingError::from_tracing_error(TracingError::InternalFailure)),
        }
    }

    /// The pages stay well formed when only the `k`-th page changed and is
    /// well formed
    proof fn lemma_pages_ok_after(&self, before: Seq<TracingPage>, k: int)
        requires
            before.len() == self.pages@.len(),
            forall|j: int| #![trigger before[j]] 0 <= j < before.len() ==> before[j].wf(),
            forall|j: int| #![trigger self.pages@[j]] 0 <= j < self.pages@.len() && j != k ==> self.pages@[j] == before[j],
            0 <= k < before.len(),
            self.pages@[k].wf(),
        ensures
            self.pages_ok(),
    {
        assert forall|j: int| #![trigger self.pages@[j]] 0 <= j < self.pages@.len() implies self.pages@[j].wf() by {
            if j != k {
                assert(before[j].wf());
            }
        }
    }

    /// Checks whether inserting `md` is a request that the page taking it
    /// cannot serve, see [`insert_refused`]
    pub fn cannot_insert_entry(&self, md: &Metadata) -> (r: bool)
        requires
            self.wf(),
            md.fits(),
        ensures
            r == insert_refused(self.view(), *md),
    {
        let ghost v = self.view();
        let n = self.pages.len();
        let mut k: usize = 0;
        while k < n
            invariant
                self.wf(),
                v == self.view(),
                n == v.len(),
                k <= n,
                md.fits(),
                forall|k2: int| #![trigger v[k2]] 0 <= k2 < k ==> !takes_insert(v[k2], *md),
            decreases n - k,
        {
            proof { assert(self.pages@[k as int].wf()); }
            let page = &self.pages[k];
            proof {
                assert(v[k as int] == page.entries());
                if page.entries().len() > 0 {
                    assert(page.entries()[0] == page.metadata@[0]);
                }
            }
            let takes = page.is_empty() || page.lower_paddr() > md.lower_paddr() || page.contains_paddr(md.lower_paddr());
            if takes {
                proof {
                    assert(is_insert_page(v, *md, k as int));
                    lemma_insert_page_unique(v, *md, k as int);
                }
                return page.cannot_insert(md);
            }
            k = k + 1;
        }
        proof {
            assert forall|c: int| !is_insert_page(v, *md, c) by {
                if 0 <= c < v.len() {
                    assert(!takes_insert(v[c], *md));
                }
            }
        }
        false
    }

    /// Checks whether taking `size` Bytes from `paddr` is a request that the
    /// page holding the address cannot serve, see [`take_refused`]
    pub fn cannot_take_space(&self, paddr: u64, size: u64) -> (r: bool)
        requires
            self.wf(),
        ensures
            r == take_refused(self.view(), paddr, size),
    {
        let ghost v = self.view();
        let n = self.pages.len();
        let mut k: usize = 0;
        while k < n
            invariant
                self.wf(),
                v == self.view(),
                n == v.len(),
                k <= n,
                forall|k2: int| #![trigger v[k2]] 0 <= k2 < k ==> !holds_strict(v[k2], paddr),
            decreases n - k,
        {
            proof { assert(self.pages@[k as int].wf()); }
            if self.pages[k].contains_paddr_strict(paddr) {
                proof {
                    assert(is_holding_page(v, paddr, k as int));
                    lemma_holding_page_unique(v, paddr, k as int);
                    assert(v[k as int] == self.pages@[k as int].entries());
                }
                return self.pages[k].cannot_take(paddr, size);
            }
            k = k + 1;
        }
        proof {
            assert forall|c: int| !is_holding_page(v, paddr, c) by {
                if 0 <= c < v.len() {
                    assert(!holds_strict(v[c], paddr));
                }
            }
        }
        false
    }

    /// Checks whether resizing to `size` Bytes the entry starting at `paddr` is
    /// a request that [`TracingPages::resize()`] cannot serve, see [`resize_refused`]
    pub fn cannot_resize(&self, paddr: u64, size: u64) -> (r: bool)
        requires
            self.wf(),
        ensures
            r == resize_refused(self.view(), paddr, size),
    {
        let ghost v = self.view();
        let n = self.pages.len();
        let mut k: usize = 0;
        while k < n
            invariant
                self.wf(),
                v == self.view(),
                n == v.len(),
                k <= n,
                forall|k2: int| 0 <= k2 < k ==> !(holds(v[k2], paddr) && #[trigger] resize_refused_at(v, paddr, size, k2)),
            decreases n - k,
        {
            proof {
                assert(self.pages@[k as int].wf());
                assert(self.view()[k as int] == self.pages@[k as int].entries());
            }
            if self.pages[k].contains_paddr(paddr) {
                let (unsupported, missing) = page_resize_check(&self.pages[k], paddr, size);
                let refused = if unsupported {
                    true
                } else {
                    match missing {
                        Some(md) => {
                            if k + 1 < n {
                                proof { assert(self.pages@[k + 1].wf()); }
                                self.pages[k + 1].cannot_take(md.lower_paddr(), md.size())
                            } else {
                                false
                            }
                        },
                        None => false,
                    }
                };
                if refused {
                    proof {
                        assert(self.view()[k as int] == self.pages@[k as int].entries());
                        if !unsupported {
                            let md = missing->0;
                            assert(page_resize(v[k as int], paddr, size).0 == Ok::<Reminder, TracingPageError>(Reminder::Negative(md)));
                            assert(v[k + 1] == self.pages@[k + 1].entries());
                        }
                        assert(resize_refused_at(v, paddr, size, k as int));
                    }
                    return true;
                }
            }
            k = k + 1;
        }
        false
    }

    /// Checks whether removing `size` Bytes from `paddr` is a request that the
    /// page holding the address cannot serve, see [`remove_refused`]
    pub fn cannot_remove_space(&self, paddr: u64, size: u64) -> (r: bool)
        requires
            self.wf(),
        ensures
            r == remove_refused(self.view(), paddr, size),
    {
        let ghost v = self.view();
        let n = self.pages.len();
        let mut k: usize = 0;
        while k < n
            invariant
                self.wf(),
                v == self.view(),
                n == v.len(),
                k <= n,
                forall|k2: int| #![trigger v[k2]] 0 <= k2 < k ==> !holds_strict(v[k2], paddr),
            decreases n - k,
        {
            proof { assert(self.pages@[k as int].wf()); }
            if self.pages[k].contains_paddr_strict(paddr) {
                proof {
                    assert(is_holding_page(v, paddr, k as int));
                    lemma_holding_page_unique(v, paddr, k as int);
                    assert(v[k as int] == self.pages@[k as int].entries());
                }
                return self.pages[k].cannot_remove(paddr, size);
            }
            k = k + 1;
        }
        proof {
            assert forall|c: int| !is_holding_page(v, paddr, c) by {
                if 0 <= c < v.len() {
                    assert(!holds_strict(v[c], paddr));
                }
            }
        }
        false
    }

    /// Drops the space taken by the allocation starting at `paddr`, marking its
    /// entry as free and merging it with its free neighbours, then merges the
    /// pages
    ///
    /// Returns an [`Err`] if no page holds the address or if freeing fails.
    pub fn drop_occupied_space(&mut self, paddr: u64) -> (r: Result<(), PagingError>)
        requires
            old(self).wf(),
        ensures
            (r, final(self).view()) == drop_outcome(old(self).view(), paddr),
            final(self).wf(),
            pages_normalized(old(self).view()) ==> pages_normalized(final(self).view()),
    {
        let ghost v = self.view();
        proof {
            if pages_normalized(v) {
                assert forall|j: int| #![trigger v[j]] 0 <= j < v.len() implies entries_ok(v[j]) by {
                    assert(self.pages@[j].wf());
                }
                lemma_drop_outcome_normalized(v, paddr);
            }
        }
        let n = self.pages.len();
        let mut k: usize = 0;
        while k < n
            invariant
                self.pages@.len() == n,
                v.len() == n,
                v == self.view(),
                v == old(self).view(),
                self.wf(),
                *self == *old(self),
                k <= n,
                forall|k2: int| #![trigger v[k2]] 0 <= k2 < k ==> !holds_strict(v[k2], paddr),
            decreases n - k,
        {
            proof {
                assert(self.pages@[k as int].wf());
                assert(v[k as int] == self.pages@[k as int].entries());
            }
            if self.pages[k].contains_paddr_strict(paddr) {
                let ghost before = self.pages@;
                proof {
                    assert(is_holding_page(v, paddr, k as int));
                    lemma_holding_page_unique(v, paddr, k as int);
                    let s = v[k as int];
                    if has_containing(s, paddr) {
                        lemma_first_containing_exists(s, paddr, choose|j: int| #![trigger s[j]] 0 <= j < s.len() && s[j].spec_contains(paddr));
                        lemma_drop_fits(v, k as int, first_containing(s, paddr));
                    }
                }
                match self.pages[k].drop(paddr) {
                    Ok(_) => {
                        proof {
                            self.lemma_pages_ok_after(before, k as int);
                            assert(self.view() =~= v.update(k as int, page_drop(v[k as int], paddr).1));
                        }
                        return self.merge_tracing_pages();
                    },
                    Err(e) => {
                        proof {
                            assert(self.view() =~= v);
                        }
                        return Err(PagingError::from_page_error(e));
                    },
                }
            }
            k = k + 1;
        }
        proof {
            assert forall|c: int| !is_holding_page(v, paddr, c) by {
                if 0 <= c < v.len() {
                    assert(!holds_strict(v[c], paddr));
                }
            }
        }
        Err(PagingError::from_tracing_error(TracingError::NotFound))
    }

    /// Resizes to `size` Bytes the taken entry starting at `paddr` in the
    /// `k`-th page, returning what must be added to or removed from the next page
    fn resize_at(&mut self, k: usize, paddr: u64, size: u64) -> (r: Result<Reminder, PagingError>)
        requires
            k < old(self).pages@.len(),
            old(self).pages@[k as int].wf(),
            !resize_unsupported(old(self).view()[k as int], paddr, size),
        ensures
            final(self).pages@.len() == old(self).pages@.len(),
            forall|j: int| #![trigger final(self).pages@[j]] 0 <= j < final(self).pages@.len() && j != k
                ==> final(self).pages@[j] == old(self).pages@[j],
            final(self).pages@[k as int].wf(),
            final(self).view() == old(self).view().update(k as int, page_resize(old(self).view()[k as int], paddr, size).1),
            page_resize(old(self).view()[k as int], paddr, size).0 matches Err(e)
                ==> r == Err::<Reminder, PagingError>(PagingError::TracingError(TracingError::TracingPageError(e))),
            page_resize(old(self).view()[k as int], paddr, size).0 matches Ok(rr) ==> r == Ok::<Reminder, PagingError>(rr),
            pages_normalized(old(self).view()) ==> pages_normalized(final(self).view()),
    {
        let ghost w = self.view();
        proof {
            let s = w[k as int];
            assert(s == self.pages@[k as int].entries());
            if has_containing(s, paddr) {
                lemma_first_containing_exists(s, paddr, choose|j: int| #![trigger s[j]] 0 <= j < s.len() && s[j].spec_contains(paddr));
            }
            if pages_normalized(w) {
                assert(normalized(s));
                if has_containing(s, paddr) {
                    let i = first_containing(s, paddr);
                    if s[i].paddr == paddr && !s[i].spec_is_free() {
                        lemma_entry_resize_normalized(s, i, size);
                    }
                }
                lemma_replace_page_normalized(w, k as int, page_resize(s, paddr, size).1);
            }
        }
        let r = self.pages[k].resize(paddr, size);
        proof {
            assert(self.view() =~= w.update(k as int, page_resize(w[k as int], paddr, size).1));
        }
        match r {
            Ok(rr) => Ok(rr),
            Err(e) => Err(PagingError::from_page_error(e)),
        }
    }

    /// Resizes the taken entry starting at `paddr` to `size` Bytes
    ///
    /// The entry is looked for in the first page whose range of addresses holds
    /// `paddr`. A part released beyond a full page is pushed in front of the
    /// next page; a part that the last entry of a full page grows into is taken
    /// from the next page. The pages are merged when the page alone served the
    /// request. Returns an [`Err`] if no page holds the entry or if resizing fails.
    #[verifier::rlimit(100)]
    pub fn resize(&mut self, paddr: u64, size: u64) -> (r: Result<(), PagingError>)
        requires
            old(self).wf(),
            !resize_refused(old(self).view(), paddr, size),
        ensures
            (r, final(self).view()) == resize_from(old(self).view(), paddr, size, 0, false, None, Reminder::Zero),
            final(self).pages_ok(),
            !resize_grows_over(old(self).view(), paddr, size) ==> final(self).wf(),
            pages_normalized(old(self).view()) ==> pages_normalized(final(self).view()),
    {
        let ghost v = self.view();
        let n = self.pages.len();
        let mut found = false;
        let mut carry: Option<Metadata> = None;
        let mut rem = Reminder::zero();
        let mut k: usize = 0;
        while k < n
            invariant
                self.pages@.len() == n,
                v.len() == n,
                v == old(self).view(),
                old(self).wf(),
                self.pages_ok(),
                k <= n,
                !resize_refused(v, paddr, size),
                resize_from(v, paddr, size, 0, false, None, Reminder::Zero)
                    == resize_from(self.view(), paddr, size, k as int, found, carry, rem),
                forall|j: int| #![trigger self.view()[j]] k <= j < n ==> self.view()[j] == v[j],
                !(rem is Negative) ==> pages_sorted(self.view()),
                carry is Some ==> rem is Zero,
                carry matches Some(c) ==> carry_fits(self.view(), k as int, c),
                rem matches Reminder::Positive(md) ==> carry_fits(self.view(), k as int, md),
                rem matches Reminder::Negative(md) ==> k >= 1 && holds(v[k - 1], paddr)
                    && page_resize(v[k - 1], paddr, size).0 == Ok::<Reminder, TracingPageError>(Reminder::Negative(md)),
                all_entries_ok(self.view()),
                pages_normalized(v) ==> pages_normalized(self.view()),
            decreases n - k,
        {
            let ghost before = self.pages@;
            let ghost w = self.view();
            proof {
                assert(self.pages@[k as int].wf());
                assert(w[k as int] == self.pages@[k as int].entries());
                assert(w[k as int] == v[k as int]);
                assert forall|j: int| #![trigger w[j]] 0 <= j < w.len() implies entries_ok(w[j]) by {
                    assert(self.pages@[j].wf());
                }
            }
            if let Some(m) = carry {
                proof { lemma_push_step(w, k as int, m); }
                carry = self.push_carry(k, m)?;
                proof { self.lemma_pages_ok_after(before, k as int); }
            } else if !rem.is_zero() {
                match rem {
                    Reminder::Positive(md) => {
                        proof { lemma_push_step(w, k as int, md); }
                        carry = self.push_carry(k, md)?;
                        proof { self.lemma_pages_ok_after(before, k as int); }
                        if carry.is_none() {
                            return Ok(());
                        }
                        rem = Reminder::zero();
                    },
                    Reminder::Negative(md) => {
                        proof {
                            assert(!resize_refused_at(v, paddr, size, k - 1));
                        }
                        let _ = self.take_at(k, md.lower_paddr(), md.size())?;
                        proof { self.lemma_pages_ok_after(before, k as int); }
                        return Ok(());
                    },
                    Reminder::Zero => {
                        return Err(PagingError::from_tracing_error(TracingError::InternalFailure));
                    },
                }
            } else if self.pages[k].contains_paddr(paddr) {
                proof {
                    assert(holds(v[k as int], paddr));
                    assert(!resize_refused_at(v, paddr, size, k as int));
                    if !(page_resize(v[k as int], paddr, size).0 matches Ok(Reminder::Negative(_))) {
                        lemma_resize_fits(w, k as int, paddr, size);
                    }
                }
                found = true;
                rem = self.resize_at(k, paddr, size)?;
                proof { self.lemma_pages_ok_after(before, k as int); }
                if rem.is_zero() {
                    let ghost w2 = self.view();
                    proof {
                        assert(resize_from(w, paddr, size, k as int, false, None, Reminder::Zero)
                            == (Ok::<(), PagingError>(()), merge_upto(w2, w2.len() as int)));
                    }
                    return self.merge_tracing_pages();
                }
            }
            k = k + 1;
        }
        if !found {
            return Err(PagingError::from_tracing_error(TracingError::NotFound));
        }
        let ghost w = self.view();
        proof {
            if let Reminder::Negative(md) = rem {
                assert(resize_grows_over(v, paddr, size)) by {
                    assert(0 <= k - 1 < v.len() && holds(v[k - 1], paddr));
                }
            }
        }
        if let Some(m) = carry {
            let mut page = TracingPage::new();
            page.append_unchecked(m);
            proof {
                assert(page.entries() =~= seq![m]);
            }
            self.pages.push(page);
            proof {
                assert(self.view() =~= w.push(seq![m]));
                lemma_new_page_sorted(w, m);
                if pages_normalized(w) {
                    let u = self.view();
                    assert forall|j: int| 0 <= j < u.len() implies normalized(#[trigger] u[j]) by {
                        if j < w.len() {
                            assert(u[j] == w[j]);
                        } else {
                            assert(u[j] =~= seq![m]);
                        }
                    }
                }
            }
        }
        Ok(())
    }
}

} // verus!
