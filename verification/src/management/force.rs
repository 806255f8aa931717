//! Inserting pages with the frames that the memory map finds for them, and
//! creating the tables they need when no table has room for them.

use vstd::prelude::*;
use crate::allocations::{AllocationsIterator, masks_ok};
use crate::bitmap::{AddressMasks, Bitmap, PS_BIT, P_BIT, RW_BIT};
use crate::errors::PagingError;
use crate::indexers::LIMIT_ENTRY_OFFSET;
use crate::management::insert::{insert_table, insert_table_into, insert_pages_into, table_insertion, table_insertion_into,
    pages_insertion, pages_entry};
use crate::management::map::{MapRequest, MapAnswer, begins, records, follows, lemma_begins_trans, lemma_follows_trans, ask_map};
use crate::memory::MemoryOwner;
use crate::page::{PageType, page_size_of};
use crate::physmem::PhysicalMemory;
use crate::search::{find_pages_slots, pages_slots};
use crate::table::PageTable;
use crate::table_type::{PageTableType, parent_of, table_of_page};
use crate::tracing::metadata::{Info, Metadata};
use crate::tracing::pages::{TracingPages, insert_refused};
use crate::tracing::tables::{page_creation, page_created};

verus! {

/// The state of an insertion: the memory, the tracing pages and the requests
/// made to the memory map so far
pub type GrowState = (Map<u64, u64>, Seq<Seq<Metadata>>, Seq<MapRequest>);

/// Makes the request `q`, whose answer is the next one of `ans`
pub open spec fn request(st: GrowState, ans: Seq<MapAnswer>, q: MapRequest) -> (MapAnswer, GrowState) {
    (ans[st.2.len() as int], (st.0, st.1, st.2.push(q)))
}

/// The address of a frame for a table found by the memory map, if the table
/// fits below the end of the address space
pub open spec fn table_frame(a: MapAnswer) -> Option<u64> {
    match a {
        MapAnswer::Found(p) => if p + LIMIT_ENTRY_OFFSET <= u64::MAX { Some(p) } else { None },
        _ => None,
    }
}

/// The outcome of inserting a table of type `t`: a frame is asked for, the
/// table is inserted in the first free slot of a parent table, then its frame
/// is taken; the result and the state
pub open spec fn table_from_map(t: PageTableType, flags: u64, pml4t: PageTable, st: GrowState, ans: Seq<MapAnswer>, masks: AddressMasks)
    -> (Result<Option<AllocationsIterator>, PagingError>, GrowState)
{
    let (a, st1) = request(st, ans, MapRequest::FindAvailable(PageType::FourKiB));
    let p = table_frame(a);
    let (r, m2) = table_insertion(t, flags, p, pml4t, st1.0, masks);
    match r {
        Ok(Some(it)) => {
            let (a2, st2) = request((m2, st1.1, st1.2), ans, MapRequest::Acquire(p.unwrap(), PageType::FourKiB));
            if a2 == MapAnswer::Yes { (Ok(Some(it)), st2) } else { (Err(PagingError::AllocationFailure), st2) }
        },
        _ => (r, (m2, st1.1, st1.2)),
    }
}

/// The outcome of inserting a table of type `t` in the next slot of `it`, as
/// [`table_from_map`] does
pub open spec fn table_into_from_map(it: AllocationsIterator, t: PageTableType, flags: u64, pml4t: PageTable, st: GrowState,
    ans: Seq<MapAnswer>, masks: AddressMasks) -> (Result<Option<AllocationsIterator>, PagingError>, GrowState)
{
    let (a, st1) = request(st, ans, MapRequest::FindAvailable(PageType::FourKiB));
    let p = table_frame(a);
    let (r, m2) = table_insertion_into(it, t, flags, p, pml4t, st1.0, masks);
    match r {
        Ok(Some(it2)) => {
            let (a2, st2) = request((m2, st1.1, st1.2), ans, MapRequest::Acquire(p.unwrap(), PageType::FourKiB));
            if a2 == MapAnswer::Yes { (Ok(Some(it2)), st2) } else { (Err(PagingError::AllocationFailure), st2) }
        },
        _ => (r, (m2, st1.1, st1.2)),
    }
}

/// The depth of a table type, from the PML4T down
pub open spec fn depth(t: PageTableType) -> nat {
    match t {
        PageTableType::PageMapLevel4Table => 0,
        PageTableType::PageDirectoryPointerTable => 1,
        PageTableType::PageDirectoryTable => 2,
        PageTableType::PageTable => 3,
    }
}

/// The outcome of inserting a table of type `t`, creating its parent tables
/// first when no parent table has a free slot: nothing when the PML4T would
/// have to be created; the result and the state
pub open spec fn parent_insertion(t: PageTableType, flags: u64, pml4t: PageTable, st: GrowState, ans: Seq<MapAnswer>, masks: AddressMasks)
    -> (Result<Option<AllocationsIterator>, PagingError>, GrowState)
    decreases depth(t),
{
    if t == PageTableType::PageMapLevel4Table {
        (Ok(None), st)
    } else {
        let (r, st1) = table_from_map(t, flags, pml4t, st, ans, masks);
        match r {
            Ok(None) => {
                let g = parent_of(t).unwrap();
                let (r2, st2) = parent_insertion(g, flags, pml4t, st1, ans, masks);
                match r2 {
                    Ok(Some(git)) => if git is Pt {
                        (Err(PagingError::InternalFailure), st2)
                    } else {
                        table_into_from_map(git, t, flags, pml4t, st2, ans, masks)
                    },
                    _ => (r2, st2),
                }
            },
            _ => (r, st1),
        }
    }
}

/// The pages fit in the address space and the tracing pages can take them
pub open spec fn pages_accepted(it: AllocationsIterator, b: u64, page_type: PageType, n_pages: u64, tv: Seq<Seq<Metadata>>) -> bool {
    &&& b + page_size_of(page_type) * n_pages <= u64::MAX
    &&& it.spec_build_laddr(0) + page_size_of(page_type) * n_pages <= u64::MAX
    &&& !insert_refused(tv, pages_entry(b, it.spec_build_laddr(0), page_type, n_pages))
}

/// The outcome of inserting `n_pages` pages in the next slots of `it`: the
/// frames are asked for and taken, then the pages are inserted; frames that
/// the address space or the tracing pages cannot take give an internal
/// failure. When the tracing pages need a new page for the space, a tracing
/// page is created as [`page_creation`] says; if that fails, the new page is
/// not kept and its error is the result. The result and the state
pub open spec fn pages_from_map(it: AllocationsIterator, page_type: PageType, n_pages: u64, flags: u64, pml4t: PageTable,
    st: GrowState, ans: Seq<MapAnswer>, masks: AddressMasks) -> (Result<(u64, u64), PagingError>, GrowState)
{
    let (a, st1) = request(st, ans, MapRequest::FindRange(page_type, n_pages));
    match a {
        MapAnswer::Found(b) => {
            let (a2, st2) = request(st1, ans, MapRequest::AcquireRange(b, page_type, n_pages));
            if a2 != MapAnswer::Yes {
                (Err(PagingError::AllocationFailure), st2)
            } else if !pages_accepted(it, b, page_type, n_pages, st2.1) {
                (Err(PagingError::InternalFailure), st2)
            } else {
                let (r, m, tv) = pages_insertion(it, page_type, n_pages, flags, Some(b), st2.0, masks, st2.1);
                if tv.len() > st2.1.len() {
                    let (c, st3) = page_creation(pml4t, (m, st2.2), ans, masks);
                    match c {
                        Ok(_) => (r, (st3.0, tv, st3.1)),
                        Err(e) => (Err(e), (st3.0, tv.take(st2.1.len() as int), st3.1)),
                    }
                } else {
                    (r, (m, tv, st2.2))
                }
            }
        },
        _ => (Err(PagingError::NoSpaceAvailable), st1),
    }
}

/// The outcome of inserting `n_pages` pages in the first slots found for
/// them: nothing when there are none; the result and the state
pub open spec fn pages_placed(page_type: PageType, n_pages: u64, flags: u64, pml4t: PageTable, st: GrowState,
    ans: Seq<MapAnswer>, masks: AddressMasks) -> (Result<Option<(u64, u64)>, PagingError>, GrowState)
{
    match pages_slots(page_type, n_pages, pml4t, st.0, masks) {
        Some(it) => {
            let (r, st1) = pages_from_map(it, page_type, n_pages, flags, pml4t, st, ans, masks);
            match r {
                Ok(a) => (Ok(Some(a)), st1),
                Err(e) => (Err(e), st1),
            }
        },
        None => (Ok(None), st),
    }
}

/// The outcome of inserting `n_pages` pages, creating a table for them when
/// no table has room for them; the result and the state
pub open spec fn pages_forced(page_type: PageType, n_pages: u64, flags: u64, pml4t: PageTable, st: GrowState,
    ans: Seq<MapAnswer>, masks: AddressMasks) -> (Result<(u64, u64), PagingError>, GrowState)
{
    let (r, st1) = pages_placed(page_type, n_pages, flags, pml4t, st, ans, masks);
    match r {
        Err(e) => (Err(e), st1),
        Ok(Some(a)) => (Ok(a), st1),
        Ok(None) => {
            let (r2, st2) = parent_insertion(table_of_page(page_type), flags & !PS_BIT, pml4t, st1, ans, masks);
            match r2 {
                Err(e) => (Err(e), st2),
                Ok(Some(it)) => pages_from_map(it, page_type, n_pages, flags, pml4t, st2, ans, masks),
                Ok(None) => (Err(PagingError::NoSlotAvailable), st2),
            }
        },
    }
}

/// The address of a frame for a table, as [`table_frame`] says
fn frame_of(a: MapAnswer) -> (r: Option<u64>)
    ensures
        r == table_frame(a),
{
    match a {
        MapAnswer::Found(p) => if p <= u64::MAX - LIMIT_ENTRY_OFFSET { Some(p) } else { None },
        _ => None,
    }
}

/// Inserts a table of type `t`, as [`table_from_map`] says
fn table_with_map<F: Fn(MapRequest) -> MapAnswer>(
    t: PageTableType,
    flags: Bitmap,
    pml4t: PageTable,
    mem: &mut PhysicalMemory,
    masks: &AddressMasks,
    map: &F,
    Ghost(hist): Ghost<Seq<MapAnswer>>,
    Ghost(reqs): Ghost<Seq<MapRequest>>,
) -> (r: (Result<Option<AllocationsIterator>, PagingError>, Ghost<Seq<MapAnswer>>, Ghost<Seq<MapRequest>>))
    requires
        pml4t.table_type == PageTableType::PageMapLevel4Table,
        pml4t.fits(),
        masks_ok(*masks),
        forall|q: MapRequest| map.requires((q,)),
        records(map, hist, reqs),
    ensures
        records(map, r.1@, r.2@),
        follows(hist, reqs, r.1@, r.2@),
        r.0 matches Ok(Some(it)) ==> it.wf(),
        forall|ans: Seq<MapAnswer>, tv: Seq<Seq<Metadata>>| #![trigger begins(r.1@, ans), table_from_map(t, flags@, pml4t, (old(mem).view(), tv, reqs), ans, *masks)]
            begins(r.1@, ans) ==>
            table_from_map(t, flags@, pml4t, (old(mem).view(), tv, reqs), ans, *masks) == (r.0, (final(mem).view(), tv, r.2@)),
{
    let (a, g1, g2) = ask_map(map, MapRequest::FindAvailable(PageType::FourKiB), Ghost(hist), Ghost(reqs));
    proof { assert(g1@[hist.len() as int] == a); }
    let p = frame_of(a);
    let r = insert_table(t, flags, p, pml4t, mem, masks);
    match (r, p) {
        (Ok(Some(it)), Some(pp)) => {
            let (a2, g3, g4) = ask_map(map, MapRequest::Acquire(pp, PageType::FourKiB), g1, g2);
            proof {
                assert(g3@[hist.len() as int] == a);
                assert(g3@[g1@.len() as int] == a2);
                lemma_follows_trans(hist, reqs, g1@, g2@, g3@, g4@);
            }
            if a2 == MapAnswer::Yes {
                (Ok(Some(it)), g3, g4)
            } else {
                (Err(PagingError::AllocationFailure), g3, g4)
            }
        },
        _ => (r, g1, g2),
    }
}

/// Inserts a table of type `t` in the next slot of `it`, as
/// [`table_into_from_map`] says
fn table_into_with_map<F: Fn(MapRequest) -> MapAnswer>(
    it: AllocationsIterator,
    t: PageTableType,
    flags: Bitmap,
    pml4t: PageTable,
    mem: &mut PhysicalMemory,
    masks: &AddressMasks,
    map: &F,
    Ghost(hist): Ghost<Seq<MapAnswer>>,
    Ghost(reqs): Ghost<Seq<MapRequest>>,
) -> (r: (Result<Option<AllocationsIterator>, PagingError>, Ghost<Seq<MapAnswer>>, Ghost<Seq<MapRequest>>))
    requires
        pml4t.table_type == PageTableType::PageMapLevel4Table,
        pml4t.fits(),
        masks_ok(*masks),
        it.wf(),
        !(it is Pt),
        forall|q: MapRequest| map.requires((q,)),
        records(map, hist, reqs),
    ensures
        records(map, r.1@, r.2@),
        follows(hist, reqs, r.1@, r.2@),
        r.0 matches Ok(Some(it2)) ==> it2.wf(),
        forall|ans: Seq<MapAnswer>, tv: Seq<Seq<Metadata>>| #![trigger begins(r.1@, ans), table_into_from_map(it, t, flags@, pml4t, (old(mem).view(), tv, reqs), ans, *masks)]
            begins(r.1@, ans) ==>
            table_into_from_map(it, t, flags@, pml4t, (old(mem).view(), tv, reqs), ans, *masks) == (r.0, (final(mem).view(), tv, r.2@)),
{
    let (a, g1, g2) = ask_map(map, MapRequest::FindAvailable(PageType::FourKiB), Ghost(hist), Ghost(reqs));
    proof { assert(g1@[hist.len() as int] == a); }
    let p = frame_of(a);
    let r = insert_table_into(it, t, flags, p, pml4t, mem, masks);
    match (r, p) {
        (Ok(Some(it2)), Some(pp)) => {
            let (a2, g3, g4) = ask_map(map, MapRequest::Acquire(pp, PageType::FourKiB), g1, g2);
            proof {
                assert(g3@[hist.len() as int] == a);
                assert(g3@[g1@.len() as int] == a2);
                lemma_follows_trans(hist, reqs, g1@, g2@, g3@, g4@);
            }
            if a2 == MapAnswer::Yes {
                (Ok(Some(it2)), g3, g4)
            } else {
                (Err(PagingError::AllocationFailure), g3, g4)
            }
        },
        _ => (r, g1, g2),
    }
}

/// Inserts a table of type `parent_table_type`, creating its own parent
/// tables first when no parent table has a free slot for it, as
/// [`parent_insertion`] says
///
/// Stops at the PML4T, which is never created: gives nothing then.
pub fn recursively_insert_parent_table<F: Fn(MapRequest) -> MapAnswer>(
    parent_table_type: PageTableType,
    flags: Bitmap,
    pml4t: PageTable,
    mem: &mut PhysicalMemory,
    masks: &AddressMasks,
    map: &F,
    Ghost(hist): Ghost<Seq<MapAnswer>>,
    Ghost(reqs): Ghost<Seq<MapRequest>>,
) -> (r: (Result<Option<AllocationsIterator>, PagingError>, Ghost<Seq<MapAnswer>>, Ghost<Seq<MapRequest>>))
    requires
        pml4t.table_type == PageTableType::PageMapLevel4Table,
        pml4t.fits(),
        masks_ok(*masks),
        forall|q: MapRequest| map.requires((q,)),
        records(map, hist, reqs),
    ensures
        records(map, r.1@, r.2@),
        follows(hist, reqs, r.1@, r.2@),
        r.0 matches Ok(Some(it)) ==> it.wf(),
        forall|ans: Seq<MapAnswer>, tv: Seq<Seq<Metadata>>| #![trigger begins(r.1@, ans), parent_insertion(parent_table_type, flags@, pml4t, (old(mem).view(), tv, reqs), ans, *masks)]
            begins(r.1@, ans) ==>
            parent_insertion(parent_table_type, flags@, pml4t, (old(mem).view(), tv, reqs), ans, *masks) == (r.0, (final(mem).view(), tv, r.2@)),
    decreases depth(parent_table_type),
{
    if parent_table_type == PageTableType::PageMapLevel4Table {
        return (Ok(None), Ghost(hist), Ghost(reqs));
    }
    let ghost m0 = mem.view();
    let (r, g1, g2) = table_with_map(parent_table_type, flags, pml4t, mem, masks, map, Ghost(hist), Ghost(reqs));
    match r {
        Ok(None) => {
            let grand = parent_table_type.parent_table_type_or_panic();
            let ghost m1 = mem.view();
            let (r2, g3, g4) = recursively_insert_parent_table(grand, flags, pml4t, mem, masks, map, g1, g2);
            proof { lemma_follows_trans(hist, reqs, g1@, g2@, g3@, g4@); }
            let ghost m2 = mem.view();
            match r2 {
                Ok(Some(git)) => {
                    let is_pt = match git {
                        AllocationsIterator::Pt(_) => true,
                        _ => false,
                    };
                    if is_pt {
                        proof {
                            assert forall|ans: Seq<MapAnswer>, tv: Seq<Seq<Metadata>>| #![trigger begins(g3@, ans), parent_insertion(parent_table_type, flags@, pml4t, (m0, tv, reqs), ans, *masks)]
                                begins(g3@, ans) implies
                                parent_insertion(parent_table_type, flags@, pml4t, (m0, tv, reqs), ans, *masks)
                                    == (Err::<Option<AllocationsIterator>, PagingError>(PagingError::InternalFailure), (m2, tv, g4@)) by {
                                lemma_begins_trans(g1@, g3@, ans);
                                assert(table_from_map(parent_table_type, flags@, pml4t, (m0, tv, reqs), ans, *masks) == (r, (m1, tv, g2@)));
                                assert(parent_insertion(grand, flags@, pml4t, (m1, tv, g2@), ans, *masks) == (r2, (m2, tv, g4@)));
                            }
                        }
                        return (Err(PagingError::InternalFailure), g3, g4);
                    }
                    let (r3, g5, g6) = table_into_with_map(git, parent_table_type, flags, pml4t, mem, masks, map, g3, g4);
                    proof {
                        lemma_follows_trans(hist, reqs, g3@, g4@, g5@, g6@);
                        lemma_follows_trans(g1@, g2@, g3@, g4@, g5@, g6@);
                        assert forall|ans: Seq<MapAnswer>, tv: Seq<Seq<Metadata>>| #![trigger begins(g5@, ans), parent_insertion(parent_table_type, flags@, pml4t, (m0, tv, reqs), ans, *masks)]
                            begins(g5@, ans) implies
                            parent_insertion(parent_table_type, flags@, pml4t, (m0, tv, reqs), ans, *masks)
                                == (r3, (mem.view(), tv, g6@)) by {
                            lemma_begins_trans(g3@, g5@, ans);
                            lemma_begins_trans(g1@, g3@, ans);
                            assert(table_from_map(parent_table_type, flags@, pml4t, (m0, tv, reqs), ans, *masks) == (r, (m1, tv, g2@)));
                            assert(parent_insertion(grand, flags@, pml4t, (m1, tv, g2@), ans, *masks) == (r2, (m2, tv, g4@)));
                            assert(table_into_from_map(git, parent_table_type, flags@, pml4t, (m2, tv, g4@), ans, *masks) == (r3, (mem.view(), tv, g6@)));
                        }
                    }
                    (r3, g5, g6)
                },
                _ => {
                    proof {
                        assert forall|ans: Seq<MapAnswer>, tv: Seq<Seq<Metadata>>| #![trigger begins(g3@, ans), parent_insertion(parent_table_type, flags@, pml4t, (m0, tv, reqs), ans, *masks)]
                            begins(g3@, ans) implies
                            parent_insertion(parent_table_type, flags@, pml4t, (m0, tv, reqs), ans, *masks) == (r2, (m2, tv, g4@)) by {
                            lemma_begins_trans(g1@, g3@, ans);
                            assert(table_from_map(parent_table_type, flags@, pml4t, (m0, tv, reqs), ans, *masks) == (r, (m1, tv, g2@)));
                            assert(parent_insertion(grand, flags@, pml4t, (m1, tv, g2@), ans, *masks) == (r2, (m2, tv, g4@)));
                        }
                    }
                    (r2, g3, g4)
                },
            }
        },
        _ => {
            proof {
                assert forall|ans: Seq<MapAnswer>, tv: Seq<Seq<Metadata>>| #![trigger begins(g1@, ans), parent_insertion(parent_table_type, flags@, pml4t, (m0, tv, reqs), ans, *masks)]
                    begins(g1@, ans) implies
                    parent_insertion(parent_table_type, flags@, pml4t, (m0, tv, reqs), ans, *masks) == (r, (mem.view(), tv, g2@)) by {
                    assert(table_from_map(parent_table_type, flags@, pml4t, (m0, tv, reqs), ans, *masks) == (r, (mem.view(), tv, g2@)));
                }
            }
            (r, g1, g2)
        },
    }
}

/// Inserts `n_pages` pages in the next slots of `it`, as [`pages_from_map`] says
fn pages_with_map<F: Fn(MapRequest) -> MapAnswer>(
    it: AllocationsIterator,
    page_type: PageType,
    n_pages: u64,
    flags: Bitmap,
    pml4t: PageTable,
    mem: &mut PhysicalMemory,
    masks: &AddressMasks,
    tracing: &mut TracingPages,
    map: &F,
    Ghost(hist): Ghost<Seq<MapAnswer>>,
    Ghost(reqs): Ghost<Seq<MapRequest>>,
) -> (r: (Result<(u64, u64), PagingError>, Ghost<Seq<MapAnswer>>, Ghost<Seq<MapRequest>>))
    requires
        it.wf(),
        masks_ok(*masks),
        n_pages > 0,
        old(tracing).wf(),
        pml4t.fits(),
        page_size_of(page_type) * n_pages <= u64::MAX,
        forall|q: MapRequest| map.requires((q,)),
        records(map, hist, reqs),
    ensures
        records(map, r.1@, r.2@),
        follows(hist, reqs, r.1@, r.2@),
        forall|ans: Seq<MapAnswer>| #![trigger begins(r.1@, ans)] begins(r.1@, ans) ==>
            pages_from_map(it, page_type, n_pages, flags@, pml4t, (old(mem).view(), old(tracing).view(), reqs), ans, *masks)
                == (r.0, (final(mem).view(), final(tracing).view(), r.2@)),
{
    let (a, g1, g2) = ask_map(map, MapRequest::FindRange(page_type, n_pages), Ghost(hist), Ghost(reqs));
    proof { assert(g1@[hist.len() as int] == a); }
    match a {
        MapAnswer::Found(b) => {
            let (a2, g3, g4) = ask_map(map, MapRequest::AcquireRange(b, page_type, n_pages), g1, g2);
            proof {
                assert(g3@[hist.len() as int] == a);
                assert(g3@[g1@.len() as int] == a2);
                lemma_follows_trans(hist, reqs, g1@, g2@, g3@, g4@);
            }
            if a2 != MapAnswer::Yes {
                return (Err(PagingError::AllocationFailure), g3, g4);
            }
            let total = page_type.size() * n_pages;
            let laddr = it.build_laddr(0);
            if b > u64::MAX - total || laddr > u64::MAX - total {
                return (Err(PagingError::InternalFailure), g3, g4);
            }
            let md = Metadata { paddr: b, laddr, info: Info::Free(total) };
            proof { assert(md == pages_entry(b, laddr, page_type, n_pages)); }
            if tracing.cannot_insert_entry(&md) {
                return (Err(PagingError::InternalFailure), g3, g4);
            }
            let n0 = tracing.pages.len();
            let r = insert_pages_into(it, page_type, n_pages, flags, Some(b), pml4t, mem, masks, tracing);
            if tracing.pages.len() > n0 {
                let (c, g5, g6) = page_created(pml4t, mem, masks, map, g3, g4);
                proof {
                    lemma_follows_trans(hist, reqs, g3@, g4@, g5@, g6@);
                    assert forall|ans: Seq<MapAnswer>| #![trigger begins(g5@, ans)] begins(g5@, ans) implies begins(g3@, ans) by {
                        lemma_begins_trans(g3@, g5@, ans);
                    }
                }
                match c {
                    Ok(_) => (r, g5, g6),
                    Err(e) => {
                        tracing.keep_first_pages(n0);
                        (Err(e), g5, g6)
                    },
                }
            } else {
                (r, g3, g4)
            }
        },
        _ => (Err(PagingError::NoSpaceAvailable), g1, g2),
    }
}

/// Inserts `n_pages` pages in the first slots found for them, as
/// [`pages_placed`] says
fn place_pages<F: Fn(MapRequest) -> MapAnswer>(
    page_type: PageType,
    n_pages: u64,
    flags: Bitmap,
    pml4t: PageTable,
    mem: &mut PhysicalMemory,
    masks: &AddressMasks,
    tracing: &mut TracingPages,
    map: &F,
    Ghost(hist): Ghost<Seq<MapAnswer>>,
    Ghost(reqs): Ghost<Seq<MapRequest>>,
) -> (r: (Result<Option<(u64, u64)>, PagingError>, Ghost<Seq<MapAnswer>>, Ghost<Seq<MapRequest>>))
    requires
        pml4t.table_type == PageTableType::PageMapLevel4Table,
        pml4t.fits(),
        masks_ok(*masks),
        n_pages > 0,
        old(tracing).wf(),
        page_size_of(page_type) * n_pages <= u64::MAX,
        forall|q: MapRequest| map.requires((q,)),
        records(map, hist, reqs),
    ensures
        records(map, r.1@, r.2@),
        follows(hist, reqs, r.1@, r.2@),
        r.0 matches Ok(None) ==> *final(tracing) == *old(tracing),
        forall|ans: Seq<MapAnswer>| #![trigger begins(r.1@, ans)] begins(r.1@, ans) ==>
            pages_placed(page_type, n_pages, flags@, pml4t, (old(mem).view(), old(tracing).view(), reqs), ans, *masks)
                == (r.0, (final(mem).view(), final(tracing).view(), r.2@)),
{
    match find_pages_slots(page_type, n_pages, pml4t, mem, masks) {
        Some(it) => {
            let (r, g1, g2) = pages_with_map(it, page_type, n_pages, flags, pml4t, mem, masks, tracing, map, Ghost(hist), Ghost(reqs));
            match r {
                Ok(a) => (Ok(Some(a)), g1, g2),
                Err(e) => (Err(e), g1, g2),
            }
        },
        None => (Ok(None), Ghost(hist), Ghost(reqs)),
    }
}

/// Inserts `n_pages` pages, creating a table for them when no table has
/// room for them, as [`pages_forced`] says
fn force_pages<F: Fn(MapRequest) -> MapAnswer>(
    page_type: PageType,
    n_pages: u64,
    flags: Bitmap,
    pml4t: PageTable,
    mem: &mut PhysicalMemory,
    masks: &AddressMasks,
    tracing: &mut TracingPages,
    map: &F,
    Ghost(hist): Ghost<Seq<MapAnswer>>,
    Ghost(reqs): Ghost<Seq<MapRequest>>,
) -> (r: (Result<(u64, u64), PagingError>, Ghost<Seq<MapAnswer>>, Ghost<Seq<MapRequest>>))
    requires
        pml4t.table_type == PageTableType::PageMapLevel4Table,
        pml4t.fits(),
        masks_ok(*masks),
        n_pages > 0,
        old(tracing).wf(),
        page_size_of(page_type) * n_pages <= u64::MAX,
        forall|q: MapRequest| map.requires((q,)),
        records(map, hist, reqs),
    ensures
        records(map, r.1@, r.2@),
        follows(hist, reqs, r.1@, r.2@),
        forall|ans: Seq<MapAnswer>| #![trigger begins(r.1@, ans)] begins(r.1@, ans) ==>
            pages_forced(page_type, n_pages, flags@, pml4t, (old(mem).view(), old(tracing).view(), reqs), ans, *masks)
                == (r.0, (final(mem).view(), final(tracing).view(), r.2@)),
{
    let ghost m0 = mem.view();
    let ghost t0 = tracing.view();
    let (r, g1, g2) = place_pages(page_type, n_pages, flags, pml4t, mem, masks, tracing, map, Ghost(hist), Ghost(reqs));
    match r {
        Err(e) => (Err(e), g1, g2),
        Ok(Some(a)) => (Ok(a), g1, g2),
        Ok(None) => {
            let ghost m1 = mem.view();
            let parent_flags = flags.without_bits(PS_BIT);
            let parent_type = PageTableType::from_page_type(page_type);
            let (r2, g3, g4) = recursively_insert_parent_table(parent_type, parent_flags, pml4t, mem, masks, map, g1, g2);
            let ghost m2 = mem.view();
            proof { lemma_follows_trans(hist, reqs, g1@, g2@, g3@, g4@); }
            match r2 {
                Ok(Some(it)) => {
                    let (r3, g5, g6) = pages_with_map(it, page_type, n_pages, flags, pml4t, mem, masks, tracing, map, g3, g4);
                    proof {
                        lemma_follows_trans(hist, reqs, g3@, g4@, g5@, g6@);
                        lemma_follows_trans(g1@, g2@, g3@, g4@, g5@, g6@);
                        assert forall|ans: Seq<MapAnswer>| #![trigger begins(g5@, ans)] begins(g5@, ans) implies
                            pages_forced(page_type, n_pages, flags@, pml4t, (m0, t0, reqs), ans, *masks)
                                == (r3, (mem.view(), tracing.view(), g6@)) by {
                            lemma_begins_trans(g3@, g5@, ans);
                            lemma_begins_trans(g1@, g3@, ans);
                            assert(pages_placed(page_type, n_pages, flags@, pml4t, (m0, t0, reqs), ans, *masks) == (r, (m1, t0, g2@)));
                            assert(parent_insertion(parent_type, parent_flags@, pml4t, (m1, t0, g2@), ans, *masks) == (r2, (m2, t0, g4@)));
                        }
                    }
                    (r3, g5, g6)
                },
                Ok(None) => {
                    proof {
                        assert forall|ans: Seq<MapAnswer>| #![trigger begins(g3@, ans)] begins(g3@, ans) implies
                            pages_forced(page_type, n_pages, flags@, pml4t, (m0, t0, reqs), ans, *masks)
                                == (Err::<(u64, u64), PagingError>(PagingError::NoSlotAvailable), (mem.view(), tracing.view(), g4@)) by {
                            lemma_begins_trans(g1@, g3@, ans);
                            assert(pages_placed(page_type, n_pages, flags@, pml4t, (m0, t0, reqs), ans, *masks) == (r, (m1, t0, g2@)));
                            assert(parent_insertion(parent_type, parent_flags@, pml4t, (m1, t0, g2@), ans, *masks) == (r2, (m2, t0, g4@)));
                        }
                    }
                    (Err(PagingError::NoSlotAvailable), g3, g4)
                },
                Err(e) => {
                    proof {
                        assert forall|ans: Seq<MapAnswer>| #![trigger begins(g3@, ans)] begins(g3@, ans) implies
                            pages_forced(page_type, n_pages, flags@, pml4t, (m0, t0, reqs), ans, *masks)
                                == (Err::<(u64, u64), PagingError>(e), (mem.view(), tracing.view(), g4@)) by {
                            lemma_begins_trans(g1@, g3@, ans);
                            assert(pages_placed(page_type, n_pages, flags@, pml4t, (m0, t0, reqs), ans, *masks) == (r, (m1, t0, g2@)));
                            assert(parent_insertion(parent_type, parent_flags@, pml4t, (m1, t0, g2@), ans, *masks) == (r2, (m2, t0, g4@)));
                        }
                    }
                    (Err(e), g3, g4)
                },
            }
        },
    }
}

/// The insertion of `n_pages` pages in the first slots found for them ended
/// with the result `r`, the memory `mem2` and the tracing pages `tv2`, the
/// memory map having given the answers `ans`, each to its request
pub open spec fn placed_done<F: Fn(MapRequest) -> MapAnswer>(map: &F, page_type: PageType, n_pages: u64, flags: u64,
    pml4t: PageTable, mem: Map<u64, u64>, tv: Seq<Seq<Metadata>>, masks: AddressMasks, ans: Seq<MapAnswer>,
    r: Result<Option<(u64, u64)>, PagingError>, mem2: Map<u64, u64>, tv2: Seq<Seq<Metadata>>) -> bool
{
    let (res, st) = pages_placed(page_type, n_pages, flags, pml4t, (mem, tv, Seq::empty()), ans, masks);
    &&& records(map, ans, st.2)
    &&& res == r
    &&& st.0 == mem2
    &&& st.1 == tv2
}

/// The forced insertion of `n_pages` pages ended with the result `r`, the
/// memory `mem2` and the tracing pages `tv2`, the memory map having given the
/// answers `ans`, each to its request
pub open spec fn forced_done<F: Fn(MapRequest) -> MapAnswer>(map: &F, page_type: PageType, n_pages: u64, flags: u64,
    pml4t: PageTable, mem: Map<u64, u64>, tv: Seq<Seq<Metadata>>, masks: AddressMasks, ans: Seq<MapAnswer>,
    r: Result<(u64, u64), PagingError>, mem2: Map<u64, u64>, tv2: Seq<Seq<Metadata>>) -> bool
{
    let (res, st) = pages_forced(page_type, n_pages, flags, pml4t, (mem, tv, Seq::empty()), ans, masks);
    &&& records(map, ans, st.2)
    &&& res == r
    &&& st.0 == mem2
    &&& st.1 == tv2
}

/// Attempts to create `n_pages` new pages of the given type, in slots that
/// follow each other in a table, at frames that the memory map finds and
/// takes for them, then traces their space as free
///
/// The flags must already hold the *Page Size* bit for huge pages. Returns
/// [`None`] when no table has room for the pages, otherwise the physical and
/// logical addresses of the first page, or the error.
pub fn insert_pages<F: Fn(MapRequest) -> MapAnswer>(
    page_type: PageType,
    n_pages: u64,
    flags: Bitmap,
    pml4t: PageTable,
    mem: &mut PhysicalMemory,
    masks: &AddressMasks,
    tracing: &mut TracingPages,
    map: &F,
) -> (r: Result<Option<(u64, u64)>, PagingError>)
    requires
        pml4t.table_type == PageTableType::PageMapLevel4Table,
        pml4t.fits(),
        masks_ok(*masks),
        n_pages > 0,
        old(tracing).wf(),
        page_size_of(page_type) * n_pages <= u64::MAX,
        forall|q: MapRequest| map.requires((q,)),
    ensures
        exists|ans: Seq<MapAnswer>| placed_done(map, page_type, n_pages, flags@, pml4t, old(mem).view(), old(tracing).view(),
            *masks, ans, r, final(mem).view(), final(tracing).view()),
{
    let (r, g1, g2) = place_pages(page_type, n_pages, flags, pml4t, mem, masks, tracing, map,
        Ghost(Seq::empty()), Ghost(Seq::empty()));
    proof {
        assert(begins(g1@, g1@));
        assert(placed_done(map, page_type, n_pages, flags@, pml4t, old(mem).view(), old(tracing).view(),
            *masks, g1@, r, mem.view(), tracing.view()));
    }
    r
}

/// Attempts to create one page of the given type, as [`insert_pages`] does
pub fn insert_page<F: Fn(MapRequest) -> MapAnswer>(
    page_type: PageType,
    flags: Bitmap,
    pml4t: PageTable,
    mem: &mut PhysicalMemory,
    masks: &AddressMasks,
    tracing: &mut TracingPages,
    map: &F,
) -> (r: Result<Option<(u64, u64)>, PagingError>)
    requires
        pml4t.table_type == PageTableType::PageMapLevel4Table,
        pml4t.fits(),
        masks_ok(*masks),
        old(tracing).wf(),
        forall|q: MapRequest| map.requires((q,)),
    ensures
        exists|ans: Seq<MapAnswer>| placed_done(map, page_type, 1, flags@, pml4t, old(mem).view(), old(tracing).view(),
            *masks, ans, r, final(mem).view(), final(tracing).view()),
{
    insert_pages(page_type, 1, flags, pml4t, mem, masks, tracing, map)
}

/// Creates `n_pages` new pages of the given type as [`insert_pages`] does;
/// when no table has room for them, creates a table for them first, and its
/// parent tables when they have no room for it, with the flags without the
/// *Page Size* bit
///
/// Returns the physical and logical addresses of the first page, or the
/// error; [`PagingError::NoSlotAvailable`] when even the PML4T has no room.
pub fn force_insert_pages<F: Fn(MapRequest) -> MapAnswer>(
    page_type: PageType,
    n_pages: u64,
    flags: Bitmap,
    pml4t: PageTable,
    mem: &mut PhysicalMemory,
    masks: &AddressMasks,
    tracing: &mut TracingPages,
    map: &F,
) -> (r: Result<(u64, u64), PagingError>)
    requires
        pml4t.table_type == PageTableType::PageMapLevel4Table,
        pml4t.fits(),
        masks_ok(*masks),
        n_pages > 0,
        old(tracing).wf(),
        page_size_of(page_type) * n_pages <= u64::MAX,
        forall|q: MapRequest| map.requires((q,)),
    ensures
        exists|ans: Seq<MapAnswer>| forced_done(map, page_type, n_pages, flags@, pml4t, old(mem).view(), old(tracing).view(),
            *masks, ans, r, final(mem).view(), final(tracing).view()),
{
    let (r, g1, g2) = force_pages(page_type, n_pages, flags, pml4t, mem, masks, tracing, map,
        Ghost(Seq::empty()), Ghost(Seq::empty()));
    proof {
        assert(begins(g1@, g1@));
        assert(forced_done(map, page_type, n_pages, flags@, pml4t, old(mem).view(), old(tracing).view(),
            *masks, g1@, r, mem.view(), tracing.view()));
    }
    r
}

/// Books the first page of 2 MiB used to allocate the objects of the kernel,
/// as [`force_insert_pages`] does
pub fn book_kernel_allocations_space<F: Fn(MapRequest) -> MapAnswer>(
    pml4t: PageTable,
    mem: &mut PhysicalMemory,
    masks: &AddressMasks,
    tracing: &mut TracingPages,
    map: &F,
) -> (r: Result<(u64, u64), PagingError>)
    requires
        pml4t.table_type == PageTableType::PageMapLevel4Table,
        pml4t.table_owner == MemoryOwner::Kernel,
        pml4t.fits(),
        masks_ok(*masks),
        old(tracing).wf(),
        forall|q: MapRequest| map.requires((q,)),
    ensures
        exists|ans: Seq<MapAnswer>| forced_done(map, PageType::TwoMiB, 1, (RW_BIT | P_BIT) | PS_BIT, pml4t, old(mem).view(),
            old(tracing).view(), *masks, ans, r, final(mem).view(), final(tracing).view()),
{
    let flags = Bitmap::default_kernel().with_bits(PS_BIT);
    force_insert_pages(PageType::TwoMiB, 1, flags, pml4t, mem, masks, tracing, map)
}

} // verus!
