//! Taking and dropping the space of an allocation, both in the memory map,
//! which keeps track of the physical frames, and in the tracing pages of the
//! owner, which keep track of what is allocated inside the pages.

use vstd::prelude::*;
use crate::errors::PagingError;
use crate::tracing::metadata::Metadata;
use crate::tracing::pages::{TracingPages, take_refused, take_outcome, drop_outcome, normalized, lemma_take_then_drop_space};
use crate::tracing::page::METADATA_ARRAY_SIZE;
use crate::management::map::{MapRequest, MapAnswer, records, ask_map, begins};
use crate::tracing::tables::{page_creation, page_created};
use crate::allocations::masks_ok;
use crate::bitmap::AddressMasks;
use crate::physmem::PhysicalMemory;
use crate::table::PageTable;

verus! {

/// The outcome of taking `size` Bytes at `paddr` for an allocation, from the
/// tracing pages `v` of the owner of the PML4T, in the memory `mem`, given the
/// answers `ans` of the memory map: the result, the tracing pages, the memory
/// and the requests made
///
/// The space is taken in the memory map first. When the tracing pages need a
/// new page to hold what overflows, a tracing page is created for it as
/// [`page_creation`] says; if that fails, the new page is not kept and its
/// error is the result. When the tracing pages fail to take the space, it is
/// dropped from the memory map again.
pub open spec fn taking_outcome(v: Seq<Seq<Metadata>>, paddr: u64, size: u64, pml4t: PageTable, mem: Map<u64, u64>,
    masks: AddressMasks, ans: Seq<MapAnswer>)
    -> (Result<(), PagingError>, Seq<Seq<Metadata>>, Map<u64, u64>, Seq<MapRequest>)
{
    let q0 = MapRequest::TakeSpace(paddr, size);
    let q1 = MapRequest::DropSpace(paddr, size);
    if ans[0] != MapAnswer::Yes {
        (Err(PagingError::InternalFailure), v, mem, seq![q0])
    } else {
        let (res, v2) = take_outcome(v, paddr, size);
        if v2.len() > v.len() {
            let (c, st) = page_creation(pml4t, (mem, seq![q0]), ans, masks);
            match c {
                Ok(_) => match res {
                    Ok(()) => (Ok(()), v2, st.0, st.1),
                    Err(e) => (Err(e), v2, st.0, st.1.push(q1)),
                },
                Err(e) => (Err(e), v2.take(v.len() as int), st.0, st.1.push(q1)),
            }
        } else {
            match res {
                Ok(()) => (Ok(()), v2, mem, seq![q0]),
                Err(e) => (Err(e), v2, mem, seq![q0, q1]),
            }
        }
    }
}

/// The outcome of dropping the allocation at `paddr`, of `size` Bytes, from
/// the tracing pages `v`, given the answers `ans` of the memory map: the
/// result, the tracing pages, and the requests made
///
/// The allocation leaves the tracing pages first; only then is its space
/// dropped from the memory map.
pub open spec fn dropping_outcome(v: Seq<Seq<Metadata>>, paddr: u64, size: u64, ans: Seq<MapAnswer>)
    -> (Result<(), PagingError>, Seq<Seq<Metadata>>, Seq<MapRequest>)
{
    let (res, v2) = drop_outcome(v, paddr);
    match res {
        Err(e) => (Err(e), v2, Seq::empty()),
        Ok(()) => {
            let r = if ans[0] == MapAnswer::Yes { Ok(()) } else { Err(PagingError::InternalFailure) };
            (r, v2, seq![MapRequest::DropSpace(paddr, size)])
        },
    }
}

/// The space was taken as [`taking_outcome`] says for the answers `ans` of
/// the memory map, each to its request: the result `r`, the tracing pages
/// `v2` after `v` and the memory `mem2` after `mem`
pub open spec fn taking_done<F: Fn(MapRequest) -> MapAnswer>(
    map: &F, v: Seq<Seq<Metadata>>, paddr: u64, size: u64, pml4t: PageTable, mem: Map<u64, u64>, masks: AddressMasks,
    ans: Seq<MapAnswer>, r: Result<(), PagingError>, v2: Seq<Seq<Metadata>>, mem2: Map<u64, u64>,
) -> bool {
    let (res, v3, m3, reqs) = taking_outcome(v, paddr, size, pml4t, mem, masks, ans);
    &&& records(map, ans, reqs)
    &&& res == r
    &&& v3 == v2
    &&& m3 == mem2
}

/// The space was dropped as [`dropping_outcome`] says for the answers `ans`
/// of the memory map, each to its request: the result `r`, and the tracing
/// pages `v2` after `v`
pub open spec fn dropping_done<F: Fn(MapRequest) -> MapAnswer>(
    map: &F, v: Seq<Seq<Metadata>>, paddr: u64, size: u64, ans: Seq<MapAnswer>,
    r: Result<(), PagingError>, v2: Seq<Seq<Metadata>>,
) -> bool {
    let (res, v3, reqs) = dropping_outcome(v, paddr, size, ans);
    &&& records(map, ans, reqs)
    &&& res == r
    &&& v3 == v2
}

/// Takes the space requested by an allocation of `size` Bytes at `paddr`,
/// marking it as occupied in the memory map and in the tracing pages of the
/// owner of the PML4T
///
/// A failure of the memory map gives [`PagingError::InternalFailure`]. When
/// the tracing pages need a new page, a tracing page is created for it as
/// [`page_created`] does; a failure there gives its error, the new page being
/// dropped. A failure of the tracing pages gives their error. In both cases
/// the space is dropped from the memory map again.
pub fn take_available_space<F: Fn(MapRequest) -> MapAnswer>(
    tracing: &mut TracingPages,
    paddr: u64,
    size: u64,
    pml4t: PageTable,
    mem: &mut PhysicalMemory,
    masks: &AddressMasks,
    map: &F,
) -> (r: Result<(), PagingError>)
    requires
        old(tracing).wf(),
        !take_refused(old(tracing).view(), paddr, size),
        pml4t.fits(),
        masks_ok(*masks),
        forall|q: MapRequest| map.requires((q,)),
    ensures
        final(tracing).wf(),
        exists|ans: Seq<MapAnswer>| taking_done(map, old(tracing).view(), paddr, size, pml4t, old(mem).view(), *masks,
            ans, r, final(tracing).view(), final(mem).view()),
{
    let ghost v0 = tracing.view();
    let ghost m0 = mem.view();
    let n0 = tracing.pages.len();
    let q0 = MapRequest::TakeSpace(paddr, size);
    let (a, h, q) = ask_map(map, q0, Ghost(Seq::empty()), Ghost(Seq::empty()));
    proof { assert(q@ =~= seq![q0]); assert(h@[0] == a); }
    if a != MapAnswer::Yes {
        proof { assert(taking_done(map, v0, paddr, size, pml4t, m0, *masks, h@, Err(PagingError::InternalFailure), tracing.view(), mem.view())); }
        return Err(PagingError::InternalFailure);
    }
    let res = tracing.take_available_space(paddr, size);
    let ghost v2 = tracing.view();
    if tracing.pages.len() > n0 {
        let (c, h2, q2) = page_created(pml4t, mem, masks, map, h, q);
        proof {
            assert(begins(h2@, h2@));
            assert(h2@[0] == a);
        }
        match c {
            Ok(_) => {
                match res {
                    Ok(()) => {
                        proof { assert(taking_done(map, v0, paddr, size, pml4t, m0, *masks, h2@, Ok(()), tracing.view(), mem.view())); }
                        Ok(())
                    },
                    Err(e) => {
                        let (_, h3, q3) = ask_map(map, MapRequest::DropSpace(paddr, size), h2, q2);
                        proof {
                            assert(begins(h2@, h3@));
                            assert(h3@[0] == a);
                            assert(taking_done(map, v0, paddr, size, pml4t, m0, *masks, h3@, Err(e), tracing.view(), mem.view()));
                        }
                        Err(e)
                    },
                }
            },
            Err(e) => {
                tracing.keep_first_pages(n0);
                let (_, h3, q3) = ask_map(map, MapRequest::DropSpace(paddr, size), h2, q2);
                proof {
                    assert(begins(h2@, h3@));
                    assert(h3@[0] == a);
                    assert(taking_done(map, v0, paddr, size, pml4t, m0, *masks, h3@, Err(e), tracing.view(), mem.view()));
                }
                Err(e)
            },
        }
    } else {
        match res {
            Ok(()) => {
                proof { assert(taking_done(map, v0, paddr, size, pml4t, m0, *masks, h@, Ok(()), tracing.view(), mem.view())); }
                Ok(())
            },
            Err(e) => {
                let (_, h2, q2) = ask_map(map, MapRequest::DropSpace(paddr, size), h, q);
                proof {
                    assert(q2@ =~= seq![q0, MapRequest::DropSpace(paddr, size)]);
                    assert(h2@[0] == a);
                    assert(taking_done(map, v0, paddr, size, pml4t, m0, *masks, h2@, Err(e), tracing.view(), mem.view()));
                }
                Err(e)
            },
        }
    }
}

/// Drops the space of the allocation of `size` Bytes at `paddr`, marking it
/// as available in the tracing pages and then in the memory map
///
/// A failure of the tracing pages gives their error, and the memory map is
/// not asked; a failure of the memory map gives
/// [`PagingError::InternalFailure`].
pub fn drop_occupied_space<F: Fn(MapRequest) -> MapAnswer>(
    tracing: &mut TracingPages,
    paddr: u64,
    size: u64,
    map: &F,
) -> (r: Result<(), PagingError>)
    requires
        old(tracing).wf(),
        forall|q: MapRequest| map.requires((q,)),
    ensures
        final(tracing).wf(),
        exists|ans: Seq<MapAnswer>| dropping_done(map, old(tracing).view(), paddr, size, ans, r, final(tracing).view()),
{
    let ghost v0 = tracing.view();
    match tracing.drop_occupied_space(paddr) {
        Err(e) => {
            let ghost h: Seq<MapAnswer> = Seq::empty();
            assert(dropping_outcome(v0, paddr, size, h).2 =~= Seq::<MapRequest>::empty());
            assert(dropping_done(map, v0, paddr, size, h, Err(e), tracing.view()));
            Err(e)
        },
        Ok(()) => {
            let (a, h, q) = ask_map(map, MapRequest::DropSpace(paddr, size), Ghost(Seq::empty()), Ghost(Seq::empty()));
            proof { assert(q@ =~= seq![MapRequest::DropSpace(paddr, size)]); }
            assert(dropping_outcome(v0, paddr, size, h@).2 == q@);
            let r = if a == MapAnswer::Yes { Ok(()) } else { Err(PagingError::InternalFailure) };
            assert(dropping_done(map, v0, paddr, size, h@, r, tracing.view()));
            r
        },
    }
}

/// Taking free space traced by the last tracing page for an allocation, then
/// dropping the allocation, the memory map agreeing both times, gives back the
/// tracing pages as they were and asks the map to take the space and then to
/// drop it; this holds when every tracing page before the last is full, and
/// the free space of the last page is merged and the page has room for the
/// pieces the free entry is split into
pub proof fn lemma_allocation_round_trip(tp: TracingPages, i: int, paddr: u64, size: u64, pml4t: PageTable, mem: Map<u64, u64>,
    masks: AddressMasks, ans: Seq<MapAnswer>, ans2: Seq<MapAnswer>)
    requires
        tp.wf(),
        tp.view().len() > 0,
        forall|k: int| #![trigger tp.view()[k]] 0 <= k < tp.view().len() - 1 ==> tp.view()[k].len() == METADATA_ARRAY_SIZE,
        normalized(tp.view().last()),
        tp.view().last().len() + 2 < METADATA_ARRAY_SIZE,
        0 <= i < tp.view().last().len(),
        tp.view().last()[i].spec_is_free(),
        tp.view().last()[i].paddr <= paddr,
        paddr + size <= tp.view().last()[i].hi(),
        size > 0,
        ans.len() > 0 && ans[0] == MapAnswer::Yes,
        ans2.len() > 0 && ans2[0] == MapAnswer::Yes,
    ensures
        taking_outcome(tp.view(), paddr, size, pml4t, mem, masks, ans).0 == Ok::<(), PagingError>(()),
        taking_outcome(tp.view(), paddr, size, pml4t, mem, masks, ans).2 == mem,
        taking_outcome(tp.view(), paddr, size, pml4t, mem, masks, ans).3 == seq![MapRequest::TakeSpace(paddr, size)],
        dropping_outcome(taking_outcome(tp.view(), paddr, size, pml4t, mem, masks, ans).1, paddr, size, ans2)
            == (Ok::<(), PagingError>(()), tp.view(), seq![MapRequest::DropSpace(paddr, size)]),
{
    lemma_take_then_drop_space(tp, i, paddr, size);
}

} // verus!
