//! The requests that the paging code makes to the memory map, which keeps
//! track of the physical frames, and the answers it gets.
//!
//! The memory map is reached through a function that answers each request.
//! The functions that make requests record them with their answers, so that
//! their outcome can be stated for the answers given, whatever they were.

use vstd::prelude::*;
use crate::page::PageType;

verus! {

/// A question or a request to the memory map
#[derive(Clone, Copy, PartialEq, Eq, Structural, Debug)]
pub enum MapRequest {
    /// Whether nothing is allocated in the page of the given type at the given address
    HasSpace(u64, PageType),
    /// Gives back the frame of the given type at the given address
    Release(u64, PageType),
    /// The address of a free frame of the given type
    FindAvailable(PageType),
    /// The address of the first of the given number of free frames of the
    /// given type that follow each other
    FindRange(PageType, u64),
    /// Takes the frame of the given type at the given address
    Acquire(u64, PageType),
    /// Takes the given number of frames of the given type from the given address on
    AcquireRange(u64, PageType, u64),
    /// Gives back the given number of frames of the given type from the given address on
    ReleaseRange(u64, PageType, u64),
    /// Takes, on behalf of the kernel, the given number of frames of the given
    /// type from the given address on
    KernelAcquireRange(u64, PageType, u64),
    /// Gives back, on behalf of the kernel, the given number of frames of the
    /// given type from the given address on
    KernelReleaseRange(u64, PageType, u64),
    /// Marks the given number of Bytes from the given address as taken
    TakeSpace(u64, u64),
    /// Marks the given number of Bytes from the given address as free
    DropSpace(u64, u64),
}

/// An answer of the memory map
#[derive(Clone, Copy, PartialEq, Eq, Structural, Debug)]
pub enum MapAnswer {
    /// The page is free of allocations, or the frames were given back or taken
    Yes,
    /// The page holds allocations, or no frames were found
    No,
    /// The memory map failed to answer, to give the frame back or to take it
    Failed,
    /// The address of the frames found
    Found(u64),
}

/// `hist` is the beginning of `ans`
pub open spec fn begins(hist: Seq<MapAnswer>, ans: Seq<MapAnswer>) -> bool {
    hist.len() <= ans.len() && forall|i: int| #![trigger hist[i]] 0 <= i < hist.len() ==> ans[i] == hist[i]
}

/// Each recorded answer is one that the memory map may give to its request
pub open spec fn records<F: Fn(MapRequest) -> MapAnswer>(map: &F, hist: Seq<MapAnswer>, reqs: Seq<MapRequest>) -> bool {
    &&& hist.len() == reqs.len()
    &&& forall|i: int| #![trigger hist[i]] 0 <= i < hist.len() ==> call_ensures(map, (reqs[i],), hist[i])
}

/// The answers and requests recorded after some steps follow those recorded before
pub open spec fn follows(hist: Seq<MapAnswer>, reqs: Seq<MapRequest>, hist2: Seq<MapAnswer>, reqs2: Seq<MapRequest>) -> bool {
    &&& begins(hist, hist2)
    &&& reqs.len() <= reqs2.len()
    &&& forall|i: int| #![trigger reqs[i]] 0 <= i < reqs.len() ==> reqs2[i] == reqs[i]
}

/// An answer sequence that begins with a longer history begins with a shorter one
pub proof fn lemma_begins_trans(a: Seq<MapAnswer>, b: Seq<MapAnswer>, c: Seq<MapAnswer>)
    requires
        begins(a, b),
        begins(b, c),
    ensures
        begins(a, c),
{
    assert forall|i: int| #![trigger a[i]] 0 <= i < a.len() implies c[i] == a[i] by {
        assert(b[i] == a[i]);
        assert(c[i] == b[i]);
    }
}

/// Records that follow records that follow others follow those
pub proof fn lemma_follows_trans(
    h1: Seq<MapAnswer>, q1: Seq<MapRequest>,
    h2: Seq<MapAnswer>, q2: Seq<MapRequest>,
    h3: Seq<MapAnswer>, q3: Seq<MapRequest>,
)
    requires
        follows(h1, q1, h2, q2),
        follows(h2, q2, h3, q3),
    ensures
        follows(h1, q1, h3, q3),
{
    lemma_begins_trans(h1, h2, h3);
    assert forall|i: int| #![trigger q1[i]] 0 <= i < q1.len() implies q3[i] == q1[i] by {
        assert(q2[i] == q1[i]);
        assert(q3[i] == q2[i]);
    }
}

/// Asks the memory map, recording the request and the answer
pub(crate) fn ask_map<F: Fn(MapRequest) -> MapAnswer>(map: &F, q: MapRequest, Ghost(hist): Ghost<Seq<MapAnswer>>, Ghost(reqs): Ghost<Seq<MapRequest>>)
    -> (r: (MapAnswer, Ghost<Seq<MapAnswer>>, Ghost<Seq<MapRequest>>))
    requires
        map.requires((q,)),
    ensures
        call_ensures(map, (q,), r.0),
        r.1@ == hist.push(r.0),
        r.2@ == reqs.push(q),
{
    let a = map(q);
    (a, Ghost(hist.push(a)), Ghost(reqs.push(q)))
}

} // verus!
