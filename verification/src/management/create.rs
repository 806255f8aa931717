//! Laying out the first tables of a new paging structure, in the pages
//! reserved for them right after the PML4T.

use vstd::prelude::*;
use crate::bitmap::{Bitmap, PS_BIT, P_BIT, RW_BIT, SU_BIT};
use crate::indexers::{FIRST_ENTRY_OFFSET, LAST_ENTRY_OFFSET, MIDDLE_ENTRY_OFFSET, USER_ALLOCATIONS_PML4T_FIRST_OFFSET};
use crate::memory::{MemoryOwner, SIZE_2MiB, SIZE_4KiB};
use crate::physmem::PhysicalMemory;
use crate::table::PageTableEntry;
use crate::table_type::PageTableType;
use crate::tracing::pages::TracingPages;
use crate::management::insert::{zero_table, zeroed};
use crate::management::map::{MapRequest, MapAnswer, records, ask_map};
use crate::errors::PagingError;
use crate::page::PageType;
use crate::tracing::metadata::Metadata;

verus! {

/// The offset of the PML4T entry pointing to the tables of the stack pages
pub const STACK_TABLES_PML4T_OFFSET: u64 = 0xFF8;

/// The offset of the PDPT entry pointing to the table of the stack pages
pub const STACK_TABLES_PDPT_OFFSET: u64 = 0xFF8;

/// The offset of the first PDPT entry pointing to a tracing table of a user
pub const USER_TRACING_TABLES_PDPT_FIRST_OFFSET: u64 = 0x000;

/// The flags of the tables and pages of the given owner
pub open spec fn owner_flags(owner: MemoryOwner) -> u64 {
    match owner {
        MemoryOwner::Kernel => RW_BIT | P_BIT,
        MemoryOwner::User => SU_BIT | RW_BIT | P_BIT,
    }
}

/// The offset of the first PDT entry of the stack pages, when they are `n`
pub open spec fn stack_pdt_first_offset(n: u64) -> int {
    MIDDLE_ENTRY_OFFSET - (n / 2 * 8)
}

/// Links the PML4T at `pml4t_paddr` to the PDPT, PDT and PT that follow it,
/// through their first allocation entries
pub fn create_process_pages(pml4t_paddr: u64, owner: MemoryOwner, mem: &mut PhysicalMemory)
    requires
        pml4t_paddr + 4 * SIZE_4KiB <= u64::MAX,
    ensures
        final(mem).view() == process_links(old(mem).view(), pml4t_paddr, owner),
{
    let process_flags = Bitmap::from_owner(owner);
    let pml4t_entry_paddr = pml4t_paddr + USER_ALLOCATIONS_PML4T_FIRST_OFFSET;
    let pdpt_paddr = pml4t_paddr + SIZE_4KiB;
    PageTableEntry::new(pml4t_entry_paddr, PageTableType::PageMapLevel4Table, owner)
        .set_bitmap(mem, Bitmap::from_bits(pdpt_paddr).union(process_flags));
    let pdpt_entry_paddr = pdpt_paddr + FIRST_ENTRY_OFFSET;
    let pdt_paddr = pdpt_paddr + SIZE_4KiB;
    PageTableEntry::new(pdpt_entry_paddr, PageTableType::PageDirectoryPointerTable, owner)
        .set_bitmap(mem, Bitmap::from_bits(pdt_paddr).union(process_flags));
    let pdt_entry_paddr = pdt_paddr + FIRST_ENTRY_OFFSET;
    let pt_paddr = pdt_paddr + SIZE_4KiB;
    PageTableEntry::new(pdt_entry_paddr, PageTableType::PageDirectoryTable, owner)
        .set_bitmap(mem, Bitmap::from_bits(pt_paddr).union(process_flags));
}

/// Links the PML4T at `pml4t_paddr` to the stack pages of 2 MiB at `stack_paddr`,
/// through the PDPT and PDT reserved for them
///
/// Each stack page gets its own entry of the PDT, with the page-size bit set,
/// from the first stack entry of the PDT on.
pub fn create_stack_pages(pml4t_paddr: u64, stack_paddr: u64, n_stack_pages: u64, owner: MemoryOwner, mem: &mut PhysicalMemory)
    requires
        pml4t_paddr + 8 * SIZE_4KiB <= u64::MAX,
        stack_paddr + SIZE_2MiB * n_stack_pages <= u64::MAX,
        n_stack_pages <= 256,
    ensures
        final(mem).view() == stack_links(old(mem).view(), pml4t_paddr, stack_paddr, n_stack_pages, owner),
{
    let stack_flags = Bitmap::from_owner(owner);
    let page_flags = stack_flags.with_bits(PS_BIT);
    let pml4t_entry_paddr = pml4t_paddr + STACK_TABLES_PML4T_OFFSET;
    let pdpt_paddr = pml4t_paddr + (SIZE_4KiB * 4);
    PageTableEntry::new(pml4t_entry_paddr, PageTableType::PageMapLevel4Table, owner)
        .set_bitmap(mem, Bitmap::from_bits(pdpt_paddr).union(stack_flags));
    let pdpt_entry_paddr = pdpt_paddr + STACK_TABLES_PDPT_OFFSET;
    let pdt_paddr = pdpt_paddr + (SIZE_4KiB * 2);
    PageTableEntry::new(pdpt_entry_paddr, PageTableType::PageDirectoryPointerTable, owner)
        .set_bitmap(mem, Bitmap::from_bits(pdt_paddr).union(stack_flags));
    let ghost m = mem.view();
    let first = MIDDLE_ENTRY_OFFSET - (n_stack_pages / 2 * 8);
    let mut pdt_entry_paddr: u64 = pdt_paddr + first;
    let mut page_paddr = stack_paddr;
    let mut i: u64 = 0;
    while i < n_stack_pages
        invariant
            i <= n_stack_pages,
            n_stack_pages <= 256,
            first == stack_pdt_first_offset(n_stack_pages),
            page_paddr == stack_paddr + SIZE_2MiB * i,
            stack_paddr + SIZE_2MiB * n_stack_pages <= u64::MAX,
            pdt_entry_paddr == pdt_paddr + first + 8 * i,
            pdt_paddr + 2 * SIZE_4KiB <= u64::MAX,
            page_flags@ == owner_flags(owner) | PS_BIT,
            mem.view() == stack_pages_mapped(m, pdt_paddr, first as int, stack_paddr, i as nat, owner_flags(owner)),
        decreases n_stack_pages - i,
    {
        PageTableEntry::new(pdt_entry_paddr, PageTableType::PageDirectoryTable, owner)
            .set_bitmap(mem, Bitmap::from_bits(page_paddr).union(page_flags));
        proof {
            assert(SIZE_2MiB * (i + 1) <= SIZE_2MiB * n_stack_pages) by (nonlinear_arith)
                requires i + 1 <= n_stack_pages;
            assert(SIZE_2MiB * (i + 1) == SIZE_2MiB * i + SIZE_2MiB) by (nonlinear_arith);
        }
        pdt_entry_paddr = pdt_entry_paddr + 8;
        page_paddr = page_paddr + SIZE_2MiB;
        i = i + 1;
    }
}

/// Links the PDPT of the stack pages to the first tracing page of a new
/// paging structure, through the PDT that follows it, and returns the
/// tracing pages of the new owner
pub fn create_tracing_pages(pml4t_paddr: u64, page_paddr: u64, owner: MemoryOwner, mem: &mut PhysicalMemory) -> (r: TracingPages)
    requires
        pml4t_paddr + 8 * SIZE_4KiB <= u64::MAX,
    ensures
        r.wf(),
        r.view() == seq![Seq::<crate::tracing::metadata::Metadata>::empty()],
        final(mem).view() == tracing_links(old(mem).view(), pml4t_paddr, page_paddr, owner),
{
    let tracing_flags = Bitmap::from_owner(owner);
    let pdpt_paddr = pml4t_paddr + (SIZE_4KiB * 4);
    let pdpt_entry_paddr = pdpt_paddr + USER_TRACING_TABLES_PDPT_FIRST_OFFSET;
    let pdt_paddr = pdpt_paddr + SIZE_4KiB;
    PageTableEntry::new(pdpt_entry_paddr, PageTableType::PageDirectoryPointerTable, owner)
        .set_bitmap(mem, Bitmap::from_bits(pdt_paddr).union(tracing_flags));
    let pdt_entry_paddr = pdt_paddr + FIRST_ENTRY_OFFSET;
    PageTableEntry::new(pdt_entry_paddr, PageTableType::PageDirectoryTable, owner)
        .set_bitmap(mem, Bitmap::from_bits(page_paddr).union(tracing_flags.with_bits(PS_BIT)));
    TracingPages::new()
}

/// The number of tables laid out for a new paging structure: a PML4T, two
/// PDPT, three PDT and one PT
pub const N_PAGE_TABLES: u64 = 7;

/// The memory with the `k` tables that follow each other from `base` set to zero
pub open spec fn tables_zeroed(m: Map<u64, u64>, base: u64, k: nat) -> Map<u64, u64>
    decreases k,
{
    if k == 0 {
        m
    } else {
        zeroed(tables_zeroed(m, base, (k - 1) as nat), (base + SIZE_4KiB * (k - 1)) as u64)
    }
}

/// Sets to zero the `k` frames of 4 KiB that follow each other from `base`
pub fn zero_frames(mem: &mut PhysicalMemory, base: u64, k: u64)
    requires
        base + SIZE_4KiB * k <= u64::MAX,
    ensures
        final(mem).view() == tables_zeroed(old(mem).view(), base, k as nat),
{
    let ghost m0 = mem.view();
    let mut j: u64 = 0;
    while j < k
        invariant
            j <= k,
            base + SIZE_4KiB * k <= u64::MAX,
            mem.view() == tables_zeroed(m0, base, j as nat),
        decreases k - j,
    {
        proof {
            assert(SIZE_4KiB * (j + 1) <= SIZE_4KiB * k) by (nonlinear_arith)
                requires j + 1 <= k;
        }
        zero_table(mem, base + SIZE_4KiB * j);
        j = j + 1;
    }
}

/// The number of frames of 4 KiB in a page of 2 MiB
pub const FRAMES_PER_2MiB: u64 = 512;

/// The entries that link the PML4T to the process tables
pub open spec fn process_links(m: Map<u64, u64>, pml4t_paddr: u64, owner: MemoryOwner) -> Map<u64, u64> {
    m.insert((pml4t_paddr + USER_ALLOCATIONS_PML4T_FIRST_OFFSET) as u64, ((pml4t_paddr + SIZE_4KiB) as u64) | owner_flags(owner))
        .insert((pml4t_paddr + SIZE_4KiB + FIRST_ENTRY_OFFSET) as u64, ((pml4t_paddr + 2 * SIZE_4KiB) as u64) | owner_flags(owner))
        .insert((pml4t_paddr + 2 * SIZE_4KiB + FIRST_ENTRY_OFFSET) as u64, ((pml4t_paddr + 3 * SIZE_4KiB) as u64) | owner_flags(owner))
}

/// The memory `m` with the first `k` stack pages from `stack` mapped by the
/// entries of the PDT at `pdt` that follow each other from offset `first`
pub open spec fn stack_pages_mapped(m: Map<u64, u64>, pdt: u64, first: int, stack: u64, k: nat, flags: u64) -> Map<u64, u64>
    decreases k,
{
    if k == 0 {
        m
    } else {
        stack_pages_mapped(m, pdt, first, stack, (k - 1) as nat, flags)
            .insert((pdt + first + 8 * (k - 1)) as u64, ((stack + SIZE_2MiB * (k - 1)) as u64) | (flags | PS_BIT))
    }
}

/// The entries that link the PML4T to the `n` stack pages at `stack_paddr`
pub open spec fn stack_links(m: Map<u64, u64>, pml4t_paddr: u64, stack_paddr: u64, n: u64, owner: MemoryOwner) -> Map<u64, u64> {
    let pdpt_paddr = (pml4t_paddr + 4 * SIZE_4KiB) as u64;
    let pdt_paddr = (pml4t_paddr + 6 * SIZE_4KiB) as u64;
    let m2 = m
        .insert((pml4t_paddr + STACK_TABLES_PML4T_OFFSET) as u64, pdpt_paddr | owner_flags(owner))
        .insert((pdpt_paddr + STACK_TABLES_PDPT_OFFSET) as u64, pdt_paddr | owner_flags(owner));
    stack_pages_mapped(m2, pdt_paddr, stack_pdt_first_offset(n), stack_paddr, n as nat, owner_flags(owner))
}

/// The entries that link the stack PDPT to the first tracing page at `page_paddr`
pub open spec fn tracing_links(m: Map<u64, u64>, pml4t_paddr: u64, page_paddr: u64, owner: MemoryOwner) -> Map<u64, u64> {
    let pdpt_paddr = (pml4t_paddr + 4 * SIZE_4KiB) as u64;
    let pdt_paddr = (pdpt_paddr + SIZE_4KiB) as u64;
    m.insert((pdpt_paddr + USER_TRACING_TABLES_PDPT_FIRST_OFFSET) as u64, pdt_paddr | owner_flags(owner))
        .insert((pdt_paddr + FIRST_ENTRY_OFFSET) as u64, page_paddr | (owner_flags(owner) | PS_BIT))
}

/// The memory `m` with the tables at `pml4t_paddr`, the `n` stack pages at
/// `stack_paddr` and the tracing page at `trace_paddr` set to zero
pub open spec fn structure_zeroed(m: Map<u64, u64>, pml4t_paddr: u64, trace_paddr: u64, stack_paddr: u64, n: u64)
    -> Map<u64, u64>
{
    tables_zeroed(
        tables_zeroed(tables_zeroed(m, pml4t_paddr, N_PAGE_TABLES as nat), stack_paddr, (FRAMES_PER_2MiB * n) as nat),
        trace_paddr, FRAMES_PER_2MiB as nat)
}

/// The memory `m` with a new paging structure of `owner` laid out: its
/// frames set to zero, then the tables at `pml4t_paddr` linked to the process
/// tables, to the `n` stack pages at `stack_paddr` and to the tracing page at
/// `trace_paddr`
pub open spec fn structure_laid_out(m: Map<u64, u64>, pml4t_paddr: u64, trace_paddr: u64, stack_paddr: u64, n: u64, owner: MemoryOwner)
    -> Map<u64, u64>
{
    tracing_links(
        stack_links(
            process_links(structure_zeroed(m, pml4t_paddr, trace_paddr, stack_paddr, n), pml4t_paddr, owner),
            pml4t_paddr, stack_paddr, n, owner),
        pml4t_paddr, trace_paddr, MemoryOwner::Kernel)
}

/// Lays out a new paging structure in the pages acquired for it: the tables
/// at `pml4t_paddr`, the stack pages and the tracing page are set to zero,
/// then the tables are linked to the process tables, to the `n_stack_pages`
/// stack pages at `stack_paddr` and to the tracing page at `trace_paddr`,
/// which belongs to the kernel
///
/// Returns the tracing pages of the new structure.
pub fn init_paging_structure(
    pml4t_paddr: u64,
    trace_paddr: u64,
    stack_paddr: u64,
    n_stack_pages: u64,
    owner: MemoryOwner,
    mem: &mut PhysicalMemory,
) -> (r: TracingPages)
    requires
        pml4t_paddr + 8 * SIZE_4KiB <= u64::MAX,
        stack_paddr + SIZE_2MiB * n_stack_pages <= u64::MAX,
        trace_paddr + SIZE_2MiB <= u64::MAX,
        n_stack_pages <= 256,
    ensures
        r.wf(),
        r.view() == seq![Seq::<Metadata>::empty()],
        final(mem).view() == structure_laid_out(old(mem).view(), pml4t_paddr, trace_paddr, stack_paddr, n_stack_pages, owner),
{
    zero_frames(mem, pml4t_paddr, N_PAGE_TABLES);
    zero_frames(mem, stack_paddr, FRAMES_PER_2MiB * n_stack_pages);
    zero_frames(mem, trace_paddr, FRAMES_PER_2MiB);
    create_process_pages(pml4t_paddr, owner, mem);
    create_stack_pages(pml4t_paddr, stack_paddr, n_stack_pages, owner, mem);
    create_tracing_pages(pml4t_paddr, trace_paddr, MemoryOwner::Kernel, mem)
}

/// The number of tracing pages of a new paging structure
pub const N_TRACE_PAGES: u64 = 1;

/// The requests that take the stack frames at `s`, after the requests `reqs`,
/// and what came of them, given the answers `ans`
///
/// When the stack frames cannot be taken, they are given back together with
/// the tracing frame at `t`; if both are given back, the frames found are
/// kept all the same.
pub open spec fn stack_acquisition(p: u64, t: u64, s: u64, n: u64, ans: Seq<MapAnswer>, reqs: Seq<MapRequest>)
    -> (Result<(u64, u64, u64), PagingError>, Seq<MapRequest>)
{
    let k = reqs.len() as int;
    let r1 = reqs.push(MapRequest::AcquireRange(s, PageType::TwoMiB, n));
    if ans[k] == MapAnswer::Yes {
        (Ok((p, t, s)), r1)
    } else {
        let r2 = r1.push(MapRequest::ReleaseRange(s, PageType::TwoMiB, n));
        if ans[k + 1] != MapAnswer::Yes {
            (Err(PagingError::DeallocationFailure), r2)
        } else {
            let r3 = r2.push(MapRequest::KernelReleaseRange(t, PageType::TwoMiB, N_TRACE_PAGES));
            if ans[k + 2] == MapAnswer::Yes {
                (Ok((p, t, s)), r3)
            } else {
                (Err(PagingError::DeallocationFailure), r3)
            }
        }
    }
}

/// The requests that take the frames found for the tables at `p`, the
/// tracing page at `t` and the stack pages at `s`, after the three requests
/// `reqs` that found them, and what came of them, given the answers `ans`
///
/// When the tracing frame cannot be taken for the kernel, it is given back,
/// and the creation goes on if that succeeds.
pub open spec fn acquisition_outcome(p: u64, t: u64, s: u64, n: u64, ans: Seq<MapAnswer>, reqs: Seq<MapRequest>)
    -> (Result<(u64, u64, u64), PagingError>, Seq<MapRequest>)
{
    let r0 = reqs.push(MapRequest::AcquireRange(p, PageType::FourKiB, N_PAGE_TABLES));
    if ans[3] != MapAnswer::Yes {
        (Err(PagingError::AllocationFailure), r0)
    } else {
        let r1 = r0.push(MapRequest::KernelAcquireRange(t, PageType::TwoMiB, N_TRACE_PAGES));
        if ans[4] == MapAnswer::Yes {
            stack_acquisition(p, t, s, n, ans, r1)
        } else {
            let r2 = r1.push(MapRequest::KernelReleaseRange(t, PageType::TwoMiB, N_TRACE_PAGES));
            if ans[5] == MapAnswer::Yes {
                stack_acquisition(p, t, s, n, ans, r2)
            } else {
                (Err(PagingError::DeallocationFailure), r2)
            }
        }
    }
}

/// The requests made to the memory map for the frames of a new paging
/// structure with `n` stack pages, and what came of them, given the answers
/// `ans`: the addresses of its tables, of its tracing page and of its stack
/// pages, or the error
pub open spec fn frames_outcome(n: u64, ans: Seq<MapAnswer>) -> (Result<(u64, u64, u64), PagingError>, Seq<MapRequest>) {
    let q0 = MapRequest::FindRange(PageType::FourKiB, N_PAGE_TABLES);
    let q1 = MapRequest::FindRange(PageType::TwoMiB, N_TRACE_PAGES);
    let q2 = MapRequest::FindRange(PageType::TwoMiB, n);
    match ans[0] {
        MapAnswer::Found(p) => match ans[1] {
            MapAnswer::Found(t) => match ans[2] {
                MapAnswer::Found(s) => acquisition_outcome(p, t, s, n, ans, seq![q0, q1, q2]),
                _ => (Err(PagingError::NoSpaceAvailable), seq![q0, q1, q2]),
            },
            _ => (Err(PagingError::NoSpaceAvailable), seq![q0, q1]),
        },
        _ => (Err(PagingError::NoSpaceAvailable), seq![q0]),
    }
}

/// The tables at `p`, the tracing page at `t` and the `n` stack pages at `s`
/// end below the end of the address space
pub open spec fn frames_fit(p: u64, t: u64, s: u64, n: u64) -> bool {
    p + 8 * SIZE_4KiB <= u64::MAX && t + SIZE_2MiB <= u64::MAX && s + SIZE_2MiB * n <= u64::MAX
}

/// A new paging structure of `owner` with `n` stack pages was created as the
/// answers `ans` of the memory map, each to its request, lead to: the result
/// `r`, and the memory `mem2` after the memory `mem`
pub open spec fn creation_done<F: Fn(MapRequest) -> MapAnswer>(
    map: &F,
    owner: MemoryOwner,
    n: u64,
    mem: Map<u64, u64>,
    ans: Seq<MapAnswer>,
    r: Result<(u64, TracingPages), PagingError>,
    mem2: Map<u64, u64>,
) -> bool {
    let (res, reqs) = frames_outcome(n, ans);
    &&& records(map, ans, reqs)
    &&& match res {
        Ok((p, t, s)) => if frames_fit(p, t, s, n) {
            &&& r is Ok
            &&& r->Ok_0.0 == p
            &&& r->Ok_0.1.wf()
            &&& r->Ok_0.1.view() == seq![Seq::<Metadata>::empty()]
            &&& mem2 == structure_laid_out(mem, p, t, s, n, owner)
        } else {
            r == Err::<(u64, TracingPages), PagingError>(PagingError::InternalFailure) && mem2 == mem
        },
        Err(e) => r == Err::<(u64, TracingPages), PagingError>(e) && mem2 == mem,
    }
}

/// Finds and takes, from the memory map, the frames of a new paging
/// structure with `n` stack pages, as [`frames_outcome`] says
fn acquire_structure_frames<F: Fn(MapRequest) -> MapAnswer>(n: u64, map: &F)
    -> (r: (Result<(u64, u64, u64), PagingError>, Ghost<Seq<MapAnswer>>))
    requires
        forall|q: MapRequest| map.requires((q,)),
    ensures
        records(map, r.1@, frames_outcome(n, r.1@).1),
        frames_outcome(n, r.1@).0 == r.0,
{
    let q0 = MapRequest::FindRange(PageType::FourKiB, N_PAGE_TABLES);
    let q1 = MapRequest::FindRange(PageType::TwoMiB, N_TRACE_PAGES);
    let q2 = MapRequest::FindRange(PageType::TwoMiB, n);
    let (a0, h, q) = ask_map(map, q0, Ghost(Seq::empty()), Ghost(Seq::empty()));
    let p = match a0 {
        MapAnswer::Found(p) => p,
        _ => return (Err(PagingError::NoSpaceAvailable), h),
    };
    let (a1, h, q) = ask_map(map, q1, h, q);
    let t = match a1 {
        MapAnswer::Found(t) => t,
        _ => return (Err(PagingError::NoSpaceAvailable), h),
    };
    let (a2, h, q) = ask_map(map, q2, h, q);
    let s = match a2 {
        MapAnswer::Found(s) => s,
        _ => return (Err(PagingError::NoSpaceAvailable), h),
    };
    proof { assert(q@ =~= seq![q0, q1, q2]); }
    let (a3, h, q) = ask_map(map, MapRequest::AcquireRange(p, PageType::FourKiB, N_PAGE_TABLES), h, q);
    if a3 != MapAnswer::Yes {
        return (Err(PagingError::AllocationFailure), h);
    }
    let (a4, h, q) = ask_map(map, MapRequest::KernelAcquireRange(t, PageType::TwoMiB, N_TRACE_PAGES), h, q);
    let (h, q) = if a4 == MapAnswer::Yes {
        (h, q)
    } else {
        let (a5, h, q) = ask_map(map, MapRequest::KernelReleaseRange(t, PageType::TwoMiB, N_TRACE_PAGES), h, q);
        if a5 != MapAnswer::Yes {
            return (Err(PagingError::DeallocationFailure), h);
        }
        (h, q)
    };
    let (a6, h, q) = ask_map(map, MapRequest::AcquireRange(s, PageType::TwoMiB, n), h, q);
    if a6 == MapAnswer::Yes {
        return (Ok((p, t, s)), h);
    }
    let (a7, h, q) = ask_map(map, MapRequest::ReleaseRange(s, PageType::TwoMiB, n), h, q);
    if a7 != MapAnswer::Yes {
        return (Err(PagingError::DeallocationFailure), h);
    }
    let (a8, h, q) = ask_map(map, MapRequest::KernelReleaseRange(t, PageType::TwoMiB, N_TRACE_PAGES), h, q);
    if a8 == MapAnswer::Yes {
        (Ok((p, t, s)), h)
    } else {
        (Err(PagingError::DeallocationFailure), h)
    }
}

/// Allocates and lays out a new paging structure owned by `owner`, with
/// `n_stack_pages` stack pages of 2 MiB, asking the memory map for its frames
///
/// The tables, the tracing page and the stack pages are each found as frames
/// that follow each other, then taken; the tracing page is taken on behalf
/// of the kernel. Frames that cannot be found give
/// [`PagingError::NoSpaceAvailable`], tables that cannot be taken give
/// [`PagingError::AllocationFailure`], and frames that cannot be given back
/// after a failure give [`PagingError::DeallocationFailure`]. Frames that end
/// beyond the address space give [`PagingError::InternalFailure`].
///
/// Returns the address of the PML4T and the tracing pages of the structure.
pub fn create_paging_structure<F: Fn(MapRequest) -> MapAnswer>(
    owner: MemoryOwner,
    n_stack_pages: u64,
    mem: &mut PhysicalMemory,
    map: &F,
) -> (r: Result<(u64, TracingPages), PagingError>)
    requires
        n_stack_pages <= 256,
        forall|q: MapRequest| map.requires((q,)),
    ensures
        exists|ans: Seq<MapAnswer>| creation_done(map, owner, n_stack_pages, old(mem).view(), ans, r, final(mem).view()),
{
    let (frames, h) = acquire_structure_frames(n_stack_pages, map);
    let ghost ans = h@;
    match frames {
        Err(e) => {
            assert(creation_done(map, owner, n_stack_pages, old(mem).view(), ans, Err(e), mem.view()));
            Err(e)
        },
        Ok((p, t, s)) => {
            if p > u64::MAX - 8 * SIZE_4KiB || t > u64::MAX - SIZE_2MiB || s > u64::MAX - SIZE_2MiB * n_stack_pages {
                assert(creation_done(map, owner, n_stack_pages, old(mem).view(), ans, Err(PagingError::InternalFailure), mem.view()));
                return Err(PagingError::InternalFailure);
            }
            let tracing = init_paging_structure(p, t, s, n_stack_pages, owner, mem);
            let r = Ok((p, tracing));
            assert(creation_done(map, owner, n_stack_pages, old(mem).view(), ans, r, mem.view()));
            r
        },
    }
}

} // verus!
