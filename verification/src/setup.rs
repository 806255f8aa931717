//! The first tables of the kernel, at the fixed addresses where the boot
//! process expects them, and the first tracing page of the kernel.

use vstd::prelude::*;
use crate::bitmap::{init_address_masks, is_low_mask, AddressMasks, PS_BIT, P_BIT, RW_BIT, ADDRESS_BITS_1G, ADDRESS_BITS_2M, ADDRESS_BITS_4K};
use crate::indexers::{FIRST_ENTRY_OFFSET, MIDDLE_ENTRY_OFFSET, KERNEL_CODE_TABLES_PDPT_OFFSET, LIMIT_ENTRY_OFFSET};
use crate::management::insert::{zero_table, zeroed};
use crate::management::create::{tables_zeroed, zero_frames, FRAMES_PER_2MiB};
use crate::memory::{SIZE_2MiB, SIZE_8b};
use crate::physmem::PhysicalMemory;
use crate::tracing::pages::TracingPages;
use crate::tracing::metadata::Metadata;
use crate::errors::PagingError;
use crate::page::PageType;
use crate::management::map::{MapRequest, MapAnswer, records, ask_map};

verus! {

/// The address of the PML4T of the kernel
pub const KERNEL_PML4T_PADDR: u64 = 0x100000;

/// The address of the PDPT of the identity map
pub const RESERVED_PDPT_PADDR: u64 = 0x101000;

/// The address of the PDPT of the kernel code, stack and tracing pages
pub const KERNEL_PDPT_PADDR: u64 = 0x102000;

/// The address of the PDT of the kernel code pages
pub const KERNEL_CODE_PDT_PADDR: u64 = 0x103000;

/// The address of the PDT of the kernel stack pages
pub const KERNEL_STACK_PDT_PADDR: u64 = 0x104000;

/// The offset of the PML4T entry pointing to the kernel PDPT
pub const KERNEL_CODE_TABLES_PML4T_OFFSET: u64 = 0xFF8;

/// The flags of the kernel tables
pub open spec fn table_flags() -> u64 {
    RW_BIT | P_BIT
}

/// The flags of the huge pages of the kernel
pub open spec fn huge_flags() -> u64 {
    PS_BIT | RW_BIT | P_BIT
}

/// The identity map of the first GiB of memory: the first PML4T entry points
/// to the reserved PDPT, whose first entry is a huge page at address zero
pub open spec fn identity_mapped(m: Map<u64, u64>) -> Map<u64, u64> {
    m.insert((KERNEL_PML4T_PADDR + FIRST_ENTRY_OFFSET) as u64, RESERVED_PDPT_PADDR | table_flags())
        .insert(RESERVED_PDPT_PADDR, 0 | huge_flags())
}

/// Identity-maps the first GiB of memory
pub fn setup_identity_map(mem: &mut PhysicalMemory)
    ensures
        final(mem).view() == identity_mapped(old(mem).view()),
{
    mem.write(KERNEL_PML4T_PADDR + FIRST_ENTRY_OFFSET, RESERVED_PDPT_PADDR | (RW_BIT | P_BIT));
    mem.write(RESERVED_PDPT_PADDR, 0 | (PS_BIT | RW_BIT | P_BIT));
}

/// The first `n` entries of the PDT at `pdt` map huge pages of 2 MiB that
/// follow each other from `base`
pub open spec fn huge_pages_mapped(m: Map<u64, u64>, pdt: u64, base: u64, n: nat) -> Map<u64, u64>
    decreases n,
{
    if n == 0 {
        m
    } else {
        huge_pages_mapped(m, pdt, base, (n - 1) as nat)
            .insert((pdt + SIZE_8b * (n - 1)) as u64, ((base + SIZE_2MiB * (n - 1)) as u64) | huge_flags())
    }
}

/// The kernel code pages: the last PML4T entry points to the kernel PDPT,
/// whose second-last entry points to the code PDT, which maps `n` huge pages
/// from `base`
pub open spec fn code_mapped(m: Map<u64, u64>, n: u64, base: u64) -> Map<u64, u64> {
    huge_pages_mapped(
        m.insert((KERNEL_PML4T_PADDR + KERNEL_CODE_TABLES_PML4T_OFFSET) as u64, KERNEL_PDPT_PADDR | table_flags())
            .insert((KERNEL_PDPT_PADDR + KERNEL_CODE_TABLES_PDPT_OFFSET) as u64, KERNEL_CODE_PDT_PADDR | table_flags()),
        KERNEL_CODE_PDT_PADDR, base, n as nat)
}

/// Sets up the `n_code_pages` huge pages of the kernel code, mapping the
/// kernel found at `kernel_paddr_base`
pub fn setup_kernel_code_pages(n_code_pages: u64, kernel_paddr_base: u64, mem: &mut PhysicalMemory)
    requires
        n_code_pages <= 512,
        kernel_paddr_base + SIZE_2MiB * n_code_pages <= u64::MAX,
    ensures
        final(mem).view() == code_mapped(old(mem).view(), n_code_pages, kernel_paddr_base),
{
    mem.write(KERNEL_PML4T_PADDR + KERNEL_CODE_TABLES_PML4T_OFFSET, KERNEL_PDPT_PADDR | (RW_BIT | P_BIT));
    mem.write(KERNEL_PDPT_PADDR + KERNEL_CODE_TABLES_PDPT_OFFSET, KERNEL_CODE_PDT_PADDR | (RW_BIT | P_BIT));
    let ghost m0 = mem.view();
    let mut page_dir: u64 = KERNEL_CODE_PDT_PADDR;
    let mut next: u64 = kernel_paddr_base;
    let mut i: u64 = 0;
    while i < n_code_pages
        invariant
            i <= n_code_pages <= 512,
            kernel_paddr_base + SIZE_2MiB * n_code_pages <= u64::MAX,
            page_dir == KERNEL_CODE_PDT_PADDR + SIZE_8b * i,
            next == kernel_paddr_base + SIZE_2MiB * i,
            mem.view() == huge_pages_mapped(m0, KERNEL_CODE_PDT_PADDR, kernel_paddr_base, i as nat),
        decreases n_code_pages - i,
    {
        mem.write(page_dir, next | (PS_BIT | RW_BIT | P_BIT));
        proof {
            assert(SIZE_2MiB * (i + 1) <= SIZE_2MiB * n_code_pages) by (nonlinear_arith)
                requires i + 1 <= n_code_pages;
            assert(SIZE_2MiB * (i + 1) == SIZE_2MiB * i + SIZE_2MiB) by (nonlinear_arith);
        }
        page_dir = page_dir + SIZE_8b;
        next = next + SIZE_2MiB;
        i = i + 1;
    }
}

/// The `n` entries of the stack PDT that end right after the middle entry
/// plus half of `n` map huge pages that end at `top`, the last entry the
/// highest page
pub open spec fn stack_mapped(m: Map<u64, u64>, pdt: u64, limit: u64, top: u64, k: nat) -> Map<u64, u64>
    decreases k,
{
    if k == 0 {
        m
    } else {
        stack_mapped(m, pdt, limit, top, (k - 1) as nat)
            .insert((pdt + limit - SIZE_8b * k) as u64, ((top - SIZE_2MiB * k) as u64) | huge_flags())
    }
}

/// The offset right after the last entry of the `n` kernel stack pages
pub open spec fn stack_limit_offset(n: u64) -> u64 {
    (MIDDLE_ENTRY_OFFSET + (n / 2 * SIZE_8b) + SIZE_8b) as u64
}

/// Sets up the `n_stack_pages` huge pages of the kernel stack, right below
/// the kernel at `kernel_paddr_base`, from the last entry of their range in
/// the stack PDT down
pub fn setup_kernel_stack_pages(n_stack_pages: u64, kernel_paddr_base: u64, mem: &mut PhysicalMemory)
    requires
        n_stack_pages <= 256,
        SIZE_2MiB * n_stack_pages <= kernel_paddr_base,
    ensures
        final(mem).view() == stack_mapped(old(mem).view(), KERNEL_STACK_PDT_PADDR, stack_limit_offset(n_stack_pages),
            kernel_paddr_base, n_stack_pages as nat),
{
    let limit = MIDDLE_ENTRY_OFFSET + (n_stack_pages / 2 * SIZE_8b) + SIZE_8b;
    let mut page_dir: u64 = KERNEL_STACK_PDT_PADDR + limit;
    let mut next: u64 = kernel_paddr_base;
    let ghost m0 = mem.view();
    let mut i: u64 = 0;
    while i < n_stack_pages
        invariant
            i <= n_stack_pages <= 256,
            SIZE_2MiB * n_stack_pages <= kernel_paddr_base,
            limit == stack_limit_offset(n_stack_pages),
            page_dir == KERNEL_STACK_PDT_PADDR + limit - SIZE_8b * i,
            next == kernel_paddr_base - SIZE_2MiB * i,
            mem.view() == stack_mapped(m0, KERNEL_STACK_PDT_PADDR, limit, kernel_paddr_base, i as nat),
        decreases n_stack_pages - i,
    {
        proof {
            assert(SIZE_2MiB * (i + 1) <= SIZE_2MiB * n_stack_pages) by (nonlinear_arith)
                requires i + 1 <= n_stack_pages;
            assert(SIZE_2MiB * (i + 1) == SIZE_2MiB * i + SIZE_2MiB) by (nonlinear_arith);
        }
        page_dir = page_dir - SIZE_8b;
        next = next - SIZE_2MiB;
        mem.write(page_dir, next | (PS_BIT | RW_BIT | P_BIT));
        i = i + 1;
    }
}

/// Initializes the paging structure of the kernel: the address masks for a
/// processor with addresses of `address_width` bits, the identity map, the
/// kernel code pages and the kernel stack pages
///
/// Returns the address masks.
pub fn init(address_width: u64, n_code_pages: u64, n_stack_pages: u64, kernel_paddr_base: u64, mem: &mut PhysicalMemory)
    -> (r: AddressMasks)
    requires
        address_width <= 64,
        n_code_pages <= 512,
        n_stack_pages <= 256,
        kernel_paddr_base + SIZE_2MiB * n_code_pages <= u64::MAX,
        SIZE_2MiB * n_stack_pages <= kernel_paddr_base,
    ensures
        exists|m: u64| #![trigger is_low_mask(m, address_width)] {
            &&& is_low_mask(m, address_width)
            &&& r.mask_1g == 0x40000000u64 | (m & ADDRESS_BITS_1G)
            &&& r.mask_2m == 0x200000u64 | (m & ADDRESS_BITS_2M)
            &&& r.mask_4k == 0x1000u64 | (m & ADDRESS_BITS_4K)
        },
        final(mem).view() == stack_mapped(
            code_mapped(identity_mapped(old(mem).view()), n_code_pages, kernel_paddr_base),
            KERNEL_STACK_PDT_PADDR, stack_limit_offset(n_stack_pages), kernel_paddr_base, n_stack_pages as nat),
{
    let masks = init_address_masks(address_width);
    setup_identity_map(mem);
    setup_kernel_code_pages(n_code_pages, kernel_paddr_base, mem);
    setup_kernel_stack_pages(n_stack_pages, kernel_paddr_base, mem);
    masks
}

/// The memory `m` with the tracing PDT of the kernel at `table_paddr` and the
/// first tracing page at `page_paddr` set to zero, the PDT linked from the
/// first entry of the kernel PDPT and pointing to the page
pub open spec fn kernel_tracing_laid_out(m: Map<u64, u64>, table_paddr: u64, page_paddr: u64) -> Map<u64, u64> {
    tables_zeroed(zeroed(m, table_paddr), page_paddr, FRAMES_PER_2MiB as nat)
        .insert(KERNEL_PDPT_PADDR, table_paddr | table_flags())
        .insert(table_paddr, page_paddr | (table_flags() | PS_BIT))
}

/// Sets up the first tracing page of the kernel at `page_paddr`, through the
/// tracing PDT at `table_paddr`; both are set to zero first, and the PDT is
/// linked from the first entry of the kernel PDPT
///
/// Returns the tracing pages of the kernel.
pub fn setup_kernel_tracing_pages(table_paddr: u64, page_paddr: u64, mem: &mut PhysicalMemory) -> (r: TracingPages)
    requires
        table_paddr + LIMIT_ENTRY_OFFSET <= u64::MAX,
        page_paddr + SIZE_2MiB <= u64::MAX,
    ensures
        r.wf(),
        r.view() == seq![Seq::<Metadata>::empty()],
        final(mem).view() == kernel_tracing_laid_out(old(mem).view(), table_paddr, page_paddr),
{
    zero_table(mem, table_paddr);
    zero_frames(mem, page_paddr, FRAMES_PER_2MiB);
    mem.write(KERNEL_PDPT_PADDR, table_paddr | (RW_BIT | P_BIT));
    mem.write(table_paddr, page_paddr | ((RW_BIT | P_BIT) | PS_BIT));
    TracingPages::new()
}

/// The requests made to the memory map for the frames of the first tracing
/// table and page of the kernel, and what came of them, given the answers
/// `ans`: the address of the table and of the page, or the error
pub open spec fn kernel_tracing_frames(ans: Seq<MapAnswer>) -> (Result<(u64, u64), PagingError>, Seq<MapRequest>) {
    let q0 = MapRequest::FindAvailable(PageType::FourKiB);
    let q2 = MapRequest::FindAvailable(PageType::TwoMiB);
    match ans[0] {
        MapAnswer::Found(t) => {
            let q1 = MapRequest::Acquire(t, PageType::FourKiB);
            if ans[1] != MapAnswer::Yes {
                (Err(PagingError::AllocationFailure), seq![q0, q1])
            } else {
                match ans[2] {
                    MapAnswer::Found(p) => {
                        let q3 = MapRequest::Acquire(p, PageType::TwoMiB);
                        if ans[3] != MapAnswer::Yes {
                            (Err(PagingError::AllocationFailure), seq![q0, q1, q2, q3])
                        } else {
                            (Ok((t, p)), seq![q0, q1, q2, q3])
                        }
                    },
                    _ => (Err(PagingError::NoSpaceAvailable), seq![q0, q1, q2]),
                }
            }
        },
        _ => (Err(PagingError::NoSpaceAvailable), seq![q0]),
    }
}

/// The tracing pages of the kernel were initialized as the answers `ans` of
/// the memory map, each to its request, lead to: the result `r`, and the
/// memory `mem2` after the memory `mem`
pub open spec fn kernel_tracing_done<F: Fn(MapRequest) -> MapAnswer>(
    map: &F,
    mem: Map<u64, u64>,
    ans: Seq<MapAnswer>,
    r: Result<TracingPages, PagingError>,
    mem2: Map<u64, u64>,
) -> bool {
    let (res, reqs) = kernel_tracing_frames(ans);
    &&& records(map, ans, reqs)
    &&& match res {
        Ok((t, p)) => if t + LIMIT_ENTRY_OFFSET <= u64::MAX && p + SIZE_2MiB <= u64::MAX {
            &&& r is Ok
            &&& r->Ok_0.wf()
            &&& r->Ok_0.view() == seq![Seq::<Metadata>::empty()]
            &&& mem2 == kernel_tracing_laid_out(mem, t, p)
        } else {
            r == Err::<TracingPages, PagingError>(PagingError::InternalFailure) && mem2 == mem
        },
        Err(e) => r == Err::<TracingPages, PagingError>(e) && mem2 == mem,
    }
}

/// Initializes the tracing pages of the kernel, with a PDT of 4 KiB and a
/// page of 2 MiB found and taken from the memory map
///
/// Frames that cannot be found give [`PagingError::NoSpaceAvailable`], and
/// frames that cannot be taken give [`PagingError::AllocationFailure`]; a
/// table that ends beyond the address space gives
/// [`PagingError::InternalFailure`].
pub fn init_kernel_tracing_pages<F: Fn(MapRequest) -> MapAnswer>(mem: &mut PhysicalMemory, map: &F)
    -> (r: Result<TracingPages, PagingError>)
    requires
        forall|q: MapRequest| map.requires((q,)),
    ensures
        exists|ans: Seq<MapAnswer>| kernel_tracing_done(map, old(mem).view(), ans, r, final(mem).view()),
{
    let ghost m0 = mem.view();
    let q0 = MapRequest::FindAvailable(PageType::FourKiB);
    let q2 = MapRequest::FindAvailable(PageType::TwoMiB);
    let (a0, h, q) = ask_map(map, q0, Ghost(Seq::empty()), Ghost(Seq::empty()));
    let t = match a0 {
        MapAnswer::Found(t) => t,
        _ => {
            proof { assert(q@ =~= seq![q0]); }
            assert(kernel_tracing_done(map, m0, h@, Err(PagingError::NoSpaceAvailable), mem.view()));
            return Err(PagingError::NoSpaceAvailable);
        },
    };
    let q1 = MapRequest::Acquire(t, PageType::FourKiB);
    let (a1, h, q) = ask_map(map, q1, h, q);
    if a1 != MapAnswer::Yes {
        proof { assert(q@ =~= seq![q0, q1]); }
        assert(kernel_tracing_done(map, m0, h@, Err(PagingError::AllocationFailure), mem.view()));
        return Err(PagingError::AllocationFailure);
    }
    let (a2, h, q) = ask_map(map, q2, h, q);
    let p = match a2 {
        MapAnswer::Found(p) => p,
        _ => {
            proof { assert(q@ =~= seq![q0, q1, q2]); }
            assert(kernel_tracing_done(map, m0, h@, Err(PagingError::NoSpaceAvailable), mem.view()));
            return Err(PagingError::NoSpaceAvailable);
        },
    };
    let q3 = MapRequest::Acquire(p, PageType::TwoMiB);
    let (a3, h, q) = ask_map(map, q3, h, q);
    proof { assert(q@ =~= seq![q0, q1, q2, q3]); }
    if a3 != MapAnswer::Yes {
        assert(kernel_tracing_done(map, m0, h@, Err(PagingError::AllocationFailure), mem.view()));
        return Err(PagingError::AllocationFailure);
    }
    if t > u64::MAX - LIMIT_ENTRY_OFFSET || p > u64::MAX - SIZE_2MiB {
        assert(kernel_tracing_done(map, m0, h@, Err(PagingError::InternalFailure), mem.view()));
        return Err(PagingError::InternalFailure);
    }
    let tracing = setup_kernel_tracing_pages(t, p, mem);
    let r = Ok(tracing);
    assert(kernel_tracing_done(map, m0, h@, r, mem.view()));
    r
}

} // verus!
