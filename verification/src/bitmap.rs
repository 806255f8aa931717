//! The bits of a page-table entry.

use vstd::prelude::*;
use crate::memory::MemoryOwner;
use crate::page::PageType;

verus! {

/// Present
pub const P_BIT: u64 = 0x1;

/// Read/Write
pub const RW_BIT: u64 = 0x2;

/// Supervisor/User
pub const SU_BIT: u64 = 0x4;

/// Write Through
pub const PWT_BIT: u64 = 0x8;

/// Cache Disable
pub const PCD_BIT: u64 = 0x10;

/// Accessed
pub const A_BIT: u64 = 0x20;

/// Dirty
pub const D_BIT: u64 = 0x40;

/// Page Size
pub const PS_BIT: u64 = 0x80;

/// Global
pub const G_BIT: u64 = 0x100;

/// Page Attribute Table
pub const PAT_BIT: u64 = 0x1000;

/// Protection Key
pub const PK_BIT: u64 = 0x7800000000000000;

/// Execute Disable
pub const XD_BIT: u64 = 0x8000000000000000;

/// Bitmask for the offset bits of an address inside a 1 GiB page
pub const BITMASK_OFFSET_1G: u64 = 0x3FFFFFFF;

/// Bitmask for the offset bits of an address inside a 2 MiB page
pub const BITMASK_OFFSET_2M: u64 = 0x1FFFFF;

/// Bitmask for the offset bits of an address inside a 4 KiB page
pub const BITMASK_OFFSET_4K: u64 = 0xFFF;

/// The bits that can hold the address of a 1 GiB page
pub const ADDRESS_BITS_1G: u64 = 0xFFFFFFFFC0000000;

/// The bits that can hold the address of a 2 MiB page
pub const ADDRESS_BITS_2M: u64 = 0xFFFFFFFFFFE00000;

/// The bits that can hold the address of a 4 KiB page
pub const ADDRESS_BITS_4K: u64 = 0xFFFFFFFFFFFFF000;

/// Whether all the bits of `mask` are set in `bits`
pub open spec fn has(bits: u64, mask: u64) -> bool {
    bits & mask == mask
}

/// Whether the bit at position `k` of `x` is set
pub open spec fn bit_at(x: u64, k: u64) -> bool {
    (x >> k) & 1 == 1
}

/// Whether `x` has exactly its `width` lowest bits set
pub open spec fn is_low_mask(x: u64, width: u64) -> bool {
    forall|k: u64| #![trigger bit_at(x, k)] k < 64 ==> (bit_at(x, k) <==> k < width)
}

/// The bitmasks selecting the address bits of an entry, for each page size
///
/// They depend on the physical address width of the processor.
#[derive(Clone, Copy, PartialEq, Eq, Structural, Debug)]
pub struct AddressMasks {
    pub mask_1g: u64,
    pub mask_2m: u64,
    pub mask_4k: u64,
}

proof fn lemma_set_bit(m: u64, b: u64, width: u64)
    requires
        b < 64,
        forall|k: u64| #![trigger bit_at(m, k)] k < 64 ==> (bit_at(m, k) <==> k < b),
    ensures
        forall|k: u64| #![trigger bit_at(m | (1u64 << b), k)] k < 64 ==> (bit_at(m | (1u64 << b), k) <==> k < b + 1),
{
    assert forall|k: u64| k < 64 implies (bit_at(m | (1u64 << b), k) <==> k < b + 1) by {
        assert(((m | (1u64 << b)) >> k) & 1 == if k == b { 1u64 } else { (m >> k) & 1 }) by (bit_vector)
            requires b < 64, k < 64;
        assert(bit_at(m, k) <==> k < b);
    }
}

/// Computes the bitmasks of the address bits, given the physical address width
/// of the processor
///
/// Each mask keeps the lowest address bit of its page size set, as the
/// processor always has at least that bit available.
pub fn init_address_masks(width: u64) -> (r: AddressMasks)
    requires
        width <= 64,
    ensures
        exists|m: u64| #![trigger is_low_mask(m, width)] {
            &&& is_low_mask(m, width)
            &&& r.mask_1g == 0x40000000u64 | (m & ADDRESS_BITS_1G)
            &&& r.mask_2m == 0x200000u64 | (m & ADDRESS_BITS_2M)
            &&& r.mask_4k == 0x1000u64 | (m & ADDRESS_BITS_4K)
        },
{
    let mut addr_mask: u64 = 0;
    let mut b: u64 = 0;
    proof {
        assert forall|k: u64| k < 64 implies (bit_at(0u64, k) <==> k < 0) by {
            assert((0u64 >> k) & 1 == 0) by (bit_vector);
        }
    }
    while b < width
        invariant
            b <= width <= 64,
            forall|k: u64| #![trigger bit_at(addr_mask, k)] k < 64 ==> (bit_at(addr_mask, k) <==> k < b),
        decreases width - b,
    {
        proof { lemma_set_bit(addr_mask, b, width); }
        addr_mask = addr_mask | (1u64 << b);
        b = b + 1;
    }
    let r = AddressMasks {
        mask_1g: 0x40000000u64 | (addr_mask & ADDRESS_BITS_1G),
        mask_2m: 0x200000u64 | (addr_mask & ADDRESS_BITS_2M),
        mask_4k: 0x1000u64 | (addr_mask & ADDRESS_BITS_4K),
    };
    assert(is_low_mask(addr_mask, width));
    r
}

/// Represents the bits of a table entry
#[derive(Clone, Copy, PartialEq, Eq, Structural, Debug)]
pub struct Bitmap {
    pub bits: u64,
}

impl View for Bitmap {
    type V = u64;

    open spec fn view(&self) -> u64 {
        self.bits
    }
}

impl Bitmap {
    /// Returns a bitmap with all zeros
    pub fn new() -> (r: Self)
        ensures
            r@ == 0,
    {
        Self::from_bits(0)
    }

    /// Returns a bitmap with the *Read/Write* bit and the *Present* bit
    pub fn default_kernel() -> (r: Self)
        ensures
            r@ == RW_BIT | P_BIT,
    {
        Self::from_bits(RW_BIT | P_BIT)
    }

    /// Returns a bitmap with the *User/Supervisor* bit, the *Read/Write* bit
    /// and the *Present* bit
    pub fn default_user() -> (r: Self)
        ensures
            r@ == SU_BIT | RW_BIT | P_BIT,
    {
        Self::from_bits(SU_BIT | RW_BIT | P_BIT)
    }

    /// Returns the default bitmap of the given owner
    pub fn from_owner(owner: MemoryOwner) -> (r: Self)
        ensures
            r@ == (match owner {
                MemoryOwner::Kernel => RW_BIT | P_BIT,
                MemoryOwner::User => SU_BIT | RW_BIT | P_BIT,
            }),
    {
        match owner {
            MemoryOwner::Kernel => Self::default_kernel(),
            MemoryOwner::User => Self::default_user(),
        }
    }

    /// Returns the default bitmap of an entry pointing to a page of the given type
    pub fn from_page_type(page_type: PageType) -> (r: Self)
        ensures
            r@ == (match page_type {
                PageType::OneGiB | PageType::TwoMiB => PS_BIT | RW_BIT | P_BIT,
                PageType::FourKiB => RW_BIT | P_BIT,
            }),
    {
        match page_type {
            PageType::OneGiB | PageType::TwoMiB => Self::from_bits(PS_BIT | RW_BIT | P_BIT),
            PageType::FourKiB => Self::from_bits(RW_BIT | P_BIT),
        }
    }

    /// Returns the bits of the bitmap
    pub fn bits(&self) -> (r: u64)
        ensures
            r == self@,
    {
        self.bits
    }

    /// Creates a bitmap from the given bits
    pub fn from_bits(bits: u64) -> (r: Self)
        ensures
            r@ == bits,
    {
        Self { bits }
    }

    /// Applies the given bits to the bitmap with and returns it
    pub fn with_bits(self, bits: u64) -> (r: Self)
        ensures
            r@ == self@ | bits,
    {
        Self { bits: self.bits | bits }
    }

    /// Removes the given bits to the bitmap and returns it
    pub fn without_bits(self, bits: u64) -> (r: Self)
        ensures
            r@ == self@ & !bits,
    {
        Self { bits: self.bits & !bits }
    }

    /// Returns the union of the bits of two bitmaps
    pub fn union(self, rhs: Self) -> (r: Self)
        ensures
            r@ == self@ | rhs@,
    {
        Self { bits: self.bits | rhs.bits }
    }

    /// Returns the intersection of the bits of two bitmaps
    pub fn intersection(self, rhs: Self) -> (r: Self)
        ensures
            r@ == self@ & rhs@,
    {
        Self { bits: self.bits & rhs.bits }
    }

    /// Returns `true` if all the given bits are set, `false` otherwise
    pub fn has_bits(&self, bits: u64) -> (r: bool)
        ensures
            r == has(self@, bits),
    {
        (self.bits & bits) == bits
    }

    /// Returns the bits of the address for the given page type
    pub fn address(&self, page_type: PageType, masks: &AddressMasks) -> (r: u64)
        ensures
            r == self@ & (match page_type {
                PageType::OneGiB => masks.mask_1g,
                PageType::TwoMiB => masks.mask_2m,
                PageType::FourKiB => masks.mask_4k,
            }),
    {
        match page_type {
            PageType::OneGiB => self.bits & masks.mask_1g,
            PageType::TwoMiB => self.bits & masks.mask_2m,
            PageType::FourKiB => self.bits & masks.mask_4k,
        }
    }

    /// Whether the *Present* bit is set or not
    ///
    /// If this bit is set then the entry actually points to something in physical
    /// memory (may it be a page or another table).
    pub fn present(&self) -> (r: bool)
        ensures
            r == has(self@, P_BIT),
    {
        self.has_bits(P_BIT)
    }

    /// Whether the *Read/Write* bit is present or not
    pub fn writable(&self) -> (r: bool)
        ensures
            r == has(self@, RW_BIT),
    {
        self.has_bits(RW_BIT)
    }

    /// Whether the *User/Supervisor* bit is present or not
    pub fn supervised(&self) -> (r: bool)
        ensures
            r == has(self@, SU_BIT),
    {
        self.has_bits(SU_BIT)
    }

    /// Whether the *Write Through* bit is present or not
    pub fn write_through(&self) -> (r: bool)
        ensures
            r == has(self@, PWT_BIT),
    {
        self.has_bits(PWT_BIT)
    }

    /// Whether the *Cache Disable* bit is present or not
    pub fn cache_disable(&self) -> (r: bool)
        ensures
            r == has(self@, PCD_BIT),
    {
        self.has_bits(PCD_BIT)
    }

    /// Whether the *Accessed* bit is present or not
    pub fn accessed(&self) -> (r: bool)
        ensures
            r == has(self@, A_BIT),
    {
        self.has_bits(A_BIT)
    }

    /// Whether the *Dirty* bit is present or not
    pub fn dirty(&self) -> (r: bool)
        ensures
            r == has(self@, D_BIT),
    {
        self.has_bits(D_BIT)
    }

    /// Whether the *Page Size* bit is present or not
    ///
    /// If this bit is set in an entry of a PDPT or a PDT, the entry points
    /// to a huge page.
    pub fn page_size(&self) -> (r: bool)
        ensures
            r == has(self@, PS_BIT),
    {
        self.has_bits(PS_BIT)
    }

    /// Whether the *Global* bit is present or not
    pub fn global(&self) -> (r: bool)
        ensures
            r == has(self@, G_BIT),
    {
        self.has_bits(G_BIT)
    }

    /// Whether the *Page Attribute Table* bit is present or not
    ///
    /// For entries having the *Page Size* bit the flag is the 12th bit,
    /// otherwise it is the 7th bit.
    pub fn page_attribute_table(&self) -> (r: bool)
        ensures
            r == if has(self@, PS_BIT) { has(self@, PAT_BIT) } else { has(self@, PS_BIT) },
    {
        match self.page_size() {
            true => self.has_bits(PAT_BIT),
            false => self.has_bits(PS_BIT),
        }
    }

    /// Returns the *Protection Key* bits
    pub fn protection_key(&self) -> (r: u64)
        ensures
            r == self@ & PK_BIT,
    {
        self.bits & PK_BIT
    }

    /// Whether the *Execute Disable* bit is present or not
    pub fn esecute_disable(&self) -> (r: bool)
        ensures
            r == has(self@, XD_BIT),
    {
        self.has_bits(XD_BIT)
    }
}

} // verus!
