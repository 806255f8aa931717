use lib::bitmap::{init_address_masks, Bitmap, PS_BIT, P_BIT, RW_BIT, SU_BIT};
use lib::memory::MemoryOwner;
use lib::page::PageType;

#[test]
fn from_bits() {
    let bits: u64 = 0b0100001000000000000000111111000001000000000000000001000000010011;
    let bitmap = Bitmap::from_bits(bits);
    assert_eq!(bitmap.bits(), bits);
}

#[test]
fn with_bits() {
    let mut bits: u64 = 0;
    let mut bitmap = Bitmap::new();
    for i in 0..64u64 {
        bitmap = bitmap.with_bits(bits);
        let mut expected: u64 = 0;
        for j in 0..i {
            expected |= 1 << j;
        }
        assert_eq!(bitmap.bits(), expected);
        bits |= 1 << i;
    }
}

#[test]
fn without_bits() {
    let mut bitmap = Bitmap::from_bits(u64::MAX);
    for i in 0..64u64 {
        bitmap = bitmap.without_bits(1 << i);
        let expected: u64 = if i == 63 { 0 } else { u64::MAX << (i + 1) };
        assert_eq!(bitmap.bits(), expected);
    }
}

#[test]
fn has_bits() {
    let bitmap = Bitmap::from_bits(0b1010);
    assert!(bitmap.has_bits(0b1000));
    assert!(bitmap.has_bits(0b1010));
    assert!(!bitmap.has_bits(0b0001));
    assert!(!bitmap.has_bits(0b1011));
}

#[test]
fn supervisor_bit_on_kernel_user_defaults() {
    assert!(!Bitmap::default_kernel().supervised());
    assert!(Bitmap::default_user().supervised());
    assert_eq!(Bitmap::default_kernel().bits(), RW_BIT | P_BIT);
    assert_eq!(Bitmap::default_user().bits(), SU_BIT | RW_BIT | P_BIT);
    assert_eq!(Bitmap::from_owner(MemoryOwner::Kernel), Bitmap::default_kernel());
    assert_eq!(Bitmap::from_owner(MemoryOwner::User), Bitmap::default_user());
}

#[test]
fn page_size_bit_on_1g_2m_4k_pages() {
    assert!(Bitmap::from_page_type(PageType::OneGiB).page_size());
    assert!(Bitmap::from_page_type(PageType::TwoMiB).page_size());
    assert!(!Bitmap::from_page_type(PageType::FourKiB).page_size());
    assert_eq!(Bitmap::from_page_type(PageType::OneGiB).bits(), PS_BIT | RW_BIT | P_BIT);
    assert_eq!(Bitmap::from_page_type(PageType::FourKiB).bits(), RW_BIT | P_BIT);
}

#[test]
fn address_masks_from_width() {
    let masks = init_address_masks(40);
    assert_eq!(masks.mask_4k, 0x0000_00FF_FFFF_F000);
    assert_eq!(masks.mask_2m, 0x0000_00FF_FFE0_0000);
    assert_eq!(masks.mask_1g, 0x0000_00FF_C000_0000);
    let masks = init_address_masks(0);
    assert_eq!(masks.mask_4k, 0x1000);
    assert_eq!(masks.mask_2m, 0x20_0000);
    assert_eq!(masks.mask_1g, 0x4000_0000);
}

#[test]
fn address_of_pages() {
    let masks = init_address_masks(40);
    let bitmap = Bitmap::from_bits(0x8000_0000_1234_5083);
    assert_eq!(bitmap.address(PageType::FourKiB, &masks), 0x1234_5000);
    assert_eq!(bitmap.address(PageType::TwoMiB, &masks), 0x1220_0000);
    assert_eq!(bitmap.address(PageType::OneGiB, &masks), 0);
    assert!(bitmap.present());
    assert!(bitmap.writable());
    assert!(bitmap.page_size());
    assert!(bitmap.esecute_disable());
}

#[test]
fn union_and_intersection() {
    let a = Bitmap::from_bits(0b1100);
    let b = Bitmap::from_bits(0b1010);
    assert_eq!(a.union(b).bits(), 0b1110);
    assert_eq!(a.intersection(b).bits(), 0b1000);
}
