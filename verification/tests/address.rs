use kmem::address::Alignment;
use kmem::address::PhysicalAddress;
use kmem::address::VirtualAddress;
use kmem::address::PAGE_SIZE;
use kmem::address::VIRTUAL_OFFSET;

#[test]
fn alignment_mask_values() {
    assert_eq!(Alignment::new(1).mask(), 0);
    assert_eq!(Alignment::new(8).mask(), 7);
    assert_eq!(Alignment::new(PAGE_SIZE).mask(), 0xfff);
}

#[test]
fn align_down_exact() {
    let a = PhysicalAddress::new(0x1234);
    let page = Alignment::new(0x1000);
    assert_eq!(a.align_down(page).as_int(), 0x1000);
    assert_eq!(PhysicalAddress::new(0x1000).align_down(page).as_int(), 0x1000);
    assert_eq!(PhysicalAddress::new(0xfff).align_down(page).as_int(), 0);
}

#[test]
fn align_up_exact() {
    let page = Alignment::new(0x1000);
    assert_eq!(PhysicalAddress::new(0x1234).align_up(page).as_int(), 0x2000);
    assert_eq!(PhysicalAddress::new(0x2000).align_up(page).as_int(), 0x2000);
    assert_eq!(PhysicalAddress::new(1).align_up(page).as_int(), 0x1000);
}

#[test]
fn is_aligned_checks() {
    let eight = Alignment::new(8);
    assert!(PhysicalAddress::new(64).is_aligned(eight));
    assert!(!PhysicalAddress::new(65).is_aligned(eight));
    assert!(VirtualAddress::new(0).is_aligned(eight));
    assert!(!VirtualAddress::new(4).is_aligned(Alignment::new(8)));
}

#[test]
fn alignment_law_samples() {
    // the bracketing law on a handful of concrete addresses and aligns
    for &(a, n) in &[(0u64, 1u64), (5, 4), (4096, 4096), (4097, 4096), (123456, 64)] {
        let align = Alignment::new(n);
        let down = PhysicalAddress::new(a).align_down(align).as_int();
        let up = PhysicalAddress::new(a).align_up(align).as_int();
        assert!(down <= a);
        assert!(a <= up);
        assert_eq!(down % n, 0);
        assert_eq!(up % n, 0);
        assert!(a - down < n);
        assert!(up - a < n);
    }
}

#[test]
fn offset_arithmetic() {
    let a = PhysicalAddress::new(0x1000);
    assert_eq!(a.add_offset(0x234).as_int(), 0x1234);
    assert_eq!(a.sub_offset(0x800).as_int(), 0x800);
    let v = VirtualAddress::new(0x4000);
    assert_eq!(v.add_offset(1).as_int(), 0x4001);
    assert_eq!(v.sub_offset(1).as_int(), 0x3fff);
}

#[test]
fn null_and_as_int() {
    assert!(PhysicalAddress::null().is_null());
    assert!(!PhysicalAddress::new(1).is_null());
    assert!(VirtualAddress::null().is_null());
    assert_eq!(VirtualAddress::new(99).as_int(), 99);
}

#[test]
fn to_virt_is_linear_map() {
    let p = PhysicalAddress::new(0x8000_0000);
    assert_eq!(p.to_virt().as_int(), VIRTUAL_OFFSET + 0x8000_0000);
    assert_eq!(PhysicalAddress::new(0).to_virt().as_int(), VIRTUAL_OFFSET);
}

#[test]
fn alignment_of_type() {
    assert_eq!(Alignment::of::<u64>().mask(), 7);
    assert_eq!(Alignment::of::<u8>().mask(), 0);
    assert_eq!(Alignment::of::<u32>().mask(), 3);
}
