use kmem::address::PhysicalAddress;
use kmem::pfa::init;
use kmem::pfa::highest_reserved_end;

#[test]
fn seeding_skips_reserved_frames() {
    let fa = init(
        PhysicalAddress::new(0x8000_0000),
        PhysicalAddress::new(0x8000_5000),
        PhysicalAddress::new(0x8000_0000),
        PhysicalAddress::new(0x8000_2000),
    );
    // frames at 0x8000_2000, 0x8000_3000, 0x8000_4000 remain
    assert_eq!(fa.free_page_count(), 3);
}

#[test]
fn seeding_aligns_region_boundaries() {
    let fa = init(
        PhysicalAddress::new(0x8000_0800),
        PhysicalAddress::new(0x8000_3800),
        PhysicalAddress::new(0),
        PhysicalAddress::new(0),
    );
    // interior pages: 0x8000_1000 and 0x8000_2000
    assert_eq!(fa.free_page_count(), 2);
}

#[test]
fn seeding_empty_region() {
    let fa = init(
        PhysicalAddress::new(0x8000_0100),
        PhysicalAddress::new(0x8000_0200),
        PhysicalAddress::new(0),
        PhysicalAddress::new(0),
    );
    assert_eq!(fa.free_page_count(), 0);
}

#[test]
fn alloc_pops_descending_from_seed() {
    let mut fa = init(
        PhysicalAddress::new(0x8000_0000),
        PhysicalAddress::new(0x8000_3000),
        PhysicalAddress::new(0),
        PhysicalAddress::new(0),
    );
    // seeded ascending, so the head is the highest frame
    let f = fa.alloc_page().unwrap();
    assert_eq!(f.page_number(), 0x8_0002);
    assert_eq!(f.base_addr().as_int(), 0x8000_2000);
    let g = fa.alloc_page().unwrap();
    assert_eq!(g.page_number(), 0x8_0001);
}

#[test]
fn no_double_allocation_live_frames_differ() {
    let mut fa = init(
        PhysicalAddress::new(0x8000_0000),
        PhysicalAddress::new(0x8000_4000),
        PhysicalAddress::new(0),
        PhysicalAddress::new(0),
    );
    let a = fa.alloc_page().unwrap();
    let b = fa.alloc_page().unwrap();
    let c = fa.alloc_page().unwrap();
    assert_ne!(a.page_number(), b.page_number());
    assert_ne!(a.page_number(), c.page_number());
    assert_ne!(b.page_number(), c.page_number());
}

#[test]
fn conservation_of_free_count() {
    let mut fa = init(
        PhysicalAddress::new(0x8000_0000),
        PhysicalAddress::new(0x8000_6000),
        PhysicalAddress::new(0),
        PhysicalAddress::new(0),
    );
    let seeded = fa.free_page_count();
    assert_eq!(seeded, 6);
    let a = fa.alloc_page().unwrap();
    let b = fa.alloc_page().unwrap();
    let _c = fa.alloc_page().unwrap();
    assert_eq!(fa.free_page_count(), seeded - 3);
    fa.free_page(a);
    assert_eq!(fa.free_page_count(), seeded - 2);
    fa.free_page(b);
    assert_eq!(fa.free_page_count(), seeded - 1);
}

#[test]
fn free_then_alloc_returns_same_frame() {
    let mut fa = init(
        PhysicalAddress::new(0x8000_0000),
        PhysicalAddress::new(0x8000_3000),
        PhysicalAddress::new(0),
        PhysicalAddress::new(0),
    );
    let a = fa.alloc_page().unwrap();
    let ppn = a.page_number();
    fa.free_page(a);
    let b = fa.alloc_page().unwrap();
    assert_eq!(b.page_number(), ppn);
}

#[test]
fn alloc_exhaustion_returns_none() {
    let mut fa = init(
        PhysicalAddress::new(0x8000_0000),
        PhysicalAddress::new(0x8000_1000),
        PhysicalAddress::new(0),
        PhysicalAddress::new(0),
    );
    assert!(fa.alloc_page().is_some());
    assert!(fa.alloc_page().is_none());
    assert_eq!(fa.free_page_count(), 0);
}

#[test]
fn highest_reserved_end_over_regions() {
    let regions: Vec<(u64, u64)> = vec![(0x1000, 0x2000), (0x8000, 0x800), (0x4000, 0x100)];
    let end = highest_reserved_end(&regions);
    assert_eq!(end.as_int(), 0x8800);
    let empty: Vec<(u64, u64)> = Vec::new();
    assert_eq!(highest_reserved_end(&empty).as_int(), 0);
}

#[test]
fn page_names_a_frame_location() {
    let p = kmem::pfa::Page::from_ppn(0x8_0000);
    assert_eq!(p.ppn(), 0x8_0000);
    assert_eq!(p.virt_addr().as_int(), 0xffff_8000_8000_0000);
}
