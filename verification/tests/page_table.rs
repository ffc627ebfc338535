use kmem::address::PhysicalAddress;
use kmem::address::PAGE_SIZE;
use kmem::page_table::Flag;
use kmem::page_table::FlagSet;
use kmem::page_table::MapError;
use kmem::page_table::MapLevel;
use kmem::page_table::PageTable;
use kmem::page_table::Pte;
use kmem::pfa::init;
use kmem::pfa::FrameAllocator;

fn seeded(frames: u64) -> FrameAllocator {
    init(
        PhysicalAddress::new(0x8000_0000),
        PhysicalAddress::new(0x8000_0000 + frames * PAGE_SIZE),
        PhysicalAddress::new(0),
        PhysicalAddress::new(0),
    )
}

fn rw() -> FlagSet {
    FlagSet::empty().with(Flag::Read).with(Flag::Write)
}

#[test]
fn flag_bits() {
    assert_eq!(Flag::Valid.bit(), 0x01);
    assert_eq!(Flag::Read.bit(), 0x02);
    assert_eq!(Flag::Write.bit(), 0x04);
    assert_eq!(Flag::Execute.bit(), 0x08);
    assert_eq!(Flag::User.bit(), 0x10);
    assert_eq!(Flag::Global.bit(), 0x20);
    assert_eq!(Flag::Accessed.bit(), 0x40);
    assert_eq!(Flag::Dirty.bit(), 0x80);
}

#[test]
fn flag_set_operations() {
    let empty = FlagSet::empty();
    assert!(!empty.contains(Flag::Valid));
    assert!(!empty.is_leaf());
    let v = FlagSet::from_flag(Flag::Valid);
    assert!(v.contains(Flag::Valid));
    assert!(!v.is_leaf());
    let vr = v.with(Flag::Read);
    assert!(vr.is_leaf());
    let vw = FlagSet::from_flag(Flag::Valid).with(Flag::Write);
    assert!(vw.is_leaf());
    assert!(!vw.contains(Flag::Read));
}

#[test]
fn pte_packs_and_unpacks() {
    let p = Pte::new(0x123, FlagSet::from_flag(Flag::Valid).with(Flag::Read));
    assert_eq!(p.0, (0x123 << 10) | 0x03);
    assert_eq!(p.ppn(), Some(0x123));
    assert!(p.flags().contains(Flag::Valid));
    assert!(p.flags().contains(Flag::Read));
    let invalid = Pte::new(0x456, FlagSet::from_flag(Flag::Read));
    assert_eq!(invalid.ppn(), None);
}

#[test]
fn map_level_indexing() {
    assert_eq!(MapLevel::Huge.index(), 2);
    assert_eq!(MapLevel::Big.index(), 1);
    assert_eq!(MapLevel::Page.index(), 0);
    let vpn: u64 = (3 << 18) | (5 << 9) | 7;
    assert_eq!(MapLevel::Huge.get_index(vpn), 3);
    assert_eq!(MapLevel::Big.get_index(vpn), 5);
    assert_eq!(MapLevel::Page.get_index(vpn), 7);
    assert_eq!(MapLevel::Huge.next(), Some(MapLevel::Big));
    assert_eq!(MapLevel::Big.next(), Some(MapLevel::Page));
    assert_eq!(MapLevel::Page.next(), None);
}

#[test]
fn round_trip_map_translate_unmap() {
    let mut fa = seeded(8);
    let mut pt = PageTable::new(fa.alloc_page().unwrap());
    let vpn: u64 = 0x12345;
    assert_eq!(pt.translate(vpn), None);
    assert_eq!(pt.map(&mut fa, MapLevel::Page, vpn, 0x400, rw()), Ok(()));
    assert_eq!(pt.translate(vpn), Some(0x400));
    assert_eq!(pt.unmap(vpn), Ok(()));
    assert_eq!(pt.translate(vpn), None);
}

#[test]
fn remapping_same_vpn_conflicts() {
    let mut fa = seeded(8);
    let mut pt = PageTable::new(fa.alloc_page().unwrap());
    let vpn: u64 = 0x0_7654;
    assert_eq!(pt.map(&mut fa, MapLevel::Page, vpn, 0x500, rw()), Ok(()));
    assert_eq!(
        pt.map(&mut fa, MapLevel::Page, vpn, 0x501, rw()),
        Err(MapError::AlreadyMapped)
    );
    // still the first mapping
    assert_eq!(pt.translate(vpn), Some(0x500));
    // after an unmap the slot is free again
    assert_eq!(pt.unmap(vpn), Ok(()));
    assert_eq!(pt.map(&mut fa, MapLevel::Page, vpn, 0x501, rw()), Ok(()));
    assert_eq!(pt.translate(vpn), Some(0x501));
}

#[test]
fn unmap_of_unmapped_fails() {
    let mut fa = seeded(4);
    let mut pt = PageTable::new(fa.alloc_page().unwrap());
    assert_eq!(pt.unmap(0x999), Err(MapError::NotMapped));
}

#[test]
fn distinct_vpns_translate_independently() {
    let mut fa = seeded(16);
    let mut pt = PageTable::new(fa.alloc_page().unwrap());
    assert_eq!(pt.map(&mut fa, MapLevel::Page, 0x1000, 0x111, rw()), Ok(()));
    assert_eq!(pt.map(&mut fa, MapLevel::Page, 0x1001, 0x222, rw()), Ok(()));
    assert_eq!(pt.translate(0x1000), Some(0x111));
    assert_eq!(pt.translate(0x1001), Some(0x222));
    assert_eq!(pt.unmap(0x1000), Ok(()));
    assert_eq!(pt.translate(0x1000), None);
    assert_eq!(pt.translate(0x1001), Some(0x222));
}

#[test]
fn big_mapping_combines_low_bits() {
    let mut fa = seeded(8);
    let mut pt = PageTable::new(fa.alloc_page().unwrap());
    let vpn: u64 = (3 << 18) | (5 << 9) | 0x45;
    assert_eq!(pt.map(&mut fa, MapLevel::Big, vpn, 0x600, rw()), Ok(()));
    assert_eq!(pt.translate(vpn), Some(0x600 | 0x45));
}

#[test]
fn misaligned_big_mapping_is_bad_level() {
    let mut fa = seeded(8);
    let mut pt = PageTable::new(fa.alloc_page().unwrap());
    assert_eq!(
        pt.map(&mut fa, MapLevel::Big, 0x200, 0x601, rw()),
        Err(MapError::BadLevel)
    );
    assert_eq!(
        pt.map(&mut fa, MapLevel::Huge, 0x200, 0x600, rw()),
        Err(MapError::BadLevel)
    );
    assert_eq!(pt.translate(0x200), None);
}

#[test]
fn map_without_frames_reports_exhaustion() {
    let mut fa = seeded(1);
    let mut pt = PageTable::new(fa.alloc_page().unwrap());
    assert_eq!(
        pt.map(&mut fa, MapLevel::Page, 0x42, 0x700, rw()),
        Err(MapError::OutOfFrames)
    );
    // a huge mapping needs no intermediate table and still succeeds
    assert_eq!(pt.map(&mut fa, MapLevel::Huge, 0x42, 0, rw()), Ok(()));
}

#[test]
fn map_consumes_two_frames_for_page_path() {
    let mut fa = seeded(4);
    let mut pt = PageTable::new(fa.alloc_page().unwrap());
    let before = fa.free_page_count();
    assert_eq!(pt.map(&mut fa, MapLevel::Page, 0x1, 0x800, rw()), Ok(()));
    assert_eq!(fa.free_page_count(), before - 2);
    // a second mapping through the same path needs no new table
    assert_eq!(pt.map(&mut fa, MapLevel::Page, 0x2, 0x801, rw()), Ok(()));
    assert_eq!(fa.free_page_count(), before - 2);
}

#[test]
fn set_flags_keeps_translation() {
    let mut fa = seeded(8);
    let mut pt = PageTable::new(fa.alloc_page().unwrap());
    let vpn: u64 = 0x3333;
    assert_eq!(pt.map(&mut fa, MapLevel::Page, vpn, 0x900, rw()), Ok(()));
    let rx = FlagSet::empty().with(Flag::Read).with(Flag::Execute);
    assert_eq!(pt.set_flags(vpn, rx), Ok(()));
    assert_eq!(pt.translate(vpn), Some(0x900));
    assert_eq!(pt.set_flags(0x4444, rx), Err(MapError::NotMapped));
}

#[test]
fn translate_rec_walks_from_root() {
    let mut fa = seeded(8);
    let mut pt = PageTable::new(fa.alloc_page().unwrap());
    let vpn: u64 = 0x1_0000;
    assert_eq!(pt.map(&mut fa, MapLevel::Page, vpn, 0xabc, rw()), Ok(()));
    assert_eq!(pt.translate_rec(vpn, MapLevel::Huge, 0), Some(0xabc));
    assert_eq!(pt.translate_rec(0x1_0001, MapLevel::Huge, 0), None);
}

#[test]
fn mapping_leaves_uncovered_regions_alone() {
    let mut fa = seeded(16);
    let mut pt = PageTable::new(fa.alloc_page().unwrap());
    let small: u64 = 0x1000;
    assert_eq!(pt.map(&mut fa, MapLevel::Page, small, 0x111, rw()), Ok(()));
    // a big mapping in a different 2 MiB region
    let big: u64 = (7 << 18) | (3 << 9);
    assert_eq!(pt.map(&mut fa, MapLevel::Big, big, 0x800, rw()), Ok(()));
    // the earlier page mapping and unrelated pages are untouched
    assert_eq!(pt.translate(small), Some(0x111));
    assert_eq!(pt.translate(0x2000), None);
    // a page inside the big region translates through the new leaf
    assert_eq!(pt.translate(big | 0x21), Some(0x800 | 0x21));
}
