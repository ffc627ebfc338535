use kmem::address::PhysicalAddress;
use kmem::address::PAGE_SIZE;
use kmem::address::VIRTUAL_OFFSET;
use kmem::heap::Cache;
use kmem::heap::KernelHeap;
use kmem::heap::Slab;
use kmem::pfa::init;
use kmem::pfa::PageFrame;

fn seeded(frames: u64) -> kmem::pfa::FrameAllocator {
    init(
        PhysicalAddress::new(0x8000_0000),
        PhysicalAddress::new(0x8000_0000 + frames * PAGE_SIZE),
        PhysicalAddress::new(0),
        PhysicalAddress::new(0),
    )
}

#[test]
fn slab_capacity_per_order() {
    // floor((4096 - 24) / 2^order) for every size class
    let expected = [
        (3u64, 509usize),
        (4, 254),
        (5, 127),
        (6, 63),
        (7, 31),
        (8, 15),
        (9, 7),
        (10, 3),
        (11, 1),
    ];
    for &(order, slots) in &expected {
        let slab = Slab::new(PageFrame { ppn: 0x8_0000 }, order);
        assert_eq!(slab.free_count(), slots);
    }
}

#[test]
fn slab_hands_out_slot_zero_first() {
    let mut slab = Slab::new(PageFrame { ppn: 0x8_0000 }, 3);
    let a = slab.alloc_slot().unwrap();
    assert_eq!(a.as_int(), VIRTUAL_OFFSET + 0x8000_0000 + 24);
    let b = slab.alloc_slot().unwrap();
    assert_eq!(b.as_int(), VIRTUAL_OFFSET + 0x8000_0000 + 24 + 8);
}

#[test]
fn cache_exhausts_one_slab_then_grows() {
    // a fresh slab of order 7 holds 31 slots; the 32nd allocation on
    // the cache must create a second slab
    let mut fa = seeded(4);
    let mut cache = Cache::new(7);
    assert_eq!(cache.slab_count(), 0);
    let first = cache.allocate(&mut fa).unwrap();
    assert_eq!(cache.slab_count(), 1);
    assert_eq!(cache.free_slot_count(), 30);
    assert_eq!(first.as_int() % 128, 0);
    for _ in 0..30 {
        let a = cache.allocate(&mut fa).unwrap();
        assert_eq!(a.as_int() % 128, 0);
        assert_eq!(cache.slab_count(), 1);
    }
    assert_eq!(cache.free_slot_count(), 0);
    let overflow = cache.allocate(&mut fa).unwrap();
    assert_eq!(cache.slab_count(), 2);
    assert_eq!(overflow.as_int() % 128, 0);
    assert_eq!(cache.free_slot_count(), 30);
}

#[test]
fn cache_refills_full_slab_on_free() {
    // order 11: one slot per slab, so one allocation fills a slab
    let mut fa = seeded(3);
    let mut cache = Cache::new(11);
    let a = cache.allocate(&mut fa).unwrap();
    assert_eq!(cache.slab_count(), 1);
    assert_eq!(cache.free_slot_count(), 0);
    cache.deallocate(a);
    assert_eq!(cache.slab_count(), 1);
    assert_eq!(cache.free_slot_count(), 1);
    // the refilled slab serves again without a new frame
    let before = fa.free_page_count();
    let b = cache.allocate(&mut fa).unwrap();
    assert_eq!(b.as_int(), a.as_int());
    assert_eq!(fa.free_page_count(), before);
}

#[test]
fn heap_first_small_allocation_address() {
    let mut fa = seeded(1);
    let mut heap = KernelHeap::new();
    let a = heap.allocate(&mut fa, 8, 8).unwrap();
    // slot 0 of a fresh order-3 slab: frame base plus the 24-byte header
    assert_eq!(a.as_int(), VIRTUAL_OFFSET + 0x8000_0000 + 24);
    assert_eq!(fa.free_page_count(), 0);
}

#[test]
fn heap_alignment_of_results() {
    let mut fa = seeded(8);
    let mut heap = KernelHeap::new();
    let a = heap.allocate(&mut fa, 9, 16).unwrap();
    assert_eq!(a.as_int() % 16, 0);
    let b = heap.allocate(&mut fa, 100, 8).unwrap();
    assert_eq!(b.as_int() % 128, 0);
    let c = heap.allocate(&mut fa, 1, 1024).unwrap();
    assert_eq!(c.as_int() % 1024, 0);
    let d = heap.allocate(&mut fa, 3000, 64).unwrap();
    assert_eq!(d.as_int() % 4096, 0);
}

#[test]
fn heap_free_then_alloc_reuses_slot() {
    let mut fa = seeded(2);
    let mut heap = KernelHeap::new();
    let a = heap.allocate(&mut fa, 32, 8).unwrap();
    let b = heap.allocate(&mut fa, 32, 8).unwrap();
    assert_ne!(a.as_int(), b.as_int());
    heap.deallocate(&mut fa, a, 32, 8);
    let c = heap.allocate(&mut fa, 32, 8).unwrap();
    assert_eq!(c.as_int(), a.as_int());
}

#[test]
fn heap_large_allocation_takes_whole_frame() {
    let mut fa = seeded(2);
    let mut heap = KernelHeap::new();
    let before = fa.free_page_count();
    let a = heap.allocate(&mut fa, 2500, 8).unwrap();
    assert_eq!(fa.free_page_count(), before - 1);
    assert_eq!(a.as_int() % 4096, 0);
    heap.deallocate(&mut fa, a, 2500, 8);
    assert_eq!(fa.free_page_count(), before);
}

#[test]
fn heap_rejects_multi_frame_requests() {
    let mut fa = seeded(4);
    let mut heap = KernelHeap::new();
    assert!(heap.allocate(&mut fa, 5000, 8).is_none());
    assert_eq!(fa.free_page_count(), 4);
}

#[test]
fn heap_exhaustion_is_recoverable() {
    let mut fa = seeded(1);
    let mut heap = KernelHeap::new();
    // the one frame becomes an order-11 slab with a single slot
    let a = heap.allocate(&mut fa, 2048, 8).unwrap();
    assert!(heap.allocate(&mut fa, 2048, 8).is_none());
    heap.deallocate(&mut fa, a, 2048, 8);
    // the retained slab serves again
    let b = heap.allocate(&mut fa, 2048, 8).unwrap();
    assert_eq!(b.as_int(), a.as_int());
}

#[test]
fn heap_mixed_classes_use_separate_slabs() {
    let mut fa = seeded(4);
    let mut heap = KernelHeap::new();
    let small = heap.allocate(&mut fa, 8, 8).unwrap();
    let medium = heap.allocate(&mut fa, 200, 8).unwrap();
    assert_eq!(fa.free_page_count(), 2);
    assert_ne!(small.as_int() & !0xfff, medium.as_int() & !0xfff);
    heap.deallocate(&mut fa, medium, 200, 8);
    heap.deallocate(&mut fa, small, 8, 8);
    // slab frames are retained by their caches, not returned
    assert_eq!(fa.free_page_count(), 2);
}
