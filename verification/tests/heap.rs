use kmem::arch::PhysicalAddress;
use kmem::bump::{BumpAllocator, MemoryRegion};
use kmem::heap::Heap;

fn boot_allocator(frames: u64) -> BumpAllocator {
    let regions = vec![MemoryRegion { base: 0x100000, length: frames * 4096, usable: true }];
    BumpAllocator::new(&regions)
}

#[test]
fn heap_starts_detached() {
    let h = Heap::new();
    assert!(h.allocator.is_none());
}

#[test]
fn byte_requests_round_up_to_whole_frames() {
    let mut h = Heap::new();
    h.init(boot_allocator(16));
    // One byte still claims a whole frame.
    assert_eq!(h.allocate(1), Some(PhysicalAddress(0x100000)));
    // Exactly one frame.
    assert_eq!(h.allocate(4096), Some(PhysicalAddress(0x101000)));
    // One byte past a frame boundary claims two frames.
    assert_eq!(h.allocate(4097), Some(PhysicalAddress(0x102000)));
    assert_eq!(h.allocate(1), Some(PhysicalAddress(0x104000)));
}

#[test]
fn out_of_memory_is_a_distinct_outcome() {
    let mut h = Heap::new();
    h.init(boot_allocator(2));
    assert!(h.allocate(2 * 4096).is_some());
    assert_eq!(h.allocate(1), None);
}

#[test]
fn deallocate_is_a_documented_noop() {
    let mut h = Heap::new();
    h.init(boot_allocator(2));
    let a = h.allocate(4096).unwrap();
    h.deallocate(a, 4096);
    // Nothing was reclaimed: the next allocation continues past the first.
    assert_eq!(h.allocate(4096), Some(PhysicalAddress(0x101000)));
    assert_eq!(h.allocate(1), None);
}
