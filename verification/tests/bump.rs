use kmem::arch::PhysicalAddress;
use kmem::bump::{BumpAllocator, Bumper, MemoryRegion};

fn region(base: u64, length: u64, usable: bool) -> MemoryRegion {
    MemoryRegion { base, length, usable }
}

#[test]
fn scenario_one_region_exhaustion() {
    // One region [0x100000, 0x200000): 256 pages of 4096 bytes.
    let regions = vec![region(0x100000, 0x100000, true)];
    let mut alloc = BumpAllocator::new(&regions);
    assert_eq!(alloc.allocate(1), Some(PhysicalAddress(0x100000)));
    assert_eq!(alloc.allocate(1), Some(PhysicalAddress(0x101000)));
    // Only 254 pages are left, so a run of 256 must fail.
    assert_eq!(alloc.allocate(256), None);
}

#[test]
fn addresses_are_contiguous_and_increasing() {
    let regions = vec![region(0x100000, 0x100000, true)];
    let mut alloc = BumpAllocator::new(&regions);
    let a = alloc.allocate(2).unwrap();
    let b = alloc.allocate(3).unwrap();
    let c = alloc.allocate(1).unwrap();
    assert_eq!(b.0, a.0 + 2 * 4096);
    assert_eq!(c.0, b.0 + 3 * 4096);
    assert!(a.0 < b.0 && b.0 < c.0);
}

#[test]
fn fails_even_when_sum_across_regions_would_suffice() {
    // Two regions of two frames each: four frames in total, but no single
    // region can hold a three-frame run.
    let regions = vec![region(0x100000, 2 * 4096, true), region(0x300000, 2 * 4096, true)];
    let mut alloc = BumpAllocator::new(&regions);
    assert_eq!(alloc.allocate(3), None);
    // The failed attempt changed nothing; smaller runs still succeed.
    assert_eq!(alloc.allocate(2), Some(PhysicalAddress(0x100000)));
    assert_eq!(alloc.allocate(2), Some(PhysicalAddress(0x300000)));
    assert_eq!(alloc.allocate(1), None);
}

#[test]
fn first_fit_skips_small_arenas() {
    let regions = vec![region(0x100000, 4096, true), region(0x300000, 4 * 4096, true)];
    let mut alloc = BumpAllocator::new(&regions);
    // A two-frame run does not fit the first arena.
    assert_eq!(alloc.allocate(2), Some(PhysicalAddress(0x300000)));
    // A one-frame run still comes from the first arena.
    assert_eq!(alloc.allocate(1), Some(PhysicalAddress(0x100000)));
}

#[test]
fn unusable_regions_are_ignored() {
    let regions = vec![
        region(0x100000, 0x100000, false),
        region(0x300000, 0x1000, true),
        region(0x400000, 0x100000, false),
    ];
    let mut alloc = BumpAllocator::new(&regions);
    assert_eq!(alloc.available_memory(), 0x1000);
    assert_eq!(alloc.allocate(1), Some(PhysicalAddress(0x300000)));
    assert_eq!(alloc.allocate(1), None);
}

#[test]
fn available_memory_reports_capacity_not_free_space() {
    let regions = vec![region(0x100000, 0x100000, true), region(0x300000, 0x2000, true)];
    let mut alloc = BumpAllocator::new(&regions);
    let total = 0x100000 + 0x2000;
    assert_eq!(alloc.available_memory(), total);
    alloc.allocate(5).unwrap();
    alloc.allocate(1).unwrap();
    // Capacity is invariant across allocation calls.
    assert_eq!(alloc.available_memory(), total);
    alloc.allocate(100000);
    assert_eq!(alloc.available_memory(), total);
}

#[test]
fn empty_catalog_has_no_memory() {
    let regions: Vec<MemoryRegion> = vec![];
    let mut alloc = BumpAllocator::new(&regions);
    assert_eq!(alloc.available_memory(), 0);
    assert_eq!(alloc.allocate(1), None);
}

#[test]
fn oversized_request_fails() {
    let regions = vec![region(0x100000, 0x100000, true)];
    let mut alloc = BumpAllocator::new(&regions);
    // The byte count of this run does not even fit in 64 bits.
    assert_eq!(alloc.allocate(usize::MAX), None);
}

#[test]
fn bumper_allocates_from_its_cursor() {
    let mut b = Bumper { heap_start: 0x1000, heap_end: 0x4000, next: 0x1000 };
    assert_eq!(b.allocate(2), Some(PhysicalAddress(0x1000)));
    assert_eq!(b.next, 0x3000);
    assert_eq!(b.allocate(2), None);
    assert_eq!(b.allocate(1), Some(PhysicalAddress(0x3000)));
    assert_eq!(b.next, b.heap_end);
}
