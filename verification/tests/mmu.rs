use kmem::arch::{MemoryMapper, PhysicalAddress, VirtualAddress};
use kmem::bump::{BumpAllocator, MemoryRegion};
use kmem::mmu::X64MemoryMapper;

const PRESENT: u64 = 1;
const WRITABLE: u64 = 2;

fn boot_allocator() -> BumpAllocator {
    let regions = vec![MemoryRegion { base: 0x100000, length: 0x100000, usable: true }];
    BumpAllocator::new(&regions)
}

#[test]
fn scenario_map_unmap_remap() {
    let mut alloc = boot_allocator();
    let mut mapper = X64MemoryMapper::new(&mut alloc).unwrap();
    mapper
        .map(
            &mut alloc,
            PhysicalAddress(0x200000),
            VirtualAddress(0x400000),
            PRESENT | WRITABLE,
        )
        .unwrap();
    assert_eq!(
        mapper.walk(VirtualAddress(0x400000)),
        Some((PhysicalAddress(0x200000), PRESENT | WRITABLE))
    );
    mapper.unmap(VirtualAddress(0x400000));
    assert_eq!(mapper.walk(VirtualAddress(0x400000)), None);
    mapper.map(&mut alloc, PhysicalAddress(0x300000), VirtualAddress(0x400000), PRESENT).unwrap();
    assert_eq!(mapper.walk(VirtualAddress(0x400000)), Some((PhysicalAddress(0x300000), PRESENT)));
}

#[test]
fn map_then_walk_yields_exactly_the_mapping() {
    let mut alloc = boot_allocator();
    let mut mapper = X64MemoryMapper::new(&mut alloc).unwrap();
    mapper
        .map(&mut alloc, PhysicalAddress(0x7ff000), VirtualAddress(0xdead000), PRESENT | WRITABLE)
        .unwrap();
    assert_eq!(
        mapper.walk(VirtualAddress(0xdead000)),
        Some((PhysicalAddress(0x7ff000), PRESENT | WRITABLE))
    );
    // Translation ignores the 12-bit page offset.
    assert_eq!(
        mapper.walk(VirtualAddress(0xdead123)),
        Some((PhysicalAddress(0x7ff000), PRESENT | WRITABLE))
    );
}

#[test]
fn unmap_of_never_mapped_address_is_a_noop() {
    let mut alloc = boot_allocator();
    let mut mapper = X64MemoryMapper::new(&mut alloc).unwrap();
    // No level of the path exists; unmapping must not fail.
    mapper.unmap(VirtualAddress(0x123456000));
    assert_eq!(mapper.walk(VirtualAddress(0x123456000)), None);
    // With intermediate levels present but the leaf absent, still a no-op.
    mapper.map(&mut alloc, PhysicalAddress(0x200000), VirtualAddress(0x123455000), PRESENT).unwrap();
    mapper.unmap(VirtualAddress(0x123456000));
    assert_eq!(mapper.walk(VirtualAddress(0x123456000)), None);
    assert_eq!(
        mapper.walk(VirtualAddress(0x123455000)),
        Some((PhysicalAddress(0x200000), PRESENT))
    );
}

#[test]
fn remap_overwrites_and_siblings_survive() {
    let mut alloc = boot_allocator();
    let mut mapper = X64MemoryMapper::new(&mut alloc).unwrap();
    let v = VirtualAddress(0x400000);
    // A sibling entry in the same leaf table.
    let sibling = VirtualAddress(0x401000);
    mapper.map(&mut alloc, PhysicalAddress(0x111000), sibling, PRESENT).unwrap();
    mapper.map(&mut alloc, PhysicalAddress(0x200000), v, PRESENT | WRITABLE).unwrap();
    mapper.map(&mut alloc, PhysicalAddress(0x300000), v, PRESENT).unwrap();
    // Last write wins, silently.
    assert_eq!(mapper.walk(v), Some((PhysicalAddress(0x300000), PRESENT)));
    // The sibling entry is unaffected.
    assert_eq!(mapper.walk(sibling), Some((PhysicalAddress(0x111000), PRESENT)));
}

#[test]
fn distant_mappings_do_not_disturb_each_other() {
    let mut alloc = boot_allocator();
    let mut mapper = X64MemoryMapper::new(&mut alloc).unwrap();
    // Same leaf slot index under four different root entries.
    let a = VirtualAddress(0x0000_0080_0000_1000);
    let b = VirtualAddress(0x0000_0100_0000_1000);
    mapper.map(&mut alloc, PhysicalAddress(0x111000), a, PRESENT).unwrap();
    mapper.map(&mut alloc, PhysicalAddress(0x222000), b, PRESENT | WRITABLE).unwrap();
    assert_eq!(mapper.walk(a), Some((PhysicalAddress(0x111000), PRESENT)));
    assert_eq!(mapper.walk(b), Some((PhysicalAddress(0x222000), PRESENT | WRITABLE)));
    mapper.unmap(a);
    assert_eq!(mapper.walk(a), None);
    assert_eq!(mapper.walk(b), Some((PhysicalAddress(0x222000), PRESENT | WRITABLE)));
}

#[test]
fn fresh_mapper_translates_nothing() {
    let mut alloc = boot_allocator();
    let mapper = X64MemoryMapper::new(&mut alloc).unwrap();
    assert_eq!(mapper.walk(VirtualAddress(0)), None);
    assert_eq!(mapper.walk(VirtualAddress(0x400000)), None);
    assert!(mapper.mappings().is_empty());
}

#[test]
fn mappings_lists_every_translation() {
    let mut alloc = boot_allocator();
    let mut mapper = X64MemoryMapper::new(&mut alloc).unwrap();
    mapper.map(&mut alloc, PhysicalAddress(0x111000), VirtualAddress(0x400000), PRESENT).unwrap();
    mapper.map(&mut alloc, PhysicalAddress(0x222000), VirtualAddress(0x401000), PRESENT).unwrap();
    mapper
        .map(&mut alloc, PhysicalAddress(0x333000), VirtualAddress(0x80000000), PRESENT | WRITABLE)
        .unwrap();
    let mut pairs = mapper.mappings();
    pairs.sort_by_key(|(v, _)| v.0);
    assert_eq!(
        pairs,
        vec![
            (VirtualAddress(0x400000), PhysicalAddress(0x111000)),
            (VirtualAddress(0x401000), PhysicalAddress(0x222000)),
            (VirtualAddress(0x80000000), PhysicalAddress(0x333000)),
        ]
    );
}

#[test]
fn mappings_reports_page_base_addresses() {
    let mut alloc = boot_allocator();
    let mut mapper = X64MemoryMapper::new(&mut alloc).unwrap();
    mapper.map(&mut alloc, PhysicalAddress(0x111000), VirtualAddress(0x400abc), PRESENT).unwrap();
    assert_eq!(mapper.mappings(), vec![(VirtualAddress(0x400000), PhysicalAddress(0x111000))]);
}

#[test]
fn non_present_flags_leave_the_walk_absent() {
    let mut alloc = boot_allocator();
    let mut mapper = X64MemoryMapper::new(&mut alloc).unwrap();
    // Flag bits are passed through opaquely; without the present bit the
    // entry is written but translation reports absent.
    mapper.map(&mut alloc, PhysicalAddress(0x200000), VirtualAddress(0x400000), WRITABLE).unwrap();
    assert_eq!(mapper.walk(VirtualAddress(0x400000)), None);
}

#[test]
fn map_reports_out_of_memory() {
    // One single frame: the root table consumes it, nothing is left for the
    // intermediate levels.
    let regions = vec![MemoryRegion { base: 0x100000, length: 4096, usable: true }];
    let mut alloc = BumpAllocator::new(&regions);
    let mut mapper = X64MemoryMapper::new(&mut alloc).unwrap();
    let r = mapper.map(&mut alloc, PhysicalAddress(0x200000), VirtualAddress(0x400000), PRESENT);
    assert!(r.is_err());
    assert_eq!(mapper.walk(VirtualAddress(0x400000)), None);
}

#[test]
fn new_fails_without_any_frame() {
    let regions: Vec<MemoryRegion> = vec![];
    let mut alloc = BumpAllocator::new(&regions);
    assert!(X64MemoryMapper::new(&mut alloc).is_err());
}

#[test]
fn submit_reports_the_root_frame() {
    let mut alloc = boot_allocator();
    let mut mapper = X64MemoryMapper::new(&mut alloc).unwrap();
    // The root is the first frame the allocator handed out.
    assert_eq!(mapper.submit(), PhysicalAddress(0x100000));
}

#[test]
fn adopted_mapper_keeps_the_boot_root() {
    let mut mapper = X64MemoryMapper::from_active(PhysicalAddress(0xabc000));
    assert_eq!(mapper.submit(), PhysicalAddress(0xabc000));
}

#[test]
fn table_frames_come_from_the_allocator() {
    let mut alloc = boot_allocator();
    let mut mapper = X64MemoryMapper::new(&mut alloc).unwrap();
    // Root took one frame; a first mapping takes three more levels.
    mapper.map(&mut alloc, PhysicalAddress(0x200000), VirtualAddress(0x400000), PRESENT).unwrap();
    let next = alloc.allocate(1).unwrap();
    assert_eq!(next, PhysicalAddress(0x100000 + 4 * 4096));
    // A second mapping in the same leaf table allocates nothing further.
    mapper.map(&mut alloc, PhysicalAddress(0x201000), VirtualAddress(0x401000), PRESENT).unwrap();
    let after = alloc.allocate(1).unwrap();
    assert_eq!(after, PhysicalAddress(0x100000 + 5 * 4096));
}
