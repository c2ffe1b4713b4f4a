//! Architecture-facing definitions: address types, the hardware layout of
//! page-table entries and virtual addresses, and the interface of an address
//! translation tree.
//!
//! Physical and virtual addresses are distinct 64-bit values that are never
//! implicitly interchangeable, so that the two address spaces cannot be mixed
//! up by accident.

use vstd::prelude::*;

use crate::bump::alloc_addr;
use crate::bump::alloc_step;
use crate::bump::has_fit;
use crate::bump::sum_spans;
use crate::bump::BumpAllocator;
use crate::bump::OutOfMemory;
use crate::PAGE_SIZE;
use crate::PHYS_ADDR_LIMIT;

verus! {

/// An address in physical memory: the address space the frame allocator
/// carves up and that page-table entries point into.
#[derive(Clone, Copy, Debug, PartialEq, Eq, Structural, PartialOrd, Ord, Hash)]
pub struct PhysicalAddress(pub u64);

/// An address in a virtual address space: the input of address translation.
#[derive(Clone, Copy, Debug, PartialEq, Eq, Structural, PartialOrd, Ord, Hash)]
pub struct VirtualAddress(pub u64);

/// The registers the processor pushes when an exception handler is entered.
#[derive(Clone, Copy, Debug, PartialEq, Eq, Structural)]
pub struct ExceptionStackFrame {
    pub instruction_pointer: u64,
    pub code_segment: u64,
    pub cpu_flags: u64,
    pub stack_pointer: u64,
    pub stack_segment: u64,
}

/// Flag bit marking a page-table entry as valid.
pub const ENTRY_PRESENT: u64 = 1;

/// The bits of a page-table entry that hold the physical frame address
/// (bits 12 through 51).
pub const ENTRY_ADDR_MASK: u64 = 0x000f_ffff_ffff_f000;

/// The low twelve bits of a page-table entry: the flag bits.
pub const ENTRY_FLAGS_MASK: u64 = 0xfff;

/// Whether a page-table entry marks a valid mapping.
pub open spec fn present(e: u64) -> bool {
    e & ENTRY_PRESENT == ENTRY_PRESENT
}

/// The physical frame address held in a page-table entry.
pub open spec fn entry_addr(e: u64) -> u64 {
    e & ENTRY_ADDR_MASK
}

/// The flag bits held in a page-table entry.
pub open spec fn entry_flags(e: u64) -> u64 {
    e & ENTRY_FLAGS_MASK
}

/// Index into the root table (PML4): bits 39 through 47 of the address.
pub open spec fn pml4_index(v: u64) -> u64 {
    (v >> 39) & 0x1ff
}

/// Index into the third-level table (PDPT): bits 30 through 38.
pub open spec fn pdpt_index(v: u64) -> u64 {
    (v >> 30) & 0x1ff
}

/// Index into the second-level table (PD): bits 21 through 29.
pub open spec fn pd_index(v: u64) -> u64 {
    (v >> 21) & 0x1ff
}

/// Index into the leaf table (PT): bits 12 through 20.
pub open spec fn pt_index(v: u64) -> u64 {
    (v >> 12) & 0x1ff
}

/// The virtual page number: the four table indices taken together.  Two
/// addresses with equal page numbers walk to the same leaf entry; the low
/// twelve bits are the page offset, which translation ignores.
pub open spec fn vpn(v: u64) -> u64 {
    (v >> 12) & 0xf_ffff_ffff
}

/// The virtual address built back from four table indices: the base address
/// of the page those indices select.
pub open spec fn recombine(a: u64, b: u64, c: u64, d: u64) -> u64 {
    (a << 39) | (b << 30) | (c << 21) | (d << 12)
}

/// The base address of the page containing `v`: offset bits and the bits
/// above the four indices cleared.
pub open spec fn page_base(v: u64) -> u64 {
    recombine(pml4_index(v), pdpt_index(v), pd_index(v), pt_index(v))
}

/// Recombining in-range indices yields an address with those indices.
pub proof fn lemma_recombine_indices(a: u64, b: u64, c: u64, d: u64)
    by (bit_vector)
    requires
        a < 512,
        b < 512,
        c < 512,
        d < 512,
    ensures
        pml4_index(recombine(a, b, c, d)) == a,
        pdpt_index(recombine(a, b, c, d)) == b,
        pd_index(recombine(a, b, c, d)) == c,
        pt_index(recombine(a, b, c, d)) == d,
{
}

/// A page's base address lies on the same page.
pub proof fn lemma_page_base_same_page(v: u64)
    by (bit_vector)
    ensures
        vpn(page_base(v)) == vpn(v),
{
}

/// Equal page numbers mean exactly that all four table indices agree.
pub proof fn lemma_vpn_is_indices(a: u64, b: u64)
    by (bit_vector)
    ensures
        vpn(a) == vpn(b) <==> (pml4_index(a) == pml4_index(b) && pdpt_index(a) == pdpt_index(b)
            && pd_index(a) == pd_index(b) && pt_index(a) == pt_index(b)),
{
}

/// Every table index is a valid slot of a 512-entry table.
pub proof fn lemma_index_bounds(v: u64)
    by (bit_vector)
    ensures
        pml4_index(v) < 512,
        pdpt_index(v) < 512,
        pd_index(v) < 512,
        pt_index(v) < 512,
{
}

/// An entry composed from a frame-aligned address below the physical limit
/// and twelve flag bits decomposes into exactly those parts.
pub proof fn lemma_entry_fields(b: u64, f: u64)
    by (bit_vector)
    requires
        b % 4096 == 0,
        b < 0x10_0000_0000_0000,
        f < 4096,
    ensures
        entry_addr(b | f) == b,
        entry_flags(b | f) == f,
        present(b | f) <==> f & 1 == 1,
{
}

/// An absent (zero) entry is not present and decomposes into zeroes.
pub proof fn lemma_zero_entry()
    by (bit_vector)
    ensures
        !present(0),
        entry_addr(0) == 0,
        entry_flags(0) == 0,
{
}

/// One four-level address translation tree.
///
/// A mapper either *owns* its tables (built frame by frame from the
/// allocator) or merely *adopts* the root frame the boot loader left in the
/// translation-root register; an adopted tree lives in physical memory
/// outside the mapper, so only owned trees can be mutated or walked here.
/// The state machine has two observable states, unsubmitted and active, and
/// every operation completes synchronously.
pub trait MemoryMapper: Sized {
    /// Structural invariant of the translation tree.
    spec fn wf(&self) -> bool;

    /// Whether the mapper owns its tables, as opposed to adopting the tree
    /// the boot loader established.
    spec fn owns_tables(&self) -> bool;

    /// Physical address of the root table frame.
    spec fn root_address(&self) -> u64;

    /// Whether this tree has been submitted as the active translation root.
    spec fn is_active(&self) -> bool;

    /// What walking `virt` yields: the mapped frame address and flag bits,
    /// or `None` where any level along the path is absent.
    spec fn resolve(&self, virt: u64) -> Option<(u64, u64)>;

    /// Every table frame of this tree is retired in `allocator`: no future
    /// allocation can alias a table.
    spec fn fresh_for(&self, allocator: BumpAllocator) -> bool;

    /// Builds a fresh, empty address space: allocates one zero-filled frame
    /// from `allocator` as the new root.  Fails exactly when no arena has a
    /// frame left.
    fn new(allocator: &mut BumpAllocator) -> (r: Result<Self, OutOfMemory>)
        requires
            old(allocator).wf(),
            old(allocator).cursors_aligned(),
            old(allocator).arenas_disjoint(),
            old(allocator).arenas_below_limit(),
        ensures
            final(allocator).wf(),
            final(allocator).cursors_aligned(),
            final(allocator).arenas_disjoint(),
            final(allocator).arenas_below_limit(),
            final(allocator)@ == alloc_step(old(allocator)@, 1),
            r is Ok <==> has_fit(old(allocator)@, 1),
            r matches Ok(m) ==> ({
                &&& m.wf()
                &&& m.owns_tables()
                &&& !m.is_active()
                &&& m.root_address() == alloc_addr(old(allocator)@, 1)
                &&& m.fresh_for(*final(allocator))
                &&& forall|v: u64| #[trigger] m.resolve(v) is None
            }),
    ;

    /// Adopts the tree already installed when the boot loader handed over:
    /// the startup glue reads the translation-root register and passes the
    /// root frame address in.  The tables themselves are not copied and stay
    /// outside the mapper.
    fn from_active(root: PhysicalAddress) -> (r: Self)
        ensures
            r.wf(),
            !r.owns_tables(),
            !r.is_active(),
            r.root_address() == root.0,
    ;

    /// Installs the translation `virt -> phys` with the given flag bits.
    /// Missing levels along the path are built on demand: each one costs one
    /// zero-filled frame from `allocator` and is installed with the same
    /// caller-supplied flags.  Remapping an already-mapped address silently
    /// overwrites the old mapping: last write wins, never an error.  Flag
    /// bits are passed through opaquely; translation only ever tests the
    /// present bit.
    fn map(
        &mut self,
        allocator: &mut BumpAllocator,
        phys: PhysicalAddress,
        virt: VirtualAddress,
        flags: u64,
    ) -> (r: Result<(), OutOfMemory>)
        requires
            old(self).wf(),
            old(self).owns_tables(),
            old(self).fresh_for(*old(allocator)),
            old(allocator).wf(),
            old(allocator).cursors_aligned(),
            old(allocator).arenas_disjoint(),
            old(allocator).arenas_below_limit(),
            phys.0 % PAGE_SIZE == 0,
            phys.0 < PHYS_ADDR_LIMIT,
            flags < PAGE_SIZE,
        ensures
            final(self).wf(),
            final(self).owns_tables(),
            final(self).root_address() == old(self).root_address(),
            final(self).is_active() == old(self).is_active(),
            final(self).fresh_for(*final(allocator)),
            final(allocator).wf(),
            final(allocator).cursors_aligned(),
            final(allocator).arenas_disjoint(),
            final(allocator).arenas_below_limit(),
            final(allocator)@.len() == old(allocator)@.len(),
            forall|j: int|
                0 <= j < old(allocator)@.len() ==> {
                    &&& (#[trigger] final(allocator)@[j]).heap_start == old(
                        allocator,
                    )@[j].heap_start
                    &&& final(allocator)@[j].heap_end == old(allocator)@[j].heap_end
                    &&& final(allocator)@[j].next >= old(allocator)@[j].next
                },
            sum_spans(final(allocator)@) == sum_spans(old(allocator)@),
            forall|b: u64| old(allocator).retired(b) ==> #[trigger] final(allocator).retired(b),
            r is Ok ==> forall|v: u64|
                vpn(v) == vpn(virt.0) ==> #[trigger] final(self).resolve(v) == (if flags
                    & ENTRY_PRESENT == ENTRY_PRESENT {
                    Some((phys.0, flags))
                } else {
                    None
                }),
            forall|v: u64|
                vpn(v) != vpn(virt.0) ==> #[trigger] final(self).resolve(v) == old(
                    self,
                ).resolve(v),
            r is Err ==> forall|v: u64| #[trigger]
                final(self).resolve(v) == old(self).resolve(v),
            r is Err ==> !has_fit(final(allocator)@, 1),
            has_fit(old(allocator)@, 3) ==> r is Ok,
    ;

    /// Removes whatever mapping the leaf entry of `virt` holds.  Unmapping a
    /// never-mapped address is not an error: if any level along the path is
    /// absent the call is a no-op.  Intermediate table frames are never
    /// reclaimed, even when they become entirely empty.
    fn unmap(&mut self, virt: VirtualAddress)
        requires
            old(self).wf(),
            old(self).owns_tables(),
        ensures
            final(self).wf(),
            final(self).owns_tables(),
            final(self).root_address() == old(self).root_address(),
            final(self).is_active() == old(self).is_active(),
            forall|al: BumpAllocator|
                old(self).fresh_for(al) ==> #[trigger] final(self).fresh_for(al),
            forall|v: u64| vpn(v) == vpn(virt.0) ==> #[trigger] final(self).resolve(v) is None,
            forall|v: u64|
                vpn(v) != vpn(virt.0) ==> #[trigger] final(self).resolve(v) == old(
                    self,
                ).resolve(v),
    ;

    /// Moves the tree from unsubmitted to active and reports the root frame
    /// address, which the startup glue writes into the translation-root
    /// register.  The caller must make sure the tree already maps everything
    /// the running code and its stack need; a miss faults one level up with
    /// no recovery here.
    fn submit(&mut self) -> (r: PhysicalAddress)
        ensures
            r.0 == old(self).root_address(),
            final(self).is_active(),
            final(self).wf() == old(self).wf(),
            final(self).owns_tables() == old(self).owns_tables(),
            final(self).root_address() == old(self).root_address(),
            forall|v: u64| #[trigger] final(self).resolve(v) == old(self).resolve(v),
            forall|al: BumpAllocator|
                old(self).fresh_for(al) ==> #[trigger] final(self).fresh_for(al),
    ;
}

} // verus!
