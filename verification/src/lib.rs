//! Physical and virtual memory management for a 64-bit kernel.
//!
//! The crate covers the memory subsystem that a boot loader hands over to a
//! freshly started kernel: a bump-pointer physical frame allocator fed by the
//! boot memory map ([`bump`]), a byte-granular heap front-end over it
//! ([`heap`]), and a four-level page-table mapper that builds and mutates the
//! hardware translation tree ([`mmu`]).  A small data model for the
//! disk-image and emulator run configuration of the surrounding build tooling
//! lives in [`disk`], [`qemu`] and [`resolve`].

use vstd::prelude::*;

pub mod arch;
pub mod bump;
pub mod disk;
pub mod heap;
pub mod mmu;
pub mod qemu;
pub mod resolve;

verus! {

/// Size in bytes of one physical page frame.  Hardware-mandated on the
/// architecture modeled here; every table level occupies exactly one frame.
pub const PAGE_SIZE: u64 = 4096;

/// One past the largest physical address the architecture can translate:
/// the address field of a page-table entry holds bits 12 through 51.
pub const PHYS_ADDR_LIMIT: u64 = 0x10_0000_0000_0000;

} // verus!
