//! The virtual memory mapper: a four-level page-table radix tree.
//!
//! The tree is root (PML4) -> PDPT -> PD -> PT; each level is a 512-entry
//! table occupying exactly one frame, and each present non-leaf entry points
//! to the frame of the next level down.  These widths and the one-frame
//! layout are hardware-mandated.  Table memory is held as bounds-checked
//! arrays of entries; the frame address of every owned table is recorded
//! beside it, so walks follow the same physical addresses the hardware
//! would.  Table frames are allocated lazily, the instant a mapping needs a
//! missing level, and are never freed for the life of the system — an
//! explicit limitation, not an oversight.
//!
//! Like the allocator, a mapper is not internally synchronized: all mutation
//! must come from the single bootstrap execution unit.

use vstd::prelude::*;

use crate::arch::entry_addr;
use crate::arch::entry_flags;
use crate::arch::lemma_entry_fields;
use crate::arch::lemma_index_bounds;
use crate::arch::lemma_recombine_indices;
use crate::arch::lemma_vpn_is_indices;
use crate::arch::recombine;
use crate::arch::lemma_zero_entry;
use crate::arch::pd_index;
use crate::arch::pdpt_index;
use crate::arch::pml4_index;
use crate::arch::present;
use crate::arch::pt_index;
use crate::arch::vpn;
use crate::arch::MemoryMapper;
use crate::arch::PhysicalAddress;
use crate::arch::VirtualAddress;
use crate::arch::ENTRY_ADDR_MASK;
use crate::arch::ENTRY_FLAGS_MASK;
use crate::arch::ENTRY_PRESENT;
use crate::bump::alloc_step;
use crate::bump::has_fit;
use crate::bump::lemma_alloc_step_frames;
use crate::bump::lemma_alloc_step_remaining;
use crate::bump::sum_spans;
use crate::bump::BumpAllocator;
use crate::bump::OutOfMemory;
use crate::PAGE_SIZE;
use crate::PHYS_ADDR_LIMIT;

verus! {

/// Number of entries in a table of any level.
pub const TABLE_ENTRIES: usize = 512;

/// One page table: a fixed array of exactly 512 raw 64-bit entries.
pub struct PageTable {
    entries: Vec<u64>,
}

impl View for PageTable {
    type V = Seq<u64>;

    closed spec fn view(&self) -> Seq<u64> {
        self.entries@
    }
}

impl PageTable {
    /// A zero-filled table: every entry absent.
    fn new_zeroed() -> (r: PageTable)
        ensures
            r@.len() == 512,
            forall|e: int| 0 <= e < 512 ==> r@[e] == 0,
    {
        let entries: Vec<u64> = vec![0u64; TABLE_ENTRIES];
        PageTable { entries }
    }
}

/// An owned table together with the physical address of the frame it
/// occupies.
struct TableFrame {
    base: u64,
    table: PageTable,
}

/// Every frame holds a full table, frame-aligned and below the physical
/// address limit.
spec fn tables_wf(fs: Seq<TableFrame>) -> bool {
    forall|k: int|
        0 <= k < fs.len() ==> {
            &&& (#[trigger] fs[k]).table@.len() == 512
            &&& fs[k].base % PAGE_SIZE == 0
            &&& fs[k].base < PHYS_ADDR_LIMIT
        }
}

/// No two frames of the collection share a base address.
spec fn bases_distinct(fs: Seq<TableFrame>) -> bool {
    forall|k: int, l: int|
        0 <= k < l < fs.len() ==> (#[trigger] fs[k]).base != (#[trigger] fs[l]).base
}

/// Whether some frame of the collection sits at base `b`.
spec fn has_base(fs: Seq<TableFrame>, b: u64) -> bool {
    exists|k: int| 0 <= k < fs.len() && (#[trigger] fs[k]).base == b
}

/// Index of the frame at base `b` (meaningful only when `has_base`).
spec fn frame_index(fs: Seq<TableFrame>, b: u64) -> int {
    choose|k: int| 0 <= k < fs.len() && (#[trigger] fs[k]).base == b
}

/// The entries of the table whose frame sits at base `b`.
spec fn table_of(fs: Seq<TableFrame>, b: u64) -> Seq<u64> {
    fs[frame_index(fs, b)].table@
}

/// The two collections use disjoint sets of base addresses.
spec fn bases_disjoint(a: Seq<TableFrame>, b: Seq<TableFrame>) -> bool {
    forall|k: int, l: int|
        0 <= k < a.len() && 0 <= l < b.len() ==> (#[trigger] a[k]).base != (#[trigger] b[l]).base
}

/// Every present entry of a parent-level frame points at some child-level
/// frame.
spec fn links_into(parent: Seq<TableFrame>, child: Seq<TableFrame>) -> bool {
    forall|k: int, e: int|
        0 <= k < parent.len() && 0 <= e < 512 && present(#[trigger] parent[k].table@[e])
            ==> has_base(child, entry_addr(parent[k].table@[e]))
}

/// Every present root entry points at some frame of the given level.
spec fn root_links_into(root: Seq<u64>, child: Seq<TableFrame>) -> bool {
    forall|e: int|
        0 <= e < 512 && present(#[trigger] root[e]) ==> has_base(child, entry_addr(root[e]))
}

/// No two present root entries point at the same child frame.
spec fn root_entries_inj(root: Seq<u64>) -> bool {
    forall|e: int, e2: int|
        0 <= e < e2 < 512 && present(#[trigger] root[e]) && present(#[trigger] root[e2])
            ==> entry_addr(root[e]) != entry_addr(root[e2])
}

/// No two present entries anywhere in the level point at the same child
/// frame: the tree never aliases a table.
spec fn entries_inj(fs: Seq<TableFrame>) -> bool {
    forall|k: int, e: int, k2: int, e2: int|
        0 <= k < fs.len() && 0 <= e < 512 && 0 <= k2 < fs.len() && 0 <= e2 < 512 && (k != k2 || e
            != e2) && present(#[trigger] fs[k].table@[e]) && present(
            #[trigger] fs[k2].table@[e2],
        ) ==> entry_addr(fs[k].table@[e]) != entry_addr(fs[k2].table@[e2])
}

proof fn lemma_frame_index(fs: Seq<TableFrame>, b: u64)
    requires
        has_base(fs, b),
    ensures
        0 <= frame_index(fs, b) < fs.len(),
        fs[frame_index(fs, b)].base == b,
{
}

/// With distinct bases the frame at `b` is unique, so any index that hits
/// `b` is the `frame_index`.
proof fn lemma_frame_index_unique(fs: Seq<TableFrame>, b: u64, k: int)
    requires
        bases_distinct(fs),
        0 <= k < fs.len(),
        fs[k].base == b,
    ensures
        has_base(fs, b),
        frame_index(fs, b) == k,
{
    assert(has_base(fs, b));
    lemma_frame_index(fs, b);
}

/// Appending a frame with a fresh base disturbs no existing lookup.
proof fn lemma_push_frame(fs: Seq<TableFrame>, f: TableFrame)
    requires
        bases_distinct(fs),
        !has_base(fs, f.base),
    ensures
        bases_distinct(fs.push(f)),
        forall|b: u64| #[trigger] has_base(fs.push(f), b) <==> (has_base(fs, b) || b == f.base),
        forall|b: u64|
            has_base(fs, b) ==> #[trigger] table_of(fs.push(f), b) == table_of(fs, b),
        table_of(fs.push(f), f.base) == f.table@,
{
    let fs2 = fs.push(f);
    assert forall|b: u64| #[trigger] has_base(fs2, b) implies (has_base(fs, b) || b == f.base) by {
        let k = frame_index(fs2, b);
        lemma_frame_index(fs2, b);
        if k < fs.len() {
            assert(fs2[k] == fs[k]);
            assert(has_base(fs, b));
        } else {
            assert(fs2[k] == f);
        }
    }
    assert forall|b: u64| (has_base(fs, b) || b == f.base) implies #[trigger] has_base(
        fs2,
        b,
    ) by {
        if has_base(fs, b) {
            let k = frame_index(fs, b);
            lemma_frame_index(fs, b);
            assert(fs2[k] == fs[k]);
        } else {
            assert(fs2[fs.len() as int] == f);
        }
    }
    assert forall|b: u64| has_base(fs, b) implies #[trigger] table_of(fs2, b) == table_of(
        fs,
        b,
    ) by {
        let k = frame_index(fs, b);
        lemma_frame_index(fs, b);
        assert(fs2[k] == fs[k]);
        lemma_frame_index_unique(fs2, b, k);
    }
    assert(fs2[fs.len() as int] == f);
    lemma_frame_index_unique(fs2, f.base, fs.len() as int);
}

/// Replacing the table of one frame (keeping its base) moves no other
/// lookup: only the table at that base changes.
proof fn lemma_update_frame(fs: Seq<TableFrame>, fs2: Seq<TableFrame>, j: int, t: Seq<u64>)
    requires
        bases_distinct(fs),
        0 <= j < fs.len(),
        fs2.len() == fs.len(),
        fs2[j].base == fs[j].base,
        fs2[j].table@ == t,
        forall|k: int| 0 <= k < fs.len() && k != j ==> fs2[k] == fs[k],
    ensures
        bases_distinct(fs2),
        forall|b: u64| #[trigger] has_base(fs2, b) <==> has_base(fs, b),
        forall|b: u64|
            has_base(fs, b) && b != fs[j].base ==> #[trigger] table_of(fs2, b) == table_of(fs, b),
        has_base(fs2, fs[j].base) && table_of(fs2, fs[j].base) == t,
        forall|b: u64| has_base(fs, b) ==> #[trigger] frame_index(fs2, b) == frame_index(fs, b),
{
    assert forall|k: int, l: int| 0 <= k < l < fs2.len() implies (#[trigger] fs2[k]).base != (
    #[trigger] fs2[l]).base by {
        assert(fs2[k].base == fs[k].base);
        assert(fs2[l].base == fs[l].base);
    }
    assert forall|b: u64| #[trigger] has_base(fs2, b) implies has_base(fs, b) by {
        let k = frame_index(fs2, b);
        lemma_frame_index(fs2, b);
        assert(fs[k].base == b);
    }
    assert forall|b: u64| has_base(fs, b) implies #[trigger] has_base(fs2, b) by {
        let k = frame_index(fs, b);
        lemma_frame_index(fs, b);
        assert(fs2[k].base == b);
    }
    assert forall|b: u64| has_base(fs, b) implies #[trigger] frame_index(fs2, b) == frame_index(
        fs,
        b,
    ) by {
        let k = frame_index(fs, b);
        lemma_frame_index(fs, b);
        assert(fs2[k].base == b);
        lemma_frame_index_unique(fs2, b, k);
    }
    lemma_frame_index_unique(fs2, fs[j].base, j);
}

/// Finds the frame sitting at base `b`.
fn locate(frames: &Vec<TableFrame>, b: u64) -> (j: usize)
    requires
        has_base(frames@, b),
    ensures
        j < frames@.len(),
        frames@[j as int].base == b,
{
    let n: usize = frames.len();
    let mut j: usize = 0;
    while j < n
        invariant
            n == frames@.len(),
            j <= n,
            has_base(frames@, b),
            forall|k: int| 0 <= k < j ==> (#[trigger] frames@[k]).base != b,
        decreases n - j,
    {
        if frames[j].base == b {
            return j;
        }
        j = j + 1;
    }
    proof {
        let w = frame_index(frames@, b);
        lemma_frame_index(frames@, b);
        assert(frames@[w].base == b);
        assert(false);
    }
    0
}

/// The mapper: owns (or, when adopted, merely references) the root frame of
/// one four-level translation tree.
pub struct X64MemoryMapper {
    root_base: u64,
    owned: bool,
    active: bool,
    root: PageTable,
    pdpts: Vec<TableFrame>,
    pds: Vec<TableFrame>,
    pts: Vec<TableFrame>,
}

impl X64MemoryMapper {
    /// Base of the third-level table serving `virt`, when the root entry is
    /// present and backed.
    spec fn l3_base(&self, virt: u64) -> Option<u64> {
        let e = self.root@[pml4_index(virt) as int];
        if present(e) && has_base(self.pdpts@, entry_addr(e)) {
            Some(entry_addr(e))
        } else {
            None
        }
    }

    /// Base of the second-level table serving `virt`.
    spec fn l2_base(&self, virt: u64) -> Option<u64> {
        match self.l3_base(virt) {
            None => None,
            Some(b3) => {
                let e = table_of(self.pdpts@, b3)[pdpt_index(virt) as int];
                if present(e) && has_base(self.pds@, entry_addr(e)) {
                    Some(entry_addr(e))
                } else {
                    None
                }
            },
        }
    }

    /// Base of the leaf table serving `virt`.
    spec fn l1_base(&self, virt: u64) -> Option<u64> {
        match self.l2_base(virt) {
            None => None,
            Some(b2) => {
                let e = table_of(self.pds@, b2)[pd_index(virt) as int];
                if present(e) && has_base(self.pts@, entry_addr(e)) {
                    Some(entry_addr(e))
                } else {
                    None
                }
            },
        }
    }
}

/// Two walks that reach the same leaf table agree on the three upper
/// indices: the tree never aliases a table.
proof fn lemma_same_leaf_same_path(m: X64MemoryMapper, a: u64, b: u64, b1: u64)
    requires
        m.wf(),
        m.owns_tables(),
        m.l1_base(a) == Some(b1),
        m.l1_base(b) == Some(b1),
    ensures
        pml4_index(a) == pml4_index(b),
        pdpt_index(a) == pdpt_index(b),
        pd_index(a) == pd_index(b),
{
    lemma_index_bounds(a);
    lemma_index_bounds(b);
    let e4a = m.root@[pml4_index(a) as int];
    let e4b = m.root@[pml4_index(b) as int];
    let b3a = entry_addr(e4a);
    let b3b = entry_addr(e4b);
    let ka3 = frame_index(m.pdpts@, b3a);
    let kb3 = frame_index(m.pdpts@, b3b);
    lemma_frame_index(m.pdpts@, b3a);
    lemma_frame_index(m.pdpts@, b3b);
    let e3a = m.pdpts@[ka3].table@[pdpt_index(a) as int];
    let e3b = m.pdpts@[kb3].table@[pdpt_index(b) as int];
    let b2a = entry_addr(e3a);
    let b2b = entry_addr(e3b);
    let ka2 = frame_index(m.pds@, b2a);
    let kb2 = frame_index(m.pds@, b2b);
    lemma_frame_index(m.pds@, b2a);
    lemma_frame_index(m.pds@, b2b);
    let e2a = m.pds@[ka2].table@[pd_index(a) as int];
    let e2b = m.pds@[kb2].table@[pd_index(b) as int];
    // Both second-level entries are present and point at b1; by injectivity
    // they are the same entry of the same frame.
    assert(entry_addr(e2a) == b1 && entry_addr(e2b) == b1);
    assert(ka2 == kb2 && pd_index(a) == pd_index(b));
    assert(b2a == b2b);
    // Same one level up.
    assert(ka3 == kb3 && pdpt_index(a) == pdpt_index(b));
    assert(b3a == b3b);
    // And at the root.
    if pml4_index(a) != pml4_index(b) {
        if pml4_index(a) < pml4_index(b) {
            assert(entry_addr(e4a) != entry_addr(e4b));
        } else {
            assert(entry_addr(e4b) != entry_addr(e4a));
        }
        assert(false);
    }
}

/// Writing one leaf entry moves exactly one translation: the walk of every
/// address with a different page number is untouched, and every address of
/// the written page number now yields what the new entry says.
proof fn lemma_leaf_write(
    pre: X64MemoryMapper,
    post: X64MemoryMapper,
    virt: u64,
    b1: u64,
    val: u64,
)
    requires
        pre.wf(),
        pre.owns_tables(),
        pre.l1_base(virt) == Some(b1),
        post.owned,
        post.root_base == pre.root_base,
        post.active == pre.active,
        post.root@ == pre.root@,
        post.pdpts@ == pre.pdpts@,
        post.pds@ == pre.pds@,
        post.pts@.len() == pre.pts@.len(),
        ({
            let j1 = frame_index(pre.pts@, b1);
            &&& post.pts@[j1].base == b1
            &&& post.pts@[j1].table@ == pre.pts@[j1].table@.update(pt_index(virt) as int, val)
            &&& forall|k: int|
                0 <= k < pre.pts@.len() && k != j1 ==> post.pts@[k] == pre.pts@[k]
        }),
    ensures
        post.wf(),
        forall|v: u64| vpn(v) != vpn(virt) ==> #[trigger] post.resolve(v) == pre.resolve(v),
        forall|v: u64|
            vpn(v) == vpn(virt) ==> #[trigger] post.resolve(v) == (if present(val) {
                Some((entry_addr(val), entry_flags(val)))
            } else {
                None
            }),
{
    lemma_index_bounds(virt);
    let i1 = pt_index(virt) as int;
    let j1 = frame_index(pre.pts@, b1);
    assert(has_base(pre.pts@, b1));
    lemma_frame_index(pre.pts@, b1);
    let t1 = pre.pts@[j1].table@.update(i1, val);
    lemma_update_frame(pre.pts@, post.pts@, j1, t1);
    // Well-formedness: only the leaf level changed, and leaf entries carry
    // no structural obligations.
    assert(tables_wf(post.pts@)) by {
        assert forall|k: int|
            0 <= k < post.pts@.len() implies {
            &&& (#[trigger] post.pts@[k]).table@.len() == 512
            &&& post.pts@[k].base % PAGE_SIZE == 0
            &&& post.pts@[k].base < PHYS_ADDR_LIMIT
        } by {
            if k != j1 {
                assert(post.pts@[k] == pre.pts@[k]);
            } else {
                assert(post.pts@[j1].base == pre.pts@[j1].base);
            }
        }
    }
    assert(links_into(post.pds@, post.pts@)) by {
        assert forall|k: int, e: int|
            0 <= k < post.pds@.len() && 0 <= e < 512 && present(
                #[trigger] post.pds@[k].table@[e],
            ) implies has_base(post.pts@, entry_addr(post.pds@[k].table@[e])) by {
            assert(has_base(pre.pts@, entry_addr(pre.pds@[k].table@[e])));
        }
    }
    assert(post.wf());
    // The upper levels read nothing that changed.
    assert forall|v: u64| #[trigger] post.l1_base(v) == pre.l1_base(v) by {
        assert(post.l3_base(v) == pre.l3_base(v));
        assert(post.l2_base(v) == pre.l2_base(v));
        if post.l2_base(v) is Some {
            let b2 = post.l2_base(v)->Some_0;
            let e = table_of(post.pds@, b2)[pd_index(v) as int];
            if present(e) {
                assert(has_base(post.pts@, entry_addr(e)) == has_base(pre.pts@, entry_addr(e)));
            }
        }
    }
    assert forall|v: u64| vpn(v) != vpn(virt) implies #[trigger] post.resolve(v) == pre.resolve(
        v,
    ) by {
        lemma_vpn_is_indices(v, virt);
        match pre.l1_base(v) {
            None => {},
            Some(b1v) => {
                lemma_frame_index(pre.pts@, b1v);
                if b1v != b1 {
                    assert(table_of(post.pts@, b1v) == table_of(pre.pts@, b1v));
                } else {
                    lemma_same_leaf_same_path(pre, v, virt, b1);
                    lemma_index_bounds(v);
                    lemma_index_bounds(virt);
                    assert(pt_index(v) != pt_index(virt));
                    assert(pre.pts@[j1].table@.len() == 512);
                    assert(table_of(post.pts@, b1) == t1);
                    assert(table_of(post.pts@, b1)[pt_index(v) as int] == table_of(
                        pre.pts@,
                        b1,
                    )[pt_index(v) as int]);
                }
            },
        }
    }
    assert forall|v: u64| vpn(v) == vpn(virt) implies #[trigger] post.resolve(v) == (if present(
        val,
    ) {
        Some((entry_addr(val), entry_flags(val)))
    } else {
        None
    }) by {
        lemma_vpn_is_indices(v, virt);
        assert(pre.l1_base(v) == pre.l1_base(virt));
        assert(post.l1_base(v) == Some(b1));
        assert(table_of(post.pts@, b1) == t1);
        assert(table_of(post.pts@, b1)[pt_index(v) as int] == val);
    }
}

/// Installing a fresh, zero-filled third-level table under an absent root
/// entry changes no walk: the entry it replaces was absent, and the new
/// subtree is empty.
proof fn lemma_install_pdpt(
    pre: X64MemoryMapper,
    post: X64MemoryMapper,
    i4: int,
    b: u64,
    flags: u64,
    nf: TableFrame,
)
    requires
        pre.wf(),
        pre.owns_tables(),
        0 <= i4 < 512,
        !present(pre.root@[i4]),
        b % PAGE_SIZE == 0,
        b < PHYS_ADDR_LIMIT,
        flags < PAGE_SIZE,
        !has_base(pre.pdpts@, b),
        !has_base(pre.pds@, b),
        !has_base(pre.pts@, b),
        nf.base == b,
        nf.table@.len() == 512,
        forall|e: int| 0 <= e < 512 ==> nf.table@[e] == 0,
        post.owned,
        post.root_base == pre.root_base,
        post.active == pre.active,
        post.root@ == pre.root@.update(i4, b | flags),
        post.pdpts@ == pre.pdpts@.push(nf),
        post.pds@ == pre.pds@,
        post.pts@ == pre.pts@,
    ensures
        post.wf(),
        forall|v: u64| #[trigger] post.resolve(v) == pre.resolve(v),
        forall|v: u64|
            pml4_index(v) == i4 ==> #[trigger] post.l3_base(v) == (if present(flags) {
                Some(b)
            } else {
                None::<u64>
            }),
        forall|v: u64|
            pml4_index(v) != i4 ==> #[trigger] post.l3_base(v) == pre.l3_base(v),
        table_of(post.pdpts@, b) == nf.table@,
        has_base(post.pdpts@, b),
{
    lemma_entry_fields(b, flags);
    lemma_zero_entry();
    lemma_push_frame(pre.pdpts@, nf);
    // Distinct from every known base because every present entry points at a
    // known base and `b` is at none of the levels.
    assert(bases_disjoint(post.pdpts@, post.pds@)) by {
        assert forall|k: int, l: int|
            0 <= k < post.pdpts@.len() && 0 <= l < post.pds@.len() implies (
        #[trigger] post.pdpts@[k]).base != (#[trigger] post.pds@[l]).base by {
            if k < pre.pdpts@.len() {
                assert(post.pdpts@[k] == pre.pdpts@[k]);
            } else {
                assert(post.pdpts@[k] == nf);
            }
        }
    }
    assert(bases_disjoint(post.pdpts@, post.pts@)) by {
        assert forall|k: int, l: int|
            0 <= k < post.pdpts@.len() && 0 <= l < post.pts@.len() implies (
        #[trigger] post.pdpts@[k]).base != (#[trigger] post.pts@[l]).base by {
            if k < pre.pdpts@.len() {
                assert(post.pdpts@[k] == pre.pdpts@[k]);
            } else {
                assert(post.pdpts@[k] == nf);
            }
        }
    }
    assert(tables_wf(post.pdpts@)) by {
        assert forall|k: int|
            0 <= k < post.pdpts@.len() implies {
            &&& (#[trigger] post.pdpts@[k]).table@.len() == 512
            &&& post.pdpts@[k].base % PAGE_SIZE == 0
            &&& post.pdpts@[k].base < PHYS_ADDR_LIMIT
        } by {
            if k < pre.pdpts@.len() {
                assert(post.pdpts@[k] == pre.pdpts@[k]);
            } else {
                assert(post.pdpts@[k] == nf);
            }
        }
    }
    assert(root_links_into(post.root@, post.pdpts@)) by {
        assert forall|e: int|
            0 <= e < 512 && present(#[trigger] post.root@[e]) implies has_base(
            post.pdpts@,
            entry_addr(post.root@[e]),
        ) by {
            if e != i4 {
                assert(post.root@[e] == pre.root@[e]);
                assert(has_base(pre.pdpts@, entry_addr(pre.root@[e])));
            }
        }
    }
    assert(links_into(post.pdpts@, post.pds@)) by {
        assert forall|k: int, e: int|
            0 <= k < post.pdpts@.len() && 0 <= e < 512 && present(
                #[trigger] post.pdpts@[k].table@[e],
            ) implies has_base(post.pds@, entry_addr(post.pdpts@[k].table@[e])) by {
            if k < pre.pdpts@.len() {
                assert(post.pdpts@[k] == pre.pdpts@[k]);
            } else {
                assert(post.pdpts@[k] == nf);
                assert(post.pdpts@[k].table@[e] == 0);
            }
        }
    }
    assert(root_entries_inj(post.root@)) by {
        assert forall|e: int, e2: int|
            0 <= e < e2 < 512 && present(#[trigger] post.root@[e]) && present(
                #[trigger] post.root@[e2],
            ) implies entry_addr(post.root@[e]) != entry_addr(post.root@[e2]) by {
            if e != i4 && e2 != i4 {
                assert(post.root@[e] == pre.root@[e]);
                assert(post.root@[e2] == pre.root@[e2]);
            } else if e == i4 {
                assert(post.root@[e2] == pre.root@[e2]);
                assert(has_base(pre.pdpts@, entry_addr(pre.root@[e2])));
                assert(entry_addr(post.root@[e]) == b);
            } else {
                assert(post.root@[e] == pre.root@[e]);
                assert(has_base(pre.pdpts@, entry_addr(pre.root@[e])));
                assert(entry_addr(post.root@[e2]) == b);
            }
        }
    }
    assert(entries_inj(post.pdpts@)) by {
        assert forall|k: int, e: int, k2: int, e2: int|
            0 <= k < post.pdpts@.len() && 0 <= e < 512 && 0 <= k2 < post.pdpts@.len() && 0 <= e2
                < 512 && (k != k2 || e != e2) && present(#[trigger] post.pdpts@[k].table@[e])
                && present(#[trigger] post.pdpts@[k2].table@[e2]) implies entry_addr(
            post.pdpts@[k].table@[e],
        ) != entry_addr(post.pdpts@[k2].table@[e2]) by {
            if k < pre.pdpts@.len() && k2 < pre.pdpts@.len() {
                assert(post.pdpts@[k] == pre.pdpts@[k]);
                assert(post.pdpts@[k2] == pre.pdpts@[k2]);
            } else if k >= pre.pdpts@.len() {
                assert(post.pdpts@[k] == nf);
                assert(post.pdpts@[k].table@[e] == 0);
            } else {
                assert(post.pdpts@[k2] == nf);
                assert(post.pdpts@[k2].table@[e2] == 0);
            }
        }
    }
    assert(post.wf());
    // No walk changes: absent before, and the new subtree is empty.
    assert forall|v: u64| #[trigger] post.resolve(v) == pre.resolve(v) by {
        lemma_index_bounds(v);
        if pml4_index(v) == i4 {
            assert(pre.l3_base(v) is None);
            if present(flags) {
                assert(post.l3_base(v) == Some(b));
                assert(table_of(post.pdpts@, b) == nf.table@);
                assert(table_of(post.pdpts@, b)[pdpt_index(v) as int] == 0);
                assert(post.l2_base(v) is None);
            } else {
                assert(!present(b | flags));
                assert(post.l3_base(v) is None);
            }
        } else {
            assert(post.root@[pml4_index(v) as int] == pre.root@[pml4_index(v) as int]);
            let e = pre.root@[pml4_index(v) as int];
            if present(e) && has_base(pre.pdpts@, entry_addr(e)) {
                assert(table_of(post.pdpts@, entry_addr(e)) == table_of(
                    pre.pdpts@,
                    entry_addr(e),
                ));
                assert(post.l3_base(v) == pre.l3_base(v));
                assert(post.l2_base(v) == pre.l2_base(v));
                assert(post.l1_base(v) == pre.l1_base(v));
            } else {
                assert(pre.l3_base(v) is None);
                assert(post.l3_base(v) is None);
            }
        }
    }
    assert forall|v: u64| pml4_index(v) == i4 implies #[trigger] post.l3_base(v) == (if present(
        flags,
    ) {
        Some(b)
    } else {
        None::<u64>
    }) by {
        lemma_index_bounds(v);
    }
    assert forall|v: u64| pml4_index(v) != i4 implies #[trigger] post.l3_base(v) == pre.l3_base(
        v,
    ) by {
        lemma_index_bounds(v);
        assert(post.root@[pml4_index(v) as int] == pre.root@[pml4_index(v) as int]);
    }
}

/// Installing a fresh, zero-filled second-level table under an absent
/// third-level entry changes no walk.
proof fn lemma_install_pd(
    pre: X64MemoryMapper,
    post: X64MemoryMapper,
    b3: u64,
    i3: int,
    b: u64,
    flags: u64,
    nf: TableFrame,
)
    requires
        pre.wf(),
        pre.owns_tables(),
        has_base(pre.pdpts@, b3),
        0 <= i3 < 512,
        !present(table_of(pre.pdpts@, b3)[i3]),
        b % PAGE_SIZE == 0,
        b < PHYS_ADDR_LIMIT,
        flags < PAGE_SIZE,
        !has_base(pre.pdpts@, b),
        !has_base(pre.pds@, b),
        !has_base(pre.pts@, b),
        nf.base == b,
        nf.table@.len() == 512,
        forall|e: int| 0 <= e < 512 ==> nf.table@[e] == 0,
        post.owned,
        post.root_base == pre.root_base,
        post.active == pre.active,
        post.root@ == pre.root@,
        post.pdpts@.len() == pre.pdpts@.len(),
        ({
            let j3 = frame_index(pre.pdpts@, b3);
            &&& post.pdpts@[j3].base == b3
            &&& post.pdpts@[j3].table@ == table_of(pre.pdpts@, b3).update(i3, b | flags)
            &&& forall|k: int|
                0 <= k < pre.pdpts@.len() && k != j3 ==> post.pdpts@[k] == pre.pdpts@[k]
        }),
        post.pds@ == pre.pds@.push(nf),
        post.pts@ == pre.pts@,
    ensures
        post.wf(),
        forall|v: u64| #[trigger] post.resolve(v) == pre.resolve(v),
        forall|v: u64| #[trigger] post.l3_base(v) == pre.l3_base(v),
        forall|v: u64|
            post.l3_base(v) == Some(b3) && pdpt_index(v) == i3 ==> #[trigger] post.l2_base(v)
                == (if present(flags) {
                Some(b)
            } else {
                None::<u64>
            }),
        has_base(post.pds@, b),
        table_of(post.pds@, b) == nf.table@,
{
    lemma_entry_fields(b, flags);
    lemma_zero_entry();
    let j3 = frame_index(pre.pdpts@, b3);
    lemma_frame_index(pre.pdpts@, b3);
    let t3 = table_of(pre.pdpts@, b3).update(i3, b | flags);
    lemma_update_frame(pre.pdpts@, post.pdpts@, j3, t3);
    lemma_push_frame(pre.pds@, nf);
    assert(tables_wf(post.pdpts@)) by {
        assert forall|k: int|
            0 <= k < post.pdpts@.len() implies {
            &&& (#[trigger] post.pdpts@[k]).table@.len() == 512
            &&& post.pdpts@[k].base % PAGE_SIZE == 0
            &&& post.pdpts@[k].base < PHYS_ADDR_LIMIT
        } by {
            if k != j3 {
                assert(post.pdpts@[k] == pre.pdpts@[k]);
            } else {
                assert(post.pdpts@[k].base == pre.pdpts@[k].base);
                assert(pre.pdpts@[j3].table@.len() == 512);
            }
        }
    }
    assert(tables_wf(post.pds@)) by {
        assert forall|k: int|
            0 <= k < post.pds@.len() implies {
            &&& (#[trigger] post.pds@[k]).table@.len() == 512
            &&& post.pds@[k].base % PAGE_SIZE == 0
            &&& post.pds@[k].base < PHYS_ADDR_LIMIT
        } by {
            if k < pre.pds@.len() {
                assert(post.pds@[k] == pre.pds@[k]);
            } else {
                assert(post.pds@[k] == nf);
            }
        }
    }
    assert forall|k: int| 0 <= k < post.pdpts@.len() implies (#[trigger] post.pdpts@[k]).base
        == pre.pdpts@[k].base by {
        if k != j3 {
            assert(post.pdpts@[k] == pre.pdpts@[k]);
        }
    }
    assert(bases_disjoint(post.pdpts@, post.pds@)) by {
        assert forall|k: int, l: int|
            0 <= k < post.pdpts@.len() && 0 <= l < post.pds@.len() implies (
        #[trigger] post.pdpts@[k]).base != (#[trigger] post.pds@[l]).base by {
            if l < pre.pds@.len() {
                assert(post.pds@[l] == pre.pds@[l]);
            } else {
                assert(post.pds@[l] == nf);
                if has_base(pre.pdpts@, b) {
                } else {
                    assert(pre.pdpts@[k].base != b);
                }
            }
        }
    }
    assert(bases_disjoint(post.pdpts@, post.pts@)) by {
        assert forall|k: int, l: int|
            0 <= k < post.pdpts@.len() && 0 <= l < post.pts@.len() implies (
        #[trigger] post.pdpts@[k]).base != (#[trigger] post.pts@[l]).base by {
            assert(post.pdpts@[k].base == pre.pdpts@[k].base);
        }
    }
    assert(bases_disjoint(post.pds@, post.pts@)) by {
        assert forall|k: int, l: int|
            0 <= k < post.pds@.len() && 0 <= l < post.pts@.len() implies (
        #[trigger] post.pds@[k]).base != (#[trigger] post.pts@[l]).base by {
            if k < pre.pds@.len() {
                assert(post.pds@[k] == pre.pds@[k]);
            } else {
                assert(post.pds@[k] == nf);
                assert(pre.pts@[l].base != b);
            }
        }
    }
    assert(root_links_into(post.root@, post.pdpts@)) by {
        assert forall|e: int|
            0 <= e < 512 && present(#[trigger] post.root@[e]) implies has_base(
            post.pdpts@,
            entry_addr(post.root@[e]),
        ) by {
            assert(has_base(pre.pdpts@, entry_addr(pre.root@[e])));
        }
    }
    assert(links_into(post.pdpts@, post.pds@)) by {
        assert forall|k: int, e: int|
            0 <= k < post.pdpts@.len() && 0 <= e < 512 && present(
                #[trigger] post.pdpts@[k].table@[e],
            ) implies has_base(post.pds@, entry_addr(post.pdpts@[k].table@[e])) by {
            if k == j3 && e == i3 {
                assert(entry_addr(post.pdpts@[k].table@[e]) == b);
            } else {
                if k == j3 {
                    assert(post.pdpts@[k].table@[e] == pre.pdpts@[k].table@[e]);
                } else {
                    assert(post.pdpts@[k] == pre.pdpts@[k]);
                }
                assert(has_base(pre.pds@, entry_addr(pre.pdpts@[k].table@[e])));
            }
        }
    }
    assert(links_into(post.pds@, post.pts@)) by {
        assert forall|k: int, e: int|
            0 <= k < post.pds@.len() && 0 <= e < 512 && present(
                #[trigger] post.pds@[k].table@[e],
            ) implies has_base(post.pts@, entry_addr(post.pds@[k].table@[e])) by {
            if k < pre.pds@.len() {
                assert(post.pds@[k] == pre.pds@[k]);
                assert(has_base(pre.pts@, entry_addr(pre.pds@[k].table@[e])));
            } else {
                assert(post.pds@[k] == nf);
                assert(post.pds@[k].table@[e] == 0);
            }
        }
    }
    assert(entries_inj(post.pdpts@)) by {
        assert forall|k: int, e: int, k2: int, e2: int|
            0 <= k < post.pdpts@.len() && 0 <= e < 512 && 0 <= k2 < post.pdpts@.len() && 0 <= e2
                < 512 && (k != k2 || e != e2) && present(#[trigger] post.pdpts@[k].table@[e])
                && present(#[trigger] post.pdpts@[k2].table@[e2]) implies entry_addr(
            post.pdpts@[k].table@[e],
        ) != entry_addr(post.pdpts@[k2].table@[e2]) by {
            if k == j3 && e == i3 {
                assert(entry_addr(post.pdpts@[k].table@[e]) == b);
                if k2 == j3 {
                    assert(post.pdpts@[k2].table@[e2] == pre.pdpts@[k2].table@[e2]);
                } else {
                    assert(post.pdpts@[k2] == pre.pdpts@[k2]);
                }
                assert(has_base(pre.pds@, entry_addr(pre.pdpts@[k2].table@[e2])));
            } else if k2 == j3 && e2 == i3 {
                assert(entry_addr(post.pdpts@[k2].table@[e2]) == b);
                if k == j3 {
                    assert(post.pdpts@[k].table@[e] == pre.pdpts@[k].table@[e]);
                } else {
                    assert(post.pdpts@[k] == pre.pdpts@[k]);
                }
                assert(has_base(pre.pds@, entry_addr(pre.pdpts@[k].table@[e])));
            } else {
                if k == j3 {
                    assert(post.pdpts@[k].table@[e] == pre.pdpts@[k].table@[e]);
                } else {
                    assert(post.pdpts@[k] == pre.pdpts@[k]);
                }
                if k2 == j3 {
                    assert(post.pdpts@[k2].table@[e2] == pre.pdpts@[k2].table@[e2]);
                } else {
                    assert(post.pdpts@[k2] == pre.pdpts@[k2]);
                }
            }
        }
    }
    assert(entries_inj(post.pds@)) by {
        assert forall|k: int, e: int, k2: int, e2: int|
            0 <= k < post.pds@.len() && 0 <= e < 512 && 0 <= k2 < post.pds@.len() && 0 <= e2 < 512
                && (k != k2 || e != e2) && present(#[trigger] post.pds@[k].table@[e]) && present(
                #[trigger] post.pds@[k2].table@[e2],
            ) implies entry_addr(post.pds@[k].table@[e]) != entry_addr(
            post.pds@[k2].table@[e2],
        ) by {
            if k >= pre.pds@.len() {
                assert(post.pds@[k] == nf);
                assert(post.pds@[k].table@[e] == 0);
            } else if k2 >= pre.pds@.len() {
                assert(post.pds@[k2] == nf);
                assert(post.pds@[k2].table@[e2] == 0);
            } else {
                assert(post.pds@[k] == pre.pds@[k]);
                assert(post.pds@[k2] == pre.pds@[k2]);
            }
        }
    }
    assert(post.wf());
    assert forall|v: u64| #[trigger] post.l3_base(v) == pre.l3_base(v) by {
        lemma_index_bounds(v);
        let e = pre.root@[pml4_index(v) as int];
        if present(e) {
            assert(has_base(post.pdpts@, entry_addr(e)) == has_base(pre.pdpts@, entry_addr(e)));
        }
    }
    assert forall|v: u64| #[trigger] post.resolve(v) == pre.resolve(v) by {
        lemma_index_bounds(v);
        match pre.l3_base(v) {
            None => {
                assert(post.l2_base(v) is None && pre.l2_base(v) is None);
            },
            Some(b3v) => {
                assert(has_base(pre.pdpts@, b3v));
                if b3v != b3 {
                    assert(table_of(post.pdpts@, b3v) == table_of(pre.pdpts@, b3v));
                } else {
                    assert(table_of(post.pdpts@, b3) == t3);
                }
                let ev = table_of(pre.pdpts@, b3v)[pdpt_index(v) as int];
                if b3v == b3 && pdpt_index(v) == i3 {
                    assert(!present(ev));
                    assert(pre.l2_base(v) is None);
                    if present(flags) {
                        assert(post.l2_base(v) == Some(b));
                        assert(table_of(post.pds@, b) == nf.table@);
                        assert(table_of(post.pds@, b)[pd_index(v) as int] == 0);
                        assert(post.l1_base(v) is None);
                    } else {
                        assert(post.l2_base(v) is None);
                    }
                    assert(pre.resolve(v) is None && post.resolve(v) is None);
                } else {
                    assert(table_of(post.pdpts@, b3v)[pdpt_index(v) as int] == ev);
                    if present(ev) {
                        let b2v = entry_addr(ev);
                        assert(has_base(pre.pds@, b2v));
                        assert(has_base(post.pds@, b2v));
                        assert(table_of(post.pds@, b2v) == table_of(pre.pds@, b2v));
                        assert(post.l2_base(v) == pre.l2_base(v));
                        assert(post.l1_base(v) == pre.l1_base(v));
                    } else {
                        assert(post.l2_base(v) is None && pre.l2_base(v) is None);
                    }
                }
            },
        }
    }
    assert forall|v: u64|
        post.l3_base(v) == Some(b3) && pdpt_index(v) == i3 implies #[trigger] post.l2_base(v)
            == (if present(flags) {
        Some(b)
    } else {
        None::<u64>
    }) by {
        lemma_index_bounds(v);
        assert(table_of(post.pdpts@, b3) == t3);
        assert(table_of(post.pdpts@, b3)[i3] == (b | flags));
    }
}

/// Installing a fresh, zero-filled leaf table under an absent second-level
/// entry changes no walk.
proof fn lemma_install_pt(
    pre: X64MemoryMapper,
    post: X64MemoryMapper,
    b2: u64,
    i2: int,
    b: u64,
    flags: u64,
    nf: TableFrame,
)
    requires
        pre.wf(),
        pre.owns_tables(),
        has_base(pre.pds@, b2),
        0 <= i2 < 512,
        !present(table_of(pre.pds@, b2)[i2]),
        b % PAGE_SIZE == 0,
        b < PHYS_ADDR_LIMIT,
        flags < PAGE_SIZE,
        !has_base(pre.pdpts@, b),
        !has_base(pre.pds@, b),
        !has_base(pre.pts@, b),
        nf.base == b,
        nf.table@.len() == 512,
        forall|e: int| 0 <= e < 512 ==> nf.table@[e] == 0,
        post.owned,
        post.root_base == pre.root_base,
        post.active == pre.active,
        post.root@ == pre.root@,
        post.pdpts@ == pre.pdpts@,
        post.pds@.len() == pre.pds@.len(),
        ({
            let j2 = frame_index(pre.pds@, b2);
            &&& post.pds@[j2].base == b2
            &&& post.pds@[j2].table@ == table_of(pre.pds@, b2).update(i2, b | flags)
            &&& forall|k: int|
                0 <= k < pre.pds@.len() && k != j2 ==> post.pds@[k] == pre.pds@[k]
        }),
        post.pts@ == pre.pts@.push(nf),
    ensures
        post.wf(),
        forall|v: u64| #[trigger] post.resolve(v) == pre.resolve(v),
        forall|v: u64| #[trigger] post.l3_base(v) == pre.l3_base(v),
        forall|v: u64| #[trigger] post.l2_base(v) == pre.l2_base(v),
        forall|v: u64|
            post.l2_base(v) == Some(b2) && pd_index(v) == i2 ==> #[trigger] post.l1_base(v) == (
            if present(flags) {
                Some(b)
            } else {
                None::<u64>
            }),
        has_base(post.pts@, b),
        table_of(post.pts@, b) == nf.table@,
{
    lemma_entry_fields(b, flags);
    lemma_zero_entry();
    let j2 = frame_index(pre.pds@, b2);
    lemma_frame_index(pre.pds@, b2);
    let t2 = table_of(pre.pds@, b2).update(i2, b | flags);
    lemma_update_frame(pre.pds@, post.pds@, j2, t2);
    lemma_push_frame(pre.pts@, nf);
    assert(tables_wf(post.pds@)) by {
        assert forall|k: int|
            0 <= k < post.pds@.len() implies {
            &&& (#[trigger] post.pds@[k]).table@.len() == 512
            &&& post.pds@[k].base % PAGE_SIZE == 0
            &&& post.pds@[k].base < PHYS_ADDR_LIMIT
        } by {
            if k != j2 {
                assert(post.pds@[k] == pre.pds@[k]);
            } else {
                assert(post.pds@[k].base == pre.pds@[k].base);
                assert(pre.pds@[j2].table@.len() == 512);
            }
        }
    }
    assert(tables_wf(post.pts@)) by {
        assert forall|k: int|
            0 <= k < post.pts@.len() implies {
            &&& (#[trigger] post.pts@[k]).table@.len() == 512
            &&& post.pts@[k].base % PAGE_SIZE == 0
            &&& post.pts@[k].base < PHYS_ADDR_LIMIT
        } by {
            if k < pre.pts@.len() {
                assert(post.pts@[k] == pre.pts@[k]);
            } else {
                assert(post.pts@[k] == nf);
            }
        }
    }
    assert forall|k: int| 0 <= k < post.pds@.len() implies (#[trigger] post.pds@[k]).base
        == pre.pds@[k].base by {
        if k != j2 {
            assert(post.pds@[k] == pre.pds@[k]);
        }
    }
    assert(bases_disjoint(post.pdpts@, post.pds@)) by {
        assert forall|k: int, l: int|
            0 <= k < post.pdpts@.len() && 0 <= l < post.pds@.len() implies (
        #[trigger] post.pdpts@[k]).base != (#[trigger] post.pds@[l]).base by {
            assert(post.pds@[l].base == pre.pds@[l].base);
        }
    }
    assert(bases_disjoint(post.pdpts@, post.pts@)) by {
        assert forall|k: int, l: int|
            0 <= k < post.pdpts@.len() && 0 <= l < post.pts@.len() implies (
        #[trigger] post.pdpts@[k]).base != (#[trigger] post.pts@[l]).base by {
            if l < pre.pts@.len() {
                assert(post.pts@[l] == pre.pts@[l]);
            } else {
                assert(post.pts@[l] == nf);
                assert(pre.pdpts@[k].base != b);
            }
        }
    }
    assert(bases_disjoint(post.pds@, post.pts@)) by {
        assert forall|k: int, l: int|
            0 <= k < post.pds@.len() && 0 <= l < post.pts@.len() implies (
        #[trigger] post.pds@[k]).base != (#[trigger] post.pts@[l]).base by {
            assert(post.pds@[k].base == pre.pds@[k].base);
            if l < pre.pts@.len() {
                assert(post.pts@[l] == pre.pts@[l]);
            } else {
                assert(post.pts@[l] == nf);
                assert(pre.pds@[k].base != b);
            }
        }
    }
    assert(root_links_into(post.root@, post.pdpts@));
    assert(links_into(post.pdpts@, post.pds@)) by {
        assert forall|k: int, e: int|
            0 <= k < post.pdpts@.len() && 0 <= e < 512 && present(
                #[trigger] post.pdpts@[k].table@[e],
            ) implies has_base(post.pds@, entry_addr(post.pdpts@[k].table@[e])) by {
            assert(has_base(pre.pds@, entry_addr(pre.pdpts@[k].table@[e])));
        }
    }
    assert(links_into(post.pds@, post.pts@)) by {
        assert forall|k: int, e: int|
            0 <= k < post.pds@.len() && 0 <= e < 512 && present(
                #[trigger] post.pds@[k].table@[e],
            ) implies has_base(post.pts@, entry_addr(post.pds@[k].table@[e])) by {
            if k == j2 && e == i2 {
                assert(entry_addr(post.pds@[k].table@[e]) == b);
            } else {
                if k == j2 {
                    assert(post.pds@[k].table@[e] == pre.pds@[k].table@[e]);
                } else {
                    assert(post.pds@[k] == pre.pds@[k]);
                }
                assert(has_base(pre.pts@, entry_addr(pre.pds@[k].table@[e])));
            }
        }
    }
    assert(entries_inj(post.pds@)) by {
        assert forall|k: int, e: int, k2: int, e2: int|
            0 <= k < post.pds@.len() && 0 <= e < 512 && 0 <= k2 < post.pds@.len() && 0 <= e2 < 512
                && (k != k2 || e != e2) && present(#[trigger] post.pds@[k].table@[e]) && present(
                #[trigger] post.pds@[k2].table@[e2],
            ) implies entry_addr(post.pds@[k].table@[e]) != entry_addr(
            post.pds@[k2].table@[e2],
        ) by {
            if k == j2 && e == i2 {
                assert(entry_addr(post.pds@[k].table@[e]) == b);
                if k2 == j2 {
                    assert(post.pds@[k2].table@[e2] == pre.pds@[k2].table@[e2]);
                } else {
                    assert(post.pds@[k2] == pre.pds@[k2]);
                }
                assert(has_base(pre.pts@, entry_addr(pre.pds@[k2].table@[e2])));
            } else if k2 == j2 && e2 == i2 {
                assert(entry_addr(post.pds@[k2].table@[e2]) == b);
                if k == j2 {
                    assert(post.pds@[k].table@[e] == pre.pds@[k].table@[e]);
                } else {
                    assert(post.pds@[k] == pre.pds@[k]);
                }
                assert(has_base(pre.pts@, entry_addr(pre.pds@[k].table@[e])));
            } else {
                if k == j2 {
                    assert(post.pds@[k].table@[e] == pre.pds@[k].table@[e]);
                } else {
                    assert(post.pds@[k] == pre.pds@[k]);
                }
                if k2 == j2 {
                    assert(post.pds@[k2].table@[e2] == pre.pds@[k2].table@[e2]);
                } else {
                    assert(post.pds@[k2] == pre.pds@[k2]);
                }
            }
        }
    }
    assert(post.wf());
    assert forall|v: u64| #[trigger] post.l3_base(v) == pre.l3_base(v) by {
        lemma_index_bounds(v);
    }
    assert forall|v: u64| #[trigger] post.l2_base(v) == pre.l2_base(v) by {
        lemma_index_bounds(v);
        match pre.l3_base(v) {
            None => {},
            Some(b3v) => {
                assert(table_of(post.pdpts@, b3v) == table_of(pre.pdpts@, b3v));
                let ev = table_of(pre.pdpts@, b3v)[pdpt_index(v) as int];
                if present(ev) {
                    assert(has_base(post.pds@, entry_addr(ev)) == has_base(
                        pre.pds@,
                        entry_addr(ev),
                    ));
                }
            },
        }
    }
    assert forall|v: u64| #[trigger] post.resolve(v) == pre.resolve(v) by {
        lemma_index_bounds(v);
        match pre.l2_base(v) {
            None => {
                assert(post.l1_base(v) is None && pre.l1_base(v) is None);
            },
            Some(b2v) => {
                assert(has_base(pre.pds@, b2v));
                if b2v != b2 {
                    assert(table_of(post.pds@, b2v) == table_of(pre.pds@, b2v));
                } else {
                    assert(table_of(post.pds@, b2) == t2);
                }
                let ev = table_of(pre.pds@, b2v)[pd_index(v) as int];
                if b2v == b2 && pd_index(v) == i2 {
                    assert(!present(ev));
                    assert(pre.l1_base(v) is None);
                    if present(flags) {
                        assert(post.l1_base(v) == Some(b));
                        assert(table_of(post.pts@, b) == nf.table@);
                        assert(table_of(post.pts@, b)[pt_index(v) as int] == 0);
                    } else {
                        assert(post.l1_base(v) is None);
                    }
                    assert(pre.resolve(v) is None && post.resolve(v) is None);
                } else {
                    assert(table_of(post.pds@, b2v)[pd_index(v) as int] == ev);
                    if present(ev) {
                        let b1v = entry_addr(ev);
                        assert(has_base(pre.pts@, b1v));
                        assert(has_base(post.pts@, b1v));
                        assert(table_of(post.pts@, b1v) == table_of(pre.pts@, b1v));
                        assert(post.l1_base(v) == pre.l1_base(v));
                    } else {
                        assert(post.l1_base(v) is None && pre.l1_base(v) is None);
                    }
                }
            },
        }
    }
    assert forall|v: u64|
        post.l2_base(v) == Some(b2) && pd_index(v) == i2 implies #[trigger] post.l1_base(v) == (
    if present(flags) {
        Some(b)
    } else {
        None::<u64>
    }) by {
        lemma_index_bounds(v);
        assert(table_of(post.pds@, b2) == t2);
        assert(table_of(post.pds@, b2)[i2] == (b | flags));
    }
}

/// Writing into a leaf table that no present second-level entry points at
/// changes no walk at all: the table is unreachable.
proof fn lemma_hidden_leaf_write(
    pre: X64MemoryMapper,
    post: X64MemoryMapper,
    i1: int,
    b1: u64,
    val: u64,
)
    requires
        pre.wf(),
        pre.owns_tables(),
        has_base(pre.pts@, b1),
        0 <= i1 < 512,
        forall|k: int, e: int|
            0 <= k < pre.pds@.len() && 0 <= e < 512 && present(#[trigger] pre.pds@[k].table@[e])
                ==> entry_addr(pre.pds@[k].table@[e]) != b1,
        post.owned,
        post.root_base == pre.root_base,
        post.active == pre.active,
        post.root@ == pre.root@,
        post.pdpts@ == pre.pdpts@,
        post.pds@ == pre.pds@,
        post.pts@.len() == pre.pts@.len(),
        ({
            let j1 = frame_index(pre.pts@, b1);
            &&& post.pts@[j1].base == b1
            &&& post.pts@[j1].table@ == pre.pts@[j1].table@.update(i1, val)
            &&& forall|k: int|
                0 <= k < pre.pts@.len() && k != j1 ==> post.pts@[k] == pre.pts@[k]
        }),
    ensures
        post.wf(),
        forall|v: u64| #[trigger] post.resolve(v) == pre.resolve(v),
{
    let j1 = frame_index(pre.pts@, b1);
    lemma_frame_index(pre.pts@, b1);
    let t1 = pre.pts@[j1].table@.update(i1, val);
    lemma_update_frame(pre.pts@, post.pts@, j1, t1);
    assert(tables_wf(post.pts@)) by {
        assert forall|k: int|
            0 <= k < post.pts@.len() implies {
            &&& (#[trigger] post.pts@[k]).table@.len() == 512
            &&& post.pts@[k].base % PAGE_SIZE == 0
            &&& post.pts@[k].base < PHYS_ADDR_LIMIT
        } by {
            if k != j1 {
                assert(post.pts@[k] == pre.pts@[k]);
            } else {
                assert(post.pts@[k].base == pre.pts@[k].base);
                assert(pre.pts@[j1].table@.len() == 512);
            }
        }
    }
    assert(links_into(post.pds@, post.pts@)) by {
        assert forall|k: int, e: int|
            0 <= k < post.pds@.len() && 0 <= e < 512 && present(
                #[trigger] post.pds@[k].table@[e],
            ) implies has_base(post.pts@, entry_addr(post.pds@[k].table@[e])) by {
            assert(has_base(pre.pts@, entry_addr(pre.pds@[k].table@[e])));
        }
    }
    assert(post.wf());
    assert forall|v: u64| #[trigger] post.resolve(v) == pre.resolve(v) by {
        lemma_index_bounds(v);
        match pre.l2_base(v) {
            None => {
                assert(post.l1_base(v) is None && pre.l1_base(v) is None);
            },
            Some(b2v) => {
                let kv = frame_index(pre.pds@, b2v);
                lemma_frame_index(pre.pds@, b2v);
                let ev = table_of(pre.pds@, b2v)[pd_index(v) as int];
                if present(ev) {
                    assert(pre.pds@[kv].table@[pd_index(v) as int] == ev);
                    assert(entry_addr(ev) != b1);
                    assert(has_base(post.pts@, entry_addr(ev)) == has_base(
                        pre.pts@,
                        entry_addr(ev),
                    ));
                    if has_base(pre.pts@, entry_addr(ev)) {
                        assert(table_of(post.pts@, entry_addr(ev)) == table_of(
                            pre.pts@,
                            entry_addr(ev),
                        ));
                    }
                }
                assert(post.l1_base(v) == pre.l1_base(v));
            },
        }
    }
}

impl MemoryMapper for X64MemoryMapper {
    closed spec fn wf(&self) -> bool {
        if self.owned {
            &&& self.root@.len() == 512
            &&& self.root_base % PAGE_SIZE == 0
            &&& self.root_base < PHYS_ADDR_LIMIT
            &&& tables_wf(self.pdpts@)
            &&& tables_wf(self.pds@)
            &&& tables_wf(self.pts@)
            &&& bases_distinct(self.pdpts@)
            &&& bases_distinct(self.pds@)
            &&& bases_distinct(self.pts@)
            &&& bases_disjoint(self.pdpts@, self.pds@)
            &&& bases_disjoint(self.pdpts@, self.pts@)
            &&& bases_disjoint(self.pds@, self.pts@)
            &&& root_links_into(self.root@, self.pdpts@)
            &&& links_into(self.pdpts@, self.pds@)
            &&& links_into(self.pds@, self.pts@)
            &&& root_entries_inj(self.root@)
            &&& entries_inj(self.pdpts@)
            &&& entries_inj(self.pds@)
        } else {
            &&& self.root@.len() == 0
            &&& self.pdpts@.len() == 0
            &&& self.pds@.len() == 0
            &&& self.pts@.len() == 0
        }
    }

    closed spec fn owns_tables(&self) -> bool {
        self.owned
    }

    closed spec fn root_address(&self) -> u64 {
        self.root_base
    }

    closed spec fn is_active(&self) -> bool {
        self.active
    }

    closed spec fn resolve(&self, virt: u64) -> Option<(u64, u64)> {
        if self.owned {
            match self.l1_base(virt) {
                None => None,
                Some(b1) => {
                    let e = table_of(self.pts@, b1)[pt_index(virt) as int];
                    if present(e) {
                        Some((entry_addr(e), entry_flags(e)))
                    } else {
                        None
                    }
                },
            }
        } else {
            None
        }
    }

    closed spec fn fresh_for(&self, allocator: BumpAllocator) -> bool {
        &&& allocator.retired(self.root_base)
        &&& forall|k: int|
            0 <= k < self.pdpts@.len() ==> allocator.retired((#[trigger] self.pdpts@[k]).base)
        &&& forall|k: int|
            0 <= k < self.pds@.len() ==> allocator.retired((#[trigger] self.pds@[k]).base)
        &&& forall|k: int|
            0 <= k < self.pts@.len() ==> allocator.retired((#[trigger] self.pts@[k]).base)
    }

    fn new(allocator: &mut BumpAllocator) -> (r: Result<X64MemoryMapper, OutOfMemory>) {
        match allocator.allocate(1) {
            None => Err(OutOfMemory),
            Some(a) => {
                let m = X64MemoryMapper {
                    root_base: a.0,
                    owned: true,
                    active: false,
                    root: PageTable::new_zeroed(),
                    pdpts: Vec::new(),
                    pds: Vec::new(),
                    pts: Vec::new(),
                };
                proof {
                    lemma_zero_entry();
                    assert forall|v: u64| #[trigger] m.resolve(v) is None by {
                        lemma_index_bounds(v);
                        assert(m.root@[pml4_index(v) as int] == 0);
                    }
                }
                Ok(m)
            },
        }
    }

    fn from_active(root: PhysicalAddress) -> (r: X64MemoryMapper) {
        X64MemoryMapper {
            root_base: root.0,
            owned: false,
            active: false,
            root: PageTable { entries: Vec::new() },
            pdpts: Vec::new(),
            pds: Vec::new(),
            pts: Vec::new(),
        }
    }

    #[verifier::rlimit(100)]
    #[verifier::spinoff_prover]
    fn map(
        &mut self,
        allocator: &mut BumpAllocator,
        phys: PhysicalAddress,
        virt: VirtualAddress,
        flags: u64,
    ) -> (r: Result<(), OutOfMemory>) {
        proof {
            lemma_index_bounds(virt.0);
        }
        let i4: usize = ((virt.0 >> 39) & 0x1ff) as usize;
        let i3: usize = ((virt.0 >> 30) & 0x1ff) as usize;
        let i2: usize = ((virt.0 >> 21) & 0x1ff) as usize;
        let i1: usize = ((virt.0 >> 12) & 0x1ff) as usize;
        proof {
            assert(i4 as u64 == pml4_index(virt.0));
            assert(i3 as u64 == pdpt_index(virt.0));
            assert(i2 as u64 == pd_index(virt.0));
            assert(i1 as u64 == pt_index(virt.0));
        }
        let ghost s0 = *self;
        let ghost al0 = *allocator;
        let b3: u64 = match self.ensure_pdpt(allocator, i4, flags) {
            Ok(b) => b,
            Err(e) => {
                proof {
                    if has_fit(al0@, 3) {
                        let jj = choose|j: int| 0 <= j < al0@.len() && (#[trigger] al0@[j]).fits(
                            3,
                        );
                        assert(al0@[jj].fits(1));
                        assert(false);
                    }
                }
                return Err(e);
            },
        };
        let ghost s1 = *self;
        let ghost al1 = *allocator;
        proof {
            lemma_alloc_step_frames(al0@, 1);
        }
        let b2: u64 = match self.ensure_pd(allocator, b3, i3, flags) {
            Ok(b) => b,
            Err(e) => {
                proof {
                    if has_fit(al0@, 3) {
                        let jj = choose|j: int| 0 <= j < al0@.len() && (#[trigger] al0@[j]).fits(
                            3,
                        );
                        lemma_alloc_step_remaining(al0@, 1, jj);
                        assert(al1@[jj].fits(1));
                        assert(false);
                    }
                    assert forall|v: u64| #[trigger] self.resolve(v) == s0.resolve(v) by {
                        assert(self.resolve(v) == s1.resolve(v));
                    }
                    assert forall|b: u64| al0.retired(b) implies #[trigger] allocator.retired(
                        b,
                    ) by {
                        assert(al1.retired(b));
                    }
                    assert forall|j: int|
                        0 <= j < al0@.len() implies {
                        &&& (#[trigger] allocator@[j]).heap_start == al0@[j].heap_start
                        &&& allocator@[j].heap_end == al0@[j].heap_end
                        &&& allocator@[j].next >= al0@[j].next
                    } by {
                        assert(al1@[j].heap_start == al0@[j].heap_start && al1@[j].heap_end
                            == al0@[j].heap_end && al1@[j].next >= al0@[j].next);
                    }
                    assert(sum_spans(allocator@) == sum_spans(al0@)) by {
                        assert(sum_spans(al1@) == sum_spans(al0@));
                    }
                }
                return Err(e);
            },
        };
        let ghost s2 = *self;
        let ghost al2 = *allocator;
        proof {
            lemma_alloc_step_frames(al1@, 1);
        }
        let b1: u64 = match self.ensure_pt(allocator, b2, i2, flags) {
            Ok(b) => b,
            Err(e) => {
                proof {
                    if has_fit(al0@, 3) {
                        let jj = choose|j: int| 0 <= j < al0@.len() && (#[trigger] al0@[j]).fits(
                            3,
                        );
                        lemma_alloc_step_remaining(al0@, 1, jj);
                        lemma_alloc_step_remaining(al1@, 1, jj);
                        assert(al2@[jj].fits(1));
                        assert(false);
                    }
                    assert forall|v: u64| #[trigger] self.resolve(v) == s0.resolve(v) by {
                        assert(self.resolve(v) == s2.resolve(v));
                        assert(s2.resolve(v) == s1.resolve(v));
                    }
                    assert forall|b: u64| al0.retired(b) implies #[trigger] allocator.retired(
                        b,
                    ) by {
                        assert(al1.retired(b));
                        assert(al2.retired(b));
                    }
                    assert forall|j: int|
                        0 <= j < al0@.len() implies {
                        &&& (#[trigger] allocator@[j]).heap_start == al0@[j].heap_start
                        &&& allocator@[j].heap_end == al0@[j].heap_end
                        &&& allocator@[j].next >= al0@[j].next
                    } by {
                        assert(al1@[j].heap_start == al0@[j].heap_start && al1@[j].heap_end
                            == al0@[j].heap_end && al1@[j].next >= al0@[j].next);
                        assert(al2@[j].heap_start == al1@[j].heap_start && al2@[j].heap_end
                            == al1@[j].heap_end && al2@[j].next >= al1@[j].next);
                    }
                    assert(sum_spans(allocator@) == sum_spans(al0@)) by {
                        assert(sum_spans(al1@) == sum_spans(al0@));
                        assert(sum_spans(al2@) == sum_spans(al1@));
                    }
                }
                return Err(e);
            },
        };
        let ghost s3 = *self;
        let ghost al3 = *allocator;
        proof {
            lemma_alloc_step_frames(al2@, 1);
        }
        // Leaf level: write the translation unconditionally, last write wins.
        let j1: usize = locate(&self.pts, b1);
        proof {
            lemma_frame_index_unique(s3.pts@, b1, j1 as int);
            assert(s3.pts@[j1 as int].table@.len() == 512);
        }
        self.pts[j1].table.entries[i1] = phys.0 | flags;
        proof {
            lemma_entry_fields(phys.0, flags);
            lemma_zero_entry();
            let pf = flags & ENTRY_PRESENT == ENTRY_PRESENT;
            let eA = s0.root@[i4 as int];
            let eB = table_of(s1.pdpts@, b3)[i3 as int];
            let eC = table_of(s2.pds@, b2)[i2 as int];
            // Below an absent level every entry read came from a fresh
            // zero-filled table, so absence cascades downwards.
            if !present(eA) {
                assert(eB == 0);
            }
            if !present(eB) {
                assert(eC == 0);
            }
            if present(eC) || pf {
                // The path down to the leaf table is fully present.
                assert(s1.l3_base(virt.0) == Some(b3));
                assert(s3.l3_base(virt.0) == Some(b3)) by {
                    assert(s2.l3_base(virt.0) == s1.l3_base(virt.0));
                    assert(s3.l3_base(virt.0) == s2.l3_base(virt.0));
                }
                assert(s2.l2_base(virt.0) == Some(b2)) by {
                    assert(s2.l3_base(virt.0) == Some(b3));
                }
                assert(s3.l2_base(virt.0) == Some(b2)) by {
                    assert(s3.l2_base(virt.0) == s2.l2_base(virt.0));
                }
                assert(s3.l1_base(virt.0) == Some(b1));
                lemma_leaf_write(s3, *self, virt.0, b1, phys.0 | flags);
                assert forall|v: u64| vpn(v) == vpn(virt.0) implies #[trigger] self.resolve(v)
                    == (if flags & ENTRY_PRESENT == ENTRY_PRESENT {
                    Some((phys.0, flags))
                } else {
                    None::<(u64, u64)>
                }) by {
                    assert(present(phys.0 | flags) <==> flags & 1 == 1);
                }
            } else {
                // Flags leave the fresh links absent: the new leaf table is
                // unreachable, and the walk of this page number was and
                // stays absent.
                lemma_hidden_leaf_write(s3, *self, i1 as int, b1, phys.0 | flags);
                if !present(eA) {
                    assert(s0.l3_base(virt.0) is None);
                } else if !present(eB) {
                    assert(s1 == s0);
                    assert(s0.l3_base(virt.0) == Some(b3));
                    assert(s0.l2_base(virt.0) is None);
                } else {
                    assert(s1 == s0 && s2 == s1);
                    assert(s2.l3_base(virt.0) == Some(b3));
                    assert(s2.l2_base(virt.0) == Some(b2));
                    assert(s0.l1_base(virt.0) is None);
                }
                assert(s0.resolve(virt.0) is None);
                assert forall|v: u64| vpn(v) == vpn(virt.0) implies #[trigger] self.resolve(v)
                    is None by {
                    lemma_vpn_is_indices(v, virt.0);
                    assert(s0.l3_base(v) == s0.l3_base(virt.0));
                    assert(s0.l2_base(v) == s0.l2_base(virt.0));
                    assert(s0.l1_base(v) == s0.l1_base(virt.0));
                    assert(s0.resolve(v) is None);
                    assert(self.resolve(v) == s3.resolve(v));
                    assert(s3.resolve(v) == s2.resolve(v));
                    assert(s2.resolve(v) == s1.resolve(v));
                    assert(s1.resolve(v) == s0.resolve(v));
                }
            }
            assert forall|v: u64| vpn(v) != vpn(virt.0) implies #[trigger] self.resolve(v)
                == s0.resolve(v) by {
                assert(self.resolve(v) == s3.resolve(v));
                assert(s3.resolve(v) == s2.resolve(v));
                assert(s2.resolve(v) == s1.resolve(v));
                assert(s1.resolve(v) == s0.resolve(v));
            }
            // The leaf write keeps every table base, so freshness carries
            // over.
            assert forall|k: int|
                0 <= k < self.pts@.len() implies al3.retired(
                (#[trigger] self.pts@[k]).base,
            ) by {
                if k != j1 as int {
                    assert(self.pts@[k] == s3.pts@[k]);
                } else {
                    assert(self.pts@[k].base == s3.pts@[k].base);
                }
                assert(al3.retired(s3.pts@[k].base));
            }
            assert(self.fresh_for(*allocator));
            // Allocator bookkeeping composes across the at-most-three grabs.
            assert forall|j: int|
                0 <= j < al0@.len() implies {
                &&& (#[trigger] allocator@[j]).heap_start == al0@[j].heap_start
                &&& allocator@[j].heap_end == al0@[j].heap_end
                &&& allocator@[j].next >= al0@[j].next
            } by {
                assert(al1@[j].heap_start == al0@[j].heap_start && al1@[j].heap_end
                    == al0@[j].heap_end && al1@[j].next >= al0@[j].next);
                assert(al2@[j].heap_start == al1@[j].heap_start && al2@[j].heap_end
                    == al1@[j].heap_end && al2@[j].next >= al1@[j].next);
                assert(al3@[j].heap_start == al2@[j].heap_start && al3@[j].heap_end
                    == al2@[j].heap_end && al3@[j].next >= al2@[j].next);
            }
            assert(sum_spans(allocator@) == sum_spans(al0@)) by {
                assert(sum_spans(al1@) == sum_spans(al0@));
                assert(sum_spans(al2@) == sum_spans(al1@));
                assert(sum_spans(al3@) == sum_spans(al2@));
            }
            assert forall|b: u64| al0.retired(b) implies #[trigger] allocator.retired(b) by {
                assert(al1.retired(b));
                assert(al2.retired(b));
                assert(al3.retired(b));
            }
        }
        Ok(())
    }

    fn unmap(&mut self, virt: VirtualAddress) {
        proof {
            lemma_index_bounds(virt.0);
        }
        let i4: usize = ((virt.0 >> 39) & 0x1ff) as usize;
        let i3: usize = ((virt.0 >> 30) & 0x1ff) as usize;
        let i2: usize = ((virt.0 >> 21) & 0x1ff) as usize;
        let i1: usize = ((virt.0 >> 12) & 0x1ff) as usize;
        proof {
            assert(i4 as u64 == pml4_index(virt.0));
            assert(i3 as u64 == pdpt_index(virt.0));
            assert(i2 as u64 == pd_index(virt.0));
            assert(i1 as u64 == pt_index(virt.0));
        }
        let e4: u64 = self.root.entries[i4];
        if e4 & ENTRY_PRESENT != ENTRY_PRESENT {
            proof {
                assert forall|v: u64| vpn(v) == vpn(virt.0) implies #[trigger] self.resolve(
                    v,
                ) is None by {
                    lemma_vpn_is_indices(v, virt.0);
                }
            }
            return ;
        }
        let b3: u64 = e4 & ENTRY_ADDR_MASK;
        proof {
            assert(has_base(self.pdpts@, b3));
        }
        let j3: usize = locate(&self.pdpts, b3);
        proof {
            lemma_frame_index_unique(self.pdpts@, b3, j3 as int);
            assert(self.pdpts@[j3 as int].table@.len() == 512);
        }
        let e3: u64 = self.pdpts[j3].table.entries[i3];
        if e3 & ENTRY_PRESENT != ENTRY_PRESENT {
            proof {
                assert forall|v: u64| vpn(v) == vpn(virt.0) implies #[trigger] self.resolve(
                    v,
                ) is None by {
                    lemma_vpn_is_indices(v, virt.0);
                    assert(self.l3_base(v) == Some(b3));
                    assert(table_of(self.pdpts@, b3)[pdpt_index(v) as int] == e3);
                }
            }
            return ;
        }
        let b2: u64 = e3 & ENTRY_ADDR_MASK;
        proof {
            assert(has_base(self.pds@, b2));
        }
        let j2: usize = locate(&self.pds, b2);
        proof {
            lemma_frame_index_unique(self.pds@, b2, j2 as int);
            assert(self.pds@[j2 as int].table@.len() == 512);
        }
        let e2: u64 = self.pds[j2].table.entries[i2];
        if e2 & ENTRY_PRESENT != ENTRY_PRESENT {
            proof {
                assert forall|v: u64| vpn(v) == vpn(virt.0) implies #[trigger] self.resolve(
                    v,
                ) is None by {
                    lemma_vpn_is_indices(v, virt.0);
                    assert(self.l3_base(v) == Some(b3));
                    assert(self.l2_base(v) == Some(b2));
                    assert(table_of(self.pds@, b2)[pd_index(v) as int] == e2);
                }
            }
            return ;
        }
        let b1: u64 = e2 & ENTRY_ADDR_MASK;
        proof {
            assert(has_base(self.pts@, b1));
        }
        let j1: usize = locate(&self.pts, b1);
        proof {
            lemma_frame_index_unique(self.pts@, b1, j1 as int);
            assert(self.pts@[j1 as int].table@.len() == 512);
        }
        let ghost pre = *self;
        self.pts[j1].table.entries[i1] = 0;
        proof {
            lemma_zero_entry();
            assert(pre.l3_base(virt.0) == Some(b3));
            assert(pre.l2_base(virt.0) == Some(b2));
            assert(pre.l1_base(virt.0) == Some(b1));
            assert(frame_index(pre.pts@, b1) == j1 as int);
            assert(self.pts@[j1 as int].table@ == pre.pts@[j1 as int].table@.update(
                pt_index(virt.0) as int,
                0u64,
            ));
            assert forall|k: int|
                0 <= k < pre.pts@.len() && k != j1 as int implies self.pts@[k] == pre.pts@[k] by {}
            lemma_leaf_write(pre, *self, virt.0, b1, 0);
            assert forall|al: BumpAllocator| pre.fresh_for(al) implies #[trigger] self.fresh_for(
                al,
            ) by {
                assert forall|k: int|
                    0 <= k < self.pts@.len() implies al.retired(
                    (#[trigger] self.pts@[k]).base,
                ) by {
                    if k != j1 as int {
                        assert(self.pts@[k] == pre.pts@[k]);
                    } else {
                        assert(self.pts@[k].base == pre.pts@[k].base);
                    }
                    assert(al.retired(pre.pts@[k].base));
                }
            }
        }
    }

    fn submit(&mut self) -> (r: PhysicalAddress) {
        self.active = true;
        PhysicalAddress(self.root_base)
    }

}

impl X64MemoryMapper {
    /// Returns the base of the third-level table serving root slot `i4`,
    /// building it from a fresh zero-filled frame when the slot is absent.
    fn ensure_pdpt(&mut self, allocator: &mut BumpAllocator, i4: usize, flags: u64) -> (r: Result<
        u64,
        OutOfMemory,
    >)
        requires
            old(self).wf(),
            old(self).owns_tables(),
            old(self).fresh_for(*old(allocator)),
            old(allocator).wf(),
            old(allocator).cursors_aligned(),
            old(allocator).arenas_disjoint(),
            old(allocator).arenas_below_limit(),
            i4 < 512,
            flags < PAGE_SIZE,
        ensures
            final(self).wf(),
            final(self).owns_tables(),
            final(self).root_address() == old(self).root_address(),
            final(self).is_active() == old(self).is_active(),
            final(self).fresh_for(*final(allocator)),
            final(allocator).wf(),
            final(allocator).cursors_aligned(),
            final(allocator).arenas_disjoint(),
            final(allocator).arenas_below_limit(),
            final(allocator)@ == old(allocator)@ || final(allocator)@ == alloc_step(
                old(allocator)@,
                1,
            ),
            forall|b: u64| old(allocator).retired(b) ==> #[trigger] final(allocator).retired(b),
            forall|v: u64| #[trigger] final(self).resolve(v) == old(self).resolve(v),
            r is Err ==> *final(self) == *old(self) && final(allocator)@ == old(allocator)@
                && !has_fit(final(allocator)@, 1),
            r matches Ok(b3) ==> ({
                let e = old(self).root@[i4 as int];
                &&& has_base(final(self).pdpts@, b3)
                &&& (present(e) ==> *final(self) == *old(self) && final(allocator)@ == old(allocator)@)
                &&& (!present(e) ==> (forall|k: int|
                    0 <= k < 512 ==> table_of(final(self).pdpts@, b3)[k] == 0) && final(allocator)@ == alloc_step(old(allocator)@, 1))
                &&& forall|v: u64|
                    pml4_index(v) == i4 as u64 ==> #[trigger] final(self).l3_base(v) == (
                    if present(e) || present(flags) {
                        Some(b3)
                    } else {
                        None::<u64>
                    })
            }),
    {
        let ghost s0 = *self;
        let ghost al0 = *allocator;
        let e4: u64 = self.root.entries[i4];
        if e4 & ENTRY_PRESENT == ENTRY_PRESENT {
            let b3: u64 = e4 & ENTRY_ADDR_MASK;
            proof {
                assert(has_base(self.pdpts@, b3));
                assert forall|v: u64| pml4_index(v) == i4 as u64 implies #[trigger] self.l3_base(
                    v,
                ) == Some(b3) by {
                    assert(present(self.root@[pml4_index(v) as int]));
                }
            }
            Ok(b3)
        } else {
            match allocator.allocate(1) {
                None => Err(OutOfMemory),
                Some(a) => {
                    let b3: u64 = a.0;
                    proof {
                        assert(!al0.retired(b3));
                        assert forall|k: int|
                            0 <= k < s0.pdpts@.len() implies (#[trigger] s0.pdpts@[k]).base
                            != b3 by {
                            assert(al0.retired(s0.pdpts@[k].base));
                        }
                        assert forall|k: int|
                            0 <= k < s0.pds@.len() implies (#[trigger] s0.pds@[k]).base != b3 by {
                            assert(al0.retired(s0.pds@[k].base));
                        }
                        assert forall|k: int|
                            0 <= k < s0.pts@.len() implies (#[trigger] s0.pts@[k]).base != b3 by {
                            assert(al0.retired(s0.pts@[k].base));
                        }
                        if has_base(s0.pdpts@, b3) {
                            lemma_frame_index(s0.pdpts@, b3);
                        }
                        if has_base(s0.pds@, b3) {
                            lemma_frame_index(s0.pds@, b3);
                        }
                        if has_base(s0.pts@, b3) {
                            lemma_frame_index(s0.pts@, b3);
                        }
                    }
                    let nf = TableFrame { base: b3, table: PageTable::new_zeroed() };
                    let ghost nfg = nf;
                    self.root.entries[i4] = b3 | flags;
                    self.pdpts.push(nf);
                    proof {
                        lemma_install_pdpt(s0, *self, i4 as int, b3, flags, nfg);
                        assert(forall|k: int|
                            0 <= k < 512 ==> table_of(self.pdpts@, b3)[k] == 0);
                        assert forall|k: int|
                            0 <= k < self.pdpts@.len() implies allocator.retired(
                            (#[trigger] self.pdpts@[k]).base,
                        ) by {
                            if k < s0.pdpts@.len() {
                                assert(self.pdpts@[k] == s0.pdpts@[k]);
                                assert(al0.retired(s0.pdpts@[k].base));
                            } else {
                                assert(self.pdpts@[k] == nfg);
                            }
                        }
                        assert forall|k: int|
                            0 <= k < self.pds@.len() implies allocator.retired(
                            (#[trigger] self.pds@[k]).base,
                        ) by {
                            assert(al0.retired(s0.pds@[k].base));
                        }
                        assert forall|k: int|
                            0 <= k < self.pts@.len() implies allocator.retired(
                            (#[trigger] self.pts@[k]).base,
                        ) by {
                            assert(al0.retired(s0.pts@[k].base));
                        }
                        assert(self.fresh_for(*allocator));
                    }
                    Ok(b3)
                },
            }
        }
    }

    /// Returns the base of the second-level table behind slot `i3` of the
    /// third-level table at `b3`, building it when the slot is absent.
    fn ensure_pd(
        &mut self,
        allocator: &mut BumpAllocator,
        b3: u64,
        i3: usize,
        flags: u64,
    ) -> (r: Result<u64, OutOfMemory>)
        requires
            old(self).wf(),
            old(self).owns_tables(),
            old(self).fresh_for(*old(allocator)),
            old(allocator).wf(),
            old(allocator).cursors_aligned(),
            old(allocator).arenas_disjoint(),
            old(allocator).arenas_below_limit(),
            has_base(old(self).pdpts@, b3),
            i3 < 512,
            flags < PAGE_SIZE,
        ensures
            final(self).wf(),
            final(self).owns_tables(),
            final(self).root_address() == old(self).root_address(),
            final(self).is_active() == old(self).is_active(),
            final(self).fresh_for(*final(allocator)),
            final(allocator).wf(),
            final(allocator).cursors_aligned(),
            final(allocator).arenas_disjoint(),
            final(allocator).arenas_below_limit(),
            final(allocator)@ == old(allocator)@ || final(allocator)@ == alloc_step(
                old(allocator)@,
                1,
            ),
            forall|b: u64| old(allocator).retired(b) ==> #[trigger] final(allocator).retired(b),
            forall|v: u64| #[trigger] final(self).resolve(v) == old(self).resolve(v),
            forall|v: u64| #[trigger] final(self).l3_base(v) == old(self).l3_base(v),
            r is Err ==> *final(self) == *old(self) && final(allocator)@ == old(allocator)@
                && !has_fit(final(allocator)@, 1),
            r matches Ok(b2) ==> ({
                let e = table_of(old(self).pdpts@, b3)[i3 as int];
                &&& has_base(final(self).pds@, b2)
                &&& (present(e) ==> *final(self) == *old(self) && final(allocator)@ == old(allocator)@)
                &&& (!present(e) ==> (forall|k: int|
                    0 <= k < 512 ==> table_of(final(self).pds@, b2)[k] == 0) && final(allocator)@ == alloc_step(old(allocator)@, 1))
                &&& forall|v: u64|
                    final(self).l3_base(v) == Some(b3) && pdpt_index(v) == i3 as u64
                        ==> #[trigger] final(self).l2_base(v) == (if present(e) || present(
                        flags,
                    ) {
                        Some(b2)
                    } else {
                        None::<u64>
                    })
            }),
    {
        let ghost s0 = *self;
        let ghost al0 = *allocator;
        let j3: usize = locate(&self.pdpts, b3);
        proof {
            lemma_frame_index_unique(s0.pdpts@, b3, j3 as int);
            assert(s0.pdpts@[j3 as int].table@.len() == 512);
        }
        let e3: u64 = self.pdpts[j3].table.entries[i3];
        if e3 & ENTRY_PRESENT == ENTRY_PRESENT {
            let b2: u64 = e3 & ENTRY_ADDR_MASK;
            proof {
                assert(has_base(self.pds@, b2));
                assert forall|v: u64|
                    self.l3_base(v) == Some(b3) && pdpt_index(v) == i3 as u64
                        implies #[trigger] self.l2_base(v) == Some(b2) by {
                    assert(table_of(self.pdpts@, b3)[pdpt_index(v) as int] == e3);
                }
            }
            Ok(b2)
        } else {
            match allocator.allocate(1) {
                None => Err(OutOfMemory),
                Some(a) => {
                    let b2: u64 = a.0;
                    proof {
                        assert(!al0.retired(b2));
                        assert forall|k: int|
                            0 <= k < s0.pdpts@.len() implies (#[trigger] s0.pdpts@[k]).base
                            != b2 by {
                            assert(al0.retired(s0.pdpts@[k].base));
                        }
                        assert forall|k: int|
                            0 <= k < s0.pds@.len() implies (#[trigger] s0.pds@[k]).base != b2 by {
                            assert(al0.retired(s0.pds@[k].base));
                        }
                        assert forall|k: int|
                            0 <= k < s0.pts@.len() implies (#[trigger] s0.pts@[k]).base != b2 by {
                            assert(al0.retired(s0.pts@[k].base));
                        }
                        if has_base(s0.pdpts@, b2) {
                            lemma_frame_index(s0.pdpts@, b2);
                        }
                        if has_base(s0.pds@, b2) {
                            lemma_frame_index(s0.pds@, b2);
                        }
                        if has_base(s0.pts@, b2) {
                            lemma_frame_index(s0.pts@, b2);
                        }
                    }
                    let nf = TableFrame { base: b2, table: PageTable::new_zeroed() };
                    let ghost nfg = nf;
                    self.pdpts[j3].table.entries[i3] = b2 | flags;
                    self.pds.push(nf);
                    proof {
                        lemma_install_pd(s0, *self, b3, i3 as int, b2, flags, nfg);
                        assert(forall|k: int| 0 <= k < 512 ==> table_of(self.pds@, b2)[k] == 0);
                        assert forall|k: int|
                            0 <= k < self.pdpts@.len() implies allocator.retired(
                            (#[trigger] self.pdpts@[k]).base,
                        ) by {
                            if k != j3 as int {
                                assert(self.pdpts@[k] == s0.pdpts@[k]);
                            } else {
                                assert(self.pdpts@[k].base == s0.pdpts@[k].base);
                            }
                            assert(al0.retired(s0.pdpts@[k].base));
                        }
                        assert forall|k: int|
                            0 <= k < self.pds@.len() implies allocator.retired(
                            (#[trigger] self.pds@[k]).base,
                        ) by {
                            if k < s0.pds@.len() {
                                assert(self.pds@[k] == s0.pds@[k]);
                                assert(al0.retired(s0.pds@[k].base));
                            } else {
                                assert(self.pds@[k] == nfg);
                            }
                        }
                        assert forall|k: int|
                            0 <= k < self.pts@.len() implies allocator.retired(
                            (#[trigger] self.pts@[k]).base,
                        ) by {
                            assert(al0.retired(s0.pts@[k].base));
                        }
                        assert(self.fresh_for(*allocator));
                    }
                    Ok(b2)
                },
            }
        }
    }

    /// Returns the base of the leaf table behind slot `i2` of the
    /// second-level table at `b2`, building it when the slot is absent.
    fn ensure_pt(
        &mut self,
        allocator: &mut BumpAllocator,
        b2: u64,
        i2: usize,
        flags: u64,
    ) -> (r: Result<u64, OutOfMemory>)
        requires
            old(self).wf(),
            old(self).owns_tables(),
            old(self).fresh_for(*old(allocator)),
            old(allocator).wf(),
            old(allocator).cursors_aligned(),
            old(allocator).arenas_disjoint(),
            old(allocator).arenas_below_limit(),
            has_base(old(self).pds@, b2),
            i2 < 512,
            flags < PAGE_SIZE,
        ensures
            final(self).wf(),
            final(self).owns_tables(),
            final(self).root_address() == old(self).root_address(),
            final(self).is_active() == old(self).is_active(),
            final(self).fresh_for(*final(allocator)),
            final(allocator).wf(),
            final(allocator).cursors_aligned(),
            final(allocator).arenas_disjoint(),
            final(allocator).arenas_below_limit(),
            final(allocator)@ == old(allocator)@ || final(allocator)@ == alloc_step(
                old(allocator)@,
                1,
            ),
            forall|b: u64| old(allocator).retired(b) ==> #[trigger] final(allocator).retired(b),
            forall|v: u64| #[trigger] final(self).resolve(v) == old(self).resolve(v),
            forall|v: u64| #[trigger] final(self).l3_base(v) == old(self).l3_base(v),
            forall|v: u64| #[trigger] final(self).l2_base(v) == old(self).l2_base(v),
            r is Err ==> *final(self) == *old(self) && final(allocator)@ == old(allocator)@
                && !has_fit(final(allocator)@, 1),
            r matches Ok(b1) ==> ({
                let e = table_of(old(self).pds@, b2)[i2 as int];
                &&& has_base(final(self).pts@, b1)
                &&& (present(e) ==> *final(self) == *old(self) && final(allocator)@ == old(allocator)@)
                &&& (!present(e) ==> final(allocator)@ == alloc_step(old(allocator)@, 1))
                &&& ((!present(e) && !present(flags)) ==> forall|k: int, e2: int|
                    0 <= k < final(self).pds@.len() && 0 <= e2 < 512 && present(
                        #[trigger] final(self).pds@[k].table@[e2],
                    ) ==> entry_addr(final(self).pds@[k].table@[e2]) != b1)
                &&& forall|v: u64|
                    final(self).l2_base(v) == Some(b2) && pd_index(v) == i2 as u64
                        ==> #[trigger] final(self).l1_base(v) == (if present(e) || present(
                        flags,
                    ) {
                        Some(b1)
                    } else {
                        None::<u64>
                    })
            }),
    {
        let ghost s0 = *self;
        let ghost al0 = *allocator;
        let j2: usize = locate(&self.pds, b2);
        proof {
            lemma_frame_index_unique(s0.pds@, b2, j2 as int);
            assert(s0.pds@[j2 as int].table@.len() == 512);
        }
        let e2: u64 = self.pds[j2].table.entries[i2];
        if e2 & ENTRY_PRESENT == ENTRY_PRESENT {
            let b1: u64 = e2 & ENTRY_ADDR_MASK;
            proof {
                assert(has_base(self.pts@, b1));
                assert forall|v: u64|
                    self.l2_base(v) == Some(b2) && pd_index(v) == i2 as u64
                        implies #[trigger] self.l1_base(v) == Some(b1) by {
                    assert(table_of(self.pds@, b2)[pd_index(v) as int] == e2);
                }
            }
            Ok(b1)
        } else {
            match allocator.allocate(1) {
                None => Err(OutOfMemory),
                Some(a) => {
                    let b1: u64 = a.0;
                    proof {
                        assert(!al0.retired(b1));
                        assert forall|k: int|
                            0 <= k < s0.pdpts@.len() implies (#[trigger] s0.pdpts@[k]).base
                            != b1 by {
                            assert(al0.retired(s0.pdpts@[k].base));
                        }
                        assert forall|k: int|
                            0 <= k < s0.pds@.len() implies (#[trigger] s0.pds@[k]).base != b1 by {
                            assert(al0.retired(s0.pds@[k].base));
                        }
                        assert forall|k: int|
                            0 <= k < s0.pts@.len() implies (#[trigger] s0.pts@[k]).base != b1 by {
                            assert(al0.retired(s0.pts@[k].base));
                        }
                        if has_base(s0.pdpts@, b1) {
                            lemma_frame_index(s0.pdpts@, b1);
                        }
                        if has_base(s0.pds@, b1) {
                            lemma_frame_index(s0.pds@, b1);
                        }
                        if has_base(s0.pts@, b1) {
                            lemma_frame_index(s0.pts@, b1);
                        }
                    }
                    let nf = TableFrame { base: b1, table: PageTable::new_zeroed() };
                    let ghost nfg = nf;
                    self.pds[j2].table.entries[i2] = b1 | flags;
                    self.pts.push(nf);
                    proof {
                        lemma_install_pt(s0, *self, b2, i2 as int, b1, flags, nfg);
                        if flags & ENTRY_PRESENT != ENTRY_PRESENT {
                            lemma_entry_fields(b1, flags);
                            assert forall|k: int, e2x: int|
                                0 <= k < self.pds@.len() && 0 <= e2x < 512 && present(
                                    #[trigger] self.pds@[k].table@[e2x],
                                ) implies entry_addr(self.pds@[k].table@[e2x]) != b1 by {
                                if k == j2 as int && e2x == i2 as int {
                                    assert(self.pds@[k].table@[e2x] == (b1 | flags));
                                    assert(false);
                                } else {
                                    if k == j2 as int {
                                        assert(self.pds@[k].table@[e2x]
                                            == s0.pds@[k].table@[e2x]);
                                    } else {
                                        assert(self.pds@[k] == s0.pds@[k]);
                                    }
                                    assert(has_base(
                                        s0.pts@,
                                        entry_addr(s0.pds@[k].table@[e2x]),
                                    ));
                                    if entry_addr(s0.pds@[k].table@[e2x]) == b1 {
                                        lemma_frame_index(s0.pts@, b1);
                                        assert(false);
                                    }
                                }
                            }
                        }
                        assert forall|k: int|
                            0 <= k < self.pdpts@.len() implies allocator.retired(
                            (#[trigger] self.pdpts@[k]).base,
                        ) by {
                            assert(al0.retired(s0.pdpts@[k].base));
                        }
                        assert forall|k: int|
                            0 <= k < self.pds@.len() implies allocator.retired(
                            (#[trigger] self.pds@[k]).base,
                        ) by {
                            if k != j2 as int {
                                assert(self.pds@[k] == s0.pds@[k]);
                            } else {
                                assert(self.pds@[k].base == s0.pds@[k].base);
                            }
                            assert(al0.retired(s0.pds@[k].base));
                        }
                        assert forall|k: int|
                            0 <= k < self.pts@.len() implies allocator.retired(
                            (#[trigger] self.pts@[k]).base,
                        ) by {
                            if k < s0.pts@.len() {
                                assert(self.pts@[k] == s0.pts@[k]);
                                assert(al0.retired(s0.pts@[k].base));
                            } else {
                                assert(self.pts@[k] == nfg);
                            }
                        }
                        assert(self.fresh_for(*allocator));
                    }
                    Ok(b1)
                },
            }
        }
    }
    /// Translates `virt` read-only: the mapped frame address and its flag
    /// bits, or `None` where any level along the path is absent.
    pub fn walk(&self, virt: VirtualAddress) -> (r: Option<(PhysicalAddress, u64)>)
        requires
            self.wf(),
            self.owns_tables(),
        ensures
            r == match self.resolve(virt.0) {
                None => None::<(PhysicalAddress, u64)>,
                Some((p, f)) => Some((PhysicalAddress(p), f)),
            },
    {
        proof {
            lemma_index_bounds(virt.0);
        }
        let i4: usize = ((virt.0 >> 39) & 0x1ff) as usize;
        let i3: usize = ((virt.0 >> 30) & 0x1ff) as usize;
        let i2: usize = ((virt.0 >> 21) & 0x1ff) as usize;
        let i1: usize = ((virt.0 >> 12) & 0x1ff) as usize;
        proof {
            assert(i4 as u64 == pml4_index(virt.0));
            assert(i3 as u64 == pdpt_index(virt.0));
            assert(i2 as u64 == pd_index(virt.0));
            assert(i1 as u64 == pt_index(virt.0));
        }
        let e4: u64 = self.root.entries[i4];
        if e4 & ENTRY_PRESENT != ENTRY_PRESENT {
            return None;
        }
        let b3: u64 = e4 & ENTRY_ADDR_MASK;
        proof {
            assert(has_base(self.pdpts@, b3));
        }
        let j3: usize = locate(&self.pdpts, b3);
        proof {
            lemma_frame_index_unique(self.pdpts@, b3, j3 as int);
            assert(self.pdpts@[j3 as int].table@.len() == 512);
        }
        let e3: u64 = self.pdpts[j3].table.entries[i3];
        if e3 & ENTRY_PRESENT != ENTRY_PRESENT {
            proof {
                assert(table_of(self.pdpts@, b3)[pdpt_index(virt.0) as int] == e3);
            }
            return None;
        }
        let b2: u64 = e3 & ENTRY_ADDR_MASK;
        proof {
            assert(has_base(self.pds@, b2));
        }
        let j2: usize = locate(&self.pds, b2);
        proof {
            lemma_frame_index_unique(self.pds@, b2, j2 as int);
            assert(self.pds@[j2 as int].table@.len() == 512);
        }
        let e2: u64 = self.pds[j2].table.entries[i2];
        if e2 & ENTRY_PRESENT != ENTRY_PRESENT {
            proof {
                assert(table_of(self.pds@, b2)[pd_index(virt.0) as int] == e2);
            }
            return None;
        }
        let b1: u64 = e2 & ENTRY_ADDR_MASK;
        proof {
            assert(has_base(self.pts@, b1));
        }
        let j1: usize = locate(&self.pts, b1);
        proof {
            lemma_frame_index_unique(self.pts@, b1, j1 as int);
            assert(self.pts@[j1 as int].table@.len() == 512);
        }
        let e1: u64 = self.pts[j1].table.entries[i1];
        proof {
            assert(table_of(self.pts@, b1)[pt_index(virt.0) as int] == e1);
        }
        if e1 & ENTRY_PRESENT != ENTRY_PRESENT {
            return None;
        }
        Some((PhysicalAddress(e1 & ENTRY_ADDR_MASK), e1 & ENTRY_FLAGS_MASK))
    }

    /// Produces every translation the tree holds: one (virtual page base,
    /// mapped frame) pair per present leaf entry, skipping absent entries at
    /// every level.  Read-only; usable for introspection and testing.
    pub fn mappings(&self) -> (r: Vec<(VirtualAddress, PhysicalAddress)>)
        requires
            self.wf(),
            self.owns_tables(),
        ensures
            mappings_sound(self, r@),
            forall|a: u64, b: u64, c: u64, d: u64|
                a < 512 && b < 512 && c < 512 && d < 512 ==> #[trigger] page_listed(
                    self,
                    r@,
                    a,
                    b,
                    c,
                    d,
                ),
    {
        let mut out: Vec<(VirtualAddress, PhysicalAddress)> = Vec::new();
        let mut a: usize = 0;
        while a < 512
            invariant
                self.wf(),
                self.owns_tables(),
                a <= 512,
                mappings_sound(self, out@),
                forall|x: u64, y: u64, z: u64, w: u64|
                    x < a && y < 512 && z < 512 && w < 512 ==> #[trigger] page_listed(
                        self,
                        out@,
                        x,
                        y,
                        z,
                        w,
                    ),
            decreases 512 - a,
        {
            let e4: u64 = self.root.entries[a];
            if e4 & ENTRY_PRESENT == ENTRY_PRESENT {
                let b3: u64 = e4 & ENTRY_ADDR_MASK;
                proof {
                    assert(has_base(self.pdpts@, b3));
                }
                let j3: usize = locate(&self.pdpts, b3);
                proof {
                    lemma_frame_index_unique(self.pdpts@, b3, j3 as int);
                    assert(self.pdpts@[j3 as int].table@.len() == 512);
                }
                let mut b: usize = 0;
                while b < 512
                    invariant
                        self.wf(),
                        self.owns_tables(),
                        a < 512,
                        b <= 512,
                        present(self.root@[a as int]),
                        b3 == entry_addr(self.root@[a as int]),
                        j3 < self.pdpts@.len(),
                        self.pdpts@[j3 as int].base == b3,
                        self.pdpts@[j3 as int].table@.len() == 512,
                        mappings_sound(self, out@),
                        forall|x: u64, y: u64, z: u64, w: u64|
                            x < a && y < 512 && z < 512 && w < 512 ==> #[trigger] page_listed(
                                self,
                                out@,
                                x,
                                y,
                                z,
                                w,
                            ),
                        forall|y: u64, z: u64, w: u64|
                            y < b && z < 512 && w < 512 ==> #[trigger] page_listed(
                                self,
                                out@,
                                a as u64,
                                y,
                                z,
                                w,
                            ),
                    decreases 512 - b,
                {
                    let e3: u64 = self.pdpts[j3].table.entries[b];
                    if e3 & ENTRY_PRESENT == ENTRY_PRESENT {
                        let b2: u64 = e3 & ENTRY_ADDR_MASK;
                        proof {
                            lemma_frame_index_unique(self.pdpts@, b3, j3 as int);
                            assert(has_base(self.pds@, b2));
                        }
                        let j2: usize = locate(&self.pds, b2);
                        proof {
                            lemma_frame_index_unique(self.pds@, b2, j2 as int);
                            assert(self.pds@[j2 as int].table@.len() == 512);
                        }
                        let mut c: usize = 0;
                        while c < 512
                            invariant
                                self.wf(),
                                self.owns_tables(),
                                a < 512,
                                b < 512,
                                c <= 512,
                                present(self.root@[a as int]),
                                b3 == entry_addr(self.root@[a as int]),
                                j3 < self.pdpts@.len(),
                                self.pdpts@[j3 as int].base == b3,
                                self.pdpts@[j3 as int].table@.len() == 512,
                                present(self.pdpts@[j3 as int].table@[b as int]),
                                b2 == entry_addr(self.pdpts@[j3 as int].table@[b as int]),
                                j2 < self.pds@.len(),
                                self.pds@[j2 as int].base == b2,
                                self.pds@[j2 as int].table@.len() == 512,
                                mappings_sound(self, out@),
                                forall|x: u64, y: u64, z: u64, w: u64|
                                    x < a && y < 512 && z < 512 && w < 512
                                        ==> #[trigger] page_listed(self, out@, x, y, z, w),
                                forall|y: u64, z: u64, w: u64|
                                    y < b && z < 512 && w < 512 ==> #[trigger] page_listed(
                                        self,
                                        out@,
                                        a as u64,
                                        y,
                                        z,
                                        w,
                                    ),
                                forall|z: u64, w: u64|
                                    z < c && w < 512 ==> #[trigger] page_listed(
                                        self,
                                        out@,
                                        a as u64,
                                        b as u64,
                                        z,
                                        w,
                                    ),
                            decreases 512 - c,
                        {
                            let e2: u64 = self.pds[j2].table.entries[c];
                            if e2 & ENTRY_PRESENT == ENTRY_PRESENT {
                                let b1: u64 = e2 & ENTRY_ADDR_MASK;
                                proof {
                                    lemma_frame_index_unique(self.pds@, b2, j2 as int);
                                    assert(has_base(self.pts@, b1));
                                }
                                let j1: usize = locate(&self.pts, b1);
                                proof {
                                    lemma_frame_index_unique(self.pts@, b1, j1 as int);
                                    assert(self.pts@[j1 as int].table@.len() == 512);
                                }
                                let mut d: usize = 0;
                                while d < 512
                                    invariant
                                        self.wf(),
                                        self.owns_tables(),
                                        a < 512,
                                        b < 512,
                                        c < 512,
                                        d <= 512,
                                        present(self.root@[a as int]),
                                        b3 == entry_addr(self.root@[a as int]),
                                        j3 < self.pdpts@.len(),
                                        self.pdpts@[j3 as int].base == b3,
                                        self.pdpts@[j3 as int].table@.len() == 512,
                                        present(self.pdpts@[j3 as int].table@[b as int]),
                                        b2 == entry_addr(self.pdpts@[j3 as int].table@[b as int]),
                                        j2 < self.pds@.len(),
                                        self.pds@[j2 as int].base == b2,
                                        self.pds@[j2 as int].table@.len() == 512,
                                        present(self.pds@[j2 as int].table@[c as int]),
                                        b1 == entry_addr(self.pds@[j2 as int].table@[c as int]),
                                        j1 < self.pts@.len(),
                                        self.pts@[j1 as int].base == b1,
                                        self.pts@[j1 as int].table@.len() == 512,
                                        mappings_sound(self, out@),
                                        forall|x: u64, y: u64, z: u64, w: u64|
                                            x < a && y < 512 && z < 512 && w < 512
                                                ==> #[trigger] page_listed(self, out@, x, y, z, w),
                                        forall|y: u64, z: u64, w: u64|
                                            y < b && z < 512 && w < 512 ==> #[trigger] page_listed(
                                                self,
                                                out@,
                                                a as u64,
                                                y,
                                                z,
                                                w,
                                            ),
                                        forall|z: u64, w: u64|
                                            z < c && w < 512 ==> #[trigger] page_listed(
                                                self,
                                                out@,
                                                a as u64,
                                                b as u64,
                                                z,
                                                w,
                                            ),
                                        forall|w: u64|
                                            w < d ==> #[trigger] page_listed(
                                                self,
                                                out@,
                                                a as u64,
                                                b as u64,
                                                c as u64,
                                                w,
                                            ),
                                    decreases 512 - d,
                                {
                                    let e1: u64 = self.pts[j1].table.entries[d];
                                    proof {
                                        lemma_recombine_indices(
                                            a as u64,
                                            b as u64,
                                            c as u64,
                                            d as u64,
                                        );
                                        lemma_frame_index_unique(self.pdpts@, b3, j3 as int);
                                        lemma_frame_index_unique(self.pds@, b2, j2 as int);
                                        lemma_frame_index_unique(self.pts@, b1, j1 as int);
                                        assert(has_base(self.pdpts@, b3));
                                        assert(has_base(self.pds@, b2));
                                        assert(has_base(self.pts@, b1));
                                    }
                                    let ghost va = recombine(a as u64, b as u64, c as u64, d as u64);
                                    proof {
                                        assert(self.l3_base(va) == Some(b3));
                                        assert(self.l2_base(va) == Some(b2));
                                        assert(self.l1_base(va) == Some(b1));
                                        assert(table_of(self.pts@, b1)[pt_index(va) as int] == e1);
                                    }
                                    if e1 & ENTRY_PRESENT == ENTRY_PRESENT {
                                        let vexec: u64 = ((a as u64) << 39) | ((b as u64) << 30) | (
                                        (c as u64) << 21) | ((d as u64) << 12);
                                        proof {
                                            assert(vexec == va);
                                            assert(self.resolve(va) == Some(
                                                (entry_addr(e1), entry_flags(e1)),
                                            ));
                                        }
                                        let ghost out0 = out@;
                                        out.push(
                                            (
                                                VirtualAddress(vexec),
                                                PhysicalAddress(e1 & ENTRY_ADDR_MASK),
                                            ),
                                        );
                                        proof {
                                            lemma_listed_after_push(
                                                self,
                                                out0,
                                                (
                                                    VirtualAddress(va),
                                                    PhysicalAddress(entry_addr(e1)),
                                                ),
                                            );
                                            assert(mappings_sound(self, out@)) by {
                                                assert forall|k: int|
                                                    0 <= k < out@.len() implies (self.resolve(
                                                    (#[trigger] out@[k]).0.0,
                                                ) matches Some(pf) && pf.0 == out@[k].1.0) by {
                                                    if k < out0.len() {
                                                        assert(out@[k] == out0[k]);
                                                    } else {
                                                        assert(out@[k] == (
                                                            VirtualAddress(va),
                                                            PhysicalAddress(entry_addr(e1)),
                                                        ));
                                                    }
                                                }
                                            }
                                            assert(page_listed(
                                                self,
                                                out@,
                                                a as u64,
                                                b as u64,
                                                c as u64,
                                                d as u64,
                                            )) by {
                                                assert(out@[out0.len() as int] == (
                                                    VirtualAddress(va),
                                                    PhysicalAddress(entry_addr(e1)),
                                                ));
                                            }
                                        }
                                    } else {
                                        proof {
                                            assert(self.resolve(va) is None);
                                        }
                                    }
                                    proof {
                                        assert forall|w: u64| w <= d as u64 implies #[trigger] page_listed(
                                            self,
                                            out@,
                                            a as u64,
                                            b as u64,
                                            c as u64,
                                            w,
                                        ) by {
                                            if w == d as u64 {
                                                assert(page_listed(
                                                    self,
                                                    out@,
                                                    a as u64,
                                                    b as u64,
                                                    c as u64,
                                                    d as u64,
                                                ));
                                            }
                                        }
                                    }
                                    d = d + 1;
                                }
                            } else {
                                proof {
                                    lemma_frame_index_unique(self.pds@, b2, j2 as int);
                                    assert forall|z: u64, w: u64|
                                        z == c as u64 && w < 512 implies #[trigger] page_listed(
                                        self,
                                        out@,
                                        a as u64,
                                        b as u64,
                                        z,
                                        w,
                                    ) by {
                                        lemma_recombine_indices(a as u64, b as u64, z, w);
                                        lemma_frame_index_unique(self.pdpts@, b3, j3 as int);
                                        assert(has_base(self.pdpts@, b3));
                                        assert(has_base(self.pds@, b2));
                                        let v = recombine(a as u64, b as u64, z, w);
                                        assert(self.l3_base(v) == Some(b3));
                                        assert(self.l2_base(v) == Some(b2));
                                        assert(table_of(self.pds@, b2)[pd_index(v) as int] == e2);
                                        assert(self.l1_base(v) is None);
                                        assert(self.resolve(v) is None);
                                    }
                                }
                            }
                            proof {
                                assert forall|z: u64, w: u64| z <= c as u64 && w < 512 implies #[trigger] page_listed(
                                    self,
                                    out@,
                                    a as u64,
                                    b as u64,
                                    z,
                                    w,
                                ) by {
                                    if z == c as u64 {
                                        assert(page_listed(self, out@, a as u64, b as u64, c as u64, w));
                                    }
                                }
                            }
                            c = c + 1;
                        }
                    } else {
                        proof {
                            lemma_frame_index_unique(self.pdpts@, b3, j3 as int);
                            assert forall|y: u64, z: u64, w: u64|
                                y == b as u64 && z < 512 && w < 512 implies #[trigger] page_listed(
                                self,
                                out@,
                                a as u64,
                                y,
                                z,
                                w,
                            ) by {
                                lemma_recombine_indices(a as u64, y, z, w);
                                assert(has_base(self.pdpts@, b3));
                                let v = recombine(a as u64, y, z, w);
                                assert(self.l3_base(v) == Some(b3));
                                assert(table_of(self.pdpts@, b3)[pdpt_index(v) as int] == e3);
                                assert(self.l2_base(v) is None);
                                assert(self.resolve(v) is None);
                            }
                        }
                    }
                    proof {
                        assert forall|y: u64, z: u64, w: u64| y <= b as u64 && z < 512 && w < 512 implies #[trigger] page_listed(
                            self,
                            out@,
                            a as u64,
                            y,
                            z,
                            w,
                        ) by {
                            if y == b as u64 {
                                assert(page_listed(self, out@, a as u64, b as u64, z, w));
                            }
                        }
                    }
                    b = b + 1;
                }
            } else {
                proof {
                    assert forall|y: u64, z: u64, w: u64|
                        y < 512 && z < 512 && w < 512 implies #[trigger] page_listed(
                        self,
                        out@,
                        a as u64,
                        y,
                        z,
                        w,
                    ) by {
                        lemma_recombine_indices(a as u64, y, z, w);
                        let v = recombine(a as u64, y, z, w);
                        assert(!present(self.root@[pml4_index(v) as int]));
                        assert(self.l3_base(v) is None);
                        assert(self.resolve(v) is None);
                    }
                }
            }
            proof {
                assert forall|x: u64, y: u64, z: u64, w: u64| x <= a as u64 && y < 512 && z < 512 && w < 512 implies #[trigger] page_listed(
                    self,
                    out@,
                    x,
                    y,
                    z,
                    w,
                ) by {
                    if x == a as u64 {
                        assert(page_listed(self, out@, a as u64, y, z, w));
                    }
                }
            }
            a = a + 1;
        }
        out
    }
}

/// Every pair the diagnostic walk reports is a real translation: walking its
/// virtual address yields exactly its physical frame.
pub open spec fn mappings_sound(
    m: &X64MemoryMapper,
    out: Seq<(VirtualAddress, PhysicalAddress)>,
) -> bool {
    forall|k: int|
        0 <= k < out.len() ==> (m.resolve((#[trigger] out[k]).0.0) matches Some(pf) && pf.0
            == out[k].1.0)
}

/// The page selected by the four indices is accounted for: either its walk
/// is absent, or the list holds its pair.
pub open spec fn page_listed(
    m: &X64MemoryMapper,
    out: Seq<(VirtualAddress, PhysicalAddress)>,
    a: u64,
    b: u64,
    c: u64,
    d: u64,
) -> bool {
    match m.resolve(recombine(a, b, c, d)) {
        None => true,
        Some(pf) => exists|k: int|
            0 <= k < out.len() && #[trigger] out[k] == (
                VirtualAddress(recombine(a, b, c, d)),
                PhysicalAddress(pf.0),
            ),
    }
}

/// Growing the list never un-lists a page.
proof fn lemma_listed_after_push(
    m: &X64MemoryMapper,
    out: Seq<(VirtualAddress, PhysicalAddress)>,
    x: (VirtualAddress, PhysicalAddress),
)
    ensures
        forall|a: u64, b: u64, c: u64, d: u64|
            page_listed(m, out, a, b, c, d) ==> #[trigger] page_listed(m, out.push(x), a, b, c, d),
{
    assert forall|a: u64, b: u64, c: u64, d: u64|
        page_listed(m, out, a, b, c, d) implies #[trigger] page_listed(
        m,
        out.push(x),
        a,
        b,
        c,
        d,
    ) by {
        match m.resolve(recombine(a, b, c, d)) {
            None => {},
            Some(pf) => {
                let k = choose|k: int|
                    0 <= k < out.len() && #[trigger] out[k] == (
                        VirtualAddress(recombine(a, b, c, d)),
                        PhysicalAddress(pf.0),
                    );
                assert(out.push(x)[k] == out[k]);
            },
        }
    }
}

/// Law: translation reads only the page number, so all addresses of one
/// page resolve alike.
pub proof fn lemma_resolve_same_page(m: &X64MemoryMapper, a: u64, b: u64)
    requires
        vpn(a) == vpn(b),
    ensures
        m.resolve(a) == m.resolve(b),
{
    lemma_vpn_is_indices(a, b);
    assert(m.l3_base(a) == m.l3_base(b));
    assert(m.l2_base(a) == m.l2_base(b));
    assert(m.l1_base(a) == m.l1_base(b));
}

} // verus!
