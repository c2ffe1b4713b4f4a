//! The physical frame allocator.
//!
//! At boot the loader reports an ordered catalog of memory regions.  Every
//! usable region becomes an independent bump arena ([`Bumper`]): a cursor that
//! only ever moves forward.  [`BumpAllocator`] owns the arenas and serves
//! frame requests first-fit, in catalog order.  Nothing is ever reclaimed;
//! frames are leaked for the life of the process by design.
//!
//! The allocator is a process-wide singleton.  It is not internally
//! synchronized: all mutation must come from the single bootstrap execution
//! unit, before any other execution unit starts.  The startup glue that owns
//! the instance is responsible for both disciplines.

use vstd::prelude::*;

use crate::arch::PhysicalAddress;
use crate::PAGE_SIZE;
use crate::PHYS_ADDR_LIMIT;

verus! {

/// The distinct out-of-memory outcome of an allocation: no single arena had
/// a large enough contiguous remaining span.
#[derive(Clone, Copy, Debug, PartialEq, Eq, Structural)]
pub struct OutOfMemory;

/// One entry of the boot loader's Region Catalog: a physical span and whether
/// the kernel may use it.  Immutable after boot.
#[derive(Clone, Copy, Debug, PartialEq, Eq, Structural)]
pub struct MemoryRegion {
    pub base: u64,
    pub length: u64,
    pub usable: bool,
}

/// A contiguous physical arena from which frames are carved out monotonically.
///
/// Invariant: `heap_start <= next <= heap_end`; `next` only increases and the
/// bounds never change.  The arena is exhausted when `next == heap_end`.
#[derive(Clone, Copy, Debug, PartialEq, Eq, Structural)]
pub struct Bumper {
    pub heap_start: u64,
    pub heap_end: u64,
    pub next: u64,
}

impl Bumper {
    pub open spec fn wf(self) -> bool {
        self.heap_start <= self.next <= self.heap_end
    }

    /// Total byte span of the arena.  Allocation does not change it.
    pub open spec fn span(self) -> int {
        self.heap_end - self.heap_start
    }

    /// Bytes not yet handed out.
    pub open spec fn remaining(self) -> int {
        self.heap_end - self.next
    }

    /// Whether a run of `count` frames still fits in this arena.
    pub open spec fn fits(self, count: nat) -> bool {
        self.remaining() >= count * PAGE_SIZE
    }

    /// Claims `count` frames from this arena, advancing the cursor, or
    /// reports that the run does not fit.  The claimed run starts at the old
    /// cursor, so runs from one arena are contiguous and strictly increasing.
    pub fn allocate(&mut self, count: usize) -> (r: Option<PhysicalAddress>)
        requires
            old(self).wf(),
        ensures
            final(self).wf(),
            final(self).heap_start == old(self).heap_start,
            final(self).heap_end == old(self).heap_end,
            old(self).fits(count as nat) ==> r == Some(PhysicalAddress(old(self).next))
                && final(self).next == old(self).next + count * PAGE_SIZE,
            !old(self).fits(count as nat) ==> r is None && *final(self) == *old(self),
    {
        let alloc_start: u64 = self.next;
        match (count as u64).checked_mul(PAGE_SIZE) {
            Some(bytes) => {
                if bytes <= self.heap_end - self.next {
                    self.next = alloc_start + bytes;
                    Some(PhysicalAddress(alloc_start))
                } else {
                    None
                }
            }
            None => {
                // `count * PAGE_SIZE` exceeds `u64::MAX`, so it certainly
                // exceeds the remaining span of this arena.
                None
            }
        }
    }
}

/// The arenas a freshly built allocator holds: one per usable catalog region,
/// in catalog order, each with its cursor at the region base.
pub open spec fn bumper_for(r: MemoryRegion) -> Bumper {
    Bumper { heap_start: r.base, heap_end: (r.base + r.length) as u64, next: r.base }
}

pub open spec fn bumpers_for(regions: Seq<MemoryRegion>) -> Seq<Bumper>
    decreases regions.len(),
{
    if regions.len() == 0 {
        Seq::empty()
    } else if regions.last().usable {
        bumpers_for(regions.drop_last()).push(bumper_for(regions.last()))
    } else {
        bumpers_for(regions.drop_last())
    }
}

/// Sum of the total spans of all arenas: the allocator's capacity.
pub open spec fn sum_spans(s: Seq<Bumper>) -> int
    decreases s.len(),
{
    if s.len() == 0 {
        0
    } else {
        sum_spans(s.drop_last()) + s.last().span()
    }
}

/// Whether any single arena can serve a run of `count` frames.
pub open spec fn has_fit(s: Seq<Bumper>, count: nat) -> bool {
    exists|j: int| 0 <= j < s.len() && s[j].fits(count)
}

/// Index of the first arena that can serve a run of `count` frames
/// (equals `s.len()` when none can).
pub open spec fn fit_index(s: Seq<Bumper>, count: nat) -> int
    decreases s.len(),
{
    if s.len() == 0 {
        0
    } else if s[0].fits(count) {
        0
    } else {
        1 + fit_index(s.skip(1), count)
    }
}

/// The arena states after one allocation of `count` frames: the first fitting
/// arena advances its cursor past the claimed run; everything else is kept.
pub open spec fn alloc_step(s: Seq<Bumper>, count: nat) -> Seq<Bumper> {
    if has_fit(s, count) {
        let i = fit_index(s, count);
        s.update(
            i,
            (Bumper {
                heap_start: s[i].heap_start,
                heap_end: s[i].heap_end,
                next: (s[i].next + count * PAGE_SIZE) as u64,
            }),
        )
    } else {
        s
    }
}

/// The address an allocation of `count` frames returns: the cursor of the
/// first fitting arena (meaningful only when `has_fit`).
pub open spec fn alloc_addr(s: Seq<Bumper>, count: nat) -> u64 {
    s[fit_index(s, count)].next
}

/// `fit_index` really is the first fitting index.
pub proof fn lemma_fit_index(s: Seq<Bumper>, count: nat)
    requires
        has_fit(s, count),
    ensures
        0 <= fit_index(s, count) < s.len(),
        s[fit_index(s, count)].fits(count),
        forall|j: int| 0 <= j < fit_index(s, count) ==> !(#[trigger] s[j]).fits(count),
    decreases s.len(),
{
    if !s[0].fits(count) {
        let w = choose|j: int| 0 <= j < s.len() && s[j].fits(count);
        assert(s.skip(1)[w - 1] == s[w]);
        assert(has_fit(s.skip(1), count));
        lemma_fit_index(s.skip(1), count);
        let i1 = fit_index(s.skip(1), count);
        assert(s.skip(1)[i1] == s[i1 + 1]);
        assert forall|j: int| 0 <= j < fit_index(s, count) implies !(#[trigger] s[j]).fits(
            count,
        ) by {
            if j > 0 {
                assert(s.skip(1)[j - 1] == s[j]);
            }
        }
    }
}

/// A fitting index preceded only by non-fitting arenas is the `fit_index`.
pub proof fn lemma_fit_index_at(s: Seq<Bumper>, count: nat, j: int)
    requires
        0 <= j < s.len(),
        s[j].fits(count),
        forall|k: int| 0 <= k < j ==> !(#[trigger] s[k]).fits(count),
    ensures
        has_fit(s, count),
        fit_index(s, count) == j,
    decreases j,
{
    if j > 0 {
        assert forall|k: int| 0 <= k < j - 1 implies !(#[trigger] s.skip(1)[k]).fits(count) by {
            assert(s.skip(1)[k] == s[k + 1]);
        }
        assert(s.skip(1)[j - 1] == s[j]);
        lemma_fit_index_at(s.skip(1), count, j - 1);
    }
}

proof fn lemma_sum_spans_update_same_span(s: Seq<Bumper>, i: int, b: Bumper)
    requires
        0 <= i < s.len(),
        b.span() == s[i].span(),
    ensures
        sum_spans(s.update(i, b)) == sum_spans(s),
    decreases s.len(),
{
    let s2 = s.update(i, b);
    if i == s.len() - 1 {
        assert(s2.drop_last() =~= s.drop_last());
        assert(s2.last() == b);
    } else {
        assert(s2.drop_last() =~= s.drop_last().update(i, b));
        lemma_sum_spans_update_same_span(s.drop_last(), i, b);
        assert(s2.last() == s.last());
    }
}

/// Law: allocation never changes the total capacity of the arenas.
pub proof fn lemma_alloc_preserves_capacity(s: Seq<Bumper>, count: nat)
    ensures
        sum_spans(alloc_step(s, count)) == sum_spans(s),
{
    if has_fit(s, count) {
        lemma_fit_index(s, count);
        let i = fit_index(s, count);
        let b = Bumper {
            heap_start: s[i].heap_start,
            heap_end: s[i].heap_end,
            next: (s[i].next + count * PAGE_SIZE) as u64,
        };
        lemma_sum_spans_update_same_span(s, i, b);
    }
}

/// Allocating can shrink an arena's remaining span by at most the run size,
/// and never moves its bounds.
pub proof fn lemma_alloc_step_remaining(s: Seq<Bumper>, count: nat, j: int)
    requires
        0 <= j < s.len(),
    ensures
        alloc_step(s, count).len() == s.len(),
        alloc_step(s, count)[j].remaining() >= s[j].remaining() - count * PAGE_SIZE,
        alloc_step(s, count)[j].heap_start == s[j].heap_start,
        alloc_step(s, count)[j].heap_end == s[j].heap_end,
{
    if has_fit(s, count) {
        lemma_fit_index(s, count);
    }
}

/// Allocating moves only one cursor forward: bounds, order and capacity of
/// the arenas are untouched.
pub proof fn lemma_alloc_step_frames(s: Seq<Bumper>, count: nat)
    ensures
        alloc_step(s, count).len() == s.len(),
        forall|j: int|
            0 <= j < s.len() ==> {
                &&& (#[trigger] alloc_step(s, count)[j]).heap_start == s[j].heap_start
                &&& alloc_step(s, count)[j].heap_end == s[j].heap_end
                &&& alloc_step(s, count)[j].next >= s[j].next
            },
        sum_spans(alloc_step(s, count)) == sum_spans(s),
{
    if has_fit(s, count) {
        lemma_fit_index(s, count);
    }
    lemma_alloc_preserves_capacity(s, count);
}

/// Law: two successive allocations served by the same arena are contiguous:
/// the second run starts exactly where the first one ended, and strictly
/// after the first one started whenever the first run was non-empty.
pub proof fn lemma_alloc_contiguous(s: Seq<Bumper>, c1: nat, c2: nat)
    requires
        forall|j: int| 0 <= j < s.len() ==> (#[trigger] s[j]).wf(),
        has_fit(s, c1),
        has_fit(alloc_step(s, c1), c2),
        fit_index(alloc_step(s, c1), c2) == fit_index(s, c1),
    ensures
        alloc_addr(alloc_step(s, c1), c2) == alloc_addr(s, c1) + c1 * PAGE_SIZE,
        c1 >= 1 ==> alloc_addr(alloc_step(s, c1), c2) > alloc_addr(s, c1),
{
    lemma_fit_index(s, c1);
}

proof fn lemma_sum_spans_take_succ(s: Seq<Bumper>, i: int)
    requires
        0 <= i < s.len(),
    ensures
        sum_spans(s.take(i + 1)) == sum_spans(s.take(i)) + s[i].span(),
{
    assert(s.take(i + 1).drop_last() =~= s.take(i));
    assert(s.take(i + 1).last() == s[i]);
}

proof fn lemma_sum_spans_take_le(s: Seq<Bumper>, i: int)
    requires
        0 <= i <= s.len(),
        forall|j: int| 0 <= j < s.len() ==> (#[trigger] s[j]).wf(),
    ensures
        sum_spans(s.take(i)) <= sum_spans(s),
    decreases s.len() - i,
{
    if i == s.len() {
        assert(s.take(i) =~= s);
    } else {
        lemma_sum_spans_take_succ(s, i);
        lemma_sum_spans_take_le(s, i + 1);
    }
}

/// The frame allocator: an ordered collection of bump arenas, one per usable
/// region of the boot catalog.
pub struct BumpAllocator {
    bumpers: Vec<Bumper>,
}

impl View for BumpAllocator {
    type V = Seq<Bumper>;

    closed spec fn view(&self) -> Seq<Bumper> {
        self.bumpers@
    }
}

impl BumpAllocator {
    pub open spec fn wf(&self) -> bool {
        forall|j: int| 0 <= j < self@.len() ==> (#[trigger] self@[j]).wf()
    }

    /// The unclaimed parts of the arenas are pairwise disjoint, so no address
    /// can ever be returned twice.  Holds from boot on when the catalog
    /// regions do not overlap, which the boot loader guarantees.
    pub open spec fn arenas_disjoint(&self) -> bool {
        forall|j: int, k: int|
            0 <= j < self@.len() && 0 <= k < self@.len() && j != k ==> ((#[trigger] self@[j]).heap_end
                <= (#[trigger] self@[k]).next || self@[k].heap_end <= self@[j].next)
    }

    /// Every cursor is frame-aligned, so every returned address is, too.
    /// Holds from boot on when the usable catalog regions are frame-aligned,
    /// which the boot protocol guarantees.
    pub open spec fn cursors_aligned(&self) -> bool {
        forall|j: int| 0 <= j < self@.len() ==> (#[trigger] self@[j]).next % PAGE_SIZE == 0
    }

    /// Every arena lies below the architectural physical-address limit, so
    /// every returned address fits the address field of a page-table entry.
    pub open spec fn arenas_below_limit(&self) -> bool {
        forall|j: int| 0 <= j < self@.len() ==> (#[trigger] self@[j]).heap_end <= PHYS_ADDR_LIMIT
    }

    /// `b` can never again be returned by this allocator: it lies in no
    /// arena's unclaimed part.
    pub open spec fn retired(&self, b: u64) -> bool {
        forall|j: int|
            0 <= j < self@.len() ==> !((#[trigger] self@[j]).next <= b < self@[j].heap_end)
    }

    /// Builds one arena per usable region of the boot catalog, preserving
    /// catalog order.  The allocator is sized from the catalog itself; there
    /// is no fixed arena bound.
    ///
    /// Must run exactly once per process lifetime; the startup glue that owns
    /// the singleton enforces this and aborts on a second attempt.
    pub fn new(regions: &Vec<MemoryRegion>) -> (r: BumpAllocator)
        requires
            forall|j: int|
                0 <= j < regions@.len() && (#[trigger] regions@[j]).usable ==> regions@[j].base
                    + regions@[j].length <= u64::MAX,
        ensures
            r@ == bumpers_for(regions@),
            r.wf(),
    {
        let n: usize = regions.len();
        let mut bumpers: Vec<Bumper> = Vec::new();
        let mut i: usize = 0;
        while i < n
            invariant
                n == regions@.len(),
                i <= n,
                forall|j: int|
                    0 <= j < regions@.len() && (#[trigger] regions@[j]).usable ==> regions@[j].base
                        + regions@[j].length <= u64::MAX,
                bumpers@ == bumpers_for(regions@.take(i as int)),
                forall|j: int| 0 <= j < bumpers@.len() ==> (#[trigger] bumpers@[j]).wf(),
            decreases n - i,
        {
            let region: MemoryRegion = regions[i];
            proof {
                assert(regions@.take(i as int + 1).drop_last() =~= regions@.take(i as int));
                assert(regions@.take(i as int + 1).last() == regions@[i as int]);
            }
            if region.usable {
                let end: u64 = region.base + region.length;
                bumpers.push(Bumper { heap_start: region.base, heap_end: end, next: region.base });
            }
            i = i + 1;
        }
        proof {
            assert(regions@.take(n as int) =~= regions@);
        }
        BumpAllocator { bumpers }
    }

    /// Serves a run of `count` frames from the first arena whose contiguous
    /// remaining span is large enough, and returns the physical base address
    /// of the claimed run.  Fails exactly when no single arena can serve the
    /// run, even if the free space summed over all arenas would suffice:
    /// allocations never span two regions.
    pub fn allocate(&mut self, count: usize) -> (r: Option<PhysicalAddress>)
        requires
            old(self).wf(),
        ensures
            final(self).wf(),
            final(self)@ == alloc_step(old(self)@, count as nat),
            r is Some <==> has_fit(old(self)@, count as nat),
            r matches Some(a) ==> a.0 == alloc_addr(old(self)@, count as nat),
            r is None ==> *final(self) == *old(self),
            final(self)@.len() == old(self)@.len(),
            forall|j: int|
                0 <= j < old(self)@.len() ==> {
                    &&& (#[trigger] final(self)@[j]).heap_start == old(self)@[j].heap_start
                    &&& final(self)@[j].heap_end == old(self)@[j].heap_end
                    &&& final(self)@[j].next >= old(self)@[j].next
                },
            sum_spans(final(self)@) == sum_spans(old(self)@),
            old(self).cursors_aligned() ==> final(self).cursors_aligned(),
            old(self).arenas_disjoint() ==> final(self).arenas_disjoint(),
            old(self).arenas_below_limit() ==> final(self).arenas_below_limit(),
            forall|b: u64| old(self).retired(b) ==> #[trigger] final(self).retired(b),
            (old(self).arenas_disjoint() && count >= 1) ==> (r matches Some(a)
                ==> final(self).retired(a.0)),
            old(self).cursors_aligned() ==> (r matches Some(a) ==> a.0 % PAGE_SIZE == 0),
            (old(self).arenas_below_limit() && count >= 1) ==> (r matches Some(a)
                ==> a.0 < PHYS_ADDR_LIMIT),
            count >= 1 ==> (r matches Some(a) ==> !old(self).retired(a.0)),
    {
        let n: usize = self.bumpers.len();
        let mut j: usize = 0;
        while j < n
            invariant
                *self == *old(self),
                old(self).wf(),
                n == self@.len(),
                j <= n,
                forall|k: int| 0 <= k < j ==> !(#[trigger] old(self)@[k]).fits(count as nat),
            decreases n - j,
        {
            let mut b: Bumper = self.bumpers[j];
            let r = b.allocate(count);
            match r {
                Some(a) => {
                    self.bumpers[j] = b;
                    proof {
                        let s = old(self)@;
                        let c = count as nat;
                        lemma_fit_index_at(s, c, j as int);
                        assert(self@ =~= alloc_step(s, c));
                        lemma_alloc_preserves_capacity(s, c);
                        if old(self).cursors_aligned() {
                            assert(b.next % PAGE_SIZE == 0) by {
                                assert(s[j as int].next % PAGE_SIZE == 0);
                                vstd::arithmetic::div_mod::lemma_mod_multiples_vanish(
                                    c as int,
                                    s[j as int].next as int,
                                    PAGE_SIZE as int,
                                );
                            }
                        }
                        if old(self).arenas_disjoint() && count >= 1 {
                            assert forall|k: int|
                                0 <= k < self@.len() implies !((#[trigger] self@[k]).next
                                <= a.0 < self@[k].heap_end) by {
                                if k != j as int {
                                    assert(s[j as int].heap_end <= s[k].next || s[k].heap_end
                                        <= s[j as int].next);
                                }
                            }
                        }
                        if count >= 1 {
                            assert(s[j as int].next <= a.0 < s[j as int].heap_end);
                            assert(!old(self).retired(a.0));
                        }
                    }
                    return Some(a);
                }
                None => {},
            }
            j = j + 1;
        }
        proof {
            assert(!has_fit(old(self)@, count as nat));
        }
        None
    }

    /// Reports the allocator's total capacity: the sum of every arena's full
    /// span.  This is capacity, not remaining free space; the value does not
    /// change as allocations occur.
    pub fn available_memory(&self) -> (r: u64)
        requires
            self.wf(),
            sum_spans(self@) <= u64::MAX,
        ensures
            r == sum_spans(self@),
    {
        let n: usize = self.bumpers.len();
        let mut total: u64 = 0;
        let mut j: usize = 0;
        while j < n
            invariant
                self.wf(),
                sum_spans(self@) <= u64::MAX,
                n == self@.len(),
                j <= n,
                total == sum_spans(self@.take(j as int)),
            decreases n - j,
        {
            proof {
                lemma_sum_spans_take_succ(self@, j as int);
                lemma_sum_spans_take_le(self@, j as int + 1);
            }
            let b: Bumper = self.bumpers[j];
            total = total + (b.heap_end - b.heap_start);
            j = j + 1;
        }
        proof {
            assert(self@.take(n as int) =~= self@);
        }
        total
    }
}

} // verus!
