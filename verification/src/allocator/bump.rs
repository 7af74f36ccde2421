//! Monotonic bump allocation: a cursor walks forward through the heap range
//! and memory is reclaimed only all at once, when the last live allocation is
//! released.

use vstd::prelude::*;
use crate::allocator::{align_up_spec, lemma_align_up, lemma_pow2_pos, Layout};

verus! {

/// The bump strategy's entire state: the owned region `[start, end)`, the
/// cursor `next` past which no allocation has been placed yet, and the count
/// of live allocations.
pub struct BmpAlloc {
    start: u64,
    end: u64,
    next: u64,
    allocations: u64,
}

impl BmpAlloc {
    /// Base of the owned region.
    pub closed spec fn start(self) -> u64 {
        self.start
    }

    /// One past the end of the owned region.
    pub closed spec fn end(self) -> u64 {
        self.end
    }

    /// The cursor: every address below it is spoken for, everything from it
    /// up to `end` is still free.
    pub closed spec fn next(self) -> u64 {
        self.next
    }

    /// Number of allocations handed out and not yet released.
    pub closed spec fn allocations(self) -> u64 {
        self.allocations
    }

    /// The cursor stays inside the owned region.
    pub open spec fn wf(self) -> bool {
        self.start() <= self.next() <= self.end()
    }

    /// Where a request would be placed: the cursor rounded up to the
    /// requested alignment.
    pub open spec fn alloc_start(self, layout: Layout) -> int {
        align_up_spec(self.next() as int, layout.align as int)
    }

    /// Whether a request fits in the free remainder of the region.
    pub open spec fn fits(self, layout: Layout) -> bool {
        self.alloc_start(layout) + layout.size <= self.end()
    }

    /// A fresh, uninitialized allocator owning the empty region at 0.
    pub fn new() -> (r: BmpAlloc)
        ensures
            r.wf(),
            r.start() == 0,
            r.end() == 0,
            r.next() == 0,
            r.allocations() == 0,
    {
        BmpAlloc { start: 0, end: 0, next: 0, allocations: 0 }
    }

    /// Hand the allocator the heap range `[heap_start, heap_start + heap_size)`.
    ///
    /// The range must already be backed by mapped, writable pages; this is
    /// the initializer the heap backing step calls once the mapping is done.
    pub fn init(&mut self, heap_start: u64, heap_size: u64)
        requires
            heap_start + heap_size <= u64::MAX,
        ensures
            final(self).start() == heap_start,
            final(self).end() == heap_start + heap_size,
            final(self).next() == heap_start,
            final(self).allocations() == old(self).allocations(),
            final(self).wf(),
    {
        self.start = heap_start;
        self.end = heap_start + heap_size;
        self.next = heap_start;
    }

    /// Place a request at the aligned cursor and advance the cursor past it;
    /// fail (returning `None`) exactly when the aligned request does not fit
    /// in what is left of the region.
    pub fn allocate(&mut self, layout: Layout) -> (r: Option<u64>)
        requires
            old(self).wf(),
            layout.wf(),
            old(self).allocations() < u64::MAX,
        ensures
            final(self).wf(),
            final(self).start() == old(self).start(),
            final(self).end() == old(self).end(),
            old(self).fits(layout) ==> {
                &&& r == Some(old(self).alloc_start(layout) as u64)
                &&& final(self).next() == old(self).alloc_start(layout) + layout.size
                &&& final(self).allocations() == old(self).allocations() + 1
                &&& old(self).alloc_start(layout) % (layout.align as int) == 0
                &&& old(self).next() <= old(self).alloc_start(layout)
            },
            !old(self).fits(layout) ==> {
                &&& r is None
                &&& *final(self) == *old(self)
            },
    {
        proof {
            lemma_pow2_pos(layout.align as int);
            lemma_align_up(self.next as int, layout.align as int);
            crate::allocator::lemma_mod_le(self.next as int, layout.align as int);
        }
        let remainder: u64 = self.next % layout.align;
        let alloc_start: u64 = if remainder == 0 {
            self.next
        } else {
            let pad: u64 = layout.align - remainder;
            if self.next > u64::MAX - pad {
                // The aligned cursor would exceed the address space, so it
                // certainly exceeds `end`.
                return None;
            }
            self.next - remainder + layout.align
        };
        let alloc_end: u64 = match alloc_start.checked_add(layout.size) {
            Some(end) => end,
            None => {
                return None;
            },
        };
        if alloc_end > self.end {
            None
        } else {
            self.next = alloc_end;
            self.allocations = self.allocations + 1;
            Some(alloc_start)
        }
    }

    /// Law: releasing the only live allocation resets the cursor to the
    /// region base, so a subsequent request of equal or smaller size with
    /// the same alignment is placed at the very address the first one got.
    ///
    /// `s1` is the state `allocate(l1)` leaves behind (as its contract
    /// describes it) and `s2` the state `deallocate` then leaves behind.
    pub proof fn lemma_reset_reuses_address(
        s0: BmpAlloc,
        s1: BmpAlloc,
        s2: BmpAlloc,
        l1: Layout,
        l2: Layout,
    )
        requires
            s0.wf(),
            l1.wf(),
            l2.wf(),
            s0.allocations() == 0,
            s0.next() == s0.start(),
            s0.fits(l1),
            s1.start() == s0.start(),
            s1.end() == s0.end(),
            s1.next() == s0.alloc_start(l1) + l1.size,
            s1.allocations() == 1,
            s2.start() == s1.start(),
            s2.end() == s1.end(),
            s2.allocations() == 0,
            s2.next() == s1.start(),
            l2.align == l1.align,
            l2.size <= l1.size,
        ensures
            s2.next() == s2.start(),
            s2.fits(l2),
            s2.alloc_start(l2) == s0.alloc_start(l1),
    {
    }

    /// Law: two allocations served in succession occupy disjoint byte
    /// ranges — the first ends at or before the point where the second
    /// begins. `s1` is the state the first `allocate(l1)` leaves behind.
    pub proof fn lemma_live_ranges_disjoint(s0: BmpAlloc, s1: BmpAlloc, l1: Layout, l2: Layout)
        requires
            s0.wf(),
            l1.wf(),
            l2.wf(),
            s0.fits(l1),
            s1.start() == s0.start(),
            s1.end() == s0.end(),
            s1.next() == s0.alloc_start(l1) + l1.size,
        ensures
            s0.alloc_start(l1) + l1.size <= s1.alloc_start(l2),
    {
        lemma_pow2_pos(l2.align as int);
        lemma_align_up(s1.next() as int, l2.align as int);
    }

    /// Law: a request bigger than the whole owned region is refused, at any
    /// cursor position.
    pub proof fn lemma_oversized_request_fails(s: BmpAlloc, l: Layout)
        requires
            s.wf(),
            l.wf(),
            l.size > s.end() - s.start(),
        ensures
            !s.fits(l),
    {
        lemma_pow2_pos(l.align as int);
        lemma_align_up(s.next() as int, l.align as int);
    }

    /// Release one live allocation. When it was the last one, the cursor
    /// returns to the region base and the whole region is free again.
    ///
    /// Caller contract: `_ptr`/`_layout` must be a pair previously returned
    /// by a still-live allocation from this instance, so a release can only
    /// happen while `allocations` is positive.
    pub fn deallocate(&mut self, _ptr: u64, _layout: Layout)
        requires
            old(self).wf(),
            old(self).allocations() > 0,
        ensures
            final(self).wf(),
            final(self).start() == old(self).start(),
            final(self).end() == old(self).end(),
            final(self).allocations() == old(self).allocations() - 1,
            final(self).next() == if old(self).allocations() == 1 {
                old(self).start()
            } else {
                old(self).next()
            },
    {
        self.allocations = self.allocations - 1;
        if self.allocations == 0 {
            self.next = self.start;
        }
    }
}

} // verus!

