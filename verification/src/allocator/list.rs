//! General free-list allocation: free blocks are kept in a list in
//! insertion order (newest first), requests are served first-fit in that
//! order, and the unused tail of a block is split off and re-inserted at the
//! front. Adjacent free blocks are never coalesced.
//!
//! In the running kernel the list is threaded through the free bytes
//! themselves; here a free block is an explicit `(address, size)` record
//! with the same footprint rules and the same placement and reuse order,
//! so that what is proved of the records holds of the in-place layout.

use vstd::prelude::*;
use crate::allocator::{
    align_up_spec, is_pow2, lemma_align_up, lemma_aligned_to_divisor, lemma_pow2_divides,
    lemma_pow2_pos, align_up, Layout,
};
use vstd::arithmetic::div_mod::{lemma_add_mod_noop, lemma_mod_multiples_basic};

verus! {

/// Bytes a free block must be able to hold for its in-place bookkeeping
/// record: a size and a link, as written into freed memory on the 64-bit
/// target.
pub const NODE_SIZE: u64 = 16;

/// Alignment that in-place bookkeeping record demands of a free block.
pub const NODE_ALIGN: u64 = 8;

/// One free block: the interval `[addr, addr + size)`.
#[derive(Clone, Copy)]
pub struct Node {
    pub addr: u64,
    pub size: u64,
}

/// A free block record is well formed: it lies in the address space, is
/// placed where the bookkeeping record may be written, and can hold it.
pub open spec fn node_wf(n: Node) -> bool {
    &&& n.addr + n.size <= u64::MAX
    &&& n.addr as int % (NODE_ALIGN as int) == 0
    &&& n.size >= NODE_SIZE
}

/// The byte ranges of `a` and `b` do not overlap.
pub open spec fn node_disjoint(a: Node, b: Node) -> bool {
    a.addr + a.size <= b.addr || b.addr + b.size <= a.addr
}

impl Node {
    pub fn new(addr: u64, size: u64) -> (r: Node)
        ensures
            r.addr == addr,
            r.size == size,
    {
        Node { addr, size }
    }

    /// First address of the block.
    pub fn start(&self) -> (r: u64)
        ensures
            r == self.addr,
    {
        self.addr
    }

    /// One past the last address of the block.
    pub fn end(&self) -> (r: u64)
        requires
            self.addr + self.size <= u64::MAX,
        ensures
            r == self.addr + self.size,
    {
        self.addr + self.size
    }
}

/// Alignment of a request after rounding up for bookkeeping: at least the
/// record's own alignment.
pub open spec fn padded_align(layout: Layout) -> int {
    if layout.align >= NODE_ALIGN {
        layout.align as int
    } else {
        NODE_ALIGN as int
    }
}

/// Size of a request after rounding up for bookkeeping: padded to a multiple
/// of the padded alignment and at least one record's footprint.
pub open spec fn padded_size(layout: Layout) -> int {
    let s = align_up_spec(layout.size as int, padded_align(layout));
    if s >= NODE_SIZE {
        s
    } else {
        NODE_SIZE as int
    }
}

/// Where a request of the given alignment would be placed inside free block
/// `r`: the block's start rounded up.
pub open spec fn region_alloc_start(r: Node, align: int) -> int {
    align_up_spec(r.addr as int, align)
}

/// Whether a (padded) request fits inside free block `r`: the aligned
/// placement plus the size stays inside the block, and the leftover tail is
/// either empty or big enough to carry its own bookkeeping record.
pub open spec fn region_fits(r: Node, size: int, align: int) -> bool {
    let s = region_alloc_start(r, align);
    let e = s + size;
    &&& e <= r.addr + r.size
    &&& (r.addr + r.size - e == 0 || r.addr + r.size - e >= NODE_SIZE)
}

/// Index of the first block in list order that can serve a (padded)
/// request, if any.
pub open spec fn find_spec(regions: Seq<Node>, size: int, align: int) -> Option<int>
    decreases regions.len(),
{
    if regions.len() == 0 {
        None
    } else if region_fits(regions[0], size, align) {
        Some(0int)
    } else {
        match find_spec(regions.drop_first(), size, align) {
            None => None,
            Some(i) => Some(i + 1),
        }
    }
}

/// `find_spec` returns exactly the first fitting index.
pub proof fn lemma_find_spec_first(regions: Seq<Node>, size: int, align: int, i: int)
    requires
        0 <= i < regions.len(),
        region_fits(regions[i], size, align),
        forall|j: int| 0 <= j < i ==> !region_fits(#[trigger] regions[j], size, align),
    ensures
        find_spec(regions, size, align) == Some(i),
    decreases i,
{
    if i == 0 {
    } else {
        assert(!region_fits(regions[0], size, align));
        assert forall|j: int| 0 <= j < i - 1 implies !region_fits(
            #[trigger] regions.drop_first()[j],
            size,
            align,
        ) by {
            assert(regions.drop_first()[j] == regions[j + 1]);
        }
        assert(regions.drop_first()[i - 1] == regions[i]);
        lemma_find_spec_first(regions.drop_first(), size, align, i - 1);
    }
}

/// When no block fits, `find_spec` reports so.
pub proof fn lemma_find_spec_none(regions: Seq<Node>, size: int, align: int)
    requires
        forall|j: int| 0 <= j < regions.len() ==> !region_fits(
            #[trigger] regions[j],
            size,
            align,
        ),
    ensures
        find_spec(regions, size, align) is None,
    decreases regions.len(),
{
    if regions.len() > 0 {
        assert forall|j: int| 0 <= j < regions.len() - 1 implies !region_fits(
            #[trigger] regions.drop_first()[j],
            size,
            align,
        ) by {
            assert(regions.drop_first()[j] == regions[j + 1]);
        }
        lemma_find_spec_none(regions.drop_first(), size, align);
    }
}

/// A found index is in range and its block fits.
pub proof fn lemma_find_spec_range(regions: Seq<Node>, size: int, align: int)
    ensures
        match find_spec(regions, size, align) {
            Some(i) => 0 <= i < regions.len() && region_fits(regions[i], size, align),
            None => true,
        },
    decreases regions.len(),
{
    if regions.len() > 0 && !region_fits(regions[0], size, align) {
        lemma_find_spec_range(regions.drop_first(), size, align);
        if let Some(i) = find_spec(regions.drop_first(), size, align) {
            assert(regions.drop_first()[i] == regions[i + 1]);
        }
    }
}

/// The general free-list allocator. The front of `free_list` is the head
/// of the list, where releases and split tails are pushed.
pub struct LinkedListAllocator {
    free_list: Vec<Node>,
}

impl LinkedListAllocator {
    /// The free blocks, in list (insertion) order.
    pub closed spec fn regions(self) -> Seq<Node> {
        self.free_list@
    }

    /// Every free block is well formed and no two overlap.
    pub open spec fn wf(self) -> bool {
        &&& forall|i: int| 0 <= i < self.regions().len() ==> node_wf(#[trigger] self.regions()[i])
        &&& forall|i: int, j: int|
            #![trigger self.regions()[i], self.regions()[j]]
            0 <= i < j < self.regions().len() ==> node_disjoint(
                self.regions()[i],
                self.regions()[j],
            )
    }

    /// Number of blocks currently on the free list.
    pub fn free_region_count(&self) -> (r: usize)
        ensures
            r == self.regions().len(),
    {
        self.free_list.len()
    }

    /// An allocator with an empty free list.
    pub fn new() -> (r: LinkedListAllocator)
        ensures
            r.wf(),
            r.regions().len() == 0,
    {
        LinkedListAllocator { free_list: Vec::new() }
    }

    /// Hand the allocator the heap range `[start, start + size)` as one free
    /// block. Called once, before any allocation; the range must already be
    /// backed by mapped, writable pages.
    pub fn init(&mut self, start: u64, size: u64)
        requires
            old(self).regions().len() == 0,
            start as int % (NODE_ALIGN as int) == 0,
            size >= NODE_SIZE,
            start + size <= u64::MAX,
        ensures
            final(self).wf(),
            final(self).regions() =~= seq![(Node { addr: start, size: size })],
    {
        self.add_free_region(start, size);
    }

    /// Put the block `[addr, addr + size)` at the front of the free list.
    ///
    /// The block must be able to carry a bookkeeping record (placement and
    /// footprint) and must not overlap any block already in the list.
    fn add_free_region(&mut self, addr: u64, size: u64)
        requires
            old(self).wf(),
            addr as int % (NODE_ALIGN as int) == 0,
            size >= NODE_SIZE,
            addr + size <= u64::MAX,
            forall|i: int| 0 <= i < old(self).regions().len() ==> node_disjoint(
                (Node { addr, size }),
                #[trigger] old(self).regions()[i],
            ),
        ensures
            final(self).wf(),
            final(self).regions() =~= old(self).regions().insert(0, (Node { addr, size })),
    {
        let node = Node::new(addr, size);
        self.free_list.insert(0, node);
        proof {
            let r = self.regions();
            let r0 = old(self).regions();
            assert forall|i: int| 0 <= i < r.len() implies node_wf(#[trigger] r[i]) by {
                if i > 0 {
                    assert(r[i] == r0[i - 1]);
                }
            }
            assert forall|i: int, j: int|
                #![trigger r[i], r[j]]
                0 <= i < j < r.len() implies node_disjoint(r[i], r[j]) by {
                if i == 0 {
                    assert(r[j] == r0[j - 1]);
                } else {
                    assert(r[i] == r0[i - 1]);
                    assert(r[j] == r0[j - 1]);
                }
            }
        }
    }

    /// Try to place a (padded) request inside one free block: returns the
    /// aligned start on success, and fails exactly when the block is too
    /// small or would be left with a tail too small for bookkeeping.
    pub fn alloc_from_region(region: &Node, size: u64, align: u64) -> (r: Result<u64, ()>)
        requires
            region.addr + region.size <= u64::MAX,
            align >= 1,
        ensures
            region_fits(*region, size as int, align as int) ==> r == Ok::<u64, ()>(
                region_alloc_start(*region, align as int) as u64,
            ),
            !region_fits(*region, size as int, align as int) ==> r is Err,
    {
        proof {
            lemma_align_up(region.addr as int, align as int);
            crate::allocator::lemma_mod_le(region.addr as int, align as int);
        }
        let remainder: u64 = region.addr % align;
        let alloc_start: u64 = if remainder == 0 {
            region.addr
        } else {
            let pad: u64 = align - remainder;
            if region.addr > u64::MAX - pad {
                // The aligned start would leave the address space, so it
                // certainly leaves the block.
                return Err(());
            }
            region.addr - remainder + align
        };
        let alloc_end: u64 = match alloc_start.checked_add(size) {
            Some(end) => end,
            None => {
                return Err(());
            },
        };
        if alloc_end > region.end() {
            return Err(());
        }
        let excess_size: u64 = region.end() - alloc_end;
        if excess_size > 0 && excess_size < NODE_SIZE {
            return Err(());
        }
        Ok(alloc_start)
    }

    /// Walk the list in list order and unlink the first block that can serve
    /// the (padded) request, returning it with the aligned placement inside
    /// it; the rest of the list is untouched.
    pub fn find_region(&mut self, size: u64, align: u64) -> (r: Option<(Node, u64)>)
        requires
            old(self).wf(),
            align >= 1,
        ensures
            final(self).wf(),
            match find_spec(old(self).regions(), size as int, align as int) {
                Some(i) => {
                    &&& r == Some(
                        (
                            old(self).regions()[i],
                            region_alloc_start(old(self).regions()[i], align as int) as u64,
                        ),
                    )
                    &&& final(self).regions() =~= old(self).regions().remove(i)
                },
                None => {
                    &&& r is None
                    &&& *final(self) == *old(self)
                },
            },
    {
        let ghost r0 = self.regions();
        let mut idx: usize = 0;
        while idx < self.free_list.len()
            invariant
                *self == *old(self),
                r0 == self.regions(),
                idx <= self.free_list.len(),
                self.wf(),
                align >= 1,
                forall|j: int| 0 <= j < idx ==> !region_fits(
                    #[trigger] self.regions()[j],
                    size as int,
                    align as int,
                ),
            decreases self.free_list.len() - idx,
        {
            let region = self.free_list[idx];
            match Self::alloc_from_region(&region, size, align) {
                Ok(alloc_start) => {
                    proof {
                        assert(idx < self.free_list@.len());
                        assert(region_fits(r0[idx as int], size as int, align as int));
                        lemma_find_spec_first(r0, size as int, align as int, idx as int);
                    }
                    let node = self.free_list.remove(idx);
                    proof {
                        let r = self.regions();
                        assert forall|i: int| 0 <= i < r.len() implies node_wf(
                            #[trigger] r[i],
                        ) by {
                            if i < idx {
                                assert(r[i] == r0[i]);
                            } else {
                                assert(r[i] == r0[i + 1]);
                            }
                        }
                        assert forall|i: int, j: int|
                            #![trigger r[i], r[j]]
                            0 <= i < j < r.len() implies node_disjoint(r[i], r[j]) by {
                            let i0 = if i < idx { i } else { i + 1 };
                            let j0 = if j < idx { j } else { j + 1 };
                            assert(r[i] == r0[i0]);
                            assert(r[j] == r0[j0]);
                        }
                    }
                    return Some((node, alloc_start));
                },
                Err(()) => {
                    idx = idx + 1;
                },
            }
        }
        proof {
            lemma_find_spec_none(r0, size as int, align as int);
        }
        None
    }

    /// Round a request up so that whatever is carved out can later carry a
    /// bookkeeping record: alignment at least the record's, size padded to a
    /// multiple of that alignment and at least the record's footprint.
    pub fn size_align(layout: Layout) -> (r: (u64, u64))
        requires
            layout.wf(),
        ensures
            r.0 == padded_size(layout),
            r.1 == padded_align(layout),
            r.0 >= NODE_SIZE,
            r.1 >= NODE_ALIGN,
            layout.size <= r.0,
            is_pow2(r.1 as int),
            r.0 as int % (NODE_ALIGN as int) == 0,
            r.1 as int % (layout.align as int) == 0,
    {
        proof {
            reveal_with_fuel(is_pow2, 5);
            lemma_pow2_pos(layout.align as int);
        }
        let align: u64 = if layout.align >= NODE_ALIGN {
            layout.align
        } else {
            NODE_ALIGN
        };
        proof {
            if layout.align >= NODE_ALIGN {
                lemma_mod_multiples_basic(1, layout.align as int);
            } else {
                lemma_pow2_divides(layout.align as int, NODE_ALIGN as int);
            }
            lemma_pow2_divides(NODE_ALIGN as int, align as int);
            lemma_align_up(layout.size as int, align as int);
        }
        let size0: u64 = align_up(layout.size, align);
        let size: u64 = if size0 >= NODE_SIZE {
            size0
        } else {
            NODE_SIZE
        };
        proof {
            if size0 >= NODE_SIZE {
                // size0 is a multiple of `align`, which 8 divides.
                lemma_aligned_to_divisor(size0 as int, NODE_ALIGN as int, align as int);
            } else {
                lemma_mod_multiples_basic(2, NODE_ALIGN as int);
            }
        }
        (size, align)
    }

    /// Serve a request first-fit from the free list: pad the request for
    /// bookkeeping, carve it out of the first block in list order that can
    /// hold it, and put the unused tail (if any) back at the front of the
    /// list. Fails, leaving the allocator untouched, exactly when no block
    /// in the list can serve the padded request.
    pub fn allocate(&mut self, layout: Layout) -> (r: Option<u64>)
        requires
            old(self).wf(),
            layout.wf(),
        ensures
            final(self).wf(),
            match find_spec(old(self).regions(), padded_size(layout), padded_align(layout)) {
                Some(i) => {
                    let node = old(self).regions()[i];
                    let s = region_alloc_start(node, padded_align(layout));
                    let e = s + padded_size(layout);
                    let excess = node.addr + node.size - e;
                    &&& r == Some(s as u64)
                    &&& s % (layout.align as int) == 0
                    &&& node.addr <= s
                    &&& s + layout.size <= e <= node.addr + node.size
                    &&& final(self).regions() == (if excess > 0 {
                        old(self).regions().remove(i).insert(
                            0,
                            (Node { addr: e as u64, size: excess as u64 }),
                        )
                    } else {
                        old(self).regions().remove(i)
                    })
                },
                None => {
                    &&& r is None
                    &&& *final(self) == *old(self)
                },
            },
    {
        let (size, align) = Self::size_align(layout);
        let ghost r0 = self.regions();
        proof {
            lemma_find_spec_range(r0, size as int, align as int);
        }
        match self.find_region(size, align) {
            Some((region, alloc_start)) => {
                let ghost i = find_spec(r0, size as int, align as int)->Some_0;
                proof {
                    reveal_with_fuel(is_pow2, 5);
                    assert(node_wf(region));
                    lemma_pow2_pos(align as int);
                    lemma_align_up(region.addr as int, align as int);
                    lemma_pow2_divides(NODE_ALIGN as int, align as int);
                    lemma_aligned_to_divisor(
                        alloc_start as int,
                        NODE_ALIGN as int,
                        align as int,
                    );
                    lemma_aligned_to_divisor(
                        alloc_start as int,
                        layout.align as int,
                        align as int,
                    );
                    lemma_add_mod_noop(alloc_start as int, size as int, NODE_ALIGN as int);
                }
                let alloc_end: u64 = alloc_start + size;
                let excess_size: u64 = region.end() - alloc_end;
                if excess_size > 0 {
                    proof {
                        let cur = self.regions();
                        let ex = Node { addr: alloc_end, size: excess_size };
                        assert forall|j: int|
                            0 <= j < cur.len() implies node_disjoint(ex, #[trigger] cur[j]) by {
                            let k = if j < i {
                                j
                            } else {
                                j + 1
                            };
                            assert(cur[j] == r0[k]);
                        }
                    }
                    self.add_free_region(alloc_end, excess_size);
                    proof {
                        assert(self.regions() =~= r0.remove(i).insert(
                            0,
                            (Node { addr: alloc_end, size: excess_size }),
                        ));
                    }
                } else {
                    proof {
                        assert(self.regions() =~= r0.remove(i));
                    }
                }
                Some(alloc_start)
            },
            None => None,
        }
    }

    /// Law: a request bigger than every free block is refused. In
    /// particular, when every block is at most the heap's size, a request
    /// beyond the heap's size fails.
    pub proof fn lemma_oversized_request_fails(a: LinkedListAllocator, layout: Layout, cap: int)
        requires
            a.wf(),
            layout.wf(),
            forall|i: int| 0 <= i < a.regions().len() ==> (#[trigger] a.regions()[i]).size <= cap,
            layout.size > cap,
        ensures
            find_spec(a.regions(), padded_size(layout), padded_align(layout)) is None,
    {
        lemma_align_up(layout.size as int, padded_align(layout));
        assert forall|j: int| 0 <= j < a.regions().len() implies !region_fits(
            #[trigger] a.regions()[j],
            padded_size(layout),
            padded_align(layout),
        ) by {
            let r = a.regions()[j];
            assert(node_wf(r));
            lemma_align_up(r.addr as int, padded_align(layout));
        }
        lemma_find_spec_none(a.regions(), padded_size(layout), padded_align(layout));
    }

    /// Law: a served request is placed inside one of the free blocks, so it
    /// stays inside `[lo, hi)` whenever every free block does.
    pub proof fn lemma_allocation_within_bounds(
        a: LinkedListAllocator,
        layout: Layout,
        lo: int,
        hi: int,
    )
        requires
            a.wf(),
            layout.wf(),
            forall|i: int|
                0 <= i < a.regions().len() ==> lo <= (#[trigger] a.regions()[i]).addr
                    && a.regions()[i].addr + a.regions()[i].size <= hi,
            find_spec(a.regions(), padded_size(layout), padded_align(layout)) is Some,
        ensures
            ({
                let i = find_spec(a.regions(), padded_size(layout), padded_align(layout))->Some_0;
                let s = region_alloc_start(a.regions()[i], padded_align(layout));
                lo <= s && s + layout.size <= hi
            }),
    {
        lemma_find_spec_range(a.regions(), padded_size(layout), padded_align(layout));
        let i = find_spec(a.regions(), padded_size(layout), padded_align(layout))->Some_0;
        let r = a.regions()[i];
        assert(node_wf(r));
        lemma_align_up(r.addr as int, padded_align(layout));
        lemma_align_up(layout.size as int, padded_align(layout));
    }

    /// Law: serving a request from a block that splits and then releasing
    /// it leaves the free list exactly one entry longer, with the released
    /// block at the front. `r1` is the list the allocation leaves behind
    /// (one block removed, its split tail pushed to the front), `r2` the
    /// list after the release.
    pub proof fn lemma_release_grows_list(
        r0: Seq<Node>,
        r1: Seq<Node>,
        r2: Seq<Node>,
        i: int,
        ex: Node,
        freed: Node,
    )
        requires
            0 <= i < r0.len(),
            r1 == r0.remove(i).insert(0, ex),
            r2 == r1.insert(0, freed),
        ensures
            r2.len() == r0.len() + 1,
            r2[0] == freed,
    {
    }

    /// Law: a request that exactly fits the front block — the most recently
    /// released one — is served from it, reusing its address, and the
    /// allocation's contract then shrinks the list by one entry instead of
    /// splitting anything off.
    pub proof fn lemma_exact_refit_reuses_front(a: LinkedListAllocator, layout: Layout)
        requires
            a.wf(),
            layout.wf(),
            a.regions().len() > 0,
            a.regions()[0].size == padded_size(layout),
            a.regions()[0].addr as int % padded_align(layout) == 0,
        ensures
            find_spec(a.regions(), padded_size(layout), padded_align(layout)) == Some(0int),
            region_alloc_start(a.regions()[0], padded_align(layout)) == a.regions()[0].addr,
            region_alloc_start(a.regions()[0], padded_align(layout)) + padded_size(layout) == a.regions()[0].addr
                + a.regions()[0].size,
    {
        assert(region_fits(a.regions()[0], padded_size(layout), padded_align(layout)));
    }

    /// Law: a newly served byte range is disjoint from every block that
    /// remains free afterwards. `r1` is the free list the allocation leaves
    /// behind, as its contract states it.
    pub proof fn lemma_allocation_disjoint_from_free(
        a: LinkedListAllocator,
        layout: Layout,
        r1: Seq<Node>,
    )
        requires
            a.wf(),
            layout.wf(),
            find_spec(a.regions(), padded_size(layout), padded_align(layout)) is Some,
            ({
                let i = find_spec(a.regions(), padded_size(layout), padded_align(layout))->Some_0;
                let node = a.regions()[i];
                let s = region_alloc_start(node, padded_align(layout));
                let e = s + padded_size(layout);
                let excess = node.addr + node.size - e;
                r1 == (if excess > 0 {
                    a.regions().remove(i).insert(0, (Node { addr: e as u64, size: excess as u64 }))
                } else {
                    a.regions().remove(i)
                })
            }),
        ensures
            forall|j: int|
                #![trigger r1[j]]
                0 <= j < r1.len() ==> {
                    let i = find_spec(
                        a.regions(),
                        padded_size(layout),
                        padded_align(layout),
                    )->Some_0;
                    let s = region_alloc_start(a.regions()[i], padded_align(layout));
                    r1[j].addr + r1[j].size <= s || s + padded_size(layout) <= r1[j].addr
                },
    {
        lemma_find_spec_range(a.regions(), padded_size(layout), padded_align(layout));
        let i = find_spec(a.regions(), padded_size(layout), padded_align(layout))->Some_0;
        let node = a.regions()[i];
        let s = region_alloc_start(node, padded_align(layout));
        let e = s + padded_size(layout);
        let excess = node.addr + node.size - e;
        assert(node_wf(node));
        lemma_align_up(node.addr as int, padded_align(layout));
        assert forall|j: int|
            #![trigger r1[j]]
            0 <= j < r1.len() implies (r1[j].addr + r1[j].size <= s || s + padded_size(layout)
            <= r1[j].addr) by {
            if excess > 0 && j == 0 {
            } else {
                let j0 = if excess > 0 {
                    j - 1
                } else {
                    j
                };
                let k = if j0 < i {
                    j0
                } else {
                    j0 + 1
                };
                assert(r1[j] == a.regions()[k]);
                assert(node_disjoint(a.regions()[i], a.regions()[k]));
            }
        }
    }

    /// Law: no two simultaneously live allocations overlap — two requests
    /// served in succession get disjoint byte ranges, since the second is
    /// carved from a block that was left free by the first. `b` is the
    /// allocator the first allocation leaves behind.
    pub proof fn lemma_successive_allocations_disjoint(
        a: LinkedListAllocator,
        b: LinkedListAllocator,
        l1: Layout,
        l2: Layout,
    )
        requires
            a.wf(),
            b.wf(),
            l1.wf(),
            l2.wf(),
            find_spec(a.regions(), padded_size(l1), padded_align(l1)) is Some,
            ({
                let i = find_spec(a.regions(), padded_size(l1), padded_align(l1))->Some_0;
                let node = a.regions()[i];
                let s = region_alloc_start(node, padded_align(l1));
                let e = s + padded_size(l1);
                let excess = node.addr + node.size - e;
                b.regions() == (if excess > 0 {
                    a.regions().remove(i).insert(0, (Node { addr: e as u64, size: excess as u64 }))
                } else {
                    a.regions().remove(i)
                })
            }),
            find_spec(b.regions(), padded_size(l2), padded_align(l2)) is Some,
        ensures
            ({
                let i1 = find_spec(a.regions(), padded_size(l1), padded_align(l1))->Some_0;
                let s1 = region_alloc_start(a.regions()[i1], padded_align(l1));
                let i2 = find_spec(b.regions(), padded_size(l2), padded_align(l2))->Some_0;
                let s2 = region_alloc_start(b.regions()[i2], padded_align(l2));
                s1 + padded_size(l1) <= s2 || s2 + padded_size(l2) <= s1
            }),
    {
        Self::lemma_allocation_disjoint_from_free(a, l1, b.regions());
        lemma_find_spec_range(b.regions(), padded_size(l2), padded_align(l2));
        let i2 = find_spec(b.regions(), padded_size(l2), padded_align(l2))->Some_0;
        let node2 = b.regions()[i2];
        assert(node_wf(node2));
        lemma_align_up(node2.addr as int, padded_align(l2));
        assert(b.regions()[i2] == b.regions()[i2]);
    }

    /// Return a block to the allocator: pad the released request exactly as
    /// `allocate` padded it and push the block onto the front of the free
    /// list. No merging with adjacent free blocks takes place.
    ///
    /// Caller contract: `ptr`/`layout` must be a pair previously returned by
    /// a still-live allocation from this instance, so the released range is
    /// bookkeeping-aligned and overlaps no block that is already free.
    pub fn deallocate(&mut self, ptr: u64, layout: Layout)
        requires
            old(self).wf(),
            layout.wf(),
            ptr as int % (NODE_ALIGN as int) == 0,
            ptr + padded_size(layout) <= u64::MAX,
            forall|i: int| 0 <= i < old(self).regions().len() ==> node_disjoint(
                (Node { addr: ptr, size: padded_size(layout) as u64 }),
                #[trigger] old(self).regions()[i],
            ),
        ensures
            final(self).wf(),
            final(self).regions() == old(self).regions().insert(
                0,
                (Node { addr: ptr, size: padded_size(layout) as u64 }),
            ),
    {
        let (size, _align) = Self::size_align(layout);
        self.add_free_region(ptr, size);
        proof {
            assert(self.regions() =~= old(self).regions().insert(
                0,
                (Node { addr: ptr, size: padded_size(layout) as u64 }),
            ));
        }
    }
}

} // verus!
