//! Size-classed allocation: one free list of same-size blocks per power-of-
//! two class from 8 to 2048 bytes, popped and pushed at the head in constant
//! time, with a general free-list allocator as fallback for class misses and
//! oversized requests.

use vstd::prelude::*;
use crate::allocator::{
    is_pow2, lemma_aligned_to_divisor, lemma_pow2_divides, lemma_pow2_pos, Layout,
};
use crate::allocator::list::{
    find_spec, node_disjoint, padded_align, padded_size, region_alloc_start, LinkedListAllocator,
    Node, NODE_ALIGN, NODE_SIZE,
};
use vstd::arithmetic::div_mod::lemma_mod_multiples_basic;

verus! {

/// Number of size classes.
pub const BLOCK_CLASS_COUNT: usize = 9;

/// The ascending block size of each class: 8, 16, ..., 2048.
pub open spec fn block_size(i: int) -> int {
    if i == 0 {
        8
    } else if i == 1 {
        16
    } else if i == 2 {
        32
    } else if i == 3 {
        64
    } else if i == 4 {
        128
    } else if i == 5 {
        256
    } else if i == 6 {
        512
    } else if i == 7 {
        1024
    } else {
        2048
    }
}

/// What a request actually needs from a block: enough room for its size and,
/// because a class block is aligned exactly to its own size, a block size no
/// smaller than the requested alignment.
pub open spec fn required_block_size(layout: Layout) -> int {
    if layout.size >= layout.align {
        layout.size as int
    } else {
        layout.align as int
    }
}

/// The smallest class whose block size covers the request, if any.
pub open spec fn class_index_spec(layout: Layout) -> Option<int> {
    let required = required_block_size(layout);
    if required <= 8 {
        Some(0int)
    } else if required <= 16 {
        Some(1int)
    } else if required <= 32 {
        Some(2int)
    } else if required <= 64 {
        Some(3int)
    } else if required <= 128 {
        Some(4int)
    } else if required <= 256 {
        Some(5int)
    } else if required <= 512 {
        Some(6int)
    } else if required <= 1024 {
        Some(7int)
    } else if required <= 2048 {
        Some(8int)
    } else {
        None
    }
}

/// The request a class miss forwards to the fallback: exactly one block of
/// the class, aligned to its own size.
pub open spec fn block_layout(i: int) -> Layout {
    Layout { size: block_size(i) as u64, align: block_size(i) as u64 }
}

/// Every block parked in a class list is aligned to the class's block size
/// and lies in the address space.
pub open spec fn class_blocks_wf(blocks: Seq<u64>, bs: int) -> bool {
    forall|j: int|
        0 <= j < blocks.len() ==> (#[trigger] blocks[j]) as int % bs == 0 && blocks[j] + bs
            <= u64::MAX
}

/// Class sizes are powers of two; the smallest already fits the in-place
/// list node a parked block carries in the running kernel.
pub proof fn lemma_block_size_pow2(i: int)
    requires
        0 <= i < 9,
    ensures
        is_pow2(block_size(i)),
        block_size(i) >= 8,
{
    reveal_with_fuel(is_pow2, 12);
}

/// The smallest class whose block size covers the request.
pub fn list_index(layout: &Layout) -> (r: Option<usize>)
    ensures
        match class_index_spec(*layout) {
            Some(i) => r == Some(i as usize),
            None => r is None,
        },
{
    let required: u64 = if layout.size >= layout.align {
        layout.size
    } else {
        layout.align
    };
    if required <= 8 {
        Some(0)
    } else if required <= 16 {
        Some(1)
    } else if required <= 32 {
        Some(2)
    } else if required <= 64 {
        Some(3)
    } else if required <= 128 {
        Some(4)
    } else if required <= 256 {
        Some(5)
    } else if required <= 512 {
        Some(6)
    } else if required <= 1024 {
        Some(7)
    } else if required <= 2048 {
        Some(8)
    } else {
        None
    }
}

/// Block size of class `i`, as a machine value.
pub fn block_size_of(i: usize) -> (r: u64)
    requires
        i < 9,
    ensures
        r == block_size(i as int),
{
    if i == 0 {
        8
    } else if i == 1 {
        16
    } else if i == 2 {
        32
    } else if i == 3 {
        64
    } else if i == 4 {
        128
    } else if i == 5 {
        256
    } else if i == 6 {
        512
    } else if i == 7 {
        1024
    } else {
        2048
    }
}

/// The size-classed allocator: one head-of-list per class, plus the general
/// fallback allocator that owns the heap range itself.
pub struct FixedSizeBlockAllocator {
    list_heads: Vec<Vec<u64>>,
    fallback_allocator: LinkedListAllocator,
}

/// How the fallback leg of an allocation transforms the allocator: the class
/// lists stay as they are and the embedded general allocator serves
/// `layout` exactly as `LinkedListAllocator::allocate` would.
pub open spec fn fallback_alloc_post(
    pre: FixedSizeBlockAllocator,
    post: FixedSizeBlockAllocator,
    layout: Layout,
    r: Option<u64>,
) -> bool {
    &&& post.heads() == pre.heads()
    &&& match find_spec(pre.fallback().regions(), padded_size(layout), padded_align(layout)) {
        Some(i) => {
            let node = pre.fallback().regions()[i];
            let s = region_alloc_start(node, padded_align(layout));
            let e = s + padded_size(layout);
            let excess = node.addr + node.size - e;
            &&& r == Some(s as u64)
            &&& s % (layout.align as int) == 0
            &&& node.addr <= s
            &&& s + layout.size <= e <= node.addr + node.size
            &&& post.fallback().regions() == (if excess > 0 {
                pre.fallback().regions().remove(i).insert(
                    0,
                    (Node { addr: e as u64, size: excess as u64 }),
                )
            } else {
                pre.fallback().regions().remove(i)
            })
        },
        None => {
            &&& r is None
            &&& post.fallback() == pre.fallback()
        },
    }
}

/// The fallback leg keeps every free structure inside `[lo, hi)` and
/// serves from inside it.
proof fn lemma_fallback_alloc_within(
    pre: FixedSizeBlockAllocator,
    post: FixedSizeBlockAllocator,
    layout: Layout,
    r: Option<u64>,
    lo: int,
    hi: int,
)
    requires
        pre.wf(),
        layout.wf(),
        fallback_alloc_post(pre, post, layout, r),
        pre.within(lo, hi),
    ensures
        post.within(lo, hi),
        r matches Some(p) ==> lo <= p && p + layout.size <= hi,
{
    let regions = pre.fallback().regions();
    let size = padded_size(layout);
    let align = padded_align(layout);
    crate::allocator::list::lemma_find_spec_range(regions, size, align);
    match find_spec(regions, size, align) {
        None => {
            assert(post.heads() == pre.heads());
            assert(post.fallback() == pre.fallback());
        },
        Some(k) => {
            let node = regions[k];
            assert(crate::allocator::list::node_wf(node));
            assert(lo <= node.addr && node.addr + node.size <= hi);
            let s = region_alloc_start(node, align);
            let e = s + size;
            let excess = node.addr + node.size - e;
            let post_regions = post.fallback().regions();
            assert forall|k2: int|
                0 <= k2 < post_regions.len() implies lo <= (#[trigger] post_regions[k2]).addr
                && post_regions[k2].addr + post_regions[k2].size <= hi by {
                if excess > 0 && k2 == 0 {
                } else {
                    let k1 = if excess > 0 {
                        k2 - 1
                    } else {
                        k2
                    };
                    let k0 = if k1 < k {
                        k1
                    } else {
                        k1 + 1
                    };
                    assert(post_regions[k2] == regions[k0]);
                    assert(lo <= regions[k0].addr && regions[k0].addr + regions[k0].size <= hi);
                }
            }
        },
    }
}

/// The fallback leg keeps the free structures pairwise disjoint and
/// serves a range that overlaps none of them.
proof fn lemma_fallback_alloc_disjoint(
    pre: FixedSizeBlockAllocator,
    post: FixedSizeBlockAllocator,
    layout: Layout,
    r: Option<u64>,
)
    requires
        pre.wf(),
        layout.wf(),
        fallback_alloc_post(pre, post, layout, r),
        pre.free_disjoint(),
    ensures
        post.free_disjoint(),
        r matches Some(p) ==> post.range_free_disjoint(p as int, layout.size as int),
{
    let regions = pre.fallback().regions();
    let size = padded_size(layout);
    let align = padded_align(layout);
    crate::allocator::list::lemma_find_spec_range(regions, size, align);
    match find_spec(regions, size, align) {
        None => {
            assert(post.heads() == pre.heads());
            assert(post.fallback() == pre.fallback());
        },
        Some(k) => {
            let node = regions[k];
            assert(crate::allocator::list::node_wf(node));
            let s = region_alloc_start(node, align);
            let e = s + size;
            let excess = node.addr + node.size - e;
            let r1 = post.fallback().regions();
            // every remaining free block of the fallback is an old one or
            // the split tail, which sits inside the old block
            assert forall|i: int, j: int, k2: int|
                #![trigger post.heads()[i][j], r1[k2]]
                0 <= i < 9 && 0 <= j < post.heads()[i].len() && 0 <= k2 < r1.len() implies
                post.heads()[i][j] + block_size(i) <= r1[k2].addr || r1[k2].addr + r1[k2].size
                <= post.heads()[i][j] by {
                let b = pre.heads()[i][j];
                if excess > 0 && k2 == 0 {
                    assert(b + block_size(i) <= node.addr || node.addr + node.size <= b);
                } else {
                    let k1 = if excess > 0 {
                        k2 - 1
                    } else {
                        k2
                    };
                    let k0 = if k1 < k {
                        k1
                    } else {
                        k1 + 1
                    };
                    assert(r1[k2] == regions[k0]);
                    assert(b + block_size(i) <= regions[k0].addr || regions[k0].addr
                        + regions[k0].size <= b);
                }
            }
            if r is Some {
                let pp = r->Some_0 as int;
                assert forall|i: int, j: int|
                    #![trigger post.heads()[i][j]]
                    0 <= i < 9 && 0 <= j < post.heads()[i].len() implies pp + layout.size
                    <= post.heads()[i][j] || post.heads()[i][j] + block_size(i) <= pp by {
                    let b = pre.heads()[i][j];
                    assert(b + block_size(i) <= node.addr || node.addr + node.size <= b);
                }
                assert forall|k2: int| 0 <= k2 < r1.len() implies pp + layout.size <= (
                #[trigger] r1[k2]).addr || r1[k2].addr + r1[k2].size <= pp by {
                    if excess > 0 && k2 == 0 {
                    } else {
                        let k1 = if excess > 0 {
                            k2 - 1
                        } else {
                            k2
                        };
                        let k0 = if k1 < k {
                            k1
                        } else {
                            k1 + 1
                        };
                        assert(r1[k2] == regions[k0]);
                        if k0 < k {
                            assert(crate::allocator::list::node_disjoint(regions[k0], regions[k]));
                        } else {
                            assert(crate::allocator::list::node_disjoint(regions[k], regions[k0]));
                        }
                    }
                }
            }
        },
    }
}

impl FixedSizeBlockAllocator {
    /// The parked blocks of each class, head first.
    pub closed spec fn heads(self) -> Seq<Seq<u64>> {
        self.list_heads@.map_values(|v: Vec<u64>| v@)
    }

    /// The embedded general allocator.
    pub closed spec fn fallback(self) -> LinkedListAllocator {
        self.fallback_allocator
    }

    /// One list per class, each parked block aligned to its class, and a
    /// well-formed fallback.
    pub open spec fn wf(self) -> bool {
        &&& self.heads().len() == 9
        &&& forall|i: int|
            0 <= i < 9 ==> class_blocks_wf(#[trigger] self.heads()[i], block_size(i))
        &&& self.fallback().wf()
    }

    /// Every parked block and every free block of the fallback lies within
    /// `[lo, hi)`. With the heap's bounds this is the Heap Region
    /// containment that `init` establishes and that `allocate` and
    /// `deallocate` carry, so everything the allocator ever serves lies in
    /// the heap.
    pub open spec fn within(self, lo: int, hi: int) -> bool {
        &&& forall|i: int, j: int|
            #![trigger self.heads()[i][j]]
            0 <= i < 9 && 0 <= j < self.heads()[i].len() ==> lo <= self.heads()[i][j]
                && self.heads()[i][j] + block_size(i) <= hi
        &&& forall|k: int|
            0 <= k < self.fallback().regions().len() ==> lo <= (#[trigger] self.fallback().regions()[k]).addr
                && self.fallback().regions()[k].addr + self.fallback().regions()[k].size <= hi
    }

    /// No parked block overlaps another parked block or a free block of
    /// the fallback: the free structures describe disjoint memory. (The
    /// fallback's own blocks are pairwise disjoint by its well-formedness.)
    pub open spec fn free_disjoint(self) -> bool {
        &&& forall|i1: int, j1: int, i2: int, j2: int|
            #![trigger self.heads()[i1][j1], self.heads()[i2][j2]]
            0 <= i1 < 9 && 0 <= j1 < self.heads()[i1].len() && 0 <= i2 < 9 && 0 <= j2
                < self.heads()[i2].len() && (i1 != i2 || j1 != j2)
                ==> self.heads()[i1][j1] + block_size(i1) <= self.heads()[i2][j2]
                || self.heads()[i2][j2] + block_size(i2) <= self.heads()[i1][j1]
        &&& forall|i: int, j: int, k: int|
            #![trigger self.heads()[i][j], self.fallback().regions()[k]]
            0 <= i < 9 && 0 <= j < self.heads()[i].len() && 0 <= k
                < self.fallback().regions().len()
                ==> self.heads()[i][j] + block_size(i) <= self.fallback().regions()[k].addr
                || self.fallback().regions()[k].addr + self.fallback().regions()[k].size
                <= self.heads()[i][j]
    }

    /// The byte range `[addr, addr + len)` overlaps no parked block and no
    /// free block of the fallback: nothing the allocator holds as free
    /// covers any of it.
    pub open spec fn range_free_disjoint(self, addr: int, len: int) -> bool {
        &&& forall|i: int, j: int|
            #![trigger self.heads()[i][j]]
            0 <= i < 9 && 0 <= j < self.heads()[i].len() ==> addr + len <= self.heads()[i][j]
                || self.heads()[i][j] + block_size(i) <= addr
        &&& forall|k: int|
            0 <= k < self.fallback().regions().len() ==> addr + len <= (
            #[trigger] self.fallback().regions()[k]).addr || self.fallback().regions()[k].addr
                + self.fallback().regions()[k].size <= addr
    }

    /// An allocator with every class list empty and an empty fallback.
    pub fn new() -> (r: FixedSizeBlockAllocator)
        ensures
            r.wf(),
            forall|i: int| 0 <= i < 9 ==> (#[trigger] r.heads()[i]).len() == 0,
            r.fallback().regions().len() == 0,
    {
        let mut list_heads: Vec<Vec<u64>> = Vec::new();
        let mut i: usize = 0;
        while i < BLOCK_CLASS_COUNT
            invariant
                i <= 9,
                list_heads@.len() == i,
                forall|j: int| 0 <= j < i ==> (#[trigger] list_heads@[j])@.len() == 0,
            decreases 9 - i,
        {
            list_heads.push(Vec::new());
            i = i + 1;
        }
        let r = FixedSizeBlockAllocator { list_heads, fallback_allocator: LinkedListAllocator::new() };
        proof {
            assert(forall|i: int|
                0 <= i < 9 ==> (#[trigger] r.heads()[i]).len() == 0);
        }
        r
    }

    /// Hand the whole heap range to the embedded fallback allocator as one
    /// free block, rounding the range's bottom up to bookkeeping alignment
    /// first, as the general allocator demands of every block it owns.
    /// Called once, before any allocation; the range must already be backed
    /// by mapped, writable pages.
    pub fn init(&mut self, start: u64, size: u64)
        requires
            old(self).wf(),
            old(self).fallback().regions().len() == 0,
            start + size <= u64::MAX,
            crate::allocator::align_up_spec(start as int, NODE_ALIGN as int) + NODE_SIZE <= start
                + size,
        ensures
            final(self).wf(),
            final(self).heads() == old(self).heads(),
            final(self).fallback().regions() =~= seq![
                (Node {
                    addr: crate::allocator::align_up_spec(start as int, NODE_ALIGN as int) as u64,
                    size: (start + size - crate::allocator::align_up_spec(
                        start as int,
                        NODE_ALIGN as int,
                    )) as u64,
                }),
            ],
            (forall|i: int| 0 <= i < 9 ==> (#[trigger] old(self).heads()[i]).len() == 0)
                ==> final(self).within(start as int, start + size),
            (forall|i: int| 0 <= i < 9 ==> (#[trigger] old(self).heads()[i]).len() == 0)
                ==> final(self).free_disjoint(),
    {
        let ghost pre = *self;
        proof {
            crate::allocator::lemma_align_up(start as int, NODE_ALIGN as int);
        }
        let bottom: u64 = crate::allocator::align_up(start, NODE_ALIGN);
        let trimmed: u64 = size - (bottom - start);
        self.fallback_allocator.init(bottom, trimmed);
        proof {
            if forall|i: int| 0 <= i < 9 ==> (#[trigger] pre.heads()[i]).len() == 0 {
                assert forall|a: int, j: int|
                    #![trigger self.heads()[a][j]]
                    0 <= a < 9 && 0 <= j < self.heads()[a].len() implies start
                    <= self.heads()[a][j] && self.heads()[a][j] + block_size(a) <= start
                    + size by {
                    assert(pre.heads()[a].len() == 0);
                }
                assert forall|a: int, j: int|
                    #![trigger self.heads()[a][j]]
                    0 <= a < 9 && 0 <= j < self.heads()[a].len() implies false by {
                    assert(pre.heads()[a].len() == 0);
                }
            }
        }
    }

    /// Serve a class miss or an oversized request through the embedded
    /// general allocator.
    fn fallback_alloc(&mut self, layout: Layout) -> (r: Option<u64>)
        requires
            old(self).wf(),
            layout.wf(),
        ensures
            final(self).wf(),
            fallback_alloc_post(*old(self), *final(self), layout, r),
    {
        self.fallback_allocator.allocate(layout)
    }

    /// Serve a request: find its class and pop that class's head block if one
    /// is parked there (constant-time exact reuse); on an empty class list,
    /// carve a fresh block of exactly the class size from the fallback; pass
    /// a request too big for every class to the fallback unchanged. A served
    /// range stays inside whatever bounds hold the free structures, and
    /// overlaps nothing that remains free — so ranges live at the same time
    /// never overlap.
    pub fn allocate(&mut self, layout: Layout) -> (r: Option<u64>)
        requires
            old(self).wf(),
            layout.wf(),
        ensures
            final(self).wf(),
            match class_index_spec(layout) {
                Some(i) => {
                    if old(self).heads()[i].len() > 0 {
                        &&& r == Some(old(self).heads()[i][0])
                        &&& final(self).heads() == old(self).heads().update(
                            i,
                            old(self).heads()[i].drop_first(),
                        )
                        &&& final(self).fallback() == old(self).fallback()
                    } else {
                        fallback_alloc_post(*old(self), *final(self), block_layout(i), r)
                    }
                },
                None => fallback_alloc_post(*old(self), *final(self), layout, r),
            },
            r matches Some(p) ==> p as int % (layout.align as int) == 0,
            forall|lo: int, hi: int|
                #![trigger old(self).within(lo, hi)]
                old(self).within(lo, hi) ==> final(self).within(lo, hi) && (r matches Some(p)
                    ==> lo <= p && p + layout.size <= hi),
            old(self).free_disjoint() ==> final(self).free_disjoint() && (r matches Some(p)
                ==> final(self).range_free_disjoint(p as int, layout.size as int)),
    {
        let ghost pre = *self;
        match list_index(&layout) {
            Some(index) => {
                let ghost i = index as int;
                let mut list: Vec<u64> = self.list_heads.remove(index);
                if list.len() > 0 {
                    let node: u64 = list.remove(0);
                    self.list_heads.insert(index, list);
                    proof {
                        assert(self.heads() =~= pre.heads().update(i, pre.heads()[i].drop_first()));
                        lemma_block_size_pow2(i);
                        lemma_pow2_pos(layout.align as int);
                        lemma_pow2_divides(layout.align as int, block_size(i));
                        assert(class_blocks_wf(pre.heads()[i], block_size(i)));
                        lemma_aligned_to_divisor(
                            node as int,
                            layout.align as int,
                            block_size(i),
                        );
                        assert forall|a: int| 0 <= a < 9 implies class_blocks_wf(
                            #[trigger] self.heads()[a],
                            block_size(a),
                        ) by {
                            if a == i {
                                let b0 = pre.heads()[i];
                                let b1 = self.heads()[i];
                                assert forall|j: int|
                                    0 <= j < b1.len() implies (#[trigger] b1[j]) as int % block_size(
                                    a,
                                ) == 0 && b1[j] + block_size(a) <= u64::MAX by {
                                    assert(b1[j] == b0[j + 1]);
                                }
                            }
                        }
                        assert forall|lo: int, hi: int|
                            #![trigger pre.within(lo, hi)]
                            pre.within(lo, hi) implies (self.within(lo, hi) && lo <= node && node
                            + layout.size <= hi) by {
                            assert(pre.heads()[i][0] == node);
                            assert(lo <= node && node + block_size(i) <= hi);
                            assert(required_block_size(layout) <= block_size(i));
                            assert forall|a: int, j: int|
                                #![trigger self.heads()[a][j]]
                                0 <= a < 9 && 0 <= j < self.heads()[a].len() implies lo
                                <= self.heads()[a][j] && self.heads()[a][j] + block_size(a)
                                <= hi by {
                                if a == i {
                                    assert(self.heads()[a][j] == pre.heads()[a][j + 1]);
                                } else {
                                    assert(self.heads()[a][j] == pre.heads()[a][j]);
                                }
                            }
                            assert(self.fallback() == pre.fallback());
                        }
                        if pre.free_disjoint() {
                            assert(pre.heads()[i][0] == node);
                            assert(required_block_size(layout) <= block_size(i));
                            assert forall|a1: int, j1: int, a2: int, j2: int|
                                #![trigger self.heads()[a1][j1], self.heads()[a2][j2]]
                                0 <= a1 < 9 && 0 <= j1 < self.heads()[a1].len() && 0 <= a2 < 9
                                && 0 <= j2 < self.heads()[a2].len() && (a1 != a2 || j1 != j2)
                                implies self.heads()[a1][j1] + block_size(a1)
                                <= self.heads()[a2][j2] || self.heads()[a2][j2] + block_size(a2)
                                <= self.heads()[a1][j1] by {
                                let j1p = if a1 == i { j1 + 1 } else { j1 };
                                let j2p = if a2 == i { j2 + 1 } else { j2 };
                                assert(self.heads()[a1][j1] == pre.heads()[a1][j1p]);
                                assert(self.heads()[a2][j2] == pre.heads()[a2][j2p]);
                            }
                            assert forall|a: int, j: int, k2: int|
                                #![trigger self.heads()[a][j], self.fallback().regions()[k2]]
                                0 <= a < 9 && 0 <= j < self.heads()[a].len() && 0 <= k2
                                < self.fallback().regions().len() implies self.heads()[a][j]
                                + block_size(a) <= self.fallback().regions()[k2].addr
                                || self.fallback().regions()[k2].addr
                                + self.fallback().regions()[k2].size <= self.heads()[a][j] by {
                                let jp = if a == i { j + 1 } else { j };
                                assert(self.heads()[a][j] == pre.heads()[a][jp]);
                                assert(self.fallback().regions()[k2] == pre.fallback().regions()[
                                    k2
                                ]);
                            }
                            assert forall|a: int, j: int|
                                #![trigger self.heads()[a][j]]
                                0 <= a < 9 && 0 <= j < self.heads()[a].len() implies node as int
                                + layout.size <= self.heads()[a][j] || self.heads()[a][j]
                                + block_size(a) <= node as int by {
                                let jp = if a == i { j + 1 } else { j };
                                assert(self.heads()[a][j] == pre.heads()[a][jp]);
                                assert(pre.heads()[i][0] + block_size(i) <= pre.heads()[a][jp]
                                    || pre.heads()[a][jp] + block_size(a) <= pre.heads()[i][0]);
                            }
                            assert forall|k2: int|
                                0 <= k2 < self.fallback().regions().len() implies node as int
                                + layout.size <= (#[trigger] self.fallback().regions()[k2]).addr
                                || self.fallback().regions()[k2].addr
                                + self.fallback().regions()[k2].size <= node as int by {
                                assert(self.fallback().regions()[k2] == pre.fallback().regions()[
                                    k2
                                ]);
                                assert(pre.heads()[i][0] + block_size(i)
                                    <= pre.fallback().regions()[k2].addr
                                    || pre.fallback().regions()[k2].addr
                                    + pre.fallback().regions()[k2].size <= pre.heads()[i][0]);
                            }
                        }
                    }
                    Some(node)
                } else {
                    self.list_heads.insert(index, list);
                    proof {
                        assert(self.heads() =~= pre.heads());
                        lemma_block_size_pow2(i);
                        lemma_pow2_pos(layout.align as int);
                        lemma_mod_multiples_basic(1, block_size(i));
                        crate::allocator::lemma_align_up(block_size(i), block_size(i));
                    }
                    let size: u64 = block_size_of(index);
                    let block = Layout { size, align: size };
                    let ghost mid = *self;
                    let r = self.fallback_alloc(block);
                    proof {
                        if r is Some {
                            let regions = mid.fallback().regions();
                            crate::allocator::list::lemma_find_spec_range(
                                regions,
                                padded_size(block),
                                padded_align(block),
                            );
                            let k = find_spec(
                                regions,
                                padded_size(block),
                                padded_align(block),
                            )->Some_0;
                            assert(crate::allocator::list::node_wf(regions[k]));
                            let p = r->Some_0;
                            lemma_pow2_divides(layout.align as int, block_size(i));
                            lemma_aligned_to_divisor(
                                p as int,
                                layout.align as int,
                                block_size(i),
                            );
                        }
                        assert forall|lo: int, hi: int|
                            #![trigger pre.within(lo, hi)]
                            pre.within(lo, hi) implies (self.within(lo, hi) && (r matches Some(p)
                            ==> lo <= p && p + layout.size <= hi)) by {
                            assert(fallback_alloc_post(pre, *self, block, r));
                            lemma_fallback_alloc_within(pre, *self, block, r, lo, hi);
                            assert(required_block_size(layout) <= block_size(i));
                        }
                        if pre.free_disjoint() {
                            assert(fallback_alloc_post(pre, *self, block, r));
                            lemma_fallback_alloc_disjoint(pre, *self, block, r);
                            assert(required_block_size(layout) <= block_size(i));
                        }
                    }
                    r
                }
            },
            None => {
                let ghost mid = *self;
                let r = self.fallback_alloc(layout);
                proof {
                    if r is Some {
                        let regions = mid.fallback().regions();
                        crate::allocator::list::lemma_find_spec_range(
                            regions,
                            padded_size(layout),
                            padded_align(layout),
                        );
                        let k = find_spec(
                            regions,
                            padded_size(layout),
                            padded_align(layout),
                        )->Some_0;
                        assert(crate::allocator::list::node_wf(regions[k]));
                    }
                    assert forall|lo: int, hi: int|
                        #![trigger pre.within(lo, hi)]
                        pre.within(lo, hi) implies (self.within(lo, hi) && (r matches Some(p)
                        ==> lo <= p && p + layout.size <= hi)) by {
                        assert(fallback_alloc_post(pre, *self, layout, r));
                        lemma_fallback_alloc_within(pre, *self, layout, r, lo, hi);
                    }
                    if pre.free_disjoint() {
                        assert(fallback_alloc_post(pre, *self, layout, r));
                        lemma_fallback_alloc_disjoint(pre, *self, layout, r);
                    }
                }
                r
            },
        }
    }

    /// Law: reuse within a class is last-in, first-out — the block just
    /// released is at its class's head, so it is exactly what the very next
    /// request of the same class receives. `mid` is the allocator the
    /// release leaves behind, as `deallocate`'s contract states it.
    pub proof fn lemma_class_reuse_lifo(
        pre: FixedSizeBlockAllocator,
        mid: FixedSizeBlockAllocator,
        ptr: u64,
        l1: Layout,
        l2: Layout,
    )
        requires
            pre.wf(),
            class_index_spec(l1) is Some,
            class_index_spec(l2) == class_index_spec(l1),
            mid.heads() == pre.heads().update(
                class_index_spec(l1)->Some_0,
                pre.heads()[class_index_spec(l1)->Some_0].insert(0, ptr),
            ),
        ensures
            ({
                let i = class_index_spec(l2)->Some_0;
                mid.heads()[i].len() > 0 && mid.heads()[i][0] == ptr
            }),
    {
    }

    /// Law: a request bigger than the heap fails — it is too big for every
    /// class, and no free block of the fallback (each at most `cap` bytes)
    /// can hold it either.
    pub proof fn lemma_oversized_request_fails(a: FixedSizeBlockAllocator, layout: Layout, cap: int)
        requires
            a.wf(),
            layout.wf(),
            forall|i: int|
                0 <= i < a.fallback().regions().len() ==> (#[trigger] a.fallback().regions()[
                    i
                ]).size <= cap,
            layout.size > cap,
            layout.size > 2048,
        ensures
            class_index_spec(layout) is None,
            find_spec(a.fallback().regions(), padded_size(layout), padded_align(layout)) is None,
    {
        LinkedListAllocator::lemma_oversized_request_fails(a.fallback(), layout, cap);
    }

    /// Take a block back: a request with a class parks its block at that
    /// class's head (the next same-class request will reuse it first); one
    /// without a class goes back to the fallback with its request unchanged.
    ///
    /// Caller contract: `ptr`/`layout` must be a pair previously returned by
    /// a still-live allocation from this instance, so a class block is
    /// aligned to its class and a fallback block is bookkeeping-aligned and
    /// overlaps nothing that is already free.
    pub fn deallocate(&mut self, ptr: u64, layout: Layout)
        requires
            old(self).wf(),
            layout.wf(),
            match class_index_spec(layout) {
                Some(i) => ptr as int % block_size(i) == 0 && ptr + block_size(i) <= u64::MAX,
                None => {
                    &&& ptr as int % (NODE_ALIGN as int) == 0
                    &&& ptr + padded_size(layout) <= u64::MAX
                    &&& forall|k: int|
                        0 <= k < old(self).fallback().regions().len() ==> node_disjoint(
                            (Node { addr: ptr, size: padded_size(layout) as u64 }),
                            #[trigger] old(self).fallback().regions()[k],
                        )
                },
            },
        ensures
            final(self).wf(),
            match class_index_spec(layout) {
                Some(i) => {
                    &&& final(self).heads() == old(self).heads().update(
                        i,
                        old(self).heads()[i].insert(0, ptr),
                    )
                    &&& final(self).fallback() == old(self).fallback()
                },
                None => {
                    &&& final(self).heads() == old(self).heads()
                    &&& final(self).fallback().regions() == old(self).fallback().regions().insert(
                        0,
                        (Node { addr: ptr, size: padded_size(layout) as u64 }),
                    )
                },
            },
            forall|lo: int, hi: int|
                #![trigger old(self).within(lo, hi)]
                old(self).within(lo, hi) && lo <= ptr && (match class_index_spec(layout) {
                    Some(i) => ptr + block_size(i) <= hi,
                    None => ptr + padded_size(layout) <= hi,
                }) ==> final(self).within(lo, hi),
            (old(self).free_disjoint() && old(self).range_free_disjoint(
                ptr as int,
                match class_index_spec(layout) {
                    Some(i) => block_size(i),
                    None => padded_size(layout),
                },
            )) ==> final(self).free_disjoint(),
    {
        let ghost pre = *self;
        match list_index(&layout) {
            Some(index) => {
                let ghost i = index as int;
                let mut list: Vec<u64> = self.list_heads.remove(index);
                list.insert(0, ptr);
                self.list_heads.insert(index, list);
                proof {
                    assert(self.heads() =~= pre.heads().update(i, pre.heads()[i].insert(0, ptr)));
                    assert forall|a: int| 0 <= a < 9 implies class_blocks_wf(
                        #[trigger] self.heads()[a],
                        block_size(a),
                    ) by {
                        if a == i {
                            let b0 = pre.heads()[i];
                            let b1 = self.heads()[i];
                            assert(class_blocks_wf(b0, block_size(a)));
                            assert forall|j: int|
                                0 <= j < b1.len() implies (#[trigger] b1[j]) as int % block_size(a)
                                == 0 && b1[j] + block_size(a) <= u64::MAX by {
                                if j > 0 {
                                    assert(b1[j] == b0[j - 1]);
                                }
                            }
                        }
                    }
                    assert forall|lo: int, hi: int|
                        #![trigger pre.within(lo, hi)]
                        pre.within(lo, hi) && lo <= ptr && ptr + block_size(i) <= hi implies
                        self.within(lo, hi) by {
                        assert forall|a: int, j: int|
                            #![trigger self.heads()[a][j]]
                            0 <= a < 9 && 0 <= j < self.heads()[a].len() implies lo
                            <= self.heads()[a][j] && self.heads()[a][j] + block_size(a) <= hi by {
                            if a == i {
                                if j > 0 {
                                    assert(self.heads()[a][j] == pre.heads()[a][j - 1]);
                                }
                            } else {
                                assert(self.heads()[a][j] == pre.heads()[a][j]);
                            }
                        }
                        assert(self.fallback() == pre.fallback());
                    }
                    if pre.free_disjoint() && pre.range_free_disjoint(
                        ptr as int,
                        block_size(i),
                    ) {
                        assert forall|a1: int, j1: int, a2: int, j2: int|
                            #![trigger self.heads()[a1][j1], self.heads()[a2][j2]]
                            0 <= a1 < 9 && 0 <= j1 < self.heads()[a1].len() && 0 <= a2 < 9 && 0
                            <= j2 < self.heads()[a2].len() && (a1 != a2 || j1 != j2) implies
                            self.heads()[a1][j1] + block_size(a1) <= self.heads()[a2][j2]
                            || self.heads()[a2][j2] + block_size(a2) <= self.heads()[a1][j1] by {
                            if a1 == i && j1 == 0 {
                                let j2p = if a2 == i { j2 - 1 } else { j2 };
                                assert(self.heads()[a2][j2] == pre.heads()[a2][j2p]);
                            } else if a2 == i && j2 == 0 {
                                let j1p = if a1 == i { j1 - 1 } else { j1 };
                                assert(self.heads()[a1][j1] == pre.heads()[a1][j1p]);
                            } else {
                                let j1p = if a1 == i { j1 - 1 } else { j1 };
                                let j2p = if a2 == i { j2 - 1 } else { j2 };
                                assert(self.heads()[a1][j1] == pre.heads()[a1][j1p]);
                                assert(self.heads()[a2][j2] == pre.heads()[a2][j2p]);
                            }
                        }
                        assert forall|a: int, j: int, k2: int|
                            #![trigger self.heads()[a][j], self.fallback().regions()[k2]]
                            0 <= a < 9 && 0 <= j < self.heads()[a].len() && 0 <= k2
                            < self.fallback().regions().len() implies self.heads()[a][j]
                            + block_size(a) <= self.fallback().regions()[k2].addr
                            || self.fallback().regions()[k2].addr
                            + self.fallback().regions()[k2].size <= self.heads()[a][j] by {
                            assert(self.fallback().regions()[k2] == pre.fallback().regions()[k2]);
                            if !(a == i && j == 0) {
                                let jp = if a == i { j - 1 } else { j };
                                assert(self.heads()[a][j] == pre.heads()[a][jp]);
                            }
                        }
                    }
                }
            },
            None => {
                self.fallback_allocator.deallocate(ptr, layout);
                proof {
                    assert forall|lo: int, hi: int|
                        #![trigger pre.within(lo, hi)]
                        pre.within(lo, hi) && lo <= ptr && ptr + padded_size(layout) <= hi implies
                        self.within(lo, hi) by {
                        let r0 = pre.fallback().regions();
                        let r1 = self.fallback().regions();
                        assert forall|k: int|
                            0 <= k < r1.len() implies lo <= (#[trigger] r1[k]).addr && r1[k].addr
                            + r1[k].size <= hi by {
                            if k > 0 {
                                assert(r1[k] == r0[k - 1]);
                            }
                        }
                        assert(self.heads() == pre.heads());
                    }
                    if pre.free_disjoint() && pre.range_free_disjoint(
                        ptr as int,
                        padded_size(layout),
                    ) {
                        let r0 = pre.fallback().regions();
                        let r1 = self.fallback().regions();
                        assert forall|a: int, j: int, k2: int|
                            #![trigger self.heads()[a][j], r1[k2]]
                            0 <= a < 9 && 0 <= j < self.heads()[a].len() && 0 <= k2 < r1.len()
                            implies self.heads()[a][j] + block_size(a) <= r1[k2].addr
                            || r1[k2].addr + r1[k2].size <= self.heads()[a][j] by {
                            assert(self.heads()[a][j] == pre.heads()[a][j]);
                            if k2 > 0 {
                                assert(r1[k2] == r0[k2 - 1]);
                            }
                        }
                    }
                }
            },
        }
    }
}

} // verus!
