//! The allocator interface shared by every strategy: allocation request
//! descriptors, the alignment helper, the fixed heap range, and the heap
//! backing step that maps the range and hands it to the active strategy.
//!
//! Addresses and sizes are 64-bit values, the machine word of the target
//! this kernel runs on.

use vstd::prelude::*;
use vstd::arithmetic::div_mod::{
    lemma_fundamental_div_mod, lemma_mod_bound, lemma_mod_multiples_basic,
};

pub mod bump;
pub mod fixed;
pub mod list;

verus! {

/// Base virtual address of the kernel heap.
pub const HEAP_START: u64 = 0x4444_4444_4444;

/// Size of the kernel heap in bytes (100 KiB).
pub const HEAP_SIZE: u64 = 100 * 1024;

/// `n` is a positive power of two.
pub open spec fn is_pow2(n: int) -> bool
    decreases n,
{
    if n <= 0 {
        false
    } else if n == 1 {
        true
    } else {
        n % 2 == 0 && is_pow2(n / 2)
    }
}

/// An allocation request: a byte count and a required alignment.
///
/// Mirrors the request descriptor produced by every call site; `align` is
/// always a power of two, and the size rounded up to that alignment fits in
/// a signed machine word, as the platform's layout rules guarantee.
#[derive(Clone, Copy)]
pub struct Layout {
    pub size: u64,
    pub align: u64,
}

impl Layout {
    /// The validity condition every request descriptor satisfies.
    pub open spec fn wf(self) -> bool {
        &&& is_pow2(self.align as int)
        &&& align_up_spec(self.size as int, self.align as int) <= 0x7fff_ffff_ffff_ffff
    }

    pub fn new(size: u64, align: u64) -> (r: Layout)
        requires
            is_pow2(align as int),
            align_up_spec(size as int, align as int) <= 0x7fff_ffff_ffff_ffff,
        ensures
            r.wf(),
            r.size == size,
            r.align == align,
    {
        Layout { size, align }
    }
}

/// `addr` rounded up to the next multiple of `align`.
pub open spec fn align_up_spec(addr: int, align: int) -> int {
    if addr % align == 0 {
        addr
    } else {
        addr - addr % align + align
    }
}

/// Rounding up to a positive alignment lands on a multiple of it and moves
/// the address forward by less than one alignment step.
pub proof fn lemma_align_up(addr: int, align: int)
    requires
        align > 0,
        addr >= 0,
    ensures
        addr <= align_up_spec(addr, align) < addr + align,
        align_up_spec(addr, align) % align == 0,
{
    lemma_fundamental_div_mod(addr, align);
    lemma_mod_bound(addr, align);
    if addr % align != 0 {
        let q: int = addr / align;
        assert(addr - addr % align + align == (q + 1) * align) by (nonlinear_arith)
            requires addr == align * q + addr % align,
        ;
        lemma_mod_multiples_basic(q + 1, align);
    }
}

/// The remainder of a non-negative value is at most the value itself.
pub proof fn lemma_mod_le(x: int, m: int)
    requires
        x >= 0,
        m > 0,
    ensures
        0 <= x % m <= x,
        x % m < m,
{
    lemma_mod_bound(x, m);
    lemma_fundamental_div_mod(x, m);
    assert(x % m <= x) by (nonlinear_arith)
        requires
            x == m * (x / m) + x % m,
            m > 0,
            x >= 0,
            0 <= x % m < m,
    ;
}

/// Powers of two are positive.
pub proof fn lemma_pow2_pos(n: int)
    requires
        is_pow2(n),
    ensures
        n >= 1,
{
}

/// A power of two at most `b` (itself a power of two) divides `b`.
pub proof fn lemma_pow2_divides(a: int, b: int)
    requires
        is_pow2(a),
        is_pow2(b),
        a <= b,
    ensures
        b % a == 0,
    decreases b,
{
    if b == 1 {
        assert(a == 1);
        lemma_mod_multiples_basic(1, 1);
    } else if a == 1 {
        lemma_mod_multiples_basic(b, 1);
    } else if a == b {
        lemma_mod_multiples_basic(1, a);
    } else {
        lemma_pow2_divides(a / 2, b / 2);
        let k: int = (b / 2) / (a / 2);
        lemma_fundamental_div_mod(b / 2, a / 2);
        lemma_fundamental_div_mod(a, 2);
        lemma_fundamental_div_mod(b, 2);
        assert(b == k * a) by (nonlinear_arith)
            requires
                b / 2 == (a / 2) * k + (b / 2) % (a / 2),
                (b / 2) % (a / 2) == 0,
                a % 2 == 0,
                b % 2 == 0,
                a == 2 * (a / 2) + a % 2,
                b == 2 * (b / 2) + b % 2,
        ;
        lemma_mod_multiples_basic(k, a);
    }
}

/// A value aligned to `b` is aligned to any positive divisor `a` of `b`.
pub proof fn lemma_aligned_to_divisor(p: int, a: int, b: int)
    requires
        a > 0,
        b > 0,
        p >= 0,
        p % b == 0,
        b % a == 0,
    ensures
        p % a == 0,
{
    let m: int = p / b;
    let n: int = b / a;
    lemma_fundamental_div_mod(p, b);
    lemma_fundamental_div_mod(b, a);
    assert(p == (m * n) * a) by (nonlinear_arith)
        requires
            p == b * m + p % b,
            b == a * n + b % a,
            p % b == 0,
            b % a == 0,
    ;
    lemma_mod_multiples_basic(m * n, a);
}

/// Round `addr` up to the next multiple of `align`.
pub fn align_up(addr: u64, align: u64) -> (r: u64)
    requires
        align > 0,
        align_up_spec(addr as int, align as int) <= u64::MAX,
    ensures
        r == align_up_spec(addr as int, align as int),
{
    proof {
        lemma_mod_le(addr as int, align as int);
    }
    let remainder: u64 = addr % align;
    if remainder == 0 {
        addr
    } else {
        addr - remainder + align
    }
}

/// Whether `p` is one of the pages covering the heap range.
pub open spec fn heap_page(p: u64) -> bool {
    &&& p % 4096 == 0
    &&& HEAP_START - HEAP_START % 4096 <= p
    &&& p <= (HEAP_START + HEAP_SIZE - 1) - (HEAP_START + HEAP_SIZE - 1) % 4096
}

/// How many pages cover the heap range.
pub open spec fn heap_page_count() -> int {
    ((HEAP_START + HEAP_SIZE - 1) - (HEAP_START + HEAP_SIZE - 1) % 4096 - (HEAP_START - HEAP_START
        % 4096)) / 4096 + 1
}

/// The heap backing step: walk the pages covering the heap range in
/// ascending order, request one fresh frame for each and map it writable,
/// then hand the range to the active strategy's initializer. Fails
/// immediately, before the strategy sees the range, if a frame cannot be
/// had or a mapping is refused; pages already mapped stay mapped, existing
/// translations outside the heap range are untouched, and success is owed
/// whenever the supplier holds a frame per page and the mapper reserves no
/// right to refuse any of them.
pub fn init_heap<M: crate::memory::Mapper, F: crate::memory::FrameSource>(
    mapper: &mut M,
    frame_allocator: &mut F,
    allocator: &mut crate::allocator::fixed::FixedSizeBlockAllocator,
) -> (r: Result<(), crate::memory::MapError>)
    requires
        old(allocator).wf(),
        old(allocator).fallback().regions().len() == 0,
    ensures
        final(allocator).wf(),
        r is Err ==> *final(allocator) == *old(allocator),
        // Whatever the outcome: every translation installed before the call
        // is still installed, translations outside the heap's pages are
        // untouched, and anything newly installed is a writable mapping of
        // a heap page to a frame-aligned frame.
        forall|p: u64|
            old(mapper).mappings().contains_key(p)
                ==> (#[trigger] final(mapper).mappings().contains_key(p)),
        forall|p: u64|
            old(mapper).mappings().contains_key(p) && !heap_page(p)
                ==> (#[trigger] final(mapper).mappings()[p]) == old(mapper).mappings()[p],
        forall|p: u64|
            (#[trigger] final(mapper).mappings().contains_key(p))
                && !old(mapper).mappings().contains_key(p)
                ==> heap_page(p) && final(mapper).mappings()[p].1
                && final(mapper).mappings()[p].0 as int % 4096 == 0,
        // A supplier that is already dry fails the very first page, and one
        // holding fewer frames than the heap has pages runs dry against a
        // mapper that refuses nothing.
        old(frame_allocator).frames_left() <= 0 ==> r == Err::<(), crate::memory::MapError>(
            crate::memory::MapError::FrameAllocationFailed,
        ),
        (old(frame_allocator).frames_left() < heap_page_count() && (forall|p: u64|
            heap_page(p) ==> !(#[trigger] old(mapper).refuses(p)))) ==> r == Err::<
            (),
            crate::memory::MapError,
        >(crate::memory::MapError::FrameAllocationFailed),
        // A report that a page was already mapped is truthful of the state
        // before the call.
        r == Err::<(), crate::memory::MapError>(crate::memory::MapError::PageAlreadyMapped)
            ==> exists|p: u64|
            heap_page(p) && (#[trigger] old(mapper).mappings().contains_key(p)),
        // Success is owed when the collaborators cannot fail.
        (old(frame_allocator).frames_left() >= heap_page_count() && (forall|p: u64|
            heap_page(p) ==> !(#[trigger] old(mapper).refuses(p)))) ==> r is Ok,
        r is Ok ==> {
            &&& forall|a: u64|
                HEAP_START <= a < HEAP_START + HEAP_SIZE ==> (
                #[trigger] final(mapper).mappings().contains_key((a - a % 4096) as u64))
                    && final(mapper).mappings()[(a - a % 4096) as u64].1
            &&& final(allocator).heads() == old(allocator).heads()
            &&& final(allocator).fallback().regions() =~= seq![
                (crate::allocator::list::Node {
                    addr: align_up_spec(
                        HEAP_START as int,
                        crate::allocator::list::NODE_ALIGN as int,
                    ) as u64,
                    size: (HEAP_START + HEAP_SIZE - align_up_spec(
                        HEAP_START as int,
                        crate::allocator::list::NODE_ALIGN as int,
                    )) as u64,
                }),
            ]
        },
{
    let start_page: u64 = HEAP_START - HEAP_START % 4096;
    let end_addr: u64 = HEAP_START + HEAP_SIZE - 1;
    let last_page: u64 = end_addr - end_addr % 4096;
    let mut page: u64 = start_page;
    let ghost mut k: int = 0;
    while page <= last_page
        invariant
            start_page == HEAP_START - HEAP_START as int % 4096,
            last_page == (HEAP_START + HEAP_SIZE - 1) - (HEAP_START + HEAP_SIZE - 1) % 4096,
            page % 4096 == 0,
            start_page <= page <= last_page + 4096,
            page == start_page + 4096 * k,
            0 <= k,
            *allocator == *old(allocator),
            old(allocator).wf(),
            old(allocator).fallback().regions().len() == 0,
            forall|p2: u64|
                start_page <= p2 < page && p2 % 4096 == 0 ==> (#[trigger] mapper.mappings().contains_key(
                    p2,
                )) && mapper.mappings()[p2].1,
            forall|p: u64|
                old(mapper).mappings().contains_key(p)
                    ==> (#[trigger] mapper.mappings().contains_key(p)),
            forall|p: u64|
                old(mapper).mappings().contains_key(p) && !heap_page(p)
                    ==> (#[trigger] mapper.mappings()[p]) == old(mapper).mappings()[p],
            forall|p: u64|
                (#[trigger] mapper.mappings().contains_key(p))
                    && !old(mapper).mappings().contains_key(p)
                    ==> heap_page(p) && p < page && mapper.mappings()[p].1
                    && mapper.mappings()[p].0 as int % 4096 == 0,
            frame_allocator.frames_left() <= old(frame_allocator).frames_left(),
            (forall|p: u64| heap_page(p) ==> !(#[trigger] old(mapper).refuses(p)))
                ==> frame_allocator.frames_left() == old(frame_allocator).frames_left() - k,
            ((forall|p: u64| heap_page(p) ==> !(#[trigger] old(mapper).refuses(p))) && k >= 1)
                ==> old(frame_allocator).frames_left() >= k,
            frame_allocator.frames_left() >= old(frame_allocator).frames_left() - k,
            k >= 1 ==> old(frame_allocator).frames_left() >= 1,
            (forall|p: u64| heap_page(p) ==> !(#[trigger] old(mapper).refuses(p)))
                ==> (forall|p: u64|
                heap_page(p) && p >= page ==> !(#[trigger] mapper.refuses(p))),
        decreases last_page + 4096 - page,
    {
        let frame = match frame_allocator.allocate_frame() {
            Some(f) => f,
            None => {
                return Err(crate::memory::MapError::FrameAllocationFailed);
            },
        };
        proof {
            assert(heap_page(page));
        }
        match mapper.map(page, frame, true) {
            Ok(()) => {},
            Err(e) => {
                return Err(e);
            },
        }
        page = page + 4096;
        proof {
            k = k + 1;
        }
    }
    proof {
        assert forall|a: u64| HEAP_START <= a < HEAP_START + HEAP_SIZE implies (
        #[trigger] mapper.mappings().contains_key((a - a % 4096) as u64)) && mapper.mappings()[
            (a - a % 4096) as u64
        ].1 by {
            let pg = a as int - a as int % 4096;
            lemma_fundamental_div_mod(a as int, 4096);
            lemma_mod_bound(a as int, 4096);
            lemma_fundamental_div_mod(HEAP_START as int, 4096);
            lemma_fundamental_div_mod(HEAP_START as int + HEAP_SIZE as int - 1, 4096);
            vstd::arithmetic::div_mod::lemma_div_is_ordered(HEAP_START as int, a as int, 4096);
            vstd::arithmetic::div_mod::lemma_div_is_ordered(
                a as int,
                HEAP_START as int + HEAP_SIZE as int - 1,
                4096,
            );
            assert(start_page <= pg <= last_page) by (nonlinear_arith)
                requires
                    pg == 4096 * (a as int / 4096),
                    start_page == 4096 * (HEAP_START as int / 4096),
                    last_page == 4096 * ((HEAP_START as int + HEAP_SIZE as int - 1) / 4096),
                    HEAP_START as int / 4096 <= a as int / 4096,
                    a as int / 4096 <= (HEAP_START as int + HEAP_SIZE as int - 1) / 4096,
            ;
            assert(pg % 4096 == 0) by (nonlinear_arith)
                requires pg == 4096 * (a as int / 4096),
            ;
        }
    }
    allocator.init(HEAP_START, HEAP_SIZE);
    Ok(())
}

/// The no-op allocator: it owns no memory and refuses every request.
pub struct ExampleAllocator;

impl ExampleAllocator {
    /// Always fails: this allocator has nothing to hand out.
    pub fn allocate(&self, _layout: Layout) -> (r: Option<u64>)
        ensures
            r is None,
    {
        None
    }

    /// Nothing is ever handed out, so any release violates the caller
    /// contract (release only what a live allocation returned); the call is
    /// a no-op here.
    pub fn deallocate(&self, _ptr: u64, _layout: Layout) {
    }
}

} // verus!
