use rustos::allocator::align_up;
use rustos::allocator::bump::BmpAlloc;
use rustos::allocator::fixed::{list_index, FixedSizeBlockAllocator};
use rustos::allocator::list::LinkedListAllocator;
use rustos::allocator::{ExampleAllocator, Layout, HEAP_SIZE, HEAP_START};

#[test]
fn align_up_exact_values() {
    assert_eq!(align_up(5, 4), 8);
    assert_eq!(align_up(8, 8), 8);
    assert_eq!(align_up(0, 16), 0);
    assert_eq!(align_up(0x4444_4444_4444, 8), 0x4444_4444_4448);
}

#[test]
fn example_allocator_always_fails() {
    let a = ExampleAllocator;
    assert_eq!(a.allocate(Layout { size: 8, align: 8 }), None);
}

#[test]
fn bump_allocates_aligned_and_disjoint() {
    let mut b = BmpAlloc::new();
    b.init(0x1000, 0x1000);
    let p1 = b.allocate(Layout { size: 5, align: 8 }).unwrap();
    assert_eq!(p1, 0x1000);
    let p2 = b.allocate(Layout { size: 5, align: 8 }).unwrap();
    assert_eq!(p2, 0x1008);
    assert!(p1 + 5 <= p2);
}

#[test]
fn bump_reset_reuses_address() {
    let mut b = BmpAlloc::new();
    b.init(0x1000, 0x1000);
    let p1 = b.allocate(Layout { size: 64, align: 8 }).unwrap();
    b.deallocate(p1, Layout { size: 64, align: 8 });
    let p2 = b.allocate(Layout { size: 32, align: 8 }).unwrap();
    assert_eq!(p2, p1);
}

#[test]
fn bump_oversized_request_fails() {
    let mut b = BmpAlloc::new();
    b.init(0x1000, 0x1000);
    assert_eq!(b.allocate(Layout { size: 0x1001, align: 1 }), None);
}

#[test]
fn list_free_then_exact_reuse() {
    let mut a = LinkedListAllocator::new();
    a.init(0x1000, 0x1000);
    assert_eq!(a.free_region_count(), 1);
    let l = Layout { size: 32, align: 8 };
    let p = a.allocate(l).unwrap();
    assert_eq!(p, 0x1000);
    assert_eq!(a.free_region_count(), 1);
    a.deallocate(p, l);
    assert_eq!(a.free_region_count(), 2);
    let p2 = a.allocate(l).unwrap();
    assert_eq!(p2, p);
    assert_eq!(a.free_region_count(), 1);
}

#[test]
fn list_oversized_request_fails() {
    let mut a = LinkedListAllocator::new();
    a.init(0x1000, 0x1000);
    assert_eq!(a.allocate(Layout { size: 0x1001, align: 1 }), None);
}

#[test]
fn list_allocation_respects_alignment() {
    let mut a = LinkedListAllocator::new();
    a.init(0x1000, 0x1000);
    let small = a.allocate(Layout { size: 24, align: 8 }).unwrap();
    assert_eq!(small, 0x1000);
    let p = a.allocate(Layout { size: 64, align: 64 }).unwrap();
    assert_eq!(p % 64, 0);
}

#[test]
fn fixed_class_lookup() {
    assert_eq!(list_index(&Layout { size: 1, align: 1 }), Some(0));
    assert_eq!(list_index(&Layout { size: 10, align: 8 }), Some(1));
    assert_eq!(list_index(&Layout { size: 100, align: 128 }), Some(4));
    assert_eq!(list_index(&Layout { size: 2048, align: 8 }), Some(8));
    assert_eq!(list_index(&Layout { size: 2049, align: 1 }), None);
}

#[test]
fn fixed_class_lifo_reuse() {
    let mut a = FixedSizeBlockAllocator::new();
    a.init(0x1_0000, 0x1_0000);
    let l = Layout { size: 10, align: 8 };
    let p = a.allocate(l).unwrap();
    assert_eq!(p % 16, 0);
    assert!(p >= 0x1_0000 && p + 10 <= 0x2_0000);
    a.deallocate(p, l);
    let p2 = a.allocate(l).unwrap();
    assert_eq!(p2, p);
    assert!(p2 >= 0x1_0000 && p2 + 10 <= 0x2_0000);
}

#[test]
fn fixed_oversized_request_fails() {
    let mut a = FixedSizeBlockAllocator::new();
    a.init(0x1_0000, 0x1_0000);
    assert_eq!(a.allocate(Layout { size: 0x1_0001, align: 1 }), None);
}

#[test]
fn fixed_fallback_for_large_requests() {
    let mut a = FixedSizeBlockAllocator::new();
    a.init(0x1_0000, 0x1_0000);
    let p = a.allocate(Layout { size: 4096, align: 8 }).unwrap();
    assert_eq!(p, 0x1_0000);
    a.deallocate(p, Layout { size: 4096, align: 8 });
    let p2 = a.allocate(Layout { size: 4096, align: 8 }).unwrap();
    assert_eq!(p2, p);
}

struct SimHeap {
    bytes: Vec<u8>,
}

impl SimHeap {
    fn new() -> SimHeap {
        SimHeap { bytes: vec![0u8; HEAP_SIZE as usize] }
    }

    fn write_u64(&mut self, addr: u64, v: u64) {
        let i = (addr - HEAP_START) as usize;
        self.bytes[i..i + 8].copy_from_slice(&v.to_le_bytes());
    }

    fn read_u64(&self, addr: u64) -> u64 {
        let i = (addr - HEAP_START) as usize;
        let mut b = [0u8; 8];
        b.copy_from_slice(&self.bytes[i..i + 8]);
        u64::from_le_bytes(b)
    }
}

#[test]
fn end_to_end_heap_usage() {
    let mut a = FixedSizeBlockAllocator::new();
    a.init(HEAP_START, HEAP_SIZE);
    let mut mem = SimHeap::new();
    let l = Layout { size: 8, align: 8 };

    // One boxed value: write it, read it back.
    let p = a.allocate(l).unwrap();
    assert!(p >= HEAP_START && p + 8 <= HEAP_START + HEAP_SIZE);
    mem.write_u64(p, 42);
    assert_eq!(mem.read_u64(p), 42);
    a.deallocate(p, l);

    // A growable sequence of 1000 values 0..999: their sum is 499500.
    let mut ptrs = Vec::new();
    for i in 0..1000u64 {
        let q = a.allocate(l).unwrap();
        assert!(q >= HEAP_START && q + 8 <= HEAP_START + HEAP_SIZE);
        mem.write_u64(q, i);
        ptrs.push(q);
    }
    let sum: u64 = ptrs.iter().map(|&q| mem.read_u64(q)).sum();
    assert_eq!(sum, 499500);
    for &q in &ptrs {
        a.deallocate(q, l);
    }

    // HEAP_SIZE short-lived values in a row: each allocation succeeds and
    // holds its value while live.
    for i in 0..HEAP_SIZE {
        let q = a.allocate(l).unwrap();
        mem.write_u64(q, i);
        assert_eq!(mem.read_u64(q), i);
        a.deallocate(q, l);
    }
}
