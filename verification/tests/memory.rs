use rustos::allocator::fixed::FixedSizeBlockAllocator;
use rustos::allocator::init_heap;
use rustos::memory::{
    translate_addr, BootInfoFrameAllocator, EmptyFrameAllocator, FrameSource, MapError, Mapper,
    MemoryRegion, PageMapper, PageTables,
};

#[test]
fn empty_frame_allocator_is_exhausted() {
    let mut f = EmptyFrameAllocator;
    assert_eq!(f.allocate_frame(), None);
}

#[test]
fn frame_allocator_walks_usable_regions() {
    let map = vec![
        MemoryRegion { start: 0x0, end: 0x2000, usable: true },
        MemoryRegion { start: 0x5000, end: 0x5800, usable: false },
        MemoryRegion { start: 0x7800, end: 0x8800, usable: true },
    ];
    let mut f = BootInfoFrameAllocator::init(map);
    assert_eq!(f.allocate_frame(), Some(0x0));
    assert_eq!(f.allocate_frame(), Some(0x1000));
    assert_eq!(f.allocate_frame(), Some(0x7000));
    assert_eq!(f.allocate_frame(), None);
    assert_eq!(f.allocate_frame(), None);
}

#[test]
fn mapper_refuses_remapping() {
    let mut m = PageMapper::new();
    assert_eq!(m.map(0x1000, 0x2000, true), Ok(()));
    assert_eq!(m.map(0x2000, 0x3000, false), Ok(()));
    assert_eq!(m.map(0x1000, 0x4000, true), Err(MapError::PageAlreadyMapped));
}

fn table_with(index: usize, entry: u64) -> Vec<u64> {
    let mut t = vec![0u64; 512];
    t[index] = entry;
    t
}

#[test]
fn translate_follows_four_levels() {
    let mut pt = PageTables::new();
    pt.insert_table(0x1000, table_with(0, 0x2000 | 1));
    pt.insert_table(0x2000, table_with(0, 0x3000 | 1));
    pt.insert_table(0x3000, table_with(0, 0x4000 | 1));
    pt.insert_table(0x4000, table_with(0, 0xb000 | 1));
    assert_eq!(translate_addr(&pt, 0x1000, 0x123), Some(0xb123));
}

#[test]
fn translate_reports_unmapped_address() {
    let mut pt = PageTables::new();
    pt.insert_table(0x1000, table_with(0, 0x2000 | 1));
    pt.insert_table(0x2000, table_with(0, 0x3000 | 1));
    pt.insert_table(0x3000, table_with(0, 0x4000 | 1));
    pt.insert_table(0x4000, table_with(1, 0xb000 | 1));
    // The level-1 entry at index 0 is not present.
    assert_eq!(translate_addr(&pt, 0x1000, 0x123), None);
}

#[test]
fn init_heap_fails_without_frames() {
    let mut mapper = PageMapper::new();
    let mut frames = EmptyFrameAllocator;
    let mut allocator = FixedSizeBlockAllocator::new();
    assert_eq!(
        init_heap(&mut mapper, &mut frames, &mut allocator),
        Err(MapError::FrameAllocationFailed)
    );
}

#[test]
fn init_heap_maps_whole_range_then_serves() {
    let mut mapper = PageMapper::new();
    // 26 pages cover the 100 KiB heap range; offer a few more frames.
    let mut frames = BootInfoFrameAllocator::init(vec![MemoryRegion {
        start: 0x10_0000,
        end: 0x10_0000 + 32 * 4096,
        usable: true,
    }]);
    let mut allocator = FixedSizeBlockAllocator::new();
    assert_eq!(init_heap(&mut mapper, &mut frames, &mut allocator), Ok(()));
    let p = allocator
        .allocate(rustos::allocator::Layout { size: 8, align: 8 })
        .unwrap();
    assert!(p >= rustos::allocator::HEAP_START);
    assert!(p + 8 <= rustos::allocator::HEAP_START + rustos::allocator::HEAP_SIZE);
}
