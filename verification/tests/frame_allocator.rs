use rust_kernel::memory::frame_allocator::{
    check_memory_map, BitmapFrameAllocator, BootInfoFrameAllocator, EmptyFrameAllocator,
    FrameAllocator, MemoryRegion, MemoryRegionType,
};

fn two_region_map() -> Vec<MemoryRegion> {
    vec![
        MemoryRegion { start: 0x0, end: 0x4000, region_type: MemoryRegionType::Usable },
        MemoryRegion { start: 0x4000, end: 0x10000, region_type: MemoryRegionType::Reserved },
        MemoryRegion { start: 0x10000, end: 0x12000, region_type: MemoryRegionType::Usable },
    ]
}

#[test]
fn bootinfo_allocates_each_usable_frame_once() {
    let mut alloc = BootInfoFrameAllocator::init(two_region_map());
    let expected = [0x0u64, 0x1000, 0x2000, 0x3000, 0x10000, 0x11000];
    let mut seen = Vec::new();
    for e in expected {
        let f = alloc.allocate_frame().expect("usable frame expected");
        assert_eq!(f, e);
        assert_eq!(f % 4096, 0);
        assert!(!seen.contains(&f));
        seen.push(f);
    }
    // beyond exhaustion every allocation reports absence, and the
    // allocation counter keeps advancing past the end
    assert_eq!(alloc.next, 6);
    assert_eq!(alloc.allocate_frame(), None);
    assert_eq!(alloc.next, 7);
    assert_eq!(alloc.allocate_frame(), None);
    assert_eq!(alloc.next, 8);
}

#[test]
fn memory_map_check_accepts_valid_and_rejects_broken_maps() {
    assert!(check_memory_map(&two_region_map()));
    assert!(check_memory_map(&vec![]));
    // unaligned region end
    assert!(!check_memory_map(&vec![MemoryRegion {
        start: 0x1000,
        end: 0x1800,
        region_type: MemoryRegionType::Usable,
    }]));
    // overlapping regions
    assert!(!check_memory_map(&vec![
        MemoryRegion { start: 0x0, end: 0x4000, region_type: MemoryRegionType::Usable },
        MemoryRegion { start: 0x2000, end: 0x8000, region_type: MemoryRegionType::Usable },
    ]));
}

#[test]
fn bootinfo_reports_sizes() {
    let alloc = BootInfoFrameAllocator::init(two_region_map());
    assert_eq!(alloc.available_frames(), 6);
    assert_eq!(alloc.total_memory_size(), 0x4000 + 0xC000 + 0x2000);
    assert_eq!(alloc.usable_memory_size(), 0x4000 + 0x2000);
}

#[test]
fn empty_allocator_is_always_exhausted() {
    let mut alloc = EmptyFrameAllocator;
    assert_eq!(alloc.allocate_frame(), None);
}

#[test]
fn bitmap_marks_and_frees_frames() {
    let mut alloc = BitmapFrameAllocator::new(vec![0u8; 2], 10, 16);
    assert!(!alloc.is_frame_allocated(10));
    alloc.mark_frame_allocated(10);
    assert!(alloc.is_frame_allocated(10));
    alloc.mark_frame_free(10);
    assert!(!alloc.is_frame_allocated(10));
    // out-of-range numbers are never reported allocated
    assert!(!alloc.is_frame_allocated(9));
    assert!(!alloc.is_frame_allocated(26));
    alloc.mark_frame_allocated(26);
    assert!(!alloc.is_frame_allocated(26));
}

#[test]
fn bitmap_allocates_lowest_free_frame_and_reuses_freed() {
    let mut alloc = BitmapFrameAllocator::new(vec![0u8; 2], 10, 16);
    assert_eq!(alloc.allocate_frame(), Some(10 * 4096));
    assert_eq!(alloc.allocate_frame(), Some(11 * 4096));
    for n in 12..26 {
        assert_eq!(alloc.allocate_frame(), Some(n * 4096));
    }
    assert_eq!(alloc.allocate_frame(), None);
    alloc.mark_frame_free(17);
    assert_eq!(alloc.allocate_frame(), Some(17 * 4096));
    assert_eq!(alloc.allocate_frame(), None);
}

#[test]
fn bitmap_find_free_frame_skips_allocated() {
    let mut alloc = BitmapFrameAllocator::new(vec![0u8; 1], 0, 8);
    alloc.mark_frame_allocated(0);
    alloc.mark_frame_allocated(1);
    assert_eq!(alloc.find_free_frame(), Some(2));
}
