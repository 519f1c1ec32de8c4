use rust_kernel::memory::frame_allocator::{
    BitmapFrameAllocator, EmptyFrameAllocator, FrameAllocator,
};
use rust_kernel::memory::paging::{
    init, map_page_to_frame, map_range, unmap_page, virt_to_phys, MapError, PageTable,
    PageTableEntry, PageTables, UnmapError, PAGE_PRESENT, PAGE_WRITABLE,
};

fn table_allocator() -> BitmapFrameAllocator {
    // plenty of frames for intermediate tables and heap pages
    BitmapFrameAllocator::new(vec![0u8; 64], 256, 512)
}

#[test]
fn translate_on_empty_hierarchy_is_absent() {
    let pt = init();
    assert_eq!(virt_to_phys(&pt, 0), None);
    assert_eq!(virt_to_phys(&pt, 0x1234_5678), None);
    assert_eq!(virt_to_phys(&pt, 0xFFFF_FFFF_FFFF_0000), None);
}

#[test]
fn map_then_translate_returns_mapped_frame_plus_offset() {
    let mut pt = init();
    let mut alloc = table_allocator();
    let page = 0x0000_0012_3456_7000u64 & !0xFFF;
    let frame = 0x77_7000u64;
    map_page_to_frame(&mut pt, &mut alloc, page, frame, PAGE_PRESENT | PAGE_WRITABLE)
        .expect("map should succeed");
    assert_eq!(virt_to_phys(&pt, page), Some(frame));
    assert_eq!(virt_to_phys(&pt, page + 0xABC), Some(frame + 0xABC));
    // neighbours stay unmapped
    assert_eq!(virt_to_phys(&pt, page + 0x1000), None);
    assert_eq!(virt_to_phys(&pt, page - 0x1000), None);
}

#[test]
fn mapping_twice_reports_already_mapped() {
    let mut pt = init();
    let mut alloc = table_allocator();
    let page = 0x4000_0000u64;
    map_page_to_frame(&mut pt, &mut alloc, page, 0x1000, PAGE_PRESENT).unwrap();
    let r = map_page_to_frame(&mut pt, &mut alloc, page, 0x2000, PAGE_PRESENT);
    assert_eq!(r, Err(MapError::PageAlreadyMapped));
    // the first mapping is untouched
    assert_eq!(virt_to_phys(&pt, page), Some(0x1000));
}

#[test]
fn exhausted_frame_allocator_fails_mapping() {
    let mut pt = init();
    let mut alloc = EmptyFrameAllocator;
    let r = map_page_to_frame(&mut pt, &mut alloc, 0x1000, 0x2000, PAGE_PRESENT);
    assert_eq!(r, Err(MapError::FrameAllocationFailed));
    assert_eq!(virt_to_phys(&pt, 0x1000), None);
}

#[test]
fn unmap_returns_frame_and_clears_translation() {
    let mut pt = init();
    let mut alloc = table_allocator();
    let page = 0x0000_0045_0000_0000u64;
    map_page_to_frame(&mut pt, &mut alloc, page, 0x9000, PAGE_PRESENT).unwrap();
    assert_eq!(unmap_page(&mut pt, page), Ok(0x9000));
    assert_eq!(virt_to_phys(&pt, page), None);
    assert_eq!(unmap_page(&mut pt, page), Err(UnmapError::PageNotMapped));
}

#[test]
fn map_range_maps_every_page() {
    let mut pt = init();
    let mut alloc = table_allocator();
    let start = 0x8000_0000u64;
    map_range(&mut pt, &mut alloc, start, 8, PAGE_PRESENT | PAGE_WRITABLE).unwrap();
    for j in 0..8u64 {
        assert!(virt_to_phys(&pt, start + 4096 * j).is_some());
    }
    assert_eq!(virt_to_phys(&pt, start + 4096 * 8), None);
}

fn empty_entries() -> Vec<PageTableEntry> {
    let mut entries = Vec::new();
    for _ in 0..512 {
        entries.push(PageTableEntry::NotPresent);
    }
    entries
}

#[test]
fn translate_resolves_one_gigabyte_leaf() {
    // va with index fields p4=1, p3=2, p2=3, p1=4 and offset 0x567
    let va = (1u64 << 39) | (2u64 << 30) | (3u64 << 21) | (4u64 << 12) | 0x567;
    let mut l3 = empty_entries();
    l3[2] = PageTableEntry::Leaf { base: 0xC000_0000, flags: PAGE_PRESENT };
    let mut root = empty_entries();
    root[1] = PageTableEntry::Table(Box::new(PageTable { entries: l3 }));
    let pt = PageTables { level_4_table: PageTable { entries: root } };
    let low30 = va & 0x3FFF_FFFF;
    assert_eq!(virt_to_phys(&pt, va), Some(0xC000_0000 + low30));
}

#[test]
fn translate_resolves_two_megabyte_leaf() {
    let va = (1u64 << 39) | (2u64 << 30) | (3u64 << 21) | (4u64 << 12) | 0x567;
    let mut l2 = empty_entries();
    l2[3] = PageTableEntry::Leaf { base: 0xA0_0000, flags: PAGE_PRESENT };
    let mut l3 = empty_entries();
    l3[2] = PageTableEntry::Table(Box::new(PageTable { entries: l2 }));
    let mut root = empty_entries();
    root[1] = PageTableEntry::Table(Box::new(PageTable { entries: l3 }));
    let pt = PageTables { level_4_table: PageTable { entries: root } };
    let low21 = va & 0x1F_FFFF;
    assert_eq!(virt_to_phys(&pt, va), Some(0xA0_0000 + low21));
}

#[test]
fn unmapping_under_a_huge_leaf_is_refused() {
    let va = (1u64 << 39) | (2u64 << 30);
    let mut l3 = empty_entries();
    l3[2] = PageTableEntry::Leaf { base: 0xC000_0000, flags: PAGE_PRESENT };
    let mut root = empty_entries();
    root[1] = PageTableEntry::Table(Box::new(PageTable { entries: l3 }));
    let mut pt = PageTables { level_4_table: PageTable { entries: root } };
    assert_eq!(unmap_page(&mut pt, va), Err(UnmapError::ParentEntryHugePage));
}
